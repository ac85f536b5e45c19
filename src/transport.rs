//! Post-handshake framing: every payload travels as an encrypted 2-byte
//! length followed by the encrypted payload, each with its own tag, and
//! each direction rotates its key after a fixed number of uses.

use vstd::prelude::*;
use crate::connection::ConnectionError;
use crate::crypto::{
    decrypt_with_counter, encrypt_with_counter, hkdf, hkdf_first, hkdf_second, nonce_of,
    seal_of, KEY_LEN, TAG_LEN,
};

verus! {

/// Number of uses of a key after which it is rotated.
pub const ROTATION_THRESHOLD: u64 = 1000;
/// Largest payload that one frame carries.
pub const MAX_PAYLOAD_LEN: usize = 65535;
/// Size of the encrypted length header of a frame.
pub const LENGTH_HEADER_LEN: usize = 18;
/// Largest frame on the wire: header, largest payload and its tag.
pub const MAX_TRANSPORT_FRAME_SIZE: usize = 65569;

/// Abstract state of one direction: key, chaining key, and nonce counter.
pub type KeyState = (Seq<u8>, Seq<u8>, u64);

/// State of one direction after its key has been used once: the counter
/// moves on, and on reaching the threshold the key and chaining key are
/// re-derived and the counter starts again at zero.
pub open spec fn advance(s: KeyState) -> KeyState {
    if s.2 + 1 == ROTATION_THRESHOLD {
        (hkdf_second(s.1, s.0), hkdf_first(s.1, s.0), 0)
    } else {
        (s.0, s.1, (s.2 + 1) as u64)
    }
}

/// Well-formed direction state.
pub open spec fn key_state_wf(s: KeyState) -> bool {
    s.0.len() == KEY_LEN && s.1.len() == KEY_LEN && s.2 < ROTATION_THRESHOLD
}

/// Ciphertext of `msg` under the current key and nonce of `s`.
pub open spec fn seal_in(s: KeyState, msg: Seq<u8>) -> Seq<u8> {
    seal_of(s.0, nonce_of(s.2), Seq::empty(), msg)
}

/// Big-endian encoding of a 16-bit length.
pub open spec fn be16(len: nat) -> Seq<u8> {
    seq![(len / 256) as u8, (len % 256) as u8]
}

/// The frame that carries `payload` from direction state `s`.
pub open spec fn frame_of(s: KeyState, payload: Seq<u8>) -> Seq<u8> {
    seal_in(s, be16(payload.len())) + seal_in(advance(s), payload)
}

/// Key material of one traffic direction.
#[derive(Debug)]
pub struct DirectionalKeys {
    pub key: Vec<u8>,
    pub chaining_key: Vec<u8>,
    pub nonce: u64,
}

impl View for DirectionalKeys {
    type V = KeyState;

    open spec fn view(&self) -> KeyState {
        (self.key@, self.chaining_key@, self.nonce)
    }
}

impl DirectionalKeys {
    pub open spec fn wf(&self) -> bool {
        key_state_wf(self@)
    }

    /// Fresh keys for a direction, at counter zero.
    pub fn new(key: Vec<u8>, chaining_key: Vec<u8>) -> (r: DirectionalKeys)
        requires
            key@.len() == KEY_LEN,
            chaining_key@.len() == KEY_LEN,
        ensures
            r@ == (key@, chaining_key@, 0u64),
            r.wf(),
    {
        DirectionalKeys { key, chaining_key, nonce: 0 }
    }

    /// Marks the current nonce as used, rotating the key at the threshold.
    fn use_nonce(&mut self)
        requires
            old(self).wf(),
        ensures
            final(self)@ == advance(old(self)@),
            final(self).wf(),
    {
        if self.nonce + 1 == ROTATION_THRESHOLD {
            let (ck, k) = hkdf(self.chaining_key.as_slice(), self.key.as_slice());
            self.chaining_key = ck;
            self.key = k;
            self.nonce = 0;
        } else {
            self.nonce = self.nonce + 1;
        }
    }

    /// Encrypts `msg` with the current key and nonce, then uses the nonce.
    pub fn seal(&mut self, msg: &[u8]) -> (r: Vec<u8>)
        requires
            old(self).wf(),
            msg@.len() <= MAX_PAYLOAD_LEN,
        ensures
            r@ == seal_in(old(self)@, msg@),
            r@.len() == msg@.len() + TAG_LEN,
            final(self)@ == advance(old(self)@),
            final(self).wf(),
    {
        let no_ad: Vec<u8> = Vec::new();
        let r = encrypt_with_counter(self.key.as_slice(), self.nonce, no_ad.as_slice(), msg);
        assert(no_ad@ =~= Seq::<u8>::empty());
        self.use_nonce();
        r
    }

    /// Decrypts `ct` with the current key and nonce. The nonce is used only
    /// when authentication succeeds.
    pub fn open(&mut self, ct: &[u8]) -> (r: Option<Vec<u8>>)
        requires
            old(self).wf(),
            ct@.len() <= MAX_TRANSPORT_FRAME_SIZE,
        ensures
            final(self).wf(),
            match r {
                Some(m) => ct@ == seal_in(old(self)@, m@) && final(self)@ == advance(old(self)@)
                    && forall|m2: Seq<u8>| ct@ == #[trigger] seal_in(old(self)@, m2) ==> m2 == m@,
                None => final(self)@ == old(self)@ && forall|m: Seq<u8>|
                    ct@ != #[trigger] seal_in(old(self)@, m),
            },
    {
        let no_ad: Vec<u8> = Vec::new();
        let r = decrypt_with_counter(self.key.as_slice(), self.nonce, no_ad.as_slice(), ct);
        assert(no_ad@ =~= Seq::<u8>::empty());
        if r.is_some() {
            self.use_nonce();
        }
        r
    }
}

/// Value of a 2-byte big-endian length.
pub open spec fn be16_value(b: Seq<u8>) -> nat {
    (b[0] as nat) * 256 + (b[1] as nat)
}

proof fn lemma_be16_round_trip(b: Seq<u8>)
    requires
        b.len() == 2,
    ensures
        be16(be16_value(b)) == b,
        be16_value(b) <= MAX_PAYLOAD_LEN,
{
    let hi = b[0] as nat;
    let lo = b[1] as nat;
    assert((hi * 256 + lo) / 256 == hi && (hi * 256 + lo) % 256 == lo) by (nonlinear_arith)
        requires
            lo < 256,
    ;
    assert(be16(be16_value(b)) =~= b);
}

/// Keys of both directions of an established connection.
#[derive(Debug)]
pub struct Encryptor {
    pub sending: DirectionalKeys,
    pub receiving: DirectionalKeys,
}

impl Encryptor {
    pub open spec fn wf(&self) -> bool {
        self.sending.wf() && self.receiving.wf()
    }

    /// Both directions at counter zero, sharing the handshake's final
    /// chaining key.
    pub fn new(sending_key: Vec<u8>, receiving_key: Vec<u8>, chaining_key: Vec<u8>) -> (r: Encryptor)
        requires
            sending_key@.len() == KEY_LEN,
            receiving_key@.len() == KEY_LEN,
            chaining_key@.len() == KEY_LEN,
        ensures
            r.sending@ == (sending_key@, chaining_key@, 0u64),
            r.receiving@ == (receiving_key@, chaining_key@, 0u64),
            r.wf(),
    {
        let ck2 = chaining_key.clone();
        Encryptor {
            sending: DirectionalKeys::new(sending_key, chaining_key),
            receiving: DirectionalKeys::new(receiving_key, ck2),
        }
    }

    /// Encrypts `payload` into one frame. A payload longer than
    /// `MAX_PAYLOAD_LEN` is refused and no nonce is used.
    pub fn encrypt(&mut self, payload: &[u8]) -> (r: Result<Vec<u8>, ConnectionError>)
        requires
            old(self).wf(),
        ensures
            final(self).wf(),
            final(self).receiving@ == old(self).receiving@,
            payload@.len() > MAX_PAYLOAD_LEN ==> r is Err && r->Err_0 is FrameTooLarge
                && final(self).sending@ == old(self).sending@,
            payload@.len() <= MAX_PAYLOAD_LEN ==> r is Ok && r->Ok_0@ == frame_of(
                old(self).sending@,
                payload@,
            ) && r->Ok_0@.len() == LENGTH_HEADER_LEN + payload@.len() + TAG_LEN
                && final(self).sending@ == advance(advance(old(self).sending@)),
    {
        if payload.len() > MAX_PAYLOAD_LEN {
            return Err(ConnectionError::FrameTooLarge);
        }
        let len = payload.len();
        let header: Vec<u8> = vec![(len / 256) as u8, (len % 256) as u8];
        assert(header@ =~= be16(payload@.len()));
        let mut frame = self.sending.seal(header.as_slice());
        let body = self.sending.seal(payload);
        let mut body = body;
        frame.append(&mut body);
        Ok(frame)
    }

    /// Decrypts the 18-byte length header of a frame and returns the
    /// length of the payload that follows. On failure no nonce is used.
    pub fn decrypt_length_header(&mut self, header: &[u8]) -> (r: Result<usize, ConnectionError>)
        requires
            old(self).wf(),
            header@.len() == LENGTH_HEADER_LEN,
        ensures
            final(self).wf(),
            final(self).sending@ == old(self).sending@,
            match r {
                Ok(len) => len <= MAX_PAYLOAD_LEN && header@ == seal_in(
                    old(self).receiving@,
                    be16(len as nat),
                ) && final(self).receiving@ == advance(old(self).receiving@),
                Err(e) => e is DecryptFailure && final(self).receiving@ == old(self).receiving@
                    && forall|len: nat| header@ != #[trigger] seal_in(old(self).receiving@, be16(len)),
            },
    {
        let mut trial = DirectionalKeys {
            key: self.receiving.key.clone(),
            chaining_key: self.receiving.chaining_key.clone(),
            nonce: self.receiving.nonce,
        };
        match trial.open(header) {
            Some(m) => {
                if m.len() != 2 {
                    proof {
                        assert forall|len: nat|
                            header@ != #[trigger] seal_in(old(self).receiving@, be16(len)) by {
                            if header@ == seal_in(old(self).receiving@, be16(len)) {
                                assert(be16(len).len() == 2);
                            }
                        }
                    }
                    return Err(ConnectionError::DecryptFailure);
                }
                let len = (m[0] as usize) * 256 + (m[1] as usize);
                proof {
                    lemma_be16_round_trip(m@);
                }
                self.receiving = trial;
                Ok(len)
            },
            None => Err(ConnectionError::DecryptFailure),
        }
    }

    /// Decrypts the payload part of a frame (payload and tag). On failure
    /// no nonce is used.
    pub fn decrypt_message(&mut self, body: &[u8]) -> (r: Result<Vec<u8>, ConnectionError>)
        requires
            old(self).wf(),
            body@.len() <= MAX_PAYLOAD_LEN + TAG_LEN,
        ensures
            final(self).wf(),
            final(self).sending@ == old(self).sending@,
            match r {
                Ok(m) => body@ == seal_in(old(self).receiving@, m@) && final(self).receiving@
                    == advance(old(self).receiving@),
                Err(e) => e is DecryptFailure && final(self).receiving@ == old(self).receiving@
                    && forall|m: Seq<u8>| body@ != #[trigger] seal_in(old(self).receiving@, m),
            },
    {
        match self.receiving.open(body) {
            Some(m) => Ok(m),
            None => Err(ConnectionError::DecryptFailure),
        }
    }
}

/// Direction state after `t` uses of its key.
pub open spec fn advance_n(s: KeyState, t: nat) -> KeyState
    decreases t,
{
    if t == 0 {
        s
    } else {
        advance(advance_n(s, (t - 1) as nat))
    }
}

/// Key rotation: from the start of a key epoch, the key and chaining key
/// stay as they are through the first `ROTATION_THRESHOLD - 1` uses, with
/// the counter equal to the number of uses; after exactly
/// `ROTATION_THRESHOLD` uses both are replaced by HKDF of the old chaining
/// key and key, and the counter is back at zero. Each frame uses a key
/// twice (length header, then payload).
pub proof fn lemma_rotation_after_threshold(s: KeyState, t: nat)
    requires
        key_state_wf(s),
        s.2 == 0,
        t <= ROTATION_THRESHOLD,
    ensures
        t < ROTATION_THRESHOLD ==> advance_n(s, t) == (s.0, s.1, t as u64),
        t == ROTATION_THRESHOLD ==> advance_n(s, t) == (
            hkdf_second(s.1, s.0),
            hkdf_first(s.1, s.0),
            0u64,
        ),
    decreases t,
{
    if t > 0 {
        lemma_rotation_after_threshold(s, (t - 1) as nat);
    }
}

} // verus!
