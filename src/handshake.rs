//! The three-act Noise_XK handshake over secp256k1, ChaCha20-Poly1305 and
//! SHA-256. The initiator knows the responder's static key in advance and
//! reveals its own static key only inside the encrypted third act.

use vstd::prelude::*;
use crate::connection::{handshake_failure, ConnectionError};
use crate::crypto::{
    decrypt_with_counter, ecdh, ecdh_of, encrypt_with_counter, hkdf, hkdf_first, hkdf_second,
    is_public_key, is_secret_key, nonce_of, public_key_from_secret, public_key_of,
    public_key_valid, seal_of, secret_key_valid, sha256, sha256_of, KEY_LEN, PUBKEY_LEN, TAG_LEN,
};
use crate::bytes::{concat, copy_all, copy_range};
use crate::transport::Encryptor;

verus! {

/// Size of the first act message.
pub const ACT_ONE_LEN: usize = 50;
/// Size of the second act message.
pub const ACT_TWO_LEN: usize = 50;
/// Size of the third act message.
pub const ACT_THREE_LEN: usize = 66;
/// The only handshake version spoken.
pub const HANDSHAKE_VERSION: u8 = 0;
/// Step reached once the handshake has produced its keys.
pub const STEP_DONE: u8 = 2;
/// Step of a handshake that failed; it accepts nothing more.
pub const STEP_FAILED: u8 = 3;

/// Which side of the handshake this party plays.
#[derive(PartialEq, Eq, Structural, Clone, Copy, Debug)]
pub enum HandshakeRole {
    Initiator,
    Responder,
}

/// Protocol name that seeds the chaining key.
pub open spec fn protocol_name() -> Seq<u8> {
    seq![
        78u8, 111u8, 105u8, 115u8, 101u8, 95u8, 88u8, 75u8, 95u8, 115u8, 101u8, 99u8, 112u8,
        50u8, 53u8, 54u8, 107u8, 49u8, 95u8, 67u8, 104u8, 97u8, 67u8, 104u8, 97u8, 80u8, 111u8,
        108u8, 121u8, 95u8, 83u8, 72u8, 65u8, 50u8, 53u8, 54u8,
    ]
}

/// Prologue mixed into the transcript hash.
pub open spec fn prologue() -> Seq<u8> {
    seq![108u8, 105u8, 103u8, 104u8, 116u8, 110u8, 105u8, 110u8, 103u8]
}

/// Transcript hash extended with `data`.
pub open spec fn mix_hash(h: Seq<u8>, data: Seq<u8>) -> Seq<u8> {
    sha256_of(h + data)
}

/// Chaining key at the start of every handshake.
pub open spec fn initial_chaining_key() -> Seq<u8> {
    sha256_of(protocol_name())
}

/// Transcript hash at the start of a handshake with responder key `rs`.
pub open spec fn initial_hash(responder_static: Seq<u8>) -> Seq<u8> {
    mix_hash(mix_hash(sha256_of(protocol_name()), prologue()), responder_static)
}

/// Abstract state of a handshake.
pub struct HandshakeView {
    pub role: HandshakeRole,
    pub step: u8,
    pub local_static: Seq<u8>,
    pub local_ephemeral: Seq<u8>,
    pub remote_static: Seq<u8>,
    pub remote_ephemeral: Seq<u8>,
    pub chaining_key: Seq<u8>,
    pub hash: Seq<u8>,
    pub temp_k2: Seq<u8>,
}

/// State of one party during the handshake.
#[derive(Debug)]
pub struct PeerHandshake {
    pub role: HandshakeRole,
    pub step: u8,
    pub local_static: Vec<u8>,
    pub local_ephemeral: Vec<u8>,
    pub remote_static: Vec<u8>,
    pub remote_ephemeral: Vec<u8>,
    pub chaining_key: Vec<u8>,
    pub hash: Vec<u8>,
    pub temp_k2: Vec<u8>,
}

impl View for PeerHandshake {
    type V = HandshakeView;

    open spec fn view(&self) -> HandshakeView {
        HandshakeView {
            role: self.role,
            step: self.step,
            local_static: self.local_static@,
            local_ephemeral: self.local_ephemeral@,
            remote_static: self.remote_static@,
            remote_ephemeral: self.remote_ephemeral@,
            chaining_key: self.chaining_key@,
            hash: self.hash@,
            temp_k2: self.temp_k2@,
        }
    }
}

/// Well-formed handshake state: valid keys of the right sizes, and the
/// remote static key known from the start for an initiator and from the
/// end for a responder.
pub open spec fn handshake_wf(v: HandshakeView) -> bool {
    &&& is_secret_key(v.local_static)
    &&& is_secret_key(v.local_ephemeral)
    &&& v.local_static.len() == KEY_LEN
    &&& v.local_ephemeral.len() == KEY_LEN
    &&& v.chaining_key.len() == KEY_LEN
    &&& v.hash.len() == KEY_LEN
    &&& v.step <= STEP_FAILED
    &&& (v.role == HandshakeRole::Initiator ==> is_public_key(v.remote_static))
    &&& (v.step == 1 ==> v.temp_k2.len() == KEY_LEN || v.role == HandshakeRole::Initiator)
    &&& (v.step == 1 && v.role == HandshakeRole::Responder ==> is_public_key(v.remote_ephemeral))
}

/// Message of an ephemeral act (the first or second): version, the
/// ephemeral public key, and a tag over the transcript under the key
/// derived from the Diffie-Hellman of `e` with `point`.
pub open spec fn ephemeral_act(ck: Seq<u8>, h: Seq<u8>, e: Seq<u8>, point: Seq<u8>) -> Seq<u8> {
    let e_pub = public_key_of(e);
    let dh = ecdh_of(e, point);
    seq![HANDSHAKE_VERSION] + e_pub + seal_of(
        hkdf_second(ck, dh),
        nonce_of(0),
        mix_hash(h, e_pub),
        Seq::empty(),
    )
}

/// Whether `m` is a well-formed ephemeral act that authenticates under the
/// Diffie-Hellman of the local secret `s` with the ephemeral key it carries.
pub open spec fn ephemeral_act_accepted(ck: Seq<u8>, h: Seq<u8>, s: Seq<u8>, m: Seq<u8>) -> bool {
    let re = m.subrange(1, 34);
    &&& m.len() == ACT_ONE_LEN
    &&& m[0] == HANDSHAKE_VERSION
    &&& is_public_key(re)
    &&& m.subrange(34, 50) == seal_of(
        hkdf_second(ck, ecdh_of(s, re)),
        nonce_of(0),
        mix_hash(h, re),
        Seq::empty(),
    )
}

/// Chaining key, transcript hash and temporary key after an ephemeral act
/// carrying ephemeral key `e_pub`, with shared secret `dh`. The transcript
/// takes in `e_pub`, then the act's tag under the temporary key.
pub open spec fn after_ephemeral(ck: Seq<u8>, h: Seq<u8>, e_pub: Seq<u8>, dh: Seq<u8>) -> (Seq<u8>, Seq<u8>, Seq<u8>) {
    let k = hkdf_second(ck, dh);
    let tag = seal_of(k, nonce_of(0), mix_hash(h, e_pub), Seq::empty());
    (hkdf_first(ck, dh), mix_hash(mix_hash(h, e_pub), tag), k)
}

/// First act, sent by the initiator.
pub open spec fn act_one(v: HandshakeView) -> Seq<u8> {
    ephemeral_act(v.chaining_key, v.hash, v.local_ephemeral, v.remote_static)
}

/// Initiator state after sending the first act.
pub open spec fn after_act_one(v: HandshakeView) -> HandshakeView {
    let st = after_ephemeral(
        v.chaining_key,
        v.hash,
        public_key_of(v.local_ephemeral),
        ecdh_of(v.local_ephemeral, v.remote_static),
    );
    HandshakeView { step: 1, chaining_key: st.0, hash: st.1, ..v }
}

/// Whether the responder accepts `m` as the first act.
pub open spec fn act_one_accepted(v: HandshakeView, m: Seq<u8>) -> bool {
    ephemeral_act_accepted(v.chaining_key, v.hash, v.local_static, m)
}

/// Responder state once the first act `m` is read.
pub open spec fn read_act_one(v: HandshakeView, m: Seq<u8>) -> HandshakeView {
    let re = m.subrange(1, 34);
    let st = after_ephemeral(v.chaining_key, v.hash, re, ecdh_of(v.local_static, re));
    HandshakeView { remote_ephemeral: re, chaining_key: st.0, hash: st.1, ..v }
}

/// Second act, sent by the responder in answer to the first act `m`.
pub open spec fn act_two(v: HandshakeView, m: Seq<u8>) -> Seq<u8> {
    let w = read_act_one(v, m);
    ephemeral_act(w.chaining_key, w.hash, w.local_ephemeral, w.remote_ephemeral)
}

/// Responder state after answering the first act `m`.
pub open spec fn after_act_two(v: HandshakeView, m: Seq<u8>) -> HandshakeView {
    let w = read_act_one(v, m);
    let st = after_ephemeral(
        w.chaining_key,
        w.hash,
        public_key_of(w.local_ephemeral),
        ecdh_of(w.local_ephemeral, w.remote_ephemeral),
    );
    HandshakeView { step: 1, chaining_key: st.0, hash: st.1, temp_k2: st.2, ..w }
}

/// Whether the initiator accepts `m` as the second act.
pub open spec fn act_two_accepted(v: HandshakeView, m: Seq<u8>) -> bool {
    ephemeral_act_accepted(v.chaining_key, v.hash, v.local_ephemeral, m)
}

/// Initiator state once the second act `m` is read.
pub open spec fn read_act_two(v: HandshakeView, m: Seq<u8>) -> HandshakeView {
    let re = m.subrange(1, 34);
    let st = after_ephemeral(v.chaining_key, v.hash, re, ecdh_of(v.local_ephemeral, re));
    HandshakeView { remote_ephemeral: re, chaining_key: st.0, hash: st.1, temp_k2: st.2, ..v }
}

/// Encrypted static key of the third act.
pub open spec fn act_three_static(w: HandshakeView) -> Seq<u8> {
    seal_of(w.temp_k2, nonce_of(1), w.hash, public_key_of(w.local_static))
}

/// Final chaining key of state `w` (reached after the second act), once the
/// static-ephemeral secret `se` is mixed in.
pub open spec fn final_chaining_key(w: HandshakeView, se: Seq<u8>) -> Seq<u8> {
    hkdf_first(w.chaining_key, se)
}

/// Closing tag of the third act.
pub open spec fn act_three_tag(w: HandshakeView, c: Seq<u8>, se: Seq<u8>) -> Seq<u8> {
    seal_of(hkdf_second(w.chaining_key, se), nonce_of(0), mix_hash(w.hash, c), Seq::empty())
}

/// Third act, sent by the initiator in answer to the second act `m`.
pub open spec fn act_three(v: HandshakeView, m: Seq<u8>) -> Seq<u8> {
    let w = read_act_two(v, m);
    let c = act_three_static(w);
    seq![HANDSHAKE_VERSION] + c + act_three_tag(w, c, ecdh_of(w.local_static, w.remote_ephemeral))
}

/// Initiator's final chaining key after the second act `m`.
pub open spec fn initiator_final_ck(v: HandshakeView, m: Seq<u8>) -> Seq<u8> {
    let w = read_act_two(v, m);
    final_chaining_key(w, ecdh_of(w.local_static, w.remote_ephemeral))
}

/// Whether the responder accepts `m` as the third act, revealing the
/// initiator's static key `rs`.
pub open spec fn act_three_accepted(v: HandshakeView, m: Seq<u8>, rs: Seq<u8>) -> bool {
    let c = m.subrange(1, 50);
    &&& m.len() == ACT_THREE_LEN
    &&& m[0] == HANDSHAKE_VERSION
    &&& rs.len() == PUBKEY_LEN
    &&& is_public_key(rs)
    &&& c == seal_of(v.temp_k2, nonce_of(1), v.hash, rs)
    &&& m.subrange(50, 66) == act_three_tag(v, c, ecdh_of(v.local_ephemeral, rs))
}

/// Responder's final chaining key after the third act `m` revealing `rs`.
pub open spec fn responder_final_ck(v: HandshakeView, m: Seq<u8>, rs: Seq<u8>) -> Seq<u8> {
    final_chaining_key(v, ecdh_of(v.local_ephemeral, rs))
}

/// SHA-256 of the transcript hash followed by `data`.
fn mix(h: &[u8], data: &[u8]) -> (r: Vec<u8>)
    ensures
        r@ == mix_hash(h@, data@),
        r@.len() == KEY_LEN,
{
    let joined = concat(h, data);
    sha256(joined.as_slice())
}

/// Writes an ephemeral act; returns the message and the new chaining key,
/// transcript hash and temporary key.
fn write_ephemeral_act(ck: &[u8], h: &[u8], e: &[u8], point: &[u8]) -> (r: (
    Vec<u8>,
    Vec<u8>,
    Vec<u8>,
    Vec<u8>,
))
    requires
        is_secret_key(e@),
        is_public_key(point@),
    ensures
        r.0@ == ephemeral_act(ck@, h@, e@, point@),
        (r.1@, r.2@, r.3@) == after_ephemeral(ck@, h@, public_key_of(e@), ecdh_of(e@, point@)),
        r.1@.len() == KEY_LEN,
        r.2@.len() == KEY_LEN,
        r.3@.len() == KEY_LEN,
{
    let e_pub = public_key_from_secret(e);
    let h1 = mix(h, e_pub.as_slice());
    let dh = ecdh(e, point);
    let (ck1, k) = hkdf(ck, dh.as_slice());
    let empty: Vec<u8> = Vec::new();
    let tag = encrypt_with_counter(k.as_slice(), 0, h1.as_slice(), empty.as_slice());
    assert(empty@ =~= Seq::<u8>::empty());
    let h2 = mix(h1.as_slice(), tag.as_slice());
    let mut msg: Vec<u8> = vec![HANDSHAKE_VERSION];
    let mut e_pub_copy = copy_all(e_pub.as_slice());
    let mut tag_copy = copy_all(tag.as_slice());
    msg.append(&mut e_pub_copy);
    msg.append(&mut tag_copy);
    assert(msg@ =~= ephemeral_act(ck@, h@, e@, point@));
    (msg, ck1, h2, k)
}

/// Reads an ephemeral act with local secret `s`; returns the remote
/// ephemeral key and the new chaining key, transcript hash and temporary
/// key, or nothing when the act is refused.
fn read_ephemeral_act(ck: &[u8], h: &[u8], s: &[u8], m: &[u8]) -> (r: Option<(
    Vec<u8>,
    Vec<u8>,
    Vec<u8>,
    Vec<u8>,
)>)
    requires
        is_secret_key(s@),
    ensures
        r is Some == ephemeral_act_accepted(ck@, h@, s@, m@),
        r matches Some(t) ==> t.0@ == m@.subrange(1, 34) && (t.1@, t.2@, t.3@) == after_ephemeral(
            ck@,
            h@,
            m@.subrange(1, 34),
            ecdh_of(s@, m@.subrange(1, 34)),
        ) && t.1@.len() == KEY_LEN && t.2@.len() == KEY_LEN && t.3@.len() == KEY_LEN,
{
    if m.len() != ACT_ONE_LEN || m[0] != HANDSHAKE_VERSION {
        return None;
    }
    let re = copy_range(m, 1, 34);
    if !public_key_valid(re.as_slice()) {
        return None;
    }
    let h1 = mix(h, re.as_slice());
    let dh = ecdh(s, re.as_slice());
    let (ck1, k) = hkdf(ck, dh.as_slice());
    let tag = copy_range(m, 34, 50);
    match decrypt_with_counter(k.as_slice(), 0, h1.as_slice(), tag.as_slice()) {
        Some(p) => {
            if p.len() != 0 {
                proof {
                    if tag@ == seal_of(k@, nonce_of(0), h1@, Seq::empty()) {
                        assert(Seq::<u8>::empty() == p@);
                    }
                }
                return None;
            }
            assert(p@ =~= Seq::<u8>::empty());
            let h2 = mix(h1.as_slice(), tag.as_slice());
            Some((re, ck1, h2, k))
        },
        None => {
            proof {
                assert(tag@ != seal_of(k@, nonce_of(0), h1@, Seq::empty()));
            }
            None
        },
    }
}

impl PeerHandshake {
    pub open spec fn wf(&self) -> bool {
        handshake_wf(self@)
    }

    /// Handshake state of an initiator that connects to the holder of
    /// `remote_public_key`. Fails when a key is not a valid key.
    pub fn new_outbound(
        private_key: &[u8],
        remote_public_key: &[u8],
        ephemeral_private_key: &[u8],
    ) -> (r: Result<PeerHandshake, ConnectionError>)
        ensures
            (is_secret_key(private_key@) && is_public_key(remote_public_key@) && is_secret_key(
                ephemeral_private_key@,
            )) == (r is Ok),
            r is Err ==> r->Err_0 is FailedHandshake,
            r matches Ok(hs) ==> hs.wf() && hs@ == (HandshakeView {
                role: HandshakeRole::Initiator,
                step: 0,
                local_static: private_key@,
                local_ephemeral: ephemeral_private_key@,
                remote_static: remote_public_key@,
                remote_ephemeral: Seq::empty(),
                chaining_key: initial_chaining_key(),
                hash: initial_hash(remote_public_key@),
                temp_k2: Seq::empty(),
            }),
    {
        if !secret_key_valid(private_key) || !public_key_valid(remote_public_key)
            || !secret_key_valid(ephemeral_private_key) {
            return Err(handshake_failure("invalid key"));
        }
        let (ck, hash) = Self::initial_state(remote_public_key);
        let hs = PeerHandshake {
            role: HandshakeRole::Initiator,
            step: 0,
            local_static: copy_all(private_key),
            local_ephemeral: copy_all(ephemeral_private_key),
            remote_static: copy_all(remote_public_key),
            remote_ephemeral: Vec::new(),
            chaining_key: ck,
            hash,
            temp_k2: Vec::new(),
        };
        assert(hs.remote_ephemeral@ =~= Seq::<u8>::empty());
        assert(hs.temp_k2@ =~= Seq::<u8>::empty());
        Ok(hs)
    }

    /// Handshake state of a responder holding `private_key`. Fails when a
    /// key is not a valid secret key.
    pub fn new_inbound(private_key: &[u8], ephemeral_private_key: &[u8]) -> (r: Result<
        PeerHandshake,
        ConnectionError,
    >)
        ensures
            (is_secret_key(private_key@) && is_secret_key(ephemeral_private_key@)) == (r is Ok),
            r is Err ==> r->Err_0 is FailedHandshake,
            r matches Ok(hs) ==> hs.wf() && hs@ == (HandshakeView {
                role: HandshakeRole::Responder,
                step: 0,
                local_static: private_key@,
                local_ephemeral: ephemeral_private_key@,
                remote_static: Seq::empty(),
                remote_ephemeral: Seq::empty(),
                chaining_key: initial_chaining_key(),
                hash: initial_hash(public_key_of(private_key@)),
                temp_k2: Seq::empty(),
            }),
    {
        if !secret_key_valid(private_key) || !secret_key_valid(ephemeral_private_key) {
            return Err(handshake_failure("invalid key"));
        }
        let local_public = public_key_from_secret(private_key);
        let (ck, hash) = Self::initial_state(local_public.as_slice());
        let hs = PeerHandshake {
            role: HandshakeRole::Responder,
            step: 0,
            local_static: copy_all(private_key),
            local_ephemeral: copy_all(ephemeral_private_key),
            remote_static: Vec::new(),
            remote_ephemeral: Vec::new(),
            chaining_key: ck,
            hash,
            temp_k2: Vec::new(),
        };
        assert(hs.remote_ephemeral@ =~= Seq::<u8>::empty());
        assert(hs.temp_k2@ =~= Seq::<u8>::empty());
        assert(hs.remote_static@ =~= Seq::<u8>::empty());
        Ok(hs)
    }

    /// Processes the next act. An initiator starts with empty input and
    /// gets the first act to send; given the second act it returns the
    /// third act together with the transport keys. A responder given the
    /// first act returns the second; given the third act it returns the
    /// transport keys. Any malformed or unauthenticated act, and any call
    /// after the handshake ended, fails, and the handshake then accepts
    /// nothing more.
    pub fn process_act(&mut self, input: &[u8]) -> (r: Result<
        (Option<Vec<u8>>, Option<Encryptor>),
        ConnectionError,
    >)
        requires
            old(self).wf(),
        ensures
            final(self).wf(),
            final(self).role == old(self).role,
            r is Err ==> r->Err_0 is FailedHandshake && final(self).step == STEP_FAILED,
            old(self).step >= STEP_DONE ==> r is Err,
            old(self).step == 0 && old(self).role == HandshakeRole::Initiator ==> match r {
                Ok((Some(msg), None)) => input@.len() == 0 && msg@ == act_one(old(self)@)
                    && final(self)@ == after_act_one(old(self)@),
                Ok(_) => false,
                Err(_) => input@.len() != 0,
            },
            old(self).step == 0 && old(self).role == HandshakeRole::Responder ==> match r {
                Ok((Some(msg), None)) => act_one_accepted(old(self)@, input@) && msg@ == act_two(
                    old(self)@,
                    input@,
                ) && final(self)@ == after_act_two(old(self)@, input@),
                Ok(_) => false,
                Err(_) => !act_one_accepted(old(self)@, input@),
            },
            old(self).step == 1 && old(self).role == HandshakeRole::Initiator ==> match r {
                Ok((Some(msg), Some(enc))) => {
                    let fck = initiator_final_ck(old(self)@, input@);
                    &&& act_two_accepted(old(self)@, input@)
                    &&& msg@ == act_three(old(self)@, input@)
                    &&& enc.wf()
                    &&& enc.sending@ == (hkdf_first(fck, Seq::empty()), fck, 0u64)
                    &&& enc.receiving@ == (hkdf_second(fck, Seq::empty()), fck, 0u64)
                    &&& final(self).step == STEP_DONE
                },
                Ok(_) => false,
                Err(_) => !act_two_accepted(old(self)@, input@),
            },
            old(self).step == 1 && old(self).role == HandshakeRole::Responder ==> match r {
                Ok((None, Some(enc))) => {
                    let rs = final(self).remote_static@;
                    let fck = responder_final_ck(old(self)@, input@, rs);
                    &&& act_three_accepted(old(self)@, input@, rs)
                    &&& enc.wf()
                    &&& enc.receiving@ == (hkdf_first(fck, Seq::empty()), fck, 0u64)
                    &&& enc.sending@ == (hkdf_second(fck, Seq::empty()), fck, 0u64)
                    &&& final(self).step == STEP_DONE
                },
                Ok(_) => false,
                Err(_) => forall|rs: Seq<u8>| !#[trigger] act_three_accepted(old(self)@, input@, rs),
            },
    {
        if self.step >= STEP_DONE {
            self.step = STEP_FAILED;
            return Err(handshake_failure("handshake already ended"));
        }
        match self.role {
            HandshakeRole::Initiator => {
                if self.step == 0 {
                    if input.len() != 0 {
                        self.step = STEP_FAILED;
                        return Err(handshake_failure("unexpected data before the first act"));
                    }
                    let (msg, ck, h, _k) = write_ephemeral_act(
                        self.chaining_key.as_slice(),
                        self.hash.as_slice(),
                        self.local_ephemeral.as_slice(),
                        self.remote_static.as_slice(),
                    );
                    self.chaining_key = ck;
                    self.hash = h;
                    self.step = 1;
                    Ok((Some(msg), None))
                } else {
                    match read_ephemeral_act(
                        self.chaining_key.as_slice(),
                        self.hash.as_slice(),
                        self.local_ephemeral.as_slice(),
                        input,
                    ) {
                        Some((re, ck, h, k)) => {
                            self.remote_ephemeral = re;
                            self.chaining_key = ck;
                            self.hash = h;
                            self.temp_k2 = k;
                            assert(self@ == read_act_two(old(self)@, input@));
                            let (msg, enc) = self.write_act_three();
                            self.step = STEP_DONE;
                            Ok((Some(msg), Some(enc)))
                        },
                        None => {
                            self.step = STEP_FAILED;
                            Err(handshake_failure("second act refused"))
                        },
                    }
                }
            },
            HandshakeRole::Responder => {
                if self.step == 0 {
                    match read_ephemeral_act(
                        self.chaining_key.as_slice(),
                        self.hash.as_slice(),
                        self.local_static.as_slice(),
                        input,
                    ) {
                        Some((re, ck, h, _k)) => {
                            self.remote_ephemeral = re;
                            self.chaining_key = ck;
                            self.hash = h;
                            assert(self@ == read_act_one(old(self)@, input@));
                            let (msg, ck2, h2, k2) = write_ephemeral_act(
                                self.chaining_key.as_slice(),
                                self.hash.as_slice(),
                                self.local_ephemeral.as_slice(),
                                self.remote_ephemeral.as_slice(),
                            );
                            self.chaining_key = ck2;
                            self.hash = h2;
                            self.temp_k2 = k2;
                            self.step = 1;
                            Ok((Some(msg), None))
                        },
                        None => {
                            self.step = STEP_FAILED;
                            Err(handshake_failure("first act refused"))
                        },
                    }
                } else {
                    match self.read_act_three(input) {
                        Some((rs, enc)) => {
                            self.remote_static = rs;
                            self.step = STEP_DONE;
                            Ok((None, Some(enc)))
                        },
                        None => {
                            self.step = STEP_FAILED;
                            Err(handshake_failure("third act refused"))
                        },
                    }
                }
            },
        }
    }

    /// Writes the third act from the state reached after reading the second
    /// act, and splits the final chaining key into the transport keys:
    /// the first half sends, the second receives.
    fn write_act_three(&self) -> (r: (Vec<u8>, Encryptor))
        requires
            self.wf(),
            self.temp_k2@.len() == KEY_LEN,
            is_public_key(self.remote_ephemeral@),
        ensures
            ({
                let w = self@;
                let se = ecdh_of(w.local_static, w.remote_ephemeral);
                let c = act_three_static(w);
                let fck = final_chaining_key(w, se);
                &&& r.0@ == seq![HANDSHAKE_VERSION] + c + act_three_tag(w, c, se)
                &&& r.1.wf()
                &&& r.1.sending@ == (hkdf_first(fck, Seq::empty()), fck, 0u64)
                &&& r.1.receiving@ == (hkdf_second(fck, Seq::empty()), fck, 0u64)
            }),
    {
        let ls_pub = public_key_from_secret(self.local_static.as_slice());
        let c = encrypt_with_counter(self.temp_k2.as_slice(), 1, self.hash.as_slice(), ls_pub.as_slice());
        let h5 = mix(self.hash.as_slice(), c.as_slice());
        let se = ecdh(self.local_static.as_slice(), self.remote_ephemeral.as_slice());
        let (ck3, k3) = hkdf(self.chaining_key.as_slice(), se.as_slice());
        let empty: Vec<u8> = Vec::new();
        assert(empty@ =~= Seq::<u8>::empty());
        let t = encrypt_with_counter(k3.as_slice(), 0, h5.as_slice(), empty.as_slice());
        let (sk, rk) = hkdf(ck3.as_slice(), empty.as_slice());
        let mut msg: Vec<u8> = vec![HANDSHAKE_VERSION];
        let mut c_copy = copy_all(c.as_slice());
        let mut t_copy = copy_all(t.as_slice());
        msg.append(&mut c_copy);
        msg.append(&mut t_copy);
        (msg, Encryptor::new(sk, rk, ck3))
    }

    /// Reads the third act; returns the initiator's static key and the
    /// transport keys (the first half receives, the second sends), or
    /// nothing when the act is refused.
    fn read_act_three(&self, m: &[u8]) -> (r: Option<(Vec<u8>, Encryptor)>)
        requires
            self.wf(),
            self.temp_k2@.len() == KEY_LEN,
        ensures
            r is None ==> forall|rs: Seq<u8>| !#[trigger] act_three_accepted(self@, m@, rs),
            r matches Some(t) ==> ({
                let fck = responder_final_ck(self@, m@, t.0@);
                &&& act_three_accepted(self@, m@, t.0@)
                &&& t.1.wf()
                &&& t.1.receiving@ == (hkdf_first(fck, Seq::empty()), fck, 0u64)
                &&& t.1.sending@ == (hkdf_second(fck, Seq::empty()), fck, 0u64)
            }),
    {
        if m.len() != ACT_THREE_LEN || m[0] != HANDSHAKE_VERSION {
            return None;
        }
        let c = copy_range(m, 1, 50);
        let rs = match decrypt_with_counter(self.temp_k2.as_slice(), 1, self.hash.as_slice(), c.as_slice()) {
            Some(rs) => rs,
            None => {
                return None;
            },
        };
        if rs.len() != PUBKEY_LEN || !public_key_valid(rs.as_slice()) {
            return None;
        }
        let h5 = mix(self.hash.as_slice(), c.as_slice());
        let se = ecdh(self.local_ephemeral.as_slice(), rs.as_slice());
        let (ck3, k3) = hkdf(self.chaining_key.as_slice(), se.as_slice());
        let t = copy_range(m, 50, 66);
        let empty: Vec<u8> = Vec::new();
        assert(empty@ =~= Seq::<u8>::empty());
        match decrypt_with_counter(k3.as_slice(), 0, h5.as_slice(), t.as_slice()) {
            Some(p) => {
                if p.len() != 0 {
                    proof {
                        assert forall|rs2: Seq<u8>| !#[trigger] act_three_accepted(self@, m@, rs2) by {
                            if act_three_accepted(self@, m@, rs2) {
                                assert(rs2 == rs@);
                                assert(Seq::<u8>::empty() == p@);
                            }
                        }
                    }
                    return None;
                }
                assert(p@ =~= Seq::<u8>::empty());
                let (rk, sk) = hkdf(ck3.as_slice(), empty.as_slice());
                Some((rs, Encryptor::new(sk, rk, ck3)))
            },
            None => {
                proof {
                    assert forall|rs2: Seq<u8>| !#[trigger] act_three_accepted(self@, m@, rs2) by {
                        if act_three_accepted(self@, m@, rs2) {
                            assert(rs2 == rs@);
                            assert(t@ == seal_of(k3@, nonce_of(0), h5@, Seq::empty()));
                        }
                    }
                }
                None
            },
        }
    }

    /// Initial chaining key and transcript hash for responder key `rs`.
    fn initial_state(responder_static: &[u8]) -> (r: (Vec<u8>, Vec<u8>))
        ensures
            r.0@ == initial_chaining_key(),
            r.1@ == initial_hash(responder_static@),
            r.0@.len() == KEY_LEN,
            r.1@.len() == KEY_LEN,
    {
        let name: Vec<u8> = vec![
            78u8, 111u8, 105u8, 115u8, 101u8, 95u8, 88u8, 75u8, 95u8, 115u8, 101u8, 99u8, 112u8,
            50u8, 53u8, 54u8, 107u8, 49u8, 95u8, 67u8, 104u8, 97u8, 67u8, 104u8, 97u8, 80u8, 111u8,
            108u8, 121u8, 95u8, 83u8, 72u8, 65u8, 50u8, 53u8, 54u8,
        ];
        let prologue_bytes: Vec<u8> = vec![108u8, 105u8, 103u8, 104u8, 116u8, 110u8, 105u8, 110u8, 103u8];
        assert(name@ =~= protocol_name());
        assert(prologue_bytes@ =~= prologue());
        let ck = sha256(name.as_slice());
        let h0 = mix(ck.as_slice(), prologue_bytes.as_slice());
        let h = mix(h0.as_slice(), responder_static);
        (ck, h)
    }
}

/// The three acts compose: an initiator that knows the responder's static
/// key, and a responder, both at the start of a handshake, accept each
/// other's acts in turn, the responder learns the initiator's static key,
/// and both end with the same final chaining key. So the initiator's send
/// key is the responder's receive key and the other way round. This holds
/// given that Diffie-Hellman agrees for each pair of keys used and that
/// sealing adds a 16-byte tag.
pub proof fn lemma_handshake_keys_cross_wired(i: HandshakeView, r: HandshakeView)
    requires
        handshake_wf(i),
        handshake_wf(r),
        i.chaining_key == initial_chaining_key(),
        r.chaining_key == initial_chaining_key(),
        i.remote_static == public_key_of(r.local_static),
        i.hash == initial_hash(i.remote_static),
        r.hash == initial_hash(public_key_of(r.local_static)),
        public_key_of(i.local_ephemeral).len() == PUBKEY_LEN,
        public_key_of(r.local_ephemeral).len() == PUBKEY_LEN,
        public_key_of(i.local_static).len() == PUBKEY_LEN,
        is_public_key(public_key_of(i.local_ephemeral)),
        is_public_key(public_key_of(r.local_ephemeral)),
        is_public_key(public_key_of(i.local_static)),
        forall|k: Seq<u8>, n: Seq<u8>, ad: Seq<u8>, msg: Seq<u8>|
            #[trigger] seal_of(k, n, ad, msg).len() == msg.len() + TAG_LEN,
        ecdh_of(i.local_ephemeral, public_key_of(r.local_static)) == ecdh_of(
            r.local_static,
            public_key_of(i.local_ephemeral),
        ),
        ecdh_of(i.local_ephemeral, public_key_of(r.local_ephemeral)) == ecdh_of(
            r.local_ephemeral,
            public_key_of(i.local_ephemeral),
        ),
        ecdh_of(i.local_static, public_key_of(r.local_ephemeral)) == ecdh_of(
            r.local_ephemeral,
            public_key_of(i.local_static),
        ),
    ensures
        ({
            let m1 = act_one(i);
            let m2 = act_two(r, m1);
            let m3 = act_three(after_act_one(i), m2);
            &&& act_one_accepted(r, m1)
            &&& act_two_accepted(after_act_one(i), m2)
            &&& act_three_accepted(after_act_two(r, m1), m3, public_key_of(i.local_static))
            &&& initiator_final_ck(after_act_one(i), m2) == responder_final_ck(
                after_act_two(r, m1),
                m3,
                public_key_of(i.local_static),
            )
        }),
{
    let e1 = public_key_of(i.local_ephemeral);
    let e2 = public_key_of(r.local_ephemeral);
    let s1 = public_key_of(i.local_static);
    let m1 = act_one(i);
    assert(m1.subrange(1, 34) =~= e1);
    assert(m1.subrange(34, 50) =~= seal_of(
        hkdf_second(i.chaining_key, ecdh_of(i.local_ephemeral, i.remote_static)),
        nonce_of(0),
        mix_hash(i.hash, e1),
        Seq::empty(),
    ));
    let i1 = after_act_one(i);
    let r1 = read_act_one(r, m1);
    assert(r1.chaining_key == i1.chaining_key && r1.hash == i1.hash);
    let m2 = act_two(r, m1);
    assert(m2.subrange(1, 34) =~= e2);
    assert(m2.subrange(34, 50) =~= seal_of(
        hkdf_second(r1.chaining_key, ecdh_of(r.local_ephemeral, e1)),
        nonce_of(0),
        mix_hash(r1.hash, e2),
        Seq::empty(),
    ));
    let i2 = read_act_two(i1, m2);
    let r2 = after_act_two(r, m1);
    assert(i2.chaining_key == r2.chaining_key && i2.hash == r2.hash && i2.temp_k2 == r2.temp_k2);
    let m3 = act_three(i1, m2);
    let c = act_three_static(i2);
    assert(m3.subrange(1, 50) =~= c);
    assert(m3.subrange(50, 66) =~= act_three_tag(i2, c, ecdh_of(i2.local_static, i2.remote_ephemeral)));
}

/// Tampering with an ephemeral act (the first or second): a message that
/// keeps the ephemeral key of an accepted act but differs from it anywhere
/// else (the version byte or the tag) is refused.
pub proof fn lemma_tampered_ephemeral_act_refused(
    ck: Seq<u8>,
    h: Seq<u8>,
    s: Seq<u8>,
    m: Seq<u8>,
    m2: Seq<u8>,
)
    requires
        ephemeral_act_accepted(ck, h, s, m),
        m2.len() == m.len(),
        m2.subrange(1, 34) == m.subrange(1, 34),
        m2 != m,
    ensures
        !ephemeral_act_accepted(ck, h, s, m2),
{
    if ephemeral_act_accepted(ck, h, s, m2) {
        assert(m.len() == 50 && m2[0] == m[0]);
        assert(m2.subrange(34, 50) == m.subrange(34, 50));
        assert forall|i: int| 0 <= i < m.len() implies m2[i] == m[i] by {
            if 1 <= i < 34 {
                assert(m2[i] == m2.subrange(1, 34)[i - 1]);
                assert(m[i] == m.subrange(1, 34)[i - 1]);
            } else if 34 <= i < 50 {
                assert(m2[i] == m2.subrange(34, 50)[i - 34]);
                assert(m[i] == m.subrange(34, 50)[i - 34]);
            } else {
                assert(i == 0);
            }
        }
        assert(m2 =~= m);
    }
}

/// Tampering with the third act: a message that keeps the encrypted static
/// key of an accepted third act but differs from it anywhere else (the
/// version byte or the closing tag) is refused as revealing that key.
pub proof fn lemma_tampered_act_three_refused(v: HandshakeView, m: Seq<u8>, rs: Seq<u8>, m2: Seq<u8>)
    requires
        act_three_accepted(v, m, rs),
        m2.len() == m.len(),
        m2.subrange(1, 50) == m.subrange(1, 50),
        m2 != m,
    ensures
        !act_three_accepted(v, m2, rs),
{
    if act_three_accepted(v, m2, rs) {
        assert(m.len() == 66 && m2[0] == m[0]);
        assert(m2.subrange(50, 66) == m.subrange(50, 66));
        assert forall|i: int| 0 <= i < m.len() implies m2[i] == m[i] by {
            if 1 <= i < 50 {
                assert(m2[i] == m2.subrange(1, 50)[i - 1]);
                assert(m[i] == m.subrange(1, 50)[i - 1]);
            } else if 50 <= i < 66 {
                assert(m2[i] == m2.subrange(50, 66)[i - 50]);
                assert(m[i] == m.subrange(50, 66)[i - 50]);
            } else {
                assert(i == 0);
            }
        }
        assert(m2 =~= m);
    }
}

} // verus!
