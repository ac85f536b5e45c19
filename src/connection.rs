//! Connection-level errors and the decisions taken before any I/O.

use vstd::prelude::*;
use crate::address::{HostView, NodeAddr};
use crate::crypto::{is_public_key, is_secret_key};
use crate::crypto::{hkdf_first, hkdf_second};
use crate::handshake::{
    act_one, act_one_accepted, act_three, act_three_accepted, act_two, act_two_accepted,
    after_act_one, after_act_two, initial_chaining_key, initial_hash, initiator_final_ck,
    responder_final_ck,
    HandshakeRole, HandshakeView, PeerHandshake, STEP_DONE,
};
use crate::transport::{advance, frame_of, seal_in, Encryptor, LENGTH_HEADER_LEN, MAX_PAYLOAD_LEN};

verus! {

/// `std::io::Error`, carried through unchanged when the byte stream fails.
#[verifier::external_type_specification]
#[verifier::external_body]
pub struct ExIoError(std::io::Error);

/// Why establishing or using a connection failed.
#[derive(Debug)]
pub enum ConnectionError {
    /// The peer lives behind a Tor onion service, which is not supported.
    TorNotYetSupported,
    /// An act of the handshake was malformed or failed authentication.
    FailedHandshake(String),
    /// The underlying byte stream failed.
    IoError(std::io::Error),
    /// A transport frame failed authentication.
    DecryptFailure,
    /// A payload is longer than a frame can carry.
    FrameTooLarge,
}

/// Handshake failure carrying a short reason.
pub fn handshake_failure(reason: &str) -> (r: ConnectionError)
    ensures
        r is FailedHandshake,
{
    ConnectionError::FailedHandshake(reason.to_owned())
}

impl NodeAddr {
    /// Decides how an outbound connection to this peer starts, before any
    /// I/O: an onion address is refused with `TorNotYetSupported`;
    /// otherwise the initiator's handshake state is returned, which fails
    /// only when a key is invalid.
    pub fn connect(&self, private_key: &[u8], ephemeral_private_key: &[u8]) -> (r: Result<
        PeerHandshake,
        ConnectionError,
    >)
        ensures
            self@.host is Tor ==> r is Err && r->Err_0 is TorNotYetSupported,
            !(self@.host is Tor) ==> match r {
                Ok(hs) => {
                    &&& is_secret_key(private_key@)
                    &&& is_public_key(self@.node_id)
                    &&& is_secret_key(ephemeral_private_key@)
                    &&& hs.wf()
                    &&& hs@ == (HandshakeView {
                        role: HandshakeRole::Initiator,
                        step: 0,
                        local_static: private_key@,
                        local_ephemeral: ephemeral_private_key@,
                        remote_static: self@.node_id,
                        remote_ephemeral: Seq::empty(),
                        chaining_key: initial_chaining_key(),
                        hash: initial_hash(self@.node_id),
                        temp_k2: Seq::empty(),
                    })
                },
                Err(e) => e is FailedHandshake && !(is_secret_key(private_key@) && is_public_key(
                    self@.node_id,
                ) && is_secret_key(ephemeral_private_key@)),
            },
    {
        if self.inet_addr.address.is_tor() {
            return Err(ConnectionError::TorNotYetSupported);
        }
        PeerHandshake::new_outbound(private_key, self.node_id.as_slice(), ephemeral_private_key)
    }
}

impl From<std::io::Error> for ConnectionError {
    fn from(err: std::io::Error) -> (r: ConnectionError)
        ensures
            r == ConnectionError::IoError(err),
    {
        ConnectionError::IoError(err)
    }
}

impl vstd::std_specs::convert::FromSpecImpl<std::io::Error> for ConnectionError {
    open spec fn obeys_from_spec() -> bool {
        true
    }

    open spec fn from_spec(err: std::io::Error) -> ConnectionError {
        ConnectionError::IoError(err)
    }
}

/// Lifecycle of a connection: handshaking, then established with the
/// transport keys, and closed after any fatal error.
#[derive(Debug)]
pub enum Session {
    Handshaking(PeerHandshake),
    Established(Encryptor),
    Closed,
}

impl Session {
    pub open spec fn wf(&self) -> bool {
        match self {
            Session::Handshaking(hs) => hs.wf() && hs.step < STEP_DONE,
            Session::Established(enc) => enc.wf(),
            Session::Closed => true,
        }
    }

    /// Feeds the handshake with what the peer sent (nothing, for the
    /// initiator's first step) and returns what must be written back, if
    /// anything. Once the keys are derived the session is established; a
    /// failed act closes it.
    pub fn handshake_step(&mut self, input: &[u8]) -> (r: Result<Option<Vec<u8>>, ConnectionError>)
        requires
            old(self).wf(),
        ensures
            final(self).wf(),
            !(*old(self) is Handshaking) ==> r is Err && r->Err_0 is FailedHandshake && *final(self) is Closed,
            r is Err ==> *final(self) is Closed,
            *old(self) matches Session::Handshaking(hs) ==> match r {
                Ok(out) => {
                    ||| (*final(self) matches Session::Handshaking(hs2) && out is Some && hs2.step
                        == hs.step + 1 && hs2.role == hs.role)
                    ||| (*final(self) is Established && hs.step == 1)
                },
                Err(e) => e is FailedHandshake,
            },
            *old(self) matches Session::Handshaking(hs) ==> (hs.step == 0 && hs.role
                == HandshakeRole::Initiator ==> match r {
                Ok(Some(msg)) => {
                    &&& input@.len() == 0
                    &&& msg@ == act_one(hs@)
                    &&& *final(self) is Handshaking
                    &&& (*final(self))->Handshaking_0@ == after_act_one(hs@)
                },
                Ok(None) => false,
                Err(_) => input@.len() != 0,
            }),
            *old(self) matches Session::Handshaking(hs) ==> (hs.step == 0 && hs.role
                == HandshakeRole::Responder ==> match r {
                Ok(Some(msg)) => {
                    &&& act_one_accepted(hs@, input@)
                    &&& msg@ == act_two(hs@, input@)
                    &&& *final(self) is Handshaking
                    &&& (*final(self))->Handshaking_0@ == after_act_two(hs@, input@)
                },
                Ok(None) => false,
                Err(_) => !act_one_accepted(hs@, input@),
            }),
            *old(self) matches Session::Handshaking(hs) ==> (hs.step == 1 && hs.role
                == HandshakeRole::Initiator ==> match r {
                Ok(Some(msg)) => {
                    let fck = initiator_final_ck(hs@, input@);
                    &&& act_two_accepted(hs@, input@)
                    &&& msg@ == act_three(hs@, input@)
                    &&& *final(self) is Established
                    &&& (*final(self))->Established_0.sending@ == (hkdf_first(fck, Seq::empty()), fck, 0u64)
                    &&& (*final(self))->Established_0.receiving@ == (hkdf_second(fck, Seq::empty()), fck, 0u64)
                },
                Ok(None) => false,
                Err(_) => !act_two_accepted(hs@, input@),
            }),
            *old(self) matches Session::Handshaking(hs) ==> (hs.step == 1 && hs.role
                == HandshakeRole::Responder ==> match r {
                Ok(Some(_)) => false,
                Ok(None) => exists|rs: Seq<u8>| {
                    let fck = responder_final_ck(hs@, input@, rs);
                    &&& #[trigger] act_three_accepted(hs@, input@, rs)
                    &&& *final(self) is Established
                    &&& (*final(self))->Established_0.receiving@ == (hkdf_first(fck, Seq::empty()), fck, 0u64)
                    &&& (*final(self))->Established_0.sending@ == (hkdf_second(fck, Seq::empty()), fck, 0u64)
                },
                Err(_) => forall|rs: Seq<u8>| !#[trigger] act_three_accepted(hs@, input@, rs),
            }),
    {
        let mut current = Session::Closed;
        std::mem::swap(self, &mut current);
        match current {
            Session::Handshaking(mut hs) => {
                match hs.process_act(input) {
                    Ok((out, Some(enc))) => {
                        *self = Session::Established(enc);
                        Ok(out)
                    },
                    Ok((out, None)) => {
                        *self = Session::Handshaking(hs);
                        Ok(out)
                    },
                    Err(e) => Err(e),
                }
            },
            _ => Err(crate::connection::handshake_failure("no handshake in progress")),
        }
    }

    /// Encrypts a payload into the frame to write. A payload longer than
    /// `MAX_PAYLOAD_LEN` is refused before anything is produced, and the
    /// session stays as it was; any call outside the established state fails.
    pub fn send(&mut self, payload: &[u8]) -> (r: Result<Vec<u8>, ConnectionError>)
        requires
            old(self).wf(),
        ensures
            final(self).wf(),
            !(*old(self) is Established) ==> r is Err && *final(self) == *old(self),
            *old(self) matches Session::Established(enc) ==> *final(self) is Established && match r {
                Ok(frame) => {
                    &&& payload@.len() <= MAX_PAYLOAD_LEN
                    &&& frame@ == frame_of(enc.sending@, payload@)
                    &&& frame@.len() == LENGTH_HEADER_LEN + payload@.len() + crate::crypto::TAG_LEN
                    &&& (*final(self))->Established_0.sending@ == advance(advance(enc.sending@))
                    &&& (*final(self))->Established_0.receiving@ == enc.receiving@
                },
                Err(e) => {
                    &&& payload@.len() > MAX_PAYLOAD_LEN
                    &&& e is FrameTooLarge
                    &&& (*final(self))->Established_0.sending@ == enc.sending@
                    &&& (*final(self))->Established_0.receiving@ == enc.receiving@
                },
            },
    {
        match self {
            Session::Established(enc) => enc.encrypt(payload),
            _ => Err(crate::connection::handshake_failure("connection not established")),
        }
    }

    /// Decrypts the 18-byte length header of the next frame and returns
    /// the payload length to read next (plus its tag). Any failure closes
    /// the session.
    pub fn receive_length(&mut self, header: &[u8]) -> (r: Result<usize, ConnectionError>)
        requires
            old(self).wf(),
            header@.len() == LENGTH_HEADER_LEN,
        ensures
            final(self).wf(),
            r is Err ==> *final(self) is Closed,
            !(*old(self) is Established) ==> r is Err,
            *old(self) matches Session::Established(enc) ==> match r {
                Ok(len) => {
                    &&& header@ == seal_in(enc.receiving@, crate::transport::be16(len as nat))
                    &&& *final(self) is Established
                    &&& (*final(self))->Established_0.receiving@ == advance(enc.receiving@)
                    &&& (*final(self))->Established_0.sending@ == enc.sending@
                },
                Err(e) => e is DecryptFailure && forall|len: nat|
                    header@ != #[trigger] seal_in(enc.receiving@, crate::transport::be16(len)),
            },
    {
        let mut current = Session::Closed;
        std::mem::swap(self, &mut current);
        match current {
            Session::Established(mut enc) => match enc.decrypt_length_header(header) {
                Ok(len) => {
                    *self = Session::Established(enc);
                    Ok(len)
                },
                Err(e) => Err(e),
            },
            _ => Err(ConnectionError::DecryptFailure),
        }
    }

    /// Decrypts the payload part of a frame (payload and tag). Any failure
    /// closes the session.
    pub fn receive_message(&mut self, body: &[u8]) -> (r: Result<Vec<u8>, ConnectionError>)
        requires
            old(self).wf(),
            body@.len() <= MAX_PAYLOAD_LEN + crate::crypto::TAG_LEN,
        ensures
            final(self).wf(),
            r is Err ==> *final(self) is Closed,
            !(*old(self) is Established) ==> r is Err,
            *old(self) matches Session::Established(enc) ==> match r {
                Ok(m) => {
                    &&& body@ == seal_in(enc.receiving@, m@)
                    &&& *final(self) is Established
                    &&& (*final(self))->Established_0.receiving@ == advance(enc.receiving@)
                    &&& (*final(self))->Established_0.sending@ == enc.sending@
                },
                Err(e) => e is DecryptFailure && forall|m: Seq<u8>|
                    body@ != #[trigger] seal_in(enc.receiving@, m),
            },
    {
        let mut current = Session::Closed;
        std::mem::swap(self, &mut current);
        match current {
            Session::Established(mut enc) => match enc.decrypt_message(body) {
                Ok(m) => {
                    *self = Session::Established(enc);
                    Ok(m)
                },
                Err(e) => Err(e),
            },
            _ => Err(ConnectionError::DecryptFailure),
        }
    }

    /// Closes the session; every later operation fails.
    pub fn close(&mut self)
        ensures
            *final(self) is Closed,
    {
        *self = Session::Closed;
    }
}

} // verus!
