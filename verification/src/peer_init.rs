//! Peer initialization messages.
//!
//! Peer init messages open P, F, or D connections to a peer. They are
//! framed with a `u32` length prefix and a one-byte code.

use vstd::prelude::*;
use vstd::utf8::encode_utf8;

use crate::constants::{
    connection_type_chars, lemma_connection_type_ascii, lemma_connection_type_parse,
    spec_parse_connection_type, ConnectionType,
};
use crate::protocol::{
    enc_str, enc_u32, enc_u8, frame_fits_u8, frame_u8, message_size, prefix_at, read_string,
    read_u32, read_u8, spec_message_size, split_str, split_u32, str_fits, str_starts_at,
    write_raw, write_str, write_u32, write_u8, Error,
};

verus! {

/// Peer init message codes.
#[derive(Debug, Clone, Copy, PartialEq, Eq, Structural)]
pub enum PeerInitCode {
    PierceFirewall,
    PeerInit,
}

pub open spec fn peer_init_code_u8(c: PeerInitCode) -> u8 {
    match c {
        PeerInitCode::PierceFirewall => 0,
        PeerInitCode::PeerInit => 1,
    }
}

pub open spec fn spec_peer_init_code_from(v: u8) -> Option<PeerInitCode> {
    if v == 0 {
        Some(PeerInitCode::PierceFirewall)
    } else if v == 1 {
        Some(PeerInitCode::PeerInit)
    } else {
        None
    }
}

impl PeerInitCode {
    pub fn as_u8(&self) -> (r: u8)
        ensures
            r == peer_init_code_u8(*self),
    {
        match self {
            PeerInitCode::PierceFirewall => 0,
            PeerInitCode::PeerInit => 1,
        }
    }

    pub fn try_from(value: u8) -> (r: Result<PeerInitCode, Error>)
        ensures
            match r {
                Ok(c) => spec_peer_init_code_from(value) == Some(c),
                Err(e) => spec_peer_init_code_from(value) is None && (e matches
                Error::InvalidPeerInitCode(v) && v == value),
            },
    {
        if value == 0 {
            Ok(PeerInitCode::PierceFirewall)
        } else if value == 1 {
            Ok(PeerInitCode::PeerInit)
        } else {
            Err(Error::InvalidPeerInitCode(value))
        }
    }
}

/// Peer initialization messages.
#[derive(Debug, Clone)]
pub enum PeerInitMessage {
    /// Response to an indirect connection request. The token matches
    /// the server's `ConnectToPeer` push.
    PierceFirewall { token: u32 },
    /// Initiates a direct connection to another peer.
    PeerInit { username: String, connection_type: ConnectionType, token: u32 },
}

pub open spec fn peer_init_code(m: PeerInitMessage) -> PeerInitCode {
    match m {
        PeerInitMessage::PierceFirewall { .. } => PeerInitCode::PierceFirewall,
        PeerInitMessage::PeerInit { .. } => PeerInitCode::PeerInit,
    }
}

/// Structural bounds that let a message be framed: every string fits
/// its `u32` byte-length prefix.
pub open spec fn wf_peer_init(m: PeerInitMessage) -> bool {
    match m {
        PeerInitMessage::PierceFirewall { .. } => true,
        PeerInitMessage::PeerInit { username, .. } => str_fits(username@),
    }
}

/// The payload bytes of a peer init message: what follows the code.
pub open spec fn peer_init_payload(m: PeerInitMessage) -> Seq<u8> {
    match m {
        PeerInitMessage::PierceFirewall { token } => enc_u32(token),
        PeerInitMessage::PeerInit { username, connection_type, token } => enc_str(username@) + (
        enc_str(connection_type_chars(connection_type)) + enc_u32(token)),
    }
}

/// The complete frame of a peer init message.
pub open spec fn peer_init_frame(m: PeerInitMessage) -> Seq<u8> {
    frame_u8(peer_init_code_u8(peer_init_code(m)), peer_init_payload(m))
}

/// Equality of peer init messages up to string contents.
pub open spec fn peer_init_eq(a: PeerInitMessage, b: PeerInitMessage) -> bool {
    match (a, b) {
        (
            PeerInitMessage::PierceFirewall { token: t1 },
            PeerInitMessage::PierceFirewall { token: t2 },
        ) => t1 == t2,
        (
            PeerInitMessage::PeerInit { username: u1, connection_type: c1, token: t1 },
            PeerInitMessage::PeerInit { username: u2, connection_type: c2, token: t2 },
        ) => u1@ == u2@ && c1 == c2 && t1 == t2,
        _ => false,
    }
}

/// Appends the payload of `msg` (no length prefix, no code).
pub fn write_peer_init_payload(msg: &PeerInitMessage, out: &mut Vec<u8>)
    requires
        wf_peer_init(*msg),
    ensures
        final(out)@ == old(out)@ + peer_init_payload(*msg),
{
    match msg {
        PeerInitMessage::PierceFirewall { token } => {
            write_u32(out, *token);
        },
        PeerInitMessage::PeerInit { username, connection_type, token } => {
            write_str(out, username.as_str());
            proof {
                lemma_connection_type_ascii(*connection_type);
            }
            write_str(out, connection_type.as_str());
            write_u32(out, *token);
            proof {
                assert(out@ =~= old(out)@ + peer_init_payload(*msg));
            }
        },
    }
}

/// Appends the complete frame of `msg`: length prefix, code, payload.
/// Fails, leaving `out` untouched, only when the payload is too large
/// for the `u32` length prefix.
pub fn write_peer_init_message(msg: &PeerInitMessage, out: &mut Vec<u8>) -> (r: Result<(), Error>)
    requires
        wf_peer_init(*msg),
    ensures
        match r {
            Ok(()) => frame_fits_u8(peer_init_payload(*msg)) && final(out)@ == old(out)@
                + peer_init_frame(*msg),
            Err(_) => !frame_fits_u8(peer_init_payload(*msg)) && final(out)@ == old(out)@,
        },
{
    let mut payload: Vec<u8> = Vec::new();
    write_peer_init_payload(msg, &mut payload);
    if payload.len() > u32::MAX as usize - 1 {
        return Err(Error::Protocol(String::from_str("message too large to frame")));
    }
    write_u32(out, 1 + payload.len() as u32);
    write_u8(out, msg.code().as_u8());
    write_raw(out, &payload);
    proof {
        assert(out@ =~= old(out)@ + peer_init_frame(*msg));
    }
    Ok(())
}

impl PeerInitMessage {
    /// The code of this message.
    pub fn code(&self) -> (r: PeerInitCode)
        ensures
            r == peer_init_code(*self),
    {
        match self {
            PeerInitMessage::PierceFirewall { .. } => PeerInitCode::PierceFirewall,
            PeerInitMessage::PeerInit { .. } => PeerInitCode::PeerInit,
        }
    }
}

/// Splits a peer init frame at offset `i` into its parts.
proof fn peer_init_frame_parts(data: Seq<u8>, i: int, m: PeerInitMessage)
    requires
        wf_peer_init(m),
        frame_fits_u8(peer_init_payload(m)),
        prefix_at(data, i, peer_init_frame(m)),
    ensures
        i + 5 + peer_init_payload(m).len() <= data.len(),
        data.subrange(i, i + 4) == enc_u32((1 + peer_init_payload(m).len()) as u32),
        data.subrange(i + 4, i + 5) == enc_u8(peer_init_code_u8(peer_init_code(m))),
        data[i + 4] == peer_init_code_u8(peer_init_code(m)),
        prefix_at(data, i + 5, peer_init_payload(m)),
        peer_init_frame(m).len() == 5 + peer_init_payload(m).len(),
{
    broadcast use crate::protocol::group_enc_facts;

    let pl = peer_init_payload(m);
    let code = peer_init_code_u8(peer_init_code(m));
    crate::protocol::take_prefix_at(
        data,
        i,
        i + peer_init_frame(m).len(),
        enc_u32((1 + pl.len()) as u32),
        enc_u8(code) + pl,
    );
    crate::protocol::split_u8(data, i + 4, code, pl);
}

/// Reads one peer init message: the `u32` length prefix, the code, and
/// the payload. Trailing bytes past the message are not consumed.
pub fn read_peer_init_message(data: &Vec<u8>, pos: &mut usize) -> (r: Result<
    PeerInitMessage,
    Error,
>)
    requires
        *old(pos) <= data@.len(),
    ensures
        *old(pos) <= *final(pos) <= data@.len(),
        r matches Ok(v) ==> wf_peer_init(v),
        forall|m: PeerInitMessage|
            wf_peer_init(m) && frame_fits_u8(peer_init_payload(m)) && #[trigger] prefix_at(
                data@,
                *old(pos) as int,
                peer_init_frame(m),
            ) ==> (r matches Ok(v) && peer_init_eq(v, m) && *final(pos) == *old(pos)
                + peer_init_frame(m).len()),
{
    broadcast use crate::protocol::group_enc_facts;
    broadcast use vstd::utf8::encode_utf8_decode_utf8;

    let ghost start = *pos as int;
    let _declared = match read_u32(data, pos) {
        Ok(v) => v,
        Err(e) => {
            proof {
                assert forall|m: PeerInitMessage|
                    wf_peer_init(m) && frame_fits_u8(peer_init_payload(m)) && #[trigger] prefix_at(
                        data@,
                        start,
                        peer_init_frame(m),
                    ) implies false by {
                    peer_init_frame_parts(data@, start, m);
                }
            }
            return Err(e);
        },
    };
    let code_byte = match read_u8(data, pos) {
        Ok(v) => v,
        Err(e) => {
            proof {
                assert forall|m: PeerInitMessage|
                    wf_peer_init(m) && frame_fits_u8(peer_init_payload(m)) && #[trigger] prefix_at(
                        data@,
                        start,
                        peer_init_frame(m),
                    ) implies false by {
                    peer_init_frame_parts(data@, start, m);
                }
            }
            return Err(e);
        },
    };
    proof {
        assert(data@.subrange(start + 4, start + 5)[0] == code_byte);
        assert(data@[start + 4] == code_byte);
    }
    if code_byte == 0 {
        // PierceFirewall: a single token.
        match read_u32(data, pos) {
            Ok(token) => {
                let v = PeerInitMessage::PierceFirewall { token };
                proof {
                    assert forall|m: PeerInitMessage|
                        wf_peer_init(m) && frame_fits_u8(peer_init_payload(m))
                            && #[trigger] prefix_at(
                            data@,
                            start,
                            peer_init_frame(m),
                        ) implies peer_init_eq(v, m) && *pos == start + peer_init_frame(m).len() by {
                        peer_init_frame_parts(data@, start, m);
                        if m is PeerInit {
                            split_str(
                                data@,
                                start + 5,
                                m->PeerInit_username@,
                                enc_str(connection_type_chars(m->PeerInit_connection_type))
                                    + enc_u32(m->PeerInit_token),
                            );
                            assert(false);
                        } else {
                            split_u32(data@, start + 5, m->PierceFirewall_token, seq![]);
                        }
                    }
                }
                Ok(v)
            },
            Err(e) => {
                proof {
                    assert forall|m: PeerInitMessage|
                        wf_peer_init(m) && frame_fits_u8(peer_init_payload(m))
                            && #[trigger] prefix_at(data@, start, peer_init_frame(m)) implies false by {
                        peer_init_frame_parts(data@, start, m);
                        if m is PeerInit {
                            split_str(
                                data@,
                                start + 5,
                                m->PeerInit_username@,
                                enc_str(connection_type_chars(m->PeerInit_connection_type))
                                    + enc_u32(m->PeerInit_token),
                            );
                        } else {
                            split_u32(data@, start + 5, m->PierceFirewall_token, seq![]);
                        }
                    }
                }
                Err(e)
            },
        }
    } else if code_byte == 1 {
        // PeerInit: username, connection type, token.
        let ghost mid = *pos as int;
        proof {
            assert forall|m: PeerInitMessage|
                wf_peer_init(m) && frame_fits_u8(peer_init_payload(m)) && #[trigger] prefix_at(
                    data@,
                    start,
                    peer_init_frame(m),
                ) implies m is PeerInit && prefix_at(data@, mid, peer_init_payload(m)) by {
                peer_init_frame_parts(data@, start, m);
            }
        }
        let username = match read_string(data, pos) {
            Ok(v) => v,
            Err(e) => {
                proof {
                    assert forall|m: PeerInitMessage|
                        wf_peer_init(m) && frame_fits_u8(peer_init_payload(m))
                            && #[trigger] prefix_at(data@, start, peer_init_frame(m)) implies false by {
                        split_str(
                            data@,
                            mid,
                            m->PeerInit_username@,
                            enc_str(connection_type_chars(m->PeerInit_connection_type)) + enc_u32(
                                m->PeerInit_token,
                            ),
                        );
                    }
                }
                return Err(e);
            },
        };
        let ghost p1 = *pos as int;
        let conn_str = match read_string(data, pos) {
            Ok(v) => v,
            Err(e) => {
                proof {
                    assert forall|m: PeerInitMessage|
                        wf_peer_init(m) && frame_fits_u8(peer_init_payload(m))
                            && #[trigger] prefix_at(data@, start, peer_init_frame(m)) implies false by {
                        split_str(
                            data@,
                            mid,
                            m->PeerInit_username@,
                            enc_str(connection_type_chars(m->PeerInit_connection_type)) + enc_u32(
                                m->PeerInit_token,
                            ),
                        );
                        lemma_connection_type_ascii(m->PeerInit_connection_type);
                        split_str(
                            data@,
                            p1,
                            connection_type_chars(m->PeerInit_connection_type),
                            enc_u32(m->PeerInit_token),
                        );
                    }
                }
                return Err(e);
            },
        };
        let ghost p2 = *pos as int;
        let connection_type = match ConnectionType::parse(conn_str.as_str()) {
            Ok(v) => v,
            Err(e) => {
                proof {
                    assert forall|m: PeerInitMessage|
                        wf_peer_init(m) && frame_fits_u8(peer_init_payload(m))
                            && #[trigger] prefix_at(data@, start, peer_init_frame(m)) implies false by {
                        split_str(
                            data@,
                            mid,
                            m->PeerInit_username@,
                            enc_str(connection_type_chars(m->PeerInit_connection_type)) + enc_u32(
                                m->PeerInit_token,
                            ),
                        );
                        lemma_connection_type_ascii(m->PeerInit_connection_type);
                        split_str(
                            data@,
                            p1,
                            connection_type_chars(m->PeerInit_connection_type),
                            enc_u32(m->PeerInit_token),
                        );
                        crate::protocol::match_str_at(
                            data@,
                            mid,
                            username@,
                            m->PeerInit_username@,
                        );
                        crate::protocol::match_str_at(
                            data@,
                            p1,
                            conn_str@,
                            connection_type_chars(m->PeerInit_connection_type),
                        );
                        lemma_connection_type_parse(m->PeerInit_connection_type);
                    }
                }
                return Err(e);
            },
        };
        match read_u32(data, pos) {
            Ok(token) => {
                let v = PeerInitMessage::PeerInit { username, connection_type, token };
                proof {
                    assert forall|m: PeerInitMessage|
                        wf_peer_init(m) && frame_fits_u8(peer_init_payload(m))
                            && #[trigger] prefix_at(
                            data@,
                            start,
                            peer_init_frame(m),
                        ) implies peer_init_eq(v, m) && *pos == start + peer_init_frame(m).len() by {
                        split_str(
                            data@,
                            mid,
                            m->PeerInit_username@,
                            enc_str(connection_type_chars(m->PeerInit_connection_type)) + enc_u32(
                                m->PeerInit_token,
                            ),
                        );
                        lemma_connection_type_ascii(m->PeerInit_connection_type);
                        split_str(
                            data@,
                            p1,
                            connection_type_chars(m->PeerInit_connection_type),
                            enc_u32(m->PeerInit_token),
                        );
                        crate::protocol::match_str_at(
                            data@,
                            mid,
                            username@,
                            m->PeerInit_username@,
                        );
                        crate::protocol::match_str_at(
                            data@,
                            p1,
                            conn_str@,
                            connection_type_chars(m->PeerInit_connection_type),
                        );
                        lemma_connection_type_parse(m->PeerInit_connection_type);
                        split_u32(data@, p2, m->PeerInit_token, seq![]);
                    }
                }
                Ok(v)
            },
            Err(e) => {
                proof {
                    assert forall|m: PeerInitMessage|
                        wf_peer_init(m) && frame_fits_u8(peer_init_payload(m))
                            && #[trigger] prefix_at(data@, start, peer_init_frame(m)) implies false by {
                        split_str(
                            data@,
                            mid,
                            m->PeerInit_username@,
                            enc_str(connection_type_chars(m->PeerInit_connection_type)) + enc_u32(
                                m->PeerInit_token,
                            ),
                        );
                        lemma_connection_type_ascii(m->PeerInit_connection_type);
                        split_str(
                            data@,
                            p1,
                            connection_type_chars(m->PeerInit_connection_type),
                            enc_u32(m->PeerInit_token),
                        );
                        split_u32(data@, p2, m->PeerInit_token, seq![]);
                    }
                }
                Err(e)
            },
        }
    } else {
        proof {
            assert forall|m: PeerInitMessage|
                wf_peer_init(m) && frame_fits_u8(peer_init_payload(m)) && #[trigger] prefix_at(
                    data@,
                    start,
                    peer_init_frame(m),
                ) implies false by {
                peer_init_frame_parts(data@, start, m);
            }
        }
        Err(Error::InvalidPeerInitCode(code_byte))
    }
}

/// Returns the total size of the first complete peer init message in
/// `buf`, or `None` while more bytes are needed. Callers use it before
/// `read_peer_init_message` to avoid buffer underflow errors.
pub fn peer_init_message_size(buf: &Vec<u8>) -> (r: Option<usize>)
    ensures
        match r {
            Some(n) => spec_message_size(buf@) == Some(n as int),
            None => spec_message_size(buf@) is None,
        },
{
    message_size(buf)
}

} // verus!
