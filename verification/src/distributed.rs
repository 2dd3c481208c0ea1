//! Distributed network messages sent over D connections.
//!
//! The client receives these from the distributed search overlay and
//! never forwards them.

use vstd::prelude::*;
use vstd::utf8::encode_utf8;

use crate::protocol::{
    enc_i32, enc_str, enc_u32, enc_u8, frame_fits_u8, frame_u8, match_str_at, message_size,
    prefix_at, read_i32, read_rest, read_string, read_u32, read_u8, spec_message_size, split_i32,
    split_str, split_u32, split_u8, str_fits, take_prefix_at, write_i32, write_raw, write_str,
    write_u32, write_u8, Error,
};

verus! {

/// Distributed message codes.
#[derive(Debug, Clone, Copy, PartialEq, Eq, Structural)]
pub enum DistributedCode {
    Ping,
    Search,
    BranchLevel,
    BranchRoot,
    ChildDepth,
    EmbeddedMessage,
}

pub open spec fn distributed_code_u8(c: DistributedCode) -> u8 {
    match c {
        DistributedCode::Ping => 0,
        DistributedCode::Search => 3,
        DistributedCode::BranchLevel => 4,
        DistributedCode::BranchRoot => 5,
        DistributedCode::ChildDepth => 7,
        DistributedCode::EmbeddedMessage => 93,
    }
}

pub open spec fn spec_distributed_code_from(v: u8) -> Option<DistributedCode> {
    if v == 0 {
        Some(DistributedCode::Ping)
    } else if v == 3 {
        Some(DistributedCode::Search)
    } else if v == 4 {
        Some(DistributedCode::BranchLevel)
    } else if v == 5 {
        Some(DistributedCode::BranchRoot)
    } else if v == 7 {
        Some(DistributedCode::ChildDepth)
    } else if v == 93 {
        Some(DistributedCode::EmbeddedMessage)
    } else {
        None
    }
}

impl DistributedCode {
    pub fn as_u8(&self) -> (r: u8)
        ensures
            r == distributed_code_u8(*self),
    {
        match self {
            DistributedCode::Ping => 0,
            DistributedCode::Search => 3,
            DistributedCode::BranchLevel => 4,
            DistributedCode::BranchRoot => 5,
            DistributedCode::ChildDepth => 7,
            DistributedCode::EmbeddedMessage => 93,
        }
    }

    pub fn try_from(value: u8) -> (r: Result<DistributedCode, Error>)
        ensures
            match r {
                Ok(c) => spec_distributed_code_from(value) == Some(c),
                Err(e) => spec_distributed_code_from(value) is None && (e matches
                Error::InvalidDistributedCode(v) && v == value),
            },
    {
        if value == 0 {
            Ok(DistributedCode::Ping)
        } else if value == 3 {
            Ok(DistributedCode::Search)
        } else if value == 4 {
            Ok(DistributedCode::BranchLevel)
        } else if value == 5 {
            Ok(DistributedCode::BranchRoot)
        } else if value == 7 {
            Ok(DistributedCode::ChildDepth)
        } else if value == 93 {
            Ok(DistributedCode::EmbeddedMessage)
        } else {
            Err(Error::InvalidDistributedCode(value))
        }
    }
}

/// Distributed network messages.
#[derive(Debug, Clone)]
pub enum DistributedMessage {
    /// Ping children (deprecated).
    Ping,
    /// Distributed search request.
    Search { unknown: u32, username: String, token: u32, query: String },
    /// Branch level in the distributed network.
    BranchLevel { level: i32 },
    /// Branch root username.
    BranchRoot { root: String },
    /// Child depth (deprecated).
    ChildDepth { depth: u32 },
    /// Embedded message from the branch root.
    EmbeddedMessage { code: u8, data: Vec<u8> },
}

pub open spec fn distributed_code(m: DistributedMessage) -> DistributedCode {
    match m {
        DistributedMessage::Ping => DistributedCode::Ping,
        DistributedMessage::Search { .. } => DistributedCode::Search,
        DistributedMessage::BranchLevel { .. } => DistributedCode::BranchLevel,
        DistributedMessage::BranchRoot { .. } => DistributedCode::BranchRoot,
        DistributedMessage::ChildDepth { .. } => DistributedCode::ChildDepth,
        DistributedMessage::EmbeddedMessage { .. } => DistributedCode::EmbeddedMessage,
    }
}

/// Structural bounds that let a message be framed.
pub open spec fn wf_distributed(m: DistributedMessage) -> bool {
    match m {
        DistributedMessage::Search { username, query, .. } => str_fits(username@) && str_fits(
            query@,
        ),
        DistributedMessage::BranchRoot { root } => str_fits(root@),
        _ => true,
    }
}

/// The payload bytes of a distributed message.
pub open spec fn distributed_payload(m: DistributedMessage) -> Seq<u8> {
    match m {
        DistributedMessage::Ping => Seq::empty(),
        DistributedMessage::Search { unknown, username, token, query } => enc_u32(unknown) + (
        enc_str(username@) + (enc_u32(token) + enc_str(query@))),
        DistributedMessage::BranchLevel { level } => enc_i32(level),
        DistributedMessage::BranchRoot { root } => enc_str(root@),
        DistributedMessage::ChildDepth { depth } => enc_u32(depth),
        DistributedMessage::EmbeddedMessage { code, data } => enc_u8(code) + data@,
    }
}

/// The complete frame of a distributed message.
pub open spec fn distributed_frame(m: DistributedMessage) -> Seq<u8> {
    frame_u8(distributed_code_u8(distributed_code(m)), distributed_payload(m))
}

/// Equality of distributed messages up to string and byte contents.
pub open spec fn distributed_eq(a: DistributedMessage, b: DistributedMessage) -> bool {
    match (a, b) {
        (DistributedMessage::Ping, DistributedMessage::Ping) => true,
        (
            DistributedMessage::Search { unknown: k1, username: u1, token: t1, query: q1 },
            DistributedMessage::Search { unknown: k2, username: u2, token: t2, query: q2 },
        ) => k1 == k2 && u1@ == u2@ && t1 == t2 && q1@ == q2@,
        (
            DistributedMessage::BranchLevel { level: l1 },
            DistributedMessage::BranchLevel { level: l2 },
        ) => l1 == l2,
        (
            DistributedMessage::BranchRoot { root: r1 },
            DistributedMessage::BranchRoot { root: r2 },
        ) => r1@ == r2@,
        (
            DistributedMessage::ChildDepth { depth: d1 },
            DistributedMessage::ChildDepth { depth: d2 },
        ) => d1 == d2,
        (
            DistributedMessage::EmbeddedMessage { code: c1, data: d1 },
            DistributedMessage::EmbeddedMessage { code: c2, data: d2 },
        ) => c1 == c2 && d1@ == d2@,
        _ => false,
    }
}

impl DistributedMessage {
    /// The code of this message.
    pub fn code(&self) -> (r: DistributedCode)
        ensures
            r == distributed_code(*self),
    {
        match self {
            DistributedMessage::Ping => DistributedCode::Ping,
            DistributedMessage::Search { .. } => DistributedCode::Search,
            DistributedMessage::BranchLevel { .. } => DistributedCode::BranchLevel,
            DistributedMessage::BranchRoot { .. } => DistributedCode::BranchRoot,
            DistributedMessage::ChildDepth { .. } => DistributedCode::ChildDepth,
            DistributedMessage::EmbeddedMessage { .. } => DistributedCode::EmbeddedMessage,
        }
    }
}

/// Appends the payload of `msg` (no length prefix, no code).
pub fn write_distributed_payload(msg: &DistributedMessage, out: &mut Vec<u8>)
    requires
        wf_distributed(*msg),
    ensures
        final(out)@ == old(out)@ + distributed_payload(*msg),
{
    match msg {
        DistributedMessage::Ping => {
            proof {
                assert(out@ =~= old(out)@ + distributed_payload(*msg));
            }
        },
        DistributedMessage::Search { unknown, username, token, query } => {
            write_u32(out, *unknown);
            write_str(out, username.as_str());
            write_u32(out, *token);
            write_str(out, query.as_str());
            proof {
                assert(out@ =~= old(out)@ + distributed_payload(*msg));
            }
        },
        DistributedMessage::BranchLevel { level } => {
            write_i32(out, *level);
        },
        DistributedMessage::BranchRoot { root } => {
            write_str(out, root.as_str());
        },
        DistributedMessage::ChildDepth { depth } => {
            write_u32(out, *depth);
        },
        DistributedMessage::EmbeddedMessage { code, data } => {
            write_u8(out, *code);
            write_raw(out, data);
            proof {
                assert(out@ =~= old(out)@ + distributed_payload(*msg));
            }
        },
    }
}

/// Appends the complete frame of `msg`: length prefix, code, payload.
/// Fails, leaving `out` untouched, only when the payload is too large
/// for the `u32` length prefix.
pub fn write_distributed_message(msg: &DistributedMessage, out: &mut Vec<u8>) -> (r: Result<
    (),
    Error,
>)
    requires
        wf_distributed(*msg),
    ensures
        match r {
            Ok(()) => frame_fits_u8(distributed_payload(*msg)) && final(out)@ == old(out)@
                + distributed_frame(*msg),
            Err(_) => !frame_fits_u8(distributed_payload(*msg)) && final(out)@ == old(out)@,
        },
{
    let mut payload: Vec<u8> = Vec::new();
    write_distributed_payload(msg, &mut payload);
    if payload.len() > u32::MAX as usize - 1 {
        return Err(Error::Protocol(String::from_str("message too large to frame")));
    }
    write_u32(out, 1 + payload.len() as u32);
    write_u8(out, msg.code().as_u8());
    write_raw(out, &payload);
    proof {
        assert(out@ =~= old(out)@ + distributed_frame(*msg));
    }
    Ok(())
}

/// Splits a distributed frame at offset `i` into its parts.
proof fn distributed_frame_parts(data: Seq<u8>, i: int, m: DistributedMessage)
    requires
        wf_distributed(m),
        frame_fits_u8(distributed_payload(m)),
        prefix_at(data, i, distributed_frame(m)),
    ensures
        i + 5 + distributed_payload(m).len() <= data.len(),
        data.subrange(i, i + 4) == enc_u32((1 + distributed_payload(m).len()) as u32),
        data[i + 4] == distributed_code_u8(distributed_code(m)),
        prefix_at(data, i + 5, distributed_payload(m)),
        distributed_frame(m).len() == 5 + distributed_payload(m).len(),
{
    broadcast use crate::protocol::group_enc_facts;

    let pl = distributed_payload(m);
    let code = distributed_code_u8(distributed_code(m));
    take_prefix_at(
        data,
        i,
        i + distributed_frame(m).len(),
        enc_u32((1 + pl.len()) as u32),
        enc_u8(code) + pl,
    );
    split_u8(data, i + 4, code, pl);
}

/// The split chain for a `Search` payload at offset `j`.
proof fn search_payload_parts(data: Seq<u8>, j: int, m: DistributedMessage)
    requires
        m is Search,
        wf_distributed(m),
        prefix_at(data, j, distributed_payload(m)),
    ensures
        prefix_at(data, j, enc_u32(m->Search_unknown) + (enc_str(m->Search_username@) + (enc_u32(
            m->Search_token,
        ) + enc_str(m->Search_query@)))),
        data.subrange(j, j + 4) == enc_u32(m->Search_unknown),
        prefix_at(data, j + 4, enc_str(m->Search_username@)),
        data.subrange(j + 4, j + 8) == enc_u32(encode_utf8(m->Search_username@).len() as u32),
        data.subrange(j + 8, j + 8 + encode_utf8(m->Search_username@).len()) == encode_utf8(
            m->Search_username@,
        ),
        data.subrange(
            j + 8 + encode_utf8(m->Search_username@).len(),
            j + 12 + encode_utf8(m->Search_username@).len(),
        ) == enc_u32(m->Search_token),
        ({
            let q = j + 12 + encode_utf8(m->Search_username@).len();
            &&& data.subrange(q, q + 4) == enc_u32(encode_utf8(m->Search_query@).len() as u32)
            &&& data.subrange(q + 4, q + 4 + encode_utf8(m->Search_query@).len()) == encode_utf8(
                m->Search_query@,
            )
            &&& q + 4 + encode_utf8(m->Search_query@).len() == j + distributed_payload(m).len()
            &&& crate::protocol::str_starts_at(data, j + 4)
            &&& crate::protocol::str_starts_at(data, q)
        }),
{
    broadcast use crate::protocol::group_enc_facts;

    let u = m->Search_username@;
    let q = m->Search_query@;
    split_u32(data, j, m->Search_unknown, enc_str(u) + (enc_u32(m->Search_token) + enc_str(q)));
    split_str(data, j + 4, u, enc_u32(m->Search_token) + enc_str(q));
    split_u32(data, j + 8 + encode_utf8(u).len(), m->Search_token, enc_str(q));
    split_str(data, j + 12 + encode_utf8(u).len(), q, seq![]);
}

/// Reads one distributed message: the `u32` length prefix, the code,
/// and the payload. Trailing bytes past the frame are not consumed.
pub fn read_distributed_message(data: &Vec<u8>, pos: &mut usize) -> (r: Result<
    DistributedMessage,
    Error,
>)
    requires
        *old(pos) <= data@.len(),
    ensures
        *old(pos) <= *final(pos) <= data@.len(),
        r matches Ok(v) ==> wf_distributed(v),
        forall|m: DistributedMessage|
            wf_distributed(m) && frame_fits_u8(distributed_payload(m)) && #[trigger] prefix_at(
                data@,
                *old(pos) as int,
                distributed_frame(m),
            ) ==> (r matches Ok(v) && distributed_eq(v, m) && *final(pos) == *old(pos)
                + distributed_frame(m).len()),
{
    broadcast use crate::protocol::group_enc_facts;

    let ghost start = *pos as int;
    let declared = match read_u32(data, pos) {
        Ok(v) => v,
        Err(e) => {
            proof {
                assert forall|m: DistributedMessage|
                    wf_distributed(m) && frame_fits_u8(distributed_payload(m))
                        && #[trigger] prefix_at(data@, start, distributed_frame(m)) implies false by {
                    distributed_frame_parts(data@, start, m);
                }
            }
            return Err(e);
        },
    };
    if declared == 0 || declared as usize > data.len() - *pos {
        proof {
            assert forall|m: DistributedMessage|
                wf_distributed(m) && frame_fits_u8(distributed_payload(m)) && #[trigger] prefix_at(
                    data@,
                    start,
                    distributed_frame(m),
                ) implies false by {
                distributed_frame_parts(data@, start, m);
            }
        }
        return Err(
            Error::BufferUnderflow { needed: declared as usize, available: data.len() - *pos },
        );
    }
    let ghost frame_end = start + 4 + declared as int;
    let payload_end = *pos + declared as usize;
    let code_byte = match read_u8(data, pos) {
        Ok(v) => v,
        Err(e) => {
            proof {
                assert(false);
            }
            return Err(e);
        },
    };
    proof {
        assert(data@.subrange(start + 4, start + 5)[0] == code_byte);
        assert(data@[start + 4] == code_byte);
    }
    if code_byte == 0 {
        let v = DistributedMessage::Ping;
        proof {
            assert forall|m: DistributedMessage|
                wf_distributed(m) && frame_fits_u8(distributed_payload(m)) && #[trigger] prefix_at(
                    data@,
                    start,
                    distributed_frame(m),
                ) implies distributed_eq(v, m) && *pos == start + distributed_frame(m).len() by {
                distributed_frame_parts(data@, start, m);
            }
        }
        Ok(v)
    } else if code_byte == 3 {
        let ghost mid = *pos as int;
        proof {
            assert forall|m: DistributedMessage|
                wf_distributed(m) && frame_fits_u8(distributed_payload(m)) && #[trigger] prefix_at(
                    data@,
                    start,
                    distributed_frame(m),
                ) implies m is Search && prefix_at(data@, mid, distributed_payload(m)) by {
                distributed_frame_parts(data@, start, m);
            }
        }
        let unknown = match read_u32(data, pos) {
            Ok(v) => v,
            Err(e) => {
                proof {
                    assert forall|m: DistributedMessage|
                        wf_distributed(m) && frame_fits_u8(distributed_payload(m))
                            && #[trigger] prefix_at(data@, start, distributed_frame(m)) implies false by {
                        search_payload_parts(data@, mid, m);
                    }
                }
                return Err(e);
            },
        };
        let username = match read_string(data, pos) {
            Ok(v) => v,
            Err(e) => {
                proof {
                    assert forall|m: DistributedMessage|
                        wf_distributed(m) && frame_fits_u8(distributed_payload(m))
                            && #[trigger] prefix_at(data@, start, distributed_frame(m)) implies false by {
                        search_payload_parts(data@, mid, m);
                    }
                }
                return Err(e);
            },
        };
        let token = match read_u32(data, pos) {
            Ok(v) => v,
            Err(e) => {
                proof {
                    assert forall|m: DistributedMessage|
                        wf_distributed(m) && frame_fits_u8(distributed_payload(m))
                            && #[trigger] prefix_at(data@, start, distributed_frame(m)) implies false by {
                        search_payload_parts(data@, mid, m);
                        match_str_at(data@, mid + 4, username@, m->Search_username@);
                    }
                }
                return Err(e);
            },
        };
        match read_string(data, pos) {
            Ok(query) => {
                let v = DistributedMessage::Search { unknown, username, token, query };
                proof {
                    assert forall|m: DistributedMessage|
                        wf_distributed(m) && frame_fits_u8(distributed_payload(m))
                            && #[trigger] prefix_at(
                            data@,
                            start,
                            distributed_frame(m),
                        ) implies distributed_eq(v, m) && *pos == start + distributed_frame(
                        m,
                    ).len() by {
                        search_payload_parts(data@, mid, m);
                        match_str_at(data@, mid + 4, v->Search_username@, m->Search_username@);
                        match_str_at(
                            data@,
                            mid + 12 + encode_utf8(m->Search_username@).len(),
                            v->Search_query@,
                            m->Search_query@,
                        );
                    }
                }
                Ok(v)
            },
            Err(e) => {
                proof {
                    assert forall|m: DistributedMessage|
                        wf_distributed(m) && frame_fits_u8(distributed_payload(m))
                            && #[trigger] prefix_at(data@, start, distributed_frame(m)) implies false by {
                        search_payload_parts(data@, mid, m);
                        match_str_at(data@, mid + 4, username@, m->Search_username@);
                    }
                }
                Err(e)
            },
        }
    } else if code_byte == 4 {
        match read_i32(data, pos) {
            Ok(level) => {
                let v = DistributedMessage::BranchLevel { level };
                proof {
                    assert forall|m: DistributedMessage|
                        wf_distributed(m) && frame_fits_u8(distributed_payload(m))
                            && #[trigger] prefix_at(
                            data@,
                            start,
                            distributed_frame(m),
                        ) implies distributed_eq(v, m) && *pos == start + distributed_frame(
                        m,
                    ).len() by {
                        distributed_frame_parts(data@, start, m);
                        split_i32(data@, start + 5, m->BranchLevel_level, seq![]);
                        crate::protocol::enc_i32_injective(level, m->BranchLevel_level);
                    }
                }
                Ok(v)
            },
            Err(e) => {
                proof {
                    assert forall|m: DistributedMessage|
                        wf_distributed(m) && frame_fits_u8(distributed_payload(m))
                            && #[trigger] prefix_at(data@, start, distributed_frame(m)) implies false by {
                        distributed_frame_parts(data@, start, m);
                        split_i32(data@, start + 5, m->BranchLevel_level, seq![]);
                    }
                }
                Err(e)
            },
        }
    } else if code_byte == 5 {
        let ghost mid = *pos as int;
        match read_string(data, pos) {
            Ok(root) => {
                let v = DistributedMessage::BranchRoot { root };
                proof {
                    assert forall|m: DistributedMessage|
                        wf_distributed(m) && frame_fits_u8(distributed_payload(m))
                            && #[trigger] prefix_at(
                            data@,
                            start,
                            distributed_frame(m),
                        ) implies distributed_eq(v, m) && *pos == start + distributed_frame(
                        m,
                    ).len() by {
                        distributed_frame_parts(data@, start, m);
                        split_str(data@, mid, m->BranchRoot_root@, seq![]);
                        match_str_at(data@, mid, root@, m->BranchRoot_root@);
                    }
                }
                Ok(v)
            },
            Err(e) => {
                proof {
                    assert forall|m: DistributedMessage|
                        wf_distributed(m) && frame_fits_u8(distributed_payload(m))
                            && #[trigger] prefix_at(data@, start, distributed_frame(m)) implies false by {
                        distributed_frame_parts(data@, start, m);
                        split_str(data@, mid, m->BranchRoot_root@, seq![]);
                    }
                }
                Err(e)
            },
        }
    } else if code_byte == 7 {
        match read_u32(data, pos) {
            Ok(depth) => {
                let v = DistributedMessage::ChildDepth { depth };
                proof {
                    assert forall|m: DistributedMessage|
                        wf_distributed(m) && frame_fits_u8(distributed_payload(m))
                            && #[trigger] prefix_at(
                            data@,
                            start,
                            distributed_frame(m),
                        ) implies distributed_eq(v, m) && *pos == start + distributed_frame(
                        m,
                    ).len() by {
                        distributed_frame_parts(data@, start, m);
                        split_u32(data@, start + 5, m->ChildDepth_depth, seq![]);
                    }
                }
                Ok(v)
            },
            Err(e) => {
                proof {
                    assert forall|m: DistributedMessage|
                        wf_distributed(m) && frame_fits_u8(distributed_payload(m))
                            && #[trigger] prefix_at(data@, start, distributed_frame(m)) implies false by {
                        distributed_frame_parts(data@, start, m);
                        split_u32(data@, start + 5, m->ChildDepth_depth, seq![]);
                    }
                }
                Err(e)
            },
        }
    } else if code_byte == 93 {
        // The embedded bytes fill the remainder of the frame.
        if payload_end <= *pos {
            proof {
                assert forall|m: DistributedMessage|
                    wf_distributed(m) && frame_fits_u8(distributed_payload(m))
                        && #[trigger] prefix_at(data@, start, distributed_frame(m)) implies false by {
                    distributed_frame_parts(data@, start, m);
                    split_u8(data@, start + 5, m->EmbeddedMessage_code, m->EmbeddedMessage_data@);
                }
            }
            return Err(Error::Protocol(String::from_str("embedded message shorter than its code")));
        }
        match read_u8(data, pos) {
            Ok(inner_code) => {
                let bytes = crate::protocol::copy_range(data, *pos, payload_end);
                *pos = payload_end;
                let v = DistributedMessage::EmbeddedMessage { code: inner_code, data: bytes };
                proof {
                    assert(data@.subrange(start + 5, start + 6)[0] == inner_code);
                    assert forall|m: DistributedMessage|
                        wf_distributed(m) && frame_fits_u8(distributed_payload(m))
                            && #[trigger] prefix_at(
                            data@,
                            start,
                            distributed_frame(m),
                        ) implies distributed_eq(v, m) && *pos == start + distributed_frame(
                        m,
                    ).len() by {
                        distributed_frame_parts(data@, start, m);
                        split_u8(data@, start + 5, m->EmbeddedMessage_code, m->EmbeddedMessage_data@);
                        assert(declared == (1 + distributed_payload(m).len()) as u32);
                        assert(data@.subrange(start + 6, frame_end)
                            == m->EmbeddedMessage_data@);
                    }
                }
                Ok(v)
            },
            Err(e) => {
                proof {
                    assert forall|m: DistributedMessage|
                        wf_distributed(m) && frame_fits_u8(distributed_payload(m))
                            && #[trigger] prefix_at(data@, start, distributed_frame(m)) implies false by {
                        distributed_frame_parts(data@, start, m);
                        split_u8(data@, start + 5, m->EmbeddedMessage_code, m->EmbeddedMessage_data@);
                    }
                }
                Err(e)
            },
        }
    } else {
        proof {
            assert forall|m: DistributedMessage|
                wf_distributed(m) && frame_fits_u8(distributed_payload(m)) && #[trigger] prefix_at(
                    data@,
                    start,
                    distributed_frame(m),
                ) implies false by {
                distributed_frame_parts(data@, start, m);
            }
        }
        Err(Error::InvalidDistributedCode(code_byte))
    }
}

/// Returns the total size of the first complete distributed message in
/// `buf`, or `None` while more bytes are needed.
pub fn distributed_message_size(buf: &Vec<u8>) -> (r: Option<usize>)
    ensures
        match r {
            Some(n) => spec_message_size(buf@) == Some(n as int),
            None => spec_message_size(buf@) is None,
        },
{
    message_size(buf)
}

} // verus!
