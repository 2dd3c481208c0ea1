//! Wire-level primitives shared by all four Soulseek protocols.
//!
//! All integers are little-endian. Strings are a `u32` byte-length
//! prefix followed by UTF-8 bytes, with no terminator. IPv4 addresses
//! are four bytes in reversed order. Every reader validates that
//! enough bytes remain; a short buffer fails with
//! `Error::BufferUnderflow` and leaves the cursor untouched.

use std::io::Read;
use std::io::Write;
use vstd::prelude::*;
use vstd::bytes::*;
use vstd::utf8::*;
use vstd::slice::slice_subrange;
use vstd::string::StrSliceExecFns;

verus! {

/// Errors produced while encoding or decoding protocol messages.
#[derive(Debug, Clone)]
pub enum Error {
    /// Bytes in a string field were not valid UTF-8.
    Utf8,
    /// A server or peer message code was not recognised.
    InvalidMessageCode(u32),
    /// A peer-init message code was not recognised.
    InvalidPeerInitCode(u8),
    /// A distributed message code was not recognised.
    InvalidDistributedCode(u8),
    /// The buffer held fewer bytes than a read needed.
    BufferUnderflow { needed: usize, available: usize },
    /// A zlib-compressed payload could not be decompressed.
    Decompression(String),
    /// A connection-type string was not one of "P", "F", "D".
    InvalidConnectionType(String),
    /// A user-status integer was not 0, 1 or 2.
    InvalidUserStatus(u32),
    /// A transfer-direction integer was not 0 or 1.
    InvalidTransferDirection(u32),
    /// Any other violation of the wire protocol.
    Protocol(String),
}

/// An IPv4 address, held as the four octets of its dotted-quad form
/// `a.b.c.d`. On the wire the octets travel in reversed order:
/// `d, c, b, a`.
#[derive(Debug, Clone, Copy, PartialEq, Eq, Structural)]
pub struct Ipv4Addr {
    pub a: u8,
    pub b: u8,
    pub c: u8,
    pub d: u8,
}

impl Ipv4Addr {
    pub fn new(a: u8, b: u8, c: u8, d: u8) -> (r: Ipv4Addr)
        ensures
            r == (Ipv4Addr { a, b, c, d }),
    {
        Ipv4Addr { a, b, c, d }
    }
}

// ---------------------------------------------------------------------------
// Encoding functions: the byte sequence each primitive produces.
// ---------------------------------------------------------------------------

pub open spec fn enc_u8(v: u8) -> Seq<u8> {
    seq![v]
}

pub open spec fn enc_u16(v: u16) -> Seq<u8> {
    spec_u16_to_le_bytes(v)
}

pub open spec fn enc_u32(v: u32) -> Seq<u8> {
    spec_u32_to_le_bytes(v)
}

pub open spec fn enc_i32(v: i32) -> Seq<u8> {
    spec_u32_to_le_bytes(v as u32)
}

pub open spec fn enc_u64(v: u64) -> Seq<u8> {
    spec_u64_to_le_bytes(v)
}

pub open spec fn enc_bool(v: bool) -> Seq<u8> {
    seq![if v { 1u8 } else { 0u8 }]
}

pub open spec fn enc_ipv4(v: Ipv4Addr) -> Seq<u8> {
    seq![v.d, v.c, v.b, v.a]
}

/// True when the UTF-8 encoding of a string fits the `u32` length prefix.
pub open spec fn str_fits(s: Seq<char>) -> bool {
    encode_utf8(s).len() <= u32::MAX
}

pub open spec fn enc_str(s: Seq<char>) -> Seq<u8> {
    spec_u32_to_le_bytes(encode_utf8(s).len() as u32) + encode_utf8(s)
}

/// True when a raw byte blob fits the `u32` length prefix.
pub open spec fn bytes_fit(b: Seq<u8>) -> bool {
    b.len() <= u32::MAX
}

pub open spec fn enc_bytes(b: Seq<u8>) -> Seq<u8> {
    spec_u32_to_le_bytes(b.len() as u32) + b
}

/// The encoding of a list: a `u32` count followed by each element's
/// encoding in order.
pub open spec fn enc_list<T>(items: Seq<T>, f: spec_fn(T) -> Seq<u8>) -> Seq<u8> {
    spec_u32_to_le_bytes(items.len() as u32) + items.map_values(f).flatten()
}

/// True when a list's element count fits the `u32` prefix.
pub open spec fn list_fits<T>(items: Seq<T>) -> bool {
    items.len() <= u32::MAX
}

// ---------------------------------------------------------------------------
// Writers: append a primitive's encoding to an output buffer.
// ---------------------------------------------------------------------------

pub fn write_u8(out: &mut Vec<u8>, v: u8)
    ensures
        final(out)@ == old(out)@ + enc_u8(v),
{
    out.push(v);
    proof {
        assert(out@ =~= old(out)@ + enc_u8(v));
    }
}

pub fn write_u16(out: &mut Vec<u8>, v: u16)
    ensures
        final(out)@ == old(out)@ + enc_u16(v),
{
    let mut bytes = u16_to_le_bytes(v);
    out.append(&mut bytes);
}

pub fn write_u32(out: &mut Vec<u8>, v: u32)
    ensures
        final(out)@ == old(out)@ + enc_u32(v),
{
    let mut bytes = u32_to_le_bytes(v);
    out.append(&mut bytes);
}

pub fn write_i32(out: &mut Vec<u8>, v: i32)
    ensures
        final(out)@ == old(out)@ + enc_i32(v),
{
    #[verifier::truncate]
    let u: u32 = v as u32;
    let mut bytes = u32_to_le_bytes(u);
    out.append(&mut bytes);
}

pub fn write_u64(out: &mut Vec<u8>, v: u64)
    ensures
        final(out)@ == old(out)@ + enc_u64(v),
{
    let mut bytes = u64_to_le_bytes(v);
    out.append(&mut bytes);
}

pub fn write_bool(out: &mut Vec<u8>, v: bool)
    ensures
        final(out)@ == old(out)@ + enc_bool(v),
{
    out.push(if v { 1 } else { 0 });
    proof {
        assert(out@ =~= old(out)@ + enc_bool(v));
    }
}

pub fn write_ipv4(out: &mut Vec<u8>, v: &Ipv4Addr)
    ensures
        final(out)@ == old(out)@ + enc_ipv4(*v),
{
    out.push(v.d);
    out.push(v.c);
    out.push(v.b);
    out.push(v.a);
    proof {
        assert(out@ =~= old(out)@ + enc_ipv4(*v));
    }
}

/// Appends the UTF-8 bytes of `s` behind a `u32` byte-length prefix.
pub fn write_str(out: &mut Vec<u8>, s: &str)
    requires
        str_fits(s@),
    ensures
        final(out)@ == old(out)@ + enc_str(s@),
{
    let n = s.as_bytes().len();
    write_u32(out, n as u32);
    let mut tail = s.as_bytes_vec();
    out.append(&mut tail);
    proof {
        assert(out@ =~= old(out)@ + enc_str(s@));
    }
}

/// Appends raw bytes behind a `u32` length prefix.
pub fn write_bytes(out: &mut Vec<u8>, data: &Vec<u8>)
    requires
        bytes_fit(data@),
    ensures
        final(out)@ == old(out)@ + enc_bytes(data@),
{
    write_u32(out, data.len() as u32);
    let mut i: usize = 0;
    while i < data.len()
        invariant
            i <= data@.len(),
            data@.len() <= u32::MAX,
            out@ == old(out)@ + enc_u32(data@.len() as u32) + data@.subrange(0, i as int),
        decreases data@.len() - i,
    {
        out.push(data[i]);
        i = i + 1;
        proof {
            assert(out@ =~= old(out)@ + enc_u32(data@.len() as u32) + data@.subrange(
                0,
                i as int,
            ));
        }
    }
    proof {
        assert(data@.subrange(0, data@.len() as int) =~= data@);
        assert(out@ =~= old(out)@ + enc_bytes(data@));
    }
}

/// Appends the bytes of a slice without any prefix.
pub fn write_raw(out: &mut Vec<u8>, data: &Vec<u8>)
    ensures
        final(out)@ == old(out)@ + data@,
{
    let mut i: usize = 0;
    while i < data.len()
        invariant
            i <= data@.len(),
            out@ == old(out)@ + data@.subrange(0, i as int),
        decreases data@.len() - i,
    {
        out.push(data[i]);
        i = i + 1;
        proof {
            assert(out@ =~= old(out)@ + data@.subrange(0, i as int));
        }
    }
    proof {
        assert(data@.subrange(0, data@.len() as int) =~= data@);
    }
}

// ---------------------------------------------------------------------------
// Readers: consume a primitive from `data` at `*pos`. On failure the
// cursor is left untouched.
// ---------------------------------------------------------------------------

pub fn read_u8(data: &Vec<u8>, pos: &mut usize) -> (r: Result<u8, Error>)
    requires
        *old(pos) <= data@.len(),
    ensures
        match r {
            Ok(v) => *final(pos) == *old(pos) + 1 && *old(pos) + 1 <= data@.len()
                && data@.subrange(*old(pos) as int, *old(pos) + 1) == enc_u8(v),
            Err(e) => *final(pos) == *old(pos) && data@.len() < *old(pos) + 1 && (e matches Error::BufferUnderflow { needed: 1, available }
                && available == data@.len() - *old(pos)),
        },
{
    if data.len() - *pos >= 1 {
        let v = data[*pos];
        *pos = *pos + 1;
        proof {
            assert(data@.subrange(*old(pos) as int, *pos as int) =~= enc_u8(v));
        }
        Ok(v)
    } else {
        Err(Error::BufferUnderflow { needed: 1, available: data.len() - *pos })
    }
}

pub fn read_u16(data: &Vec<u8>, pos: &mut usize) -> (r: Result<u16, Error>)
    requires
        *old(pos) <= data@.len(),
    ensures
        match r {
            Ok(v) => *final(pos) == *old(pos) + 2 && *old(pos) + 2 <= data@.len()
                && data@.subrange(*old(pos) as int, *old(pos) + 2) == enc_u16(v),
            Err(e) => *final(pos) == *old(pos) && data@.len() < *old(pos) + 2 && (e matches Error::BufferUnderflow { needed: 2, available }
                && available == data@.len() - *old(pos)),
        },
{
    if data.len() - *pos >= 2 {
        let chunk = slice_subrange(data.as_slice(), *pos, *pos + 2);
        let v = u16_from_le_bytes(chunk);
        *pos = *pos + 2;
        proof {
            lemma_auto_spec_u16_to_from_le_bytes();
            assert(data@.subrange(*old(pos) as int, *pos as int) == enc_u16(v));
        }
        Ok(v)
    } else {
        Err(Error::BufferUnderflow { needed: 2, available: data.len() - *pos })
    }
}

pub fn read_u32(data: &Vec<u8>, pos: &mut usize) -> (r: Result<u32, Error>)
    requires
        *old(pos) <= data@.len(),
    ensures
        match r {
            Ok(v) => *final(pos) == *old(pos) + 4 && *old(pos) + 4 <= data@.len()
                && data@.subrange(*old(pos) as int, *old(pos) + 4) == enc_u32(v),
            Err(e) => *final(pos) == *old(pos) && data@.len() < *old(pos) + 4 && (e matches Error::BufferUnderflow { needed: 4, available }
                && available == data@.len() - *old(pos)),
        },
{
    if data.len() - *pos >= 4 {
        let chunk = slice_subrange(data.as_slice(), *pos, *pos + 4);
        let v = u32_from_le_bytes(chunk);
        *pos = *pos + 4;
        proof {
            lemma_auto_spec_u32_to_from_le_bytes();
            assert(data@.subrange(*old(pos) as int, *pos as int) == enc_u32(v));
        }
        Ok(v)
    } else {
        Err(Error::BufferUnderflow { needed: 4, available: data.len() - *pos })
    }
}

pub fn read_i32(data: &Vec<u8>, pos: &mut usize) -> (r: Result<i32, Error>)
    requires
        *old(pos) <= data@.len(),
    ensures
        match r {
            Ok(v) => *final(pos) == *old(pos) + 4 && *old(pos) + 4 <= data@.len()
                && data@.subrange(*old(pos) as int, *old(pos) + 4) == enc_i32(v),
            Err(e) => *final(pos) == *old(pos) && data@.len() < *old(pos) + 4 && (e matches Error::BufferUnderflow { needed: 4, available }
                && available == data@.len() - *old(pos)),
        },
{
    match read_u32(data, pos) {
        Ok(u) => {
            #[verifier::truncate]
            let v: i32 = u as i32;
            proof {
                assert((u as i32) as u32 == u) by (bit_vector);
            }
            Ok(v)
        },
        Err(e) => Err(e),
    }
}

pub fn read_u64(data: &Vec<u8>, pos: &mut usize) -> (r: Result<u64, Error>)
    requires
        *old(pos) <= data@.len(),
    ensures
        match r {
            Ok(v) => *final(pos) == *old(pos) + 8 && *old(pos) + 8 <= data@.len()
                && data@.subrange(*old(pos) as int, *old(pos) + 8) == enc_u64(v),
            Err(e) => *final(pos) == *old(pos) && data@.len() < *old(pos) + 8 && (e matches Error::BufferUnderflow { needed: 8, available }
                && available == data@.len() - *old(pos)),
        },
{
    if data.len() - *pos >= 8 {
        let chunk = slice_subrange(data.as_slice(), *pos, *pos + 8);
        let v = u64_from_le_bytes(chunk);
        *pos = *pos + 8;
        proof {
            lemma_auto_spec_u64_to_from_le_bytes();
            assert(data@.subrange(*old(pos) as int, *pos as int) == enc_u64(v));
        }
        Ok(v)
    } else {
        Err(Error::BufferUnderflow { needed: 8, available: data.len() - *pos })
    }
}

/// Reads one byte as a boolean; any nonzero byte means true.
pub fn read_bool(data: &Vec<u8>, pos: &mut usize) -> (r: Result<bool, Error>)
    requires
        *old(pos) <= data@.len(),
    ensures
        match r {
            Ok(v) => *final(pos) == *old(pos) + 1 && *old(pos) + 1 <= data@.len() && v == (data@[*old(
                pos,
            ) as int] != 0),
            Err(e) => *final(pos) == *old(pos) && data@.len() < *old(pos) + 1 && (e matches Error::BufferUnderflow { needed: 1, available }
                && available == data@.len() - *old(pos)),
        },
{
    match read_u8(data, pos) {
        Ok(b) => {
            proof {
                assert(data@.subrange(*old(pos) as int, *old(pos) + 1)[0] == b);
            }
            Ok(b != 0)
        },
        Err(e) => Err(e),
    }
}

pub fn read_ipv4(data: &Vec<u8>, pos: &mut usize) -> (r: Result<Ipv4Addr, Error>)
    requires
        *old(pos) <= data@.len(),
    ensures
        match r {
            Ok(v) => *final(pos) == *old(pos) + 4 && *old(pos) + 4 <= data@.len()
                && data@.subrange(*old(pos) as int, *old(pos) + 4) == enc_ipv4(v),
            Err(e) => *final(pos) == *old(pos) && data@.len() < *old(pos) + 4 && (e matches Error::BufferUnderflow { needed: 4, available }
                && available == data@.len() - *old(pos)),
        },
{
    if data.len() - *pos >= 4 {
        let d = data[*pos];
        let c = data[*pos + 1];
        let b = data[*pos + 2];
        let a = data[*pos + 3];
        *pos = *pos + 4;
        let v = Ipv4Addr { a, b, c, d };
        proof {
            assert(data@.subrange(*old(pos) as int, *pos as int) =~= enc_ipv4(v));
        }
        Ok(v)
    } else {
        Err(Error::BufferUnderflow { needed: 4, available: data.len() - *pos })
    }
}


// ---------------------------------------------------------------------------
// Strings and byte blobs.
// ---------------------------------------------------------------------------

/// Relies on `String::from_utf8`: it succeeds exactly on valid UTF-8
/// input and returns the string those bytes encode.
#[verifier::external_body]
fn string_from_utf8(bytes: Vec<u8>) -> (r: Option<String>)
    ensures
        r is Some <==> valid_utf8(bytes@),
        r matches Some(s) ==> encode_utf8(s@) == bytes@,
{
    String::from_utf8(bytes).ok()
}

/// Copies `data[from..to]` into a fresh vector.
pub fn copy_range(data: &Vec<u8>, from: usize, to: usize) -> (r: Vec<u8>)
    requires
        from <= to <= data@.len(),
    ensures
        r@ == data@.subrange(from as int, to as int),
{
    let mut out: Vec<u8> = Vec::new();
    let mut i: usize = from;
    while i < to
        invariant
            from <= i <= to <= data@.len(),
            out@ == data@.subrange(from as int, i as int),
        decreases to - i,
    {
        out.push(data[i]);
        i = i + 1;
        proof {
            assert(out@ =~= data@.subrange(from as int, i as int));
        }
    }
    out
}

/// True when a length-prefixed string encoding starts at offset `i`.
pub open spec fn str_starts_at(data: Seq<u8>, i: int) -> bool {
    exists|s: Seq<char>|
        str_fits(s) && i + enc_str(s).len() <= data.len() && data.subrange(
            i,
            i + enc_str(s).len(),
        ) == enc_str(s)
}

/// Reads a `u32` byte-length prefix and that many bytes of UTF-8.
pub fn read_string(data: &Vec<u8>, pos: &mut usize) -> (r: Result<String, Error>)
    requires
        *old(pos) <= data@.len(),
    ensures
        match r {
            Ok(s) => {
                &&& str_fits(s@)
                &&& *final(pos) == *old(pos) + enc_str(s@).len()
                &&& *old(pos) + enc_str(s@).len() <= data@.len()
                &&& data@.subrange(*old(pos) as int, *old(pos) + enc_str(s@).len()) == enc_str(s@)
                &&& data@.subrange(*old(pos) as int, *old(pos) + 4) == enc_u32(
                    encode_utf8(s@).len() as u32,
                )
                &&& data@.subrange(*old(pos) + 4, *old(pos) + 4 + encode_utf8(s@).len())
                    == encode_utf8(s@)
                &&& enc_str(s@).len() == 4 + encode_utf8(s@).len()
            },
            Err(e) => {
                &&& *final(pos) == *old(pos)
                &&& !str_starts_at(data@, *old(pos) as int)
                &&& ({
                    let i = *old(pos) as int;
                    if data@.len() < i + 4 {
                        e matches Error::BufferUnderflow { needed: 4, available } && available
                            == data@.len() - i
                    } else {
                        let declared = spec_u32_from_le_bytes(data@.subrange(i, i + 4)) as int;
                        if data@.len() - i - 4 < declared {
                            e matches Error::BufferUnderflow { needed, available } && needed
                                == declared && available == data@.len() - i - 4
                        } else {
                            e is Utf8 && !valid_utf8(data@.subrange(i + 4, i + 4 + declared))
                        }
                    }
                })
            },
        },
{
    let start = *pos;
    let mut p = start;
    let len_val = match read_u32(data, &mut p) {
        Ok(v) => v,
        Err(e) => {
            proof {
                lemma_auto_spec_u32_to_from_le_bytes();
                assert forall|s: Seq<char>|
                    !(str_fits(s) && start + enc_str(s).len() <= data@.len() && data@.subrange(
                        start as int,
                        start as int + enc_str(s).len(),
                    ) == enc_str(s)) by {
                    assert(enc_str(s).len() >= 4);
                }
            }
            return Err(e);
        },
    };
    let len = len_val as usize;
    if data.len() - p < len {
        proof {
            lemma_auto_spec_u32_to_from_le_bytes();
            assert forall|s: Seq<char>|
                !(str_fits(s) && start + enc_str(s).len() <= data@.len() && data@.subrange(
                    start as int,
                    start as int + enc_str(s).len(),
                ) == enc_str(s)) by {
                if str_fits(s) && start + enc_str(s).len() <= data@.len() && data@.subrange(
                    start as int,
                    start as int + enc_str(s).len(),
                ) == enc_str(s) {
                    let n = encode_utf8(s).len();
                    assert(data@.subrange(start as int, start as int + 4) =~= enc_u32(
                        n as u32,
                    ));
                    assert(len_val == n as u32);
                    assert(false);
                }
            }
        }
        proof {
            lemma_enc_u32_facts(len_val);
        }
        return Err(Error::BufferUnderflow { needed: len, available: data.len() - p });
    }
    let bytes = copy_range(data, p, p + len);
    match string_from_utf8(bytes) {
        Some(s) => {
            *pos = p + len;
            proof {
                broadcast use encode_utf8_valid_utf8;

                lemma_enc_u32_facts(len_val);
                assert(encode_utf8(s@).len() == len);
                assert(data@.subrange(start as int, start as int + enc_str(s@).len()) =~= enc_str(
                    s@,
                ));
                assert(data@.subrange(start as int, start as int + 4) == enc_u32(
                    encode_utf8(s@).len() as u32,
                ));
                assert(data@.subrange(start + 4, start + 4 + encode_utf8(s@).len() as int)
                    == encode_utf8(s@));
            }
            Ok(s)
        },
        None => {
            proof {
                broadcast use encode_utf8_valid_utf8;

                lemma_auto_spec_u32_to_from_le_bytes();
                assert forall|s: Seq<char>|
                    !(str_fits(s) && start + enc_str(s).len() <= data@.len() && data@.subrange(
                        start as int,
                        start as int + enc_str(s).len(),
                    ) == enc_str(s)) by {
                    if str_fits(s) && start + enc_str(s).len() <= data@.len() && data@.subrange(
                        start as int,
                        start as int + enc_str(s).len(),
                    ) == enc_str(s) {
                        let n = encode_utf8(s).len();
                        take_prefix_at(
                            data@,
                            start as int,
                            start as int + enc_str(s).len(),
                            enc_u32(n as u32),
                            encode_utf8(s),
                        );
                        assert(spec_u32_from_le_bytes(spec_u32_to_le_bytes(n as u32)) == n as u32);
                        assert(len_val == n as u32);
                        assert(data@.subrange(p as int, p as int + len) == encode_utf8(s));
                        assert(false);
                    }
                }
            }
            proof {
                lemma_enc_u32_facts(len_val);
            }
            Err(Error::Utf8)
        },
    }
}

/// True when a length-prefixed byte blob starts at offset `i`.
pub open spec fn bytes_start_at(data: Seq<u8>, i: int) -> bool {
    exists|b: Seq<u8>|
        bytes_fit(b) && i + enc_bytes(b).len() <= data.len() && data.subrange(
            i,
            i + enc_bytes(b).len(),
        ) == enc_bytes(b)
}

/// Reads a `u32` length prefix and that many raw bytes.
pub fn read_bytes(data: &Vec<u8>, pos: &mut usize) -> (r: Result<Vec<u8>, Error>)
    requires
        *old(pos) <= data@.len(),
    ensures
        match r {
            Ok(b) => {
                &&& bytes_fit(b@)
                &&& *final(pos) == *old(pos) + enc_bytes(b@).len()
                &&& *old(pos) + enc_bytes(b@).len() <= data@.len()
                &&& data@.subrange(*old(pos) as int, *old(pos) + enc_bytes(b@).len()) == enc_bytes(
                    b@,
                )
                &&& data@.subrange(*old(pos) as int, *old(pos) + 4) == enc_u32(b@.len() as u32)
                &&& data@.subrange(*old(pos) + 4, *old(pos) + 4 + b@.len()) == b@
                &&& enc_bytes(b@).len() == 4 + b@.len()
            },
            Err(e) => {
                &&& *final(pos) == *old(pos)
                &&& !bytes_start_at(data@, *old(pos) as int)
                &&& ({
                    let i = *old(pos) as int;
                    if data@.len() < i + 4 {
                        e matches Error::BufferUnderflow { needed: 4, available } && available
                            == data@.len() - i
                    } else {
                        let declared = spec_u32_from_le_bytes(data@.subrange(i, i + 4)) as int;
                        data@.len() - i - 4 < declared && (e matches Error::BufferUnderflow {
                            needed,
                            available,
                        } && needed == declared && available == data@.len() - i - 4)
                    }
                })
            },
        },
{
    let start = *pos;
    let mut p = start;
    let len_val = match read_u32(data, &mut p) {
        Ok(v) => v,
        Err(e) => {
            proof {
                lemma_auto_spec_u32_to_from_le_bytes();
                assert forall|b: Seq<u8>|
                    !(bytes_fit(b) && start + enc_bytes(b).len() <= data@.len() && data@.subrange(
                        start as int,
                        start as int + enc_bytes(b).len(),
                    ) == enc_bytes(b)) by {
                    assert(enc_bytes(b).len() >= 4);
                }
            }
            return Err(e);
        },
    };
    let len = len_val as usize;
    if data.len() - p < len {
        proof {
            lemma_auto_spec_u32_to_from_le_bytes();
            assert forall|b: Seq<u8>|
                !(bytes_fit(b) && start + enc_bytes(b).len() <= data@.len() && data@.subrange(
                    start as int,
                    start as int + enc_bytes(b).len(),
                ) == enc_bytes(b)) by {
                if bytes_fit(b) && start + enc_bytes(b).len() <= data@.len() && data@.subrange(
                    start as int,
                    start as int + enc_bytes(b).len(),
                ) == enc_bytes(b) {
                    assert(data@.subrange(start as int, start as int + 4) =~= enc_u32(
                        b.len() as u32,
                    ));
                    assert(len_val == b.len() as u32);
                    assert(false);
                }
            }
        }
        proof {
            lemma_enc_u32_facts(len_val);
        }
        return Err(Error::BufferUnderflow { needed: len, available: data.len() - p });
    }
    let bytes = copy_range(data, p, p + len);
    *pos = p + len;
    proof {
        lemma_enc_u32_facts(len_val);
        assert(data@.subrange(start as int, start as int + enc_bytes(bytes@).len()) =~= enc_bytes(
            bytes@,
        ));
        assert(data@.subrange(start as int, start as int + 4) == enc_u32(bytes@.len() as u32));
        assert(data@.subrange(start + 4, start + 4 + bytes@.len() as int) == bytes@);
    }
    Ok(bytes)
}

/// Copies every byte from `*pos` to the end and moves the cursor there.
pub fn read_rest(data: &Vec<u8>, pos: &mut usize) -> (r: Vec<u8>)
    requires
        *old(pos) <= data@.len(),
    ensures
        *final(pos) == data@.len(),
        r@ == data@.subrange(*old(pos) as int, data@.len() as int),
{
    let r = copy_range(data, *pos, data.len());
    *pos = data.len();
    r
}

// ---------------------------------------------------------------------------
// Zlib compression, through flate2.
// ---------------------------------------------------------------------------

/// The zlib stream that deflating a byte sequence produces.
pub uninterp spec fn zlib_deflate(data: Seq<u8>) -> Seq<u8>;

/// What inflating a byte sequence yields: `None` when the bytes are not
/// a well-formed zlib stream.
pub uninterp spec fn zlib_inflate(data: Seq<u8>) -> Option<Seq<u8>>;

/// Compresses with zlib framing at the default level.
///
/// Relies on flate2's `write::ZlibEncoder`: the output is a function of
/// the input bytes alone, and writing into a `Vec` cannot fail.
#[verifier::external_body]
pub fn zlib_compress(data: &Vec<u8>) -> (r: Vec<u8>)
    ensures
        r@ == zlib_deflate(data@),
{
    let mut encoder = flate2::write::ZlibEncoder::new(Vec::new(), flate2::Compression::default());
    encoder.write_all(data.as_slice()).unwrap();
    encoder.finish().unwrap()
}

/// Decompresses a zlib stream.
///
/// Relies on flate2's `read::ZlibDecoder`: the result is a function of
/// the input bytes alone, and inflating what `zlib_compress` produced
/// yields the original input.
#[verifier::external_body]
pub fn zlib_decompress(data: &Vec<u8>) -> (r: Result<Vec<u8>, Error>)
    ensures
        match r {
            Ok(v) => zlib_inflate(data@) == Some(v@) && (forall|x: Seq<u8>|
                data@ == zlib_deflate(x) ==> v@ == x),
            Err(e) => (zlib_inflate(data@) is None) && (e matches Error::Decompression(_)) && (
            forall|x: Seq<u8>| data@ != zlib_deflate(x)),
        },
{
    let mut decoder = flate2::read::ZlibDecoder::new(data.as_slice());
    let mut out = Vec::new();
    match decoder.read_to_end(&mut out) {
        Ok(_) => Ok(out),
        Err(e) => Err(Error::Decompression(e.to_string())),
    }
}

// ---------------------------------------------------------------------------
// The MD5 login hash.
// ---------------------------------------------------------------------------

/// The lowercase hexadecimal MD5 digest of a byte sequence.
pub uninterp spec fn md5_hex_of(data: Seq<u8>) -> Seq<char>;

/// True when a character is a lowercase hexadecimal digit.
pub open spec fn is_lower_hex_digit(c: char) -> bool {
    ('0' <= c && c <= '9') || ('a' <= c && c <= 'f')
}

/// Relies on `md5::compute` and the digest's `LowerHex` formatting: the
/// result is 32 lowercase hexadecimal characters, a function of the
/// input bytes alone.
#[verifier::external_body]
fn md5_hex(input: &Vec<u8>) -> (r: String)
    ensures
        r@ == md5_hex_of(input@),
        r@.len() == 32,
        is_ascii_chars(r@),
        forall|i: int| 0 <= i < r@.len() ==> is_lower_hex_digit(#[trigger] r@[i]),
{
    format!("{:x}", md5::compute(input.as_slice()))
}

/// The characters of the login hash for a username and password.
pub open spec fn login_hash_chars(username: Seq<char>, password: Seq<char>) -> Seq<char> {
    md5_hex_of(encode_utf8(username) + encode_utf8(password))
}

/// The MD5 hash of `username || password`, embedded in `Login` requests.
pub fn login_hash(username: &str, password: &str) -> (r: String)
    ensures
        r@ == login_hash_chars(username@, password@),
        r@.len() == 32,
        is_ascii_chars(r@),
        forall|i: int| 0 <= i < r@.len() ==> is_lower_hex_digit(#[trigger] r@[i]),
{
    let mut input = username.as_bytes_vec();
    let mut rest = password.as_bytes_vec();
    input.append(&mut rest);
    md5_hex(&input)
}

// ---------------------------------------------------------------------------
// Frame probing.
// ---------------------------------------------------------------------------

/// The total size of the first frame in `b`, when `b` begins with a
/// complete frame: its 4-byte length prefix plus the declared length.
pub open spec fn spec_message_size(b: Seq<u8>) -> Option<int> {
    if b.len() >= 4 && 4 + spec_u32_from_le_bytes(b.subrange(0, 4)) <= b.len() {
        Some(4 + spec_u32_from_le_bytes(b.subrange(0, 4)))
    } else {
        None
    }
}

/// Returns the total framed size of the first message in `buf`, or
/// `None` while the buffer still ends inside the frame. Callers use it
/// to demarcate frames in a streaming buffer without partial reads.
pub fn message_size(buf: &Vec<u8>) -> (r: Option<usize>)
    ensures
        match r {
            Some(n) => spec_message_size(buf@) == Some(n as int),
            None => spec_message_size(buf@) is None,
        },
{
    if buf.len() < 4 {
        return None;
    }
    let mut p: usize = 0;
    let len_val = match read_u32(buf, &mut p) {
        Ok(v) => v,
        Err(_) => {
            return None;
        },
    };
    proof {
        lemma_enc_u32_facts(len_val);
        assert(buf@.subrange(0, 4) == enc_u32(len_val));
    }
    let len = len_val as usize;
    if buf.len() - 4 >= len {
        Some(4 + len)
    } else {
        None
    }
}


// ---------------------------------------------------------------------------
// Message frames: a u32 length prefix covering code and payload.
// ---------------------------------------------------------------------------

/// A frame whose code is a single byte (peer-init and distributed
/// protocols): `u32` length of code+payload, the code byte, the payload.
pub open spec fn frame_u8(code: u8, payload: Seq<u8>) -> Seq<u8> {
    enc_u32((1 + payload.len()) as u32) + (enc_u8(code) + payload)
}

/// A frame whose code is a `u32` (server and peer protocols).
pub open spec fn frame_u32(code: u32, payload: Seq<u8>) -> Seq<u8> {
    enc_u32((4 + payload.len()) as u32) + (enc_u32(code) + payload)
}

/// True when a byte-coded frame's declared length fits in `u32`.
pub open spec fn frame_fits_u8(payload: Seq<u8>) -> bool {
    1 + payload.len() <= u32::MAX
}

/// True when a `u32`-coded frame's declared length fits in `u32`.
pub open spec fn frame_fits_u32(payload: Seq<u8>) -> bool {
    4 + payload.len() <= u32::MAX
}

/// True when the bytes at offset `i` of `data` begin with `f`.
pub open spec fn prefix_at(data: Seq<u8>, i: int, f: Seq<u8>) -> bool {
    0 <= i && i + f.len() <= data.len() && data.subrange(i, i + f.len()) == f
}

/// A complete byte-coded frame declares exactly the length of what
/// follows it, and `message_size` reports its total size.
pub proof fn lemma_frame_u8_size(data: Seq<u8>, code: u8, payload: Seq<u8>)
    requires
        frame_fits_u8(payload),
        prefix_at(data, 0, frame_u8(code, payload)),
    ensures
        spec_message_size(data) == Some(frame_u8(code, payload).len() as int),
        frame_u8(code, payload).len() == 5 + payload.len(),
{
    broadcast use group_enc_facts;

    let f = frame_u8(code, payload);
    take_prefix_at(data, 0, f.len() as int, enc_u32((1 + payload.len()) as u32), enc_u8(code) + payload);
    assert(data.subrange(0, 4) == enc_u32((1 + payload.len()) as u32));
}

/// A complete `u32`-coded frame declares exactly the length of what
/// follows it, and `message_size` reports its total size.
pub proof fn lemma_frame_u32_size(data: Seq<u8>, code: u32, payload: Seq<u8>)
    requires
        frame_fits_u32(payload),
        prefix_at(data, 0, frame_u32(code, payload)),
    ensures
        spec_message_size(data) == Some(frame_u32(code, payload).len() as int),
        frame_u32(code, payload).len() == 8 + payload.len(),
{
    broadcast use group_enc_facts;

    let f = frame_u32(code, payload);
    take_prefix_at(data, 0, f.len() as int, enc_u32((4 + payload.len()) as u32), enc_u32(code) + payload);
    assert(data.subrange(0, 4) == enc_u32((4 + payload.len()) as u32));
}

/// A strict prefix of a frame is not yet a complete message: the probe
/// returns `None` on every truncation.
pub proof fn lemma_frame_prefix_incomplete(frame: Seq<u8>, declared: u32, n: int)
    requires
        frame.len() >= 4,
        frame.subrange(0, 4) == enc_u32(declared),
        4 + declared == frame.len(),
        0 <= n < frame.len(),
    ensures
        spec_message_size(frame.subrange(0, n)) is None,
{
    broadcast use group_enc_facts;

    let p = frame.subrange(0, n);
    if n >= 4 {
        assert(p.subrange(0, 4) =~= frame.subrange(0, 4));
        assert(spec_u32_from_le_bytes(p.subrange(0, 4)) == declared);
    }
}

// ---------------------------------------------------------------------------
// Splitting concatenated encodings.
// ---------------------------------------------------------------------------

/// When the bytes from `i` to `end` are `a + b`, the first `a.len()`
/// of them are exactly `a` and the remainder up to `end` is exactly `b`.
pub proof fn take_prefix_at(data: Seq<u8>, i: int, end: int, a: Seq<u8>, b: Seq<u8>)
    requires
        0 <= i <= end <= data.len(),
        data.subrange(i, end) == a + b,
    ensures
        i + a.len() + b.len() == end,
        data.subrange(i, i + a.len()) == a,
        data.subrange(i + a.len(), end) == b,
{
    assert((a + b).len() == a.len() + b.len());
    assert forall|j: int| 0 <= j < a.len() implies data.subrange(i, i + a.len() as int)[j] == a[j]
        by {
        assert(data.subrange(i, end)[j] == (a + b)[j]);
    }
    assert(data.subrange(i, i + a.len() as int) =~= a);
    assert forall|j: int| 0 <= j < b.len() implies data.subrange(
        i + a.len() as int,
        end,
    )[j] == b[j] by {
        assert(data.subrange(i, end)[a.len() + j] == (a + b)[a.len() + j]);
        assert((a + b)[a.len() + j] == b[j]);
        assert(data.subrange(i, end)[a.len() + j] == data[i + a.len() + j]);
        assert(data.subrange(i + a.len() as int, end)[j] == data[i + a.len() + j]);
    }
    assert(data.subrange(i + a.len() as int, end) =~= b);
}

/// When the bytes from `i` to the end are `a + b`, the first `a.len()`
/// of them are exactly `a` and the remainder is exactly `b`.
pub proof fn take_prefix(data: Seq<u8>, i: int, a: Seq<u8>, b: Seq<u8>)
    requires
        0 <= i <= data.len(),
        data.subrange(i, data.len() as int) == a + b,
    ensures
        i + a.len() + b.len() == data.len(),
        data.subrange(i, i + a.len()) == a,
        data.subrange(i + a.len(), data.len() as int) == b,
{
    take_prefix_at(data, i, data.len() as int, a, b);
}

// ---------------------------------------------------------------------------
// Sizes of the primitive encodings, for splitting proofs.
// ---------------------------------------------------------------------------

pub broadcast proof fn lemma_enc_u16_facts(v: u16)
    ensures
        (#[trigger] enc_u16(v)).len() == 2,
        spec_u16_from_le_bytes(enc_u16(v)) == v,
{
    lemma_auto_spec_u16_to_from_le_bytes();
    assert(spec_u16_to_le_bytes(v).len() == 2);
}

pub broadcast proof fn lemma_enc_u32_facts(v: u32)
    ensures
        (#[trigger] enc_u32(v)).len() == 4,
        spec_u32_from_le_bytes(enc_u32(v)) == v,
{
    lemma_auto_spec_u32_to_from_le_bytes();
    assert(spec_u32_to_le_bytes(v).len() == 4);
}

pub broadcast proof fn lemma_enc_i32_facts(v: i32)
    ensures
        (#[trigger] enc_i32(v)).len() == 4,
        enc_i32(v) == enc_u32(v as u32),
        spec_u32_from_le_bytes(enc_i32(v)) == v as u32,
{
    lemma_enc_u32_facts(v as u32);
}

pub broadcast proof fn lemma_enc_u64_facts(v: u64)
    ensures
        (#[trigger] enc_u64(v)).len() == 8,
        spec_u64_from_le_bytes(enc_u64(v)) == v,
{
    lemma_auto_spec_u64_to_from_le_bytes();
    assert(spec_u64_to_le_bytes(v).len() == 8);
}

pub broadcast proof fn lemma_enc_str_facts(s: Seq<char>)
    ensures
        (#[trigger] enc_str(s)).len() == 4 + encode_utf8(s).len(),
        enc_str(s).subrange(0, 4) == enc_u32(encode_utf8(s).len() as u32),
        enc_str(s).subrange(4, enc_str(s).len() as int) == encode_utf8(s),
{
    lemma_enc_u32_facts(encode_utf8(s).len() as u32);
    assert(enc_str(s).subrange(0, 4) =~= enc_u32(encode_utf8(s).len() as u32));
    assert(enc_str(s).subrange(4, enc_str(s).len() as int) =~= encode_utf8(s));
}

pub broadcast proof fn lemma_enc_bytes_facts(b: Seq<u8>)
    ensures
        (#[trigger] enc_bytes(b)).len() == 4 + b.len(),
        enc_bytes(b).subrange(0, 4) == enc_u32(b.len() as u32),
        enc_bytes(b).subrange(4, enc_bytes(b).len() as int) == b,
{
    lemma_enc_u32_facts(b.len() as u32);
    assert(enc_bytes(b).subrange(0, 4) =~= enc_u32(b.len() as u32));
    assert(enc_bytes(b).subrange(4, enc_bytes(b).len() as int) =~= b);
}

/// The facts above, grouped for `broadcast use` at proof sites.
pub broadcast group group_enc_facts {
    lemma_enc_u16_facts,
    lemma_enc_u32_facts,
    lemma_enc_i32_facts,
    lemma_enc_u64_facts,
    lemma_enc_str_facts,
    lemma_enc_bytes_facts,
}

/// Two values with the same `u32` encoding are equal.
pub proof fn enc_u32_injective(a: u32, b: u32)
    requires
        enc_u32(a) == enc_u32(b),
    ensures
        a == b,
{
    lemma_enc_u32_facts(a);
    lemma_enc_u32_facts(b);
}

/// Two values with the same `i32` encoding are equal.
pub proof fn enc_i32_injective(a: i32, b: i32)
    requires
        enc_i32(a) == enc_i32(b),
    ensures
        a == b,
{
    enc_u32_injective(a as u32, b as u32);
    assert(a as u32 == b as u32 ==> a == b) by (bit_vector);
}

/// Two values with the same `u64` encoding are equal.
pub proof fn enc_u64_injective(a: u64, b: u64)
    requires
        enc_u64(a) == enc_u64(b),
    ensures
        a == b,
{
    lemma_enc_u64_facts(a);
    lemma_enc_u64_facts(b);
}

/// Two strings with the same length-prefixed encoding are equal.
pub proof fn enc_str_injective(a: Seq<char>, b: Seq<char>)
    requires
        enc_str(a) == enc_str(b),
    ensures
        a == b,
{
    broadcast use encode_utf8_decode_utf8;

    lemma_enc_str_facts(a);
    lemma_enc_str_facts(b);
    assert(decode_utf8(encode_utf8(a)) == decode_utf8(encode_utf8(b)));
}



/// UTF-8 encoding is injective: equal encodings mean equal strings.
pub proof fn encode_utf8_injective(a: Seq<char>, b: Seq<char>)
    requires
        encode_utf8(a) == encode_utf8(b),
    ensures
        a == b,
{
    broadcast use encode_utf8_decode_utf8;

    assert(decode_utf8(encode_utf8(a)) == a);
    assert(decode_utf8(encode_utf8(b)) == b);
}

/// When the decomposed facts of two length-prefixed strings hold at the
/// same offset, the strings are equal.
pub proof fn match_str_at(data: Seq<u8>, j: int, s: Seq<char>, f: Seq<char>)
    requires
        str_fits(s),
        str_fits(f),
        data.subrange(j, j + 4) == enc_u32(encode_utf8(s).len() as u32),
        data.subrange(j + 4, j + 4 + encode_utf8(s).len()) == encode_utf8(s),
        data.subrange(j, j + 4) == enc_u32(encode_utf8(f).len() as u32),
        data.subrange(j + 4, j + 4 + encode_utf8(f).len()) == encode_utf8(f),
    ensures
        s == f,
{
    broadcast use group_enc_facts;

    assert(encode_utf8(s).len() as u32 == encode_utf8(f).len() as u32);
    assert(encode_utf8(s).len() == encode_utf8(f).len());
    assert(encode_utf8(s) == encode_utf8(f));
    encode_utf8_injective(s, f);
}


/// When the decomposed facts of two length-prefixed blobs hold at the
/// same offset, the blobs are equal.
pub proof fn match_bytes_at(data: Seq<u8>, j: int, a: Seq<u8>, b: Seq<u8>)
    requires
        bytes_fit(a),
        bytes_fit(b),
        data.subrange(j, j + 4) == enc_u32(a.len() as u32),
        data.subrange(j + 4, j + 4 + a.len()) == a,
        data.subrange(j, j + 4) == enc_u32(b.len() as u32),
        data.subrange(j + 4, j + 4 + b.len()) == b,
    ensures
        a == b,
{
    broadcast use group_enc_facts;

    assert(a.len() as u32 == b.len() as u32);
    assert(a.len() == b.len());
}


/// Two adjacent chunks join into one: when `a` sits at `j` and `b`
/// right after it, their concatenation sits at `j`.
pub proof fn join_prefix(data: Seq<u8>, j: int, a: Seq<u8>, b: Seq<u8>)
    requires
        0 <= j,
        j + a.len() + b.len() <= data.len(),
        data.subrange(j, j + a.len()) == a,
        data.subrange(j + a.len(), j + a.len() + b.len()) == b,
    ensures
        data.subrange(j, j + a.len() + b.len()) == a + b,
        prefix_at(data, j, a + b),
{
    assert forall|k: int| 0 <= k < a.len() + b.len() implies data.subrange(
        j,
        j + a.len() + b.len(),
    )[k] == (a + b)[k] by {
        if k < a.len() {
            assert(data.subrange(j, j + a.len())[k] == a[k]);
        } else {
            assert(data.subrange(j + a.len(), j + a.len() + b.len())[k - a.len()] == b[k
                - a.len()]);
        }
    }
    assert(data.subrange(j, j + a.len() + b.len()) =~= a + b);
}

/// Two values with the same `u16` encoding are equal.
pub proof fn enc_u16_injective(a: u16, b: u16)
    requires
        enc_u16(a) == enc_u16(b),
    ensures
        a == b,
{
    lemma_enc_u16_facts(a);
    lemma_enc_u16_facts(b);
}

/// Two addresses with the same four-byte encoding are equal.
pub proof fn enc_ipv4_injective(a: Ipv4Addr, b: Ipv4Addr)
    requires
        enc_ipv4(a) == enc_ipv4(b),
    ensures
        a == b,
{
    assert(enc_ipv4(a)[0] == enc_ipv4(b)[0]);
    assert(enc_ipv4(a)[1] == enc_ipv4(b)[1]);
    assert(enc_ipv4(a)[2] == enc_ipv4(b)[2]);
    assert(enc_ipv4(a)[3] == enc_ipv4(b)[3]);
}

/// Two booleans with the same one-byte encoding are equal.
pub proof fn enc_bool_injective(a: bool, b: bool)
    requires
        enc_bool(a) == enc_bool(b),
    ensures
        a == b,
{
    assert(enc_bool(true)[0] == 1u8);
    assert(enc_bool(false)[0] == 0u8);
    assert(enc_bool(a)[0] == enc_bool(b)[0]);
}

// ---------------------------------------------------------------------------
// Field splitters: peel one primitive's encoding off a concatenation.
// ---------------------------------------------------------------------------

pub proof fn split_u8(data: Seq<u8>, j: int, v: u8, rest: Seq<u8>)
    requires
        prefix_at(data, j, enc_u8(v) + rest),
    ensures
        data.subrange(j, j + 1) == enc_u8(v),
        data[j] == v,
        prefix_at(data, j + 1, rest),
{
    take_prefix_at(data, j, j + (enc_u8(v) + rest).len(), enc_u8(v), rest);
    assert(data.subrange(j, j + 1)[0] == v);
}

pub proof fn split_u16(data: Seq<u8>, j: int, v: u16, rest: Seq<u8>)
    requires
        prefix_at(data, j, enc_u16(v) + rest),
    ensures
        data.subrange(j, j + 2) == enc_u16(v),
        prefix_at(data, j + 2, rest),
{
    broadcast use group_enc_facts;

    take_prefix_at(data, j, j + (enc_u16(v) + rest).len(), enc_u16(v), rest);
}

pub proof fn split_u32(data: Seq<u8>, j: int, v: u32, rest: Seq<u8>)
    requires
        prefix_at(data, j, enc_u32(v) + rest),
    ensures
        data.subrange(j, j + 4) == enc_u32(v),
        prefix_at(data, j + 4, rest),
{
    broadcast use group_enc_facts;

    take_prefix_at(data, j, j + (enc_u32(v) + rest).len(), enc_u32(v), rest);
}

pub proof fn split_i32(data: Seq<u8>, j: int, v: i32, rest: Seq<u8>)
    requires
        prefix_at(data, j, enc_i32(v) + rest),
    ensures
        data.subrange(j, j + 4) == enc_i32(v),
        data.subrange(j, j + 4) == enc_u32(v as u32),
        prefix_at(data, j + 4, rest),
{
    broadcast use group_enc_facts;

    take_prefix_at(data, j, j + (enc_i32(v) + rest).len(), enc_i32(v), rest);
}

pub proof fn split_u64(data: Seq<u8>, j: int, v: u64, rest: Seq<u8>)
    requires
        prefix_at(data, j, enc_u64(v) + rest),
    ensures
        data.subrange(j, j + 8) == enc_u64(v),
        prefix_at(data, j + 8, rest),
{
    broadcast use group_enc_facts;

    take_prefix_at(data, j, j + (enc_u64(v) + rest).len(), enc_u64(v), rest);
}

pub proof fn split_bool(data: Seq<u8>, j: int, v: bool, rest: Seq<u8>)
    requires
        prefix_at(data, j, enc_bool(v) + rest),
    ensures
        data.subrange(j, j + 1) == enc_bool(v),
        data[j] == (if v { 1u8 } else { 0u8 }),
        prefix_at(data, j + 1, rest),
{
    take_prefix_at(data, j, j + (enc_bool(v) + rest).len(), enc_bool(v), rest);
    assert(data.subrange(j, j + 1)[0] == (if v { 1u8 } else { 0u8 }));
}

pub proof fn split_ipv4(data: Seq<u8>, j: int, v: Ipv4Addr, rest: Seq<u8>)
    requires
        prefix_at(data, j, enc_ipv4(v) + rest),
    ensures
        data.subrange(j, j + 4) == enc_ipv4(v),
        data[j] == v.d && data[j + 1] == v.c && data[j + 2] == v.b && data[j + 3] == v.a,
        prefix_at(data, j + 4, rest),
{
    take_prefix_at(data, j, j + (enc_ipv4(v) + rest).len(), enc_ipv4(v), rest);
    assert(data.subrange(j, j + 4)[0] == v.d);
    assert(data.subrange(j, j + 4)[1] == v.c);
    assert(data.subrange(j, j + 4)[2] == v.b);
    assert(data.subrange(j, j + 4)[3] == v.a);
}

pub proof fn split_str(data: Seq<u8>, j: int, s: Seq<char>, rest: Seq<u8>)
    requires
        str_fits(s),
        prefix_at(data, j, enc_str(s) + rest),
    ensures
        prefix_at(data, j, enc_str(s)),
        data.subrange(j, j + 4) == enc_u32(encode_utf8(s).len() as u32),
        data.subrange(j + 4, j + 4 + encode_utf8(s).len()) == encode_utf8(s),
        j + enc_str(s).len() == j + 4 + encode_utf8(s).len(),
        str_starts_at(data, j),
        prefix_at(data, j + enc_str(s).len(), rest),
{
    broadcast use group_enc_facts;

    take_prefix_at(data, j, j + (enc_str(s) + rest).len(), enc_str(s), rest);
    take_prefix_at(
        data,
        j,
        j + enc_str(s).len(),
        enc_u32(encode_utf8(s).len() as u32),
        encode_utf8(s),
    );
}

pub proof fn split_bytes(data: Seq<u8>, j: int, b: Seq<u8>, rest: Seq<u8>)
    requires
        bytes_fit(b),
        prefix_at(data, j, enc_bytes(b) + rest),
    ensures
        prefix_at(data, j, enc_bytes(b)),
        data.subrange(j, j + 4) == enc_u32(b.len() as u32),
        data.subrange(j + 4, j + 4 + b.len()) == b,
        j + enc_bytes(b).len() == j + 4 + b.len(),
        bytes_start_at(data, j),
        prefix_at(data, j + enc_bytes(b).len(), rest),
{
    broadcast use group_enc_facts;

    take_prefix_at(data, j, j + (enc_bytes(b) + rest).len(), enc_bytes(b), rest);
    take_prefix_at(data, j, j + enc_bytes(b).len(), enc_u32(b.len() as u32), b);
}

} // verus!

