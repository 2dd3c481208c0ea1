//! Peer messages sent over P connections: file browsing, searching,
//! and transfer negotiation.
//!
//! Three responses (`SharedFileListResponse`, `FolderContentsResponse`,
//! `FileSearchResponse`) carry zlib-compressed payloads that fill the
//! remainder of the frame.

use vstd::prelude::*;
use vstd::utf8::encode_utf8;

use crate::constants::{
    rejection_chars, rejection_matches, spec_transfer_direction_from, spec_upload_permission_from,
    transfer_direction_u32, upload_permission_u32, wf_rejection, TransferDirection,
    TransferRejectionReason, UploadPermission,
};
use crate::protocol::{
    bytes_fit, copy_range, enc_bool, enc_bytes, enc_str, enc_u32, enc_u64, enc_u8, frame_fits_u32,
    frame_u32, match_bytes_at, match_str_at, message_size, prefix_at, read_bool, read_bytes,
    read_string, read_u32,
    read_u64, read_u8, spec_message_size, split_bool, split_bytes, split_str, split_u32, split_u64,
    split_u8, str_fits, str_starts_at, take_prefix_at, write_bool, write_bytes, write_raw,
    write_str, write_u32, write_u64, write_u8, zlib_compress, zlib_decompress, zlib_deflate,
    zlib_inflate, Error,
};

verus! {

broadcast use crate::protocol::group_enc_facts;

/// Peer message codes.
#[derive(Debug, Clone, Copy, PartialEq, Eq, Structural)]
pub enum PeerCode {
    SharedFileListRequest,
    SharedFileListResponse,
    FileSearchResponse,
    UserInfoRequest,
    UserInfoResponse,
    FolderContentsRequest,
    FolderContentsResponse,
    TransferRequest,
    TransferResponse,
    QueueUpload,
    PlaceInQueueResponse,
    UploadFailed,
    UploadDenied,
    PlaceInQueueRequest,
    UploadQueueNotification,
}

pub open spec fn peer_code_u32(c: PeerCode) -> u32 {
    match c {
        PeerCode::SharedFileListRequest => 4,
        PeerCode::SharedFileListResponse => 5,
        PeerCode::FileSearchResponse => 9,
        PeerCode::UserInfoRequest => 15,
        PeerCode::UserInfoResponse => 16,
        PeerCode::FolderContentsRequest => 36,
        PeerCode::FolderContentsResponse => 37,
        PeerCode::TransferRequest => 40,
        PeerCode::TransferResponse => 41,
        PeerCode::QueueUpload => 43,
        PeerCode::PlaceInQueueResponse => 44,
        PeerCode::UploadFailed => 46,
        PeerCode::UploadDenied => 50,
        PeerCode::PlaceInQueueRequest => 51,
        PeerCode::UploadQueueNotification => 52,
    }
}

pub open spec fn spec_peer_code_from(v: u32) -> Option<PeerCode> {
    if v == 4 {
        Some(PeerCode::SharedFileListRequest)
    } else if v == 5 {
        Some(PeerCode::SharedFileListResponse)
    } else if v == 9 {
        Some(PeerCode::FileSearchResponse)
    } else if v == 15 {
        Some(PeerCode::UserInfoRequest)
    } else if v == 16 {
        Some(PeerCode::UserInfoResponse)
    } else if v == 36 {
        Some(PeerCode::FolderContentsRequest)
    } else if v == 37 {
        Some(PeerCode::FolderContentsResponse)
    } else if v == 40 {
        Some(PeerCode::TransferRequest)
    } else if v == 41 {
        Some(PeerCode::TransferResponse)
    } else if v == 43 {
        Some(PeerCode::QueueUpload)
    } else if v == 44 {
        Some(PeerCode::PlaceInQueueResponse)
    } else if v == 46 {
        Some(PeerCode::UploadFailed)
    } else if v == 50 {
        Some(PeerCode::UploadDenied)
    } else if v == 51 {
        Some(PeerCode::PlaceInQueueRequest)
    } else if v == 52 {
        Some(PeerCode::UploadQueueNotification)
    } else {
        None
    }
}

impl PeerCode {
    pub fn as_u32(&self) -> (r: u32)
        ensures
            r == peer_code_u32(*self),
    {
        match self {
            PeerCode::SharedFileListRequest => 4,
            PeerCode::SharedFileListResponse => 5,
            PeerCode::FileSearchResponse => 9,
            PeerCode::UserInfoRequest => 15,
            PeerCode::UserInfoResponse => 16,
            PeerCode::FolderContentsRequest => 36,
            PeerCode::FolderContentsResponse => 37,
            PeerCode::TransferRequest => 40,
            PeerCode::TransferResponse => 41,
            PeerCode::QueueUpload => 43,
            PeerCode::PlaceInQueueResponse => 44,
            PeerCode::UploadFailed => 46,
            PeerCode::UploadDenied => 50,
            PeerCode::PlaceInQueueRequest => 51,
            PeerCode::UploadQueueNotification => 52,
        }
    }

    pub fn try_from(value: u32) -> (r: Result<PeerCode, Error>)
        ensures
            match r {
                Ok(c) => spec_peer_code_from(value) == Some(c),
                Err(e) => spec_peer_code_from(value) is None && (e matches
                Error::InvalidMessageCode(v) && v == value),
            },
    {
        if value == 4 {
            Ok(PeerCode::SharedFileListRequest)
        } else if value == 5 {
            Ok(PeerCode::SharedFileListResponse)
        } else if value == 9 {
            Ok(PeerCode::FileSearchResponse)
        } else if value == 15 {
            Ok(PeerCode::UserInfoRequest)
        } else if value == 16 {
            Ok(PeerCode::UserInfoResponse)
        } else if value == 36 {
            Ok(PeerCode::FolderContentsRequest)
        } else if value == 37 {
            Ok(PeerCode::FolderContentsResponse)
        } else if value == 40 {
            Ok(PeerCode::TransferRequest)
        } else if value == 41 {
            Ok(PeerCode::TransferResponse)
        } else if value == 43 {
            Ok(PeerCode::QueueUpload)
        } else if value == 44 {
            Ok(PeerCode::PlaceInQueueResponse)
        } else if value == 46 {
            Ok(PeerCode::UploadFailed)
        } else if value == 50 {
            Ok(PeerCode::UploadDenied)
        } else if value == 51 {
            Ok(PeerCode::PlaceInQueueRequest)
        } else if value == 52 {
            Ok(PeerCode::UploadQueueNotification)
        } else {
            Err(Error::InvalidMessageCode(value))
        }
    }
}

// ---------------------------------------------------------------------------
// File attributes.
// ---------------------------------------------------------------------------

/// A file attribute, such as bitrate or duration.
#[derive(Debug, Clone, Copy, PartialEq, Eq, Structural)]
pub struct FileAttribute {
    pub code: u32,
    pub value: u32,
}

pub open spec fn enc_attr(a: FileAttribute) -> Seq<u8> {
    enc_u32(a.code) + enc_u32(a.value)
}

/// The concatenated encodings of a sequence of attributes.
pub open spec fn enc_attr_seq(s: Seq<FileAttribute>) -> Seq<u8>
    decreases s.len(),
{
    if s.len() == 0 {
        Seq::empty()
    } else {
        enc_attr(s[0]) + enc_attr_seq(s.drop_first())
    }
}

/// The wire encoding of an attribute list: count, then each attribute.
pub open spec fn enc_attr_list(s: Seq<FileAttribute>) -> Seq<u8> {
    enc_u32(s.len() as u32) + enc_attr_seq(s)
}

pub proof fn lemma_enc_attr_seq_len(s: Seq<FileAttribute>)
    ensures
        enc_attr_seq(s).len() == 8 * s.len(),
    decreases s.len(),
{
    if s.len() > 0 {
        lemma_enc_attr_seq_len(s.drop_first());
    }
}

/// Extending a prefix of a sequence by one element appends that
/// element's encoding.
pub proof fn lemma_enc_attr_seq_snoc(s: Seq<FileAttribute>, i: int)
    requires
        0 <= i < s.len(),
    ensures
        enc_attr_seq(s.take(i + 1)) == enc_attr_seq(s.take(i)) + enc_attr(s[i]),
    decreases i,
{
    if i == 0 {
        assert(s.take(1) =~= seq![s[0]]);
        assert(s.take(1)[0] == s[0]);
        assert(s.take(1).drop_first() =~= Seq::<FileAttribute>::empty());
        assert(s.take(0) =~= Seq::<FileAttribute>::empty());
        assert(enc_attr_seq(s.take(1)) == enc_attr(s[0]) + enc_attr_seq(
            Seq::<FileAttribute>::empty(),
        ));
        assert(enc_attr(s[0]) + Seq::<u8>::empty() =~= enc_attr(s[0]));
        assert(Seq::<u8>::empty() + enc_attr(s[0]) =~= enc_attr(s[0]));
    } else {
        lemma_enc_attr_seq_snoc(s.drop_first(), i - 1);
        assert(s.take(i + 1).drop_first() =~= s.drop_first().take(i));
        assert(s.take(i).drop_first() =~= s.drop_first().take(i - 1));
        assert(s.take(i + 1)[0] == s[0]);
        assert(s.take(i)[0] == s[0]);
        assert(s.drop_first()[i - 1] == s[i]);
        assert(enc_attr_seq(s.take(i + 1)) == enc_attr(s[0]) + enc_attr_seq(s.drop_first().take(i)));
        assert(enc_attr_seq(s.take(i)) == enc_attr(s[0]) + enc_attr_seq(s.drop_first().take(i - 1)));
        assert(enc_attr(s[0]) + (enc_attr_seq(s.drop_first().take(i - 1)) + enc_attr(s[i]))
            =~= (enc_attr(s[0]) + enc_attr_seq(s.drop_first().take(i - 1))) + enc_attr(s[i]));
    }
}

/// Sequences of equal length with the same attribute encoding at the
/// same place are equal.
pub proof fn match_attr_seq_at(data: Seq<u8>, j: int, s1: Seq<FileAttribute>, s2: Seq<
    FileAttribute,
>)
    requires
        s1.len() == s2.len(),
        0 <= j,
        j + enc_attr_seq(s1).len() <= data.len(),
        data.subrange(j, j + enc_attr_seq(s1).len()) == enc_attr_seq(s1),
        data.subrange(j, j + enc_attr_seq(s2).len()) == enc_attr_seq(s2),
    ensures
        s1 == s2,
    decreases s1.len(),
{
    lemma_enc_attr_seq_len(s1);
    lemma_enc_attr_seq_len(s2);
    if s1.len() == 0 {
        assert(s1 =~= s2);
    } else {
        take_prefix_at(
            data,
            j,
            j + enc_attr_seq(s1).len(),
            enc_attr(s1[0]),
            enc_attr_seq(s1.drop_first()),
        );
        take_prefix_at(
            data,
            j,
            j + enc_attr_seq(s2).len(),
            enc_attr(s2[0]),
            enc_attr_seq(s2.drop_first()),
        );
        take_prefix_at(data, j, j + 8, enc_u32(s1[0].code), enc_u32(s1[0].value));
        take_prefix_at(data, j, j + 8, enc_u32(s2[0].code), enc_u32(s2[0].value));
        assert(s1[0] == s2[0]);
        match_attr_seq_at(data, j + 8, s1.drop_first(), s2.drop_first());
        assert forall|k: int| 0 <= k < s1.len() implies s1[k] == s2[k] by {
            if k > 0 {
                assert(s1.drop_first()[k - 1] == s2.drop_first()[k - 1]);
            }
        }
        assert(s1 =~= s2);
    }
}


/// The fields of element `i` of an attribute sequence sit at byte
/// offset `8 * i` of its encoding.
pub proof fn lemma_attr_at(data: Seq<u8>, j: int, s: Seq<FileAttribute>, i: int)
    requires
        0 <= j,
        j + enc_attr_seq(s).len() <= data.len(),
        data.subrange(j, j + enc_attr_seq(s).len()) == enc_attr_seq(s),
        0 <= i < s.len(),
    ensures
        j + 8 * s.len() <= data.len(),
        data.subrange(j + 8 * i, j + 8 * i + 4) == enc_u32(s[i].code),
        data.subrange(j + 8 * i + 4, j + 8 * i + 8) == enc_u32(s[i].value),
    decreases i,
{
    broadcast use crate::protocol::group_enc_facts;

    lemma_enc_attr_seq_len(s);
    take_prefix_at(data, j, j + enc_attr_seq(s).len(), enc_attr(s[0]), enc_attr_seq(
        s.drop_first(),
    ));
    if i == 0 {
        take_prefix_at(data, j, j + 8, enc_u32(s[0].code), enc_u32(s[0].value));
    } else {
        lemma_enc_attr_seq_len(s.drop_first());
        lemma_attr_at(data, j + 8, s.drop_first(), i - 1);
        assert(s.drop_first()[i - 1] == s[i]);
    }
}

/// Appends one attribute's encoding.
pub fn write_attr(out: &mut Vec<u8>, a: &FileAttribute)
    ensures
        final(out)@ == old(out)@ + enc_attr(*a),
{
    write_u32(out, a.code);
    write_u32(out, a.value);
    proof {
        assert(out@ =~= old(out)@ + enc_attr(*a));
    }
}

/// Appends an attribute list: a `u32` count, then each attribute.
pub fn write_attr_list(out: &mut Vec<u8>, items: &Vec<FileAttribute>)
    requires
        items@.len() <= u32::MAX,
    ensures
        final(out)@ == old(out)@ + enc_attr_list(items@),
{
    write_u32(out, items.len() as u32);
    let mut i: usize = 0;
    proof {
        assert(items@.take(0) =~= Seq::empty());
    }
    while i < items.len()
        invariant
            i <= items@.len() <= u32::MAX,
            out@ == old(out)@ + enc_u32(items@.len() as u32) + enc_attr_seq(items@.take(i as int)),
        decreases items@.len() - i,
    {
        write_attr(out, &items[i]);
        proof {
            lemma_enc_attr_seq_snoc(items@, i as int);
        }
        i = i + 1;
    }
    proof {
        assert(items@.take(items@.len() as int) =~= items@);
        assert(out@ =~= old(out)@ + enc_attr_list(items@));
    }
}

/// Reads an attribute list: a `u32` count, then that many attributes.
pub fn read_attr_list(data: &Vec<u8>, pos: &mut usize) -> (r: Result<Vec<FileAttribute>, Error>)
    requires
        *old(pos) <= data@.len(),
    ensures
        *old(pos) <= *final(pos) <= data@.len(),
        data@.len() < *old(pos) + 4 ==> (r matches Err(e) && (e matches
        Error::BufferUnderflow { needed: 4, available } && available == data@.len() - *old(
            pos,
        ))),
        match r {
            Ok(v) => {
                &&& v@.len() <= u32::MAX
                &&& *final(pos) == *old(pos) + enc_attr_list(v@).len()
                &&& data@.subrange(*old(pos) as int, *old(pos) + 4) == enc_u32(v@.len() as u32)
                &&& data@.subrange(*old(pos) + 4, *old(pos) + 4 + enc_attr_seq(v@).len())
                    == enc_attr_seq(v@)
                &&& enc_attr_list(v@).len() == 4 + enc_attr_seq(v@).len()
                &&& enc_attr_seq(v@).len() == 8 * v@.len()
            },
            Err(_) => true,
        },
        forall|s: Seq<FileAttribute>|
            s.len() <= u32::MAX && #[trigger] prefix_at(data@, *old(pos) as int, enc_attr_list(s))
                ==> (r matches Ok(v) && v@ == s && *final(pos) == *old(pos) + enc_attr_list(
                s,
            ).len()),
{
    broadcast use crate::protocol::group_enc_facts;

    let ghost start = *pos as int;
    let count = match read_u32(data, pos) {
        Ok(v) => v,
        Err(e) => {
            proof {
                assert forall|s: Seq<FileAttribute>|
                    s.len() <= u32::MAX && #[trigger] prefix_at(
                        data@,
                        start,
                        enc_attr_list(s),
                    ) implies false by {
                    split_u32(data@, start, s.len() as u32, enc_attr_seq(s));
                }
            }
            return Err(e);
        },
    };
    let mut items: Vec<FileAttribute> = Vec::new();
    let mut i: u32 = 0;
    proof {
        assert(enc_attr_seq(items@) =~= Seq::empty());
        assert forall|s: Seq<FileAttribute>|
            s.len() <= u32::MAX && #[trigger] prefix_at(
                data@,
                start,
                enc_attr_list(s),
            ) implies count == s.len() by {
            split_u32(data@, start, s.len() as u32, enc_attr_seq(s));
        }
    }
    while i < count
        invariant
            start == *old(pos) as int,
            i <= count,
            items@.len() == i,
            start + 4 <= *pos <= data@.len(),
            *pos == start + 4 + enc_attr_seq(items@).len(),
            data@.subrange(start, start + 4) == enc_u32(count),
            data@.subrange(start + 4, *pos as int) == enc_attr_seq(items@),
            enc_attr_seq(items@).len() == 8 * items@.len(),
            forall|s: Seq<FileAttribute>|
                s.len() <= u32::MAX && #[trigger] prefix_at(data@, start, enc_attr_list(s)) ==> (
                count == s.len() && items@ == s.take(i as int)),
        decreases count - i,
    {
        broadcast use crate::protocol::group_enc_facts;

        proof {
            assert forall|s: Seq<FileAttribute>|
                s.len() <= u32::MAX && #[trigger] prefix_at(
                    data@,
                    start,
                    enc_attr_list(s),
                ) implies *pos + 8 <= data@.len() && data@.subrange(*pos as int, *pos + 4)
                == enc_u32(s[i as int].code) && data@.subrange(*pos + 4, *pos + 8) == enc_u32(
                s[i as int].value,
            ) by {
                split_u32(data@, start, s.len() as u32, enc_attr_seq(s));
                lemma_enc_attr_seq_len(s.take(i as int));
                lemma_attr_at(data@, start + 4, s, i as int);
            }
        }
        let ghost items_old = items@;
        let code = match read_u32(data, pos) {
            Ok(v) => v,
            Err(e) => {
                return Err(e);
            },
        };
        let value = match read_u32(data, pos) {
            Ok(v) => v,
            Err(e) => {
                return Err(e);
            },
        };
        let a = FileAttribute { code, value };
        items.push(a);
        i = i + 1;
        proof {
            lemma_enc_attr_seq_len(items_old);
            assert(items@ =~= items_old.push(a));
            assert(items@.take(items_old.len() as int) =~= items_old);
            lemma_enc_attr_seq_snoc(items@, items_old.len() as int);
            assert(items@.take(items_old.len() as int + 1) =~= items@);
            assert(data@.subrange(*pos - 8, *pos as int) =~= enc_attr(a));
            assert(data@.subrange(start + 4, *pos as int) =~= enc_attr_seq(items_old) + enc_attr(
                a,
            ));
            lemma_enc_attr_seq_len(items@);
            assert forall|s: Seq<FileAttribute>|
                s.len() <= u32::MAX && #[trigger] prefix_at(
                    data@,
                    start,
                    enc_attr_list(s),
                ) implies items@ == s.take(i as int) by {
                assert(a == s[i - 1]);
                assert(s.take(i as int) =~= s.take(i - 1).push(s[i - 1]));
            }
        }
    }
    proof {
        assert(count == items@.len() as u32);
        assert forall|s: Seq<FileAttribute>|
            s.len() <= u32::MAX && #[trigger] prefix_at(
                data@,
                start,
                enc_attr_list(s),
            ) implies items@ == s && *pos == start + enc_attr_list(s).len() by {
            assert(s.take(s.len() as int) =~= s);
            lemma_enc_attr_seq_len(s);
        }
    }
    Ok(items)
}


/// A shared file entry.
#[derive(Debug, Clone)]
pub struct SharedFile {
    pub filename: String,
    pub size: u64,
    pub extension: String,
    pub attributes: Vec<FileAttribute>,
}

pub open spec fn wf_shared_file(f: SharedFile) -> bool {
    str_fits(f.filename@) && str_fits(f.extension@) && f.attributes@.len() <= u32::MAX
}

/// The wire encoding of one entry: a constant `1` byte, the filename,
/// the size, the extension, and the attribute list.
pub open spec fn enc_shared_file(f: SharedFile) -> Seq<u8> {
    enc_u8(1) + (enc_str(f.filename@) + (enc_u64(f.size) + (enc_str(f.extension@) + enc_attr_list(
        f.attributes@,
    ))))
}

pub open spec fn shared_file_eq(a: SharedFile, b: SharedFile) -> bool {
    a.filename@ == b.filename@ && a.size == b.size && a.extension@ == b.extension@
        && a.attributes@ == b.attributes@
}

pub open spec fn enc_shared_file_seq(s: Seq<SharedFile>) -> Seq<u8>
    decreases s.len(),
{
    if s.len() == 0 {
        Seq::empty()
    } else {
        enc_shared_file(s[0]) + enc_shared_file_seq(s.drop_first())
    }
}

pub open spec fn enc_shared_file_list(s: Seq<SharedFile>) -> Seq<u8> {
    enc_u32(s.len() as u32) + enc_shared_file_seq(s)
}

pub open spec fn wf_shared_file_seq(s: Seq<SharedFile>) -> bool {
    forall|i: int| 0 <= i < s.len() ==> wf_shared_file(#[trigger] s[i])
}

pub open spec fn shared_file_seq_eq(a: Seq<SharedFile>, b: Seq<SharedFile>) -> bool {
    a.len() == b.len() && forall|i: int| 0 <= i < a.len() ==> shared_file_eq(#[trigger] a[i], #[trigger] b[i])
}

pub proof fn lemma_enc_shared_file_seq_snoc(s: Seq<SharedFile>, i: int)
    requires
        0 <= i < s.len(),
    ensures
        enc_shared_file_seq(s.take(i + 1)) == enc_shared_file_seq(s.take(i)) + enc_shared_file(s[i]),
    decreases i,
{
    if i == 0 {
        assert(s.take(1) =~= seq![s[0]]);
        assert(s.take(1)[0] == s[0]);
        assert(s.take(1).drop_first() =~= Seq::<SharedFile>::empty());
        assert(s.take(0) =~= Seq::<SharedFile>::empty());
        assert(enc_shared_file_seq(s.take(1)) == enc_shared_file(s[0]) + enc_shared_file_seq(
            Seq::<SharedFile>::empty(),
        ));
        assert(enc_shared_file(s[0]) + Seq::<u8>::empty() =~= enc_shared_file(s[0]));
        assert(Seq::<u8>::empty() + enc_shared_file(s[0]) =~= enc_shared_file(s[0]));
    } else {
        lemma_enc_shared_file_seq_snoc(s.drop_first(), i - 1);
        assert(s.take(i + 1).drop_first() =~= s.drop_first().take(i));
        assert(s.take(i).drop_first() =~= s.drop_first().take(i - 1));
        assert(s.take(i + 1)[0] == s[0]);
        assert(s.take(i)[0] == s[0]);
        assert(s.drop_first()[i - 1] == s[i]);
        assert(enc_shared_file_seq(s.take(i + 1)) == enc_shared_file(s[0]) + enc_shared_file_seq(
            s.drop_first().take(i),
        ));
        assert(enc_shared_file_seq(s.take(i)) == enc_shared_file(s[0]) + enc_shared_file_seq(
            s.drop_first().take(i - 1),
        ));
        assert(enc_shared_file(s[0]) + (enc_shared_file_seq(s.drop_first().take(i - 1)) + enc_shared_file(
            s[i],
        )) =~= (enc_shared_file(s[0]) + enc_shared_file_seq(s.drop_first().take(i - 1))) + enc_shared_file(
            s[i],
        ));
    }
}

/// Splits one entry's encoding at offset `j` into its field facts.
pub proof fn split_shared_file(data: Seq<u8>, j: int, f: SharedFile, rest: Seq<u8>)
    requires
        wf_shared_file(f),
        prefix_at(data, j, enc_shared_file(f) + rest),
    ensures
        data[j] == 1,
        ({
            let n1 = j + 1;
            let n2 = n1 + enc_str(f.filename@).len();
            let n3 = n2 + 8;
            let n4 = n3 + enc_str(f.extension@).len();
            let n5 = n4 + 4 + enc_attr_seq(f.attributes@).len();
            &&& data.subrange(n1, n1 + 4) == enc_u32(encode_utf8(f.filename@).len() as u32)
            &&& data.subrange(n1 + 4, n2) == encode_utf8(f.filename@)
            &&& str_starts_at(data, n1)
            &&& data.subrange(n2, n3) == enc_u64(f.size)
            &&& data.subrange(n3, n3 + 4) == enc_u32(encode_utf8(f.extension@).len() as u32)
            &&& data.subrange(n3 + 4, n4) == encode_utf8(f.extension@)
            &&& str_starts_at(data, n3)
            &&& data.subrange(n4, n4 + 4) == enc_u32(f.attributes@.len() as u32)
            &&& data.subrange(n4 + 4, n5) == enc_attr_seq(f.attributes@)
            &&& n5 == j + enc_shared_file(f).len()
            &&& enc_attr_seq(f.attributes@).len() == 8 * f.attributes@.len()
            &&& prefix_at(data, n5, rest)
            &&& n5 <= data.len()
        }),
{
    broadcast use crate::protocol::group_enc_facts;

    let r1 = enc_str(f.filename@) + (enc_u64(f.size) + (enc_str(f.extension@) + enc_attr_list(
        f.attributes@,
    )));
    assert(enc_shared_file(f) + rest =~= enc_u8(1) + (r1 + rest));
    split_u8(data, j, 1, r1 + rest);
    assert(enc_str(f.filename@) + (enc_u64(f.size) + (enc_str(f.extension@) + enc_attr_list(
        f.attributes@,
    ))) + rest =~= enc_str(f.filename@) + ((enc_u64(f.size) + (enc_str(f.extension@)
        + enc_attr_list(f.attributes@))) + rest));
    split_str(data, j + 1, f.filename@, (enc_u64(f.size) + (enc_str(f.extension@) + enc_attr_list(
        f.attributes@,
    ))) + rest);
    let n2 = j + 1 + enc_str(f.filename@).len();
    assert(enc_u64(f.size) + (enc_str(f.extension@) + enc_attr_list(f.attributes@)) + rest
        =~= enc_u64(f.size) + ((enc_str(f.extension@) + enc_attr_list(f.attributes@)) + rest));
    split_u64(data, n2, f.size, (enc_str(f.extension@) + enc_attr_list(f.attributes@)) + rest);
    assert(enc_str(f.extension@) + enc_attr_list(f.attributes@) + rest =~= enc_str(f.extension@)
        + (enc_attr_list(f.attributes@) + rest));
    split_str(data, n2 + 8, f.extension@, enc_attr_list(f.attributes@) + rest);
    let n4 = n2 + 8 + enc_str(f.extension@).len();
    assert(enc_attr_list(f.attributes@) + rest =~= enc_u32(f.attributes@.len() as u32) + (
    enc_attr_seq(f.attributes@) + rest));
    split_u32(data, n4, f.attributes@.len() as u32, enc_attr_seq(f.attributes@) + rest);
    take_prefix_at(
        data,
        n4 + 4,
        n4 + 4 + (enc_attr_seq(f.attributes@) + rest).len(),
        enc_attr_seq(f.attributes@),
        rest,
    );
    lemma_enc_attr_seq_len(f.attributes@);
}

/// Two entries whose encodings start at the same offset are equal, and
/// their encodings have the same length.
pub proof fn match_shared_file_at(data: Seq<u8>, j: int, a: SharedFile, b: SharedFile, resta: Seq<u8>, restb: Seq<
    u8,
>)
    requires
        wf_shared_file(a),
        wf_shared_file(b),
        prefix_at(data, j, enc_shared_file(a) + resta),
        prefix_at(data, j, enc_shared_file(b) + restb),
    ensures
        shared_file_eq(a, b),
        enc_shared_file(a).len() == enc_shared_file(b).len(),
{
    broadcast use crate::protocol::group_enc_facts;

    split_shared_file(data, j, a, resta);
    split_shared_file(data, j, b, restb);
    match_str_at(data, j + 1, a.filename@, b.filename@);
    let n2 = j + 1 + enc_str(a.filename@).len();
    match_str_at(data, n2 + 8, a.extension@, b.extension@);
    let n4 = n2 + 8 + enc_str(a.extension@).len();
    assert(a.attributes@.len() == b.attributes@.len());
    match_attr_seq_at(data, n4 + 4, a.attributes@, b.attributes@);
}

/// Sequences of equal length whose encodings start at the same offset
/// are equal elementwise.
pub proof fn match_shared_file_seq_at(data: Seq<u8>, j: int, s1: Seq<SharedFile>, s2: Seq<SharedFile>)
    requires
        wf_shared_file_seq(s1),
        wf_shared_file_seq(s2),
        s1.len() == s2.len(),
        0 <= j,
        j + enc_shared_file_seq(s1).len() <= data.len(),
        j + enc_shared_file_seq(s2).len() <= data.len(),
        data.subrange(j, j + enc_shared_file_seq(s1).len()) == enc_shared_file_seq(s1),
        data.subrange(j, j + enc_shared_file_seq(s2).len()) == enc_shared_file_seq(s2),
    ensures
        shared_file_seq_eq(s1, s2),
        enc_shared_file_seq(s1).len() == enc_shared_file_seq(s2).len(),
    decreases s1.len(),
{
    if s1.len() == 0 {
    } else {
        assert(wf_shared_file(s1[0]));
        assert(wf_shared_file(s2[0]));
        take_prefix_at(
            data,
            j,
            j + enc_shared_file_seq(s1).len(),
            enc_shared_file(s1[0]),
            enc_shared_file_seq(s1.drop_first()),
        );
        take_prefix_at(
            data,
            j,
            j + enc_shared_file_seq(s2).len(),
            enc_shared_file(s2[0]),
            enc_shared_file_seq(s2.drop_first()),
        );
        match_shared_file_at(
            data,
            j,
            s1[0],
            s2[0],
            enc_shared_file_seq(s1.drop_first()),
            enc_shared_file_seq(s2.drop_first()),
        );
        assert(wf_shared_file_seq(s1.drop_first())) by {
            assert(forall|i: int|
                0 <= i < s1.drop_first().len() ==> #[trigger] s1.drop_first()[i] == s1[i + 1]);
        }
        assert(wf_shared_file_seq(s2.drop_first())) by {
            assert(forall|i: int|
                0 <= i < s2.drop_first().len() ==> #[trigger] s2.drop_first()[i] == s2[i + 1]);
        }
        match_shared_file_seq_at(data, j + enc_shared_file(s1[0]).len(), s1.drop_first(), s2.drop_first());
        assert forall|k: int| 0 <= k < s1.len() implies shared_file_eq(#[trigger] s1[k], #[trigger] s2[k]) by {
            if k > 0 {
                assert(shared_file_eq(s1.drop_first()[k - 1], s2.drop_first()[k - 1]));
            }
        }
    }
}

impl SharedFile {
    /// Appends the wire encoding of this entry.
    pub fn write_to(&self, out: &mut Vec<u8>)
        requires
            wf_shared_file(*self),
        ensures
            final(out)@ == old(out)@ + enc_shared_file(*self),
    {
        write_u8(out, 1);
        write_str(out, self.filename.as_str());
        write_u64(out, self.size);
        write_str(out, self.extension.as_str());
        write_attr_list(out, &self.attributes);
        proof {
            assert(out@ =~= old(out)@ + enc_shared_file(*self));
        }
    }

    /// Reads one entry. The leading marker byte must be `1`.
    pub fn read_from(data: &Vec<u8>, pos: &mut usize) -> (r: Result<SharedFile, Error>)
        requires
            *old(pos) <= data@.len(),
        ensures
            *old(pos) <= *final(pos) <= data@.len(),
            match r {
                Ok(f) => {
                    &&& wf_shared_file(f)
                    &&& *final(pos) == *old(pos) + enc_shared_file(f).len()
                    &&& data@.subrange(*old(pos) as int, *old(pos) + enc_shared_file(f).len())
                        == enc_shared_file(f)
                },
                Err(_) => true,
            },
            forall|g: SharedFile|
                wf_shared_file(g) && #[trigger] prefix_at(data@, *old(pos) as int, enc_shared_file(g)) ==> (
                r matches Ok(v) && shared_file_eq(v, g) && *final(pos) == *old(pos) + enc_shared_file(g).len()),
{
        broadcast use crate::protocol::group_enc_facts;

        let ghost start = *pos as int;
        let lead = match read_u8(data, pos) {
            Ok(v) => v,
            Err(e) => {
                proof {
                    assert forall|f: SharedFile| wf_shared_file(f) && #[trigger] prefix_at(data@, start, enc_shared_file(f)) implies false by {
                        assert(enc_shared_file(f) + Seq::<u8>::empty() =~= enc_shared_file(f));
                        split_shared_file(data@, start, f, Seq::<u8>::empty());
                    }
                }
                return Err(e);
            },
        };
        if lead != 1 {
            proof {
                assert(data@.subrange(start, start + 1)[0] == lead);
            }
            proof {
                    assert forall|f: SharedFile| wf_shared_file(f) && #[trigger] prefix_at(data@, start, enc_shared_file(f)) implies false by {
                        assert(enc_shared_file(f) + Seq::<u8>::empty() =~= enc_shared_file(f));
                        split_shared_file(data@, start, f, Seq::<u8>::empty());
                        assert(data@[start] == 1);
                    }
                }
            return Err(Error::Protocol(String::from_str("file entry marker is not 1")));
        }
        let filename = match read_string(data, pos) {
            Ok(v) => v,
            Err(e) => {
                proof {
                    assert forall|f: SharedFile| wf_shared_file(f) && #[trigger] prefix_at(data@, start, enc_shared_file(f)) implies false by {
                        assert(enc_shared_file(f) + Seq::<u8>::empty() =~= enc_shared_file(f));
                        split_shared_file(data@, start, f, Seq::<u8>::empty());
                    }
                }
                return Err(e);
            },
        };
        let size = match read_u64(data, pos) {
            Ok(v) => v,
            Err(e) => {
                proof {
                    assert forall|f: SharedFile| wf_shared_file(f) && #[trigger] prefix_at(data@, start, enc_shared_file(f)) implies false by {
                        assert(enc_shared_file(f) + Seq::<u8>::empty() =~= enc_shared_file(f));
                        split_shared_file(data@, start, f, Seq::<u8>::empty());
                        match_str_at(data@, start + 1, filename@, f.filename@);
                    }
                }
                return Err(e);
            },
        };
        let extension = match read_string(data, pos) {
            Ok(v) => v,
            Err(e) => {
                proof {
                    assert forall|f: SharedFile| wf_shared_file(f) && #[trigger] prefix_at(data@, start, enc_shared_file(f)) implies false by {
                        assert(enc_shared_file(f) + Seq::<u8>::empty() =~= enc_shared_file(f));
                        split_shared_file(data@, start, f, Seq::<u8>::empty());
                        match_str_at(data@, start + 1, filename@, f.filename@);
                    }
                }
                return Err(e);
            },
        };
        let attributes = match read_attr_list(data, pos) {
            Ok(v) => v,
            Err(e) => {
                proof {
                    assert forall|f: SharedFile| wf_shared_file(f) && #[trigger] prefix_at(data@, start, enc_shared_file(f)) implies false by {
                        assert(enc_shared_file(f) + Seq::<u8>::empty() =~= enc_shared_file(f));
                        split_shared_file(data@, start, f, Seq::<u8>::empty());
                        match_str_at(data@, start + 1, filename@, f.filename@);
                        match_str_at(
                            data@,
                            start + 9 + enc_str(f.filename@).len(),
                            extension@,
                            f.extension@,
                        );
                        crate::protocol::join_prefix(
                            data@,
                            start + 9 + enc_str(f.filename@).len() + enc_str(f.extension@).len(),
                            enc_u32(f.attributes@.len() as u32),
                            enc_attr_seq(f.attributes@),
                        );
                    }
                }
                return Err(e);
            },
        };
        let f = SharedFile { filename, size, extension, attributes };
        proof {
            assert(data@.subrange(start, start + 1) =~= enc_u8(1));
            lemma_enc_attr_seq_len(f.attributes@);
            assert(data@.subrange(start, start + enc_shared_file(f).len()) =~= enc_shared_file(f));
            assert forall|g: SharedFile| wf_shared_file(g) && #[trigger] prefix_at(data@, start, enc_shared_file(g)) implies shared_file_eq(f, g) && *pos == start + enc_shared_file(
                g,
            ).len() by {
                        assert(enc_shared_file(g) + Seq::<u8>::empty() =~= enc_shared_file(g));
                        split_shared_file(data@, start, g, Seq::<u8>::empty());
                        match_str_at(data@, start + 1, filename@, g.filename@);
                        match_str_at(
                            data@,
                            start + 9 + enc_str(g.filename@).len(),
                            extension@,
                            g.extension@,
                        );
                        crate::protocol::join_prefix(
                            data@,
                            start + 9 + enc_str(g.filename@).len() + enc_str(g.extension@).len(),
                            enc_u32(g.attributes@.len() as u32),
                            enc_attr_seq(g.attributes@),
                        );
            }
        }
        Ok(f)
    }
}

/// Appends an entry list: a `u32` count, then each entry.
pub fn write_shared_file_list(out: &mut Vec<u8>, items: &Vec<SharedFile>)
    requires
        items@.len() <= u32::MAX,
        wf_shared_file_seq(items@),
    ensures
        final(out)@ == old(out)@ + enc_shared_file_list(items@),
{
    write_u32(out, items.len() as u32);
    let mut i: usize = 0;
    proof {
        assert(items@.take(0) =~= Seq::<SharedFile>::empty());
    }
    while i < items.len()
        invariant
            i <= items@.len() <= u32::MAX,
            wf_shared_file_seq(items@),
            out@ == old(out)@ + enc_u32(items@.len() as u32) + enc_shared_file_seq(
                items@.take(i as int),
            ),
        decreases items@.len() - i,
    {
        items[i].write_to(out);
        proof {
            lemma_enc_shared_file_seq_snoc(items@, i as int);
        }
        i = i + 1;
    }
    proof {
        assert(items@.take(items@.len() as int) =~= items@);
        assert(out@ =~= old(out)@ + enc_shared_file_list(items@));
    }
}

/// An element sequence's encoding splits at any index.
pub proof fn lemma_enc_shared_file_seq_split(s: Seq<SharedFile>, i: int)
    requires
        0 <= i <= s.len(),
    ensures
        enc_shared_file_seq(s) == enc_shared_file_seq(s.take(i)) + enc_shared_file_seq(s.skip(i)),
    decreases i,
{
    if i == 0 {
        assert(s.take(0) =~= Seq::<SharedFile>::empty());
        assert(s.skip(0) =~= s);
        assert(Seq::<u8>::empty() + enc_shared_file_seq(s) =~= enc_shared_file_seq(s));
    } else {
        lemma_enc_shared_file_seq_split(s, i - 1);
        lemma_enc_shared_file_seq_snoc(s, i - 1);
        assert(s.skip(i - 1)[0] == s[i - 1]);
        assert(s.skip(i - 1).drop_first() =~= s.skip(i));
        assert(enc_shared_file_seq(s.skip(i - 1)) == enc_shared_file(s[i - 1]) + enc_shared_file_seq(s.skip(i)));
        assert((enc_shared_file_seq(s.take(i - 1)) + enc_shared_file(s[i - 1])) + enc_shared_file_seq(s.skip(i))
            =~= enc_shared_file_seq(s.take(i - 1)) + (enc_shared_file(s[i - 1]) + enc_shared_file_seq(s.skip(i))));
    }
}
/// Reads an entry list: a `u32` count, then that many entries.
pub fn read_shared_file_list(data: &Vec<u8>, pos: &mut usize) -> (r: Result<Vec<SharedFile>, Error>)
    requires
        *old(pos) <= data@.len(),
    ensures
        *old(pos) <= *final(pos) <= data@.len(),
        data@.len() < *old(pos) + 4 ==> (r matches Err(e) && (e matches
        Error::BufferUnderflow { needed: 4, available } && available == data@.len() - *old(
            pos,
        ))),
        match r {
            Ok(v) => {
                &&& wf_shared_file_seq(v@)
                &&& v@.len() <= u32::MAX
                &&& *final(pos) == *old(pos) + enc_shared_file_list(v@).len()
                &&& data@.subrange(*old(pos) as int, *old(pos) + 4) == enc_u32(v@.len() as u32)
                &&& data@.subrange(*old(pos) + 4, *old(pos) + 4 + enc_shared_file_seq(v@).len())
                    == enc_shared_file_seq(v@)
                &&& enc_shared_file_list(v@).len() == 4 + enc_shared_file_seq(v@).len()
            },
            Err(_) => true,
        },
        forall|s: Seq<SharedFile>|
            wf_shared_file_seq(s) && s.len() <= u32::MAX && #[trigger] prefix_at(
                data@,
                *old(pos) as int,
                enc_shared_file_list(s),
            ) ==> (r matches Ok(v) && shared_file_seq_eq(v@, s) && *final(pos) == *old(pos) + enc_shared_file_list(
                s,
            ).len()),
{
    broadcast use crate::protocol::group_enc_facts;

    let ghost start = *pos as int;
    let count = match read_u32(data, pos) {
        Ok(v) => v,
        Err(e) => {
            proof {
                assert forall|s: Seq<SharedFile>|
                    wf_shared_file_seq(s) && s.len() <= u32::MAX && #[trigger] prefix_at(
                        data@,
                        start,
                        enc_shared_file_list(s),
                    ) implies false by {
                    split_u32(data@, start, s.len() as u32, enc_shared_file_seq(s));
                }
            }
            return Err(e);
        },
    };
    let mut items: Vec<SharedFile> = Vec::new();
    let mut i: u32 = 0;
    proof {
        assert(enc_shared_file_seq(items@) =~= Seq::<u8>::empty());
        assert forall|s: Seq<SharedFile>|
            wf_shared_file_seq(s) && s.len() <= u32::MAX && #[trigger] prefix_at(
                data@,
                start,
                enc_shared_file_list(s),
            ) implies count == s.len() && enc_shared_file_seq(items@) == enc_shared_file_seq(s.take(0)) by {
            split_u32(data@, start, s.len() as u32, enc_shared_file_seq(s));
            assert(s.take(0) =~= Seq::<SharedFile>::empty());
        }
    }
    while i < count
        invariant
            start == *old(pos) as int,
            i <= count,
            items@.len() == i,
            wf_shared_file_seq(items@),
            start + 4 <= *pos <= data@.len(),
            *pos == start + 4 + enc_shared_file_seq(items@).len(),
            data@.subrange(start, start + 4) == enc_u32(count),
            data@.subrange(start + 4, *pos as int) == enc_shared_file_seq(items@),
            forall|s: Seq<SharedFile>|
                wf_shared_file_seq(s) && s.len() <= u32::MAX && #[trigger] prefix_at(
                    data@,
                    start,
                    enc_shared_file_list(s),
                ) ==> (count == s.len() && shared_file_seq_eq(items@, s.take(i as int)) && enc_shared_file_seq(
                    items@,
                ) == enc_shared_file_seq(s.take(i as int))),
        decreases count - i,
    {
        broadcast use crate::protocol::group_enc_facts;

        proof {
            assert forall|s: Seq<SharedFile>|
                wf_shared_file_seq(s) && s.len() <= u32::MAX && #[trigger] prefix_at(
                    data@,
                    start,
                    enc_shared_file_list(s),
                ) implies prefix_at(data@, *pos as int, enc_shared_file(s[i as int])) && wf_shared_file(
                s[i as int],
            ) by {
                split_u32(data@, start, s.len() as u32, enc_shared_file_seq(s));
                lemma_enc_shared_file_seq_split(s, i as int);
                take_prefix_at(
                    data@,
                    start + 4,
                    start + 4 + enc_shared_file_seq(s).len(),
                    enc_shared_file_seq(s.take(i as int)),
                    enc_shared_file_seq(s.skip(i as int)),
                );
                assert(s.skip(i as int)[0] == s[i as int]);
                assert(enc_shared_file_seq(s.skip(i as int)) == enc_shared_file(s[i as int]) + enc_shared_file_seq(
                    s.skip(i as int).drop_first(),
                ));
                take_prefix_at(
                    data@,
                    start + 4 + enc_shared_file_seq(s.take(i as int)).len(),
                    start + 4 + enc_shared_file_seq(s).len(),
                    enc_shared_file(s[i as int]),
                    enc_shared_file_seq(s.skip(i as int).drop_first()),
                );
            }
        }
        let ghost items_old = items@;
        let ghost pos_old = *pos as int;
        let f = match SharedFile::read_from(data, pos) {
            Ok(v) => v,
            Err(e) => {
                proof {
                    assert forall|s: Seq<SharedFile>|
                        wf_shared_file_seq(s) && s.len() <= u32::MAX && #[trigger] prefix_at(
                            data@,
                            start,
                            enc_shared_file_list(s),
                        ) implies false by {}
                }
                return Err(e);
            },
        };
        items.push(f);
        i = i + 1;
        proof {
            assert(items@ =~= items_old.push(f));
            assert(items@.take(items_old.len() as int) =~= items_old);
            lemma_enc_shared_file_seq_snoc(items@, items_old.len() as int);
            assert(items@.take(items_old.len() as int + 1) =~= items@);
            assert(data@.subrange(start + 4, *pos as int) =~= enc_shared_file_seq(items_old) + enc_shared_file(f));
            assert(wf_shared_file_seq(items@)) by {
                assert(forall|k: int|
                    0 <= k < items_old.len() ==> #[trigger] items@[k] == items_old[k]);
            }
            assert forall|s: Seq<SharedFile>|
                wf_shared_file_seq(s) && s.len() <= u32::MAX && #[trigger] prefix_at(
                    data@,
                    start,
                    enc_shared_file_list(s),
                ) implies shared_file_seq_eq(items@, s.take(i as int)) && enc_shared_file_seq(items@) == enc_shared_file_seq(
                s.take(i as int),
            ) by {
                split_u32(data@, start, s.len() as u32, enc_shared_file_seq(s));
                lemma_enc_shared_file_seq_split(s, i as int);
                take_prefix_at(
                    data@,
                    start + 4,
                    start + 4 + enc_shared_file_seq(s).len(),
                    enc_shared_file_seq(s.take(i as int)),
                    enc_shared_file_seq(s.skip(i as int)),
                );
                assert(s.take(i as int) =~= s.take(i - 1).push(s[i - 1]));
                assert forall|k: int| 0 <= k < i implies shared_file_eq(
                    #[trigger] items@[k],
                    #[trigger] s.take(i as int)[k],
                ) by {
                    if k < i - 1 {
                        assert(shared_file_eq(items_old[k], s.take(i - 1)[k]));
                    }
                }
                lemma_enc_shared_file_seq_snoc(s, i - 1);
                assert(enc_shared_file_seq(s.take(i as int)).len() == enc_shared_file_seq(s.take(i - 1)).len()
                    + enc_shared_file(s[i - 1]).len());
                assert(data@.subrange(start + 4, start + 4 + enc_shared_file_seq(s.take(i as int)).len())
                    == enc_shared_file_seq(s.take(i as int)));
                assert(enc_shared_file_seq(items@) =~= data@.subrange(
                    start + 4,
                    start + 4 + enc_shared_file_seq(s.take(i as int)).len(),
                ));
            }
        }
    }
    proof {
        assert(count == items@.len() as u32);
        assert forall|s: Seq<SharedFile>|
            wf_shared_file_seq(s) && s.len() <= u32::MAX && #[trigger] prefix_at(
                data@,
                start,
                enc_shared_file_list(s),
            ) implies shared_file_seq_eq(items@, s) && *pos == start + enc_shared_file_list(s).len() by {
            assert(s.take(s.len() as int) =~= s);
        }
    }
    Ok(items)
}

/// A search result file.
#[derive(Debug, Clone)]
pub struct SearchResultFile {
    pub filename: String,
    pub size: u64,
    pub extension: String,
    pub attributes: Vec<FileAttribute>,
}

pub open spec fn wf_result_file(f: SearchResultFile) -> bool {
    str_fits(f.filename@) && str_fits(f.extension@) && f.attributes@.len() <= u32::MAX
}

/// The wire encoding of one entry: a constant `1` byte, the filename,
/// the size, the extension, and the attribute list.
pub open spec fn enc_result_file(f: SearchResultFile) -> Seq<u8> {
    enc_u8(1) + (enc_str(f.filename@) + (enc_u64(f.size) + (enc_str(f.extension@) + enc_attr_list(
        f.attributes@,
    ))))
}

pub open spec fn result_file_eq(a: SearchResultFile, b: SearchResultFile) -> bool {
    a.filename@ == b.filename@ && a.size == b.size && a.extension@ == b.extension@
        && a.attributes@ == b.attributes@
}

pub open spec fn enc_result_file_seq(s: Seq<SearchResultFile>) -> Seq<u8>
    decreases s.len(),
{
    if s.len() == 0 {
        Seq::empty()
    } else {
        enc_result_file(s[0]) + enc_result_file_seq(s.drop_first())
    }
}

pub open spec fn enc_result_file_list(s: Seq<SearchResultFile>) -> Seq<u8> {
    enc_u32(s.len() as u32) + enc_result_file_seq(s)
}

pub open spec fn wf_result_file_seq(s: Seq<SearchResultFile>) -> bool {
    forall|i: int| 0 <= i < s.len() ==> wf_result_file(#[trigger] s[i])
}

pub open spec fn result_file_seq_eq(a: Seq<SearchResultFile>, b: Seq<SearchResultFile>) -> bool {
    a.len() == b.len() && forall|i: int| 0 <= i < a.len() ==> result_file_eq(#[trigger] a[i], #[trigger] b[i])
}

pub proof fn lemma_enc_result_file_seq_snoc(s: Seq<SearchResultFile>, i: int)
    requires
        0 <= i < s.len(),
    ensures
        enc_result_file_seq(s.take(i + 1)) == enc_result_file_seq(s.take(i)) + enc_result_file(s[i]),
    decreases i,
{
    if i == 0 {
        assert(s.take(1) =~= seq![s[0]]);
        assert(s.take(1)[0] == s[0]);
        assert(s.take(1).drop_first() =~= Seq::<SearchResultFile>::empty());
        assert(s.take(0) =~= Seq::<SearchResultFile>::empty());
        assert(enc_result_file_seq(s.take(1)) == enc_result_file(s[0]) + enc_result_file_seq(
            Seq::<SearchResultFile>::empty(),
        ));
        assert(enc_result_file(s[0]) + Seq::<u8>::empty() =~= enc_result_file(s[0]));
        assert(Seq::<u8>::empty() + enc_result_file(s[0]) =~= enc_result_file(s[0]));
    } else {
        lemma_enc_result_file_seq_snoc(s.drop_first(), i - 1);
        assert(s.take(i + 1).drop_first() =~= s.drop_first().take(i));
        assert(s.take(i).drop_first() =~= s.drop_first().take(i - 1));
        assert(s.take(i + 1)[0] == s[0]);
        assert(s.take(i)[0] == s[0]);
        assert(s.drop_first()[i - 1] == s[i]);
        assert(enc_result_file_seq(s.take(i + 1)) == enc_result_file(s[0]) + enc_result_file_seq(
            s.drop_first().take(i),
        ));
        assert(enc_result_file_seq(s.take(i)) == enc_result_file(s[0]) + enc_result_file_seq(
            s.drop_first().take(i - 1),
        ));
        assert(enc_result_file(s[0]) + (enc_result_file_seq(s.drop_first().take(i - 1)) + enc_result_file(
            s[i],
        )) =~= (enc_result_file(s[0]) + enc_result_file_seq(s.drop_first().take(i - 1))) + enc_result_file(
            s[i],
        ));
    }
}

/// Splits one entry's encoding at offset `j` into its field facts.
pub proof fn split_result_file(data: Seq<u8>, j: int, f: SearchResultFile, rest: Seq<u8>)
    requires
        wf_result_file(f),
        prefix_at(data, j, enc_result_file(f) + rest),
    ensures
        data[j] == 1,
        ({
            let n1 = j + 1;
            let n2 = n1 + enc_str(f.filename@).len();
            let n3 = n2 + 8;
            let n4 = n3 + enc_str(f.extension@).len();
            let n5 = n4 + 4 + enc_attr_seq(f.attributes@).len();
            &&& data.subrange(n1, n1 + 4) == enc_u32(encode_utf8(f.filename@).len() as u32)
            &&& data.subrange(n1 + 4, n2) == encode_utf8(f.filename@)
            &&& str_starts_at(data, n1)
            &&& data.subrange(n2, n3) == enc_u64(f.size)
            &&& data.subrange(n3, n3 + 4) == enc_u32(encode_utf8(f.extension@).len() as u32)
            &&& data.subrange(n3 + 4, n4) == encode_utf8(f.extension@)
            &&& str_starts_at(data, n3)
            &&& data.subrange(n4, n4 + 4) == enc_u32(f.attributes@.len() as u32)
            &&& data.subrange(n4 + 4, n5) == enc_attr_seq(f.attributes@)
            &&& n5 == j + enc_result_file(f).len()
            &&& enc_attr_seq(f.attributes@).len() == 8 * f.attributes@.len()
            &&& prefix_at(data, n5, rest)
            &&& n5 <= data.len()
        }),
{
    broadcast use crate::protocol::group_enc_facts;

    let r1 = enc_str(f.filename@) + (enc_u64(f.size) + (enc_str(f.extension@) + enc_attr_list(
        f.attributes@,
    )));
    assert(enc_result_file(f) + rest =~= enc_u8(1) + (r1 + rest));
    split_u8(data, j, 1, r1 + rest);
    assert(enc_str(f.filename@) + (enc_u64(f.size) + (enc_str(f.extension@) + enc_attr_list(
        f.attributes@,
    ))) + rest =~= enc_str(f.filename@) + ((enc_u64(f.size) + (enc_str(f.extension@)
        + enc_attr_list(f.attributes@))) + rest));
    split_str(data, j + 1, f.filename@, (enc_u64(f.size) + (enc_str(f.extension@) + enc_attr_list(
        f.attributes@,
    ))) + rest);
    let n2 = j + 1 + enc_str(f.filename@).len();
    assert(enc_u64(f.size) + (enc_str(f.extension@) + enc_attr_list(f.attributes@)) + rest
        =~= enc_u64(f.size) + ((enc_str(f.extension@) + enc_attr_list(f.attributes@)) + rest));
    split_u64(data, n2, f.size, (enc_str(f.extension@) + enc_attr_list(f.attributes@)) + rest);
    assert(enc_str(f.extension@) + enc_attr_list(f.attributes@) + rest =~= enc_str(f.extension@)
        + (enc_attr_list(f.attributes@) + rest));
    split_str(data, n2 + 8, f.extension@, enc_attr_list(f.attributes@) + rest);
    let n4 = n2 + 8 + enc_str(f.extension@).len();
    assert(enc_attr_list(f.attributes@) + rest =~= enc_u32(f.attributes@.len() as u32) + (
    enc_attr_seq(f.attributes@) + rest));
    split_u32(data, n4, f.attributes@.len() as u32, enc_attr_seq(f.attributes@) + rest);
    take_prefix_at(
        data,
        n4 + 4,
        n4 + 4 + (enc_attr_seq(f.attributes@) + rest).len(),
        enc_attr_seq(f.attributes@),
        rest,
    );
    lemma_enc_attr_seq_len(f.attributes@);
}

/// Two entries whose encodings start at the same offset are equal, and
/// their encodings have the same length.
pub proof fn match_result_file_at(data: Seq<u8>, j: int, a: SearchResultFile, b: SearchResultFile, resta: Seq<u8>, restb: Seq<
    u8,
>)
    requires
        wf_result_file(a),
        wf_result_file(b),
        prefix_at(data, j, enc_result_file(a) + resta),
        prefix_at(data, j, enc_result_file(b) + restb),
    ensures
        result_file_eq(a, b),
        enc_result_file(a).len() == enc_result_file(b).len(),
{
    broadcast use crate::protocol::group_enc_facts;

    split_result_file(data, j, a, resta);
    split_result_file(data, j, b, restb);
    match_str_at(data, j + 1, a.filename@, b.filename@);
    let n2 = j + 1 + enc_str(a.filename@).len();
    match_str_at(data, n2 + 8, a.extension@, b.extension@);
    let n4 = n2 + 8 + enc_str(a.extension@).len();
    assert(a.attributes@.len() == b.attributes@.len());
    match_attr_seq_at(data, n4 + 4, a.attributes@, b.attributes@);
}

/// Sequences of equal length whose encodings start at the same offset
/// are equal elementwise.
pub proof fn match_result_file_seq_at(data: Seq<u8>, j: int, s1: Seq<SearchResultFile>, s2: Seq<SearchResultFile>)
    requires
        wf_result_file_seq(s1),
        wf_result_file_seq(s2),
        s1.len() == s2.len(),
        0 <= j,
        j + enc_result_file_seq(s1).len() <= data.len(),
        j + enc_result_file_seq(s2).len() <= data.len(),
        data.subrange(j, j + enc_result_file_seq(s1).len()) == enc_result_file_seq(s1),
        data.subrange(j, j + enc_result_file_seq(s2).len()) == enc_result_file_seq(s2),
    ensures
        result_file_seq_eq(s1, s2),
        enc_result_file_seq(s1).len() == enc_result_file_seq(s2).len(),
    decreases s1.len(),
{
    if s1.len() == 0 {
    } else {
        assert(wf_result_file(s1[0]));
        assert(wf_result_file(s2[0]));
        take_prefix_at(
            data,
            j,
            j + enc_result_file_seq(s1).len(),
            enc_result_file(s1[0]),
            enc_result_file_seq(s1.drop_first()),
        );
        take_prefix_at(
            data,
            j,
            j + enc_result_file_seq(s2).len(),
            enc_result_file(s2[0]),
            enc_result_file_seq(s2.drop_first()),
        );
        match_result_file_at(
            data,
            j,
            s1[0],
            s2[0],
            enc_result_file_seq(s1.drop_first()),
            enc_result_file_seq(s2.drop_first()),
        );
        assert(wf_result_file_seq(s1.drop_first())) by {
            assert(forall|i: int|
                0 <= i < s1.drop_first().len() ==> #[trigger] s1.drop_first()[i] == s1[i + 1]);
        }
        assert(wf_result_file_seq(s2.drop_first())) by {
            assert(forall|i: int|
                0 <= i < s2.drop_first().len() ==> #[trigger] s2.drop_first()[i] == s2[i + 1]);
        }
        match_result_file_seq_at(data, j + enc_result_file(s1[0]).len(), s1.drop_first(), s2.drop_first());
        assert forall|k: int| 0 <= k < s1.len() implies result_file_eq(#[trigger] s1[k], #[trigger] s2[k]) by {
            if k > 0 {
                assert(result_file_eq(s1.drop_first()[k - 1], s2.drop_first()[k - 1]));
            }
        }
    }
}

impl SearchResultFile {
    /// Appends the wire encoding of this entry.
    pub fn write_to(&self, out: &mut Vec<u8>)
        requires
            wf_result_file(*self),
        ensures
            final(out)@ == old(out)@ + enc_result_file(*self),
    {
        write_u8(out, 1);
        write_str(out, self.filename.as_str());
        write_u64(out, self.size);
        write_str(out, self.extension.as_str());
        write_attr_list(out, &self.attributes);
        proof {
            assert(out@ =~= old(out)@ + enc_result_file(*self));
        }
    }

    /// Reads one entry. The leading marker byte must be `1`.
    pub fn read_from(data: &Vec<u8>, pos: &mut usize) -> (r: Result<SearchResultFile, Error>)
        requires
            *old(pos) <= data@.len(),
        ensures
            *old(pos) <= *final(pos) <= data@.len(),
            match r {
                Ok(f) => {
                    &&& wf_result_file(f)
                    &&& *final(pos) == *old(pos) + enc_result_file(f).len()
                    &&& data@.subrange(*old(pos) as int, *old(pos) + enc_result_file(f).len())
                        == enc_result_file(f)
                },
                Err(_) => true,
            },
            forall|g: SearchResultFile|
                wf_result_file(g) && #[trigger] prefix_at(data@, *old(pos) as int, enc_result_file(g)) ==> (
                r matches Ok(v) && result_file_eq(v, g) && *final(pos) == *old(pos) + enc_result_file(g).len()),
{
        broadcast use crate::protocol::group_enc_facts;

        let ghost start = *pos as int;
        let lead = match read_u8(data, pos) {
            Ok(v) => v,
            Err(e) => {
                proof {
                    assert forall|f: SearchResultFile| wf_result_file(f) && #[trigger] prefix_at(data@, start, enc_result_file(f)) implies false by {
                        assert(enc_result_file(f) + Seq::<u8>::empty() =~= enc_result_file(f));
                        split_result_file(data@, start, f, Seq::<u8>::empty());
                    }
                }
                return Err(e);
            },
        };
        if lead != 1 {
            proof {
                assert(data@.subrange(start, start + 1)[0] == lead);
            }
            proof {
                    assert forall|f: SearchResultFile| wf_result_file(f) && #[trigger] prefix_at(data@, start, enc_result_file(f)) implies false by {
                        assert(enc_result_file(f) + Seq::<u8>::empty() =~= enc_result_file(f));
                        split_result_file(data@, start, f, Seq::<u8>::empty());
                        assert(data@[start] == 1);
                    }
                }
            return Err(Error::Protocol(String::from_str("file entry marker is not 1")));
        }
        let filename = match read_string(data, pos) {
            Ok(v) => v,
            Err(e) => {
                proof {
                    assert forall|f: SearchResultFile| wf_result_file(f) && #[trigger] prefix_at(data@, start, enc_result_file(f)) implies false by {
                        assert(enc_result_file(f) + Seq::<u8>::empty() =~= enc_result_file(f));
                        split_result_file(data@, start, f, Seq::<u8>::empty());
                    }
                }
                return Err(e);
            },
        };
        let size = match read_u64(data, pos) {
            Ok(v) => v,
            Err(e) => {
                proof {
                    assert forall|f: SearchResultFile| wf_result_file(f) && #[trigger] prefix_at(data@, start, enc_result_file(f)) implies false by {
                        assert(enc_result_file(f) + Seq::<u8>::empty() =~= enc_result_file(f));
                        split_result_file(data@, start, f, Seq::<u8>::empty());
                        match_str_at(data@, start + 1, filename@, f.filename@);
                    }
                }
                return Err(e);
            },
        };
        let extension = match read_string(data, pos) {
            Ok(v) => v,
            Err(e) => {
                proof {
                    assert forall|f: SearchResultFile| wf_result_file(f) && #[trigger] prefix_at(data@, start, enc_result_file(f)) implies false by {
                        assert(enc_result_file(f) + Seq::<u8>::empty() =~= enc_result_file(f));
                        split_result_file(data@, start, f, Seq::<u8>::empty());
                        match_str_at(data@, start + 1, filename@, f.filename@);
                    }
                }
                return Err(e);
            },
        };
        let attributes = match read_attr_list(data, pos) {
            Ok(v) => v,
            Err(e) => {
                proof {
                    assert forall|f: SearchResultFile| wf_result_file(f) && #[trigger] prefix_at(data@, start, enc_result_file(f)) implies false by {
                        assert(enc_result_file(f) + Seq::<u8>::empty() =~= enc_result_file(f));
                        split_result_file(data@, start, f, Seq::<u8>::empty());
                        match_str_at(data@, start + 1, filename@, f.filename@);
                        match_str_at(
                            data@,
                            start + 9 + enc_str(f.filename@).len(),
                            extension@,
                            f.extension@,
                        );
                        crate::protocol::join_prefix(
                            data@,
                            start + 9 + enc_str(f.filename@).len() + enc_str(f.extension@).len(),
                            enc_u32(f.attributes@.len() as u32),
                            enc_attr_seq(f.attributes@),
                        );
                    }
                }
                return Err(e);
            },
        };
        let f = SearchResultFile { filename, size, extension, attributes };
        proof {
            assert(data@.subrange(start, start + 1) =~= enc_u8(1));
            lemma_enc_attr_seq_len(f.attributes@);
            assert(data@.subrange(start, start + enc_result_file(f).len()) =~= enc_result_file(f));
            assert forall|g: SearchResultFile| wf_result_file(g) && #[trigger] prefix_at(data@, start, enc_result_file(g)) implies result_file_eq(f, g) && *pos == start + enc_result_file(
                g,
            ).len() by {
                        assert(enc_result_file(g) + Seq::<u8>::empty() =~= enc_result_file(g));
                        split_result_file(data@, start, g, Seq::<u8>::empty());
                        match_str_at(data@, start + 1, filename@, g.filename@);
                        match_str_at(
                            data@,
                            start + 9 + enc_str(g.filename@).len(),
                            extension@,
                            g.extension@,
                        );
                        crate::protocol::join_prefix(
                            data@,
                            start + 9 + enc_str(g.filename@).len() + enc_str(g.extension@).len(),
                            enc_u32(g.attributes@.len() as u32),
                            enc_attr_seq(g.attributes@),
                        );
            }
        }
        Ok(f)
    }
}

/// Appends an entry list: a `u32` count, then each entry.
pub fn write_result_file_list(out: &mut Vec<u8>, items: &Vec<SearchResultFile>)
    requires
        items@.len() <= u32::MAX,
        wf_result_file_seq(items@),
    ensures
        final(out)@ == old(out)@ + enc_result_file_list(items@),
{
    write_u32(out, items.len() as u32);
    let mut i: usize = 0;
    proof {
        assert(items@.take(0) =~= Seq::<SearchResultFile>::empty());
    }
    while i < items.len()
        invariant
            i <= items@.len() <= u32::MAX,
            wf_result_file_seq(items@),
            out@ == old(out)@ + enc_u32(items@.len() as u32) + enc_result_file_seq(
                items@.take(i as int),
            ),
        decreases items@.len() - i,
    {
        items[i].write_to(out);
        proof {
            lemma_enc_result_file_seq_snoc(items@, i as int);
        }
        i = i + 1;
    }
    proof {
        assert(items@.take(items@.len() as int) =~= items@);
        assert(out@ =~= old(out)@ + enc_result_file_list(items@));
    }
}

/// An element sequence's encoding splits at any index.
pub proof fn lemma_enc_result_file_seq_split(s: Seq<SearchResultFile>, i: int)
    requires
        0 <= i <= s.len(),
    ensures
        enc_result_file_seq(s) == enc_result_file_seq(s.take(i)) + enc_result_file_seq(s.skip(i)),
    decreases i,
{
    if i == 0 {
        assert(s.take(0) =~= Seq::<SearchResultFile>::empty());
        assert(s.skip(0) =~= s);
        assert(Seq::<u8>::empty() + enc_result_file_seq(s) =~= enc_result_file_seq(s));
    } else {
        lemma_enc_result_file_seq_split(s, i - 1);
        lemma_enc_result_file_seq_snoc(s, i - 1);
        assert(s.skip(i - 1)[0] == s[i - 1]);
        assert(s.skip(i - 1).drop_first() =~= s.skip(i));
        assert(enc_result_file_seq(s.skip(i - 1)) == enc_result_file(s[i - 1]) + enc_result_file_seq(s.skip(i)));
        assert((enc_result_file_seq(s.take(i - 1)) + enc_result_file(s[i - 1])) + enc_result_file_seq(s.skip(i))
            =~= enc_result_file_seq(s.take(i - 1)) + (enc_result_file(s[i - 1]) + enc_result_file_seq(s.skip(i))));
    }
}
/// Reads an entry list: a `u32` count, then that many entries.
pub fn read_result_file_list(data: &Vec<u8>, pos: &mut usize) -> (r: Result<Vec<SearchResultFile>, Error>)
    requires
        *old(pos) <= data@.len(),
    ensures
        *old(pos) <= *final(pos) <= data@.len(),
        data@.len() < *old(pos) + 4 ==> (r matches Err(e) && (e matches
        Error::BufferUnderflow { needed: 4, available } && available == data@.len() - *old(
            pos,
        ))),
        match r {
            Ok(v) => {
                &&& wf_result_file_seq(v@)
                &&& v@.len() <= u32::MAX
                &&& *final(pos) == *old(pos) + enc_result_file_list(v@).len()
                &&& data@.subrange(*old(pos) as int, *old(pos) + 4) == enc_u32(v@.len() as u32)
                &&& data@.subrange(*old(pos) + 4, *old(pos) + 4 + enc_result_file_seq(v@).len())
                    == enc_result_file_seq(v@)
                &&& enc_result_file_list(v@).len() == 4 + enc_result_file_seq(v@).len()
            },
            Err(_) => true,
        },
        forall|s: Seq<SearchResultFile>|
            wf_result_file_seq(s) && s.len() <= u32::MAX && #[trigger] prefix_at(
                data@,
                *old(pos) as int,
                enc_result_file_list(s),
            ) ==> (r matches Ok(v) && result_file_seq_eq(v@, s) && *final(pos) == *old(pos) + enc_result_file_list(
                s,
            ).len()),
{
    broadcast use crate::protocol::group_enc_facts;

    let ghost start = *pos as int;
    let count = match read_u32(data, pos) {
        Ok(v) => v,
        Err(e) => {
            proof {
                assert forall|s: Seq<SearchResultFile>|
                    wf_result_file_seq(s) && s.len() <= u32::MAX && #[trigger] prefix_at(
                        data@,
                        start,
                        enc_result_file_list(s),
                    ) implies false by {
                    split_u32(data@, start, s.len() as u32, enc_result_file_seq(s));
                }
            }
            return Err(e);
        },
    };
    let mut items: Vec<SearchResultFile> = Vec::new();
    let mut i: u32 = 0;
    proof {
        assert(enc_result_file_seq(items@) =~= Seq::<u8>::empty());
        assert forall|s: Seq<SearchResultFile>|
            wf_result_file_seq(s) && s.len() <= u32::MAX && #[trigger] prefix_at(
                data@,
                start,
                enc_result_file_list(s),
            ) implies count == s.len() && enc_result_file_seq(items@) == enc_result_file_seq(s.take(0)) by {
            split_u32(data@, start, s.len() as u32, enc_result_file_seq(s));
            assert(s.take(0) =~= Seq::<SearchResultFile>::empty());
        }
    }
    while i < count
        invariant
            start == *old(pos) as int,
            i <= count,
            items@.len() == i,
            wf_result_file_seq(items@),
            start + 4 <= *pos <= data@.len(),
            *pos == start + 4 + enc_result_file_seq(items@).len(),
            data@.subrange(start, start + 4) == enc_u32(count),
            data@.subrange(start + 4, *pos as int) == enc_result_file_seq(items@),
            forall|s: Seq<SearchResultFile>|
                wf_result_file_seq(s) && s.len() <= u32::MAX && #[trigger] prefix_at(
                    data@,
                    start,
                    enc_result_file_list(s),
                ) ==> (count == s.len() && result_file_seq_eq(items@, s.take(i as int)) && enc_result_file_seq(
                    items@,
                ) == enc_result_file_seq(s.take(i as int))),
        decreases count - i,
    {
        broadcast use crate::protocol::group_enc_facts;

        proof {
            assert forall|s: Seq<SearchResultFile>|
                wf_result_file_seq(s) && s.len() <= u32::MAX && #[trigger] prefix_at(
                    data@,
                    start,
                    enc_result_file_list(s),
                ) implies prefix_at(data@, *pos as int, enc_result_file(s[i as int])) && wf_result_file(
                s[i as int],
            ) by {
                split_u32(data@, start, s.len() as u32, enc_result_file_seq(s));
                lemma_enc_result_file_seq_split(s, i as int);
                take_prefix_at(
                    data@,
                    start + 4,
                    start + 4 + enc_result_file_seq(s).len(),
                    enc_result_file_seq(s.take(i as int)),
                    enc_result_file_seq(s.skip(i as int)),
                );
                assert(s.skip(i as int)[0] == s[i as int]);
                assert(enc_result_file_seq(s.skip(i as int)) == enc_result_file(s[i as int]) + enc_result_file_seq(
                    s.skip(i as int).drop_first(),
                ));
                take_prefix_at(
                    data@,
                    start + 4 + enc_result_file_seq(s.take(i as int)).len(),
                    start + 4 + enc_result_file_seq(s).len(),
                    enc_result_file(s[i as int]),
                    enc_result_file_seq(s.skip(i as int).drop_first()),
                );
            }
        }
        let ghost items_old = items@;
        let ghost pos_old = *pos as int;
        let f = match SearchResultFile::read_from(data, pos) {
            Ok(v) => v,
            Err(e) => {
                proof {
                    assert forall|s: Seq<SearchResultFile>|
                        wf_result_file_seq(s) && s.len() <= u32::MAX && #[trigger] prefix_at(
                            data@,
                            start,
                            enc_result_file_list(s),
                        ) implies false by {}
                }
                return Err(e);
            },
        };
        items.push(f);
        i = i + 1;
        proof {
            assert(items@ =~= items_old.push(f));
            assert(items@.take(items_old.len() as int) =~= items_old);
            lemma_enc_result_file_seq_snoc(items@, items_old.len() as int);
            assert(items@.take(items_old.len() as int + 1) =~= items@);
            assert(data@.subrange(start + 4, *pos as int) =~= enc_result_file_seq(items_old) + enc_result_file(f));
            assert(wf_result_file_seq(items@)) by {
                assert(forall|k: int|
                    0 <= k < items_old.len() ==> #[trigger] items@[k] == items_old[k]);
            }
            assert forall|s: Seq<SearchResultFile>|
                wf_result_file_seq(s) && s.len() <= u32::MAX && #[trigger] prefix_at(
                    data@,
                    start,
                    enc_result_file_list(s),
                ) implies result_file_seq_eq(items@, s.take(i as int)) && enc_result_file_seq(items@) == enc_result_file_seq(
                s.take(i as int),
            ) by {
                split_u32(data@, start, s.len() as u32, enc_result_file_seq(s));
                lemma_enc_result_file_seq_split(s, i as int);
                take_prefix_at(
                    data@,
                    start + 4,
                    start + 4 + enc_result_file_seq(s).len(),
                    enc_result_file_seq(s.take(i as int)),
                    enc_result_file_seq(s.skip(i as int)),
                );
                assert(s.take(i as int) =~= s.take(i - 1).push(s[i - 1]));
                assert forall|k: int| 0 <= k < i implies result_file_eq(
                    #[trigger] items@[k],
                    #[trigger] s.take(i as int)[k],
                ) by {
                    if k < i - 1 {
                        assert(result_file_eq(items_old[k], s.take(i - 1)[k]));
                    }
                }
                lemma_enc_result_file_seq_snoc(s, i - 1);
                assert(enc_result_file_seq(s.take(i as int)).len() == enc_result_file_seq(s.take(i - 1)).len()
                    + enc_result_file(s[i - 1]).len());
                assert(data@.subrange(start + 4, start + 4 + enc_result_file_seq(s.take(i as int)).len())
                    == enc_result_file_seq(s.take(i as int)));
                assert(enc_result_file_seq(items@) =~= data@.subrange(
                    start + 4,
                    start + 4 + enc_result_file_seq(s.take(i as int)).len(),
                ));
            }
        }
    }
    proof {
        assert(count == items@.len() as u32);
        assert forall|s: Seq<SearchResultFile>|
            wf_result_file_seq(s) && s.len() <= u32::MAX && #[trigger] prefix_at(
                data@,
                start,
                enc_result_file_list(s),
            ) implies result_file_seq_eq(items@, s) && *pos == start + enc_result_file_list(s).len() by {
            assert(s.take(s.len() as int) =~= s);
        }
    }
    Ok(items)
}


// ---------------------------------------------------------------------------
// Shared directories.
// ---------------------------------------------------------------------------

/// A directory with its files.
#[derive(Debug, Clone)]
pub struct SharedDirectory {
    pub path: String,
    pub files: Vec<SharedFile>,
}

pub open spec fn wf_dir(d: SharedDirectory) -> bool {
    str_fits(d.path@) && d.files@.len() <= u32::MAX && wf_shared_file_seq(d.files@)
}

pub open spec fn enc_dir(d: SharedDirectory) -> Seq<u8> {
    enc_str(d.path@) + enc_shared_file_list(d.files@)
}

pub open spec fn dir_eq(a: SharedDirectory, b: SharedDirectory) -> bool {
    a.path@ == b.path@ && shared_file_seq_eq(a.files@, b.files@)
}

pub open spec fn enc_dir_seq(s: Seq<SharedDirectory>) -> Seq<u8>
    decreases s.len(),
{
    if s.len() == 0 {
        Seq::empty()
    } else {
        enc_dir(s[0]) + enc_dir_seq(s.drop_first())
    }
}

pub open spec fn enc_dir_list(s: Seq<SharedDirectory>) -> Seq<u8> {
    enc_u32(s.len() as u32) + enc_dir_seq(s)
}

pub open spec fn wf_dir_seq(s: Seq<SharedDirectory>) -> bool {
    forall|i: int| 0 <= i < s.len() ==> wf_dir(#[trigger] s[i])
}

pub open spec fn dir_seq_eq(a: Seq<SharedDirectory>, b: Seq<SharedDirectory>) -> bool {
    a.len() == b.len() && forall|i: int| 0 <= i < a.len() ==> dir_eq(#[trigger] a[i], #[trigger] b[i])
}

pub proof fn lemma_enc_dir_seq_snoc(s: Seq<SharedDirectory>, i: int)
    requires
        0 <= i < s.len(),
    ensures
        enc_dir_seq(s.take(i + 1)) == enc_dir_seq(s.take(i)) + enc_dir(s[i]),
    decreases i,
{
    if i == 0 {
        assert(s.take(1) =~= seq![s[0]]);
        assert(s.take(1)[0] == s[0]);
        assert(s.take(1).drop_first() =~= Seq::<SharedDirectory>::empty());
        assert(s.take(0) =~= Seq::<SharedDirectory>::empty());
        assert(enc_dir_seq(s.take(1)) == enc_dir(s[0]) + enc_dir_seq(
            Seq::<SharedDirectory>::empty(),
        ));
        assert(enc_dir(s[0]) + Seq::<u8>::empty() =~= enc_dir(s[0]));
        assert(Seq::<u8>::empty() + enc_dir(s[0]) =~= enc_dir(s[0]));
    } else {
        lemma_enc_dir_seq_snoc(s.drop_first(), i - 1);
        assert(s.take(i + 1).drop_first() =~= s.drop_first().take(i));
        assert(s.take(i).drop_first() =~= s.drop_first().take(i - 1));
        assert(s.take(i + 1)[0] == s[0]);
        assert(s.take(i)[0] == s[0]);
        assert(s.drop_first()[i - 1] == s[i]);
        assert(enc_dir_seq(s.take(i + 1)) == enc_dir(s[0]) + enc_dir_seq(s.drop_first().take(i)));
        assert(enc_dir_seq(s.take(i)) == enc_dir(s[0]) + enc_dir_seq(s.drop_first().take(i - 1)));
        assert(enc_dir(s[0]) + (enc_dir_seq(s.drop_first().take(i - 1)) + enc_dir(s[i])) =~= (
        enc_dir(s[0]) + enc_dir_seq(s.drop_first().take(i - 1))) + enc_dir(s[i]));
    }
}

/// Splits one directory's encoding at offset `j` into its field facts.
pub proof fn split_dir(data: Seq<u8>, j: int, d: SharedDirectory, rest: Seq<u8>)
    requires
        wf_dir(d),
        prefix_at(data, j, enc_dir(d) + rest),
    ensures
        ({
            let n1 = j + enc_str(d.path@).len();
            let n2 = n1 + 4 + enc_shared_file_seq(d.files@).len();
            &&& data.subrange(j, j + 4) == enc_u32(encode_utf8(d.path@).len() as u32)
            &&& data.subrange(j + 4, n1) == encode_utf8(d.path@)
            &&& str_starts_at(data, j)
            &&& data.subrange(n1, n1 + 4) == enc_u32(d.files@.len() as u32)
            &&& data.subrange(n1 + 4, n2) == enc_shared_file_seq(d.files@)
            &&& n2 == j + enc_dir(d).len()
            &&& prefix_at(data, n2, rest)
            &&& n2 <= data.len()
        }),
{
    broadcast use crate::protocol::group_enc_facts;

    assert(enc_dir(d) + rest =~= enc_str(d.path@) + (enc_shared_file_list(d.files@) + rest));
    split_str(data, j, d.path@, enc_shared_file_list(d.files@) + rest);
    let n1 = j + enc_str(d.path@).len();
    assert(enc_shared_file_list(d.files@) + rest =~= enc_u32(d.files@.len() as u32) + (
    enc_shared_file_seq(d.files@) + rest));
    split_u32(data, n1, d.files@.len() as u32, enc_shared_file_seq(d.files@) + rest);
    take_prefix_at(
        data,
        n1 + 4,
        n1 + 4 + (enc_shared_file_seq(d.files@) + rest).len(),
        enc_shared_file_seq(d.files@),
        rest,
    );
}

/// Two directories whose encodings start at the same offset are equal.
pub proof fn match_dir_at(data: Seq<u8>, j: int, a: SharedDirectory, b: SharedDirectory, resta: Seq<
    u8,
>, restb: Seq<u8>)
    requires
        wf_dir(a),
        wf_dir(b),
        prefix_at(data, j, enc_dir(a) + resta),
        prefix_at(data, j, enc_dir(b) + restb),
    ensures
        dir_eq(a, b),
        enc_dir(a).len() == enc_dir(b).len(),
{
    broadcast use crate::protocol::group_enc_facts;

    split_dir(data, j, a, resta);
    split_dir(data, j, b, restb);
    match_str_at(data, j, a.path@, b.path@);
    let n1 = j + enc_str(a.path@).len();
    assert(a.files@.len() == b.files@.len());
    match_shared_file_seq_at(data, n1 + 4, a.files@, b.files@);
}

/// Sequences of equal length whose encodings start at the same offset
/// are equal elementwise.
pub proof fn match_dir_seq_at(data: Seq<u8>, j: int, s1: Seq<SharedDirectory>, s2: Seq<
    SharedDirectory,
>)
    requires
        wf_dir_seq(s1),
        wf_dir_seq(s2),
        s1.len() == s2.len(),
        0 <= j,
        j + enc_dir_seq(s1).len() <= data.len(),
        j + enc_dir_seq(s2).len() <= data.len(),
        data.subrange(j, j + enc_dir_seq(s1).len()) == enc_dir_seq(s1),
        data.subrange(j, j + enc_dir_seq(s2).len()) == enc_dir_seq(s2),
    ensures
        dir_seq_eq(s1, s2),
        enc_dir_seq(s1).len() == enc_dir_seq(s2).len(),
    decreases s1.len(),
{
    if s1.len() == 0 {
    } else {
        assert(wf_dir(s1[0]));
        assert(wf_dir(s2[0]));
        take_prefix_at(
            data,
            j,
            j + enc_dir_seq(s1).len(),
            enc_dir(s1[0]),
            enc_dir_seq(s1.drop_first()),
        );
        take_prefix_at(
            data,
            j,
            j + enc_dir_seq(s2).len(),
            enc_dir(s2[0]),
            enc_dir_seq(s2.drop_first()),
        );
        match_dir_at(data, j, s1[0], s2[0], enc_dir_seq(s1.drop_first()), enc_dir_seq(
            s2.drop_first(),
        ));
        assert(wf_dir_seq(s1.drop_first())) by {
            assert(forall|i: int|
                0 <= i < s1.drop_first().len() ==> #[trigger] s1.drop_first()[i] == s1[i + 1]);
        }
        assert(wf_dir_seq(s2.drop_first())) by {
            assert(forall|i: int|
                0 <= i < s2.drop_first().len() ==> #[trigger] s2.drop_first()[i] == s2[i + 1]);
        }
        match_dir_seq_at(data, j + enc_dir(s1[0]).len(), s1.drop_first(), s2.drop_first());
        assert forall|k: int| 0 <= k < s1.len() implies dir_eq(#[trigger] s1[k], #[trigger] s2[k]) by {
            if k > 0 {
                assert(dir_eq(s1.drop_first()[k - 1], s2.drop_first()[k - 1]));
            }
        }
    }
}

impl SharedDirectory {
    /// Appends the wire encoding of this directory.
    pub fn write_to(&self, out: &mut Vec<u8>)
        requires
            wf_dir(*self),
        ensures
            final(out)@ == old(out)@ + enc_dir(*self),
    {
        write_str(out, self.path.as_str());
        write_shared_file_list(out, &self.files);
        proof {
            assert(out@ =~= old(out)@ + enc_dir(*self));
        }
    }

    /// Reads one directory.
    pub fn read_from(data: &Vec<u8>, pos: &mut usize) -> (r: Result<SharedDirectory, Error>)
        requires
            *old(pos) <= data@.len(),
        ensures
            *old(pos) <= *final(pos) <= data@.len(),
            match r {
                Ok(d) => {
                    &&& wf_dir(d)
                    &&& *final(pos) == *old(pos) + enc_dir(d).len()
                    &&& data@.subrange(*old(pos) as int, *old(pos) + enc_dir(d).len()) == enc_dir(
                        d,
                    )
                },
                Err(_) => true,
            },
            forall|g: SharedDirectory|
                wf_dir(g) && #[trigger] prefix_at(data@, *old(pos) as int, enc_dir(g)) ==> (
                r matches Ok(v) && dir_eq(v, g) && *final(pos) == *old(pos) + enc_dir(g).len()),
    {
        broadcast use crate::protocol::group_enc_facts;

        let ghost start = *pos as int;
        let path = match read_string(data, pos) {
            Ok(v) => v,
            Err(e) => {
                proof {
                    assert forall|g: SharedDirectory|
                        wf_dir(g) && #[trigger] prefix_at(
                            data@,
                            start,
                            enc_dir(g),
                        ) implies false by {
                        assert(enc_dir(g) + Seq::<u8>::empty() =~= enc_dir(g));
                        split_dir(data@, start, g, Seq::<u8>::empty());
                    }
                }
                return Err(e);
            },
        };
        let files = match read_shared_file_list(data, pos) {
            Ok(v) => v,
            Err(e) => {
                proof {
                    assert forall|g: SharedDirectory|
                        wf_dir(g) && #[trigger] prefix_at(
                            data@,
                            start,
                            enc_dir(g),
                        ) implies false by {
                        assert(enc_dir(g) + Seq::<u8>::empty() =~= enc_dir(g));
                        split_dir(data@, start, g, Seq::<u8>::empty());
                        match_str_at(data@, start, path@, g.path@);
                        crate::protocol::join_prefix(
                            data@,
                            start + enc_str(g.path@).len(),
                            enc_u32(g.files@.len() as u32),
                            enc_shared_file_seq(g.files@),
                        );
                    }
                }
                return Err(e);
            },
        };
        let d = SharedDirectory { path, files };
        proof {
            assert(data@.subrange(start, start + enc_dir(d).len()) =~= enc_dir(d));
            assert forall|g: SharedDirectory|
                wf_dir(g) && #[trigger] prefix_at(data@, start, enc_dir(g)) implies dir_eq(d, g)
                && *pos == start + enc_dir(g).len() by {
                assert(enc_dir(g) + Seq::<u8>::empty() =~= enc_dir(g));
                split_dir(data@, start, g, Seq::<u8>::empty());
                match_str_at(data@, start, path@, g.path@);
                crate::protocol::join_prefix(
                    data@,
                    start + enc_str(g.path@).len(),
                    enc_u32(g.files@.len() as u32),
                    enc_shared_file_seq(g.files@),
                );
            }
        }
        Ok(d)
    }
}

/// Appends a directory list: a `u32` count, then each directory.
pub fn write_dir_list(out: &mut Vec<u8>, items: &Vec<SharedDirectory>)
    requires
        items@.len() <= u32::MAX,
        wf_dir_seq(items@),
    ensures
        final(out)@ == old(out)@ + enc_dir_list(items@),
{
    write_u32(out, items.len() as u32);
    let mut i: usize = 0;
    proof {
        assert(items@.take(0) =~= Seq::<SharedDirectory>::empty());
    }
    while i < items.len()
        invariant
            i <= items@.len() <= u32::MAX,
            wf_dir_seq(items@),
            out@ == old(out)@ + enc_u32(items@.len() as u32) + enc_dir_seq(items@.take(i as int)),
        decreases items@.len() - i,
    {
        items[i].write_to(out);
        proof {
            lemma_enc_dir_seq_snoc(items@, i as int);
        }
        i = i + 1;
    }
    proof {
        assert(items@.take(items@.len() as int) =~= items@);
        assert(out@ =~= old(out)@ + enc_dir_list(items@));
    }
}

/// An element sequence's encoding splits at any index.
pub proof fn lemma_enc_dir_seq_split(s: Seq<SharedDirectory>, i: int)
    requires
        0 <= i <= s.len(),
    ensures
        enc_dir_seq(s) == enc_dir_seq(s.take(i)) + enc_dir_seq(s.skip(i)),
    decreases i,
{
    if i == 0 {
        assert(s.take(0) =~= Seq::<SharedDirectory>::empty());
        assert(s.skip(0) =~= s);
        assert(Seq::<u8>::empty() + enc_dir_seq(s) =~= enc_dir_seq(s));
    } else {
        lemma_enc_dir_seq_split(s, i - 1);
        lemma_enc_dir_seq_snoc(s, i - 1);
        assert(s.skip(i - 1)[0] == s[i - 1]);
        assert(s.skip(i - 1).drop_first() =~= s.skip(i));
        assert(enc_dir_seq(s.skip(i - 1)) == enc_dir(s[i - 1]) + enc_dir_seq(s.skip(i)));
        assert((enc_dir_seq(s.take(i - 1)) + enc_dir(s[i - 1])) + enc_dir_seq(s.skip(i))
            =~= enc_dir_seq(s.take(i - 1)) + (enc_dir(s[i - 1]) + enc_dir_seq(s.skip(i))));
    }
}

/// Reads a directory list: a `u32` count, then that many directories.
pub fn read_dir_list(data: &Vec<u8>, pos: &mut usize) -> (r: Result<Vec<SharedDirectory>, Error>)
    requires
        *old(pos) <= data@.len(),
    ensures
        *old(pos) <= *final(pos) <= data@.len(),
        data@.len() < *old(pos) + 4 ==> (r matches Err(e) && (e matches
        Error::BufferUnderflow { needed: 4, available } && available == data@.len() - *old(
            pos,
        ))),
        match r {
            Ok(v) => {
                &&& wf_dir_seq(v@)
                &&& v@.len() <= u32::MAX
                &&& *final(pos) == *old(pos) + enc_dir_list(v@).len()
                &&& data@.subrange(*old(pos) as int, *old(pos) + 4) == enc_u32(v@.len() as u32)
                &&& data@.subrange(*old(pos) + 4, *old(pos) + 4 + enc_dir_seq(v@).len())
                    == enc_dir_seq(v@)
                &&& enc_dir_list(v@).len() == 4 + enc_dir_seq(v@).len()
            },
            Err(_) => true,
        },
        forall|s: Seq<SharedDirectory>|
            wf_dir_seq(s) && s.len() <= u32::MAX && #[trigger] prefix_at(
                data@,
                *old(pos) as int,
                enc_dir_list(s),
            ) ==> (r matches Ok(v) && dir_seq_eq(v@, s) && *final(pos) == *old(pos) + enc_dir_list(
                s,
            ).len()),
{
    broadcast use crate::protocol::group_enc_facts;

    let ghost start = *pos as int;
    let count = match read_u32(data, pos) {
        Ok(v) => v,
        Err(e) => {
            proof {
                assert forall|s: Seq<SharedDirectory>|
                    wf_dir_seq(s) && s.len() <= u32::MAX && #[trigger] prefix_at(
                        data@,
                        start,
                        enc_dir_list(s),
                    ) implies false by {
                    split_u32(data@, start, s.len() as u32, enc_dir_seq(s));
                }
            }
            return Err(e);
        },
    };
    let mut items: Vec<SharedDirectory> = Vec::new();
    let mut i: u32 = 0;
    proof {
        assert(enc_dir_seq(items@) =~= Seq::<u8>::empty());
        assert forall|s: Seq<SharedDirectory>|
            wf_dir_seq(s) && s.len() <= u32::MAX && #[trigger] prefix_at(
                data@,
                start,
                enc_dir_list(s),
            ) implies count == s.len() && enc_dir_seq(items@) == enc_dir_seq(s.take(0)) by {
            split_u32(data@, start, s.len() as u32, enc_dir_seq(s));
            assert(s.take(0) =~= Seq::<SharedDirectory>::empty());
        }
    }
    while i < count
        invariant
            start == *old(pos) as int,
            i <= count,
            items@.len() == i,
            wf_dir_seq(items@),
            start + 4 <= *pos <= data@.len(),
            *pos == start + 4 + enc_dir_seq(items@).len(),
            data@.subrange(start, start + 4) == enc_u32(count),
            data@.subrange(start + 4, *pos as int) == enc_dir_seq(items@),
            forall|s: Seq<SharedDirectory>|
                wf_dir_seq(s) && s.len() <= u32::MAX && #[trigger] prefix_at(
                    data@,
                    start,
                    enc_dir_list(s),
                ) ==> (count == s.len() && dir_seq_eq(items@, s.take(i as int)) && enc_dir_seq(
                    items@,
                ) == enc_dir_seq(s.take(i as int))),
        decreases count - i,
    {
        broadcast use crate::protocol::group_enc_facts;

        proof {
            assert forall|s: Seq<SharedDirectory>|
                wf_dir_seq(s) && s.len() <= u32::MAX && #[trigger] prefix_at(
                    data@,
                    start,
                    enc_dir_list(s),
                ) implies prefix_at(data@, *pos as int, enc_dir(s[i as int])) && wf_dir(
                s[i as int],
            ) by {
                split_u32(data@, start, s.len() as u32, enc_dir_seq(s));
                lemma_enc_dir_seq_split(s, i as int);
                take_prefix_at(
                    data@,
                    start + 4,
                    start + 4 + enc_dir_seq(s).len(),
                    enc_dir_seq(s.take(i as int)),
                    enc_dir_seq(s.skip(i as int)),
                );
                assert(s.skip(i as int)[0] == s[i as int]);
                assert(enc_dir_seq(s.skip(i as int)) == enc_dir(s[i as int]) + enc_dir_seq(
                    s.skip(i as int).drop_first(),
                ));
                take_prefix_at(
                    data@,
                    start + 4 + enc_dir_seq(s.take(i as int)).len(),
                    start + 4 + enc_dir_seq(s).len(),
                    enc_dir(s[i as int]),
                    enc_dir_seq(s.skip(i as int).drop_first()),
                );
            }
        }
        let ghost items_old = items@;
        let ghost pos_old = *pos as int;
        let f = match SharedDirectory::read_from(data, pos) {
            Ok(v) => v,
            Err(e) => {
                proof {
                    assert forall|s: Seq<SharedDirectory>|
                        wf_dir_seq(s) && s.len() <= u32::MAX && #[trigger] prefix_at(
                            data@,
                            start,
                            enc_dir_list(s),
                        ) implies false by {}
                }
                return Err(e);
            },
        };
        items.push(f);
        i = i + 1;
        proof {
            assert(items@ =~= items_old.push(f));
            assert(items@.take(items_old.len() as int) =~= items_old);
            lemma_enc_dir_seq_snoc(items@, items_old.len() as int);
            assert(items@.take(items_old.len() as int + 1) =~= items@);
            assert(data@.subrange(start + 4, *pos as int) =~= enc_dir_seq(items_old) + enc_dir(f));
            assert(wf_dir_seq(items@)) by {
                assert(forall|k: int|
                    0 <= k < items_old.len() ==> #[trigger] items@[k] == items_old[k]);
            }
            assert forall|s: Seq<SharedDirectory>|
                wf_dir_seq(s) && s.len() <= u32::MAX && #[trigger] prefix_at(
                    data@,
                    start,
                    enc_dir_list(s),
                ) implies dir_seq_eq(items@, s.take(i as int)) && enc_dir_seq(items@) == enc_dir_seq(
                s.take(i as int),
            ) by {
                split_u32(data@, start, s.len() as u32, enc_dir_seq(s));
                lemma_enc_dir_seq_split(s, i as int);
                take_prefix_at(
                    data@,
                    start + 4,
                    start + 4 + enc_dir_seq(s).len(),
                    enc_dir_seq(s.take(i as int)),
                    enc_dir_seq(s.skip(i as int)),
                );
                assert(s.take(i as int) =~= s.take(i - 1).push(s[i - 1]));
                assert forall|k: int| 0 <= k < i implies dir_eq(
                    #[trigger] items@[k],
                    #[trigger] s.take(i as int)[k],
                ) by {
                    if k < i - 1 {
                        assert(dir_eq(items_old[k], s.take(i - 1)[k]));
                    }
                }
                lemma_enc_dir_seq_snoc(s, i - 1);
                assert(enc_dir_seq(s.take(i as int)).len() == enc_dir_seq(s.take(i - 1)).len()
                    + enc_dir(s[i - 1]).len());
                assert(data@.subrange(start + 4, start + 4 + enc_dir_seq(s.take(i as int)).len())
                    == enc_dir_seq(s.take(i as int)));
                assert(enc_dir_seq(items@) =~= data@.subrange(
                    start + 4,
                    start + 4 + enc_dir_seq(s.take(i as int)).len(),
                ));
            }
        }
    }
    proof {
        assert(count == items@.len() as u32);
        assert forall|s: Seq<SharedDirectory>|
            wf_dir_seq(s) && s.len() <= u32::MAX && #[trigger] prefix_at(
                data@,
                start,
                enc_dir_list(s),
            ) implies dir_seq_eq(items@, s) && *pos == start + enc_dir_list(s).len() by {
            assert(s.take(s.len() as int) =~= s);
        }
    }
    Ok(items)
}


// ---------------------------------------------------------------------------
// Peer messages.
// ---------------------------------------------------------------------------

/// Peer messages.
#[derive(Debug, Clone)]
pub enum PeerMessage {
    /// Request the shared file list.
    SharedFileListRequest,
    /// Response with the shared file list (zlib payload).
    SharedFileListResponse {
        directories: Vec<SharedDirectory>,
        private_directories: Vec<SharedDirectory>,
    },
    /// File search response (zlib payload).
    FileSearchResponse {
        username: String,
        token: u32,
        results: Vec<SearchResultFile>,
        slot_free: bool,
        avg_speed: u32,
        queue_length: u32,
        private_results: Vec<SearchResultFile>,
    },
    /// Request user info.
    UserInfoRequest,
    /// Response with user info.
    UserInfoResponse {
        description: String,
        picture: Option<Vec<u8>>,
        total_uploads: u32,
        queue_size: u32,
        slots_free: bool,
        upload_permitted: Option<UploadPermission>,
    },
    /// Request folder contents.
    FolderContentsRequest { token: u32, folder: String },
    /// Response with folder contents (zlib payload).
    FolderContentsResponse { token: u32, folder: String, directories: Vec<SharedDirectory> },
    /// Transfer request (upload ready).
    TransferRequest {
        direction: TransferDirection,
        token: u32,
        filename: String,
        file_size: Option<u64>,
    },
    /// Transfer response (accept or reject).
    TransferResponse {
        token: u32,
        allowed: bool,
        file_size: Option<u64>,
        reason: Option<TransferRejectionReason>,
    },
    /// Queue an upload.
    QueueUpload { filename: String },
    /// Place in queue response.
    PlaceInQueueResponse { filename: String, place: u32 },
    /// Upload failed notification.
    UploadFailed { filename: String },
    /// Upload denied.
    UploadDenied { filename: String, reason: TransferRejectionReason },
    /// Request place in queue.
    PlaceInQueueRequest { filename: String },
    /// Upload queue notification (deprecated).
    UploadQueueNotification,
}

pub open spec fn peer_code(m: PeerMessage) -> PeerCode {
    match m {
        PeerMessage::SharedFileListRequest => PeerCode::SharedFileListRequest,
        PeerMessage::SharedFileListResponse { .. } => PeerCode::SharedFileListResponse,
        PeerMessage::FileSearchResponse { .. } => PeerCode::FileSearchResponse,
        PeerMessage::UserInfoRequest => PeerCode::UserInfoRequest,
        PeerMessage::UserInfoResponse { .. } => PeerCode::UserInfoResponse,
        PeerMessage::FolderContentsRequest { .. } => PeerCode::FolderContentsRequest,
        PeerMessage::FolderContentsResponse { .. } => PeerCode::FolderContentsResponse,
        PeerMessage::TransferRequest { .. } => PeerCode::TransferRequest,
        PeerMessage::TransferResponse { .. } => PeerCode::TransferResponse,
        PeerMessage::QueueUpload { .. } => PeerCode::QueueUpload,
        PeerMessage::PlaceInQueueResponse { .. } => PeerCode::PlaceInQueueResponse,
        PeerMessage::UploadFailed { .. } => PeerCode::UploadFailed,
        PeerMessage::UploadDenied { .. } => PeerCode::UploadDenied,
        PeerMessage::PlaceInQueueRequest { .. } => PeerCode::PlaceInQueueRequest,
        PeerMessage::UploadQueueNotification => PeerCode::UploadQueueNotification,
    }
}

/// Structural bounds that let a message be framed, together with the
/// agreement conditions that make decoding invert encoding: a transfer
/// request for a download carries no size, and a transfer response
/// carries a size only when it allows and a reason only when it denies.
pub open spec fn wf_peer(m: PeerMessage) -> bool {
    match m {
        PeerMessage::SharedFileListRequest => true,
        PeerMessage::SharedFileListResponse { directories, private_directories } => {
            &&& directories@.len() <= u32::MAX
            &&& wf_dir_seq(directories@)
            &&& private_directories@.len() <= u32::MAX
            &&& wf_dir_seq(private_directories@)
        },
        PeerMessage::FileSearchResponse {
            username,
            results,
            private_results,
            ..
        } => {
            &&& str_fits(username@)
            &&& results@.len() <= u32::MAX
            &&& wf_result_file_seq(results@)
            &&& private_results@.len() <= u32::MAX
            &&& wf_result_file_seq(private_results@)
        },
        PeerMessage::UserInfoRequest => true,
        PeerMessage::UserInfoResponse { description, picture, .. } => {
            &&& str_fits(description@)
            &&& match picture {
                Some(p) => bytes_fit(p@),
                None => true,
            }
        },
        PeerMessage::FolderContentsRequest { folder, .. } => str_fits(folder@),
        PeerMessage::FolderContentsResponse { folder, directories, .. } => {
            &&& str_fits(folder@)
            &&& directories@.len() <= u32::MAX
            &&& wf_dir_seq(directories@)
        },
        PeerMessage::TransferRequest { direction, filename, file_size, .. } => {
            &&& str_fits(filename@)
            &&& (direction is Download ==> file_size is None)
        },
        PeerMessage::TransferResponse { allowed, file_size, reason, .. } => {
            &&& (allowed ==> reason is None)
            &&& (!allowed ==> file_size is None)
            &&& match reason {
                Some(r) => wf_rejection(r) && str_fits(rejection_chars(r)),
                None => true,
            }
        },
        PeerMessage::QueueUpload { filename } => str_fits(filename@),
        PeerMessage::PlaceInQueueResponse { filename, .. } => str_fits(filename@),
        PeerMessage::UploadFailed { filename } => str_fits(filename@),
        PeerMessage::UploadDenied { filename, reason } => str_fits(filename@) && wf_rejection(
            reason,
        ) && str_fits(rejection_chars(reason)),
        PeerMessage::PlaceInQueueRequest { filename } => str_fits(filename@),
        PeerMessage::UploadQueueNotification => true,
    }
}

/// The uncompressed body of a `SharedFileListResponse`.
pub open spec fn shared_list_inner(
    directories: Seq<SharedDirectory>,
    private_directories: Seq<SharedDirectory>,
) -> Seq<u8> {
    enc_dir_list(directories) + (enc_u32(0) + enc_dir_list(private_directories))
}

/// The uncompressed body of a `FileSearchResponse`.
pub open spec fn search_inner(
    username: Seq<char>,
    token: u32,
    results: Seq<SearchResultFile>,
    slot_free: bool,
    avg_speed: u32,
    queue_length: u32,
    private_results: Seq<SearchResultFile>,
) -> Seq<u8> {
    enc_str(username) + (enc_u32(token) + (enc_result_file_list(results) + (enc_bool(slot_free) + (
    enc_u32(avg_speed) + (enc_u32(queue_length) + (enc_u32(0) + enc_result_file_list(
        private_results,
    )))))))
}

/// The uncompressed body of a `FolderContentsResponse`.
pub open spec fn folder_inner(
    token: u32,
    folder: Seq<char>,
    directories: Seq<SharedDirectory>,
) -> Seq<u8> {
    enc_u32(token) + (enc_str(folder) + enc_dir_list(directories))
}

/// The payload bytes of a peer message: what follows the `u32` code.
pub open spec fn peer_payload(m: PeerMessage) -> Seq<u8> {
    match m {
        PeerMessage::SharedFileListRequest => Seq::empty(),
        PeerMessage::SharedFileListResponse { directories, private_directories } => zlib_deflate(
            shared_list_inner(directories@, private_directories@),
        ),
        PeerMessage::FileSearchResponse {
            username,
            token,
            results,
            slot_free,
            avg_speed,
            queue_length,
            private_results,
        } => zlib_deflate(
            search_inner(
                username@,
                token,
                results@,
                slot_free,
                avg_speed,
                queue_length,
                private_results@,
            ),
        ),
        PeerMessage::UserInfoRequest => Seq::empty(),
        PeerMessage::UserInfoResponse {
            description,
            picture,
            total_uploads,
            queue_size,
            slots_free,
            upload_permitted,
        } => enc_str(description@) + ((match picture {
            Some(p) => enc_bool(true) + enc_bytes(p@),
            None => enc_bool(false),
        }) + (enc_u32(total_uploads) + (enc_u32(queue_size) + (enc_bool(slots_free) + (
        match upload_permitted {
            Some(perm) => enc_u32(upload_permission_u32(perm)),
            None => Seq::empty(),
        }))))),
        PeerMessage::FolderContentsRequest { token, folder } => enc_u32(token) + enc_str(folder@),
        PeerMessage::FolderContentsResponse { token, folder, directories } => zlib_deflate(
            folder_inner(token, folder@, directories@),
        ),
        PeerMessage::TransferRequest { direction, token, filename, file_size } => enc_u32(
            transfer_direction_u32(direction),
        ) + (enc_u32(token) + (enc_str(filename@) + (match file_size {
            Some(s) => enc_u64(s),
            None => Seq::empty(),
        }))),
        PeerMessage::TransferResponse { token, allowed, file_size, reason } => enc_u32(token) + (
        enc_bool(allowed) + (if allowed {
            match file_size {
                Some(s) => enc_u64(s),
                None => Seq::empty(),
            }
        } else {
            match reason {
                Some(r) => enc_str(rejection_chars(r)),
                None => Seq::empty(),
            }
        })),
        PeerMessage::QueueUpload { filename } => enc_str(filename@),
        PeerMessage::PlaceInQueueResponse { filename, place } => enc_str(filename@) + enc_u32(
            place,
        ),
        PeerMessage::UploadFailed { filename } => enc_str(filename@),
        PeerMessage::UploadDenied { filename, reason } => enc_str(filename@) + enc_str(
            rejection_chars(reason),
        ),
        PeerMessage::PlaceInQueueRequest { filename } => enc_str(filename@),
        PeerMessage::UploadQueueNotification => Seq::empty(),
    }
}

/// The complete frame of a peer message.
pub open spec fn peer_frame(m: PeerMessage) -> Seq<u8> {
    frame_u32(peer_code_u32(peer_code(m)), peer_payload(m))
}

/// Equality of peer messages up to string, list and byte contents.
pub open spec fn peer_eq(a: PeerMessage, b: PeerMessage) -> bool {
    match (a, b) {
        (PeerMessage::SharedFileListRequest, PeerMessage::SharedFileListRequest) => true,
        (
            PeerMessage::SharedFileListResponse { directories: d1, private_directories: p1 },
            PeerMessage::SharedFileListResponse { directories: d2, private_directories: p2 },
        ) => dir_seq_eq(d1@, d2@) && dir_seq_eq(p1@, p2@),
        (
            PeerMessage::FileSearchResponse {
                username: u1,
                token: t1,
                results: r1,
                slot_free: s1,
                avg_speed: a1,
                queue_length: q1,
                private_results: p1,
            },
            PeerMessage::FileSearchResponse {
                username: u2,
                token: t2,
                results: r2,
                slot_free: s2,
                avg_speed: a2,
                queue_length: q2,
                private_results: p2,
            },
        ) => u1@ == u2@ && t1 == t2 && result_file_seq_eq(r1@, r2@) && s1 == s2 && a1 == a2 && q1
            == q2 && result_file_seq_eq(p1@, p2@),
        (PeerMessage::UserInfoRequest, PeerMessage::UserInfoRequest) => true,
        (
            PeerMessage::UserInfoResponse {
                description: d1,
                picture: p1,
                total_uploads: t1,
                queue_size: q1,
                slots_free: s1,
                upload_permitted: u1,
            },
            PeerMessage::UserInfoResponse {
                description: d2,
                picture: p2,
                total_uploads: t2,
                queue_size: q2,
                slots_free: s2,
                upload_permitted: u2,
            },
        ) => d1@ == d2@ && (match (p1, p2) {
            (Some(x1), Some(x2)) => x1@ == x2@,
            (None, None) => true,
            _ => false,
        }) && t1 == t2 && q1 == q2 && s1 == s2 && u1 == u2,
        (
            PeerMessage::FolderContentsRequest { token: t1, folder: f1 },
            PeerMessage::FolderContentsRequest { token: t2, folder: f2 },
        ) => t1 == t2 && f1@ == f2@,
        (
            PeerMessage::FolderContentsResponse { token: t1, folder: f1, directories: d1 },
            PeerMessage::FolderContentsResponse { token: t2, folder: f2, directories: d2 },
        ) => t1 == t2 && f1@ == f2@ && dir_seq_eq(d1@, d2@),
        (
            PeerMessage::TransferRequest {
                direction: dr1,
                token: t1,
                filename: f1,
                file_size: s1,
            },
            PeerMessage::TransferRequest {
                direction: dr2,
                token: t2,
                filename: f2,
                file_size: s2,
            },
        ) => dr1 == dr2 && t1 == t2 && f1@ == f2@ && s1 == s2,
        (
            PeerMessage::TransferResponse { token: t1, allowed: a1, file_size: s1, reason: r1 },
            PeerMessage::TransferResponse { token: t2, allowed: a2, file_size: s2, reason: r2 },
        ) => t1 == t2 && a1 == a2 && s1 == s2 && (match (r1, r2) {
            (Some(x1), Some(x2)) => rejection_chars(x1) == rejection_chars(x2) && (x1 is Other
                <==> x2 is Other),
            (None, None) => true,
            _ => false,
        }),
        (
            PeerMessage::QueueUpload { filename: f1 },
            PeerMessage::QueueUpload { filename: f2 },
        ) => f1@ == f2@,
        (
            PeerMessage::PlaceInQueueResponse { filename: f1, place: p1 },
            PeerMessage::PlaceInQueueResponse { filename: f2, place: p2 },
        ) => f1@ == f2@ && p1 == p2,
        (
            PeerMessage::UploadFailed { filename: f1 },
            PeerMessage::UploadFailed { filename: f2 },
        ) => f1@ == f2@,
        (
            PeerMessage::UploadDenied { filename: f1, reason: r1 },
            PeerMessage::UploadDenied { filename: f2, reason: r2 },
        ) => f1@ == f2@ && rejection_chars(r1) == rejection_chars(r2) && (r1 is Other <==> r2
            is Other),
        (
            PeerMessage::PlaceInQueueRequest { filename: f1 },
            PeerMessage::PlaceInQueueRequest { filename: f2 },
        ) => f1@ == f2@,
        (PeerMessage::UploadQueueNotification, PeerMessage::UploadQueueNotification) => true,
        _ => false,
    }
}

impl PeerMessage {
    /// The code of this message.
    pub fn code(&self) -> (r: PeerCode)
        ensures
            r == peer_code(*self),
    {
        match self {
            PeerMessage::SharedFileListRequest => PeerCode::SharedFileListRequest,
            PeerMessage::SharedFileListResponse { .. } => PeerCode::SharedFileListResponse,
            PeerMessage::FileSearchResponse { .. } => PeerCode::FileSearchResponse,
            PeerMessage::UserInfoRequest => PeerCode::UserInfoRequest,
            PeerMessage::UserInfoResponse { .. } => PeerCode::UserInfoResponse,
            PeerMessage::FolderContentsRequest { .. } => PeerCode::FolderContentsRequest,
            PeerMessage::FolderContentsResponse { .. } => PeerCode::FolderContentsResponse,
            PeerMessage::TransferRequest { .. } => PeerCode::TransferRequest,
            PeerMessage::TransferResponse { .. } => PeerCode::TransferResponse,
            PeerMessage::QueueUpload { .. } => PeerCode::QueueUpload,
            PeerMessage::PlaceInQueueResponse { .. } => PeerCode::PlaceInQueueResponse,
            PeerMessage::UploadFailed { .. } => PeerCode::UploadFailed,
            PeerMessage::UploadDenied { .. } => PeerCode::UploadDenied,
            PeerMessage::PlaceInQueueRequest { .. } => PeerCode::PlaceInQueueRequest,
            PeerMessage::UploadQueueNotification => PeerCode::UploadQueueNotification,
        }
    }
}

/// Appends the payload of `msg` (no length prefix, no code). For the
/// three zlib messages this is the compressed body.
#[verifier::rlimit(100)]
pub fn write_peer_payload(msg: &PeerMessage, out: &mut Vec<u8>)
    requires
        wf_peer(*msg),
    ensures
        final(out)@ == old(out)@ + peer_payload(*msg),
{
    match msg {
        PeerMessage::SharedFileListRequest => {
            proof {
                assert(out@ =~= old(out)@ + peer_payload(*msg));
            }
        },
        PeerMessage::SharedFileListResponse { directories, private_directories } => {
            let mut inner: Vec<u8> = Vec::new();
            write_dir_list(&mut inner, directories);
            write_u32(&mut inner, 0);
            write_dir_list(&mut inner, private_directories);
            proof {
                assert(inner@ =~= shared_list_inner(directories@, private_directories@));
            }
            let mut compressed = zlib_compress(&inner);
            out.append(&mut compressed);
        },
        PeerMessage::FileSearchResponse {
            username,
            token,
            results,
            slot_free,
            avg_speed,
            queue_length,
            private_results,
        } => {
            let mut inner: Vec<u8> = Vec::new();
            write_str(&mut inner, username.as_str());
            write_u32(&mut inner, *token);
            write_result_file_list(&mut inner, results);
            write_bool(&mut inner, *slot_free);
            write_u32(&mut inner, *avg_speed);
            write_u32(&mut inner, *queue_length);
            write_u32(&mut inner, 0);
            write_result_file_list(&mut inner, private_results);
            proof {
                assert(inner@ =~= search_inner(
                    username@,
                    *token,
                    results@,
                    *slot_free,
                    *avg_speed,
                    *queue_length,
                    private_results@,
                ));
            }
            let mut compressed = zlib_compress(&inner);
            out.append(&mut compressed);
        },
        PeerMessage::UserInfoRequest => {
            proof {
                assert(out@ =~= old(out)@ + peer_payload(*msg));
            }
        },
        PeerMessage::UserInfoResponse {
            description,
            picture,
            total_uploads,
            queue_size,
            slots_free,
            upload_permitted,
        } => {
            write_str(out, description.as_str());
            match picture {
                Some(p) => {
                    write_bool(out, true);
                    write_bytes(out, p);
                },
                None => {
                    write_bool(out, false);
                },
            }
            write_u32(out, *total_uploads);
            write_u32(out, *queue_size);
            write_bool(out, *slots_free);
            match upload_permitted {
                Some(perm) => {
                    write_u32(out, perm.as_u32());
                },
                None => {},
            }
            proof {
                assert(out@ =~= old(out)@ + peer_payload(*msg));
            }
        },
        PeerMessage::FolderContentsRequest { token, folder } => {
            write_u32(out, *token);
            write_str(out, folder.as_str());
            proof {
                assert(out@ =~= old(out)@ + peer_payload(*msg));
            }
        },
        PeerMessage::FolderContentsResponse { token, folder, directories } => {
            let mut inner: Vec<u8> = Vec::new();
            write_u32(&mut inner, *token);
            write_str(&mut inner, folder.as_str());
            write_dir_list(&mut inner, directories);
            proof {
                assert(inner@ =~= folder_inner(*token, folder@, directories@));
            }
            let mut compressed = zlib_compress(&inner);
            out.append(&mut compressed);
        },
        PeerMessage::TransferRequest { direction, token, filename, file_size } => {
            write_u32(out, direction.as_u32());
            write_u32(out, *token);
            write_str(out, filename.as_str());
            match file_size {
                Some(s) => {
                    write_u64(out, *s);
                },
                None => {},
            }
            proof {
                assert(out@ =~= old(out)@ + peer_payload(*msg));
            }
        },
        PeerMessage::TransferResponse { token, allowed, file_size, reason } => {
            write_u32(out, *token);
            write_bool(out, *allowed);
            if *allowed {
                match file_size {
                    Some(s) => {
                        write_u64(out, *s);
                    },
                    None => {},
                }
            } else {
                match reason {
                    Some(r) => {
                        write_str(out, r.as_str());
                    },
                    None => {},
                }
            }
            proof {
                assert(out@ =~= old(out)@ + peer_payload(*msg));
            }
        },
        PeerMessage::QueueUpload { filename } => {
            write_str(out, filename.as_str());
        },
        PeerMessage::PlaceInQueueResponse { filename, place } => {
            write_str(out, filename.as_str());
            write_u32(out, *place);
            proof {
                assert(out@ =~= old(out)@ + peer_payload(*msg));
            }
        },
        PeerMessage::UploadFailed { filename } => {
            write_str(out, filename.as_str());
        },
        PeerMessage::UploadDenied { filename, reason } => {
            write_str(out, filename.as_str());
            write_str(out, reason.as_str());
            proof {
                assert(out@ =~= old(out)@ + peer_payload(*msg));
            }
        },
        PeerMessage::PlaceInQueueRequest { filename } => {
            write_str(out, filename.as_str());
        },
        PeerMessage::UploadQueueNotification => {
            proof {
                assert(out@ =~= old(out)@ + peer_payload(*msg));
            }
        },
    }
}

/// Appends the complete frame of `msg`: length prefix, code, payload.
/// Fails, leaving `out` untouched, only when the payload is too large
/// for the `u32` length prefix.
pub fn write_peer_message(msg: &PeerMessage, out: &mut Vec<u8>) -> (r: Result<(), Error>)
    requires
        wf_peer(*msg),
    ensures
        match r {
            Ok(()) => frame_fits_u32(peer_payload(*msg)) && final(out)@ == old(out)@ + peer_frame(
                *msg,
            ),
            Err(_) => !frame_fits_u32(peer_payload(*msg)) && final(out)@ == old(out)@,
        },
{
    let mut payload: Vec<u8> = Vec::new();
    write_peer_payload(msg, &mut payload);
    if payload.len() > u32::MAX as usize - 4 {
        return Err(Error::Protocol(String::from_str("message too large to frame")));
    }
    write_u32(out, 4 + payload.len() as u32);
    write_u32(out, msg.code().as_u32());
    write_raw(out, &payload);
    proof {
        assert(out@ =~= old(out)@ + peer_frame(*msg));
    }
    Ok(())
}


// ---------------------------------------------------------------------------
// Reading peer messages.
// ---------------------------------------------------------------------------

/// Splits a peer frame at offset `i` into its parts.
proof fn peer_frame_parts(data: Seq<u8>, i: int, m: PeerMessage)
    requires
        wf_peer(m),
        frame_fits_u32(peer_payload(m)),
        prefix_at(data, i, peer_frame(m)),
    ensures
        i + 8 + peer_payload(m).len() <= data.len(),
        data.subrange(i, i + 4) == enc_u32((4 + peer_payload(m).len()) as u32),
        data.subrange(i + 4, i + 8) == enc_u32(peer_code_u32(peer_code(m))),
        prefix_at(data, i + 8, peer_payload(m)),
        peer_frame(m).len() == 8 + peer_payload(m).len(),
{
    broadcast use crate::protocol::group_enc_facts;

    let pl = peer_payload(m);
    let code = peer_code_u32(peer_code(m));
    take_prefix_at(
        data,
        i,
        i + peer_frame(m).len(),
        enc_u32((4 + pl.len()) as u32),
        enc_u32(code) + pl,
    );
    split_u32(data, i + 4, code, pl);
}

/// The split chain for a `FileSearchResponse` body.
proof fn search_inner_parts(
    inner: Seq<u8>,
    username: Seq<char>,
    token: u32,
    results: Seq<SearchResultFile>,
    slot_free: bool,
    avg_speed: u32,
    queue_length: u32,
    private_results: Seq<SearchResultFile>,
)
    requires
        str_fits(username),
        results.len() <= u32::MAX,
        wf_result_file_seq(results),
        private_results.len() <= u32::MAX,
        wf_result_file_seq(private_results),
        inner == search_inner(
            username,
            token,
            results,
            slot_free,
            avg_speed,
            queue_length,
            private_results,
        ),
    ensures
        ({
            let a1 = enc_str(username).len() as int;
            let a2 = a1 + 4;
            let a3 = a2 + 4 + enc_result_file_seq(results).len();
            let a4 = a3 + 13;
            let a5 = a4 + 4 + enc_result_file_seq(private_results).len();
            &&& inner.subrange(0, 4) == enc_u32(encode_utf8(username).len() as u32)
            &&& inner.subrange(4, a1) == encode_utf8(username)
            &&& str_starts_at(inner, 0)
            &&& inner.subrange(a1, a2) == enc_u32(token)
            &&& inner.subrange(a2, a2 + 4) == enc_u32(results.len() as u32)
            &&& inner.subrange(a2 + 4, a3) == enc_result_file_seq(results)
            &&& inner[a3] == (if slot_free { 1u8 } else { 0u8 })
            &&& inner.subrange(a3 + 1, a3 + 5) == enc_u32(avg_speed)
            &&& inner.subrange(a3 + 5, a3 + 9) == enc_u32(queue_length)
            &&& inner.subrange(a3 + 9, a3 + 13) == enc_u32(0)
            &&& inner.subrange(a4, a4 + 4) == enc_u32(private_results.len() as u32)
            &&& inner.subrange(a4 + 4, a5) == enc_result_file_seq(private_results)
            &&& a5 == inner.len()
        }),
{
    broadcast use crate::protocol::group_enc_facts;

    let r1 = enc_u32(token) + (enc_result_file_list(results) + (enc_bool(slot_free) + (enc_u32(
        avg_speed,
    ) + (enc_u32(queue_length) + (enc_u32(0) + enc_result_file_list(private_results))))));
    assert(prefix_at(inner, 0, enc_str(username) + r1)) by {
        assert(inner.subrange(0, inner.len() as int) =~= inner);
    }
    split_str(inner, 0, username, r1);
    let a1 = enc_str(username).len() as int;
    split_u32(
        inner,
        a1,
        token,
        enc_result_file_list(results) + (enc_bool(slot_free) + (enc_u32(avg_speed) + (enc_u32(
            queue_length,
        ) + (enc_u32(0) + enc_result_file_list(private_results))))),
    );
    let a2 = a1 + 4;
    assert(enc_result_file_list(results) + (enc_bool(slot_free) + (enc_u32(avg_speed) + (enc_u32(
        queue_length,
    ) + (enc_u32(0) + enc_result_file_list(private_results))))) =~= enc_u32(results.len() as u32)
        + (enc_result_file_seq(results) + (enc_bool(slot_free) + (enc_u32(avg_speed) + (enc_u32(
        queue_length,
    ) + (enc_u32(0) + enc_result_file_list(private_results)))))));
    split_u32(
        inner,
        a2,
        results.len() as u32,
        enc_result_file_seq(results) + (enc_bool(slot_free) + (enc_u32(avg_speed) + (enc_u32(
            queue_length,
        ) + (enc_u32(0) + enc_result_file_list(private_results))))),
    );
    take_prefix_at(
        inner,
        a2 + 4,
        inner.len() as int,
        enc_result_file_seq(results),
        enc_bool(slot_free) + (enc_u32(avg_speed) + (enc_u32(queue_length) + (enc_u32(0)
            + enc_result_file_list(private_results)))),
    );
    let a3 = a2 + 4 + enc_result_file_seq(results).len();
    split_bool(
        inner,
        a3,
        slot_free,
        enc_u32(avg_speed) + (enc_u32(queue_length) + (enc_u32(0) + enc_result_file_list(
            private_results,
        ))),
    );
    split_u32(
        inner,
        a3 + 1,
        avg_speed,
        enc_u32(queue_length) + (enc_u32(0) + enc_result_file_list(private_results)),
    );
    split_u32(inner, a3 + 5, queue_length, enc_u32(0) + enc_result_file_list(private_results));
    split_u32(inner, a3 + 9, 0, enc_result_file_list(private_results));
    let a4 = a3 + 13;
    assert(enc_result_file_list(private_results) =~= enc_u32(private_results.len() as u32) + (
    enc_result_file_seq(private_results) + Seq::<u8>::empty()));
    split_u32(inner, a4, private_results.len() as u32, enc_result_file_seq(private_results)
        + Seq::<u8>::empty());
    take_prefix_at(
        inner,
        a4 + 4,
        inner.len() as int,
        enc_result_file_seq(private_results),
        Seq::<u8>::empty(),
    );
}

/// The split chain for a `SharedFileListResponse` body.
proof fn shared_list_inner_parts(
    inner: Seq<u8>,
    directories: Seq<SharedDirectory>,
    private_directories: Seq<SharedDirectory>,
)
    requires
        directories.len() <= u32::MAX,
        wf_dir_seq(directories),
        private_directories.len() <= u32::MAX,
        wf_dir_seq(private_directories),
        inner == shared_list_inner(directories, private_directories),
    ensures
        ({
            let a1 = 4 + enc_dir_seq(directories).len() as int;
            let a2 = a1 + 4;
            let a3 = a2 + 4 + enc_dir_seq(private_directories).len();
            &&& inner.subrange(0, 4) == enc_u32(directories.len() as u32)
            &&& inner.subrange(4, a1) == enc_dir_seq(directories)
            &&& inner.subrange(a1, a2) == enc_u32(0)
            &&& inner.subrange(a2, a2 + 4) == enc_u32(private_directories.len() as u32)
            &&& inner.subrange(a2 + 4, a3) == enc_dir_seq(private_directories)
            &&& a3 == inner.len()
        }),
{
    broadcast use crate::protocol::group_enc_facts;

    assert(prefix_at(inner, 0, enc_u32(directories.len() as u32) + (enc_dir_seq(directories) + (
    enc_u32(0) + enc_dir_list(private_directories))))) by {
        assert(inner.subrange(0, inner.len() as int) =~= inner);
        assert(enc_dir_list(directories) + (enc_u32(0) + enc_dir_list(private_directories))
            =~= enc_u32(directories.len() as u32) + (enc_dir_seq(directories) + (enc_u32(0)
            + enc_dir_list(private_directories))));
    }
    split_u32(
        inner,
        0,
        directories.len() as u32,
        enc_dir_seq(directories) + (enc_u32(0) + enc_dir_list(private_directories)),
    );
    take_prefix_at(
        inner,
        4,
        inner.len() as int,
        enc_dir_seq(directories),
        enc_u32(0) + enc_dir_list(private_directories),
    );
    let a1 = 4 + enc_dir_seq(directories).len() as int;
    split_u32(inner, a1, 0, enc_dir_list(private_directories));
    let a2 = a1 + 4;
    assert(enc_dir_list(private_directories) =~= enc_u32(private_directories.len() as u32) + (
    enc_dir_seq(private_directories) + Seq::<u8>::empty()));
    split_u32(inner, a2, private_directories.len() as u32, enc_dir_seq(private_directories)
        + Seq::<u8>::empty());
    take_prefix_at(
        inner,
        a2 + 4,
        inner.len() as int,
        enc_dir_seq(private_directories),
        Seq::<u8>::empty(),
    );
}

/// The split chain for a `FolderContentsResponse` body.
proof fn folder_inner_parts(
    inner: Seq<u8>,
    token: u32,
    folder: Seq<char>,
    directories: Seq<SharedDirectory>,
)
    requires
        str_fits(folder),
        directories.len() <= u32::MAX,
        wf_dir_seq(directories),
        inner == folder_inner(token, folder, directories),
    ensures
        ({
            let a1 = 4 + enc_str(folder).len() as int;
            let a2 = a1 + 4 + enc_dir_seq(directories).len();
            &&& inner.subrange(0, 4) == enc_u32(token)
            &&& inner.subrange(4, 8) == enc_u32(encode_utf8(folder).len() as u32)
            &&& inner.subrange(8, a1) == encode_utf8(folder)
            &&& str_starts_at(inner, 4)
            &&& inner.subrange(a1, a1 + 4) == enc_u32(directories.len() as u32)
            &&& inner.subrange(a1 + 4, a2) == enc_dir_seq(directories)
            &&& a2 == inner.len()
        }),
{
    broadcast use crate::protocol::group_enc_facts;

    assert(prefix_at(inner, 0, enc_u32(token) + (enc_str(folder) + enc_dir_list(directories))))
        by {
        assert(inner.subrange(0, inner.len() as int) =~= inner);
    }
    split_u32(inner, 0, token, enc_str(folder) + enc_dir_list(directories));
    split_str(inner, 4, folder, enc_dir_list(directories));
    let a1 = 4 + enc_str(folder).len() as int;
    assert(enc_dir_list(directories) =~= enc_u32(directories.len() as u32) + (enc_dir_seq(
        directories,
    ) + Seq::<u8>::empty()));
    split_u32(inner, a1, directories.len() as u32, enc_dir_seq(directories) + Seq::<u8>::empty());
    take_prefix_at(
        inner,
        a1 + 4,
        inner.len() as int,
        enc_dir_seq(directories),
        Seq::<u8>::empty(),
    );
}

/// The split chain for a `UserInfoResponse` payload at offset `j`.
proof fn user_info_parts(data: Seq<u8>, j: int, m: PeerMessage)
    requires
        m is UserInfoResponse,
        wf_peer(m),
        prefix_at(data, j, peer_payload(m)),
    ensures
        ({
            let desc = m->UserInfoResponse_description@;
            let pic_len = match m->UserInfoResponse_picture {
                Some(p) => 1 + enc_bytes(p@).len() as int,
                None => 1int,
            };
            let a1 = j + enc_str(desc).len();
            let a2 = a1 + pic_len;
            let a3 = a2 + 9;
            &&& data.subrange(j, j + 4) == enc_u32(encode_utf8(desc).len() as u32)
            &&& data.subrange(j + 4, a1) == encode_utf8(desc)
            &&& str_starts_at(data, j)
            &&& match m->UserInfoResponse_picture {
                Some(p) => {
                    &&& data[a1] == 1
                    &&& data.subrange(a1 + 1, a1 + 5) == enc_u32(p@.len() as u32)
                    &&& data.subrange(a1 + 5, a2) == p@
                },
                None => data[a1] == 0,
            }
            &&& data.subrange(a2, a2 + 4) == enc_u32(m->UserInfoResponse_total_uploads)
            &&& data.subrange(a2 + 4, a2 + 8) == enc_u32(m->UserInfoResponse_queue_size)
            &&& data[a2 + 8] == (if m->UserInfoResponse_slots_free {
                1u8
            } else {
                0u8
            })
            &&& match m->UserInfoResponse_upload_permitted {
                Some(perm) => {
                    &&& data.subrange(a3, a3 + 4) == enc_u32(upload_permission_u32(perm))
                    &&& a3 + 4 == j + peer_payload(m).len()
                },
                None => a3 == j + peer_payload(m).len(),
            }
            &&& j + peer_payload(m).len() <= data.len()
        }),
{
    broadcast use crate::protocol::group_enc_facts;

    let desc = m->UserInfoResponse_description@;
    let picpart = match m->UserInfoResponse_picture {
        Some(p) => enc_bool(true) + enc_bytes(p@),
        None => enc_bool(false),
    };
    let permpart = match m->UserInfoResponse_upload_permitted {
        Some(perm) => enc_u32(upload_permission_u32(perm)),
        None => Seq::<u8>::empty(),
    };
    let tail1 = picpart + (enc_u32(m->UserInfoResponse_total_uploads) + (enc_u32(
        m->UserInfoResponse_queue_size,
    ) + (enc_bool(m->UserInfoResponse_slots_free) + permpart)));
    split_str(data, j, desc, tail1);
    let a1 = j + enc_str(desc).len();
    let tail2 = enc_u32(m->UserInfoResponse_total_uploads) + (enc_u32(
        m->UserInfoResponse_queue_size,
    ) + (enc_bool(m->UserInfoResponse_slots_free) + permpart));
    match m->UserInfoResponse_picture {
        Some(p) => {
            assert(tail1 =~= enc_bool(true) + (enc_bytes(p@) + tail2));
            split_bool(data, a1, true, enc_bytes(p@) + tail2);
            assert(enc_bytes(p@) + tail2 =~= enc_u32(p@.len() as u32) + (p@ + tail2));
            split_u32(data, a1 + 1, p@.len() as u32, p@ + tail2);
            take_prefix_at(data, a1 + 5, a1 + 5 + (p@ + tail2).len(), p@, tail2);
        },
        None => {
            assert(tail1 =~= enc_bool(false) + tail2);
            split_bool(data, a1, false, tail2);
        },
    }
    let pic_len = match m->UserInfoResponse_picture {
        Some(p) => 1 + enc_bytes(p@).len() as int,
        None => 1int,
    };
    let a2 = a1 + pic_len;
    split_u32(data, a2, m->UserInfoResponse_total_uploads, enc_u32(
        m->UserInfoResponse_queue_size,
    ) + (enc_bool(m->UserInfoResponse_slots_free) + permpart));
    split_u32(data, a2 + 4, m->UserInfoResponse_queue_size, enc_bool(
        m->UserInfoResponse_slots_free,
    ) + permpart);
    split_bool(data, a2 + 8, m->UserInfoResponse_slots_free, permpart);
    let a3 = a2 + 9;
    match m->UserInfoResponse_upload_permitted {
        Some(perm) => {
            assert(permpart =~= enc_u32(upload_permission_u32(perm)) + Seq::<u8>::empty());
            split_u32(data, a3, upload_permission_u32(perm), Seq::<u8>::empty());
        },
        None => {},
    }
}

/// The split chain for a `TransferRequest` payload at offset `j`.
proof fn transfer_request_parts(data: Seq<u8>, j: int, m: PeerMessage)
    requires
        m is TransferRequest,
        wf_peer(m),
        prefix_at(data, j, peer_payload(m)),
    ensures
        ({
            let fname = m->TransferRequest_filename@;
            let a1 = j + 8 + enc_str(fname).len();
            &&& data.subrange(j, j + 4) == enc_u32(
                transfer_direction_u32(m->TransferRequest_direction),
            )
            &&& data.subrange(j + 4, j + 8) == enc_u32(m->TransferRequest_token)
            &&& data.subrange(j + 8, j + 12) == enc_u32(encode_utf8(fname).len() as u32)
            &&& data.subrange(j + 12, a1) == encode_utf8(fname)
            &&& str_starts_at(data, j + 8)
            &&& match m->TransferRequest_file_size {
                Some(s) => {
                    &&& data.subrange(a1, a1 + 8) == enc_u64(s)
                    &&& a1 + 8 == j + peer_payload(m).len()
                },
                None => a1 == j + peer_payload(m).len(),
            }
            &&& j + peer_payload(m).len() <= data.len()
        }),
{
    broadcast use crate::protocol::group_enc_facts;

    let fname = m->TransferRequest_filename@;
    let sizepart = match m->TransferRequest_file_size {
        Some(s) => enc_u64(s),
        None => Seq::<u8>::empty(),
    };
    split_u32(data, j, transfer_direction_u32(m->TransferRequest_direction), enc_u32(
        m->TransferRequest_token,
    ) + (enc_str(fname) + sizepart));
    split_u32(data, j + 4, m->TransferRequest_token, enc_str(fname) + sizepart);
    split_str(data, j + 8, fname, sizepart);
    let a1 = j + 8 + enc_str(fname).len();
    match m->TransferRequest_file_size {
        Some(s) => {
            assert(sizepart =~= enc_u64(s) + Seq::<u8>::empty());
            split_u64(data, a1, s, Seq::<u8>::empty());
        },
        None => {},
    }
}

/// The split chain for a `TransferResponse` payload at offset `j`.
proof fn transfer_response_parts(data: Seq<u8>, j: int, m: PeerMessage)
    requires
        m is TransferResponse,
        wf_peer(m),
        prefix_at(data, j, peer_payload(m)),
    ensures
        ({
            let a1 = j + 5;
            &&& data.subrange(j, j + 4) == enc_u32(m->TransferResponse_token)
            &&& data[j + 4] == (if m->TransferResponse_allowed {
                1u8
            } else {
                0u8
            })
            &&& match m->TransferResponse_file_size {
                Some(s) => {
                    &&& data.subrange(a1, a1 + 8) == enc_u64(s)
                    &&& a1 + 8 == j + peer_payload(m).len()
                },
                None => true,
            }
            &&& match m->TransferResponse_reason {
                Some(r) => {
                    &&& data.subrange(a1, a1 + 4) == enc_u32(
                        encode_utf8(rejection_chars(r)).len() as u32,
                    )
                    &&& data.subrange(a1 + 4, a1 + enc_str(rejection_chars(r)).len()) == encode_utf8(
                        rejection_chars(r),
                    )
                    &&& str_starts_at(data, a1)
                    &&& a1 + enc_str(rejection_chars(r)).len() == j + peer_payload(m).len()
                },
                None => true,
            }
            &&& (m->TransferResponse_file_size is None && m->TransferResponse_reason is None
                ==> a1 == j + peer_payload(m).len())
            &&& j + peer_payload(m).len() <= data.len()
        }),
{
    broadcast use crate::protocol::group_enc_facts;

    let tail = if m->TransferResponse_allowed {
        match m->TransferResponse_file_size {
            Some(s) => enc_u64(s),
            None => Seq::<u8>::empty(),
        }
    } else {
        match m->TransferResponse_reason {
            Some(r) => enc_str(rejection_chars(r)),
            None => Seq::<u8>::empty(),
        }
    };
    split_u32(data, j, m->TransferResponse_token, enc_bool(m->TransferResponse_allowed) + tail);
    split_bool(data, j + 4, m->TransferResponse_allowed, tail);
    let a1 = j + 5;
    if m->TransferResponse_allowed {
        match m->TransferResponse_file_size {
            Some(s) => {
                assert(tail =~= enc_u64(s) + Seq::<u8>::empty());
                split_u64(data, a1, s, Seq::<u8>::empty());
            },
            None => {},
        }
    } else {
        match m->TransferResponse_reason {
            Some(r) => {
                assert(tail =~= enc_str(rejection_chars(r)) + Seq::<u8>::empty());
                split_str(data, a1, rejection_chars(r), Seq::<u8>::empty());
            },
            None => {},
        }
    }
}






/// Two shared-file-list bodies with the same encoding hold the same
/// directories.
pub proof fn shared_list_inner_injective(
    d1: Seq<SharedDirectory>,
    p1: Seq<SharedDirectory>,
    d2: Seq<SharedDirectory>,
    p2: Seq<SharedDirectory>,
)
    requires
        d1.len() <= u32::MAX && wf_dir_seq(d1) && p1.len() <= u32::MAX && wf_dir_seq(p1),
        d2.len() <= u32::MAX && wf_dir_seq(d2) && p2.len() <= u32::MAX && wf_dir_seq(p2),
        shared_list_inner(d1, p1) == shared_list_inner(d2, p2),
    ensures
        dir_seq_eq(d1, d2),
        dir_seq_eq(p1, p2),
{
    broadcast use crate::protocol::group_enc_facts;

    let inner = shared_list_inner(d1, p1);
    shared_list_inner_parts(inner, d1, p1);
    shared_list_inner_parts(inner, d2, p2);
    assert(d1.len() == d2.len());
    match_dir_seq_at(inner, 4, d1, d2);
    assert(p1.len() == p2.len());
    match_dir_seq_at(inner, 4 + enc_dir_seq(d1).len() as int + 8, p1, p2);
}

/// Two search-response bodies with the same encoding hold the same
/// fields.
#[verifier::rlimit(60)]
pub proof fn search_inner_injective(
    u1: Seq<char>,
    t1: u32,
    r1: Seq<SearchResultFile>,
    s1: bool,
    a1: u32,
    q1: u32,
    p1: Seq<SearchResultFile>,
    u2: Seq<char>,
    t2: u32,
    r2: Seq<SearchResultFile>,
    s2: bool,
    a2: u32,
    q2: u32,
    p2: Seq<SearchResultFile>,
)
    requires
        str_fits(u1) && r1.len() <= u32::MAX && wf_result_file_seq(r1) && p1.len() <= u32::MAX
            && wf_result_file_seq(p1),
        str_fits(u2) && r2.len() <= u32::MAX && wf_result_file_seq(r2) && p2.len() <= u32::MAX
            && wf_result_file_seq(p2),
        search_inner(u1, t1, r1, s1, a1, q1, p1) == search_inner(u2, t2, r2, s2, a2, q2, p2),
    ensures
        u1 == u2 && t1 == t2 && result_file_seq_eq(r1, r2) && s1 == s2 && a1 == a2 && q1 == q2
            && result_file_seq_eq(p1, p2),
{
    broadcast use crate::protocol::group_enc_facts;

    let inner = search_inner(u1, t1, r1, s1, a1, q1, p1);
    search_inner_parts(inner, u1, t1, r1, s1, a1, q1, p1);
    search_inner_parts(inner, u2, t2, r2, s2, a2, q2, p2);
    match_str_at(inner, 0, u1, u2);
    assert(r1.len() == r2.len());
    match_result_file_seq_at(inner, enc_str(u1).len() as int + 8, r1, r2);
    assert(p1.len() == p2.len());
    match_result_file_seq_at(
        inner,
        enc_str(u1).len() as int + 8 + enc_result_file_seq(r1).len() as int + 17,
        p1,
        p2,
    );
}

/// Two folder-contents bodies with the same encoding hold the same
/// fields.
pub proof fn folder_inner_injective(
    t1: u32,
    f1: Seq<char>,
    d1: Seq<SharedDirectory>,
    t2: u32,
    f2: Seq<char>,
    d2: Seq<SharedDirectory>,
)
    requires
        str_fits(f1) && d1.len() <= u32::MAX && wf_dir_seq(d1),
        str_fits(f2) && d2.len() <= u32::MAX && wf_dir_seq(d2),
        folder_inner(t1, f1, d1) == folder_inner(t2, f2, d2),
    ensures
        t1 == t2 && f1 == f2 && dir_seq_eq(d1, d2),
{
    broadcast use crate::protocol::group_enc_facts;

    let inner = folder_inner(t1, f1, d1);
    folder_inner_parts(inner, t1, f1, d1);
    folder_inner_parts(inner, t2, f2, d2);
    match_str_at(inner, 4, f1, f2);
    assert(d1.len() == d2.len());
    match_dir_seq_at(inner, 8 + enc_str(f1).len() as int, d1, d2);
}

/// Reads and inverts a `SharedFileListResponse` body.
#[verifier::rlimit(100)]
fn read_shared_file_list_response_body(data: &Vec<u8>, pos: &mut usize, frame_end: usize, Ghost(start): Ghost<int>) -> (r: Result<
    PeerMessage,
    Error,
>)
    requires
        0 <= start,
        *old(pos) == start + 8,
        *old(pos) <= frame_end <= data@.len(),
        frame_end - start - 4 <= u32::MAX,
        data@.subrange(start, start + 4) == enc_u32((frame_end - start - 4) as u32),
        data@.subrange(start + 4, start + 8) == enc_u32(5),
    ensures
        *old(pos) <= *final(pos) <= data@.len(),
        forall|m: PeerMessage|
            wf_peer(m) && frame_fits_u32(peer_payload(m)) && #[trigger] prefix_at(
                data@,
                start,
                peer_frame(m),
            ) ==> (r matches Ok(v) && peer_eq(v, m) && *final(pos) == start + peer_frame(m).len()),
{
    broadcast use crate::protocol::group_enc_facts;

    let ghost pstart = start + 8;
    let compressed = copy_range(data, *pos, frame_end);
    *pos = frame_end;
    let inner = match zlib_decompress(&compressed) {
        Ok(v) => v,
        Err(e) => {
            proof {
            assert forall|m: PeerMessage| wf_peer(m) && frame_fits_u32(peer_payload(m)) && #[trigger] prefix_at(
                data@,
                start,
                peer_frame(m),
            ) implies false by {
                peer_frame_parts(data@, start, m);
                assert(m is SharedFileListResponse);
                assert((frame_end - start - 4) as u32 == (4 + peer_payload(m).len()) as u32);
                assert(frame_end - start - 4 == 4 + peer_payload(m).len());
                assert(compressed@ == data@.subrange(pstart, start + peer_frame(m).len()));
            }
        }
            return Err(e);
        },
    };
    let mut ipos: usize = 0;
    let directories = match read_dir_list(&inner, &mut ipos) {
        Ok(v) => v,
        Err(e) => {
            proof {
            assert forall|m: PeerMessage| wf_peer(m) && frame_fits_u32(peer_payload(m)) && #[trigger] prefix_at(
                data@,
                start,
                peer_frame(m),
            ) implies false by {
                peer_frame_parts(data@, start, m);
                assert(m is SharedFileListResponse);
                assert((frame_end - start - 4) as u32 == (4 + peer_payload(m).len()) as u32);
                assert(frame_end - start - 4 == 4 + peer_payload(m).len());
                assert(compressed@ == data@.subrange(pstart, start + peer_frame(m).len()));
                assert(inner@ == shared_list_inner(
                    m->SharedFileListResponse_directories@,
                    m->SharedFileListResponse_private_directories@,
                ));
                shared_list_inner_parts(
                    inner@,
                    m->SharedFileListResponse_directories@,
                    m->SharedFileListResponse_private_directories@,
                );
                crate::protocol::join_prefix(
                    inner@,
                    0,
                    enc_u32(m->SharedFileListResponse_directories@.len() as u32),
                    enc_dir_seq(m->SharedFileListResponse_directories@),
                );
            }
        }
            return Err(e);
        },
    };
    let _unknown = match read_u32(&inner, &mut ipos) {
        Ok(v) => v,
        Err(e) => {
            proof {
            assert forall|m: PeerMessage| wf_peer(m) && frame_fits_u32(peer_payload(m)) && #[trigger] prefix_at(
                data@,
                start,
                peer_frame(m),
            ) implies false by {
                peer_frame_parts(data@, start, m);
                assert(m is SharedFileListResponse);
                assert((frame_end - start - 4) as u32 == (4 + peer_payload(m).len()) as u32);
                assert(frame_end - start - 4 == 4 + peer_payload(m).len());
                assert(compressed@ == data@.subrange(pstart, start + peer_frame(m).len()));
                assert(inner@ == shared_list_inner(
                    m->SharedFileListResponse_directories@,
                    m->SharedFileListResponse_private_directories@,
                ));
                shared_list_inner_parts(
                    inner@,
                    m->SharedFileListResponse_directories@,
                    m->SharedFileListResponse_private_directories@,
                );
                crate::protocol::join_prefix(
                    inner@,
                    0,
                    enc_u32(m->SharedFileListResponse_directories@.len() as u32),
                    enc_dir_seq(m->SharedFileListResponse_directories@),
                );
            }
        }
            return Err(e);
        },
    };
    if ipos < inner.len() {
        let private_directories = match read_dir_list(&inner, &mut ipos) {
            Ok(v) => v,
        Err(e) => {
            proof {
            assert forall|m: PeerMessage| wf_peer(m) && frame_fits_u32(peer_payload(m)) && #[trigger] prefix_at(
                data@,
                start,
                peer_frame(m),
            ) implies false by {
                peer_frame_parts(data@, start, m);
                assert(m is SharedFileListResponse);
                assert((frame_end - start - 4) as u32 == (4 + peer_payload(m).len()) as u32);
                assert(frame_end - start - 4 == 4 + peer_payload(m).len());
                assert(compressed@ == data@.subrange(pstart, start + peer_frame(m).len()));
                assert(inner@ == shared_list_inner(
                    m->SharedFileListResponse_directories@,
                    m->SharedFileListResponse_private_directories@,
                ));
                shared_list_inner_parts(
                    inner@,
                    m->SharedFileListResponse_directories@,
                    m->SharedFileListResponse_private_directories@,
                );
                crate::protocol::join_prefix(
                    inner@,
                    0,
                    enc_u32(m->SharedFileListResponse_directories@.len() as u32),
                    enc_dir_seq(m->SharedFileListResponse_directories@),
                );
                crate::protocol::join_prefix(
                    inner@,
                    8 + enc_dir_seq(m->SharedFileListResponse_directories@).len() as int,
                    enc_u32(m->SharedFileListResponse_private_directories@.len() as u32),
                    enc_dir_seq(m->SharedFileListResponse_private_directories@),
                );
            }
        }
            return Err(e);
        },
        };
        let v = PeerMessage::SharedFileListResponse { directories, private_directories };
        proof {
            assert forall|m: PeerMessage| wf_peer(m) && frame_fits_u32(peer_payload(m)) && #[trigger] prefix_at(
                data@,
                start,
                peer_frame(m),
            ) implies peer_eq(v, m) && *pos == start + peer_frame(m).len() by {
                peer_frame_parts(data@, start, m);
                assert(m is SharedFileListResponse);
                assert((frame_end - start - 4) as u32 == (4 + peer_payload(m).len()) as u32);
                assert(frame_end - start - 4 == 4 + peer_payload(m).len());
                assert(compressed@ == data@.subrange(pstart, start + peer_frame(m).len()));
                assert(inner@ == shared_list_inner(
                    m->SharedFileListResponse_directories@,
                    m->SharedFileListResponse_private_directories@,
                ));
                shared_list_inner_parts(
                    inner@,
                    m->SharedFileListResponse_directories@,
                    m->SharedFileListResponse_private_directories@,
                );
                crate::protocol::join_prefix(
                    inner@,
                    0,
                    enc_u32(m->SharedFileListResponse_directories@.len() as u32),
                    enc_dir_seq(m->SharedFileListResponse_directories@),
                );
                crate::protocol::join_prefix(
                    inner@,
                    8 + enc_dir_seq(m->SharedFileListResponse_directories@).len() as int,
                    enc_u32(m->SharedFileListResponse_private_directories@.len() as u32),
                    enc_dir_seq(m->SharedFileListResponse_private_directories@),
                );
            }
        }
        Ok(v)
    } else {
        let v = PeerMessage::SharedFileListResponse {
            directories,
            private_directories: Vec::new(),
        };
        proof {
            assert forall|m: PeerMessage| wf_peer(m) && frame_fits_u32(peer_payload(m)) && #[trigger] prefix_at(
                data@,
                start,
                peer_frame(m),
            ) implies peer_eq(v, m) && *pos == start + peer_frame(m).len() by {
                peer_frame_parts(data@, start, m);
                assert(m is SharedFileListResponse);
                assert((frame_end - start - 4) as u32 == (4 + peer_payload(m).len()) as u32);
                assert(frame_end - start - 4 == 4 + peer_payload(m).len());
                assert(compressed@ == data@.subrange(pstart, start + peer_frame(m).len()));
                assert(inner@ == shared_list_inner(
                    m->SharedFileListResponse_directories@,
                    m->SharedFileListResponse_private_directories@,
                ));
                shared_list_inner_parts(
                    inner@,
                    m->SharedFileListResponse_directories@,
                    m->SharedFileListResponse_private_directories@,
                );
                crate::protocol::join_prefix(
                    inner@,
                    0,
                    enc_u32(m->SharedFileListResponse_directories@.len() as u32),
                    enc_dir_seq(m->SharedFileListResponse_directories@),
                );
                crate::protocol::join_prefix(
                    inner@,
                    8 + enc_dir_seq(m->SharedFileListResponse_directories@).len() as int,
                    enc_u32(m->SharedFileListResponse_private_directories@.len() as u32),
                    enc_dir_seq(m->SharedFileListResponse_private_directories@),
                );
                assert(false);
            }
        }
        Ok(v)
    }
}

/// Parses the decompressed body of a `FileSearchResponse`, inverting
/// `search_inner` on any exact encoding.
#[verifier::rlimit(100)]
fn parse_file_search_inner(inner: &Vec<u8>) -> (r: Result<PeerMessage, Error>)
    ensures
        forall|u: Seq<char>, t: u32, rs: Seq<SearchResultFile>, sf: bool, av: u32, ql: u32, pr: Seq<SearchResultFile>|
            str_fits(u) && rs.len() <= u32::MAX && wf_result_file_seq(rs) && pr.len() <= u32::MAX
                && wf_result_file_seq(pr) && #[trigger] search_inner(u, t, rs, sf, av, ql, pr)
                == inner@ ==> (r matches Ok(v) && v is FileSearchResponse && v->FileSearchResponse_username@ == u
                && v->FileSearchResponse_token == t && result_file_seq_eq(
                v->FileSearchResponse_results@,
                rs,
            ) && v->FileSearchResponse_slot_free == sf && v->FileSearchResponse_avg_speed == av
                && v->FileSearchResponse_queue_length == ql && result_file_seq_eq(
                v->FileSearchResponse_private_results@,
                pr,
            )),
{
    broadcast use crate::protocol::group_enc_facts;

    let mut ipos: usize = 0;
    let username = match read_string(inner, &mut ipos) {
        Ok(v) => v,
        Err(e) => {
            proof {
            assert forall|u: Seq<char>, t: u32, rs: Seq<SearchResultFile>, sf: bool, av: u32, ql: u32, pr: Seq<SearchResultFile>| str_fits(u) && rs.len() <= u32::MAX && wf_result_file_seq(rs) && pr.len() <= u32::MAX
                && wf_result_file_seq(pr) && #[trigger] search_inner(u, t, rs, sf, av, ql, pr)
                == inner@ implies false by {
                search_inner_parts(inner@, u, t, rs, sf, av, ql, pr);
            }
        }
            return Err(e);
        },
    };
    let token = match read_u32(inner, &mut ipos) {
        Ok(v) => v,
        Err(e) => {
            proof {
            assert forall|u: Seq<char>, t: u32, rs: Seq<SearchResultFile>, sf: bool, av: u32, ql: u32, pr: Seq<SearchResultFile>| str_fits(u) && rs.len() <= u32::MAX && wf_result_file_seq(rs) && pr.len() <= u32::MAX
                && wf_result_file_seq(pr) && #[trigger] search_inner(u, t, rs, sf, av, ql, pr)
                == inner@ implies false by {
                search_inner_parts(inner@, u, t, rs, sf, av, ql, pr);
                match_str_at(inner@, 0, username@, u);
                crate::protocol::join_prefix(
                    inner@,
                    enc_str(u).len() as int + 4,
                    enc_u32(rs.len() as u32),
                    enc_result_file_seq(rs),
                );
            }
        }
            return Err(e);
        },
    };
    let results = match read_result_file_list(inner, &mut ipos) {
        Ok(v) => v,
        Err(e) => {
            proof {
            assert forall|u: Seq<char>, t: u32, rs: Seq<SearchResultFile>, sf: bool, av: u32, ql: u32, pr: Seq<SearchResultFile>| str_fits(u) && rs.len() <= u32::MAX && wf_result_file_seq(rs) && pr.len() <= u32::MAX
                && wf_result_file_seq(pr) && #[trigger] search_inner(u, t, rs, sf, av, ql, pr)
                == inner@ implies false by {
                search_inner_parts(inner@, u, t, rs, sf, av, ql, pr);
                match_str_at(inner@, 0, username@, u);
                crate::protocol::join_prefix(
                    inner@,
                    enc_str(u).len() as int + 4,
                    enc_u32(rs.len() as u32),
                    enc_result_file_seq(rs),
                );
            }
        }
            return Err(e);
        },
    };
    let slot_free = match read_bool(inner, &mut ipos) {
        Ok(v) => v,
        Err(e) => {
            proof {
            assert forall|u: Seq<char>, t: u32, rs: Seq<SearchResultFile>, sf: bool, av: u32, ql: u32, pr: Seq<SearchResultFile>| str_fits(u) && rs.len() <= u32::MAX && wf_result_file_seq(rs) && pr.len() <= u32::MAX
                && wf_result_file_seq(pr) && #[trigger] search_inner(u, t, rs, sf, av, ql, pr)
                == inner@ implies false by {
                search_inner_parts(inner@, u, t, rs, sf, av, ql, pr);
                match_str_at(inner@, 0, username@, u);
                crate::protocol::join_prefix(
                    inner@,
                    enc_str(u).len() as int + 4,
                    enc_u32(rs.len() as u32),
                    enc_result_file_seq(rs),
                );
                assert(result_file_seq_eq(results@, rs));
                crate::protocol::join_prefix(
                    inner@,
                    enc_str(u).len() as int + 21 + enc_result_file_seq(rs).len() as int,
                    enc_u32(pr.len() as u32),
                    enc_result_file_seq(pr),
                );
            }
        }
            return Err(e);
        },
    };
    let avg_speed = match read_u32(inner, &mut ipos) {
        Ok(v) => v,
        Err(e) => {
            proof {
            assert forall|u: Seq<char>, t: u32, rs: Seq<SearchResultFile>, sf: bool, av: u32, ql: u32, pr: Seq<SearchResultFile>| str_fits(u) && rs.len() <= u32::MAX && wf_result_file_seq(rs) && pr.len() <= u32::MAX
                && wf_result_file_seq(pr) && #[trigger] search_inner(u, t, rs, sf, av, ql, pr)
                == inner@ implies false by {
                search_inner_parts(inner@, u, t, rs, sf, av, ql, pr);
                match_str_at(inner@, 0, username@, u);
                crate::protocol::join_prefix(
                    inner@,
                    enc_str(u).len() as int + 4,
                    enc_u32(rs.len() as u32),
                    enc_result_file_seq(rs),
                );
                assert(result_file_seq_eq(results@, rs));
                crate::protocol::join_prefix(
                    inner@,
                    enc_str(u).len() as int + 21 + enc_result_file_seq(rs).len() as int,
                    enc_u32(pr.len() as u32),
                    enc_result_file_seq(pr),
                );
            }
        }
            return Err(e);
        },
    };
    let queue_length = match read_u32(inner, &mut ipos) {
        Ok(v) => v,
        Err(e) => {
            proof {
            assert forall|u: Seq<char>, t: u32, rs: Seq<SearchResultFile>, sf: bool, av: u32, ql: u32, pr: Seq<SearchResultFile>| str_fits(u) && rs.len() <= u32::MAX && wf_result_file_seq(rs) && pr.len() <= u32::MAX
                && wf_result_file_seq(pr) && #[trigger] search_inner(u, t, rs, sf, av, ql, pr)
                == inner@ implies false by {
                search_inner_parts(inner@, u, t, rs, sf, av, ql, pr);
                match_str_at(inner@, 0, username@, u);
                crate::protocol::join_prefix(
                    inner@,
                    enc_str(u).len() as int + 4,
                    enc_u32(rs.len() as u32),
                    enc_result_file_seq(rs),
                );
                assert(result_file_seq_eq(results@, rs));
                crate::protocol::join_prefix(
                    inner@,
                    enc_str(u).len() as int + 21 + enc_result_file_seq(rs).len() as int,
                    enc_u32(pr.len() as u32),
                    enc_result_file_seq(pr),
                );
            }
        }
            return Err(e);
        },
    };
    let _unknown = match read_u32(inner, &mut ipos) {
        Ok(v) => v,
        Err(e) => {
            proof {
            assert forall|u: Seq<char>, t: u32, rs: Seq<SearchResultFile>, sf: bool, av: u32, ql: u32, pr: Seq<SearchResultFile>| str_fits(u) && rs.len() <= u32::MAX && wf_result_file_seq(rs) && pr.len() <= u32::MAX
                && wf_result_file_seq(pr) && #[trigger] search_inner(u, t, rs, sf, av, ql, pr)
                == inner@ implies false by {
                search_inner_parts(inner@, u, t, rs, sf, av, ql, pr);
                match_str_at(inner@, 0, username@, u);
                crate::protocol::join_prefix(
                    inner@,
                    enc_str(u).len() as int + 4,
                    enc_u32(rs.len() as u32),
                    enc_result_file_seq(rs),
                );
                assert(result_file_seq_eq(results@, rs));
                crate::protocol::join_prefix(
                    inner@,
                    enc_str(u).len() as int + 21 + enc_result_file_seq(rs).len() as int,
                    enc_u32(pr.len() as u32),
                    enc_result_file_seq(pr),
                );
            }
        }
            return Err(e);
        },
    };
    if ipos < inner.len() {
        let private_results = match read_result_file_list(inner, &mut ipos) {
            Ok(v) => v,
        Err(e) => {
            proof {
            assert forall|u: Seq<char>, t: u32, rs: Seq<SearchResultFile>, sf: bool, av: u32, ql: u32, pr: Seq<SearchResultFile>| str_fits(u) && rs.len() <= u32::MAX && wf_result_file_seq(rs) && pr.len() <= u32::MAX
                && wf_result_file_seq(pr) && #[trigger] search_inner(u, t, rs, sf, av, ql, pr)
                == inner@ implies false by {
                search_inner_parts(inner@, u, t, rs, sf, av, ql, pr);
                match_str_at(inner@, 0, username@, u);
                crate::protocol::join_prefix(
                    inner@,
                    enc_str(u).len() as int + 4,
                    enc_u32(rs.len() as u32),
                    enc_result_file_seq(rs),
                );
                assert(result_file_seq_eq(results@, rs));
                crate::protocol::join_prefix(
                    inner@,
                    enc_str(u).len() as int + 21 + enc_result_file_seq(rs).len() as int,
                    enc_u32(pr.len() as u32),
                    enc_result_file_seq(pr),
                );
            }
        }
            return Err(e);
        },
        };
        let v = PeerMessage::FileSearchResponse {
            username,
            token,
            results,
            slot_free,
            avg_speed,
            queue_length,
            private_results,
        };
        proof {
            assert forall|u: Seq<char>, t: u32, rs: Seq<SearchResultFile>, sf: bool, av: u32, ql: u32, pr: Seq<SearchResultFile>| str_fits(u) && rs.len() <= u32::MAX && wf_result_file_seq(rs) && pr.len() <= u32::MAX
                && wf_result_file_seq(pr) && #[trigger] search_inner(u, t, rs, sf, av, ql, pr)
                == inner@ implies (v is FileSearchResponse && v->FileSearchResponse_username@ == u
                && v->FileSearchResponse_token == t && result_file_seq_eq(
                v->FileSearchResponse_results@,
                rs,
            ) && v->FileSearchResponse_slot_free == sf && v->FileSearchResponse_avg_speed == av
                && v->FileSearchResponse_queue_length == ql && result_file_seq_eq(
                v->FileSearchResponse_private_results@,
                pr,
            )) by {
                search_inner_parts(inner@, u, t, rs, sf, av, ql, pr);
                match_str_at(inner@, 0, username@, u);
                crate::protocol::join_prefix(
                    inner@,
                    enc_str(u).len() as int + 4,
                    enc_u32(rs.len() as u32),
                    enc_result_file_seq(rs),
                );
                assert(result_file_seq_eq(results@, rs));
                crate::protocol::join_prefix(
                    inner@,
                    enc_str(u).len() as int + 21 + enc_result_file_seq(rs).len() as int,
                    enc_u32(pr.len() as u32),
                    enc_result_file_seq(pr),
                );
            }
        }
        Ok(v)
    } else {
        let v = PeerMessage::FileSearchResponse {
            username,
            token,
            results,
            slot_free,
            avg_speed,
            queue_length,
            private_results: Vec::new(),
        };
        proof {
            assert forall|u: Seq<char>, t: u32, rs: Seq<SearchResultFile>, sf: bool, av: u32, ql: u32, pr: Seq<SearchResultFile>| str_fits(u) && rs.len() <= u32::MAX && wf_result_file_seq(rs) && pr.len() <= u32::MAX
                && wf_result_file_seq(pr) && #[trigger] search_inner(u, t, rs, sf, av, ql, pr)
                == inner@ implies (v is FileSearchResponse && v->FileSearchResponse_username@ == u
                && v->FileSearchResponse_token == t && result_file_seq_eq(
                v->FileSearchResponse_results@,
                rs,
            ) && v->FileSearchResponse_slot_free == sf && v->FileSearchResponse_avg_speed == av
                && v->FileSearchResponse_queue_length == ql && result_file_seq_eq(
                v->FileSearchResponse_private_results@,
                pr,
            )) by {
                search_inner_parts(inner@, u, t, rs, sf, av, ql, pr);
                match_str_at(inner@, 0, username@, u);
                crate::protocol::join_prefix(
                    inner@,
                    enc_str(u).len() as int + 4,
                    enc_u32(rs.len() as u32),
                    enc_result_file_seq(rs),
                );
                assert(result_file_seq_eq(results@, rs));
                crate::protocol::join_prefix(
                    inner@,
                    enc_str(u).len() as int + 21 + enc_result_file_seq(rs).len() as int,
                    enc_u32(pr.len() as u32),
                    enc_result_file_seq(pr),
                );
                assert(false);
            }
        }
        Ok(v)
    }
}

/// Reads and inverts a `FileSearchResponse` body.
fn read_file_search_response_body(data: &Vec<u8>, pos: &mut usize, frame_end: usize, Ghost(start): Ghost<
    int,
>) -> (r: Result<PeerMessage, Error>)
    requires
        0 <= start,
        *old(pos) == start + 8,
        *old(pos) <= frame_end <= data@.len(),
        frame_end - start - 4 <= u32::MAX,
        data@.subrange(start, start + 4) == enc_u32((frame_end - start - 4) as u32),
        data@.subrange(start + 4, start + 8) == enc_u32(9),
    ensures
        *old(pos) <= *final(pos) <= data@.len(),
        forall|m: PeerMessage|
            wf_peer(m) && frame_fits_u32(peer_payload(m)) && #[trigger] prefix_at(
                data@,
                start,
                peer_frame(m),
            ) ==> (r matches Ok(v) && peer_eq(v, m) && *final(pos) == start + peer_frame(m).len()),
{
    broadcast use crate::protocol::group_enc_facts;

    let ghost pstart = start + 8;
    let compressed = copy_range(data, *pos, frame_end);
    *pos = frame_end;
    let inner = match zlib_decompress(&compressed) {
        Ok(v) => v,
        Err(e) => {
            proof {
            assert forall|m: PeerMessage| wf_peer(m) && frame_fits_u32(peer_payload(m)) && #[trigger] prefix_at(
                data@,
                start,
                peer_frame(m),
            ) implies false by {
                peer_frame_parts(data@, start, m);
                assert(m is FileSearchResponse);
                assert((frame_end - start - 4) as u32 == (4 + peer_payload(m).len()) as u32);
                assert(frame_end - start - 4 == 4 + peer_payload(m).len());
                assert(compressed@ == data@.subrange(pstart, start + peer_frame(m).len()));
            }
        }
            return Err(e);
        },
    };
    let r = parse_file_search_inner(&inner);
    proof {
            assert forall|m: PeerMessage| wf_peer(m) && frame_fits_u32(peer_payload(m)) && #[trigger] prefix_at(
                data@,
                start,
                peer_frame(m),
            ) implies (r matches Ok(v) && peer_eq(v, m) && *pos == start + peer_frame(m).len()) by {
                peer_frame_parts(data@, start, m);
                assert(m is FileSearchResponse);
                assert((frame_end - start - 4) as u32 == (4 + peer_payload(m).len()) as u32);
                assert(frame_end - start - 4 == 4 + peer_payload(m).len());
                assert(compressed@ == data@.subrange(pstart, start + peer_frame(m).len()));
                assert(inner@ == search_inner(
                    m->FileSearchResponse_username@,
                    m->FileSearchResponse_token,
                    m->FileSearchResponse_results@,
                    m->FileSearchResponse_slot_free,
                    m->FileSearchResponse_avg_speed,
                    m->FileSearchResponse_queue_length,
                    m->FileSearchResponse_private_results@,
                ));
            }
        }
    r
}

/// Reads and inverts a `UserInfoResponse` body.
#[verifier::rlimit(100)]
fn read_user_info_response_body(data: &Vec<u8>, pos: &mut usize, frame_end: usize, Ghost(start): Ghost<int>) -> (r: Result<
    PeerMessage,
    Error,
>)
    requires
        0 <= start,
        *old(pos) == start + 8,
        *old(pos) <= frame_end <= data@.len(),
        frame_end - start - 4 <= u32::MAX,
        data@.subrange(start, start + 4) == enc_u32((frame_end - start - 4) as u32),
        data@.subrange(start + 4, start + 8) == enc_u32(16),
    ensures
        *old(pos) <= *final(pos) <= data@.len(),
        forall|m: PeerMessage|
            wf_peer(m) && frame_fits_u32(peer_payload(m)) && #[trigger] prefix_at(
                data@,
                start,
                peer_frame(m),
            ) ==> (r matches Ok(v) && peer_eq(v, m) && *final(pos) == start + peer_frame(m).len()),
{
    broadcast use crate::protocol::group_enc_facts;

    let ghost pstart = start + 8;
    let description = match read_string(data, pos) {
        Ok(v) => v,
        Err(e) => {
            proof {
            assert forall|m: PeerMessage| wf_peer(m) && frame_fits_u32(peer_payload(m)) && #[trigger] prefix_at(
                data@,
                start,
                peer_frame(m),
            ) implies false by {
                peer_frame_parts(data@, start, m);
                assert(m is UserInfoResponse);
                assert((frame_end - start - 4) as u32 == (4 + peer_payload(m).len()) as u32);
                assert(frame_end - start - 4 == 4 + peer_payload(m).len());
                user_info_parts(data@, pstart, m);
            }
        }
            return Err(e);
        },
    };
    let ghost p1 = *pos as int;
    let has_picture = match read_bool(data, pos) {
        Ok(v) => v,
        Err(e) => {
            proof {
            assert forall|m: PeerMessage| wf_peer(m) && frame_fits_u32(peer_payload(m)) && #[trigger] prefix_at(
                data@,
                start,
                peer_frame(m),
            ) implies false by {
                peer_frame_parts(data@, start, m);
                assert(m is UserInfoResponse);
                assert((frame_end - start - 4) as u32 == (4 + peer_payload(m).len()) as u32);
                assert(frame_end - start - 4 == 4 + peer_payload(m).len());
                user_info_parts(data@, pstart, m);
                match_str_at(data@, pstart, description@, m->UserInfoResponse_description@);
            }
        }
            return Err(e);
        },
    };
    let picture = if has_picture {
        match read_bytes(data, pos) {
            Ok(p) => Some(p),
        Err(e) => {
            proof {
            assert forall|m: PeerMessage| wf_peer(m) && frame_fits_u32(peer_payload(m)) && #[trigger] prefix_at(
                data@,
                start,
                peer_frame(m),
            ) implies false by {
                peer_frame_parts(data@, start, m);
                assert(m is UserInfoResponse);
                assert((frame_end - start - 4) as u32 == (4 + peer_payload(m).len()) as u32);
                assert(frame_end - start - 4 == 4 + peer_payload(m).len());
                user_info_parts(data@, pstart, m);
                match_str_at(data@, pstart, description@, m->UserInfoResponse_description@);
            }
        }
            return Err(e);
        },
        }
    } else {
        None
    };
    let total_uploads = match read_u32(data, pos) {
        Ok(v) => v,
        Err(e) => {
            proof {
            assert forall|m: PeerMessage| wf_peer(m) && frame_fits_u32(peer_payload(m)) && #[trigger] prefix_at(
                data@,
                start,
                peer_frame(m),
            ) implies false by {
                peer_frame_parts(data@, start, m);
                assert(m is UserInfoResponse);
                assert((frame_end - start - 4) as u32 == (4 + peer_payload(m).len()) as u32);
                assert(frame_end - start - 4 == 4 + peer_payload(m).len());
                user_info_parts(data@, pstart, m);
                match_str_at(data@, pstart, description@, m->UserInfoResponse_description@);
                match (m->UserInfoResponse_picture, picture) {
                    (Some(mp), Some(vp)) => {
                        match_bytes_at(data@, p1 + 1, vp@, mp@);
                    },
                    _ => {},
                }
            }
        }
            return Err(e);
        },
    };
    let queue_size = match read_u32(data, pos) {
        Ok(v) => v,
        Err(e) => {
            proof {
            assert forall|m: PeerMessage| wf_peer(m) && frame_fits_u32(peer_payload(m)) && #[trigger] prefix_at(
                data@,
                start,
                peer_frame(m),
            ) implies false by {
                peer_frame_parts(data@, start, m);
                assert(m is UserInfoResponse);
                assert((frame_end - start - 4) as u32 == (4 + peer_payload(m).len()) as u32);
                assert(frame_end - start - 4 == 4 + peer_payload(m).len());
                user_info_parts(data@, pstart, m);
                match_str_at(data@, pstart, description@, m->UserInfoResponse_description@);
                match (m->UserInfoResponse_picture, picture) {
                    (Some(mp), Some(vp)) => {
                        match_bytes_at(data@, p1 + 1, vp@, mp@);
                    },
                    _ => {},
                }
            }
        }
            return Err(e);
        },
    };
    let slots_free = match read_bool(data, pos) {
        Ok(v) => v,
        Err(e) => {
            proof {
            assert forall|m: PeerMessage| wf_peer(m) && frame_fits_u32(peer_payload(m)) && #[trigger] prefix_at(
                data@,
                start,
                peer_frame(m),
            ) implies false by {
                peer_frame_parts(data@, start, m);
                assert(m is UserInfoResponse);
                assert((frame_end - start - 4) as u32 == (4 + peer_payload(m).len()) as u32);
                assert(frame_end - start - 4 == 4 + peer_payload(m).len());
                user_info_parts(data@, pstart, m);
                match_str_at(data@, pstart, description@, m->UserInfoResponse_description@);
                match (m->UserInfoResponse_picture, picture) {
                    (Some(mp), Some(vp)) => {
                        match_bytes_at(data@, p1 + 1, vp@, mp@);
                    },
                    _ => {},
                }
            }
        }
            return Err(e);
        },
    };
    let upload_permitted = if *pos < frame_end {
        let perm_val = match read_u32(data, pos) {
            Ok(v) => v,
        Err(e) => {
            proof {
            assert forall|m: PeerMessage| wf_peer(m) && frame_fits_u32(peer_payload(m)) && #[trigger] prefix_at(
                data@,
                start,
                peer_frame(m),
            ) implies false by {
                peer_frame_parts(data@, start, m);
                assert(m is UserInfoResponse);
                assert((frame_end - start - 4) as u32 == (4 + peer_payload(m).len()) as u32);
                assert(frame_end - start - 4 == 4 + peer_payload(m).len());
                user_info_parts(data@, pstart, m);
                match_str_at(data@, pstart, description@, m->UserInfoResponse_description@);
                match (m->UserInfoResponse_picture, picture) {
                    (Some(mp), Some(vp)) => {
                        match_bytes_at(data@, p1 + 1, vp@, mp@);
                    },
                    _ => {},
                }
            }
        }
            return Err(e);
        },
        };
        match UploadPermission::try_from(perm_val) {
            Ok(p) => Some(p),
        Err(e) => {
            proof {
            assert forall|m: PeerMessage| wf_peer(m) && frame_fits_u32(peer_payload(m)) && #[trigger] prefix_at(
                data@,
                start,
                peer_frame(m),
            ) implies false by {
                peer_frame_parts(data@, start, m);
                assert(m is UserInfoResponse);
                assert((frame_end - start - 4) as u32 == (4 + peer_payload(m).len()) as u32);
                assert(frame_end - start - 4 == 4 + peer_payload(m).len());
                user_info_parts(data@, pstart, m);
                match_str_at(data@, pstart, description@, m->UserInfoResponse_description@);
                match (m->UserInfoResponse_picture, picture) {
                    (Some(mp), Some(vp)) => {
                        match_bytes_at(data@, p1 + 1, vp@, mp@);
                    },
                    _ => {},
                }
                match m->UserInfoResponse_upload_permitted {
                    Some(perm) => {
                        assert(spec_upload_permission_from(upload_permission_u32(perm))
                            == Some(perm));
                    },
                    None => {},
                }
            }
        }
            return Err(e);
        },
        }
    } else {
        None
    };
    let v = PeerMessage::UserInfoResponse {
        description,
        picture,
        total_uploads,
        queue_size,
        slots_free,
        upload_permitted,
    };
    proof {
            assert forall|m: PeerMessage| wf_peer(m) && frame_fits_u32(peer_payload(m)) && #[trigger] prefix_at(
                data@,
                start,
                peer_frame(m),
            ) implies peer_eq(v, m) && *pos == start + peer_frame(m).len() by {
                peer_frame_parts(data@, start, m);
                assert(m is UserInfoResponse);
                assert((frame_end - start - 4) as u32 == (4 + peer_payload(m).len()) as u32);
                assert(frame_end - start - 4 == 4 + peer_payload(m).len());
                user_info_parts(data@, pstart, m);
                match_str_at(data@, pstart, description@, m->UserInfoResponse_description@);
                match (m->UserInfoResponse_picture, picture) {
                    (Some(mp), Some(vp)) => {
                        match_bytes_at(data@, p1 + 1, vp@, mp@);
                    },
                    _ => {},
                }
                match m->UserInfoResponse_upload_permitted {
                    Some(perm) => {
                        assert(spec_upload_permission_from(upload_permission_u32(perm))
                            == Some(perm));
                    },
                    None => {},
                }
            }
        }
    Ok(v)
}

fn read_folder_contents_request_body(data: &Vec<u8>, pos: &mut usize, frame_end: usize, Ghost(start): Ghost<int>) -> (r: Result<
    PeerMessage,
    Error,
>)
    requires
        0 <= start,
        *old(pos) == start + 8,
        *old(pos) <= frame_end <= data@.len(),
        frame_end - start - 4 <= u32::MAX,
        data@.subrange(start, start + 4) == enc_u32((frame_end - start - 4) as u32),
        data@.subrange(start + 4, start + 8) == enc_u32(36),
    ensures
        *old(pos) <= *final(pos) <= data@.len(),
        forall|m: PeerMessage|
            wf_peer(m) && frame_fits_u32(peer_payload(m))
                && #[trigger] prefix_at(data@, start, peer_frame(m)) ==> (r matches Ok(v)
                && peer_eq(v, m) && *final(pos) == start + peer_frame(m).len()),
{
    broadcast use crate::protocol::group_enc_facts;

    let ghost pstart = start + 8;
    let token = match read_u32(data, pos) {
        Ok(v) => v,
        Err(e) => {
            proof {
            assert forall|m: PeerMessage| wf_peer(m) && frame_fits_u32(peer_payload(m))
                && #[trigger] prefix_at(data@, start, peer_frame(m)) implies false by {
                peer_frame_parts(data@, start, m);
                assert(m is FolderContentsRequest);
                assert(peer_payload(m) =~= enc_u32(m->FolderContentsRequest_token) + (enc_str(
                    m->FolderContentsRequest_folder@,
                ) + Seq::<u8>::empty()));
                split_u32(data@, pstart, m->FolderContentsRequest_token, enc_str(
                    m->FolderContentsRequest_folder@,
                ) + Seq::<u8>::empty());
                split_str(data@, pstart + 4, m->FolderContentsRequest_folder@, Seq::<u8>::empty());
            }
        }
            return Err(e);
        },
    };
    let folder = match read_string(data, pos) {
        Ok(v) => v,
        Err(e) => {
            proof {
            assert forall|m: PeerMessage| wf_peer(m) && frame_fits_u32(peer_payload(m))
                && #[trigger] prefix_at(data@, start, peer_frame(m)) implies false by {
                peer_frame_parts(data@, start, m);
                assert(m is FolderContentsRequest);
                assert(peer_payload(m) =~= enc_u32(m->FolderContentsRequest_token) + (enc_str(
                    m->FolderContentsRequest_folder@,
                ) + Seq::<u8>::empty()));
                split_u32(data@, pstart, m->FolderContentsRequest_token, enc_str(
                    m->FolderContentsRequest_folder@,
                ) + Seq::<u8>::empty());
                split_str(data@, pstart + 4, m->FolderContentsRequest_folder@, Seq::<u8>::empty());
            }
        }
            return Err(e);
        },
    };
    let v = PeerMessage::FolderContentsRequest { token, folder };
    proof {
            assert forall|m: PeerMessage| wf_peer(m) && frame_fits_u32(peer_payload(m))
                && #[trigger] prefix_at(data@, start, peer_frame(m)) implies peer_eq(v, m) && *pos == start + peer_frame(m).len() by {
                peer_frame_parts(data@, start, m);
                assert(m is FolderContentsRequest);
                assert(peer_payload(m) =~= enc_u32(m->FolderContentsRequest_token) + (enc_str(
                    m->FolderContentsRequest_folder@,
                ) + Seq::<u8>::empty()));
                split_u32(data@, pstart, m->FolderContentsRequest_token, enc_str(
                    m->FolderContentsRequest_folder@,
                ) + Seq::<u8>::empty());
                split_str(data@, pstart + 4, m->FolderContentsRequest_folder@, Seq::<u8>::empty());
                match_str_at(data@, pstart + 4, folder@, m->FolderContentsRequest_folder@);
            }
        }
    Ok(v)
}

/// Reads and inverts a `FolderContentsResponse` body.
#[verifier::rlimit(100)]
fn read_folder_contents_response_body(data: &Vec<u8>, pos: &mut usize, frame_end: usize, Ghost(start): Ghost<int>) -> (r: Result<
    PeerMessage,
    Error,
>)
    requires
        0 <= start,
        *old(pos) == start + 8,
        *old(pos) <= frame_end <= data@.len(),
        frame_end - start - 4 <= u32::MAX,
        data@.subrange(start, start + 4) == enc_u32((frame_end - start - 4) as u32),
        data@.subrange(start + 4, start + 8) == enc_u32(37),
    ensures
        *old(pos) <= *final(pos) <= data@.len(),
        forall|m: PeerMessage|
            wf_peer(m) && frame_fits_u32(peer_payload(m)) && #[trigger] prefix_at(
                data@,
                start,
                peer_frame(m),
            ) ==> (r matches Ok(v) && peer_eq(v, m) && *final(pos) == start + peer_frame(m).len()),
{
    broadcast use crate::protocol::group_enc_facts;

    let ghost pstart = start + 8;
    let compressed = copy_range(data, *pos, frame_end);
    *pos = frame_end;
    let inner = match zlib_decompress(&compressed) {
        Ok(v) => v,
        Err(e) => {
            proof {
            assert forall|m: PeerMessage| wf_peer(m) && frame_fits_u32(peer_payload(m)) && #[trigger] prefix_at(
                data@,
                start,
                peer_frame(m),
            ) implies false by {
                peer_frame_parts(data@, start, m);
                assert(m is FolderContentsResponse);
                assert((frame_end - start - 4) as u32 == (4 + peer_payload(m).len()) as u32);
                assert(frame_end - start - 4 == 4 + peer_payload(m).len());
                assert(compressed@ == data@.subrange(pstart, start + peer_frame(m).len()));
            }
        }
            return Err(e);
        },
    };
    let mut ipos: usize = 0;
    let token = match read_u32(&inner, &mut ipos) {
        Ok(v) => v,
        Err(e) => {
            proof {
            assert forall|m: PeerMessage| wf_peer(m) && frame_fits_u32(peer_payload(m)) && #[trigger] prefix_at(
                data@,
                start,
                peer_frame(m),
            ) implies false by {
                peer_frame_parts(data@, start, m);
                assert(m is FolderContentsResponse);
                assert((frame_end - start - 4) as u32 == (4 + peer_payload(m).len()) as u32);
                assert(frame_end - start - 4 == 4 + peer_payload(m).len());
                assert(compressed@ == data@.subrange(pstart, start + peer_frame(m).len()));
                assert(inner@ == folder_inner(
                    m->FolderContentsResponse_token,
                    m->FolderContentsResponse_folder@,
                    m->FolderContentsResponse_directories@,
                ));
                folder_inner_parts(
                    inner@,
                    m->FolderContentsResponse_token,
                    m->FolderContentsResponse_folder@,
                    m->FolderContentsResponse_directories@,
                );
            }
        }
            return Err(e);
        },
    };
    let folder = match read_string(&inner, &mut ipos) {
        Ok(v) => v,
        Err(e) => {
            proof {
            assert forall|m: PeerMessage| wf_peer(m) && frame_fits_u32(peer_payload(m)) && #[trigger] prefix_at(
                data@,
                start,
                peer_frame(m),
            ) implies false by {
                peer_frame_parts(data@, start, m);
                assert(m is FolderContentsResponse);
                assert((frame_end - start - 4) as u32 == (4 + peer_payload(m).len()) as u32);
                assert(frame_end - start - 4 == 4 + peer_payload(m).len());
                assert(compressed@ == data@.subrange(pstart, start + peer_frame(m).len()));
                assert(inner@ == folder_inner(
                    m->FolderContentsResponse_token,
                    m->FolderContentsResponse_folder@,
                    m->FolderContentsResponse_directories@,
                ));
                folder_inner_parts(
                    inner@,
                    m->FolderContentsResponse_token,
                    m->FolderContentsResponse_folder@,
                    m->FolderContentsResponse_directories@,
                );
            }
        }
            return Err(e);
        },
    };
    let directories = match read_dir_list(&inner, &mut ipos) {
        Ok(v) => v,
        Err(e) => {
            proof {
            assert forall|m: PeerMessage| wf_peer(m) && frame_fits_u32(peer_payload(m)) && #[trigger] prefix_at(
                data@,
                start,
                peer_frame(m),
            ) implies false by {
                peer_frame_parts(data@, start, m);
                assert(m is FolderContentsResponse);
                assert((frame_end - start - 4) as u32 == (4 + peer_payload(m).len()) as u32);
                assert(frame_end - start - 4 == 4 + peer_payload(m).len());
                assert(compressed@ == data@.subrange(pstart, start + peer_frame(m).len()));
                assert(inner@ == folder_inner(
                    m->FolderContentsResponse_token,
                    m->FolderContentsResponse_folder@,
                    m->FolderContentsResponse_directories@,
                ));
                folder_inner_parts(
                    inner@,
                    m->FolderContentsResponse_token,
                    m->FolderContentsResponse_folder@,
                    m->FolderContentsResponse_directories@,
                );
                match_str_at(inner@, 4, folder@, m->FolderContentsResponse_folder@);
                crate::protocol::join_prefix(
                    inner@,
                    4 + enc_str(m->FolderContentsResponse_folder@).len() as int,
                    enc_u32(m->FolderContentsResponse_directories@.len() as u32),
                    enc_dir_seq(m->FolderContentsResponse_directories@),
                );
            }
        }
            return Err(e);
        },
    };
    let v = PeerMessage::FolderContentsResponse { token, folder, directories };
    proof {
            assert forall|m: PeerMessage| wf_peer(m) && frame_fits_u32(peer_payload(m)) && #[trigger] prefix_at(
                data@,
                start,
                peer_frame(m),
            ) implies peer_eq(v, m) && *pos == start + peer_frame(m).len() by {
                peer_frame_parts(data@, start, m);
                assert(m is FolderContentsResponse);
                assert((frame_end - start - 4) as u32 == (4 + peer_payload(m).len()) as u32);
                assert(frame_end - start - 4 == 4 + peer_payload(m).len());
                assert(compressed@ == data@.subrange(pstart, start + peer_frame(m).len()));
                assert(inner@ == folder_inner(
                    m->FolderContentsResponse_token,
                    m->FolderContentsResponse_folder@,
                    m->FolderContentsResponse_directories@,
                ));
                folder_inner_parts(
                    inner@,
                    m->FolderContentsResponse_token,
                    m->FolderContentsResponse_folder@,
                    m->FolderContentsResponse_directories@,
                );
                match_str_at(inner@, 4, folder@, m->FolderContentsResponse_folder@);
                crate::protocol::join_prefix(
                    inner@,
                    4 + enc_str(m->FolderContentsResponse_folder@).len() as int,
                    enc_u32(m->FolderContentsResponse_directories@.len() as u32),
                    enc_dir_seq(m->FolderContentsResponse_directories@),
                );
            }
        }
    Ok(v)
}

#[verifier::rlimit(60)]
fn read_transfer_request_body(data: &Vec<u8>, pos: &mut usize, frame_end: usize, Ghost(start): Ghost<int>) -> (r: Result<
    PeerMessage,
    Error,
>)
    requires
        0 <= start,
        *old(pos) == start + 8,
        *old(pos) <= frame_end <= data@.len(),
        frame_end - start - 4 <= u32::MAX,
        data@.subrange(start, start + 4) == enc_u32((frame_end - start - 4) as u32),
        data@.subrange(start + 4, start + 8) == enc_u32(40),
    ensures
        *old(pos) <= *final(pos) <= data@.len(),
        forall|m: PeerMessage|
            wf_peer(m) && frame_fits_u32(peer_payload(m))
                && #[trigger] prefix_at(data@, start, peer_frame(m)) ==> (r matches Ok(v)
                && peer_eq(v, m) && *final(pos) == start + peer_frame(m).len()),
{
    broadcast use crate::protocol::group_enc_facts;

    let ghost pstart = start + 8;
    let dir_val = match read_u32(data, pos) {
        Ok(v) => v,
        Err(e) => {
            proof {
            assert forall|m: PeerMessage| wf_peer(m) && frame_fits_u32(peer_payload(m))
                && #[trigger] prefix_at(data@, start, peer_frame(m)) implies false by {
                peer_frame_parts(data@, start, m);
                assert(m is TransferRequest);
                transfer_request_parts(data@, pstart, m);
                assert(spec_transfer_direction_from(
                    transfer_direction_u32(m->TransferRequest_direction),
                ) == Some(m->TransferRequest_direction));
                assert((frame_end - start - 4) as u32 == (4 + peer_payload(m).len()) as u32);
                assert(frame_end - start - 4 == 4 + peer_payload(m).len());
            }
        }
            return Err(e);
        },
    };
    let direction = match TransferDirection::try_from(dir_val) {
        Ok(v) => v,
        Err(e) => {
            proof {
            assert forall|m: PeerMessage| wf_peer(m) && frame_fits_u32(peer_payload(m))
                && #[trigger] prefix_at(data@, start, peer_frame(m)) implies false by {
                peer_frame_parts(data@, start, m);
                assert(m is TransferRequest);
                transfer_request_parts(data@, pstart, m);
                assert(spec_transfer_direction_from(
                    transfer_direction_u32(m->TransferRequest_direction),
                ) == Some(m->TransferRequest_direction));
                assert((frame_end - start - 4) as u32 == (4 + peer_payload(m).len()) as u32);
                assert(frame_end - start - 4 == 4 + peer_payload(m).len());
            }
        }
            return Err(e);
        },
    };
    let token = match read_u32(data, pos) {
        Ok(v) => v,
        Err(e) => {
            proof {
            assert forall|m: PeerMessage| wf_peer(m) && frame_fits_u32(peer_payload(m))
                && #[trigger] prefix_at(data@, start, peer_frame(m)) implies false by {
                peer_frame_parts(data@, start, m);
                assert(m is TransferRequest);
                transfer_request_parts(data@, pstart, m);
                assert(spec_transfer_direction_from(
                    transfer_direction_u32(m->TransferRequest_direction),
                ) == Some(m->TransferRequest_direction));
                assert((frame_end - start - 4) as u32 == (4 + peer_payload(m).len()) as u32);
                assert(frame_end - start - 4 == 4 + peer_payload(m).len());
            }
        }
            return Err(e);
        },
    };
    let filename = match read_string(data, pos) {
        Ok(v) => v,
        Err(e) => {
            proof {
            assert forall|m: PeerMessage| wf_peer(m) && frame_fits_u32(peer_payload(m))
                && #[trigger] prefix_at(data@, start, peer_frame(m)) implies false by {
                peer_frame_parts(data@, start, m);
                assert(m is TransferRequest);
                transfer_request_parts(data@, pstart, m);
                assert(spec_transfer_direction_from(
                    transfer_direction_u32(m->TransferRequest_direction),
                ) == Some(m->TransferRequest_direction));
                assert((frame_end - start - 4) as u32 == (4 + peer_payload(m).len()) as u32);
                assert(frame_end - start - 4 == 4 + peer_payload(m).len());
            }
        }
            return Err(e);
        },
    };
    let file_size = if direction == TransferDirection::Upload && *pos < frame_end {
        match read_u64(data, pos) {
            Ok(s) => Some(s),
        Err(e) => {
            proof {
            assert forall|m: PeerMessage| wf_peer(m) && frame_fits_u32(peer_payload(m))
                && #[trigger] prefix_at(data@, start, peer_frame(m)) implies false by {
                peer_frame_parts(data@, start, m);
                assert(m is TransferRequest);
                transfer_request_parts(data@, pstart, m);
                assert(spec_transfer_direction_from(
                    transfer_direction_u32(m->TransferRequest_direction),
                ) == Some(m->TransferRequest_direction));
                assert((frame_end - start - 4) as u32 == (4 + peer_payload(m).len()) as u32);
                assert(frame_end - start - 4 == 4 + peer_payload(m).len());
                match_str_at(data@, pstart + 8, filename@, m->TransferRequest_filename@);
            }
        }
            return Err(e);
        },
        }
    } else {
        None
    };
    let v = PeerMessage::TransferRequest { direction, token, filename, file_size };
    proof {
            assert forall|m: PeerMessage| wf_peer(m) && frame_fits_u32(peer_payload(m))
                && #[trigger] prefix_at(data@, start, peer_frame(m)) implies peer_eq(v, m) && *pos == start + peer_frame(m).len() by {
                peer_frame_parts(data@, start, m);
                assert(m is TransferRequest);
                transfer_request_parts(data@, pstart, m);
                assert(spec_transfer_direction_from(
                    transfer_direction_u32(m->TransferRequest_direction),
                ) == Some(m->TransferRequest_direction));
                assert((frame_end - start - 4) as u32 == (4 + peer_payload(m).len()) as u32);
                assert(frame_end - start - 4 == 4 + peer_payload(m).len());
                match_str_at(data@, pstart + 8, filename@, m->TransferRequest_filename@);
            }
        }
    Ok(v)
}

#[verifier::rlimit(60)]
fn read_transfer_response_body(data: &Vec<u8>, pos: &mut usize, frame_end: usize, Ghost(start): Ghost<int>) -> (r: Result<
    PeerMessage,
    Error,
>)
    requires
        0 <= start,
        *old(pos) == start + 8,
        *old(pos) <= frame_end <= data@.len(),
        frame_end - start - 4 <= u32::MAX,
        data@.subrange(start, start + 4) == enc_u32((frame_end - start - 4) as u32),
        data@.subrange(start + 4, start + 8) == enc_u32(41),
    ensures
        *old(pos) <= *final(pos) <= data@.len(),
        forall|m: PeerMessage|
            wf_peer(m) && frame_fits_u32(peer_payload(m))
                && #[trigger] prefix_at(data@, start, peer_frame(m)) ==> (r matches Ok(v)
                && peer_eq(v, m) && *final(pos) == start + peer_frame(m).len()),
{
    broadcast use crate::protocol::group_enc_facts;

    let ghost pstart = start + 8;
    let token = match read_u32(data, pos) {
        Ok(v) => v,
        Err(e) => {
            proof {
            assert forall|m: PeerMessage| wf_peer(m) && frame_fits_u32(peer_payload(m))
                && #[trigger] prefix_at(data@, start, peer_frame(m)) implies false by {
                peer_frame_parts(data@, start, m);
                assert(m is TransferResponse);
                transfer_response_parts(data@, pstart, m);
                assert((frame_end - start - 4) as u32 == (4 + peer_payload(m).len()) as u32);
                assert(frame_end - start - 4 == 4 + peer_payload(m).len());
            }
        }
            return Err(e);
        },
    };
    let allowed = match read_bool(data, pos) {
        Ok(v) => v,
        Err(e) => {
            proof {
            assert forall|m: PeerMessage| wf_peer(m) && frame_fits_u32(peer_payload(m))
                && #[trigger] prefix_at(data@, start, peer_frame(m)) implies false by {
                peer_frame_parts(data@, start, m);
                assert(m is TransferResponse);
                transfer_response_parts(data@, pstart, m);
                assert((frame_end - start - 4) as u32 == (4 + peer_payload(m).len()) as u32);
                assert(frame_end - start - 4 == 4 + peer_payload(m).len());
            }
        }
            return Err(e);
        },
    };
    let mut file_size: Option<u64> = None;
    let mut reason: Option<TransferRejectionReason> = None;
    let ghost mut reason_chars: Seq<char> = Seq::empty();
    if allowed {
        if *pos < frame_end {
            file_size = match read_u64(data, pos) {
                Ok(s) => Some(s),
        Err(e) => {
            proof {
            assert forall|m: PeerMessage| wf_peer(m) && frame_fits_u32(peer_payload(m))
                && #[trigger] prefix_at(data@, start, peer_frame(m)) implies false by {
                peer_frame_parts(data@, start, m);
                assert(m is TransferResponse);
                transfer_response_parts(data@, pstart, m);
                assert((frame_end - start - 4) as u32 == (4 + peer_payload(m).len()) as u32);
                assert(frame_end - start - 4 == 4 + peer_payload(m).len());
            }
        }
            return Err(e);
        },
            };
        }
    } else {
        if *pos < frame_end {
            let reason_str = match read_string(data, pos) {
                Ok(s) => s,
        Err(e) => {
            proof {
            assert forall|m: PeerMessage| wf_peer(m) && frame_fits_u32(peer_payload(m))
                && #[trigger] prefix_at(data@, start, peer_frame(m)) implies false by {
                peer_frame_parts(data@, start, m);
                assert(m is TransferResponse);
                transfer_response_parts(data@, pstart, m);
                assert((frame_end - start - 4) as u32 == (4 + peer_payload(m).len()) as u32);
                assert(frame_end - start - 4 == 4 + peer_payload(m).len());
            }
        }
            return Err(e);
        },
            };
            proof {
                reason_chars = reason_str@;
            }
            reason = Some(TransferRejectionReason::from_string(reason_str));
        }
    }
    let v = PeerMessage::TransferResponse { token, allowed, file_size, reason };
    proof {
            assert forall|m: PeerMessage| wf_peer(m) && frame_fits_u32(peer_payload(m))
                && #[trigger] prefix_at(data@, start, peer_frame(m)) implies peer_eq(v, m) && *pos == start + peer_frame(m).len() by {
                peer_frame_parts(data@, start, m);
                assert(m is TransferResponse);
                transfer_response_parts(data@, pstart, m);
                assert((frame_end - start - 4) as u32 == (4 + peer_payload(m).len()) as u32);
                assert(frame_end - start - 4 == 4 + peer_payload(m).len());
                match (reason, m->TransferResponse_reason) {
                    (Some(vr), Some(mr)) => {
                        match_str_at(data@, pstart + 5, reason_chars, rejection_chars(mr));
                        crate::constants::lemma_rejection_unique(vr, mr);
                    },
                    _ => {},
                }
            }
        }
    Ok(v)
}

fn read_queue_upload_body(data: &Vec<u8>, pos: &mut usize, frame_end: usize, Ghost(start): Ghost<int>) -> (r: Result<
    PeerMessage,
    Error,
>)
    requires
        0 <= start,
        *old(pos) == start + 8,
        *old(pos) <= frame_end <= data@.len(),
        frame_end - start - 4 <= u32::MAX,
        data@.subrange(start, start + 4) == enc_u32((frame_end - start - 4) as u32),
        data@.subrange(start + 4, start + 8) == enc_u32(43),
    ensures
        *old(pos) <= *final(pos) <= data@.len(),
        forall|m: PeerMessage|
            wf_peer(m) && frame_fits_u32(peer_payload(m))
                && #[trigger] prefix_at(data@, start, peer_frame(m)) ==> (r matches Ok(v)
                && peer_eq(v, m) && *final(pos) == start + peer_frame(m).len()),
{
    broadcast use crate::protocol::group_enc_facts;

    let ghost pstart = start + 8;
    let filename = match read_string(data, pos) {
        Ok(v) => v,
        Err(e) => {
            proof {
            assert forall|m: PeerMessage| wf_peer(m) && frame_fits_u32(peer_payload(m))
                && #[trigger] prefix_at(data@, start, peer_frame(m)) implies false by {
                peer_frame_parts(data@, start, m);
                assert(m is QueueUpload);
                assert(peer_payload(m) =~= enc_str(m->QueueUpload_filename@) + Seq::<u8>::empty());
                split_str(data@, pstart, m->QueueUpload_filename@, Seq::<u8>::empty());
            }
        }
            return Err(e);
        },
    };
    let v = PeerMessage::QueueUpload { filename };
    proof {
            assert forall|m: PeerMessage| wf_peer(m) && frame_fits_u32(peer_payload(m))
                && #[trigger] prefix_at(data@, start, peer_frame(m)) implies peer_eq(v, m) && *pos == start + peer_frame(m).len() by {
                peer_frame_parts(data@, start, m);
                assert(m is QueueUpload);
                assert(peer_payload(m) =~= enc_str(m->QueueUpload_filename@) + Seq::<u8>::empty());
                split_str(data@, pstart, m->QueueUpload_filename@, Seq::<u8>::empty());
                match_str_at(data@, pstart, filename@, m->QueueUpload_filename@);
            }
        }
    Ok(v)
}

fn read_place_in_queue_response_body(data: &Vec<u8>, pos: &mut usize, frame_end: usize, Ghost(start): Ghost<int>) -> (r: Result<
    PeerMessage,
    Error,
>)
    requires
        0 <= start,
        *old(pos) == start + 8,
        *old(pos) <= frame_end <= data@.len(),
        frame_end - start - 4 <= u32::MAX,
        data@.subrange(start, start + 4) == enc_u32((frame_end - start - 4) as u32),
        data@.subrange(start + 4, start + 8) == enc_u32(44),
    ensures
        *old(pos) <= *final(pos) <= data@.len(),
        forall|m: PeerMessage|
            wf_peer(m) && frame_fits_u32(peer_payload(m))
                && #[trigger] prefix_at(data@, start, peer_frame(m)) ==> (r matches Ok(v)
                && peer_eq(v, m) && *final(pos) == start + peer_frame(m).len()),
{
    broadcast use crate::protocol::group_enc_facts;

    let ghost pstart = start + 8;
    let filename = match read_string(data, pos) {
        Ok(v) => v,
        Err(e) => {
            proof {
            assert forall|m: PeerMessage| wf_peer(m) && frame_fits_u32(peer_payload(m))
                && #[trigger] prefix_at(data@, start, peer_frame(m)) implies false by {
                peer_frame_parts(data@, start, m);
                assert(m is PlaceInQueueResponse);
                assert(peer_payload(m) =~= enc_str(m->PlaceInQueueResponse_filename@) + (enc_u32(
                    m->PlaceInQueueResponse_place,
                ) + Seq::<u8>::empty()));
                split_str(data@, pstart, m->PlaceInQueueResponse_filename@, enc_u32(
                    m->PlaceInQueueResponse_place,
                ) + Seq::<u8>::empty());
            }
        }
            return Err(e);
        },
    };
    let place = match read_u32(data, pos) {
        Ok(v) => v,
        Err(e) => {
            proof {
            assert forall|m: PeerMessage| wf_peer(m) && frame_fits_u32(peer_payload(m))
                && #[trigger] prefix_at(data@, start, peer_frame(m)) implies false by {
                peer_frame_parts(data@, start, m);
                assert(m is PlaceInQueueResponse);
                assert(peer_payload(m) =~= enc_str(m->PlaceInQueueResponse_filename@) + (enc_u32(
                    m->PlaceInQueueResponse_place,
                ) + Seq::<u8>::empty()));
                split_str(data@, pstart, m->PlaceInQueueResponse_filename@, enc_u32(
                    m->PlaceInQueueResponse_place,
                ) + Seq::<u8>::empty());
                match_str_at(data@, pstart, filename@, m->PlaceInQueueResponse_filename@);
                split_u32(
                    data@,
                    pstart + enc_str(m->PlaceInQueueResponse_filename@).len(),
                    m->PlaceInQueueResponse_place,
                    Seq::<u8>::empty(),
                );
            }
        }
            return Err(e);
        },
    };
    let v = PeerMessage::PlaceInQueueResponse { filename, place };
    proof {
            assert forall|m: PeerMessage| wf_peer(m) && frame_fits_u32(peer_payload(m))
                && #[trigger] prefix_at(data@, start, peer_frame(m)) implies peer_eq(v, m) && *pos == start + peer_frame(m).len() by {
                peer_frame_parts(data@, start, m);
                assert(m is PlaceInQueueResponse);
                assert(peer_payload(m) =~= enc_str(m->PlaceInQueueResponse_filename@) + (enc_u32(
                    m->PlaceInQueueResponse_place,
                ) + Seq::<u8>::empty()));
                split_str(data@, pstart, m->PlaceInQueueResponse_filename@, enc_u32(
                    m->PlaceInQueueResponse_place,
                ) + Seq::<u8>::empty());
                match_str_at(data@, pstart, filename@, m->PlaceInQueueResponse_filename@);
                split_u32(
                    data@,
                    pstart + enc_str(m->PlaceInQueueResponse_filename@).len(),
                    m->PlaceInQueueResponse_place,
                    Seq::<u8>::empty(),
                );
            }
        }
    Ok(v)
}

fn read_upload_failed_body(data: &Vec<u8>, pos: &mut usize, frame_end: usize, Ghost(start): Ghost<int>) -> (r: Result<
    PeerMessage,
    Error,
>)
    requires
        0 <= start,
        *old(pos) == start + 8,
        *old(pos) <= frame_end <= data@.len(),
        frame_end - start - 4 <= u32::MAX,
        data@.subrange(start, start + 4) == enc_u32((frame_end - start - 4) as u32),
        data@.subrange(start + 4, start + 8) == enc_u32(46),
    ensures
        *old(pos) <= *final(pos) <= data@.len(),
        forall|m: PeerMessage|
            wf_peer(m) && frame_fits_u32(peer_payload(m))
                && #[trigger] prefix_at(data@, start, peer_frame(m)) ==> (r matches Ok(v)
                && peer_eq(v, m) && *final(pos) == start + peer_frame(m).len()),
{
    broadcast use crate::protocol::group_enc_facts;

    let ghost pstart = start + 8;
    let filename = match read_string(data, pos) {
        Ok(v) => v,
        Err(e) => {
            proof {
            assert forall|m: PeerMessage| wf_peer(m) && frame_fits_u32(peer_payload(m))
                && #[trigger] prefix_at(data@, start, peer_frame(m)) implies false by {
                peer_frame_parts(data@, start, m);
                assert(m is UploadFailed);
                assert(peer_payload(m) =~= enc_str(m->UploadFailed_filename@) + Seq::<u8>::empty());
                split_str(data@, pstart, m->UploadFailed_filename@, Seq::<u8>::empty());
            }
        }
            return Err(e);
        },
    };
    let v = PeerMessage::UploadFailed { filename };
    proof {
            assert forall|m: PeerMessage| wf_peer(m) && frame_fits_u32(peer_payload(m))
                && #[trigger] prefix_at(data@, start, peer_frame(m)) implies peer_eq(v, m) && *pos == start + peer_frame(m).len() by {
                peer_frame_parts(data@, start, m);
                assert(m is UploadFailed);
                assert(peer_payload(m) =~= enc_str(m->UploadFailed_filename@) + Seq::<u8>::empty());
                split_str(data@, pstart, m->UploadFailed_filename@, Seq::<u8>::empty());
                match_str_at(data@, pstart, filename@, m->UploadFailed_filename@);
            }
        }
    Ok(v)
}

#[verifier::rlimit(60)]
fn read_upload_denied_body(data: &Vec<u8>, pos: &mut usize, frame_end: usize, Ghost(start): Ghost<int>) -> (r: Result<
    PeerMessage,
    Error,
>)
    requires
        0 <= start,
        *old(pos) == start + 8,
        *old(pos) <= frame_end <= data@.len(),
        frame_end - start - 4 <= u32::MAX,
        data@.subrange(start, start + 4) == enc_u32((frame_end - start - 4) as u32),
        data@.subrange(start + 4, start + 8) == enc_u32(50),
    ensures
        *old(pos) <= *final(pos) <= data@.len(),
        forall|m: PeerMessage|
            wf_peer(m) && frame_fits_u32(peer_payload(m))
                && #[trigger] prefix_at(data@, start, peer_frame(m)) ==> (r matches Ok(v)
                && peer_eq(v, m) && *final(pos) == start + peer_frame(m).len()),
{
    broadcast use crate::protocol::group_enc_facts;

    let ghost pstart = start + 8;
    let filename = match read_string(data, pos) {
        Ok(v) => v,
        Err(e) => {
            proof {
            assert forall|m: PeerMessage| wf_peer(m) && frame_fits_u32(peer_payload(m))
                && #[trigger] prefix_at(data@, start, peer_frame(m)) implies false by {
                peer_frame_parts(data@, start, m);
                assert(m is UploadDenied);
                assert(peer_payload(m) =~= enc_str(m->UploadDenied_filename@) + (enc_str(
                    rejection_chars(m->UploadDenied_reason),
                ) + Seq::<u8>::empty()));
                split_str(data@, pstart, m->UploadDenied_filename@, enc_str(
                    rejection_chars(m->UploadDenied_reason),
                ) + Seq::<u8>::empty());
            }
        }
            return Err(e);
        },
    };
    let reason_str = match read_string(data, pos) {
        Ok(v) => v,
        Err(e) => {
            proof {
            assert forall|m: PeerMessage| wf_peer(m) && frame_fits_u32(peer_payload(m))
                && #[trigger] prefix_at(data@, start, peer_frame(m)) implies false by {
                peer_frame_parts(data@, start, m);
                assert(m is UploadDenied);
                assert(peer_payload(m) =~= enc_str(m->UploadDenied_filename@) + (enc_str(
                    rejection_chars(m->UploadDenied_reason),
                ) + Seq::<u8>::empty()));
                split_str(data@, pstart, m->UploadDenied_filename@, enc_str(
                    rejection_chars(m->UploadDenied_reason),
                ) + Seq::<u8>::empty());
                match_str_at(data@, pstart, filename@, m->UploadDenied_filename@);
                split_str(
                    data@,
                    pstart + enc_str(m->UploadDenied_filename@).len(),
                    rejection_chars(m->UploadDenied_reason),
                    Seq::<u8>::empty(),
                );
            }
        }
            return Err(e);
        },
    };
    let reason = TransferRejectionReason::from_string(reason_str.clone());
    let v = PeerMessage::UploadDenied { filename, reason };
    proof {
            assert forall|m: PeerMessage| wf_peer(m) && frame_fits_u32(peer_payload(m))
                && #[trigger] prefix_at(data@, start, peer_frame(m)) implies peer_eq(v, m) && *pos == start + peer_frame(m).len() by {
                peer_frame_parts(data@, start, m);
                assert(m is UploadDenied);
                assert(peer_payload(m) =~= enc_str(m->UploadDenied_filename@) + (enc_str(
                    rejection_chars(m->UploadDenied_reason),
                ) + Seq::<u8>::empty()));
                split_str(data@, pstart, m->UploadDenied_filename@, enc_str(
                    rejection_chars(m->UploadDenied_reason),
                ) + Seq::<u8>::empty());
                match_str_at(data@, pstart, filename@, m->UploadDenied_filename@);
                split_str(
                    data@,
                    pstart + enc_str(m->UploadDenied_filename@).len(),
                    rejection_chars(m->UploadDenied_reason),
                    Seq::<u8>::empty(),
                );
                match_str_at(
                    data@,
                    pstart + enc_str(m->UploadDenied_filename@).len(),
                    reason_str@,
                    rejection_chars(m->UploadDenied_reason),
                );
                crate::constants::lemma_rejection_unique(reason, m->UploadDenied_reason);
            }
        }
    Ok(v)
}

fn read_place_in_queue_request_body(data: &Vec<u8>, pos: &mut usize, frame_end: usize, Ghost(start): Ghost<int>) -> (r: Result<
    PeerMessage,
    Error,
>)
    requires
        0 <= start,
        *old(pos) == start + 8,
        *old(pos) <= frame_end <= data@.len(),
        frame_end - start - 4 <= u32::MAX,
        data@.subrange(start, start + 4) == enc_u32((frame_end - start - 4) as u32),
        data@.subrange(start + 4, start + 8) == enc_u32(51),
    ensures
        *old(pos) <= *final(pos) <= data@.len(),
        forall|m: PeerMessage|
            wf_peer(m) && frame_fits_u32(peer_payload(m))
                && #[trigger] prefix_at(data@, start, peer_frame(m)) ==> (r matches Ok(v)
                && peer_eq(v, m) && *final(pos) == start + peer_frame(m).len()),
{
    broadcast use crate::protocol::group_enc_facts;

    let ghost pstart = start + 8;
    let filename = match read_string(data, pos) {
        Ok(v) => v,
        Err(e) => {
            proof {
            assert forall|m: PeerMessage| wf_peer(m) && frame_fits_u32(peer_payload(m))
                && #[trigger] prefix_at(data@, start, peer_frame(m)) implies false by {
                peer_frame_parts(data@, start, m);
                assert(m is PlaceInQueueRequest);
                assert(peer_payload(m) =~= enc_str(m->PlaceInQueueRequest_filename@) + Seq::<u8>::empty());
                split_str(data@, pstart, m->PlaceInQueueRequest_filename@, Seq::<u8>::empty());
            }
        }
            return Err(e);
        },
    };
    let v = PeerMessage::PlaceInQueueRequest { filename };
    proof {
            assert forall|m: PeerMessage| wf_peer(m) && frame_fits_u32(peer_payload(m))
                && #[trigger] prefix_at(data@, start, peer_frame(m)) implies peer_eq(v, m) && *pos == start + peer_frame(m).len() by {
                peer_frame_parts(data@, start, m);
                assert(m is PlaceInQueueRequest);
                assert(peer_payload(m) =~= enc_str(m->PlaceInQueueRequest_filename@) + Seq::<u8>::empty());
                split_str(data@, pstart, m->PlaceInQueueRequest_filename@, Seq::<u8>::empty());
                match_str_at(data@, pstart, filename@, m->PlaceInQueueRequest_filename@);
            }
        }
    Ok(v)
}

/// Reads one peer message: the `u32` length prefix, the `u32` code, and
/// the payload. The payload of the three zlib messages fills the rest
/// of the frame and is decompressed before parsing. Trailing bytes past
/// the frame are not consumed.
pub fn read_peer_message(data: &Vec<u8>, pos: &mut usize) -> (r: Result<PeerMessage, Error>)
    requires
        *old(pos) <= data@.len(),
    ensures
        *old(pos) <= *final(pos) <= data@.len(),
        forall|m: PeerMessage|
            wf_peer(m) && frame_fits_u32(peer_payload(m))
                && #[trigger] prefix_at(data@, *old(pos) as int, peer_frame(m)) ==> (r matches Ok(
                v,
            ) && peer_eq(v, m) && *final(pos) == *old(pos) + peer_frame(m).len()),
{
    broadcast use crate::protocol::group_enc_facts;

    let ghost start = *pos as int;
    let declared = match read_u32(data, pos) {
        Ok(v) => v,
        Err(e) => {
            proof {
            assert forall|m: PeerMessage| wf_peer(m) && frame_fits_u32(peer_payload(m))
                && #[trigger] prefix_at(data@, start, peer_frame(m)) implies false by {
                peer_frame_parts(data@, start, m);
            }
        }
            return Err(e);
        },
    };
    if declared < 4 {
        proof {
            assert forall|m: PeerMessage| wf_peer(m) && frame_fits_u32(peer_payload(m))
                && #[trigger] prefix_at(data@, start, peer_frame(m)) implies false by {
                peer_frame_parts(data@, start, m);
            }
        }
        return Err(Error::Protocol(String::from_str("declared length shorter than the code")));
    }
    if declared as usize > data.len() - *pos {
        proof {
            assert forall|m: PeerMessage| wf_peer(m) && frame_fits_u32(peer_payload(m))
                && #[trigger] prefix_at(data@, start, peer_frame(m)) implies false by {
                peer_frame_parts(data@, start, m);
            }
        }
        return Err(
            Error::BufferUnderflow { needed: declared as usize, available: data.len() - *pos },
        );
    }
    let frame_end = *pos + declared as usize;
    let code_val = match read_u32(data, pos) {
        Ok(v) => v,
        Err(e) => {
            proof {
                assert(false);
            }
            return Err(e);
        },
    };
    if code_val == 4 {
        let v = PeerMessage::SharedFileListRequest;
        proof {
            assert forall|m: PeerMessage| wf_peer(m) && frame_fits_u32(peer_payload(m))
                && #[trigger] prefix_at(data@, start, peer_frame(m)) implies peer_eq(v, m) && *pos == start + peer_frame(m).len() by {
                peer_frame_parts(data@, start, m);
                assert(m is SharedFileListRequest);
            }
        }
        Ok(v)
    } else if code_val == 5 {
        read_shared_file_list_response_body(data, pos, frame_end, Ghost(start))
    } else if code_val == 9 {
        read_file_search_response_body(data, pos, frame_end, Ghost(start))
    } else if code_val == 15 {
        let v = PeerMessage::UserInfoRequest;
        proof {
            assert forall|m: PeerMessage| wf_peer(m) && frame_fits_u32(peer_payload(m))
                && #[trigger] prefix_at(data@, start, peer_frame(m)) implies peer_eq(v, m) && *pos == start + peer_frame(m).len() by {
                peer_frame_parts(data@, start, m);
                assert(m is UserInfoRequest);
            }
        }
        Ok(v)
    } else if code_val == 16 {
        read_user_info_response_body(data, pos, frame_end, Ghost(start))
    } else if code_val == 36 {
        read_folder_contents_request_body(data, pos, frame_end, Ghost(start))
    } else if code_val == 37 {
        read_folder_contents_response_body(data, pos, frame_end, Ghost(start))
    } else if code_val == 40 {
        read_transfer_request_body(data, pos, frame_end, Ghost(start))
    } else if code_val == 41 {
        read_transfer_response_body(data, pos, frame_end, Ghost(start))
    } else if code_val == 43 {
        read_queue_upload_body(data, pos, frame_end, Ghost(start))
    } else if code_val == 44 {
        read_place_in_queue_response_body(data, pos, frame_end, Ghost(start))
    } else if code_val == 46 {
        read_upload_failed_body(data, pos, frame_end, Ghost(start))
    } else if code_val == 50 {
        read_upload_denied_body(data, pos, frame_end, Ghost(start))
    } else if code_val == 51 {
        read_place_in_queue_request_body(data, pos, frame_end, Ghost(start))
    } else if code_val == 52 {
        let v = PeerMessage::UploadQueueNotification;
        proof {
            assert forall|m: PeerMessage| wf_peer(m) && frame_fits_u32(peer_payload(m))
                && #[trigger] prefix_at(data@, start, peer_frame(m)) implies peer_eq(v, m) && *pos == start + peer_frame(m).len() by {
                peer_frame_parts(data@, start, m);
                assert(m is UploadQueueNotification);
            }
        }
        Ok(v)
    } else {
        proof {
            assert forall|m: PeerMessage| wf_peer(m) && frame_fits_u32(peer_payload(m))
                && #[trigger] prefix_at(data@, start, peer_frame(m)) implies false by {
                peer_frame_parts(data@, start, m);
            }
        }
        Err(Error::InvalidMessageCode(code_val))
    }
}

} // verus!
