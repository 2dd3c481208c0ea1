//! The best-file selector: given accumulated search results, filter to
//! audio files and rank by bitrate information, lossless format, then
//! bitrate, breaking ties by insertion order.

use vstd::prelude::*;
use vstd::utf8::encode_utf8;
use vstd::string::StrSliceExecFns;

use crate::peer::{FileAttribute, SearchResultFile};

verus! {

/// One search result attributed to the peer that sent it.
#[derive(Debug, Clone)]
pub struct AccumulatedResult {
    pub username: String,
    pub file: SearchResultFile,
}

/// The first attribute with the bitrate code, if any.
pub open spec fn spec_bitrate(attrs: Seq<FileAttribute>) -> Option<u32>
    decreases attrs.len(),
{
    if attrs.len() == 0 {
        None
    } else if attrs[0].code == 0 {
        Some(attrs[0].value)
    } else {
        spec_bitrate(attrs.drop_first())
    }
}

/// The bitrate attribute of a file (attribute code 0), if present.
pub fn get_bitrate(attributes: &Vec<FileAttribute>) -> (r: Option<u32>)
    ensures
        r == spec_bitrate(attributes@),
{
    let mut i: usize = 0;
    proof {
        assert(attributes@.skip(0) =~= attributes@);
    }
    while i < attributes.len()
        invariant
            i <= attributes@.len(),
            spec_bitrate(attributes@) == spec_bitrate(attributes@.skip(i as int)),
        decreases attributes@.len() - i,
    {
        let ghost before = attributes@.skip(i as int);
        if attributes[i].code == 0 {
            return Some(attributes[i].value);
        }
        i = i + 1;
        proof {
            assert(before[0] == attributes@[i - 1]);
            assert(before.drop_first() =~= attributes@.skip(i as int));
        }
    }
    proof {
        assert(attributes@.skip(attributes@.len() as int) =~= Seq::<FileAttribute>::empty());
    }
    None
}

/// An uppercase ASCII byte folded to lowercase; other bytes unchanged.
pub open spec fn lower_byte(b: u8) -> u8 {
    if 65 <= b <= 90 {
        (b + 32) as u8
    } else {
        b
    }
}

/// True when the name ends with the suffix, comparing ASCII letters
/// case-insensitively. The suffix is given in lowercase.
pub open spec fn ends_with_ci(name: Seq<u8>, suffix: Seq<u8>) -> bool {
    name.len() >= suffix.len() && forall|i: int|
        0 <= i < suffix.len() ==> lower_byte(name[name.len() - suffix.len() + i]) == #[trigger] suffix[i]
}

/// The recognised audio filename extensions, lowercase, as UTF-8 bytes.
pub open spec fn audio_extensions() -> Seq<Seq<u8>> {
    seq![
        "mp3"@, "flac"@, "m4a"@, "ogg"@, "opus"@, "wav"@, "aac"@, "wma"@, "ape"@, "alac"@,
        "aiff"@, "aif"@, "wv"@, "mpc"@,
    ].map_values(|s: Seq<char>| seq![46u8] + encode_utf8(s))
}

/// True when a filename (as UTF-8 bytes) carries an audio extension.
pub open spec fn is_audio_name(name: Seq<u8>) -> bool {
    exists|k: int| 0 <= k < audio_extensions().len() && ends_with_ci(name, #[trigger] audio_extensions()[k])
}

/// True when a filename (as UTF-8 bytes) ends in the lossless extension.
pub open spec fn is_flac_name(name: Seq<u8>) -> bool {
    ends_with_ci(name, seq![46u8] + encode_utf8("flac"@))
}

/// Checks one candidate suffix, case-insensitively, against the tail of
/// `name`. The suffix must already be lowercase.
fn ends_with_ci_exec(name: &Vec<u8>, suffix: &Vec<u8>) -> (r: bool)
    ensures
        r == ends_with_ci(name@, suffix@),
{
    if name.len() < suffix.len() {
        return false;
    }
    let offset = name.len() - suffix.len();
    let mut i: usize = 0;
    while i < suffix.len()
        invariant
            name@.len() >= suffix@.len(),
            offset == name@.len() - suffix@.len(),
            offset + suffix@.len() == name@.len(),
            name@.len() <= usize::MAX,
            i <= suffix@.len(),
            forall|j: int| 0 <= j < i ==> lower_byte(name@[offset + j]) == #[trigger] suffix@[j],
        decreases suffix@.len() - i,
    {
        proof {
            assert(offset + i < name@.len());
        }
        let b = name[offset + i];
        let folded = if 65 <= b && b <= 90 {
            b + 32
        } else {
            b
        };
        if folded != suffix[i] {
            return false;
        }
        i = i + 1;
    }
    true
}

/// Builds the lowercase byte form of one extension, dot included.
fn extension_bytes(ext: &str) -> (r: Vec<u8>)
    ensures
        r@ == seq![46u8] + encode_utf8(ext@),
{
    let mut v: Vec<u8> = Vec::new();
    v.push(46);
    let mut tail = ext.as_bytes_vec();
    v.append(&mut tail);
    proof {
        assert(v@ =~= seq![46u8] + encode_utf8(ext@));
    }
    v
}

/// True when the filename carries one of the audio extensions,
/// compared case-insensitively.
pub fn has_audio_extension(filename: &str) -> (r: bool)
    ensures
        r == is_audio_name(encode_utf8(filename@)),
{
    let name = filename.as_bytes_vec();
    let exts: [&'static str; 14] = [
        "mp3", "flac", "m4a", "ogg", "opus", "wav", "aac", "wma", "ape", "alac", "aiff", "aif",
        "wv", "mpc",
    ];
    let mut k: usize = 0;
    while k < 14
        invariant
            name@ == encode_utf8(filename@),
            k <= 14,
            exts@.map_values(|s: &str| s@) =~= seq![
                "mp3"@, "flac"@, "m4a"@, "ogg"@, "opus"@, "wav"@, "aac"@, "wma"@, "ape"@,
                "alac"@, "aiff"@, "aif"@, "wv"@, "mpc"@,
            ],
            forall|j: int| 0 <= j < k ==> !ends_with_ci(name@, #[trigger] audio_extensions()[j]),
        decreases 14 - k,
    {
        let ext = extension_bytes(exts[k]);
        proof {
            assert(audio_extensions()[k as int] == seq![46u8] + encode_utf8(
                exts@.map_values(|s: &str| s@)[k as int],
            ));
        }
        if ends_with_ci_exec(&name, &ext) {
            proof {
                assert(ends_with_ci(name@, audio_extensions()[k as int]));
            }
            return true;
        }
        k = k + 1;
    }
    proof {
        assert(!is_audio_name(name@));
    }
    false
}

/// True when the filename ends in the lossless extension.
pub fn is_flac(filename: &str) -> (r: bool)
    ensures
        r == is_flac_name(encode_utf8(filename@)),
{
    let name = filename.as_bytes_vec();
    let ext = extension_bytes("flac");
    ends_with_ci_exec(&name, &ext)
}

/// The ranking key of a search result file: bitrate information first,
/// the lossless format next, the bitrate itself last.
pub open spec fn has_rate_info(f: SearchResultFile) -> bool {
    spec_bitrate(f.attributes@) is Some || is_flac_name(encode_utf8(f.filename@))
}

pub open spec fn rate_of(f: SearchResultFile) -> u32 {
    match spec_bitrate(f.attributes@) {
        Some(b) => b,
        None => 0,
    }
}

/// Strictly better in the selector's order.
pub open spec fn sel_better(a: SearchResultFile, b: SearchResultFile) -> bool {
    ||| (has_rate_info(a) && !has_rate_info(b))
    ||| (has_rate_info(a) == has_rate_info(b) && is_flac_name(encode_utf8(a.filename@))
        && !is_flac_name(encode_utf8(b.filename@)))
    ||| (has_rate_info(a) == has_rate_info(b) && is_flac_name(encode_utf8(a.filename@))
        == is_flac_name(encode_utf8(b.filename@)) && rate_of(a) > rate_of(b))
}

/// True when index `i` of `results` is an audio candidate.
pub open spec fn is_audio_at(results: Seq<AccumulatedResult>, i: int) -> bool {
    is_audio_name(encode_utf8(results[i].file.filename@))
}

/// Picks the best audio candidate: the earliest index whose file no
/// other audio candidate strictly beats. Returns `None` when no result
/// carries an audio extension.
pub fn pick_best_file(results: &Vec<AccumulatedResult>) -> (r: Option<usize>)
    ensures
        match r {
            Some(i) => {
                &&& i < results@.len()
                &&& is_audio_at(results@, i as int)
                &&& forall|j: int|
                    0 <= j < results@.len() && is_audio_at(results@, j) ==> !sel_better(
                        #[trigger] results@[j].file,
                        results@[i as int].file,
                    )
                &&& forall|j: int|
                    0 <= j < i && is_audio_at(results@, j) ==> sel_better(
                        results@[i as int].file,
                        #[trigger] results@[j].file,
                    )
            },
            None => forall|j: int| 0 <= j < results@.len() ==> !is_audio_at(results@, j),
        },
{
    let mut best: Option<usize> = None;
    let mut i: usize = 0;
    while i < results.len()
        invariant
            i <= results@.len(),
            match best {
                Some(b) => {
                    &&& b < i
                    &&& is_audio_at(results@, b as int)
                    &&& forall|j: int|
                        0 <= j < i && is_audio_at(results@, j) ==> !sel_better(
                            #[trigger] results@[j].file,
                            results@[b as int].file,
                        )
                    &&& forall|j: int|
                        0 <= j < b && is_audio_at(results@, j) ==> sel_better(
                            results@[b as int].file,
                            #[trigger] results@[j].file,
                        )
                },
                None => forall|j: int| 0 <= j < i ==> !is_audio_at(results@, j),
            },
        decreases results@.len() - i,
    {
        if has_audio_extension(results[i].file.filename.as_str()) {
            let better = match best {
                Some(b) => {
                    let cand = &results[i].file;
                    let cur = &results[b].file;
                    let cand_rate = get_bitrate(&cand.attributes);
                    let cur_rate = get_bitrate(&cur.attributes);
                    let cand_flac = is_flac(cand.filename.as_str());
                    let cur_flac = is_flac(cur.filename.as_str());
                    let cand_info = cand_rate.is_some() || cand_flac;
                    let cur_info = cur_rate.is_some() || cur_flac;
                    if cand_info != cur_info {
                        cand_info
                    } else if cand_flac != cur_flac {
                        cand_flac
                    } else {
                        let cr = match cand_rate {
                            Some(v) => v,
                            None => 0,
                        };
                        let ur = match cur_rate {
                            Some(v) => v,
                            None => 0,
                        };
                        cr > ur
                    }
                },
                None => true,
            };
            if better {
                best = Some(i);
            }
        }
        i = i + 1;
    }
    best
}


/// True when a username appears in the exclusion list.
pub open spec fn username_excluded(exclude: Seq<String>, u: Seq<char>) -> bool {
    exists|k: int| 0 <= k < exclude.len() && (#[trigger] exclude[k])@ == u
}

/// True when index `j` of `results` is an audio candidate from a user
/// who is not excluded.
pub open spec fn eligible_at(results: Seq<AccumulatedResult>, exclude: Seq<String>, j: int) -> bool {
    is_audio_at(results, j) && !username_excluded(exclude, results[j].username@)
}

/// True when index `j` is eligible and its user is not among the
/// already chosen indices.
pub open spec fn available_at(
    results: Seq<AccumulatedResult>,
    exclude: Seq<String>,
    chosen: Seq<usize>,
    j: int,
) -> bool {
    eligible_at(results, exclude, j) && !(exists|k: int|
        0 <= k < chosen.len() && results[#[trigger] chosen[k] as int].username@
            == results[j].username@)
}

/// True when the username of `u` appears in the exclusion list.
fn is_excluded(exclude_users: &Vec<String>, u: &String) -> (r: bool)
    ensures
        r == username_excluded(exclude_users@, u@),
{
    let mut k: usize = 0;
    while k < exclude_users.len()
        invariant
            k <= exclude_users@.len(),
            forall|j: int| 0 <= j < k ==> (#[trigger] exclude_users@[j])@ != u@,
        decreases exclude_users@.len() - k,
    {
        if exclude_users[k].eq(u) {
            return true;
        }
        k = k + 1;
    }
    false
}

/// True when the username of `u` is that of an already chosen index.
fn is_chosen_user(results: &Vec<AccumulatedResult>, chosen: &Vec<usize>, u: &String) -> (r: bool)
    requires
        forall|k: int| 0 <= k < chosen@.len() ==> #[trigger] chosen@[k] < results@.len(),
    ensures
        r == (exists|k: int|
            0 <= k < chosen@.len() && results@[#[trigger] chosen@[k] as int].username@ == u@),
{
    let mut k: usize = 0;
    while k < chosen.len()
        invariant
            k <= chosen@.len(),
            forall|j: int| 0 <= j < chosen@.len() ==> #[trigger] chosen@[j] < results@.len(),
            forall|j: int|
                0 <= j < k ==> results@[#[trigger] chosen@[j] as int].username@ != u@,
        decreases chosen@.len() - k,
    {
        if results[chosen[k]].username.eq(u) {
            proof {
                assert(results@[chosen@[k as int] as int].username@ == u@);
            }
            return true;
        }
        k = k + 1;
    }
    false
}

/// Scans for the best candidate that is eligible and whose user has no
/// pick yet: the earliest index no such candidate strictly beats.
fn scan_best(
    results: &Vec<AccumulatedResult>,
    exclude_users: &Vec<String>,
    chosen: &Vec<usize>,
) -> (r: Option<usize>)
    requires
        forall|k: int| 0 <= k < chosen@.len() ==> #[trigger] chosen@[k] < results@.len(),
    ensures
        match r {
            Some(p) => {
                &&& p < results@.len()
                &&& available_at(results@, exclude_users@, chosen@, p as int)
                &&& forall|j: int|
                    0 <= j < results@.len() && available_at(results@, exclude_users@, chosen@, j)
                        ==> !sel_better(#[trigger] results@[j].file, results@[p as int].file)
                &&& forall|j: int|
                    0 <= j < p && available_at(results@, exclude_users@, chosen@, j)
                        ==> sel_better(results@[p as int].file, #[trigger] results@[j].file)
            },
            None => forall|j: int|
                0 <= j < results@.len() ==> !available_at(results@, exclude_users@, chosen@, j),
        },
{
    let mut best: Option<usize> = None;
    let mut i: usize = 0;
    while i < results.len()
        invariant
            i <= results@.len(),
            forall|k: int| 0 <= k < chosen@.len() ==> #[trigger] chosen@[k] < results@.len(),
            match best {
                Some(b) => {
                    &&& b < i
                    &&& available_at(results@, exclude_users@, chosen@, b as int)
                    &&& forall|j: int|
                        0 <= j < i && available_at(results@, exclude_users@, chosen@, j)
                            ==> !sel_better(#[trigger] results@[j].file, results@[b as int].file)
                    &&& forall|j: int|
                        0 <= j < b && available_at(results@, exclude_users@, chosen@, j)
                            ==> sel_better(results@[b as int].file, #[trigger] results@[j].file)
                },
                None => forall|j: int|
                    0 <= j < i ==> !available_at(results@, exclude_users@, chosen@, j),
            },
        decreases results@.len() - i,
    {
        let cand_ok = has_audio_extension(results[i].file.filename.as_str()) && !is_excluded(
            exclude_users,
            &results[i].username,
        ) && !is_chosen_user(results, chosen, &results[i].username);
        if cand_ok {
            let better = match best {
                Some(b) => {
                    let cand = &results[i].file;
                    let cur = &results[b].file;
                    let cand_rate = get_bitrate(&cand.attributes);
                    let cur_rate = get_bitrate(&cur.attributes);
                    let cand_flac = is_flac(cand.filename.as_str());
                    let cur_flac = is_flac(cur.filename.as_str());
                    let cand_info = cand_rate.is_some() || cand_flac;
                    let cur_info = cur_rate.is_some() || cur_flac;
                    if cand_info != cur_info {
                        cand_info
                    } else if cand_flac != cur_flac {
                        cand_flac
                    } else {
                        let cr = match cand_rate {
                            Some(v) => v,
                            None => 0,
                        };
                        let ur = match cur_rate {
                            Some(v) => v,
                            None => 0,
                        };
                        cr > ur
                    }
                },
                None => true,
            };
            if better {
                best = Some(i);
            }
        }
        i = i + 1;
    }
    best
}

/// Picks up to ten download candidates from search results: audio files
/// from users who are not excluded, at most one per username, each pick
/// the best its user offered and the earliest seen among equals.
pub fn pick_best_files(
    results: &Vec<AccumulatedResult>,
    exclude_users: &Vec<String>,
) -> (r: Vec<usize>)
    ensures
        r@.len() <= 10,
        forall|k: int|
            0 <= k < r@.len() ==> #[trigger] r@[k] < results@.len() && eligible_at(
                results@,
                exclude_users@,
                r@[k] as int,
            ),
        forall|k1: int, k2: int|
            0 <= k1 < k2 < r@.len() ==> results@[#[trigger] r@[k1] as int].username@
                != results@[#[trigger] r@[k2] as int].username@,
        forall|k: int, j: int|
            #![trigger r@[k], results@[j]]
            0 <= k < r@.len() && 0 <= j < results@.len() && eligible_at(
                results@,
                exclude_users@,
                j,
            ) && results@[j].username@ == results@[r@[k] as int].username@ ==> !sel_better(
                results@[j].file,
                results@[r@[k] as int].file,
            ) && (!sel_better(results@[r@[k] as int].file, results@[j].file) ==> r@[k] <= j),
        forall|k1: int, k2: int|
            0 <= k1 < k2 < r@.len() ==> !sel_better(
                results@[#[trigger] r@[k2] as int].file,
                results@[#[trigger] r@[k1] as int].file,
            ),
        (exists|j: int| 0 <= j < results@.len() && eligible_at(results@, exclude_users@, j))
            ==> r@.len() >= 1,
        r@.len() < 10 ==> forall|j: int|
            0 <= j < results@.len() && eligible_at(results@, exclude_users@, j)
                ==> exists|k: int|
                0 <= k < r@.len() && results@[#[trigger] r@[k] as int].username@
                    == results@[j].username@,
{
    let mut chosen: Vec<usize> = Vec::new();
    let mut rounds: usize = 0;
    while rounds < 10
        invariant
            rounds <= 10,
            chosen@.len() <= rounds,
            rounds > 0 ==> chosen@.len() == rounds,
            forall|k: int|
                0 <= k < chosen@.len() ==> #[trigger] chosen@[k] < results@.len() && eligible_at(
                    results@,
                    exclude_users@,
                    chosen@[k] as int,
                ),
            forall|k1: int, k2: int|
                0 <= k1 < k2 < chosen@.len() ==> results@[#[trigger] chosen@[k1] as int].username@
                    != results@[#[trigger] chosen@[k2] as int].username@,
            forall|k: int, j: int|
                #![trigger chosen@[k], results@[j]]
                0 <= k < chosen@.len() && 0 <= j < results@.len() && eligible_at(
                    results@,
                    exclude_users@,
                    j,
                ) && results@[j].username@ == results@[chosen@[k] as int].username@
                    ==> !sel_better(results@[j].file, results@[chosen@[k] as int].file) && (
                !sel_better(results@[chosen@[k] as int].file, results@[j].file)
                    ==> chosen@[k] <= j),
            forall|k: int, j: int|
                #![trigger chosen@[k], results@[j]]
                0 <= k < chosen@.len() && 0 <= j < results@.len() && available_at(
                    results@,
                    exclude_users@,
                    chosen@,
                    j,
                ) ==> !sel_better(results@[j].file, results@[chosen@[k] as int].file),
            forall|k1: int, k2: int|
                0 <= k1 < k2 < chosen@.len() ==> !sel_better(
                    results@[#[trigger] chosen@[k2] as int].file,
                    results@[#[trigger] chosen@[k1] as int].file,
                ),
        decreases 10 - rounds,
    {
        let ghost chosen_old = chosen@;
        let pick = scan_best(results, exclude_users, &chosen);
        match pick {
            Some(p) => {
                chosen.push(p);
                proof {
                    assert(chosen@ =~= chosen_old.push(p));
                    assert(available_at(results@, exclude_users@, chosen_old, p as int));
                    assert forall|k: int, j: int|
                        #![trigger chosen@[k], results@[j]]
                        0 <= k < chosen@.len() && 0 <= j < results@.len() && eligible_at(
                            results@,
                            exclude_users@,
                            j,
                        ) && results@[j].username@ == results@[chosen@[k] as int].username@
                        implies !sel_better(results@[j].file, results@[chosen@[k] as int].file)
                        && (!sel_better(results@[chosen@[k] as int].file, results@[j].file)
                        ==> chosen@[k] <= j) by {
                        if k == chosen_old.len() {
                            assert(available_at(results@, exclude_users@, chosen_old, j));
                            if !sel_better(results@[p as int].file, results@[j].file) {
                                assert(j >= p);
                            }
                        } else {
                            assert(chosen@[k] == chosen_old[k]);
                        }
                    }
                    assert forall|k: int, j: int|
                        #![trigger chosen@[k], results@[j]]
                        0 <= k < chosen@.len() && 0 <= j < results@.len() && available_at(
                            results@,
                            exclude_users@,
                            chosen@,
                            j,
                        ) implies !sel_better(
                        results@[j].file,
                        results@[chosen@[k] as int].file,
                    ) by {
                        assert forall|k2: int| 0 <= k2 < chosen_old.len() implies results@[
                            #[trigger] chosen_old[k2] as int
                        ].username@ != results@[j].username@ by {
                            assert(chosen@[k2] == chosen_old[k2]);
                            assert(results@[chosen@[k2] as int].username@ != results@[j].username@);
                        }
                        assert(available_at(results@, exclude_users@, chosen_old, j));
                        if k < chosen_old.len() {
                            assert(chosen@[k] == chosen_old[k]);
                        }
                    }
                    assert forall|k1: int, k2: int|
                        0 <= k1 < k2 < chosen@.len() implies !sel_better(
                        results@[#[trigger] chosen@[k2] as int].file,
                        results@[#[trigger] chosen@[k1] as int].file,
                    ) by {
                        if k2 == chosen_old.len() {
                            assert(available_at(results@, exclude_users@, chosen_old, p as int));
                            assert(chosen@[k1] == chosen_old[k1]);
                        } else {
                            assert(chosen@[k1] == chosen_old[k1]);
                            assert(chosen@[k2] == chosen_old[k2]);
                        }
                    }
                }
            },
            None => {
                proof {
                    assert forall|j: int|
                        0 <= j < results@.len() && eligible_at(
                            results@,
                            exclude_users@,
                            j,
                        ) implies exists|k: int|
                        0 <= k < chosen@.len() && results@[#[trigger] chosen@[k] as int].username@
                            == results@[j].username@ by {
                        assert(!available_at(results@, exclude_users@, chosen@, j));
                    }
                }
                return chosen;
            },
        }
        rounds = rounds + 1;
    }
    chosen
}

} // verus!
