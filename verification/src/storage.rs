//! What is stored between sessions: compressed project files and the list of
//! recently opened projects.
use vstd::prelude::*;

use std::io::Read;
use std::io::Write;

use crate::positions::{lemma_filter_all, lemma_filter_keeps_no_duplicates};

verus! {

/// The most projects the list of recent projects holds.
pub const MAX_RECENT_PROJECTS: usize = 10;

/// The zlib stream that flate2's `ZlibEncoder` at the default level writes for `bytes`.
pub uninterp spec fn zlib_compressed(bytes: Seq<u8>) -> Seq<u8>;

/// What flate2's `ZlibDecoder` reads from `bytes` to the end, or nothing when
/// `bytes` is not a complete zlib stream.
pub uninterp spec fn zlib_decompressed(bytes: Seq<u8>) -> Option<Seq<u8>>;

/// Calls `flate2::write::ZlibEncoder::new` on an empty `Vec` with
/// `Compression::default()`, `write_all` with `bytes`, and `finish`.  Claims
/// that this succeeds (writing into a `Vec` cannot fail, and the
/// compressor's error results come only from misuse: bad parameters, an
/// empty output buffer, or input after the end of the stream), that the
/// result is the stream named `zlib_compressed(bytes)`, and that
/// decompressing it gives `bytes` back (flate2's own round-trip tests check
/// this).
#[verifier::external_body]
fn zlib_compress(bytes: &[u8]) -> (compressed: Option<Vec<u8>>)
    ensures
        compressed is Some,
        compressed matches Some(c) ==> c@ == zlib_compressed(bytes@) && zlib_decompressed(c@) == Some(
            bytes@,
        ),
{
    let mut encoder = flate2::write::ZlibEncoder::new(Vec::new(), flate2::Compression::default());
    match encoder.write_all(bytes) {
        Ok(()) => encoder.finish().ok(),
        Err(_) => None,
    }
}

/// Calls `flate2::read::ZlibDecoder::new` on `bytes` and `read_to_end`.
/// Claims that the outcome is `zlib_decompressed(bytes)`.
#[verifier::external_body]
fn zlib_decompress(bytes: &[u8]) -> (decompressed: Option<Vec<u8>>)
    ensures
        match decompressed {
            Some(d) => zlib_decompressed(bytes@) == Some(d@),
            None => zlib_decompressed(bytes@) is None,
        },
{
    let mut decoder = flate2::read::ZlibDecoder::new(bytes);
    let mut out = Vec::new();
    match decoder.read_to_end(&mut out) {
        Ok(_) => Some(out),
        Err(_) => None,
    }
}

/// The content of a project file for a serialized document: its zlib
/// compression, which always succeeds.  Reading the file gives the serialized
/// document back.
pub fn pack_project(serialized: &[u8]) -> (packed: Option<Vec<u8>>)
    ensures
        packed is Some,
        packed matches Some(p) ==> p@ == zlib_compressed(serialized@) && unpacked(p@) == Some(serialized@),
{
    zlib_compress(serialized)
}

/// The serialized document held by the content of a project file.
pub open spec fn unpacked(bytes: Seq<u8>) -> Option<Seq<u8>> {
    zlib_decompressed(bytes)
}

/// The serialized document held by the content of a project file, or
/// nothing when it is not a complete zlib stream.
pub fn unpack_project(bytes: &[u8]) -> (serialized: Option<Vec<u8>>)
    ensures
        match serialized {
            Some(s) => unpacked(bytes@) == Some(s@),
            None => unpacked(bytes@) is None,
        },
{
    zlib_decompress(bytes)
}

/// The texts of a sequence of strings.
pub open spec fn string_views(strings: Seq<String>) -> Seq<Seq<char>> {
    strings.map_values(|s: String| s@)
}

/// The `k` low bytes of `n`, least significant first.
pub open spec fn little_endian(n: int, k: nat) -> Seq<u8>
    decreases k,
{
    if k == 0 {
        Seq::empty()
    } else {
        seq![(n % 256) as u8] + little_endian(n / 256, (k - 1) as nat)
    }
}

/// The UTF-8 encoding of a character.
pub open spec fn utf8_char(c: char) -> Seq<u8> {
    let n = c as int;
    if n < 0x80 {
        seq![n as u8]
    } else if n < 0x800 {
        seq![(0xc0 + n / 64) as u8, (0x80 + n % 64) as u8]
    } else if n < 0x10000 {
        seq![(0xe0 + n / 4096) as u8, (0x80 + (n / 64) % 64) as u8, (0x80 + n % 64) as u8]
    } else {
        seq![
            (0xf0 + n / 262144) as u8,
            (0x80 + (n / 4096) % 64) as u8,
            (0x80 + (n / 64) % 64) as u8,
            (0x80 + n % 64) as u8,
        ]
    }
}

/// The UTF-8 encoding of a text.
pub open spec fn utf8(text: Seq<char>) -> Seq<u8> {
    text.map_values(|c: char| utf8_char(c)).flatten()
}

/// The bytes that `bincode::serialize` (bincode 1, its default fixed-width
/// little-endian configuration) writes for a list of strings: the number of
/// strings as 8 bytes, then each string's byte length as 8 bytes followed by
/// its UTF-8 bytes.
pub open spec fn bincode_strings(strings: Seq<Seq<char>>) -> Seq<u8> {
    little_endian(strings.len() as int, 8) + strings.map_values(
        |text: Seq<char>| little_endian(utf8(text).len() as int, 8) + utf8(text),
    ).flatten()
}

/// The list of strings that `bincode::deserialize` (bincode 1) reads from
/// `bytes`, or nothing when it fails.
pub uninterp spec fn bincode_read_strings(bytes: Seq<u8>) -> Option<Seq<Seq<char>>>;

/// Calls `bincode::serialize` on `strings`.  Claims that it succeeds (its
/// size limit is infinite, a `Vec` has a known length, and it writes into a
/// `Vec`), that the result is laid out as `bincode_strings` states, and that
/// `bincode::deserialize`, which uses the same configuration, reads those
/// texts back from it.
#[verifier::external_body]
fn bincode_serialize_strings(strings: &Vec<String>) -> (bytes: Option<Vec<u8>>)
    ensures
        bytes is Some,
        bytes matches Some(b) ==> b@ == bincode_strings(string_views(strings@)) && bincode_read_strings(b@)
            == Some(string_views(strings@)),
{
    bincode::serialize(strings).ok()
}

/// Calls `bincode::deserialize` for a `Vec<String>` on `bytes`.  Claims that
/// the outcome is `bincode_read_strings(bytes)`.
#[verifier::external_body]
fn bincode_deserialize_strings(bytes: &[u8]) -> (strings: Option<Vec<String>>)
    ensures
        match strings {
            Some(s) => bincode_read_strings(bytes@) == Some(string_views(s@)),
            None => bincode_read_strings(bytes@) is None,
        },
{
    bincode::deserialize::<Vec<String>>(bytes).ok()
}

/// The stored form of the list of recent projects, which always exists;
/// decoding it gives the list back.
pub fn encode_recent_projects(projects: &Vec<String>) -> (bytes: Option<Vec<u8>>)
    ensures
        bytes is Some,
        bytes matches Some(b) ==> b@ == bincode_strings(string_views(projects@)) && bincode_read_strings(b@)
            == Some(string_views(projects@)),
{
    bincode_serialize_strings(projects)
}

/// The list of recent projects read from its stored form, or nothing when it
/// cannot be read.
pub fn decode_recent_projects(bytes: &[u8]) -> (projects: Option<Vec<String>>)
    ensures
        match projects {
            Some(p) => bincode_read_strings(bytes@) == Some(string_views(p@)),
            None => bincode_read_strings(bytes@) is None,
        },
{
    bincode_deserialize_strings(bytes)
}

/// Whether `c` has the Unicode property White_Space, the whitespace that
/// `str::trim` removes.
pub open spec fn is_white_space(c: char) -> bool {
    let n = c as u32;
    ||| 0x9 <= n <= 0xd
    ||| n == 0x20 || n == 0x85 || n == 0xa0 || n == 0x1680
    ||| 0x2000 <= n <= 0x200a
    ||| n == 0x2028 || n == 0x2029 || n == 0x202f || n == 0x205f || n == 0x3000
}

/// `s` without its leading whitespace.
pub open spec fn trimmed_start(s: Seq<char>) -> Seq<char>
    decreases s.len(),
{
    if s.len() > 0 && is_white_space(s[0]) {
        trimmed_start(s.drop_first())
    } else {
        s
    }
}

/// `s` without its trailing whitespace.
pub open spec fn trimmed_end(s: Seq<char>) -> Seq<char>
    decreases s.len(),
{
    if s.len() > 0 && is_white_space(s.last()) {
        trimmed_end(s.drop_last())
    } else {
        s
    }
}

/// `path` without leading and trailing whitespace, as `str::trim` gives it.
pub open spec fn trimmed(path: Seq<char>) -> Seq<char> {
    trimmed_end(trimmed_start(path))
}

/// Calls `str::trim`.  Claims that the result is `path` without its leading
/// and trailing White_Space characters, as std documents it.
#[verifier::external_body]
fn trim_str(path: &str) -> (t: &str)
    ensures
        t@ == trimmed(path@),
{
    path.trim()
}

/// The list of recent projects after opening or saving `path`: the trimmed
/// path first, without any other copy of it, and at most
/// `MAX_RECENT_PROJECTS` entries; unchanged for a blank path.
pub open spec fn remembered(recent: Seq<Seq<char>>, path: Seq<char>) -> Seq<Seq<char>> {
    let t = trimmed(path);
    if t.len() == 0 {
        recent
    } else {
        let all = seq![t] + recent.filter(|r: Seq<char>| r != t);
        if all.len() <= MAX_RECENT_PROJECTS {
            all
        } else {
            all.take(MAX_RECENT_PROJECTS as int)
        }
    }
}

/// The list of recent projects stays a list without repeated paths and of at
/// most `MAX_RECENT_PROJECTS` entries when a project is remembered; a
/// non-blank path, trimmed, comes first.
pub proof fn lemma_remembered_list(recent: Seq<Seq<char>>, path: Seq<char>)
    requires
        recent.no_duplicates(),
        recent.len() <= MAX_RECENT_PROJECTS,
    ensures
        remembered(recent, path).no_duplicates(),
        remembered(recent, path).len() <= MAX_RECENT_PROJECTS,
        trimmed(path).len() > 0 ==> remembered(recent, path)[0] == trimmed(path),
{
    let t = trimmed(path);
    if t.len() > 0 {
        let pred = |r: Seq<char>| r != t;
        let kept = recent.filter(pred);
        lemma_filter_keeps_no_duplicates(recent, pred);
        assert forall|i: int, j: int| 0 <= i < 1 && 0 <= j < kept.len() implies seq![t][i] != kept[j] by {
            recent.lemma_filter_pred(pred, j);
        }
        vstd::seq_lib::lemma_no_dup_in_concat(seq![t], kept);
        let all = seq![t] + kept;
        if all.len() > MAX_RECENT_PROJECTS {
            let short = all.take(MAX_RECENT_PROJECTS as int);
            assert(short.no_duplicates()) by {
                assert forall|i: int, j: int|
                    0 <= i < short.len() && 0 <= j < short.len() && i != j implies
                    short[i] != short[j] by {
                    assert(short[i] == all[i] && short[j] == all[j]);
                }
            }
        }
    }
}

/// The remembered list starts with the trimmed path, followed by the earlier
/// entries other than that path in their earlier order, as many as fit in
/// `MAX_RECENT_PROJECTS`; a blank path changes nothing.  So when the path
/// was not listed and the list was full, the oldest entry is the one dropped.
pub proof fn lemma_remembered_order(recent: Seq<Seq<char>>, path: Seq<char>)
    ensures
        trimmed(path).len() == 0 ==> remembered(recent, path) == recent,
        trimmed(path).len() > 0 ==> {
            let t = trimmed(path);
            let rest = recent.filter(|r: Seq<char>| r != t);
            let r = remembered(recent, path);
            &&& r.len() == if rest.len() + 1 <= MAX_RECENT_PROJECTS {
                rest.len() + 1int
            } else {
                MAX_RECENT_PROJECTS as int
            }
            &&& r[0] == t
            &&& forall|k: int| 1 <= k < r.len() ==> #[trigger] r[k] == rest[k - 1]
        },
        trimmed(path).len() > 0 && !recent.contains(trimmed(path)) ==> {
            let t = trimmed(path);
            let r = remembered(recent, path);
            &&& recent.len() + 1 <= MAX_RECENT_PROJECTS ==> r == seq![t] + recent
            &&& recent.len() + 1 > MAX_RECENT_PROJECTS ==> r == seq![t] + recent.take(
                MAX_RECENT_PROJECTS - 1,
            )
        },
{
    let t = trimmed(path);
    if t.len() > 0 {
        let pred = |r: Seq<char>| r != t;
        let rest = recent.filter(pred);
        let all = seq![t] + rest;
        let r = remembered(recent, path);
        assert forall|k: int| 1 <= k < r.len() implies #[trigger] r[k] == rest[k - 1] by {
            assert(r[k] == all[k]);
        }
        if !recent.contains(t) {
            assert forall|i: int| 0 <= i < recent.len() implies pred(#[trigger] recent[i]) by {
                if recent[i] == t {
                    assert(recent.contains(t));
                }
            }
            lemma_filter_all(recent, pred);
            assert(rest == recent);
            if recent.len() + 1 > MAX_RECENT_PROJECTS {
                assert(all.take(MAX_RECENT_PROJECTS as int) =~= seq![t] + recent.take(
                    MAX_RECENT_PROJECTS - 1,
                ));
            }
        }
    }
}

/// Records that `path` was opened or saved in the list of recent projects.
pub fn remember_project(recent: &mut Vec<String>, path: &str)
    ensures
        string_views(final(recent)@) == remembered(string_views(old(recent)@), path@),
{
    let trimmed_path = trim_str(path);
    if trimmed_path.is_empty() {
        return;
    }
    let entry = String::from_str(trimmed_path);
    let mut old_list: Vec<String> = Vec::new();
    std::mem::swap(&mut old_list, recent);
    let ghost orig = string_views(old_list@);
    let ghost t = entry@;
    let mut kept: Vec<String> = Vec::new();
    kept.push(entry.clone());
    for item in it: old_list
        invariant
            it.seq() == old_list@,
            orig == string_views(old_list@),
            t == entry@,
            string_views(kept@) == seq![t] + orig.take(it.index() as int).filter(|r: Seq<char>| r != t),
    {
        proof {
            reveal_with_fuel(Seq::filter, 1);
            assert(orig.take(it.index() + 1).drop_last() =~= orig.take(it.index() as int));
        }
        let ghost prev = string_views(kept@);
        if item != entry {
            kept.push(item);
            proof {
                assert(string_views(kept@) =~= prev.push(item@));
            }
        }
    }
    proof {
        assert(orig.take(orig.len() as int) =~= orig);
    }
    let ghost all = string_views(kept@);
    kept.truncate(MAX_RECENT_PROJECTS);
    proof {
        assert(string_views(kept@) =~= if all.len() <= MAX_RECENT_PROJECTS {
            all
        } else {
            all.take(MAX_RECENT_PROJECTS as int)
        });
    }
    *recent = kept;
}

} // verus!
