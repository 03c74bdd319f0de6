//! Research state: the `P9ResearchSubsystem`'s technology arrays.
//!
//! Two `ArrayProperty<ObjectProperty>` lists of `BP_Technology_*` class
//! paths matter:
//!
//! - `UnlockedResearches`: technologies visible/available in the tree.
//! - `DiscoveredTechnologies`: technologies actually completed
//!   (`Discovered ⊆ Unlocked` in every save surveyed).
//!
//! There is no per-technology "researched" bool: completing research
//! save-side means appending the missing class-path strings to the
//! `DiscoveredTechnologies` array payload and cascading four size fields:
//! the array's payload size, its element count, the subsystem record size,
//! and the whole-body size at offset 0 (the prefix EOF fields are handled
//! by [`crate::sav::SaveFile::to_bytes`]).
//!
//! v3 array header (after the two lstr type names and inner-type tree):
//!
//! ```text
//! [i32 0][u8 0][i32 payload_size][u8 0][i32 count][lstr element]*
//! ```
//!
//! Appending is restricted to archive v3, matching the item-injection
//! policy; v2 reads work through the same parse path.
use vstd::prelude::*;
use vstd::utf8::encode_utf8;

use crate::bytes::{
    bytes_eq, lstr, lstr_bytes, read_i32, read_lstr, read_usize, spec_read_i32, spec_read_lstr,
    spec_read_usize, spec_splice, splice,
};
use crate::elb::{adjust_i32, find_record, spec_adjust_i32, spec_find_record};
use crate::error::{Error, ErrorModel, Result};
use crate::fits_address_space;
use crate::sav::ArchiveVersion;
use crate::search::{find_first, spec_find};
use crate::text::{lossy_decode, string_from_utf8_lossy};

verus! {

/// Bytes of "/Script/P9Playable.P9ResearchSubsystem".
pub const RESEARCH_SUBSYSTEM: [u8; 38] = [0x2f, 0x53, 0x63, 0x72, 0x69, 0x70, 0x74, 0x2f, 0x50, 0x39, 0x50, 0x6c, 0x61, 0x79, 0x61, 0x62, 0x6c, 0x65, 0x2e, 0x50, 0x39, 0x52, 0x65, 0x73, 0x65, 0x61, 0x72, 0x63, 0x68, 0x53, 0x75, 0x62, 0x73, 0x79, 0x73, 0x74, 0x65, 0x6d];

/// Bytes of "ArrayProperty".
pub const ARRAY_PROPERTY: [u8; 13] = [0x41, 0x72, 0x72, 0x61, 0x79, 0x50, 0x72, 0x6f, 0x70, 0x65, 0x72, 0x74, 0x79];

/// Bytes of "ObjectProperty".
pub const OBJECT_PROPERTY: [u8; 14] = [0x4f, 0x62, 0x6a, 0x65, 0x63, 0x74, 0x50, 0x72, 0x6f, 0x70, 0x65, 0x72, 0x74, 0x79];

/// Bytes of "UnlockedResearches".
pub const UNLOCKED_RESEARCHES: [u8; 18] = [0x55, 0x6e, 0x6c, 0x6f, 0x63, 0x6b, 0x65, 0x64, 0x52, 0x65, 0x73, 0x65, 0x61, 0x72, 0x63, 0x68, 0x65, 0x73];

/// Bytes of "DiscoveredTechnologies".
pub const DISCOVERED_TECHNOLOGIES: [u8; 22] = [0x44, 0x69, 0x73, 0x63, 0x6f, 0x76, 0x65, 0x72, 0x65, 0x64, 0x54, 0x65, 0x63, 0x68, 0x6e, 0x6f, 0x6c, 0x6f, 0x67, 0x69, 0x65, 0x73];

/// A technology class-path stem, e.g. `ModuleRecycling`
/// (`BP_Technology_<stem>_C`).
#[derive(Debug, Clone, PartialEq, Eq, Hash)]
pub struct TechName(pub String);

/// The texts of a sequence of strings.
pub open spec fn strings_view(v: Seq<String>) -> Seq<Seq<char>> {
    v.map_values(|s: String| s@)
}

/// Parsed research state.
#[derive(Debug)]
pub struct Research {
    pub unlocked: Vec<String>,
    pub discovered: Vec<String>,
    record_size_offset: usize,
    array_size_offset: usize,
    count_offset: usize,
    elements_end: usize,
}

impl Research {
    /// The offsets are positions: each fits a `usize`.
    pub proof fn lemma_offsets_range(&self)
        ensures
            0 <= self@.record_size_offset <= usize::MAX,
            0 <= self@.array_size_offset <= usize::MAX,
            0 <= self@.count_offset <= usize::MAX,
            0 <= self@.elements_end <= usize::MAX,
    {
    }

    /// The unlocked technology paths.
    pub fn unlocked_paths(&self) -> (r: &Vec<String>)
        ensures
            strings_view(r@) == self@.unlocked,
    {
        &self.unlocked
    }

    /// The discovered technology paths.
    pub fn discovered_paths(&self) -> (r: &Vec<String>)
        ensures
            strings_view(r@) == self@.discovered,
    {
        &self.discovered
    }
}

/// Mathematical value of a [`Research`].
pub struct ResearchModel {
    pub unlocked: Seq<Seq<char>>,
    pub discovered: Seq<Seq<char>>,
    pub record_size_offset: int,
    pub array_size_offset: int,
    pub count_offset: int,
    pub elements_end: int,
}

impl View for Research {
    type V = ResearchModel;

    closed spec fn view(&self) -> ResearchModel {
        ResearchModel {
            unlocked: strings_view(self.unlocked@),
            discovered: strings_view(self.discovered@),
            record_size_offset: self.record_size_offset as int,
            array_size_offset: self.array_size_offset as int,
            count_offset: self.count_offset as int,
            elements_end: self.elements_end as int,
        }
    }
}

/// The error for a violated research-subsystem invariant.
pub open spec fn research_error(reason: Seq<char>) -> ErrorModel {
    ErrorModel::MalformedChunk { offset: 0, reason: "research structure: "@ + reason }
}

fn structure_error(reason: &str) -> (e: Error)
    ensures
        e@ == research_error(reason@),
{
    let mut text = String::new();
    text.append("research structure: ");
    text.append(reason);
    Error::MalformedChunk { offset: 0, reason: text }
}

/// A parsed object array: its element paths and the offsets of its
/// payload size, its element count, and the end of its elements.
pub struct ArrayModel {
    pub paths: Seq<Seq<char>>,
    pub size_offset: int,
    pub count_offset: int,
    pub elements_end: int,
}

struct ParsedArray {
    paths: Vec<String>,
    size_offset: usize,
    count_offset: usize,
    elements_end: usize,
}

impl View for ParsedArray {
    type V = ArrayModel;

    closed spec fn view(&self) -> ArrayModel {
        ArrayModel {
            paths: strings_view(self.paths@),
            size_offset: self.size_offset as int,
            count_offset: self.count_offset as int,
            elements_end: self.elements_end as int,
        }
    }
}

/// The offsets of an array's payload size and element count, given the
/// offset just past its `lstr` name and `lstr "ArrayProperty"`.
pub open spec fn spec_array_header(body: Seq<u8>, cursor: int, version: ArchiveVersion) -> std::result::Result<
    (int, int),
    Seq<char>,
> {
    match version {
        ArchiveVersion::V2 => {
            let size_offset = cursor;
            if spec_read_i32(body, size_offset + 4) != Some(0int) {
                Err("array post-size pad (v2)"@)
            } else {
                match spec_read_lstr(body, size_offset + 8) {
                    None => Err("array inner type (v2)"@),
                    Some((inner, after_inner)) => if inner != OBJECT_PROPERTY@ {
                        Err("array inner type is not ObjectProperty (v2)"@)
                    } else if !(after_inner < body.len() && body[after_inner] == 0) {
                        Err("array flag (v2)"@)
                    } else {
                        Ok((size_offset, after_inner + 1))
                    },
                }
            }
        },
        _ => match spec_read_i32(body, cursor) {
            None => Err("array child count"@),
            Some(children) => if children != 1 {
                Err("unexpected array type tree"@)
            } else {
                match spec_read_lstr(body, cursor + 4) {
                    None => Err("array inner type"@),
                    Some((inner, after_inner)) => if inner != OBJECT_PROPERTY@ {
                        Err("array inner type is not ObjectProperty"@)
                    } else if spec_read_i32(body, after_inner) != Some(0int) {
                        Err("array pre-size pad"@)
                    } else {
                        let size_offset = after_inner + 4;
                        if !(size_offset + 4 < body.len() && body[size_offset + 4] == 0) {
                            Err("array post-size flag"@)
                        } else {
                            Ok((size_offset, size_offset + 5))
                        }
                    },
                }
            },
        },
    }
}

fn array_header(body: &[u8], cursor: usize, version: ArchiveVersion) -> (r: std::result::Result<
    (usize, usize),
    &'static str,
>)
    requires
        cursor <= body@.len(),
        fits_address_space(body@.len() as int),
    ensures
        match spec_array_header(body@, cursor as int, version) {
            Ok((a, b)) => r matches Ok((x, y)) && x == a && y == b,
            Err(m) => r matches Err(x) && x@ == m,
        },
{
    match version {
        ArchiveVersion::V2 => {
            let size_offset = cursor;
            match read_i32(body, size_offset + 4) {
                Some(v) => if v != 0 {
                    return Err("array post-size pad (v2)");
                },
                None => return Err("array post-size pad (v2)"),
            }
            let (inner, after_inner) = match read_lstr(body, size_offset + 8) {
                Some(x) => x,
                None => return Err("array inner type (v2)"),
            };
            if !bytes_eq(inner, &OBJECT_PROPERTY) {
                return Err("array inner type is not ObjectProperty (v2)");
            }
            if !(after_inner < body.len() && body[after_inner] == 0) {
                return Err("array flag (v2)");
            }
            Ok((size_offset, after_inner + 1))
        },
        _ => {
            let children = match read_i32(body, cursor) {
                Some(v) => v,
                None => return Err("array child count"),
            };
            if children != 1 {
                return Err("unexpected array type tree");
            }
            let (inner, after_inner) = match read_lstr(body, cursor + 4) {
                Some(x) => x,
                None => return Err("array inner type"),
            };
            if !bytes_eq(inner, &OBJECT_PROPERTY) {
                return Err("array inner type is not ObjectProperty");
            }
            match read_i32(body, after_inner) {
                Some(v) => if v != 0 {
                    return Err("array pre-size pad");
                },
                None => return Err("array pre-size pad"),
            }
            let size_offset = after_inner + 4;
            if !(size_offset + 4 < body.len() && body[size_offset + 4] == 0) {
                return Err("array post-size flag");
            }
            Ok((size_offset, size_offset + 5))
        },
    }
}

/// The `n` `lstr` elements from `at` on, each decoded as (lossy) UTF-8,
/// and the offset past the last; `None` when one does not parse.
pub open spec fn spec_elements(body: Seq<u8>, at: int, n: nat) -> Option<(Seq<Seq<char>>, int)>
    decreases n,
{
    if n == 0 {
        Some((Seq::empty(), at))
    } else {
        match spec_read_lstr(body, at) {
            None => None,
            Some((text, next)) => match spec_elements(body, next, (n - 1) as nat) {
                None => None,
                Some((rest, end)) => Some((seq![lossy_decode(text)] + rest, end)),
            },
        }
    }
}

fn read_elements(body: &[u8], start: usize, count: usize) -> (r: Option<(Vec<String>, usize)>)
    requires
        fits_address_space(body@.len() as int),
    ensures
        match spec_elements(body@, start as int, count as nat) {
            Some((paths, end)) => r matches Some((v, e)) && strings_view(v@) == paths && e == end,
            None => r is None,
        },
{
    let mut paths: Vec<String> = Vec::new();
    let mut element = start;
    let mut i: usize = 0;
    while i < count
        invariant
            i <= count,
            fits_address_space(body@.len() as int),
            spec_elements(body@, start as int, count as nat) == match spec_elements(
                body@,
                element as int,
                (count - i) as nat,
            ) {
                Some((rest, end)) => Some((strings_view(paths@) + rest, end)),
                None => None,
            },
        decreases count - i,
    {
        let ghost before = strings_view(paths@);
        let (text, next) = match read_lstr(body, element) {
            Some(x) => x,
            None => return None,
        };
        let path = string_from_utf8_lossy(text);
        paths.push(path);
        proof {
            assert(strings_view(paths@) =~= before.push(lossy_decode(text@)));
            match spec_elements(body@, next as int, (count - i - 1) as nat) {
                Some((rest, end)) => {
                    assert(before + (seq![lossy_decode(text@)] + rest) =~= strings_view(paths@)
                        + rest);
                },
                None => {},
            }
        }
        element = next;
        i = i + 1;
    }
    proof {
        assert(strings_view(paths@) + Seq::<Seq<char>>::empty() =~= strings_view(paths@));
    }
    Some((paths, element))
}

/// The object array named `name` first found in the record content
/// `body[start..start + size]`, or the reason it is malformed (`missing`
/// when it is not there).
pub open spec fn spec_object_array(
    body: Seq<u8>,
    start: int,
    size: int,
    name: Seq<u8>,
    missing: Seq<char>,
    version: ArchiveVersion,
) -> std::result::Result<ArrayModel, Seq<char>> {
    let needle = lstr_bytes(name) + lstr_bytes(ARRAY_PROPERTY@);
    match spec_find(body.subrange(start, start + size), needle) {
        None => Err(missing),
        Some(found) => match spec_array_header(body, start + found + needle.len(), version) {
            Err(m) => Err(m),
            Ok((size_offset, count_offset)) => match spec_read_usize(body, size_offset) {
                None => Err("array size"@),
                Some(payload_size) => match spec_read_usize(body, count_offset) {
                    None => Err("count"@),
                    Some(count) => match spec_elements(body, count_offset + 4, count as nat) {
                        None => Err("array element"@),
                        Some((paths, end)) => if end != count_offset + payload_size {
                            Err("array payload size mismatch"@)
                        } else {
                            Ok(ArrayModel { paths, size_offset, count_offset, elements_end: end })
                        },
                    },
                },
            },
        },
    }
}

fn parse_object_array(
    body: &[u8],
    start: usize,
    size: usize,
    name: &[u8],
    missing: &'static str,
    version: ArchiveVersion,
) -> (r: std::result::Result<ParsedArray, &'static str>)
    requires
        start + size <= body@.len(),
        name@.len() <= 64,
        fits_address_space(body@.len() as int),
    ensures
        match spec_object_array(body@, start as int, size as int, name@, missing@, version) {
            Ok(m) => r matches Ok(x) && x@ == m,
            Err(m) => r matches Err(x) && x@ == m,
        },
{
    let mut needle = lstr(name);
    let ty = lstr(&ARRAY_PROPERTY);
    needle.extend_from_slice(ty.as_slice());
    assert(needle@ == lstr_bytes(name@) + lstr_bytes(ARRAY_PROPERTY@));
    let found = match find_first(&body[start..start + size], needle.as_slice()) {
        Some(f) => f,
        None => return Err(missing),
    };
    let cursor = start + found + needle.len();
    let (size_offset, count_offset) = match array_header(body, cursor, version) {
        Ok(x) => x,
        Err(m) => return Err(m),
    };
    let payload_size = match read_usize(body, size_offset) {
        Some(v) => v,
        None => return Err("array size"),
    };
    let count = match read_usize(body, count_offset) {
        Some(v) => v,
        None => return Err("count"),
    };
    let (paths, end) = match read_elements(body, count_offset + 4, count) {
        Some(x) => x,
        None => return Err("array element"),
    };
    if end != count_offset + payload_size {
        return Err("array payload size mismatch");
    }
    Ok(ParsedArray { paths, size_offset, count_offset, elements_end: end })
}

/// The research state of a body, or the error [`research`] reports.
#[verifier::opaque]
pub open spec fn spec_research(body: Seq<u8>, version: ArchiveVersion) -> std::result::Result<
    ResearchModel,
    ErrorModel,
> {
    match spec_find_record(body, RESEARCH_SUBSYSTEM@) {
        None => Err(research_error("P9ResearchSubsystem record not found"@)),
        Some((start, size, record_size_offset)) => match spec_object_array(
            body,
            start,
            size,
            UNLOCKED_RESEARCHES@,
            "UnlockedResearches array not found"@,
            version,
        ) {
            Err(m) => Err(research_error(m)),
            Ok(unlocked) => match spec_object_array(
                body,
                start,
                size,
                DISCOVERED_TECHNOLOGIES@,
                "DiscoveredTechnologies array not found"@,
                version,
            ) {
                Err(m) => Err(research_error(m)),
                Ok(discovered) => Ok(
                    ResearchModel {
                        unlocked: unlocked.paths,
                        discovered: discovered.paths,
                        record_size_offset,
                        array_size_offset: discovered.size_offset,
                        count_offset: discovered.count_offset,
                        elements_end: discovered.elements_end,
                    },
                ),
            },
        },
    }
}

/// Parse the research subsystem.
///
/// Fails when the subsystem record or either array deviates from the
/// expected layout.
pub fn research(body: &[u8], version: ArchiveVersion) -> (r: Result<Research>)
    requires
        fits_address_space(body@.len() as int),
    ensures
        match spec_research(body@, version) {
            Ok(m) => r matches Ok(x) && x@ == m,
            Err(e) => r matches Err(x) && x@ == e,
        },
{
    reveal(spec_research);
    let (start, size, record_size_offset) = match find_record(body, &RESEARCH_SUBSYSTEM) {
        Some(x) => x,
        None => return Err(structure_error("P9ResearchSubsystem record not found")),
    };
    let unlocked = match parse_object_array(
        body,
        start,
        size,
        &UNLOCKED_RESEARCHES,
        "UnlockedResearches array not found",
        version,
    ) {
        Ok(a) => a,
        Err(m) => return Err(structure_error(m)),
    };
    let discovered = match parse_object_array(
        body,
        start,
        size,
        &DISCOVERED_TECHNOLOGIES,
        "DiscoveredTechnologies array not found",
        version,
    ) {
        Ok(a) => a,
        Err(m) => return Err(structure_error(m)),
    };
    Ok(
        Research {
            unlocked: unlocked.paths,
            discovered: discovered.paths,
            record_size_offset,
            array_size_offset: discovered.size_offset,
            count_offset: discovered.count_offset,
            elements_end: discovered.elements_end,
        },
    )
}

/// `paths` without those that `exclude` contains, in order.
pub open spec fn not_in(paths: Seq<Seq<char>>, exclude: Seq<Seq<char>>) -> Seq<Seq<char>>
    decreases paths.len(),
{
    if paths.len() == 0 {
        Seq::empty()
    } else {
        let rest = not_in(paths.drop_last(), exclude);
        if exclude.contains(paths.last()) {
            rest
        } else {
            rest.push(paths.last())
        }
    }
}

fn contains_string(v: &Vec<String>, s: &String) -> (r: bool)
    ensures
        r == strings_view(v@).contains(s@),
{
    let mut i: usize = 0;
    while i < v.len()
        invariant
            i <= v@.len(),
            forall|j: int| 0 <= j < i ==> strings_view(v@)[j] != s@,
        decreases v@.len() - i,
    {
        if v[i] == *s {
            assert(strings_view(v@)[i as int] == s@);
            return true;
        }
        i = i + 1;
    }
    false
}

/// Technologies unlocked but not yet completed.
pub fn missing(research: &Research) -> (r: Vec<String>)
    ensures
        strings_view(r@) == not_in(research@.unlocked, research@.discovered),
{
    let ghost unlocked = research@.unlocked;
    let mut out: Vec<String> = Vec::new();
    let mut i: usize = 0;
    while i < research.unlocked.len()
        invariant
            unlocked == strings_view(research.unlocked@),
            i <= research.unlocked@.len(),
            strings_view(out@) == not_in(unlocked.subrange(0, i as int), research@.discovered),
        decreases research.unlocked@.len() - i,
    {
        let ghost before = strings_view(out@);
        assert(unlocked.subrange(0, i + 1).drop_last() =~= unlocked.subrange(0, i as int));
        if !contains_string(&research.discovered, &research.unlocked[i]) {
            out.push(research.unlocked[i].clone());
            assert(strings_view(out@) =~= before.push(unlocked[i as int]));
        }
        i = i + 1;
    }
    assert(unlocked.subrange(0, i as int) =~= unlocked);
    out
}

/// What `missing` lists is exactly what is unlocked and not discovered.
pub proof fn lemma_not_in_members(paths: Seq<Seq<char>>, exclude: Seq<Seq<char>>)
    ensures
        forall|x: Seq<char>|
            #[trigger] not_in(paths, exclude).contains(x) <==> (paths.contains(x)
                && !exclude.contains(x)),
    decreases paths.len(),
{
    if paths.len() > 0 {
        lemma_not_in_members(paths.drop_last(), exclude);
        let rest = not_in(paths.drop_last(), exclude);
        assert forall|x: Seq<char>| #[trigger]
            not_in(paths, exclude).contains(x) <==> (paths.contains(x) && !exclude.contains(
                x,
            )) by {
            if paths.contains(x) {
                let k = choose|k: int| 0 <= k < paths.len() && paths[k] == x;
                if k < paths.len() - 1 {
                    assert(paths.drop_last()[k] == x);
                }
            }
            if paths.drop_last().contains(x) {
                let k = choose|k: int| 0 <= k < paths.drop_last().len() && paths.drop_last()[k] == x;
                assert(paths[k] == x);
            }
            if !exclude.contains(paths.last()) {
                assert(rest.push(paths.last())[rest.len() as int] == paths.last());
                if rest.push(paths.last()).contains(x) {
                    let k = choose|k: int| 0 <= k < rest.len() + 1 && rest.push(paths.last())[k] == x;
                    if k < rest.len() {
                        assert(rest[k] == x);
                    }
                }
                if rest.contains(x) {
                    let k = choose|k: int| 0 <= k < rest.len() && rest[k] == x;
                    assert(rest.push(paths.last())[k] == x);
                }
            }
        }
    }
}

/// The `lstr` encodings of `paths`, concatenated in order.
pub open spec fn lstr_concat(paths: Seq<Seq<char>>) -> Seq<u8>
    decreases paths.len(),
{
    if paths.len() == 0 {
        Seq::empty()
    } else {
        lstr_concat(paths.drop_last()) + lstr_bytes(encode_utf8(paths.last()))
    }
}

/// Dropping paths shortens the concatenation, which spends at least five
/// bytes per path.
proof fn lemma_concat_len(paths: Seq<Seq<char>>, exclude: Seq<Seq<char>>)
    ensures
        lstr_concat(not_in(paths, exclude)).len() <= lstr_concat(paths).len(),
        5 * not_in(paths, exclude).len() <= lstr_concat(not_in(paths, exclude)).len(),
    decreases paths.len(),
{
    if paths.len() > 0 {
        lemma_concat_len(paths.drop_last(), exclude);
        let rest = not_in(paths.drop_last(), exclude);
        if !exclude.contains(paths.last()) {
            assert(rest.push(paths.last()).drop_last() =~= rest);
        }
    }
}

/// Paths that can be appended: each `lstr` length fits an `i32`, and all
/// of them together fit an `i64` (where the appending would panic
/// otherwise).
pub open spec fn paths_encodable(paths: Seq<Seq<char>>) -> bool {
    &&& forall|i: int| 0 <= i < paths.len() ==> encode_utf8(#[trigger] paths[i]).len() < i32::MAX
    &&& lstr_concat(paths).len() <= i64::MAX
}

/// Leaving paths out keeps them appendable.
pub proof fn lemma_not_in_encodable(paths: Seq<Seq<char>>, exclude: Seq<Seq<char>>)
    requires
        paths_encodable(paths),
    ensures
        paths_encodable(not_in(paths, exclude)),
{
    lemma_concat_len(paths, exclude);
    lemma_not_in_members(paths, exclude);
    let r = not_in(paths, exclude);
    assert forall|i: int| 0 <= i < r.len() implies encode_utf8(#[trigger] r[i]).len() < i32::MAX by {
        assert(r.contains(r[i]));
        assert(paths.contains(r[i]));
        let k = choose|k: int| 0 <= k < paths.len() && paths[k] == r[i];
    }
}

/// What [`complete`] gives: on v3 saves, the body with the `lstr` of every
/// path not yet discovered appended to `DiscoveredTechnologies` (in the
/// order given) and the four size fields grown; the body itself when there
/// is nothing to add.
pub open spec fn spec_complete(body: Seq<u8>, version: ArchiveVersion, paths: Seq<Seq<char>>) -> std::result::Result<
    Seq<u8>,
    ErrorModel,
> {
    match version {
        ArchiveVersion::V2 => Err(ErrorModel::UnsupportedArchiveVersion(2)),
        ArchiveVersion::Other(v) => Err(ErrorModel::UnsupportedArchiveVersion(v)),
        ArchiveVersion::V3 => match spec_research(body, version) {
            Err(e) => Err(e),
            Ok(state) => {
                let to_add = not_in(paths, state.discovered);
                if to_add.len() == 0 {
                    Ok(body)
                } else {
                    let insertion = lstr_concat(to_add);
                    let delta = insertion.len() as int;
                    let grown = spec_splice(body, state.elements_end, 0, insertion);
                    match spec_adjust_i32(grown, state.array_size_offset, delta) {
                        Err(e) => Err(e),
                        Ok(b1) => match spec_adjust_i32(b1, state.count_offset, to_add.len() as int) {
                            Err(e) => Err(e),
                            Ok(b2) => match spec_adjust_i32(b2, state.record_size_offset, delta) {
                                Err(e) => Err(e),
                                Ok(b3) => spec_adjust_i32(b3, 0, delta),
                            },
                        },
                    }
                }
            },
        },
    }
}

pub(crate) proof fn lemma_elements_end(body: Seq<u8>, at: int, n: nat)
    requires
        spec_elements(body, at, n) is Some,
        at <= body.len(),
    ensures
        at <= spec_elements(body, at, n)->Some_0.1 <= body.len(),
    decreases n,
{
    if n > 0 {
        let (_, next) = spec_read_lstr(body, at)->Some_0;
        lemma_elements_end(body, next, (n - 1) as nat);
    }
}

/// A parsed research state's elements end inside the body.
pub proof fn lemma_research_bounds(body: Seq<u8>, version: ArchiveVersion)
    requires
        spec_research(body, version) is Ok,
    ensures
        spec_research(body, version)->Ok_0.elements_end <= body.len(),
{
    reveal(spec_research);
    let (start, size, _) = spec_find_record(body, RESEARCH_SUBSYSTEM@)->Some_0;
    let needle = lstr_bytes(DISCOVERED_TECHNOLOGIES@) + lstr_bytes(ARRAY_PROPERTY@);
    let found = spec_find(body.subrange(start, start + size), needle)->Some_0;
    let (_, count_offset) = spec_array_header(body, start + found + needle.len(), version)->Ok_0;
    let count = spec_read_usize(body, count_offset)->Some_0;
    lemma_elements_end(body, count_offset + 4, count as nat);
}

/// Append the given technology paths to `DiscoveredTechnologies`,
/// returning the rebuilt body. Paths already discovered are skipped.
///
/// Fails with `UnsupportedArchiveVersion` on non-v3 saves, with a
/// structure error if the arrays cannot be located, or when a size field
/// cannot be adjusted.
pub fn complete(body: &[u8], version: ArchiveVersion, paths: &[String]) -> (r: Result<Vec<u8>>)
    requires
        fits_address_space(body@.len() as int),
        version is V3 && spec_research(body@, version) is Ok ==> paths_encodable(
            not_in(strings_view(paths@), spec_research(body@, version)->Ok_0.discovered),
        ),
    ensures
        match spec_complete(body@, version, strings_view(paths@)) {
            Ok(b) => r matches Ok(x) && x@ == b,
            Err(e) => r matches Err(x) && x@ == e,
        },
{
    match version {
        ArchiveVersion::V3 => {},
        ArchiveVersion::V2 => return Err(Error::UnsupportedArchiveVersion(2)),
        ArchiveVersion::Other(value) => return Err(Error::UnsupportedArchiveVersion(value)),
    }
    let state = match research(body, version) {
        Ok(s) => s,
        Err(e) => return Err(e),
    };
    proof {
        lemma_research_bounds(body@, version);
    }
    let ghost all = strings_view(paths@);
    let ghost discovered = state@.discovered;
    proof {
        lemma_not_in_members(all, discovered);
        assert forall|k: int| 0 <= k < paths@.len() && !discovered.contains(all[k]) implies encode_utf8(
            #[trigger] paths@[k]@,
        ).len() < i32::MAX by {
            assert(all[k] == paths@[k]@);
            assert(all.contains(all[k]));
            let to_add = not_in(all, discovered);
            assert(to_add.contains(all[k]));
            let j = choose|j: int| 0 <= j < to_add.len() && to_add[j] == all[k];
        }
    }
    let mut insertion: Vec<u8> = Vec::new();
    let mut added: usize = 0;
    let mut i: usize = 0;
    while i < paths.len()
        invariant
            all == strings_view(paths@),
            discovered == strings_view(state.discovered@),
            i <= paths@.len(),
            forall|k: int|
                0 <= k < paths@.len() && !discovered.contains(all[k]) ==> encode_utf8(
                    #[trigger] paths@[k]@,
                ).len() < i32::MAX,
            insertion@ == lstr_concat(not_in(all.subrange(0, i as int), discovered)),
            added == not_in(all.subrange(0, i as int), discovered).len(),
            added <= i,
        decreases paths@.len() - i,
    {
        let ghost prefix = all.subrange(0, i as int);
        assert(all.subrange(0, i + 1).drop_last() =~= prefix);
        assert(all[i as int] == paths@[i as int]@);
        if !contains_string(&state.discovered, &paths[i]) {
            let encoded = lstr(paths[i].as_str().as_bytes());
            insertion.extend_from_slice(encoded.as_slice());
            proof {
                let grown = not_in(prefix, discovered).push(all[i as int]);
                assert(grown.drop_last() =~= not_in(prefix, discovered));
            }
            added = added + 1;
        }
        i = i + 1;
    }
    proof {
        assert(all.subrange(0, i as int) =~= all);
        lemma_concat_len(all, discovered);
    }
    if added == 0 {
        let mut same: Vec<u8> = Vec::new();
        same.extend_from_slice(body);
        return Ok(same);
    }
    let delta = insertion.len() as i64;
    let mut out = splice(body, state.elements_end, 0, insertion.as_slice());
    match adjust_i32(out.as_mut_slice(), state.array_size_offset, delta) {
        Ok(()) => {},
        Err(e) => return Err(e),
    }
    match adjust_i32(out.as_mut_slice(), state.count_offset, added as i64) {
        Ok(()) => {},
        Err(e) => return Err(e),
    }
    match adjust_i32(out.as_mut_slice(), state.record_size_offset, delta) {
        Ok(()) => {},
        Err(e) => return Err(e),
    }
    match adjust_i32(out.as_mut_slice(), 0, delta) {
        Ok(()) => {},
        Err(e) => return Err(e),
    }
    Ok(out)
}

} // verus!
