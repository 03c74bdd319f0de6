//! Item inventory: the `P9ItemStack` list inside the `P9ResourceSubsystem`
//! record.
//!
//! Layout (all inside the subsystem record's sized payload):
//!
//! ```text
//! [i32 list_size] [marker 2e 41 2e 41] [i32 stack_count] [i32 0]
//! [stack record]*
//! ```
//!
//! Each stack record:
//!
//! ```text
//! [lstr "/Script/P9Playable.P9ItemStack"] [lstr "P9ItemStack_<id>"]
//! [i32 0] [i32 s1] [content1:
//!     u8 0
//!     Count: IntProperty, Reserved: IntProperty, lstr "None"
//!     [i32 0] [i32 s2] [content2:
//!         marker 2e 01 2e 01, i32 0,
//!         [lstr item class path] [lstr "BP_Item_<X>_C_<id>"]
//!         [i32 0] [i32 s3] [content3: u8 0, tagged props..., lstr "None", i32 0]
//!         ...tail bytes...]
//!     ...tail bytes...]
//! ...tail bytes to next record...
//! ```
//!
//! The sized spans (`s1`/`s2`/`s3`) cut through trailing reference strings
//! rather than ending on logical boundaries, so records are never rebuilt
//! from scratch. New stacks are cloned from an existing record: every byte
//! outside the swapped strings and emptied property list is preserved, and
//! the three sizes are adjusted by the length deltas. An emptied property
//! list makes the game construct the item from its class defaults.
//!
//! Four size fields enclose an insertion and must all grow by the record
//! length: the stack list size, the subsystem record size, the whole-body
//! size at offset 0, and (outside this module) the two EOF-relative prefix
//! fields rewritten by [`crate::sav::SaveFile::to_bytes`].
use vstd::prelude::*;
use vstd::utf8::encode_utf8;

use crate::bytes::{
    bytes_eq, lstr, lstr_bytes, matches_at, position_of, read_i32, read_lstr, read_usize, set_i32,
    spec_first_stop, spec_read_i32, spec_read_lstr, spec_read_usize, spec_splice, spec_write_i32,
    splice, Stop,
};
use crate::elb::{adjust_i32, spec_adjust_i32, spec_checked_write};
use crate::error::{Error, ErrorModel, Result};
use crate::fits_address_space;
use crate::sav::ArchiveVersion;
use crate::search::{
    as_ints, find_all, find_first, occurrences, occurrences_from, occurs_at, spec_find,
};
use crate::text::{
    decimal_bytes, decode_strip_prefix, lemma_decimal_bytes_digits, lemma_decimal_bytes_len,
    push_decimal_bytes, ten_pow,
    spec_decode_strip_prefix,
};

verus! {

/// Bytes of "/Script/P9Playable.P9ItemStack\0".
pub const STACK_SCRIPT: [u8; 31] = [0x2f, 0x53, 0x63, 0x72, 0x69, 0x70, 0x74, 0x2f, 0x50, 0x39, 0x50, 0x6c, 0x61, 0x79, 0x61, 0x62, 0x6c, 0x65, 0x2e, 0x50, 0x39, 0x49, 0x74, 0x65, 0x6d, 0x53, 0x74, 0x61, 0x63, 0x6b, 0x00];

/// Bytes of "/Script/P9Playable.P9ResourceSubsystem\0".
pub const SUBSYSTEM_SCRIPT: [u8; 39] = [0x2f, 0x53, 0x63, 0x72, 0x69, 0x70, 0x74, 0x2f, 0x50, 0x39, 0x50, 0x6c, 0x61, 0x79, 0x61, 0x62, 0x6c, 0x65, 0x2e, 0x50, 0x39, 0x52, 0x65, 0x73, 0x6f, 0x75, 0x72, 0x63, 0x65, 0x53, 0x75, 0x62, 0x73, 0x79, 0x73, 0x74, 0x65, 0x6d, 0x00];

/// Bytes of the list marker `2e 41 2e 41`.
pub const LIST_MARKER: [u8; 4] = [0x2e, 0x41, 0x2e, 0x41];

/// Bytes of a zero `i32`.
pub const ZERO_I32: [u8; 4] = [0x00, 0x00, 0x00, 0x00];

/// Bytes of the v3 `Count` `IntProperty` header.
pub const COUNT_PROP_V3: [u8; 35] = [0x06, 0x00, 0x00, 0x00, 0x43, 0x6f, 0x75, 0x6e, 0x74, 0x00, 0x0c, 0x00, 0x00, 0x00, 0x49, 0x6e, 0x74, 0x50, 0x72, 0x6f, 0x70, 0x65, 0x72, 0x74, 0x79, 0x00, 0x00, 0x00, 0x00, 0x00, 0x04, 0x00, 0x00, 0x00, 0x00];

/// Bytes of the v2 `Count` `IntProperty` header.
pub const COUNT_PROP_V2: [u8; 35] = [0x06, 0x00, 0x00, 0x00, 0x43, 0x6f, 0x75, 0x6e, 0x74, 0x00, 0x0c, 0x00, 0x00, 0x00, 0x49, 0x6e, 0x74, 0x50, 0x72, 0x6f, 0x70, 0x65, 0x72, 0x74, 0x79, 0x00, 0x04, 0x00, 0x00, 0x00, 0x00, 0x00, 0x00, 0x00, 0x00];

/// Bytes of the embedded-object marker `2e 01 2e 01`.
pub const EMBEDDED_MARKER: [u8; 4] = [0x2e, 0x01, 0x2e, 0x01];

/// Bytes of an empty property list: flag, `lstr "None"`, `i32 0`.
pub const EMPTY_PROPS: [u8; 14] = [0x00, 0x05, 0x00, 0x00, 0x00, 0x4e, 0x6f, 0x6e, 0x65, 0x00, 0x00, 0x00, 0x00, 0x00];

/// Bytes of `lstr "None"` followed by `i32 0`.
pub const NONE_AND_SIZE: [u8; 13] = [0x05, 0x00, 0x00, 0x00, 0x4e, 0x6f, 0x6e, 0x65, 0x00, 0x00, 0x00, 0x00, 0x00];

/// Bytes of "/Game/P9Playable/Items/".
pub const ITEM_PATH_PREFIX: [u8; 23] = [0x2f, 0x47, 0x61, 0x6d, 0x65, 0x2f, 0x50, 0x39, 0x50, 0x6c, 0x61, 0x79, 0x61, 0x62, 0x6c, 0x65, 0x2f, 0x49, 0x74, 0x65, 0x6d, 0x73, 0x2f];

/// Bytes of "BP_Item_".
pub const ITEM_CLASS_PREFIX: [u8; 8] = [0x42, 0x50, 0x5f, 0x49, 0x74, 0x65, 0x6d, 0x5f];

/// An item class stem, e.g. `BridgePylon` or `RepairKit`
/// (`BP_Item_<stem>_C` in class paths).
#[derive(Debug, Clone, PartialEq, Eq, Hash)]
pub struct ItemClass(pub String);

/// One item stack in the inventory list.
#[derive(Debug, Clone)]
pub struct Stack {
    pub item: ItemClass,
    pub count: i32,
    record_start: usize,
    record_end: usize,
    count_offset: usize,
}

/// Mathematical value of a [`Stack`].
pub struct StackModel {
    pub item: Seq<char>,
    pub count: i32,
    pub record_start: int,
    pub record_end: int,
    pub count_offset: int,
}

impl View for Stack {
    type V = StackModel;

    closed spec fn view(&self) -> StackModel {
        StackModel {
            item: self.item.0@,
            count: self.count,
            record_start: self.record_start as int,
            record_end: self.record_end as int,
            count_offset: self.count_offset as int,
        }
    }
}

impl Stack {
    /// The record's bounds and the count's offset are positions: each fits a
    /// `usize`.
    pub proof fn lemma_offsets_range(&self)
        ensures
            0 <= self@.record_start <= usize::MAX,
            0 <= self@.record_end <= usize::MAX,
            0 <= self@.count_offset <= usize::MAX,
    {
    }

    /// The item class stem.
    pub fn item_name(&self) -> (r: &String)
        ensures
            r@ == self@.item,
    {
        &self.item.0
    }

    /// The stack's count.
    pub fn stored_count(&self) -> (r: i32)
        ensures
            r == self@.count,
    {
        self.count
    }
}

/// The views of a sequence of stacks.
pub open spec fn stack_views(s: Seq<Stack>) -> Seq<StackModel> {
    s.map_values(|x: Stack| x@)
}

/// The located inventory list plus the enclosing size fields.
#[derive(Debug)]
pub struct Inventory {
    pub stacks: Vec<Stack>,
    list_size_offset: usize,
    stack_count_offset: usize,
    subsystem_size_offset: usize,
    first_record_start: usize,
}

impl Inventory {
    /// The header offsets are positions: each fits a `usize`.
    pub proof fn lemma_offsets_range(&self)
        ensures
            0 <= self@.list_size_offset <= usize::MAX,
            0 <= self@.stack_count_offset <= usize::MAX,
            0 <= self@.subsystem_size_offset <= usize::MAX,
            0 <= self@.first_record_start <= usize::MAX,
    {
    }

    /// The stacks of the list, in record order.
    pub fn stack_list(&self) -> (r: &Vec<Stack>)
        ensures
            stack_views(r@) == self@.stacks,
    {
        &self.stacks
    }
}

/// Mathematical value of an [`Inventory`].
pub struct InventoryModel {
    pub stacks: Seq<StackModel>,
    pub list_size_offset: int,
    pub stack_count_offset: int,
    pub subsystem_size_offset: int,
    pub first_record_start: int,
}

impl View for Inventory {
    type V = InventoryModel;

    closed spec fn view(&self) -> InventoryModel {
        InventoryModel {
            stacks: stack_views(self.stacks@),
            list_size_offset: self.list_size_offset as int,
            stack_count_offset: self.stack_count_offset as int,
            subsystem_size_offset: self.subsystem_size_offset as int,
            first_record_start: self.first_record_start as int,
        }
    }
}

/// The error for a violated item-list invariant.
pub open spec fn item_error(reason: Seq<char>) -> ErrorModel {
    ErrorModel::MalformedChunk { offset: 0, reason: "item list structure: "@ + reason }
}

fn structure_error(reason: &str) -> (e: Error)
    ensures
        e@ == item_error(reason@),
{
    let mut text = String::new();
    text.append("item list structure: ");
    text.append(reason);
    Error::MalformedChunk { offset: 0, reason: text }
}

/// The `Count` property header of the archive version.
pub open spec fn spec_count_prop(version: ArchiveVersion) -> std::result::Result<Seq<u8>, ErrorModel> {
    match version {
        ArchiveVersion::V3 => Ok(COUNT_PROP_V3@),
        ArchiveVersion::V2 => Ok(COUNT_PROP_V2@),
        ArchiveVersion::Other(v) => Err(ErrorModel::UnsupportedArchiveVersion(v)),
    }
}

fn count_prop_pattern(version: ArchiveVersion) -> (r: Result<&'static [u8]>)
    ensures
        match spec_count_prop(version) {
            Ok(p) => r matches Ok(x) && x@ == p,
            Err(e) => r matches Err(x) && x@ == e,
        },
{
    match version {
        ArchiveVersion::V3 => Ok(&COUNT_PROP_V3),
        ArchiveVersion::V2 => Ok(&COUNT_PROP_V2),
        ArchiveVersion::Other(value) => Err(Error::UnsupportedArchiveVersion(value)),
    }
}

/// The item class stem of a stack record: the text after the first item
/// class path prefix up to the next `.`, decoded as UTF-8 and without a
/// leading `BP_Item_`.
pub open spec fn spec_item_class(record: Seq<u8>) -> Option<Seq<char>> {
    match spec_find(record, ITEM_PATH_PREFIX@) {
        None => None,
        Some(p) => {
            let tail = record.subrange(p + ITEM_PATH_PREFIX@.len(), record.len() as int);
            match spec_first_stop(tail, Stop::Dot) {
                None => None,
                Some(dot) => spec_decode_strip_prefix(tail.subrange(0, dot), ITEM_CLASS_PREFIX@),
            }
        },
    }
}

fn item_class_of(record: &[u8]) -> (r: Option<ItemClass>)
    ensures
        match r {
            Some(c) => spec_item_class(record@) == Some(c.0@),
            None => spec_item_class(record@) is None,
        },
{
    let n = record.len();
    let p = match find_first(record, &ITEM_PATH_PREFIX) {
        Some(p) => p,
        None => return None,
    };
    let tail = &record[p + ITEM_PATH_PREFIX.len()..n];
    let ghost t = record@.subrange(p + ITEM_PATH_PREFIX@.len(), record@.len() as int);
    assert(tail@ == t);
    let dot = match position_of(tail, Stop::Dot) {
        Some(d) => d,
        None => return None,
    };
    match decode_strip_prefix(&tail[0..dot], &ITEM_CLASS_PREFIX) {
        Some(stem) => Some(ItemClass(stem)),
        None => None,
    }
}

/// The subsystem record: its script offset, size-field offset and end, or
/// the reason it is malformed.
pub open spec fn spec_subsystem(body: Seq<u8>) -> std::result::Result<(int, int, int), Seq<char>> {
    match spec_find(body, SUBSYSTEM_SCRIPT@) {
        None => Err("P9ResourceSubsystem record not found"@),
        Some(script) => match spec_read_lstr(body, script + SUBSYSTEM_SCRIPT@.len()) {
            None => Err("subsystem instance name"@),
            Some((_, after_name)) => if spec_read_i32(body, after_name) != Some(0int) {
                Err("subsystem pre-size pad"@)
            } else {
                let size_offset = after_name + 4;
                match spec_read_usize(body, size_offset) {
                    None => Err("subsystem size"@),
                    Some(size) => Ok((script, size_offset, size_offset + 4 + size)),
                }
            },
        },
    }
}

fn locate_subsystem(body: &[u8]) -> (r: std::result::Result<(usize, usize, usize), &'static str>)
    requires
        fits_address_space(body@.len() as int),
    ensures
        match spec_subsystem(body@) {
            Ok((a, b, c)) => r matches Ok((x, y, z)) && x == a && y == b && z == c,
            Err(reason) => r matches Err(m) && m@ == reason,
        },
{
    let script = match find_first(body, &SUBSYSTEM_SCRIPT) {
        Some(s) => s,
        None => return Err("P9ResourceSubsystem record not found"),
    };
    let after_name = match read_lstr(body, script + SUBSYSTEM_SCRIPT.len()) {
        Some((_, a)) => a,
        None => return Err("subsystem instance name"),
    };
    match read_i32(body, after_name) {
        Some(v) => if v != 0 {
            return Err("subsystem pre-size pad");
        },
        None => return Err("subsystem pre-size pad"),
    }
    let size_offset = after_name + 4;
    let size = match read_usize(body, size_offset) {
        Some(s) => s,
        None => return Err("subsystem size"),
    };
    Ok((script, size_offset, size_offset + 4 + size))
}

/// The record starts among the stack-script occurrences `occ`: four bytes
/// before the script string, where the `lstr` length 31 stands, inside the
/// subsystem record (after its script, before its end).
pub open spec fn stack_starts(body: Seq<u8>, occ: Seq<int>, script: int, end: int) -> Seq<int>
    decreases occ.len(),
{
    if occ.len() == 0 {
        Seq::empty()
    } else {
        let rest = stack_starts(body, occ.drop_first(), script, end);
        let start = occ[0] - 4;
        if occ[0] >= 4 && spec_read_usize(body, start) == Some(STACK_SCRIPT@.len() as int) && start
            > script && start < end {
            seq![start] + rest
        } else {
            rest
        }
    }
}

fn collect_stack_starts(body: &[u8], script: usize, end: usize) -> (r: Vec<usize>)
    ensures
        as_ints(r@) == stack_starts(body@, occurrences(body@, STACK_SCRIPT@), script as int, end as int),
        forall|k: int| 0 <= k < r@.len() ==> r@[k] + 4 + STACK_SCRIPT@.len() <= body@.len(),
        forall|k: int, j: int| 0 <= k < j < r@.len() ==> r@[k] < r@[j],
{
    let occ = find_all(body, &STACK_SCRIPT);
    let ghost all = occurrences(body@, STACK_SCRIPT@);
    proof {
        crate::search::lemma_occurrences_are_matches(body@, STACK_SCRIPT@, 0);
        lemma_occurrences_increasing(body@, STACK_SCRIPT@, 0);
    }
    let mut out: Vec<usize> = Vec::new();
    let mut k: usize = 0;
    assert(all.subrange(0, all.len() as int) =~= all);
    while k < occ.len()
        invariant
            as_ints(occ@) == all,
            all == occurrences(body@, STACK_SCRIPT@),
            forall|j: int| 0 <= j < all.len() ==> occurs_at(body@, STACK_SCRIPT@, #[trigger] all[j]),
            forall|a: int, b: int| 0 <= a < b < all.len() ==> all[a] < all[b],
            k <= occ@.len(),
            as_ints(out@) + stack_starts(body@, all.subrange(k as int, all.len() as int), script as int, end as int)
                == stack_starts(body@, all, script as int, end as int),
            forall|j: int| 0 <= j < out@.len() ==> out@[j] + 4 + STACK_SCRIPT@.len() <= body@.len(),
            forall|a: int, b: int| 0 <= a < b < out@.len() ==> out@[a] < out@[b],
            forall|j: int| 0 <= j < out@.len() && k < all.len() ==> out@[j] + 4 < all[k as int],
        decreases occ@.len() - k,
    {
        let s = occ[k];
        assert(all[k as int] == s as int);
        let ghost rest = all.subrange(k as int, all.len() as int);
        assert(rest[0] == s as int);
        assert(rest.drop_first() =~= all.subrange(k + 1, all.len() as int));
        let ghost before = out@;
        if s >= 4 {
            let start = s - 4;
            if read_usize(body, start) == Some(STACK_SCRIPT.len()) && start > script && start < end {
                out.push(start);
                assert(as_ints(out@) =~= as_ints(before).push(start as int));
                assert(as_ints(before).push(start as int) + stack_starts(body@, rest.drop_first(), script as int, end as int)
                    =~= as_ints(before) + (seq![start as int] + stack_starts(body@, rest.drop_first(), script as int, end as int)));
            }
        }
        k = k + 1;
        proof {
            if k < all.len() {
                assert(all[k - 1] < all[k as int]);
            }
        }
    }
    proof {
        assert(all.subrange(k as int, all.len() as int) =~= Seq::<int>::empty());
        assert(as_ints(out@) + Seq::<int>::empty() =~= as_ints(out@));
    }
    out
}

/// Occurrences are found in increasing order.
pub(crate) proof fn lemma_occurrences_increasing(h: Seq<u8>, n: Seq<u8>, pos: int)
    ensures
        forall|a: int, b: int|
            0 <= a < b < occurrences_from(h, n, pos).len() ==> occurrences_from(h, n, pos)[a]
                < occurrences_from(h, n, pos)[b],
    decreases h.len() - pos,
{
    crate::search::lemma_occurrences_are_matches(h, n, pos);
    if pos < 0 || n.len() == 0 || pos + n.len() > h.len() {
    } else if occurs_at(h, n, pos) {
        lemma_occurrences_increasing(h, n, pos + n.len());
        crate::search::lemma_occurrences_are_matches(h, n, pos + n.len());
        let rest = occurrences_from(h, n, pos + n.len());
        let all = occurrences_from(h, n, pos);
        assert forall|a: int, b: int| 0 <= a < b < all.len() implies all[a] < all[b] by {
            if a == 0 {
                assert(all[b] == rest[b - 1]);
            } else {
                assert(all[a] == rest[a - 1]);
                assert(all[b] == rest[b - 1]);
            }
        }
    } else {
        lemma_occurrences_increasing(h, n, pos + 1);
        assert(occurrences_from(h, n, pos) == occurrences_from(h, n, pos + 1));
    }
}


/// The list header before the first record: offsets of the list size and
/// of the stack count, and the list's end; or the reason it is malformed.
pub open spec fn spec_list_header(body: Seq<u8>, starts: Seq<int>, subsystem_end: int) -> std::result::Result<
    (int, int, int),
    Seq<char>,
> {
    let first = starts[0];
    if first < 16 {
        Err("list header out of range"@)
    } else if !(body.subrange(first - 12, first - 8) == LIST_MARKER@ && body.subrange(
        first - 4,
        first,
    ) == ZERO_I32@) {
        Err("list header marker mismatch"@)
    } else {
        let list_size_offset = first - 16;
        let stack_count_offset = first - 8;
        match spec_read_usize(body, list_size_offset) {
            None => Err("list size"@),
            Some(list_size) => match spec_read_usize(body, stack_count_offset) {
                None => Err("stack count"@),
                Some(count) => if count != starts.len() {
                    Err("stack count disagrees with records found"@)
                } else {
                    let list_end = list_size_offset + 4 + list_size;
                    if list_end > subsystem_end {
                        Err("list extends past subsystem record"@)
                    } else {
                        Ok((list_size_offset, stack_count_offset, list_end))
                    }
                },
            },
        }
    }
}

fn list_header(body: &[u8], starts: &Vec<usize>, subsystem_end: usize) -> (r: std::result::Result<
    (usize, usize, usize),
    &'static str,
>)
    requires
        starts@.len() > 0,
        starts@[0] <= body@.len(),
        fits_address_space(body@.len() as int),
    ensures
        match spec_list_header(body@, as_ints(starts@), subsystem_end as int) {
            Ok((a, b, c)) => r matches Ok((x, y, z)) && x == a && y == b && z == c,
            Err(reason) => r matches Err(m) && m@ == reason,
        },
{
    let first = starts[0];
    assert(as_ints(starts@)[0] == first as int);
    if first < 16 {
        return Err("list header out of range");
    }
    if !(matches_at(body, first - 12, &LIST_MARKER) && matches_at(body, first - 4, &ZERO_I32)) {
        return Err("list header marker mismatch");
    }
    let list_size_offset = first - 16;
    let stack_count_offset = first - 8;
    let list_size = match read_usize(body, list_size_offset) {
        Some(v) => v,
        None => return Err("list size"),
    };
    let count = match read_usize(body, stack_count_offset) {
        Some(v) => v,
        None => return Err("stack count"),
    };
    if count != starts.len() {
        return Err("stack count disagrees with records found");
    }
    let list_end = list_size_offset + 4 + list_size;
    if list_end > subsystem_end {
        return Err("list extends past subsystem record");
    }
    Ok((list_size_offset, stack_count_offset, list_end))
}

/// The stack whose record is the `i`-th of `starts`: it ends where the next
/// record starts (the last where the list ends); the count is the `i32`
/// after the first `Count` header in the record.
pub open spec fn spec_stack(
    body: Seq<u8>,
    starts: Seq<int>,
    i: int,
    list_end: int,
    count_prop: Seq<u8>,
) -> std::result::Result<StackModel, Seq<char>> {
    let record_start = starts[i];
    let record_end = if i + 1 < starts.len() {
        starts[i + 1]
    } else {
        list_end
    };
    if record_end < record_start || record_end > body.len() {
        Err("stack record extends past list"@)
    } else {
        let record = body.subrange(record_start, record_end);
        match spec_item_class(record) {
            None => Err("stack without item class path"@),
            Some(item) => match spec_find(record, count_prop) {
                None => Err("stack without Count property"@),
                Some(at) => {
                    let count_offset = record_start + at + count_prop.len();
                    match spec_read_i32(body, count_offset) {
                        None => Err("truncated Count value"@),
                        Some(count) => Ok(
                            StackModel {
                                item,
                                count: count as i32,
                                record_start,
                                record_end,
                                count_offset,
                            },
                        ),
                    }
                },
            },
        }
    }
}

/// The stacks of records `i..` of `starts`, or the first failure.
pub open spec fn spec_stacks(
    body: Seq<u8>,
    starts: Seq<int>,
    list_end: int,
    count_prop: Seq<u8>,
    i: int,
) -> std::result::Result<Seq<StackModel>, Seq<char>>
    decreases starts.len() - i,
{
    if i < 0 || i >= starts.len() {
        Ok(Seq::empty())
    } else {
        match spec_stack(body, starts, i, list_end, count_prop) {
            Err(reason) => Err(reason),
            Ok(s) => match spec_stacks(body, starts, list_end, count_prop, i + 1) {
                Ok(rest) => Ok(seq![s] + rest),
                Err(reason) => Err(reason),
            },
        }
    }
}

fn stack_at(body: &[u8], starts: &Vec<usize>, i: usize, list_end: usize, count_prop: &[u8]) -> (r: std::result::Result<
    Stack,
    &'static str,
>)
    requires
        i < starts@.len(),
        fits_address_space(body@.len() as int),
        forall|k: int| 0 <= k < starts@.len() ==> starts@[k] <= body@.len(),
    ensures
        match spec_stack(body@, as_ints(starts@), i as int, list_end as int, count_prop@) {
            Ok(m) => r matches Ok(x) && x@ == m,
            Err(reason) => r matches Err(m) && m@ == reason,
        },
{
    let len = body.len();
    let count = starts.len();
    let record_start = starts[i];
    let record_end = if i + 1 < count {
        starts[i + 1]
    } else {
        list_end
    };
    assert(as_ints(starts@)[i as int] == record_start as int);
    assert(i + 1 < starts@.len() ==> as_ints(starts@)[i + 1] == starts@[i + 1] as int);
    if record_end < record_start || record_end > len {
        return Err("stack record extends past list");
    }
    let record = &body[record_start..record_end];
    let item = match item_class_of(record) {
        Some(c) => c,
        None => return Err("stack without item class path"),
    };
    let at = match find_first(record, count_prop) {
        Some(a) => a,
        None => return Err("stack without Count property"),
    };
    let count_offset = record_start + at + count_prop.len();
    let value = match read_i32(body, count_offset) {
        Some(c) => c,
        None => return Err("truncated Count value"),
    };
    Ok(Stack { item, count: value, record_start, record_end, count_offset })
}

fn collect_stacks(body: &[u8], starts: &Vec<usize>, list_end: usize, count_prop: &[u8]) -> (r: std::result::Result<
    Vec<Stack>,
    &'static str,
>)
    requires
        fits_address_space(body@.len() as int),
        forall|k: int| 0 <= k < starts@.len() ==> starts@[k] <= body@.len(),
    ensures
        match spec_stacks(body@, as_ints(starts@), list_end as int, count_prop@, 0) {
            Ok(m) => r matches Ok(x) && stack_views(x@) == m,
            Err(reason) => r matches Err(m) && m@ == reason,
        },
{
    let ghost ss = as_ints(starts@);
    let mut out: Vec<Stack> = Vec::new();
    let mut i: usize = 0;
    while i < starts.len()
        invariant
            ss == as_ints(starts@),
            i <= starts@.len(),
            fits_address_space(body@.len() as int),
            forall|k: int| 0 <= k < starts@.len() ==> starts@[k] <= body@.len(),
            spec_stacks(body@, ss, list_end as int, count_prop@, 0) == match spec_stacks(
                body@,
                ss,
                list_end as int,
                count_prop@,
                i as int,
            ) {
                Ok(rest) => Ok(stack_views(out@) + rest),
                Err(reason) => Err(reason),
            },
        decreases starts@.len() - i,
    {
        let ghost before = stack_views(out@);
        match stack_at(body, starts, i, list_end, count_prop) {
            Ok(stack) => {
                let ghost m = stack@;
                out.push(stack);
                proof {
                    assert(stack_views(out@) =~= before.push(m));
                    match spec_stacks(body@, ss, list_end as int, count_prop@, i + 1) {
                        Ok(rest) => {
                            assert(before + (seq![m] + rest) =~= stack_views(out@) + rest);
                        },
                        Err(_) => {},
                    }
                }
            },
            Err(reason) => return Err(reason),
        }
        i = i + 1;
    }
    proof {
        assert(stack_views(out@) + Seq::<StackModel>::empty() =~= stack_views(out@));
    }
    Ok(out)
}

/// The inventory of a body, or the error [`inventory`] reports.
#[verifier::opaque]
pub open spec fn spec_inventory(body: Seq<u8>, version: ArchiveVersion) -> std::result::Result<
    InventoryModel,
    ErrorModel,
> {
    match spec_count_prop(version) {
        Err(e) => Err(e),
        Ok(count_prop) => match spec_subsystem(body) {
            Err(reason) => Err(item_error(reason)),
            Ok((script, size_offset, subsystem_end)) => {
                let starts = stack_starts(
                    body,
                    occurrences(body, STACK_SCRIPT@),
                    script,
                    subsystem_end,
                );
                if starts.len() == 0 {
                    Err(
                        item_error(
                            "no item stacks in save (produce any item in-game once, then retry)"@,
                        ),
                    )
                } else {
                    match spec_list_header(body, starts, subsystem_end) {
                        Err(reason) => Err(item_error(reason)),
                        Ok((list_size_offset, stack_count_offset, list_end)) => match spec_stacks(
                            body,
                            starts,
                            list_end,
                            count_prop,
                            0,
                        ) {
                            Err(reason) => Err(item_error(reason)),
                            Ok(stacks) => Ok(
                                InventoryModel {
                                    stacks,
                                    list_size_offset,
                                    stack_count_offset,
                                    subsystem_size_offset: size_offset,
                                    first_record_start: starts[0],
                                },
                            ),
                        },
                    }
                }
            },
        },
    }
}

/// Locate the item stack list in a decompressed body.
///
/// Fails when any structural invariant fails: missing subsystem record,
/// missing or inconsistent list header, or stack records whose declared
/// spans disagree with the list span (including a last record that would
/// extend past the list or the body).
pub fn inventory(body: &[u8], version: ArchiveVersion) -> (r: Result<Inventory>)
    requires
        fits_address_space(body@.len() as int),
    ensures
        match spec_inventory(body@, version) {
            Ok(m) => r matches Ok(x) && x@ == m,
            Err(e) => r matches Err(x) && x@ == e,
        },
{
    reveal(spec_inventory);
    let count_prop = match count_prop_pattern(version) {
        Ok(p) => p,
        Err(e) => return Err(e),
    };
    let (script, subsystem_size_offset, subsystem_end) = match locate_subsystem(body) {
        Ok(x) => x,
        Err(reason) => return Err(structure_error(reason)),
    };
    let starts = collect_stack_starts(body, script, subsystem_end);
    if starts.len() == 0 {
        return Err(
            structure_error("no item stacks in save (produce any item in-game once, then retry)"),
        );
    }
    let (list_size_offset, stack_count_offset, list_end) = match list_header(
        body,
        &starts,
        subsystem_end,
    ) {
        Ok(x) => x,
        Err(reason) => return Err(structure_error(reason)),
    };
    let stacks = match collect_stacks(body, &starts, list_end, count_prop) {
        Ok(s) => s,
        Err(reason) => return Err(structure_error(reason)),
    };
    let first_record_start = starts[0];
    assert(as_ints(starts@)[0] == first_record_start as int);
    Ok(
        Inventory {
            stacks,
            list_size_offset,
            stack_count_offset,
            subsystem_size_offset,
            first_record_start,
        },
    )
}

/// Overwrite the count of an existing stack (fixed-width, in-place).
///
/// Fails with `OutOfBounds` when the stack's offsets do not fit `body`.
pub fn set_count(body: &mut [u8], stack: &Stack, count: i32) -> (r: Result<()>)
    ensures
        match spec_checked_write(
            old(body)@,
            stack@.count_offset,
            count as int,
            "stack count field"@,
        ) {
            Ok(b) => r is Ok && final(body)@ == b,
            Err(e) => r matches Err(x) && x@ == e && final(body)@ == old(body)@,
        },
        final(body)@.len() == old(body)@.len(),
{
    let count_offset = stack.count_offset;
    let len = body.len();
    if count_offset > len || len - count_offset < 4 {
        return Err(Error::OutOfBounds { what: "stack count field", value: count_offset, len });
    }
    set_i32(body, count_offset, count);
    Ok(())
}

/// Bytes of "P9ItemStack_".
pub const STACK_NAME_PREFIX: [u8; 12] = [0x50, 0x39, 0x49, 0x74, 0x65, 0x6d, 0x53, 0x74, 0x61, 0x63, 0x6b, 0x5f];

/// Bytes of "_C_".
pub const INSTANCE_MARK: [u8; 3] = [0x5f, 0x43, 0x5f];

/// Bytes of ".BP_Item_".
pub const CLASS_SEPARATOR: [u8; 9] = [0x2e, 0x42, 0x50, 0x5f, 0x49, 0x74, 0x65, 0x6d, 0x5f];

/// Bytes of "_C".
pub const CLASS_SUFFIX: [u8; 2] = [0x5f, 0x43];

/// The highest stack id tried; ids step down by two from it.
pub const FIRST_CANDIDATE_ID: u32 = 2_146_000_000;

/// The number of the last candidate (the one with id 0).
pub const LAST_ATTEMPT: u32 = 1_073_000_000;

/// The longest item class stem, in UTF-8 bytes, whose class path
/// `/Game/P9Playable/Items/BP_Item_<stem>.BP_Item_<stem>_C` still has an
/// `lstr` length that fits an `i32` (the longest [`add_stack`] takes).
pub const MAX_STEM_BYTES: usize = 1_073_741_802;

/// Room, beyond three times the stem's length, that the names of a cloned
/// record take at most.
pub const NAME_ROOM: usize = 128;

/// The `k`-th candidate stack id.
pub open spec fn candidate_id(k: nat) -> nat {
    (FIRST_CANDIDATE_ID - 2 * k) as nat
}

/// The stack object name `P9ItemStack_<n>`.
pub open spec fn stack_name_text(n: nat) -> Seq<u8> {
    STACK_NAME_PREFIX@ + decimal_bytes(n)
}

/// The end of an item instance name with id `id`: `_C_<id>` and its NUL.
pub open spec fn instance_suffix(id: nat) -> Seq<u8> {
    INSTANCE_MARK@ + decimal_bytes(id) + seq![0u8]
}

/// Whether the body already names stack `id + 1` or an instance `id`.
pub open spec fn id_in_use(body: Seq<u8>, id: nat) -> bool {
    spec_find(body, stack_name_text(id + 1)) is Some || spec_find(body, instance_suffix(id)) is Some
}

/// The first candidate id from the `k`-th on that the body does not use.
pub open spec fn first_free_id(body: Seq<u8>, k: nat) -> Option<nat>
    decreases LAST_ATTEMPT + 1 - k,
{
    if k > LAST_ATTEMPT {
        None
    } else if !id_in_use(body, candidate_id(k)) {
        Some(candidate_id(k))
    } else {
        first_free_id(body, k + 1)
    }
}

/// The first candidate id (2146000000, then down by two) that names no
/// existing stack (`P9ItemStack_<id+1>`) and no item instance (`_C_<id>`).
fn free_id(body: &[u8]) -> (r: Option<u32>)
    ensures
        match first_free_id(body@, 0) {
            Some(id) => r matches Some(x) && x as nat == id,
            None => r is None,
        },
        r matches Some(x) ==> x <= FIRST_CANDIDATE_ID,
{
    let mut k: u32 = 0;
    while k <= LAST_ATTEMPT
        invariant
            k <= LAST_ATTEMPT + 1,
            first_free_id(body@, 0) == first_free_id(body@, k as nat),
        decreases LAST_ATTEMPT + 1 - k,
    {
        let id: u32 = FIRST_CANDIDATE_ID - k * 2;
        let mut name: Vec<u8> = Vec::new();
        name.extend_from_slice(&STACK_NAME_PREFIX);
        push_decimal_bytes(&mut name, (id + 1) as u64);
        let mut suffix: Vec<u8> = Vec::new();
        suffix.extend_from_slice(&INSTANCE_MARK);
        push_decimal_bytes(&mut suffix, id as u64);
        suffix.push(0);
        assert(id as nat == candidate_id(k as nat));
        assert(name@ == stack_name_text(candidate_id(k as nat) + 1));
        assert(suffix@ == instance_suffix(candidate_id(k as nat)));
        let has_stack = find_first(body, name.as_slice()).is_some();
        let has_instance = find_first(body, suffix.as_slice()).is_some();
        if !has_stack && !has_instance {
            return Some(id);
        }
        k = k + 1;
    }
    None
}

/// Positions inside a stack record that a clone rewrites.
pub struct TemplateSpans {
    pub class_path_start: int,
    pub class_path_len: int,
    pub instance_name_start: int,
    pub instance_name_len: int,
    pub stack_name_start: int,
    pub stack_name_len: int,
    pub s1_offset: int,
    pub s2_offset: int,
    pub s3_offset: int,
    pub props_start: int,
    pub props_len: int,
}

struct TemplateParts {
    class_path_start: usize,
    class_path_len: usize,
    instance_name_start: usize,
    instance_name_len: usize,
    stack_name_start: usize,
    stack_name_len: usize,
    s1_offset: usize,
    s2_offset: usize,
    s3_offset: usize,
    props_start: usize,
    props_len: usize,
}

impl View for TemplateParts {
    type V = TemplateSpans;

    closed spec fn view(&self) -> TemplateSpans {
        TemplateSpans {
            class_path_start: self.class_path_start as int,
            class_path_len: self.class_path_len as int,
            instance_name_start: self.instance_name_start as int,
            instance_name_len: self.instance_name_len as int,
            stack_name_start: self.stack_name_start as int,
            stack_name_len: self.stack_name_len as int,
            s1_offset: self.s1_offset as int,
            s2_offset: self.s2_offset as int,
            s3_offset: self.s3_offset as int,
            props_start: self.props_start as int,
            props_len: self.props_len as int,
        }
    }
}

/// Whether `b` starts with `p`.
pub open spec fn starts_with(b: Seq<u8>, p: Seq<u8>) -> bool {
    p.len() <= b.len() && b.subrange(0, p.len() as int) == p
}

/// The spans of a stack record used as a clone template:
///
/// `[lstr script][lstr stack name][i32 0][i32 s1] ...` up to the first
/// `lstr "None"` followed by `i32 0` and `s2`, then the embedded marker,
/// `i32 0`, `[lstr item class path][lstr instance name][i32 0][i32 s3]` and
/// `s3` bytes of properties.
pub open spec fn spec_parse_template(record: Seq<u8>) -> Option<TemplateSpans> {
    match spec_read_lstr(record, 0) {
        None => None,
        Some((script, after_script)) => if script != STACK_SCRIPT@.drop_last() {
            None
        } else {
            match spec_read_lstr(record, after_script) {
                None => None,
                Some((_, after_name)) => if spec_read_i32(record, after_name) != Some(0int) {
                    None
                } else {
                    match spec_find(record, NONE_AND_SIZE@) {
                        None => None,
                        Some(none_at) => {
                            let s2 = none_at + 13;
                            let marker = s2 + 4;
                            if !(marker + 4 <= record.len() && record.subrange(
                                marker,
                                marker + 4,
                            ) == EMBEDDED_MARKER@) {
                                None
                            } else if spec_read_i32(record, marker + 4) != Some(0int) {
                                None
                            } else {
                                let class_start = marker + 8;
                                match spec_read_lstr(record, class_start) {
                                    None => None,
                                    Some((class_path, after_class)) => if !starts_with(
                                        class_path,
                                        ITEM_PATH_PREFIX@,
                                    ) {
                                        None
                                    } else {
                                        match spec_read_lstr(record, after_class) {
                                            None => None,
                                            Some((_, after_instance)) => if spec_read_i32(
                                                record,
                                                after_instance,
                                            ) != Some(0int) {
                                                None
                                            } else {
                                                let s3 = after_instance + 4;
                                                match spec_read_usize(record, s3) {
                                                    None => None,
                                                    Some(props_len) => if s3 + 4 + props_len
                                                        > record.len() {
                                                        None
                                                    } else {
                                                        Some(
                                                            TemplateSpans {
                                                                class_path_start: class_start,
                                                                class_path_len: after_class
                                                                    - class_start,
                                                                instance_name_start: after_class,
                                                                instance_name_len: after_instance
                                                                    - after_class,
                                                                stack_name_start: after_script,
                                                                stack_name_len: after_name
                                                                    - after_script,
                                                                s1_offset: after_name + 4,
                                                                s2_offset: s2,
                                                                s3_offset: s3,
                                                                props_start: s3 + 4,
                                                                props_len,
                                                            },
                                                        )
                                                    },
                                                }
                                            },
                                        }
                                    },
                                }
                            }
                        },
                    }
                },
            }
        },
    }
}

fn parse_template(record: &[u8]) -> (r: Option<TemplateParts>)
    requires
        fits_address_space(record@.len() as int),
    ensures
        match spec_parse_template(record@) {
            Some(t) => r matches Some(p) && p@ == t,
            None => r is None,
        },
{
    let (script, after_script) = match read_lstr(record, 0) {
        Some(x) => x,
        None => return None,
    };
    if !bytes_eq(script, &STACK_SCRIPT[0..30]) {
        return None;
    }
    let (_name, after_name) = match read_lstr(record, after_script) {
        Some(x) => x,
        None => return None,
    };
    match read_i32(record, after_name) {
        Some(v) => if v != 0 {
            return None;
        },
        None => return None,
    }
    let none_at = match find_first(record, &NONE_AND_SIZE) {
        Some(p) => p,
        None => return None,
    };
    assert(none_at + 13 <= record@.len());
    let s2 = none_at + 13;
    let marker = s2 + 4;
    if !matches_at(record, marker, &EMBEDDED_MARKER) {
        return None;
    }
    match read_i32(record, marker + 4) {
        Some(v) => if v != 0 {
            return None;
        },
        None => return None,
    }
    let class_start = marker + 8;
    let (class_path, after_class) = match read_lstr(record, class_start) {
        Some(x) => x,
        None => return None,
    };
    if !matches_at(class_path, 0, &ITEM_PATH_PREFIX) {
        return None;
    }
    let (_instance, after_instance) = match read_lstr(record, after_class) {
        Some(x) => x,
        None => return None,
    };
    match read_i32(record, after_instance) {
        Some(v) => if v != 0 {
            return None;
        },
        None => return None,
    }
    let s3 = after_instance + 4;
    let props_len = match read_usize(record, s3) {
        Some(v) => v,
        None => return None,
    };
    if props_len > record.len() - (s3 + 4) {
        return None;
    }
    Some(
        TemplateParts {
            class_path_start: class_start,
            class_path_len: after_class - class_start,
            instance_name_start: after_class,
            instance_name_len: after_instance - after_class,
            stack_name_start: after_script,
            stack_name_len: after_name - after_script,
            s1_offset: after_name + 4,
            s2_offset: s2,
            s3_offset: s3,
            props_start: s3 + 4,
            props_len,
        },
    )
}

/// The ordering of a template's spans inside a record of `len` bytes: the
/// stack name followed by `s1`; and, from `s2` on, `s2`, item class path,
/// instance name, `s3`, properties (the two groups may overlap).
pub open spec fn spans_ordered(p: TemplateSpans, len: int) -> bool {
    &&& 4 <= p.stack_name_start
    &&& 0 <= p.stack_name_len
    &&& p.stack_name_start + p.stack_name_len + 4 == p.s1_offset
    &&& p.s1_offset <= len
    &&& 0 <= p.s2_offset
    &&& p.s2_offset + 12 == p.class_path_start
    &&& 0 <= p.class_path_len
    &&& p.class_path_start + p.class_path_len == p.instance_name_start
    &&& 0 <= p.instance_name_len
    &&& p.instance_name_start + p.instance_name_len + 4 == p.s3_offset
    &&& p.s3_offset + 4 == p.props_start
    &&& 0 <= p.props_len
    &&& p.props_start + p.props_len <= len
}

/// Spans that parse are ordered, and the stack name follows the record's
/// leading `lstr`.
pub(crate) proof fn lemma_template_ordered(record: Seq<u8>)
    requires
        spec_parse_template(record) is Some,
    ensures
        spans_ordered(spec_parse_template(record)->Some_0, record.len() as int),
        spec_parse_template(record)->Some_0.stack_name_start >= 5,
{
    crate::search::lemma_find_some(record, NONE_AND_SIZE@);
}

/// The item class path `/Game/P9Playable/Items/BP_Item_<stem>.BP_Item_<stem>_C`.
pub open spec fn class_path_text(stem: Seq<u8>) -> Seq<u8> {
    ITEM_PATH_PREFIX@ + ITEM_CLASS_PREFIX@ + stem + CLASS_SEPARATOR@ + stem + CLASS_SUFFIX@
}

/// The item instance name `BP_Item_<stem>_C_<id>`.
pub open spec fn instance_text(stem: Seq<u8>, id: nat) -> Seq<u8> {
    ITEM_CLASS_PREFIX@ + stem + INSTANCE_MARK@ + decimal_bytes(id)
}

/// `template` with the property list emptied and the instance name and
/// item class path replaced, back to front.
pub open spec fn class_spliced(template: Seq<u8>, p: TemplateSpans, class_path: Seq<u8>, instance: Seq<u8>) -> Seq<u8> {
    spec_splice(
        spec_splice(
            spec_splice(template, p.props_start, p.props_len, EMPTY_PROPS@),
            p.instance_name_start,
            p.instance_name_len,
            instance,
        ),
        p.class_path_start,
        p.class_path_len,
        class_path,
    )
}

/// The error for a template whose spans put a write of the clone outside
/// the record.
pub open spec fn range_error() -> ErrorModel {
    item_error("template spans out of range"@)
}

/// `template` with the property list emptied and the instance name, item
/// class path and stack name replaced, back to front.
pub open spec fn spliced_record(
    template: Seq<u8>,
    p: TemplateSpans,
    class_path: Seq<u8>,
    instance: Seq<u8>,
    stack_name: Seq<u8>,
) -> Seq<u8> {
    spec_splice(
        spec_splice(
            spec_splice(
                spec_splice(template, p.props_start, p.props_len, EMPTY_PROPS@),
                p.instance_name_start,
                p.instance_name_len,
                instance,
            ),
            p.class_path_start,
            p.class_path_len,
            class_path,
        ),
        p.stack_name_start,
        p.stack_name_len,
        stack_name,
    )
}

/// The spliced record with the `i32` fields at `s1` and `s2` grown by
/// `d_inner`, the one at `s3` set to the empty list's size, and the `i32`
/// after the first v3 `Count` header set to `count`; the range error when
/// `s2` is negative or `s3` does not lie inside the record.
#[verifier::opaque]
pub open spec fn patched_record(
    spliced: Seq<u8>,
    s1: int,
    s2: int,
    s3: int,
    d_inner: int,
    count: i32,
) -> std::result::Result<Seq<u8>, ErrorModel> {
    match spec_adjust_i32(spliced, s1, d_inner) {
        Err(e) => Err(e),
        Ok(b1) => if s2 < 0 {
            Err(range_error())
        } else {
            match spec_adjust_i32(b1, s2, d_inner) {
            Err(e) => Err(e),
            Ok(b2) => if s3 < 0 || s3 + 4 > b2.len() {
                Err(range_error())
            } else {
                let b3 = spec_write_i32(b2, s3, EMPTY_PROPS@.len() as int);
                match spec_find(b3, COUNT_PROP_V3@) {
                    Some(at) => if at + COUNT_PROP_V3@.len() + 4 <= b3.len() {
                        Ok(spec_write_i32(b3, at + COUNT_PROP_V3@.len(), count as int))
                    } else {
                        Err(item_error("cloned record lost Count property"@))
                    },
                    None => Err(item_error("cloned record lost Count property"@)),
                }
            },
            }
        },
    }
}

/// A stack record cloned from `template` for item `stem` and id `id`: the
/// property list emptied, the instance name, item class path and stack
/// name replaced, `s1` and `s2` adjusted by the growth of the embedded
/// object, `s3` set to the empty list's size, and the count written; the
/// range error when the stack name no longer lies inside the record once
/// the later spans are replaced.
#[verifier::opaque]
pub open spec fn spec_clone_record(
    template: Seq<u8>,
    p: TemplateSpans,
    stem: Seq<u8>,
    id: nat,
    count: i32,
) -> std::result::Result<Seq<u8>, ErrorModel> {
    let class_path = lstr_bytes(class_path_text(stem));
    let instance = lstr_bytes(instance_text(stem, id));
    let stack_name = lstr_bytes(stack_name_text(id + 1));
    let d_name = stack_name.len() - p.stack_name_len;
    let d_class = class_path.len() - p.class_path_len;
    let d_instance = instance.len() - p.instance_name_len;
    if p.stack_name_start + p.stack_name_len > class_spliced(template, p, class_path, instance).len() {
        Err(range_error())
    } else {
        patched_record(
        spliced_record(template, p, class_path, instance, stack_name),
        p.s1_offset + d_name,
        p.s2_offset + d_name,
        p.s3_offset + d_name + d_class + d_instance,
        (EMPTY_PROPS@.len() - p.props_len) + d_class + d_instance,
        count,
        )
    }
}

fn clone_names(stem: &[u8], id: u32) -> (r: (Vec<u8>, Vec<u8>, Vec<u8>))
    requires
        stem@.len() <= MAX_STEM_BYTES,
        id <= FIRST_CANDIDATE_ID,
    ensures
        r.0@ == lstr_bytes(class_path_text(stem@)),
        r.1@ == lstr_bytes(instance_text(stem@, id as nat)),
        r.2@ == lstr_bytes(stack_name_text(id as nat + 1)),
        r.0@.len() + r.1@.len() + r.2@.len() <= stem@.len() + stem@.len() + stem@.len() + 100,
{
    proof {
        lemma_decimal_bytes_len(id as nat);
        lemma_decimal_bytes_len(id as nat + 1);
        reveal_with_fuel(ten_pow, 11);
        assert(ten_pow(10) == 10_000_000_000);
        lemma_decimal_bytes_digits(id as nat, 10);
        lemma_decimal_bytes_digits(id as nat + 1, 10);
    }
    let mut class_text: Vec<u8> = Vec::new();
    class_text.extend_from_slice(&ITEM_PATH_PREFIX);
    class_text.extend_from_slice(&ITEM_CLASS_PREFIX);
    class_text.extend_from_slice(stem);
    class_text.extend_from_slice(&CLASS_SEPARATOR);
    class_text.extend_from_slice(stem);
    class_text.extend_from_slice(&CLASS_SUFFIX);
    assert(class_text@ == class_path_text(stem@));
    let class_path = lstr(class_text.as_slice());
    let mut instance_text_bytes: Vec<u8> = Vec::new();
    instance_text_bytes.extend_from_slice(&ITEM_CLASS_PREFIX);
    instance_text_bytes.extend_from_slice(stem);
    instance_text_bytes.extend_from_slice(&INSTANCE_MARK);
    push_decimal_bytes(&mut instance_text_bytes, id as u64);
    assert(instance_text_bytes@ == instance_text(stem@, id as nat));
    let instance = lstr(instance_text_bytes.as_slice());
    let mut name_text: Vec<u8> = Vec::new();
    name_text.extend_from_slice(&STACK_NAME_PREFIX);
    push_decimal_bytes(&mut name_text, id as u64 + 1);
    assert(name_text@ == stack_name_text(id as nat + 1));
    let stack_name = lstr(name_text.as_slice());
    (class_path, instance, stack_name)
}

fn splice_record(
    template: &[u8],
    p: &TemplateParts,
    class_path: &[u8],
    instance: &[u8],
    stack_name: &[u8],
) -> (r: Option<Vec<u8>>)
    requires
        spans_ordered(p@, template@.len() as int),
    ensures
        r is None <==> p@.stack_name_start + p@.stack_name_len > class_spliced(
            template@,
            p@,
            class_path@,
            instance@,
        ).len(),
        r matches Some(v) ==> v@ == spliced_record(template@, p@, class_path@, instance@, stack_name@)
            && v@.len() == template@.len() - p@.props_len + EMPTY_PROPS@.len() - p@.instance_name_len
            + instance@.len() - p@.class_path_len + class_path@.len() - p@.stack_name_len
            + stack_name@.len(),
{
    let r1 = splice(template, p.props_start, p.props_len, &EMPTY_PROPS);
    let r2 = splice(r1.as_slice(), p.instance_name_start, p.instance_name_len, instance);
    let r3 = splice(r2.as_slice(), p.class_path_start, p.class_path_len, class_path);
    if p.stack_name_start > r3.len() || p.stack_name_len > r3.len() - p.stack_name_start {
        return None;
    }
    Some(splice(r3.as_slice(), p.stack_name_start, p.stack_name_len, stack_name))
}

fn patch_record(rec: &mut Vec<u8>, s1: usize, s2: i128, s3: i128, d_inner: i64, count: i32) -> (r:
    Result<()>)
    requires
        s2 <= usize::MAX,
        s3 <= usize::MAX,
    ensures
        match patched_record(old(rec)@, s1 as int, s2 as int, s3 as int, d_inner as int, count) {
            Ok(b) => r is Ok && final(rec)@ == b,
            Err(e) => r matches Err(x) && x@ == e,
        },
        r is Ok ==> final(rec)@.len() == old(rec)@.len(),
{
    reveal(patched_record);
    match adjust_i32(rec.as_mut_slice(), s1, d_inner) {
        Ok(()) => {},
        Err(e) => return Err(e),
    }
    if s2 < 0 {
        return Err(structure_error("template spans out of range"));
    }
    match adjust_i32(rec.as_mut_slice(), s2 as usize, d_inner) {
        Ok(()) => {},
        Err(e) => return Err(e),
    }
    let n = rec.len();
    if s3 < 0 || s3 + 4 > n as i128 {
        return Err(structure_error("template spans out of range"));
    }
    set_i32(rec.as_mut_slice(), s3 as usize, 14);
    let at = match find_first(rec.as_slice(), &COUNT_PROP_V3) {
        Some(a) => a,
        None => return Err(structure_error("cloned record lost Count property")),
    };
    if n < 39 || at > n - 39 {
        return Err(structure_error("cloned record lost Count property"));
    }
    set_i32(rec.as_mut_slice(), at + 35, count);
    Ok(())
}

/// [`spec_clone_record`] gives the range error when the stack name does
/// not lie inside the record once the later spans are replaced.
pub(crate) proof fn lemma_clone_spec_range(template: Seq<u8>, p: TemplateSpans, stem: Seq<u8>, id: nat, count: i32)
    requires
        p.stack_name_start + p.stack_name_len > class_spliced(
            template,
            p,
            lstr_bytes(class_path_text(stem)),
            lstr_bytes(instance_text(stem, id)),
        ).len(),
    ensures
        spec_clone_record(template, p, stem, id, count) == Err::<Seq<u8>, ErrorModel>(range_error()),
{
    reveal(spec_clone_record);
}

/// Otherwise [`spec_clone_record`] patches the spliced record at the
/// offsets it computes.
pub(crate) proof fn lemma_clone_spec_patched(
    template: Seq<u8>,
    p: TemplateSpans,
    stem: Seq<u8>,
    id: nat,
    count: i32,
    class_path: Seq<u8>,
    instance: Seq<u8>,
    stack_name: Seq<u8>,
)
    requires
        class_path == lstr_bytes(class_path_text(stem)),
        instance == lstr_bytes(instance_text(stem, id)),
        stack_name == lstr_bytes(stack_name_text(id + 1)),
        p.stack_name_start + p.stack_name_len <= class_spliced(template, p, class_path, instance).len(),
    ensures
        spec_clone_record(template, p, stem, id, count) == patched_record(
            spliced_record(template, p, class_path, instance, stack_name),
            p.s1_offset + stack_name.len() - p.stack_name_len,
            p.s2_offset + stack_name.len() - p.stack_name_len,
            p.s3_offset + stack_name.len() - p.stack_name_len + class_path.len() - p.class_path_len
                + instance.len() - p.instance_name_len,
            (EMPTY_PROPS@.len() - p.props_len) + class_path.len() - p.class_path_len + instance.len()
                - p.instance_name_len,
            count,
        ),
{
    reveal(spec_clone_record);
}

#[verifier::rlimit(60)]
fn clone_record(template: &[u8], p: &TemplateParts, stem: &[u8], id: u32, count: i32) -> (r: Result<
    Vec<u8>,
>)
    requires
        fits_address_space(template@.len() + stem@.len() + stem@.len() + stem@.len() + NAME_ROOM),
        spans_ordered(p@, template@.len() as int),
        stem@.len() <= MAX_STEM_BYTES,
        id <= FIRST_CANDIDATE_ID,
    ensures
        match spec_clone_record(template@, p@, stem@, id as nat, count) {
            Ok(b) => r matches Ok(x) && x@ == b,
            Err(e) => r matches Err(x) && x@ == e,
        },
        r matches Ok(x) ==> x@.len() <= template@.len() + stem@.len() + stem@.len() + stem@.len() + NAME_ROOM,
{
    let (class_path, instance, stack_name) = clone_names(stem, id);
    assert(template@.len() + class_path@.len() + instance@.len() + stack_name@.len() + 14 <= isize::MAX);
    let d_name: i64 = stack_name.len() as i64 - p.stack_name_len as i64;
    let d_class: i64 = class_path.len() as i64 - p.class_path_len as i64;
    let d_instance: i64 = instance.len() as i64 - p.instance_name_len as i64;
    let d_inner: i64 = (EMPTY_PROPS.len() as i64 - p.props_len as i64) + d_class + d_instance;
    let mut rec = match splice_record(
        template,
        p,
        class_path.as_slice(),
        instance.as_slice(),
        stack_name.as_slice(),
    ) {
        Some(r) => r,
        None => {
            proof {
                lemma_clone_spec_range(template@, p@, stem@, id as nat, count);
            }
            return Err(structure_error("template spans out of range"));
        },
    };
    proof {
        lemma_clone_spec_patched(template@, p@, stem@, id as nat, count, class_path@, instance@, stack_name@);
    }
    let s1 = p.s1_offset - p.stack_name_len + stack_name.len();
    let s2: i128 = p.s2_offset as i128 - p.stack_name_len as i128 + stack_name.len() as i128;
    let s3: i128 = p.s3_offset as i128 - p.stack_name_len as i128 - p.class_path_len as i128
        - p.instance_name_len as i128 + stack_name.len() as i128 + class_path.len() as i128
        + instance.len() as i128;
    assert(rec@.len() <= template@.len() + class_path@.len() + instance@.len() + stack_name@.len() + 14);
    assert(s2 <= template@.len() + stack_name@.len());
    assert(s3 <= template@.len() + stack_name@.len() + class_path@.len() + instance@.len());
    match patch_record(&mut rec, s1, s2, s3, d_inner, count) {
        Ok(()) => Ok(rec),
        Err(e) => Err(e),
    }
}

/// `body` with `record` inserted before the first stack record and the
/// four enclosing fields adjusted: list size, stack count (by one),
/// subsystem size and the whole-body size at offset 0.
pub open spec fn spec_insert_stack(body: Seq<u8>, inv: InventoryModel, record: Seq<u8>) -> std::result::Result<
    Seq<u8>,
    ErrorModel,
> {
    let grown = spec_splice(body, inv.first_record_start, 0, record);
    let n = record.len() as int;
    match spec_adjust_i32(grown, inv.list_size_offset, n) {
        Err(e) => Err(e),
        Ok(b1) => match spec_adjust_i32(b1, inv.stack_count_offset, 1) {
            Err(e) => Err(e),
            Ok(b2) => match spec_adjust_i32(b2, inv.subsystem_size_offset, n) {
                Err(e) => Err(e),
                Ok(b3) => spec_adjust_i32(b3, 0, n),
            },
        },
    }
}

#[verifier::rlimit(50)]
fn insert_stack(body: &[u8], inv: &Inventory, record: &[u8]) -> (r: Result<Vec<u8>>)
    requires
        inv@.first_record_start <= body@.len(),
        fits_address_space(record@.len() as int),
    ensures
        match spec_insert_stack(body@, inv@, record@) {
            Ok(b) => r matches Ok(x) && x@ == b,
            Err(e) => r matches Err(x) && x@ == e,
        },
{
    let mut out = splice(body, inv.first_record_start, 0, record);
    let n = record.len() as i64;
    match adjust_i32(out.as_mut_slice(), inv.list_size_offset, n) {
        Ok(()) => {},
        Err(e) => return Err(e),
    }
    match adjust_i32(out.as_mut_slice(), inv.stack_count_offset, 1) {
        Ok(()) => {},
        Err(e) => return Err(e),
    }
    match adjust_i32(out.as_mut_slice(), inv.subsystem_size_offset, n) {
        Ok(()) => {},
        Err(e) => return Err(e),
    }
    match adjust_i32(out.as_mut_slice(), 0, n) {
        Ok(()) => {},
        Err(e) => return Err(e),
    }
    Ok(out)
}

/// What [`add_stack`] gives for a body, archive version, item class stem
/// (as UTF-8 bytes) and count.
#[verifier::opaque]
pub open spec fn spec_add_stack(body: Seq<u8>, version: ArchiveVersion, stem: Seq<u8>, count: i32) -> std::result::Result<
    Seq<u8>,
    ErrorModel,
> {
    match version {
        ArchiveVersion::V2 => Err(ErrorModel::UnsupportedArchiveVersion(2)),
        ArchiveVersion::Other(v) => Err(ErrorModel::UnsupportedArchiveVersion(v)),
        ArchiveVersion::V3 => match spec_inventory(body, version) {
            Err(e) => Err(e),
            Ok(inv) => if inv.stacks.len() == 0 {
                Err(item_error("no template stack available"@))
            } else {
                let t = inv.stacks[0];
                let template = body.subrange(t.record_start, t.record_end);
                match spec_parse_template(template) {
                    None => Err(item_error("template stack did not parse"@)),
                    Some(p) => match first_free_id(body, 0) {
                        None => Err(item_error("no free stack id"@)),
                        Some(id) => match spec_clone_record(template, p, stem, id, count) {
                            Err(e) => Err(e),
                            Ok(record) => spec_insert_stack(body, inv, record),
                        },
                    },
                }
            },
        },
    }
}

/// A parsed inventory has a first stack, whose record lies inside the
/// body and starts the list.
pub proof fn lemma_inventory_first_record(body: Seq<u8>, version: ArchiveVersion)
    requires
        spec_inventory(body, version) is Ok,
    ensures
        ({
            let m = spec_inventory(body, version)->Ok_0;
            &&& m.stacks.len() > 0
            &&& m.stacks[0].record_start <= m.stacks[0].record_end <= body.len()
            &&& m.first_record_start == m.stacks[0].record_start
        }),
{
    reveal(spec_inventory);
}

/// A cloned record is never empty: it keeps the template's leading bytes.
pub proof fn lemma_clone_record_nonempty(
    template: Seq<u8>,
    p: TemplateSpans,
    stem: Seq<u8>,
    id: nat,
    count: i32,
)
    requires
        spec_parse_template(template) == Some(p),
        spec_clone_record(template, p, stem, id, count) is Ok,
    ensures
        spec_clone_record(template, p, stem, id, count)->Ok_0.len() > 0,
{
    reveal(spec_clone_record);
    reveal(patched_record);
    lemma_template_ordered(template);
}

/// Whether [`add_stack`] gets as far as building the new record: the save
/// is archive v3, its inventory reads with a stack, the first stack parses
/// as a template and a stack id is free.
pub open spec fn add_stack_builds(body: Seq<u8>, version: ArchiveVersion) -> bool {
    &&& version is V3
    &&& spec_inventory(body, version) is Ok
    &&& spec_inventory(body, version)->Ok_0.stacks.len() > 0
    &&& spec_parse_template(
        body.subrange(
            spec_inventory(body, version)->Ok_0.stacks[0].record_start,
            spec_inventory(body, version)->Ok_0.stacks[0].record_end,
        ),
    ) is Some
    &&& first_free_id(body, 0) is Some
}

/// Whether a record for the item class `stem` can be built for `body`: its
/// class path's `lstr` length fits an `i32`, and the grown body and the
/// new record fit in memory.
pub open spec fn stem_fits(body: Seq<u8>, stem: Seq<u8>) -> bool {
    &&& stem.len() <= MAX_STEM_BYTES
    &&& fits_address_space(body.len() + stem.len() + stem.len() + stem.len() + NAME_ROOM)
}

/// Insert a new stack of `count` x `item` by cloning the first existing
/// stack record. Returns the rebuilt body.
///
/// Only archive v3 saves are supported. Fails when the inventory cannot be
/// located, the template record does not parse, no stack id is free, the
/// clone loses its `Count` property, or a size field cannot be adjusted.
pub fn add_stack(body: &[u8], version: ArchiveVersion, item: &ItemClass, count: i32) -> (r: Result<
    Vec<u8>,
>)
    requires
        fits_address_space(body@.len() as int),
        add_stack_builds(body@, version) ==> stem_fits(body@, encode_utf8(item.0@)),
    ensures
        match spec_add_stack(body@, version, encode_utf8(item.0@), count) {
            Ok(b) => r matches Ok(x) && x@ == b,
            Err(e) => r matches Err(x) && x@ == e,
        },
{
    reveal(spec_add_stack);
    match version {
        ArchiveVersion::V3 => {},
        ArchiveVersion::V2 => return Err(Error::UnsupportedArchiveVersion(2)),
        ArchiveVersion::Other(value) => return Err(Error::UnsupportedArchiveVersion(value)),
    }
    let inv = match inventory(body, version) {
        Ok(i) => i,
        Err(e) => return Err(e),
    };
    if inv.stacks.len() == 0 {
        return Err(structure_error("no template stack available"));
    }
    proof {
        lemma_inventory_first_record(body@, version);
        assert(inv@.stacks[0] == inv.stacks@[0]@);
    }
    let record_start = inv.stacks[0].record_start;
    let record_end = inv.stacks[0].record_end;
    let template = &body[record_start..record_end];
    let parts = match parse_template(template) {
        Some(p) => p,
        None => return Err(structure_error("template stack did not parse")),
    };
    proof {
        lemma_template_ordered(template@);
    }
    let id = match free_id(body) {
        Some(i) => i,
        None => return Err(structure_error("no free stack id")),
    };
    let stem = item.0.as_str().as_bytes();
    let record = match clone_record(template, &parts, stem, id, count) {
        Ok(r) => r,
        Err(e) => return Err(e),
    };
    insert_stack(body, &inv, record.as_slice())
}

} // verus!
