//! Per-alter state: emotions and accumulated radiation.
//!
//! Each alter (instance names like `Jan_Technician_0`) serializes a mood
//! component whose embedded `BP_Emotion_<Name>_C_<id>` records each carry a
//! single `f32` after the standard float marker, and a `BP_CloneRadiation`
//! component with one `f32` the same way. Both are fixed-width in-place
//! edits, and the float-marker convention is identical in archive v2/v3.
//! Values are handled here as the raw IEEE-754 bits of the `f32`.
//!
//! Ownership is attributed positionally: components serialize after their
//! owning actor, so each emotion/radiation record belongs to the nearest
//! preceding `Jan_<Class>_<n>` instance name in the body. This matches the
//! observed grouping in every save surveyed.
use vstd::prelude::*;
use vstd::utf8::{decode_utf8, encode_utf8, valid_utf8};

use crate::bytes::{
    bytes_eq, lstr, lstr_bytes, position_of, read_i32, read_lstr, read_u32, read_usize,
    spec_first_stop, spec_read_i32, spec_read_lstr, spec_read_u32, spec_read_usize, Stop,
};
use crate::elb::{find_record, spec_checked_write, spec_find_record, write_f32_bits, FLOAT_MARKER};
use crate::error::{Error, ErrorModel, Result};
use crate::fits_address_space;
use crate::research::ARRAY_PROPERTY;
use crate::sav::ArchiveVersion;
use crate::search::{as_ints, find_all, find_first, occurrences, occurs_at, spec_find};
use crate::text::{lossy_decode, str_from_utf8, string_from_utf8_lossy};

verus! {

/// Bytes of "Jan_".
pub const JAN_INSTANCE: [u8; 4] = [0x4a, 0x61, 0x6e, 0x5f];

/// Bytes of "Jan ".
pub const JAN_DISPLAY: [u8; 4] = [0x4a, 0x61, 0x6e, 0x20];

/// Bytes of "/Game/P9Playable/Systems/Pawn/Emotions/BP_Emotion_".
pub const EMOTION_PATH_PREFIX: [u8; 50] = [0x2f, 0x47, 0x61, 0x6d, 0x65, 0x2f, 0x50, 0x39, 0x50, 0x6c, 0x61, 0x79, 0x61, 0x62, 0x6c, 0x65, 0x2f, 0x53, 0x79, 0x73, 0x74, 0x65, 0x6d, 0x73, 0x2f, 0x50, 0x61, 0x77, 0x6e, 0x2f, 0x45, 0x6d, 0x6f, 0x74, 0x69, 0x6f, 0x6e, 0x73, 0x2f, 0x42, 0x50, 0x5f, 0x45, 0x6d, 0x6f, 0x74, 0x69, 0x6f, 0x6e, 0x5f];

/// Bytes of ".BP_Emotion_".
pub const EMOTION_SEPARATOR: [u8; 12] = [0x2e, 0x42, 0x50, 0x5f, 0x45, 0x6d, 0x6f, 0x74, 0x69, 0x6f, 0x6e, 0x5f];

/// Bytes of "_C".
pub const EMOTION_SUFFIX: [u8; 2] = [0x5f, 0x43];

/// Bytes of "/Game/P9Playable/Systems/Pawn/Radiation/BP_CloneRadiation.BP_CloneRadiation_C".
pub const RADIATION_PATH: [u8; 77] = [0x2f, 0x47, 0x61, 0x6d, 0x65, 0x2f, 0x50, 0x39, 0x50, 0x6c, 0x61, 0x79, 0x61, 0x62, 0x6c, 0x65, 0x2f, 0x53, 0x79, 0x73, 0x74, 0x65, 0x6d, 0x73, 0x2f, 0x50, 0x61, 0x77, 0x6e, 0x2f, 0x52, 0x61, 0x64, 0x69, 0x61, 0x74, 0x69, 0x6f, 0x6e, 0x2f, 0x42, 0x50, 0x5f, 0x43, 0x6c, 0x6f, 0x6e, 0x65, 0x52, 0x61, 0x64, 0x69, 0x61, 0x74, 0x69, 0x6f, 0x6e, 0x2e, 0x42, 0x50, 0x5f, 0x43, 0x6c, 0x6f, 0x6e, 0x65, 0x52, 0x61, 0x64, 0x69, 0x61, 0x74, 0x69, 0x6f, 0x6e, 0x5f, 0x43];

/// Bytes of "Elb_Serializable".
pub const ELB_SERIALIZABLE: [u8; 16] = [0x45, 0x6c, 0x62, 0x5f, 0x53, 0x65, 0x72, 0x69, 0x61, 0x6c, 0x69, 0x7a, 0x61, 0x62, 0x6c, 0x65];

/// Bytes of "/Script/P9Playable.P9CharacterManagerSubsystem".
pub const CHARACTER_MANAGER: [u8; 46] = [0x2f, 0x53, 0x63, 0x72, 0x69, 0x70, 0x74, 0x2f, 0x50, 0x39, 0x50, 0x6c, 0x61, 0x79, 0x61, 0x62, 0x6c, 0x65, 0x2e, 0x50, 0x39, 0x43, 0x68, 0x61, 0x72, 0x61, 0x63, 0x74, 0x65, 0x72, 0x4d, 0x61, 0x6e, 0x61, 0x67, 0x65, 0x72, 0x53, 0x75, 0x62, 0x73, 0x79, 0x73, 0x74, 0x65, 0x6d];

/// Bytes of "DeadAlters".
pub const DEAD_ALTERS: [u8; 10] = [0x44, 0x65, 0x61, 0x64, 0x41, 0x6c, 0x74, 0x65, 0x72, 0x73];

/// Bytes of "StructProperty".
pub const STRUCT_PROPERTY: [u8; 14] = [0x53, 0x74, 0x72, 0x75, 0x63, 0x74, 0x50, 0x72, 0x6f, 0x70, 0x65, 0x72, 0x74, 0x79];

/// Bytes of "Fun".
pub const FUN: [u8; 3] = [0x46, 0x75, 0x6e];

/// Bytes of "Motivation".
pub const MOTIVATION: [u8; 10] = [0x4d, 0x6f, 0x74, 0x69, 0x76, 0x61, 0x74, 0x69, 0x6f, 0x6e];

/// Bytes of "Burden".
pub const BURDEN: [u8; 6] = [0x42, 0x75, 0x72, 0x64, 0x65, 0x6e];

/// Bytes of "Gloom".
pub const GLOOM: [u8; 5] = [0x47, 0x6c, 0x6f, 0x6f, 0x6d];

/// Bytes of "Frustration".
pub const FRUSTRATION: [u8; 11] = [0x46, 0x72, 0x75, 0x73, 0x74, 0x72, 0x61, 0x74, 0x69, 0x6f, 0x6e];

/// Bytes of "Rebellion".
pub const REBELLION: [u8; 9] = [0x52, 0x65, 0x62, 0x65, 0x6c, 0x6c, 0x69, 0x6f, 0x6e];

/// Bytes of "Insecurity".
pub const INSECURITY: [u8; 10] = [0x49, 0x6e, 0x73, 0x65, 0x63, 0x75, 0x72, 0x69, 0x74, 0x79];

/// Bytes of "Anxiety".
pub const ANXIETY: [u8; 7] = [0x41, 0x6e, 0x78, 0x69, 0x65, 0x74, 0x79];

/// The names of the eight emotions, in the order they are scanned.
pub const EMOTION_NAMES: [&'static str; 8] = [
    "Fun",
    "Motivation",
    "Burden",
    "Gloom",
    "Frustration",
    "Rebellion",
    "Insecurity",
    "Anxiety",
];

/// The name of the `i`-th emotion.
pub open spec fn emotion_name(i: int) -> Seq<char> {
    if i == 0 {
        "Fun"@
    } else if i == 1 {
        "Motivation"@
    } else if i == 2 {
        "Burden"@
    } else if i == 3 {
        "Gloom"@
    } else if i == 4 {
        "Frustration"@
    } else if i == 5 {
        "Rebellion"@
    } else if i == 6 {
        "Insecurity"@
    } else {
        "Anxiety"@
    }
}

/// The bytes of the name of the `i`-th emotion.
pub open spec fn emotion_name_bytes(i: int) -> Seq<u8> {
    if i == 0 {
        FUN@
    } else if i == 1 {
        MOTIVATION@
    } else if i == 2 {
        BURDEN@
    } else if i == 3 {
        GLOOM@
    } else if i == 4 {
        FRUSTRATION@
    } else if i == 5 {
        REBELLION@
    } else if i == 6 {
        INSECURITY@
    } else {
        ANXIETY@
    }
}

fn emotion_name_str(i: usize) -> (r: &'static str)
    ensures
        r@ == emotion_name(i as int),
{
    match i {
        0 => "Fun",
        1 => "Motivation",
        2 => "Burden",
        3 => "Gloom",
        4 => "Frustration",
        5 => "Rebellion",
        6 => "Insecurity",
        _ => "Anxiety",
    }
}

fn emotion_name_slice(i: usize) -> (r: &'static [u8])
    ensures
        r@ == emotion_name_bytes(i as int),
{
    match i {
        0 => &FUN,
        1 => &MOTIVATION,
        2 => &BURDEN,
        3 => &GLOOM,
        4 => &FRUSTRATION,
        5 => &REBELLION,
        6 => &INSECURITY,
        _ => &ANXIETY,
    }
}

/// The class path of an emotion record:
/// `/Game/P9Playable/Systems/Pawn/Emotions/BP_Emotion_<n>.BP_Emotion_<n>_C`.
pub open spec fn emotion_class_path(name: Seq<u8>) -> Seq<u8> {
    EMOTION_PATH_PREFIX@ + name + EMOTION_SEPARATOR@ + name + EMOTION_SUFFIX@
}

/// One emotion value on one alter.
#[derive(Debug, Clone)]
pub struct Emotion {
    pub name: String,
    /// The bits of the `f32` value.
    pub value_bits: u32,
    value_offset: usize,
}

impl Emotion {
    /// The value offset is a position: it fits a `usize`.
    pub proof fn lemma_offset_range(&self)
        ensures
            0 <= self@.value_offset <= usize::MAX,
    {
    }

    /// The emotion's name.
    pub fn name_text(&self) -> (r: &String)
        ensures
            r@ == self@.name,
    {
        &self.name
    }

    /// The bits of the `f32` value.
    pub fn bits(&self) -> (r: u32)
        ensures
            r == self@.value_bits,
    {
        self.value_bits
    }
}

/// Mathematical value of an [`Emotion`].
pub struct EmotionModel {
    pub name: Seq<char>,
    pub value_bits: u32,
    pub value_offset: int,
}

impl View for Emotion {
    type V = EmotionModel;

    closed spec fn view(&self) -> EmotionModel {
        EmotionModel {
            name: self.name@,
            value_bits: self.value_bits,
            value_offset: self.value_offset as int,
        }
    }
}

/// One alter's editable state.
#[derive(Debug, Clone)]
pub struct Alter {
    /// Instance name, e.g. `Jan_Technician_0`.
    pub name: String,
    /// Radiation values (as `f32` bits) owned by this alter, with their
    /// offsets (usually one).
    pub radiation: Vec<(u32, usize)>,
    /// Emotion records owned by this alter. Emotions repeat (the mood
    /// system keeps several copies); edits should be applied to all
    /// records sharing a name.
    pub emotions: Vec<Emotion>,
}

/// Mathematical value of an [`Alter`].
pub struct AlterModel {
    pub name: Seq<char>,
    pub radiation: Seq<(u32, int)>,
    pub emotions: Seq<EmotionModel>,
}

/// The values and offsets of radiation fields.
pub open spec fn radiation_view(r: Seq<(u32, usize)>) -> Seq<(u32, int)> {
    r.map_values(|x: (u32, usize)| (x.0, x.1 as int))
}

/// The views of a sequence of emotions.
pub open spec fn emotion_views(e: Seq<Emotion>) -> Seq<EmotionModel> {
    e.map_values(|x: Emotion| x@)
}

impl View for Alter {
    type V = AlterModel;

    open spec fn view(&self) -> AlterModel {
        AlterModel {
            name: self.name@,
            radiation: radiation_view(self.radiation@),
            emotions: emotion_views(self.emotions@),
        }
    }
}

/// The views of a sequence of alters.
pub open spec fn alter_views(a: Seq<Alter>) -> Seq<AlterModel> {
    a.map_values(|x: Alter| x@)
}

/// The value of a string of ASCII digits.
pub open spec fn digits_value(d: Seq<u8>) -> int
    decreases d.len(),
{
    if d.len() == 0 {
        0
    } else {
        10 * digits_value(d.drop_last()) + (d.last() - 0x30)
    }
}

/// Whether `d` parses as a `u32`: one or more ASCII digits whose value
/// fits.
pub open spec fn parses_u32(d: Seq<u8>) -> bool {
    &&& d.len() > 0
    &&& forall|i: int| 0 <= i < d.len() ==> crate::bytes::is_ascii_digit(#[trigger] d[i])
    &&& digits_value(d) <= u32::MAX
}

/// The part of `b` after its last `_` (all of it when there is none).
pub open spec fn after_last_underscore(b: Seq<u8>) -> Seq<u8>
    decreases b.len(),
{
    if b.len() == 0 {
        b
    } else if b.last() == 0x5f {
        Seq::empty()
    } else {
        after_last_underscore(b.drop_last()).push(b.last())
    }
}

/// The instance name starting at `start`: the name bytes up to the first
/// byte that cannot be part of a name within 48 bytes, valid UTF-8, longer
/// than four bytes, whose part after the last `_` parses as a `u32`.
pub open spec fn owner_name_at(body: Seq<u8>, start: int) -> Option<Seq<char>> {
    let to = if start + 48 < body.len() {
        start + 48
    } else {
        body.len() as int
    };
    let tail = body.subrange(start, to);
    match spec_first_stop(tail, Stop::NotNameByte) {
        None => None,
        Some(end) => {
            let name = tail.subrange(0, end);
            if !valid_utf8(name) {
                None
            } else if name.len() > 4 && parses_u32(after_last_underscore(name)) {
                Some(decode_utf8(name))
            } else {
                None
            }
        },
    }
}

/// The instance names among the candidate starts, with their positions.
pub open spec fn owners_among(body: Seq<u8>, cands: Seq<int>) -> Seq<(int, Seq<char>)>
    decreases cands.len(),
{
    if cands.len() == 0 {
        Seq::empty()
    } else {
        let rest = owners_among(body, cands.drop_first());
        match owner_name_at(body, cands[0]) {
            Some(name) => seq![(cands[0], name)] + rest,
            None => rest,
        }
    }
}

/// Every alter instance name in the body, in order, with its position.
pub open spec fn spec_owners(body: Seq<u8>) -> Seq<(int, Seq<char>)> {
    owners_among(body, occurrences(body, JAN_INSTANCE@))
}

/// The positions and names of owner entries.
pub open spec fn owner_views(o: Seq<(usize, String)>) -> Seq<(int, Seq<char>)> {
    o.map_values(|x: (usize, String)| (x.0 as int, x.1@))
}

fn ends_in_u32(name: &[u8]) -> (r: bool)
    ensures
        r == parses_u32(after_last_underscore(name@)),
{
    let n = name.len();
    let mut start = n;
    assert(name@.subrange(0, n as int) =~= name@);
    assert(name@.subrange(n as int, n as int) =~= Seq::<u8>::empty());
    assert(after_last_underscore(name@) + Seq::<u8>::empty() =~= after_last_underscore(name@));
    while start > 0 && name[start - 1] != 0x5f
        invariant
            start <= n == name@.len(),
            after_last_underscore(name@) == after_last_underscore(name@.subrange(0, start as int))
                + name@.subrange(start as int, n as int),
        decreases start,
    {
        let ghost p = name@.subrange(0, start as int);
        assert(p.drop_last() =~= name@.subrange(0, start - 1));
        assert(name@.subrange(start - 1, n as int) =~= seq![p.last()] + name@.subrange(
            start as int,
            n as int,
        ));
        assert(after_last_underscore(p) =~= after_last_underscore(p.drop_last()).push(p.last()));
        start = start - 1;
    }
    proof {
        let p = name@.subrange(0, start as int);
        if start == 0 {
            assert(p.len() == 0);
        } else {
            assert(p.last() == 0x5f);
        }
        assert(after_last_underscore(p) =~= Seq::<u8>::empty());
    }
    let ghost d = name@.subrange(start as int, n as int);
    assert(after_last_underscore(name@) =~= d);
    if start == n {
        return false;
    }
    let mut value: u64 = 0;
    let mut i = start;
    while i < n
        invariant
            start <= i <= n == name@.len(),
            d == name@.subrange(start as int, n as int),
            after_last_underscore(name@) == d,
            forall|k: int| start <= k < i ==> crate::bytes::is_ascii_digit(#[trigger] name@[k]),
            value as int == if digits_value(name@.subrange(start as int, i as int)) <= u32::MAX {
                digits_value(name@.subrange(start as int, i as int))
            } else {
                u32::MAX + 1
            },
        decreases n - i,
    {
        let c = name[i];
        if !(0x30 <= c && c <= 0x39) {
            assert(d[i - start] == c);
            return false;
        }
        let ghost before = name@.subrange(start as int, i as int);
        assert(name@.subrange(start as int, i + 1).drop_last() =~= before);
        let next = value * 10 + (c - 0x30) as u64;
        value = if next > 0x1_0000_0000 {
            0x1_0000_0000
        } else {
            next
        };
        i = i + 1;
    }
    proof {
        assert(name@.subrange(start as int, n as int) == d);
        assert forall|k: int| 0 <= k < d.len() implies crate::bytes::is_ascii_digit(#[trigger] d[k]) by {
            assert(d[k] == name@[start + k]);
        }
    }
    value <= 0xffff_ffff
}

fn owner_name_at_exec(body: &[u8], start: usize) -> (r: Option<String>)
    requires
        start <= body@.len(),
        fits_address_space(body@.len() as int),
    ensures
        match owner_name_at(body@, start as int) {
            Some(n) => r matches Some(s) && s@ == n,
            None => r is None,
        },
{
    let len = body.len();
    let to = if start + 48 < len {
        start + 48
    } else {
        len
    };
    let tail = &body[start..to];
    let end = match position_of(tail, Stop::NotNameByte) {
        Some(e) => e,
        None => return None,
    };
    let name = &tail[0..end];
    let text = match str_from_utf8(name) {
        Some(t) => t,
        None => return None,
    };
    if name.len() > 4 && ends_in_u32(name) {
        Some(text.to_owned())
    } else {
        None
    }
}

fn owner_names(body: &[u8]) -> (r: Vec<(usize, String)>)
    requires
        fits_address_space(body@.len() as int),
    ensures
        owner_views(r@) == spec_owners(body@),
{
    let starts = find_all(body, &JAN_INSTANCE);
    let ghost all = occurrences(body@, JAN_INSTANCE@);
    proof {
        crate::search::lemma_occurrences_are_matches(body@, JAN_INSTANCE@, 0);
    }
    let mut owners: Vec<(usize, String)> = Vec::new();
    let mut k: usize = 0;
    assert(all.subrange(0, all.len() as int) =~= all);
    while k < starts.len()
        invariant
            fits_address_space(body@.len() as int),
            as_ints(starts@) == all,
            forall|j: int| 0 <= j < all.len() ==> occurs_at(body@, JAN_INSTANCE@, #[trigger] all[j]),
            k <= starts@.len(),
            owner_views(owners@) + owners_among(body@, all.subrange(k as int, all.len() as int))
                == spec_owners(body@),
        decreases starts@.len() - k,
    {
        let start = starts[k];
        assert(all[k as int] == start as int);
        let ghost rest = all.subrange(k as int, all.len() as int);
        assert(rest[0] == start as int);
        assert(rest.drop_first() =~= all.subrange(k + 1, all.len() as int));
        let ghost before = owner_views(owners@);
        match owner_name_at_exec(body, start) {
            Some(name) => {
                let ghost n = name@;
                owners.push((start, name));
                assert(owner_views(owners@) =~= before.push((start as int, n)));
                assert(before.push((start as int, n)) + owners_among(body@, rest.drop_first())
                    =~= before + (seq![(start as int, n)] + owners_among(body@, rest.drop_first())));
            },
            None => {},
        }
        k = k + 1;
    }
    proof {
        assert(all.subrange(k as int, all.len() as int) =~= Seq::<int>::empty());
        assert(owner_views(owners@) + Seq::<(int, Seq<char>)>::empty() =~= owner_views(owners@));
    }
    owners
}

/// The name of the last owner before `position` among the leading owners
/// that all start before it.
pub open spec fn owner_before(owners: Seq<(int, Seq<char>)>, position: int) -> Option<Seq<char>>
    decreases owners.len(),
{
    if owners.len() == 0 || owners[0].0 >= position {
        None
    } else {
        match owner_before(owners.drop_first(), position) {
            Some(name) => Some(name),
            None => Some(owners[0].1),
        }
    }
}

fn owner_of(owners: &Vec<(usize, String)>, position: usize) -> (r: Option<usize>)
    ensures
        match owner_before(owner_views(owners@), position as int) {
            Some(name) => r matches Some(i) && i < owners@.len() && owners@[i as int].1@ == name,
            None => r is None,
        },
{
    let ghost all = owner_views(owners@);
    let mut last: Option<usize> = None;
    let mut i: usize = 0;
    assert(all.subrange(0, all.len() as int) =~= all);
    while i < owners.len() && owners[i].0 < position
        invariant
            all == owner_views(owners@),
            i <= owners@.len(),
            last matches Some(j) ==> j < owners@.len(),
            owner_before(all, position as int) == match owner_before(
                all.subrange(i as int, all.len() as int),
                position as int,
            ) {
                Some(name) => Some(name),
                None => match last {
                    Some(j) => Some(owners@[j as int].1@),
                    None => None,
                },
            },
        decreases owners@.len() - i,
    {
        let ghost rest = all.subrange(i as int, all.len() as int);
        assert(rest[0] == all[i as int]);
        assert(rest.drop_first() =~= all.subrange(i + 1, all.len() as int));
        last = Some(i);
        i = i + 1;
    }
    proof {
        let rest = all.subrange(i as int, all.len() as int);
        if i < owners@.len() {
            assert(rest[0] == all[i as int]);
        }
    }
    last
}

/// The content span of the record whose class `lstr` ends at
/// `after_class`: `[lstr instance]`, then `[i32 0]` (top-level record) or
/// `[i32 1][lstr "Elb_Serializable"]` (component), then `[i32 size]`.
pub open spec fn spec_record_content_after(body: Seq<u8>, after_class: int) -> Option<(int, int)> {
    match spec_read_lstr(body, after_class) {
        None => None,
        Some((_, cursor)) => match spec_read_i32(body, cursor) {
            None => None,
            Some(kind) => {
                let size_at = if kind == 0 {
                    Some(cursor + 4)
                } else if kind == 1 {
                    match spec_read_lstr(body, cursor + 4) {
                        None => None,
                        Some((tag, after_tag)) => if tag == ELB_SERIALIZABLE@ {
                            Some(after_tag)
                        } else {
                            None
                        },
                    }
                } else {
                    None
                };
                match size_at {
                    None => None,
                    Some(at) => match spec_read_usize(body, at) {
                        None => None,
                        Some(size) => if at + 4 + size <= body.len() {
                            Some((at + 4, size))
                        } else {
                            None
                        },
                    },
                }
            },
        },
    }
}

fn record_content_after(body: &[u8], after_class: usize) -> (r: Option<(usize, usize)>)
    requires
        fits_address_space(body@.len() as int),
    ensures
        spec_record_content_after(body@, after_class as int) == match r {
            Some((a, b)) => Some((a as int, b as int)),
            None => None::<(int, int)>,
        },
{
    let (_instance, cursor) = match read_lstr(body, after_class) {
        Some(x) => x,
        None => return None,
    };
    let kind = match read_i32(body, cursor) {
        Some(k) => k,
        None => return None,
    };
    let at = if kind == 0 {
        cursor + 4
    } else if kind == 1 {
        let (tag, after_tag) = match read_lstr(body, cursor + 4) {
            Some(x) => x,
            None => return None,
        };
        if !bytes_eq(tag, &ELB_SERIALIZABLE) {
            return None;
        }
        after_tag
    } else {
        return None;
    };
    let size = match read_usize(body, at) {
        Some(s) => s,
        None => return None,
    };
    if size > body.len() - (at + 4) {
        return None;
    }
    Some((at + 4, size))
}

/// The `f32` bits after the first float marker in `body[start..start +
/// size]`, and their offset.
pub open spec fn spec_float_after_marker(body: Seq<u8>, start: int, size: int) -> Option<(u32, int)> {
    if start + size > body.len() {
        None
    } else {
        match spec_find(body.subrange(start, start + size), FLOAT_MARKER@) {
            None => None,
            Some(marker) => {
                let offset = start + marker + FLOAT_MARKER@.len();
                match spec_read_u32(body, offset) {
                    None => None,
                    Some(bits) => Some((bits as u32, offset)),
                }
            },
        }
    }
}

fn float_after_marker(body: &[u8], start: usize, size: usize) -> (r: Option<(u32, usize)>)
    requires
        start <= body@.len(),
        fits_address_space(body@.len() as int),
    ensures
        spec_float_after_marker(body@, start as int, size as int) == match r {
            Some((v, o)) => Some((v, o as int)),
            None => None::<(u32, int)>,
        },
{
    if size > body.len() - start {
        return None;
    }
    let marker = match find_first(&body[start..start + size], &FLOAT_MARKER) {
        Some(m) => m,
        None => return None,
    };
    let offset = start + marker + FLOAT_MARKER.len();
    match read_u32(body, offset) {
        Some(bits) => Some((bits, offset)),
        None => None,
    }
}

/// The index of the first alter named `owner`, or the length when none is.
pub open spec fn index_named(r: Seq<AlterModel>, owner: Seq<char>) -> int
    decreases r.len(),
{
    if r.len() == 0 {
        0
    } else if r[0].name == owner {
        0
    } else {
        1 + index_named(r.drop_first(), owner)
    }
}

/// `r` with an empty alter named `owner` appended unless one is there.
pub open spec fn with_owner(r: Seq<AlterModel>, owner: Seq<char>) -> Seq<AlterModel> {
    if index_named(r, owner) < r.len() {
        r
    } else {
        r.push(AlterModel { name: owner, radiation: Seq::empty(), emotions: Seq::empty() })
    }
}

/// `r` with emotion `e` added to the alter named `owner`.
pub open spec fn with_emotion(r: Seq<AlterModel>, owner: Seq<char>, e: EmotionModel) -> Seq<AlterModel> {
    let grown = with_owner(r, owner);
    let i = index_named(r, owner);
    grown.update(
        i,
        AlterModel { name: grown[i].name, radiation: grown[i].radiation, emotions: grown[i].emotions.push(e) },
    )
}

/// `r` with radiation field `v` added to the alter named `owner`.
pub open spec fn with_radiation(r: Seq<AlterModel>, owner: Seq<char>, v: (u32, int)) -> Seq<AlterModel> {
    let grown = with_owner(r, owner);
    let i = index_named(r, owner);
    grown.update(
        i,
        AlterModel { name: grown[i].name, radiation: grown[i].radiation.push(v), emotions: grown[i].emotions },
    )
}

proof fn lemma_index_named(r: Seq<AlterModel>, owner: Seq<char>, i: int)
    requires
        0 <= i <= r.len(),
        forall|k: int| 0 <= k < i ==> r[k].name != owner,
        i < r.len() ==> r[i].name == owner,
    ensures
        index_named(r, owner) == i,
    decreases i,
{
    if i > 0 {
        assert forall|k: int| 0 <= k < i - 1 implies r.drop_first()[k].name != owner by {
            assert(r.drop_first()[k] == r[k + 1]);
        }
        if i < r.len() {
            assert(r.drop_first()[i - 1] == r[i]);
        }
        lemma_index_named(r.drop_first(), owner, i - 1);
    }
}

fn index_of(result: &mut Vec<Alter>, owner: &String) -> (r: usize)
    ensures
        alter_views(final(result)@) == with_owner(alter_views(old(result)@), owner@),
        r as int == index_named(alter_views(old(result)@), owner@),
        r < final(result)@.len(),
{
    let ghost v = alter_views(result@);
    let mut i: usize = 0;
    while i < result.len()
        invariant
            v == alter_views(result@),
            result@ == old(result)@,
            i <= result@.len(),
            forall|k: int| 0 <= k < i ==> v[k].name != owner@,
        decreases result@.len() - i,
    {
        if result[i].name == *owner {
            proof {
                lemma_index_named(v, owner@, i as int);
            }
            return i;
        }
        i = i + 1;
    }
    proof {
        lemma_index_named(v, owner@, i as int);
    }
    let fresh = Alter { name: owner.clone(), radiation: Vec::new(), emotions: Vec::new() };
    assert(fresh@.radiation =~= Seq::<(u32, int)>::empty());
    assert(fresh@.emotions =~= Seq::<EmotionModel>::empty());
    let ghost fv = fresh@;
    result.push(fresh);
    assert(alter_views(result@) =~= v.push(fv));
    assert(alter_views(result@) =~= with_owner(v, owner@));
    result.len() - 1
}

fn add_emotion(result: &mut Vec<Alter>, owner: &String, e: Emotion)
    ensures
        alter_views(final(result)@) == with_emotion(alter_views(old(result)@), owner@, e@),
{
    let ghost v = alter_views(result@);
    let i = index_of(result, owner);
    let ghost grown = alter_views(result@);
    let mut a = result.remove(i);
    let ghost a0 = a@;
    assert(a0 == grown[i as int]);
    a.emotions.push(e);
    assert(emotion_views(a.emotions@) =~= a0.emotions.push(e@));
    result.insert(i, a);
    assert(alter_views(result@) =~= with_emotion(v, owner@, e@));
}

fn add_radiation(result: &mut Vec<Alter>, owner: &String, bits: u32, offset: usize)
    ensures
        alter_views(final(result)@) == with_radiation(
            alter_views(old(result)@),
            owner@,
            (bits, offset as int),
        ),
{
    let ghost v = alter_views(result@);
    let i = index_of(result, owner);
    let ghost grown = alter_views(result@);
    let mut a = result.remove(i);
    let ghost a0 = a@;
    assert(a0 == grown[i as int]);
    a.radiation.push((bits, offset));
    assert(radiation_view(a.radiation@) =~= a0.radiation.push((bits, offset as int)));
    result.insert(i, a);
    assert(alter_views(result@) =~= with_radiation(v, owner@, (bits, offset as int)));
}

/// The `lstr` of the class path of the `which`-th emotion.
pub open spec fn emotion_needle(which: int) -> Seq<u8> {
    lstr_bytes(emotion_class_path(emotion_name_bytes(which)))
}

/// The error for an emotion record that no alter instance precedes.
pub open spec fn orphan_emotion_error(which: int, start: int) -> ErrorModel {
    ErrorModel::MalformedChunk {
        offset: start as usize,
        reason: "emotion "@ + emotion_name(which) + " without preceding alter instance"@,
    }
}

/// The alters after taking in the `which`-th emotion's record whose class
/// `lstr` starts at `start`: skipped when its content or value does not
/// parse, an error when no alter instance precedes it.
pub open spec fn emotion_step(
    body: Seq<u8>,
    owners: Seq<(int, Seq<char>)>,
    r: Seq<AlterModel>,
    which: int,
    start: int,
) -> std::result::Result<Seq<AlterModel>, ErrorModel> {
    match spec_record_content_after(body, start + emotion_needle(which).len()) {
        None => Ok(r),
        Some((content_start, content_size)) => match spec_float_after_marker(
            body,
            content_start,
            content_size,
        ) {
            None => Ok(r),
            Some((bits, offset)) => match owner_before(owners, start) {
                None => Err(orphan_emotion_error(which, start)),
                Some(owner) => Ok(
                    with_emotion(
                        r,
                        owner,
                        EmotionModel { name: emotion_name(which), value_bits: bits, value_offset: offset },
                    ),
                ),
            },
        },
    }
}

/// The alters after taking in the `which`-th emotion's records at `cands`.
pub open spec fn emotion_scan(
    body: Seq<u8>,
    owners: Seq<(int, Seq<char>)>,
    r: Seq<AlterModel>,
    which: int,
    cands: Seq<int>,
) -> std::result::Result<Seq<AlterModel>, ErrorModel>
    decreases cands.len(),
{
    if cands.len() == 0 {
        Ok(r)
    } else {
        match emotion_step(body, owners, r, which, cands[0]) {
            Err(e) => Err(e),
            Ok(next) => emotion_scan(body, owners, next, which, cands.drop_first()),
        }
    }
}

/// The alters after taking in the records of emotions `which..8`.
pub open spec fn emotions_from(
    body: Seq<u8>,
    owners: Seq<(int, Seq<char>)>,
    r: Seq<AlterModel>,
    which: int,
) -> std::result::Result<Seq<AlterModel>, ErrorModel>
    decreases 8 - which,
{
    if which < 0 || which >= 8 {
        Ok(r)
    } else {
        match emotion_scan(body, owners, r, which, occurrences(body, emotion_needle(which))) {
            Err(e) => Err(e),
            Ok(next) => emotions_from(body, owners, next, which + 1),
        }
    }
}

/// The alters after taking in the radiation record whose class `lstr`
/// starts at `start` (skipped when it does not parse or has no owner).
pub open spec fn radiation_step(
    body: Seq<u8>,
    owners: Seq<(int, Seq<char>)>,
    r: Seq<AlterModel>,
    start: int,
) -> Seq<AlterModel> {
    match spec_record_content_after(body, start + lstr_bytes(RADIATION_PATH@).len()) {
        None => r,
        Some((content_start, content_size)) => match spec_float_after_marker(
            body,
            content_start,
            content_size,
        ) {
            None => r,
            Some((bits, offset)) => match owner_before(owners, start) {
                None => r,
                Some(owner) => with_radiation(r, owner, (bits, offset)),
            },
        },
    }
}

/// The alters after taking in the radiation records at `cands`.
pub open spec fn radiation_scan(
    body: Seq<u8>,
    owners: Seq<(int, Seq<char>)>,
    r: Seq<AlterModel>,
    cands: Seq<int>,
) -> Seq<AlterModel>
    decreases cands.len(),
{
    if cands.len() == 0 {
        r
    } else {
        radiation_scan(body, owners, radiation_step(body, owners, r, cands[0]), cands.drop_first())
    }
}

/// The alters of a body, or the error [`alters`] reports: alters appear in
/// the order their first record is met, emotions first (by emotion, then
/// by position), then radiation.
pub open spec fn spec_alters(body: Seq<u8>) -> std::result::Result<Seq<AlterModel>, ErrorModel> {
    let owners = spec_owners(body);
    match emotions_from(body, owners, Seq::empty(), 0) {
        Err(e) => Err(e),
        Ok(r) => Ok(
            radiation_scan(body, owners, r, occurrences(body, lstr_bytes(RADIATION_PATH@))),
        ),
    }
}

fn orphan_error(which: usize, start: usize) -> (e: Error)
    ensures
        e@ == orphan_emotion_error(which as int, start as int),
{
    let mut text = String::new();
    text.append("emotion ");
    text.append(emotion_name_str(which));
    text.append(" without preceding alter instance");
    Error::MalformedChunk { offset: start, reason: text }
}

fn scan_emotion(
    body: &[u8],
    owners: &Vec<(usize, String)>,
    result: &mut Vec<Alter>,
    which: usize,
) -> (r: Result<()>)
    requires
        which < 8,
        fits_address_space(body@.len() as int),
    ensures
        match emotion_scan(
            body@,
            owner_views(owners@),
            alter_views(old(result)@),
            which as int,
            occurrences(body@, emotion_needle(which as int)),
        ) {
            Ok(v) => r is Ok && alter_views(final(result)@) == v,
            Err(e) => r matches Err(x) && x@ == e,
        },
{
    let name = emotion_name_slice(which);
    let mut path: Vec<u8> = Vec::new();
    path.extend_from_slice(&EMOTION_PATH_PREFIX);
    path.extend_from_slice(name);
    path.extend_from_slice(&EMOTION_SEPARATOR);
    path.extend_from_slice(name);
    path.extend_from_slice(&EMOTION_SUFFIX);
    assert(path@ == emotion_class_path(emotion_name_bytes(which as int)));
    let needle = lstr(path.as_slice());
    let starts = find_all(body, needle.as_slice());
    let ghost all = occurrences(body@, needle@);
    let ghost ov = owner_views(owners@);
    let ghost r0 = alter_views(result@);
    proof {
        crate::search::lemma_occurrences_are_matches(body@, needle@, 0);
    }
    let mut k: usize = 0;
    assert(all.subrange(0, all.len() as int) =~= all);
    while k < starts.len()
        invariant
            fits_address_space(body@.len() as int),
            which < 8,
            needle@ == emotion_needle(which as int),
            as_ints(starts@) == all,
            all == occurrences(body@, needle@),
            ov == owner_views(owners@),
            r0 == alter_views(old(result)@),
            forall|j: int| 0 <= j < all.len() ==> occurs_at(body@, needle@, #[trigger] all[j]),
            k <= starts@.len(),
            emotion_scan(body@, ov, r0, which as int, all) == emotion_scan(
                body@,
                ov,
                alter_views(result@),
                which as int,
                all.subrange(k as int, all.len() as int),
            ),
        decreases starts@.len() - k,
    {
        let start = starts[k];
        assert(all[k as int] == start as int);
        let ghost rest = all.subrange(k as int, all.len() as int);
        assert(rest[0] == start as int);
        assert(rest.drop_first() =~= all.subrange(k + 1, all.len() as int));
        if let Some((content_start, content_size)) = record_content_after(body, start + needle.len()) {
            if let Some((bits, offset)) = float_after_marker(body, content_start, content_size) {
                match owner_of(owners, start) {
                    None => return Err(orphan_error(which, start)),
                    Some(o) => {
                        let owner = &owners[o].1;
                        let e = Emotion {
                            name: emotion_name_str(which).to_owned(),
                            value_bits: bits,
                            value_offset: offset,
                        };
                        add_emotion(result, owner, e);
                    },
                }
            }
        }
        k = k + 1;
    }
    assert(all.subrange(k as int, all.len() as int) =~= Seq::<int>::empty());
    Ok(())
}

fn scan_radiation(body: &[u8], owners: &Vec<(usize, String)>, result: &mut Vec<Alter>)
    requires
        fits_address_space(body@.len() as int),
    ensures
        alter_views(final(result)@) == radiation_scan(
            body@,
            owner_views(owners@),
            alter_views(old(result)@),
            occurrences(body@, lstr_bytes(RADIATION_PATH@)),
        ),
{
    let needle = lstr(&RADIATION_PATH);
    let starts = find_all(body, needle.as_slice());
    let ghost all = occurrences(body@, needle@);
    let ghost ov = owner_views(owners@);
    let ghost r0 = alter_views(result@);
    proof {
        crate::search::lemma_occurrences_are_matches(body@, needle@, 0);
    }
    let mut k: usize = 0;
    assert(all.subrange(0, all.len() as int) =~= all);
    while k < starts.len()
        invariant
            fits_address_space(body@.len() as int),
            needle@ == lstr_bytes(RADIATION_PATH@),
            as_ints(starts@) == all,
            all == occurrences(body@, needle@),
            ov == owner_views(owners@),
            forall|j: int| 0 <= j < all.len() ==> occurs_at(body@, needle@, #[trigger] all[j]),
            k <= starts@.len(),
            radiation_scan(body@, ov, r0, all) == radiation_scan(
                body@,
                ov,
                alter_views(result@),
                all.subrange(k as int, all.len() as int),
            ),
        decreases starts@.len() - k,
    {
        let start = starts[k];
        assert(all[k as int] == start as int);
        let ghost rest = all.subrange(k as int, all.len() as int);
        assert(rest[0] == start as int);
        assert(rest.drop_first() =~= all.subrange(k + 1, all.len() as int));
        if let Some((content_start, content_size)) = record_content_after(body, start + needle.len()) {
            if let Some((bits, offset)) = float_after_marker(body, content_start, content_size) {
                if let Some(o) = owner_of(owners, start) {
                    let owner = &owners[o].1;
                    add_radiation(result, owner, bits, offset);
                }
            }
        }
        k = k + 1;
    }
    assert(all.subrange(k as int, all.len() as int) =~= Seq::<int>::empty());
}

/// Enumerate alters with their emotion and radiation fields.
///
/// Fails only when the body contains an emotion record that cannot be
/// attributed to any alter instance (unexpected layout).
pub fn alters(body: &[u8]) -> (r: Result<Vec<Alter>>)
    requires
        fits_address_space(body@.len() as int),
    ensures
        match spec_alters(body@) {
            Ok(v) => r matches Ok(x) && alter_views(x@) == v,
            Err(e) => r matches Err(x) && x@ == e,
        },
{
    let owners = owner_names(body);
    let ghost ov = owner_views(owners@);
    let mut result: Vec<Alter> = Vec::new();
    assert(alter_views(result@) =~= Seq::<AlterModel>::empty());
    let mut which: usize = 0;
    while which < 8
        invariant
            fits_address_space(body@.len() as int),
            which <= 8,
            ov == owner_views(owners@),
            ov == spec_owners(body@),
            emotions_from(body@, ov, Seq::empty(), 0) == emotions_from(
                body@,
                ov,
                alter_views(result@),
                which as int,
            ),
        decreases 8 - which,
    {
        match scan_emotion(body, &owners, &mut result, which) {
            Ok(()) => {},
            Err(e) => return Err(e),
        }
        which = which + 1;
    }
    scan_radiation(body, &owners, &mut result);
    Ok(result)
}

/// The position of the property tag `lstr name` first found in
/// `body[start..end]`.
pub open spec fn spec_find_named_property(body: Seq<u8>, start: int, end: int, name: Seq<u8>) -> Option<
    int,
> {
    if !(0 <= start <= end <= body.len()) {
        None
    } else {
        match spec_find(body.subrange(start, end), lstr_bytes(name)) {
            None => None,
            Some(rel) => match spec_read_lstr(body, start + rel) {
                None => None,
                Some((found, _)) => if found == name {
                    Some(start + rel)
                } else {
                    None
                },
            },
        }
    }
}

fn find_named_property(body: &[u8], start: usize, end: usize, name: &[u8]) -> (r: Option<usize>)
    requires
        name@.len() <= 64,
        fits_address_space(body@.len() as int),
    ensures
        spec_find_named_property(body@, start as int, end as int, name@) == match r {
            Some(t) => Some(t as int),
            None => None::<int>,
        },
{
    if !(start <= end && end <= body.len()) {
        return None;
    }
    let needle = lstr(name);
    let rel = match find_first(&body[start..end], needle.as_slice()) {
        Some(r) => r,
        None => return None,
    };
    let tag = start + rel;
    let (found, _) = match read_lstr(body, tag) {
        Some(x) => x,
        None => return None,
    };
    if bytes_eq(found, name) {
        Some(tag)
    } else {
        None
    }
}

/// `p` advanced past the `[i32 0]` that archive v3 puts before each name in
/// a type tree (other versions have none).
pub open spec fn tree_pad(p: int, version: ArchiveVersion) -> int {
    match version {
        ArchiveVersion::V3 => p + 4,
        _ => p,
    }
}

/// The offset past the `lstr` at `p`, or `p` when none parses there.
pub open spec fn past_lstr(body: Seq<u8>, p: int) -> int {
    match spec_read_lstr(body, p) {
        Some((_, after)) => after,
        None => p,
    }
}

/// The offset past a struct's two type names starting at `p`.
pub open spec fn past_struct_names(body: Seq<u8>, p: int, version: ArchiveVersion) -> int {
    past_lstr(body, tree_pad(past_lstr(body, tree_pad(p, version)), version))
}

/// The offset past the type tree of a property of type `typ` at `pos`.
pub open spec fn spec_skip_type_tree(body: Seq<u8>, pos: int, typ: Seq<u8>, version: ArchiveVersion) -> int {
    if typ == ARRAY_PROPERTY@ {
        let p = tree_pad(pos, version);
        match spec_read_lstr(body, p) {
            None => p,
            Some((inner, after)) => if inner == STRUCT_PROPERTY@ {
                past_struct_names(body, after, version)
            } else {
                after
            },
        }
    } else if typ == STRUCT_PROPERTY@ {
        past_struct_names(body, pos, version)
    } else {
        pos
    }
}

fn pad_tree(p: usize, version: ArchiveVersion) -> (r: usize)
    requires
        p <= usize::MAX - 4,
    ensures
        r == tree_pad(p as int, version),
{
    match version {
        ArchiveVersion::V3 => p + 4,
        _ => p,
    }
}

fn skip_lstr(body: &[u8], p: usize) -> (r: usize)
    ensures
        r == past_lstr(body@, p as int),
        r <= p || r <= body@.len(),
{
    match read_lstr(body, p) {
        Some((_, after)) => after,
        None => p,
    }
}

fn skip_struct_names(body: &[u8], p: usize, version: ArchiveVersion) -> (r: usize)
    requires
        p <= body@.len() + 8,
        fits_address_space(body@.len() as int),
    ensures
        r == past_struct_names(body@, p as int, version),
        r <= body@.len() + 16,
{
    let first = skip_lstr(body, pad_tree(p, version));
    skip_lstr(body, pad_tree(first, version))
}

fn skip_type_tree(body: &[u8], pos: usize, typ: &[u8], version: ArchiveVersion) -> (r: usize)
    requires
        pos <= body@.len() + 8,
        fits_address_space(body@.len() as int),
    ensures
        r == spec_skip_type_tree(body@, pos as int, typ@, version),
        r <= body@.len() + 24,
{
    if bytes_eq(typ, &ARRAY_PROPERTY) {
        let p = pad_tree(pos, version);
        match read_lstr(body, p) {
            None => p,
            Some((inner, after)) => if bytes_eq(inner, &STRUCT_PROPERTY) {
                skip_struct_names(body, after, version)
            } else {
                after
            },
        }
    } else if bytes_eq(typ, &STRUCT_PROPERTY) {
        skip_struct_names(body, pos, version)
    } else {
        pos
    }
}

/// The offset where the payload of the property tagged at `tag` starts:
/// past its name, type, type tree, `[i32 size]` and `[i32 0]` (in the
/// version's order) and the flag byte.
pub open spec fn spec_property_payload(body: Seq<u8>, tag: int, version: ArchiveVersion) -> Option<int> {
    match spec_read_lstr(body, tag) {
        None => None,
        Some((_, after_name)) => match spec_read_lstr(body, after_name) {
            None => None,
            Some((typ, cursor)) => {
                let end = match version {
                    ArchiveVersion::V2 => spec_skip_type_tree(body, cursor + 8, typ, version),
                    _ => spec_skip_type_tree(body, cursor, typ, version) + 8,
                };
                Some(end + 1)
            },
        },
    }
}

fn property_payload(body: &[u8], tag: usize, version: ArchiveVersion) -> (r: Option<usize>)
    requires
        fits_address_space(body@.len() as int),
    ensures
        spec_property_payload(body@, tag as int, version) == match r {
            Some(p) => Some(p as int),
            None => None::<int>,
        },
{
    let (_name, after_name) = match read_lstr(body, tag) {
        Some(x) => x,
        None => return None,
    };
    let (typ, cursor) = match read_lstr(body, after_name) {
        Some(x) => x,
        None => return None,
    };
    let end = match version {
        ArchiveVersion::V2 => skip_type_tree(body, cursor + 8, typ, version),
        _ => skip_type_tree(body, cursor, typ, version) + 8,
    };
    Some(end + 1)
}

/// The display names (`Jan <Role>`) found at `cands` in `region`: up to 36
/// bytes from each, cut at the first byte that is not an ASCII letter or a
/// space, decoded lossily; empty names are left out.
pub open spec fn display_names(region: Seq<u8>, cands: Seq<int>) -> Seq<Seq<char>>
    decreases cands.len(),
{
    if cands.len() == 0 {
        Seq::empty()
    } else {
        let start = cands[0];
        let to = if start + 36 < region.len() {
            start + 36
        } else {
            region.len() as int
        };
        let tail = region.subrange(start, to);
        let end = match spec_first_stop(tail, Stop::NotDisplayNameByte) {
            Some(e) => e,
            None => tail.len() as int,
        };
        let name = lossy_decode(tail.subrange(0, end));
        let rest = display_names(region, cands.drop_first());
        if name.len() > 0 {
            seq![name] + rest
        } else {
            rest
        }
    }
}

/// The names of dead alters in a body: the display names in the payload of
/// `P9CharacterManagerSubsystem.DeadAlters`, or none when the record, the
/// property or its payload is absent or does not parse.
pub open spec fn spec_dead_alters(body: Seq<u8>, version: ArchiveVersion) -> Seq<Seq<char>> {
    match spec_find_record(body, CHARACTER_MANAGER@) {
        None => Seq::empty(),
        Some((payload_start, payload_size, _)) => {
            let payload_end = payload_start + payload_size;
            match spec_find_named_property(body, payload_start, payload_end, DEAD_ALTERS@) {
                None => Seq::empty(),
                Some(tag) => match spec_property_payload(body, tag, version) {
                    None => Seq::empty(),
                    Some(payload) => if !(payload <= payload_end && payload_end <= body.len()) {
                        Seq::empty()
                    } else {
                        let region = body.subrange(payload, payload_end);
                        display_names(region, occurrences(region, JAN_DISPLAY@))
                    },
                },
            }
        },
    }
}

/// Names of alters that have died, read from
/// `P9CharacterManagerSubsystem.DeadAlters`. Returns an empty list when the
/// record is absent or unparseable.
pub fn dead_alters(body: &[u8], version: ArchiveVersion) -> (r: Vec<String>)
    requires
        fits_address_space(body@.len() as int),
    ensures
        crate::research::strings_view(r@) == spec_dead_alters(body@, version),
{
    let mut names: Vec<String> = Vec::new();
    let (payload_start, payload_size, _) = match find_record(body, &CHARACTER_MANAGER) {
        Some(x) => x,
        None => return names,
    };
    let payload_end = payload_start + payload_size;
    let tag = match find_named_property(body, payload_start, payload_end, &DEAD_ALTERS) {
        Some(t) => t,
        None => return names,
    };
    let payload = match property_payload(body, tag, version) {
        Some(p) => p,
        None => return names,
    };
    if !(payload <= payload_end && payload_end <= body.len()) {
        return names;
    }
    let region = &body[payload..payload_end];
    let starts = find_all(region, &JAN_DISPLAY);
    let ghost all = occurrences(region@, JAN_DISPLAY@);
    proof {
        crate::search::lemma_occurrences_are_matches(region@, JAN_DISPLAY@, 0);
    }
    let mut k: usize = 0;
    assert(all.subrange(0, all.len() as int) =~= all);
    while k < starts.len()
        invariant
            fits_address_space(region@.len() as int),
            as_ints(starts@) == all,
            forall|j: int| 0 <= j < all.len() ==> occurs_at(region@, JAN_DISPLAY@, #[trigger] all[j]),
            k <= starts@.len(),
            crate::research::strings_view(names@) + display_names(
                region@,
                all.subrange(k as int, all.len() as int),
            ) == display_names(region@, all),
        decreases starts@.len() - k,
    {
        let start = starts[k];
        assert(all[k as int] == start as int);
        let ghost rest = all.subrange(k as int, all.len() as int);
        assert(rest[0] == start as int);
        assert(rest.drop_first() =~= all.subrange(k + 1, all.len() as int));
        let n = region.len();
        let to = if start + 36 < n {
            start + 36
        } else {
            n
        };
        let tail = &region[start..to];
        let end = match position_of(tail, Stop::NotDisplayNameByte) {
            Some(e) => e,
            None => tail.len(),
        };
        let name = string_from_utf8_lossy(&tail[0..end]);
        let ghost before = crate::research::strings_view(names@);
        if !name.as_str().is_empty() {
            let ghost nv = name@;
            names.push(name);
            assert(crate::research::strings_view(names@) =~= before.push(nv));
            assert(before.push(nv) + display_names(region@, rest.drop_first()) =~= before + (seq![nv]
                + display_names(region@, rest.drop_first())));
        }
        k = k + 1;
    }
    proof {
        assert(all.subrange(k as int, all.len() as int) =~= Seq::<int>::empty());
        assert(crate::research::strings_view(names@) + Seq::<Seq<char>>::empty()
            =~= crate::research::strings_view(names@));
    }
    names
}

/// The body after writing `bits` at the value offset of each emotion of
/// `emotions[i..]` named `name`, and the outcome: stops at the first
/// offset out of bounds (earlier writes stay).
pub open spec fn spec_set_emotions(
    body: Seq<u8>,
    emotions: Seq<EmotionModel>,
    name: Seq<char>,
    bits: u32,
    i: int,
) -> (Seq<u8>, std::result::Result<(), ErrorModel>)
    decreases emotions.len() - i,
{
    if i < 0 || i >= emotions.len() {
        (body, Ok(()))
    } else if emotions[i].name != name {
        spec_set_emotions(body, emotions, name, bits, i + 1)
    } else {
        match spec_checked_write(body, emotions[i].value_offset, bits as int, "f32 field"@) {
            Err(e) => (body, Err(e)),
            Ok(next) => spec_set_emotions(next, emotions, name, bits, i + 1),
        }
    }
}

/// Set every emotion record named `emotion` on `alter` to the `f32` with
/// bits `value_bits`.
///
/// Fails with `OutOfBounds` at the first recorded offset that does not fit;
/// the records written before it keep their new value.
pub fn set_emotion(body: &mut [u8], alter: &Alter, emotion: &str, value_bits: u32) -> (r: Result<()>)
    ensures
        final(body)@ == spec_set_emotions(old(body)@, alter@.emotions, emotion@, value_bits, 0).0,
        match spec_set_emotions(old(body)@, alter@.emotions, emotion@, value_bits, 0).1 {
            Ok(()) => r is Ok,
            Err(e) => r matches Err(x) && x@ == e,
        },
        final(body)@.len() == old(body)@.len(),
{
    let ghost all = alter@.emotions;
    let mut i: usize = 0;
    while i < alter.emotions.len()
        invariant
            all == alter@.emotions,
            i <= alter.emotions@.len(),
            body@.len() == old(body)@.len(),
            spec_set_emotions(old(body)@, all, emotion@, value_bits, 0) == spec_set_emotions(
                body@,
                all,
                emotion@,
                value_bits,
                i as int,
            ),
        decreases alter.emotions@.len() - i,
    {
        let record = &alter.emotions[i];
        assert(all[i as int] == record@);
        let same = bytes_eq(record.name.as_str().as_bytes(), emotion.as_bytes());
        assert(same == (record.name@ == emotion@)) by {
            if encode_utf8(record.name@) == encode_utf8(emotion@) {
                vstd::utf8::encode_utf8_decode_utf8(record.name@);
                vstd::utf8::encode_utf8_decode_utf8(emotion@);
            }
        }
        if same {
            match write_f32_bits(body, record.value_offset, value_bits) {
                Ok(()) => {},
                Err(e) => return Err(e),
            }
        }
        i = i + 1;
    }
    Ok(())
}

/// The body after writing `bits` at each radiation offset of
/// `radiation[i..]`, and the outcome: stops at the first offset out of
/// bounds (earlier writes stay).
pub open spec fn spec_set_radiation(body: Seq<u8>, radiation: Seq<(u32, int)>, bits: u32, i: int) -> (
    Seq<u8>,
    std::result::Result<(), ErrorModel>,
)
    decreases radiation.len() - i,
{
    if i < 0 || i >= radiation.len() {
        (body, Ok(()))
    } else {
        match spec_checked_write(body, radiation[i].1, bits as int, "f32 field"@) {
            Err(e) => (body, Err(e)),
            Ok(next) => spec_set_radiation(next, radiation, bits, i + 1),
        }
    }
}

/// Set all radiation fields on `alter` to the `f32` with bits `value_bits`.
///
/// Fails with `OutOfBounds` at the first recorded offset that does not fit;
/// the fields written before it keep their new value.
pub fn set_radiation(body: &mut [u8], alter: &Alter, value_bits: u32) -> (r: Result<()>)
    ensures
        final(body)@ == spec_set_radiation(old(body)@, alter@.radiation, value_bits, 0).0,
        match spec_set_radiation(old(body)@, alter@.radiation, value_bits, 0).1 {
            Ok(()) => r is Ok,
            Err(e) => r matches Err(x) && x@ == e,
        },
        final(body)@.len() == old(body)@.len(),
{
    let ghost all = alter@.radiation;
    let mut i: usize = 0;
    while i < alter.radiation.len()
        invariant
            all == alter@.radiation,
            i <= alter.radiation@.len(),
            body@.len() == old(body)@.len(),
            spec_set_radiation(old(body)@, all, value_bits, 0) == spec_set_radiation(
                body@,
                all,
                value_bits,
                i as int,
            ),
        decreases alter.radiation@.len() - i,
    {
        let (_, offset) = alter.radiation[i];
        assert(all[i as int].1 == offset as int);
        match write_f32_bits(body, offset, value_bits) {
            Ok(()) => {},
            Err(e) => return Err(e),
        }
        i = i + 1;
    }
    Ok(())
}

} // verus!
