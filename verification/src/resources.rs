//! Base resource storage: the `P9ResourceSubsystem`'s
//! `P9ResourceContainer` records.
//!
//! Each container record looks like:
//!
//! ```text
//! [lstr "/Game/.../BP_Resource_<Name>.BP_Resource_<Name>_C"]
//! [i32 0]
//! [lstr "/Script/P9Playable.P9ResourceContainer"]
//! [lstr "P9ResourceContainer_<id>"]
//! [i32 0] [i32 payload_size] [u8 0]
//! [payload:
//!    lstr "None"
//!    [i32 0] [u8 0] [i32 4] [u16 9, u16 9] [i32 amount]
//!    [i32 4] [u16 9, u16 9] [i32 second]
//! ]
//! ```
//!
//! The `04 00 00 00 09 00 09 00` groups are version markers; the first `i32`
//! after the first marker is the stored amount. The second value looks like
//! a capacity but is not a clamp, so it is exposed read-only.
use vstd::prelude::*;

use crate::bytes::{
    position_of, read_i32, read_lstr, spec_first_stop, spec_read_i32, spec_read_lstr, Stop,
};
use crate::elb::spec_checked_write;
use crate::error::{Error, Result};
use crate::fits_address_space;
use crate::search::{as_ints, find_all, find_first, find_last, occurrences, spec_find, spec_rfind};
use crate::text::{decode_strip_suffix, spec_decode_strip_suffix};

verus! {

/// Bytes of "/Script/P9Playable.P9ResourceContainer\0".
pub const CONTAINER_SCRIPT: [u8; 39] = [0x2f, 0x53, 0x63, 0x72, 0x69, 0x70, 0x74, 0x2f, 0x50, 0x39, 0x50, 0x6c, 0x61, 0x79, 0x61, 0x62, 0x6c, 0x65, 0x2e, 0x50, 0x39, 0x52, 0x65, 0x73, 0x6f, 0x75, 0x72, 0x63, 0x65, 0x43, 0x6f, 0x6e, 0x74, 0x61, 0x69, 0x6e, 0x65, 0x72, 0x00];

/// Bytes of the int version marker `04 00 00 00 09 00 09 00`.
pub const VALUE_MARKER: [u8; 8] = [0x04, 0x00, 0x00, 0x00, 0x09, 0x00, 0x09, 0x00];

/// Bytes of "BP_Resource_".
pub const CLASS_STEM: [u8; 12] = [0x42, 0x50, 0x5f, 0x52, 0x65, 0x73, 0x6f, 0x75, 0x72, 0x63, 0x65, 0x5f];

/// Bytes of "_C".
pub const CLASS_SUFFIX: [u8; 2] = [0x5f, 0x43];

/// How far before a container's script path its class path is searched.
pub const BACK_WINDOW: usize = 160;

/// A resource type name as it appears in class paths, e.g. `Metals`,
/// `Rapidium`, `OrganicMatter`.
#[derive(Debug, Clone, PartialEq, Eq, Hash)]
pub struct ResourceName(pub String);

/// One resource container found in a save body.
#[derive(Debug, Clone)]
pub struct Container {
    pub resource: ResourceName,
    /// Stored amount in base storage.
    pub amount: i32,
    /// Second serialized value; capacity-like but not a clamp.
    pub second: i32,
    amount_offset: usize,
}

/// Mathematical value of a [`Container`].
pub struct ContainerModel {
    pub resource: Seq<char>,
    pub amount: i32,
    pub second: i32,
    pub amount_offset: int,
}

impl View for Container {
    type V = ContainerModel;

    closed spec fn view(&self) -> ContainerModel {
        ContainerModel {
            resource: self.resource.0@,
            amount: self.amount,
            second: self.second,
            amount_offset: self.amount_offset as int,
        }
    }
}

impl Container {
    /// The amount's offset is a position: it fits a `usize`.
    pub proof fn lemma_offset_range(&self)
        ensures
            0 <= self@.amount_offset <= usize::MAX,
    {
    }

    /// The UTF-8 bytes of the resource name.
    pub fn name_bytes(&self) -> (r: &[u8])
        ensures
            r@ == vstd::utf8::encode_utf8(self@.resource),
    {
        self.resource.0.as_str().as_bytes()
    }

    /// The resource name.
    pub fn resource_name(&self) -> (r: &String)
        ensures
            r@ == self@.resource,
    {
        &self.resource.0
    }

    /// The stored amount.
    pub fn stored_amount(&self) -> (r: i32)
        ensures
            r == self@.amount,
    {
        self.amount
    }
}

/// The resource name of the container whose script path starts at
/// `script_offset`: within the 160 bytes before it, the text after the last
/// `BP_Resource_` up to the next `.` or NUL, decoded as UTF-8 and without a
/// trailing `_C`.
pub open spec fn spec_resource_name(body: Seq<u8>, script_offset: int) -> Option<Seq<char>> {
    let window_start = if script_offset >= BACK_WINDOW {
        script_offset - BACK_WINDOW
    } else {
        0
    };
    let window = body.subrange(window_start, script_offset);
    match spec_rfind(window, CLASS_STEM@) {
        None => None,
        Some(stem) => {
            let tail = window.subrange(stem + CLASS_STEM@.len(), window.len() as int);
            match spec_first_stop(tail, Stop::DotOrNul) {
                None => None,
                Some(end) => spec_decode_strip_suffix(tail.subrange(0, end), CLASS_SUFFIX@),
            }
        },
    }
}

/// The container whose script path starts at `script_offset`, if its
/// record parses: the amount is the `i32` after the first value marker of
/// the payload, the second value the `i32` after the next marker.
#[verifier::opaque]
pub open spec fn spec_parse_container(body: Seq<u8>, script_offset: int) -> Option<ContainerModel> {
    match spec_resource_name(body, script_offset) {
        None => None,
        Some(resource) => match spec_read_lstr(body, script_offset + CONTAINER_SCRIPT@.len()) {
            None => None,
            Some((_, after_name)) => if spec_read_i32(body, after_name) != Some(0int) {
                None
            } else {
                match spec_read_i32(body, after_name + 4) {
                    None => None,
                    Some(size) => {
                        let payload_start = after_name + 9;
                        if size < 0 || payload_start + size > body.len() {
                            None
                        } else {
                            let payload = body.subrange(payload_start, payload_start + size);
                            match spec_find(payload, VALUE_MARKER@) {
                                None => None,
                                Some(first) => {
                                    let at = first + VALUE_MARKER@.len();
                                    match spec_read_i32(payload, at) {
                                        None => None,
                                        Some(amount) => {
                                            let rest = payload.subrange(
                                                at + 4,
                                                payload.len() as int,
                                            );
                                            match spec_find(rest, VALUE_MARKER@) {
                                                None => None,
                                                Some(second_marker) => match spec_read_i32(
                                                    rest,
                                                    second_marker + VALUE_MARKER@.len(),
                                                ) {
                                                    None => None,
                                                    Some(second) => Some(
                                                        ContainerModel {
                                                            resource,
                                                            amount: amount as i32,
                                                            second: second as i32,
                                                            amount_offset: payload_start + at,
                                                        },
                                                    ),
                                                },
                                            }
                                        },
                                    }
                                },
                            }
                        }
                    },
                }
            },
        },
    }
}

/// The containers that parse, among the script-path occurrences `occ`.
pub open spec fn containers_among(body: Seq<u8>, occ: Seq<int>) -> Seq<ContainerModel>
    decreases occ.len(),
{
    if occ.len() == 0 {
        Seq::empty()
    } else {
        let rest = containers_among(body, occ.drop_first());
        match spec_parse_container(body, occ[0]) {
            Some(c) => seq![c] + rest,
            None => rest,
        }
    }
}

/// All resource containers of a body, in order of their script paths.
pub open spec fn spec_containers(body: Seq<u8>) -> Seq<ContainerModel> {
    containers_among(body, occurrences(body, CONTAINER_SCRIPT@))
}

/// The views of a sequence of containers.
pub open spec fn container_views(cs: Seq<Container>) -> Seq<ContainerModel> {
    cs.map_values(|c: Container| c@)
}

fn resource_name_before(body: &[u8], script_offset: usize) -> (r: Option<ResourceName>)
    requires
        script_offset <= body@.len(),
    ensures
        match r {
            Some(n) => spec_resource_name(body@, script_offset as int) == Some(n.0@),
            None => spec_resource_name(body@, script_offset as int) is None,
        },
{
    let window_start = if script_offset >= BACK_WINDOW {
        script_offset - BACK_WINDOW
    } else {
        0
    };
    let window = &body[window_start..script_offset];
    let ghost w = body@.subrange(window_start as int, script_offset as int);
    assert(window@ == w);
    let found = find_last(window, &CLASS_STEM);
    let stem = match found {
        Some(stem) => stem,
        None => {
            assert(spec_rfind(w, CLASS_STEM@) is None);
            return None;
        },
    };
    assert(spec_rfind(w, CLASS_STEM@) == Some(stem as int));
    let tail = &window[stem + CLASS_STEM.len()..window.len()];
    let ghost t = w.subrange(stem + CLASS_STEM@.len(), w.len() as int);
    assert(tail@ == t);
    let end = match position_of(tail, Stop::DotOrNul) {
        Some(end) => end,
        None => {
            assert(spec_first_stop(t, Stop::DotOrNul) is None);
            return None;
        },
    };
    assert(spec_first_stop(t, Stop::DotOrNul) == Some(end as int));
    let decoded = decode_strip_suffix(&tail[0..end], &CLASS_SUFFIX);
    assert(spec_resource_name(body@, script_offset as int) == spec_decode_strip_suffix(
        t.subrange(0, end as int),
        CLASS_SUFFIX@,
    ));
    match decoded {
        Some(name) => Some(ResourceName(name)),
        None => None,
    }
}

fn parse_container(body: &[u8], script_offset: usize) -> (r: Option<Container>)
    requires
        script_offset <= body@.len(),
        fits_address_space(body@.len() as int),
    ensures
        match r {
            Some(c) => spec_parse_container(body@, script_offset as int) == Some(c@),
            None => spec_parse_container(body@, script_offset as int) is None,
        },
{
    reveal(spec_parse_container);
    let resource = match resource_name_before(body, script_offset) {
        Some(name) => name,
        None => return None,
    };
    let after_script = script_offset + CONTAINER_SCRIPT.len();
    let after_name = match read_lstr(body, after_script) {
        Some((_, after_name)) => after_name,
        None => return None,
    };
    match read_i32(body, after_name) {
        Some(v) => if v != 0 {
            return None;
        },
        None => return None,
    }
    let size = match read_i32(body, after_name + 4) {
        Some(v) => v,
        None => return None,
    };
    if size < 0 {
        return None;
    }
    let size = size as usize;
    let payload_start = after_name + 9;
    if payload_start > body.len() || size > body.len() - payload_start {
        return None;
    }
    let payload = &body[payload_start..payload_start + size];
    let first = match find_first(payload, &VALUE_MARKER) {
        Some(first) => first,
        None => return None,
    };
    let at = first + VALUE_MARKER.len();
    let amount = match read_i32(payload, at) {
        Some(v) => v,
        None => return None,
    };
    let rest = &payload[at + 4..payload.len()];
    let second_marker = match find_first(rest, &VALUE_MARKER) {
        Some(m) => m,
        None => return None,
    };
    let second = match read_i32(rest, second_marker + VALUE_MARKER.len()) {
        Some(v) => v,
        None => return None,
    };
    Some(Container { resource, amount, second, amount_offset: payload_start + at })
}

/// Find all resource containers in a decompressed save body.
///
/// Containers the parser cannot fully interpret are skipped rather than
/// reported as errors; a healthy world save yields sixteen.
pub fn containers(body: &[u8]) -> (r: Vec<Container>)
    requires
        fits_address_space(body@.len() as int),
    ensures
        container_views(r@) == spec_containers(body@),
{
    let starts = find_all(body, &CONTAINER_SCRIPT);
    let ghost all = occurrences(body@, CONTAINER_SCRIPT@);
    proof {
        crate::search::lemma_occurrences_are_matches(body@, CONTAINER_SCRIPT@, 0);
    }
    let mut out: Vec<Container> = Vec::new();
    let mut k: usize = 0;
    assert(all.subrange(0, all.len() as int) =~= all);
    assert(container_views(out@) =~= Seq::<ContainerModel>::empty());
    assert(Seq::<ContainerModel>::empty() + spec_containers(body@) =~= spec_containers(body@));
    while k < starts.len()
        invariant
            fits_address_space(body@.len() as int),
            as_ints(starts@) == all,
            all == occurrences(body@, CONTAINER_SCRIPT@),
            forall|j: int| 0 <= j < all.len() ==> crate::search::occurs_at(body@, CONTAINER_SCRIPT@, #[trigger] all[j]),
            k <= starts@.len(),
            container_views(out@) + containers_among(body@, all.subrange(k as int, all.len() as int))
                == spec_containers(body@),
        decreases starts@.len() - k,
    {
        let start = starts[k];
        assert(all[k as int] == start as int);
        let ghost rest = all.subrange(k as int, all.len() as int);
        assert(rest[0] == start as int);
        assert(rest.drop_first() =~= all.subrange(k + 1, all.len() as int));
        let ghost before = container_views(out@);
        match parse_container(body, start) {
            Some(c) => {
                out.push(c);
                assert(container_views(out@) =~= before.push(c@));
            },
            None => {},
        }
        k = k + 1;
    }
    proof {
        assert(all.subrange(k as int, all.len() as int) =~= Seq::<int>::empty());
        assert(container_views(out@) + Seq::<ContainerModel>::empty() =~= container_views(out@));
    }
    out
}

/// Overwrite the stored amount of `container` in `body`.
///
/// This is a fixed-width in-place edit; no sizes change. Fails with
/// `OutOfBounds` when the container's recorded offset does not fit the
/// supplied body (e.g. the body was rebuilt since the container was found).
pub fn set_amount(body: &mut [u8], container: &Container, amount: i32) -> (r: Result<()>)
    ensures
        match spec_checked_write(
            old(body)@,
            container@.amount_offset,
            amount as int,
            "resource amount field"@,
        ) {
            Ok(b) => r is Ok && final(body)@ == b,
            Err(e) => r matches Err(x) && x@ == e && final(body)@ == old(body)@,
        },
        final(body)@.len() == old(body)@.len(),
{
    let amount_offset = container.amount_offset;
    let len = body.len();
    if amount_offset > len || len - amount_offset < 4 {
        return Err(Error::OutOfBounds { what: "resource amount field", value: amount_offset, len });
    }
    crate::bytes::set_i32(body, amount_offset, amount);
    Ok(())
}

} // verus!
