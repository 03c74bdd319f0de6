//! Load-screen metadata in the plaintext prefix.
//!
//! The save-selection screen shows per-resource counts stored separately
//! from the body: after each `T_Resource_icon_<Name>` texture path comes a
//! version marker (`04 00 00 00 09 00 09 00`) and the displayed `i32`.
//! These are display-only - the game trusts the body on load - but leaving
//! them stale makes the load menu lie, so [`sync_counts`] mirrors the body's
//! container amounts into them after an edit.
//!
//! Icon names do not match resource class names one-to-one; the explicit
//! table below maps the known ones. Icons without a mapped container (and
//! containers without an icon, like `OrganicMatter`) are left untouched.
use vstd::prelude::*;
use vstd::utf8::encode_utf8;

use crate::bytes::{
    bytes_eq, matches_at, position_of, set_i32, spec_first_stop, spec_write_i32, Stop,
};
use crate::fits_address_space;
use crate::resources::{container_views, Container, ContainerModel};
use crate::search::{as_ints, find_all, occurrences};

verus! {

/// Bytes of "T_Resource_icon_".
pub const ICON_PREFIX: [u8; 16] = [0x54, 0x5f, 0x52, 0x65, 0x73, 0x6f, 0x75, 0x72, 0x63, 0x65, 0x5f, 0x69, 0x63, 0x6f, 0x6e, 0x5f];

/// Bytes of the int version marker `04 00 00 00 09 00 09 00`.
pub const VALUE_MARKER: [u8; 8] = [0x04, 0x00, 0x00, 0x00, 0x09, 0x00, 0x09, 0x00];

/// Bytes of "Metals".
pub const ICON_METALS: [u8; 6] = [0x4d, 0x65, 0x74, 0x61, 0x6c, 0x73];

/// Bytes of "Metals".
pub const NAME_METALS: [u8; 6] = [0x4d, 0x65, 0x74, 0x61, 0x6c, 0x73];

/// Bytes of "Rapidium".
pub const ICON_RAPIDIUM: [u8; 8] = [0x52, 0x61, 0x70, 0x69, 0x64, 0x69, 0x75, 0x6d];

/// Bytes of "Rapidium".
pub const NAME_RAPIDIUM: [u8; 8] = [0x52, 0x61, 0x70, 0x69, 0x64, 0x69, 0x75, 0x6d];

/// Bytes of "Minerals".
pub const ICON_MINERALS: [u8; 8] = [0x4d, 0x69, 0x6e, 0x65, 0x72, 0x61, 0x6c, 0x73];

/// Bytes of "Minerals".
pub const NAME_MINERALS: [u8; 8] = [0x4d, 0x69, 0x6e, 0x65, 0x72, 0x61, 0x6c, 0x73];

/// Bytes of "Mush".
pub const ICON_MUSH: [u8; 4] = [0x4d, 0x75, 0x73, 0x68];

/// Bytes of "Mush".
pub const NAME_MUSH: [u8; 4] = [0x4d, 0x75, 0x73, 0x68];

/// Bytes of "Polimer_icon".
pub const ICON_POLIMER_ICON: [u8; 12] = [0x50, 0x6f, 0x6c, 0x69, 0x6d, 0x65, 0x72, 0x5f, 0x69, 0x63, 0x6f, 0x6e];

/// Bytes of "Polymers".
pub const NAME_POLYMERS: [u8; 8] = [0x50, 0x6f, 0x6c, 0x79, 0x6d, 0x65, 0x72, 0x73];

/// Bytes of "FoodIcon".
pub const ICON_FOODICON: [u8; 8] = [0x46, 0x6f, 0x6f, 0x64, 0x49, 0x63, 0x6f, 0x6e];

/// Bytes of "CookedMeal".
pub const NAME_COOKEDMEAL: [u8; 10] = [0x43, 0x6f, 0x6f, 0x6b, 0x65, 0x64, 0x4d, 0x65, 0x61, 0x6c];

/// Bytes of "Vegetables".
pub const ICON_VEGETABLES: [u8; 10] = [0x56, 0x65, 0x67, 0x65, 0x74, 0x61, 0x62, 0x6c, 0x65, 0x73];

/// Bytes of "RawFood".
pub const NAME_RAWFOOD: [u8; 7] = [0x52, 0x61, 0x77, 0x46, 0x6f, 0x6f, 0x64];

/// The container name an icon name stands for (by bytes; an icon that is not
/// UTF-8 matches no entry, as no entry is).
pub open spec fn spec_container_name_for_icon(icon: Seq<u8>) -> Option<Seq<u8>> {
    if icon == ICON_METALS@ {
        Some(NAME_METALS@)
    } else if icon == ICON_RAPIDIUM@ {
        Some(NAME_RAPIDIUM@)
    } else if icon == ICON_MINERALS@ {
        Some(NAME_MINERALS@)
    } else if icon == ICON_MUSH@ {
        Some(NAME_MUSH@)
    } else if icon == ICON_POLIMER_ICON@ {
        Some(NAME_POLYMERS@)
    } else if icon == ICON_FOODICON@ {
        Some(NAME_COOKEDMEAL@)
    } else if icon == ICON_VEGETABLES@ {
        Some(NAME_RAWFOOD@)
    } else {
        None
    }
}

/// The load-screen icons and the containers whose amounts they show:
/// `Metals`, `Rapidium`, `Minerals` and `Mush` show the container of the
/// same name, `Polimer_icon` shows `Polymers`, `FoodIcon` shows
/// `CookedMeal` and `Vegetables` shows `RawFood`; no other icon shows one.
pub proof fn lemma_icon_table()
    ensures
        spec_container_name_for_icon(seq![0x4du8, 0x65u8, 0x74u8, 0x61u8, 0x6cu8, 0x73u8]) == Some(seq![0x4du8, 0x65u8, 0x74u8, 0x61u8, 0x6cu8, 0x73u8]),
        spec_container_name_for_icon(seq![0x52u8, 0x61u8, 0x70u8, 0x69u8, 0x64u8, 0x69u8, 0x75u8, 0x6du8]) == Some(seq![0x52u8, 0x61u8, 0x70u8, 0x69u8, 0x64u8, 0x69u8, 0x75u8, 0x6du8]),
        spec_container_name_for_icon(seq![0x4du8, 0x69u8, 0x6eu8, 0x65u8, 0x72u8, 0x61u8, 0x6cu8, 0x73u8]) == Some(seq![0x4du8, 0x69u8, 0x6eu8, 0x65u8, 0x72u8, 0x61u8, 0x6cu8, 0x73u8]),
        spec_container_name_for_icon(seq![0x4du8, 0x75u8, 0x73u8, 0x68u8]) == Some(seq![0x4du8, 0x75u8, 0x73u8, 0x68u8]),
        spec_container_name_for_icon(seq![0x50u8, 0x6fu8, 0x6cu8, 0x69u8, 0x6du8, 0x65u8, 0x72u8, 0x5fu8, 0x69u8, 0x63u8, 0x6fu8, 0x6eu8]) == Some(seq![0x50u8, 0x6fu8, 0x6cu8, 0x79u8, 0x6du8, 0x65u8, 0x72u8, 0x73u8]),
        spec_container_name_for_icon(seq![0x46u8, 0x6fu8, 0x6fu8, 0x64u8, 0x49u8, 0x63u8, 0x6fu8, 0x6eu8]) == Some(seq![0x43u8, 0x6fu8, 0x6fu8, 0x6bu8, 0x65u8, 0x64u8, 0x4du8, 0x65u8, 0x61u8, 0x6cu8]),
        spec_container_name_for_icon(seq![0x56u8, 0x65u8, 0x67u8, 0x65u8, 0x74u8, 0x61u8, 0x62u8, 0x6cu8, 0x65u8, 0x73u8]) == Some(seq![0x52u8, 0x61u8, 0x77u8, 0x46u8, 0x6fu8, 0x6fu8, 0x64u8]),
        forall|icon: Seq<u8>|
            #![trigger spec_container_name_for_icon(icon)]
            icon != seq![0x4du8, 0x65u8, 0x74u8, 0x61u8, 0x6cu8, 0x73u8] && icon != seq![0x52u8, 0x61u8, 0x70u8, 0x69u8, 0x64u8, 0x69u8, 0x75u8, 0x6du8] && icon != seq![0x4du8, 0x69u8, 0x6eu8, 0x65u8, 0x72u8, 0x61u8, 0x6cu8, 0x73u8] && icon != seq![0x4du8, 0x75u8, 0x73u8, 0x68u8] && icon != seq![0x50u8, 0x6fu8, 0x6cu8, 0x69u8, 0x6du8, 0x65u8, 0x72u8, 0x5fu8, 0x69u8, 0x63u8, 0x6fu8, 0x6eu8] && icon != seq![0x46u8, 0x6fu8, 0x6fu8, 0x64u8, 0x49u8, 0x63u8, 0x6fu8, 0x6eu8] && icon
                != seq![0x56u8, 0x65u8, 0x67u8, 0x65u8, 0x74u8, 0x61u8, 0x62u8, 0x6cu8, 0x65u8, 0x73u8] ==> spec_container_name_for_icon(icon) is None,
{
    assert(ICON_METALS@ =~= seq![0x4du8, 0x65u8, 0x74u8, 0x61u8, 0x6cu8, 0x73u8]);
    assert(ICON_RAPIDIUM@ =~= seq![0x52u8, 0x61u8, 0x70u8, 0x69u8, 0x64u8, 0x69u8, 0x75u8, 0x6du8]);
    assert(ICON_MINERALS@ =~= seq![0x4du8, 0x69u8, 0x6eu8, 0x65u8, 0x72u8, 0x61u8, 0x6cu8, 0x73u8]);
    assert(ICON_MUSH@ =~= seq![0x4du8, 0x75u8, 0x73u8, 0x68u8]);
    assert(ICON_POLIMER_ICON@ =~= seq![0x50u8, 0x6fu8, 0x6cu8, 0x69u8, 0x6du8, 0x65u8, 0x72u8, 0x5fu8, 0x69u8, 0x63u8, 0x6fu8, 0x6eu8]);
    assert(ICON_FOODICON@ =~= seq![0x46u8, 0x6fu8, 0x6fu8, 0x64u8, 0x49u8, 0x63u8, 0x6fu8, 0x6eu8]);
    assert(ICON_VEGETABLES@ =~= seq![0x56u8, 0x65u8, 0x67u8, 0x65u8, 0x74u8, 0x61u8, 0x62u8, 0x6cu8, 0x65u8, 0x73u8]);
    assert(NAME_METALS@ =~= seq![0x4du8, 0x65u8, 0x74u8, 0x61u8, 0x6cu8, 0x73u8]);
    assert(NAME_RAPIDIUM@ =~= seq![0x52u8, 0x61u8, 0x70u8, 0x69u8, 0x64u8, 0x69u8, 0x75u8, 0x6du8]);
    assert(NAME_MINERALS@ =~= seq![0x4du8, 0x69u8, 0x6eu8, 0x65u8, 0x72u8, 0x61u8, 0x6cu8, 0x73u8]);
    assert(NAME_MUSH@ =~= seq![0x4du8, 0x75u8, 0x73u8, 0x68u8]);
    assert(NAME_POLYMERS@ =~= seq![0x50u8, 0x6fu8, 0x6cu8, 0x79u8, 0x6du8, 0x65u8, 0x72u8, 0x73u8]);
    assert(NAME_COOKEDMEAL@ =~= seq![0x43u8, 0x6fu8, 0x6fu8, 0x6bu8, 0x65u8, 0x64u8, 0x4du8, 0x65u8, 0x61u8, 0x6cu8]);
    assert(NAME_RAWFOOD@ =~= seq![0x52u8, 0x61u8, 0x77u8, 0x46u8, 0x6fu8, 0x6fu8, 0x64u8]);
}

fn container_name_for_icon(icon: &[u8]) -> (r: Option<&'static [u8]>)
    ensures
        match r {
            Some(n) => spec_container_name_for_icon(icon@) == Some(n@),
            None => spec_container_name_for_icon(icon@) is None,
        },
{
    if bytes_eq(icon, &ICON_METALS) {
        Some(&NAME_METALS)
    } else if bytes_eq(icon, &ICON_RAPIDIUM) {
        Some(&NAME_RAPIDIUM)
    } else if bytes_eq(icon, &ICON_MINERALS) {
        Some(&NAME_MINERALS)
    } else if bytes_eq(icon, &ICON_MUSH) {
        Some(&NAME_MUSH)
    } else if bytes_eq(icon, &ICON_POLIMER_ICON) {
        Some(&NAME_POLYMERS)
    } else if bytes_eq(icon, &ICON_FOODICON) {
        Some(&NAME_COOKEDMEAL)
    } else if bytes_eq(icon, &ICON_VEGETABLES) {
        Some(&NAME_RAWFOOD)
    } else {
        None
    }
}

/// The amount of the first container whose name, UTF-8 encoded, is `name`.
pub open spec fn first_amount(cs: Seq<ContainerModel>, name: Seq<u8>) -> Option<i32>
    decreases cs.len(),
{
    if cs.len() == 0 {
        None
    } else if encode_utf8(cs[0].resource) == name {
        Some(cs[0].amount)
    } else {
        first_amount(cs.drop_first(), name)
    }
}

/// The prefix after mirroring into the icon entry at `offset`, or `None`
/// when that entry is skipped: the icon name runs to the next `.` or NUL,
/// must map to a container present in `cs`, and the path's NUL terminator
/// must be followed by the value marker and four bytes for the count.
pub open spec fn sync_one(p: Seq<u8>, cs: Seq<ContainerModel>, offset: int) -> Option<Seq<u8>> {
    let tail = p.subrange(offset + ICON_PREFIX@.len(), p.len() as int);
    match spec_first_stop(tail, Stop::DotOrNul) {
        None => None,
        Some(end) => match spec_container_name_for_icon(tail.subrange(0, end)) {
            None => None,
            Some(name) => match first_amount(cs, name) {
                None => None,
                Some(amount) => match spec_first_stop(
                    p.subrange(offset, p.len() as int),
                    Stop::Nul,
                ) {
                    None => None,
                    Some(terminator) => {
                        let marker_start = offset + terminator + 1;
                        let value_offset = marker_start + VALUE_MARKER@.len();
                        if value_offset <= p.len() && p.subrange(marker_start, value_offset)
                            == VALUE_MARKER@ && value_offset + 4 <= p.len() {
                            Some(spec_write_i32(p, value_offset, amount as int))
                        } else {
                            None
                        }
                    },
                },
            },
        },
    }
}

/// Mirroring into each icon entry at `offsets` in turn: the final prefix
/// and the number of entries updated.
pub open spec fn sync_from(p: Seq<u8>, cs: Seq<ContainerModel>, offsets: Seq<int>) -> (Seq<u8>, nat)
    decreases offsets.len(),
{
    if offsets.len() == 0 {
        (p, 0)
    } else {
        match sync_one(p, cs, offsets[0]) {
            Some(q) => {
                let (r, n) = sync_from(q, cs, offsets.drop_first());
                (r, n + 1)
            },
            None => sync_from(p, cs, offsets.drop_first()),
        }
    }
}

/// The prefix after [`sync_counts`] and the number of entries it updated.
pub open spec fn spec_sync_counts(p: Seq<u8>, cs: Seq<ContainerModel>) -> (Seq<u8>, nat) {
    sync_from(p, cs, occurrences(p, ICON_PREFIX@))
}

/// Mirroring the counts keeps the prefix's length.
pub proof fn lemma_sync_len(p: Seq<u8>, cs: Seq<ContainerModel>, offsets: Seq<int>)
    requires
        forall|k: int| 0 <= k < offsets.len() ==> 0 <= #[trigger] offsets[k],
    ensures
        sync_from(p, cs, offsets).0.len() == p.len(),
    decreases offsets.len(),
{
    if offsets.len() > 0 {
        let t = offsets.drop_first();
        assert forall|k: int| 0 <= k < t.len() implies 0 <= #[trigger] t[k] by {
            assert(t[k] == offsets[k + 1]);
        }
        match sync_one(p, cs, offsets[0]) {
            Some(q) => {
                let o = offsets[0];
                crate::bytes::lemma_first_stop_some(p.subrange(o, p.len() as int), Stop::Nul);
                assert(q.len() == p.len());
                lemma_sync_len(q, cs, offsets.drop_first());
            },
            None => {
                lemma_sync_len(p, cs, offsets.drop_first());
            },
        }
    }
}

fn find_amount(containers: &[Container], name: &[u8]) -> (r: Option<i32>)
    ensures
        r == first_amount(container_views(containers@), name@),
{
    let ghost views = container_views(containers@);
    let mut i: usize = 0;
    assert(views.subrange(0, views.len() as int) =~= views);
    while i < containers.len()
        invariant
            views == container_views(containers@),
            i <= containers@.len(),
            first_amount(views, name@) == first_amount(
                views.subrange(i as int, views.len() as int),
                name@,
            ),
        decreases containers@.len() - i,
    {
        let c = &containers[i];
        let ghost rest = views.subrange(i as int, views.len() as int);
        assert(rest[0] == c@);
        assert(rest.drop_first() =~= views.subrange(i + 1, views.len() as int));
        let text = c.name_bytes();
        if bytes_eq(text, name) {
            return Some(c.stored_amount());
        }
        i = i + 1;
    }
    None
}

fn sync_entry(prefix: &mut [u8], containers: &[Container], offset: usize) -> (r: bool)
    requires
        offset + ICON_PREFIX@.len() <= old(prefix)@.len(),
        fits_address_space(old(prefix)@.len() as int),
    ensures
        match sync_one(old(prefix)@, container_views(containers@), offset as int) {
            Some(q) => r && final(prefix)@ == q,
            None => !r && final(prefix)@ == old(prefix)@,
        },
        final(prefix)@.len() == old(prefix)@.len(),
{
    let len = prefix.len();
    let name = {
        let tail = &prefix[offset + ICON_PREFIX.len()..len];
        let end = match position_of(tail, Stop::DotOrNul) {
            Some(end) => end,
            None => return false,
        };
        match container_name_for_icon(&tail[0..end]) {
            Some(name) => name,
            None => return false,
        }
    };
    let amount = match find_amount(containers, name) {
        Some(a) => a,
        None => return false,
    };
    let terminator = match position_of(&prefix[offset..len], Stop::Nul) {
        Some(t) => t,
        None => return false,
    };
    let marker_start = offset + terminator + 1;
    let value_offset = marker_start + VALUE_MARKER.len();
    if value_offset <= len && matches_at(prefix, marker_start, &VALUE_MARKER) && value_offset + 4
        <= len {
        set_i32(prefix, value_offset, amount);
        true
    } else {
        false
    }
}

/// Mirror body container amounts into the prefix's load-screen counts.
///
/// Returns the number of icon entries updated. Unknown icons are skipped.
pub fn sync_counts(prefix: &mut [u8], containers: &[Container]) -> (r: usize)
    requires
        fits_address_space(old(prefix)@.len() as int),
    ensures
        spec_sync_counts(old(prefix)@, container_views(containers@)) == (final(prefix)@, r as nat),
        final(prefix)@.len() == old(prefix)@.len(),
{
    let ghost cs = container_views(containers@);
    let ghost initial = prefix@;
    let icon_offsets = find_all(prefix, &ICON_PREFIX);
    let ghost all = occurrences(initial, ICON_PREFIX@);
    proof {
        crate::search::lemma_occurrences_are_matches(initial, ICON_PREFIX@, 0);
    }
    let len = prefix.len();
    let mut updated: usize = 0;
    let mut k: usize = 0;
    assert(all.subrange(0, all.len() as int) =~= all);
    while k < icon_offsets.len()
        invariant
            cs == container_views(containers@),
            as_ints(icon_offsets@) == all,
            forall|j: int|
                0 <= j < all.len() ==> crate::search::occurs_at(
                    initial,
                    ICON_PREFIX@,
                    #[trigger] all[j],
                ),
            k <= icon_offsets@.len(),
            prefix@.len() == len == initial.len(),
            fits_address_space(len as int),
            updated <= k,
            ({
                let (fin, n) = sync_from(prefix@, cs, all.subrange(k as int, all.len() as int));
                spec_sync_counts(initial, cs) == (fin, (n + updated) as nat)
            }),
        decreases icon_offsets@.len() - k,
    {
        let offset = icon_offsets[k];
        assert(all[k as int] == offset as int);
        let ghost rest = all.subrange(k as int, all.len() as int);
        assert(rest[0] == offset as int);
        assert(rest.drop_first() =~= all.subrange(k + 1, all.len() as int));
        if sync_entry(prefix, containers, offset) {
            updated = updated + 1;
        }
        k = k + 1;
    }
    proof {
        assert(all.subrange(k as int, all.len() as int) =~= Seq::<int>::empty());
    }
    updated
}

} // verus!
