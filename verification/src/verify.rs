//! Self-checks used by the corpus runner and the integration tests.
//!
//! [`verify`] exercises the full public surface against one save: parse,
//! recompress-roundtrip, resource edit, meta sync, and (on archive v3)
//! item injection, checking after each step that nothing else changed.
use vstd::prelude::*;
use vstd::utf8::encode_utf8;

use crate::bytes::{set_i32, spec_write_i32};
use crate::elb::spec_checked_write;
use crate::error::{error_message, Error, ErrorModel};
use crate::items::{self, spec_add_stack, spec_inventory, stack_views, ItemClass, Stack, StackModel};
use crate::meta::{self, spec_sync_counts};
use crate::resources::{self, container_views, spec_containers};
use crate::sav::{rebuild_fits, spec_parse, spec_rebuild, SaveFile, SaveFrame};
use crate::text::{decimal_chars, push_decimal, push_signed_decimal, signed_decimal_chars};
use crate::{fits_address_space, has_room, within_address_space, INJECTION_ROOM};

verus! {

/// Result of verifying one file.
#[derive(Debug)]
pub enum Outcome {
    /// All checks passed; the string summarizes what was exercised.
    Pass(String),
    /// The file is not a chunked world save (profile/playthrough files).
    NotWorldSave,
    /// A check failed.
    Fail(String),
}

/// Mathematical value of an [`Outcome`].
pub enum OutcomeModel {
    Pass(Seq<char>),
    NotWorldSave,
    Fail(Seq<char>),
}

impl View for Outcome {
    type V = OutcomeModel;

    open spec fn view(&self) -> OutcomeModel {
        match self {
            Outcome::Pass(s) => OutcomeModel::Pass(s@),
            Outcome::NotWorldSave => OutcomeModel::NotWorldSave,
            Outcome::Fail(s) => OutcomeModel::Fail(s@),
        }
    }
}

/// The prefix with both size fields zeroed.
pub open spec fn masked(prefix: Seq<u8>, fields: (usize, usize)) -> Seq<u8> {
    spec_write_i32(spec_write_i32(prefix, fields.0 as int, 0), fields.1 as int, 0)
}

fn masked_prefix(save: &SaveFile) -> (r: Vec<u8>)
    requires
        save.wf(),
    ensures
        r@ == masked(save.frame().prefix, save.frame().fields),
{
    let mut prefix: Vec<u8> = Vec::new();
    prefix.extend_from_slice(save.prefix());
    let offsets = save.size_field_offsets();
    set_i32(prefix.as_mut_slice(), offsets[0], 0);
    set_i32(prefix.as_mut_slice(), offsets[1], 0);
    prefix
}

/// Why a rebuilt file cannot be checked: its size fields overflow.
pub open spec fn unfit_text() -> Seq<char> {
    "size fields do not fit an i32"@
}

/// Why a buffer cannot be checked: it is beyond the address-space bound.
pub open spec fn oversized_text() -> Seq<char> {
    "too large"@
}

/// What reparsing the rebuild of `(frame, body)` gives, or why it cannot
/// be had (the text after the step's name).
#[verifier::opaque]
pub open spec fn spec_reparse(frame: SaveFrame, body: Seq<u8>) -> std::result::Result<
    (SaveFrame, Seq<u8>),
    Seq<char>,
> {
    if !rebuild_fits(frame, body) {
        Err(unfit_text())
    } else {
        let rebuilt = spec_rebuild(frame, body);
        if !fits_address_space(rebuilt.len() as int) {
            Err(oversized_text())
        } else {
            match spec_parse(rebuilt) {
                Err(e) => Err(error_message(e)),
                Ok((f, b)) => if !fits_address_space(b.len() as int) {
                    Err(oversized_text())
                } else {
                    Ok((f, b))
                },
            }
        }
    }
}

fn reparse(save: &SaveFile) -> (r: std::result::Result<SaveFile, String>)
    requires
        save.wf(),
    ensures
        match spec_reparse(save.frame(), save.body_view()) {
            Ok((f, b)) => r matches Ok(s) && s.wf() && s.frame() == f && s.body_view() == b,
            Err(m) => r matches Err(x) && x@ == m,
        },
        r matches Ok(s) ==> fits_address_space(s.body_view().len() as int),
{
    reveal(spec_reparse);
    let rebuilt = match save.try_to_bytes() {
        Some(v) => v,
        None => return Err(String::from_str("size fields do not fit an i32")),
    };
    if !within_address_space(rebuilt.len()) {
        return Err(String::from_str("too large"));
    }
    match SaveFile::parse(rebuilt.as_slice()) {
        Ok(s) => {
            if !within_address_space(s.body().len()) {
                return Err(String::from_str("too large"));
            }
            Ok(s)
        },
        Err(e) => Err(e.message()),
    }
}

/// The failure of the rebuild roundtrip of `(frame, body)`, if any.
#[verifier::opaque]
pub open spec fn roundtrip_failure(frame: SaveFrame, body: Seq<u8>) -> Option<Seq<char>> {
    match spec_reparse(frame, body) {
        Err(m) => Some("reparse of rebuilt file: "@ + m),
        Ok((f, b)) => if b != body {
            Some("body changed across rebuild roundtrip"@)
        } else if masked(f.prefix, f.fields) != masked(frame.prefix, frame.fields) {
            Some("prefix changed across rebuild roundtrip"@)
        } else if f.fields != frame.fields {
            Some("size field offsets moved across rebuild roundtrip"@)
        } else {
            None
        },
    }
}

/// The amount one above `a`, wrapping at the top of the `i32` range.
pub open spec fn next_amount(a: i32) -> i32 {
    if a == i32::MAX {
        i32::MIN
    } else {
        (a + 1) as i32
    }
}

/// The `Debug` rendering of an optional amount.
pub open spec fn option_amount_text(o: Option<i32>) -> Seq<char> {
    match o {
        Some(v) => "Some("@ + signed_decimal_chars(v as int) + ")"@,
        None => "None"@,
    }
}

/// The stem of the item class that injection adds.
pub open spec fn pylon() -> Seq<char> {
    "BridgePylon"@
}

/// Whether `after` holds a stack of four `BridgePylon`.
pub open spec fn has_pylons(after: Seq<StackModel>) -> bool {
    exists|j: int|
        0 <= j < after.len() && (#[trigger] after[j]).item == pylon() && after[j].count == 4
}

/// Whether every stack of `before` has a stack of the same item and count
/// in `after`.
pub open spec fn stacks_preserved(before: Seq<StackModel>, after: Seq<StackModel>) -> bool {
    forall|i: int| 0 <= i < before.len() ==> has_match(after, #[trigger] before[i])
}

/// Whether `after` has a stack of the item and count of `s`.
pub open spec fn has_match(after: Seq<StackModel>, s: StackModel) -> bool {
    exists|j: int| 0 <= j < after.len() && (#[trigger] after[j]).item == s.item && after[j].count == s.count
}

/// The checks on the reparsed injected save `(frame, b)`, given the
/// unedited body and its stacks.
#[verifier::opaque]
pub open spec fn spec_after_injection(
    body: Seq<u8>,
    before: Seq<StackModel>,
    frame: SaveFrame,
    b: Seq<u8>,
) -> std::result::Result<Seq<char>, Seq<char>> {
    match spec_inventory(b, frame.version) {
        Err(e) => Err("inventory after injection: "@ + error_message(e)),
        Ok(inventory) => {
            let after = inventory.stacks;
            if after.len() != before.len() + 1 {
                Err(
                    "stack count "@ + decimal_chars(before.len()) + " -> "@ + decimal_chars(
                        after.len(),
                    ) + ", expected +1"@,
                )
            } else if !has_pylons(after) {
                Err("injected BridgePylon x4 not found after roundtrip"@)
            } else if !stacks_preserved(before, after) {
                Err("pre-existing stacks changed during injection"@)
            } else if spec_containers(b).len() != spec_containers(body).len() {
                Err("resource containers disturbed by injection"@)
            } else {
                Ok("injection ok ("@ + decimal_chars(after.len()) + " stacks)"@)
            }
        },
    }
}

/// The injection check on a parsed save: its summary, or why it failed.
#[verifier::opaque]
pub open spec fn spec_check_injection(frame: SaveFrame, body: Seq<u8>) -> std::result::Result<
    Seq<char>,
    Seq<char>,
> {
    match spec_inventory(body, frame.version) {
        Err(e) => Ok("no injection ("@ + error_message(e) + ")"@),
        Ok(before) => if before.stacks.len() == 0 {
            Ok("no injection (empty stack list)"@)
        } else {
            match spec_add_stack(body, frame.version, encode_utf8(pylon()), 4) {
                Err(e) => if e is UnsupportedArchiveVersion {
                    Ok("injection skipped ("@ + error_message(e) + ")"@)
                } else {
                    Err("injection failed: "@ + error_message(e))
                },
                Ok(injected) => match spec_reparse(frame, injected) {
                    Err(m) => Err("reparse after injection: "@ + m),
                    Ok((f, b)) => spec_after_injection(body, before.stacks, f, b),
                },
            }
        },
    }
}

/// The outcome of the edit and injection checks on a parsed save whose
/// roundtrip passed.
#[verifier::opaque]
pub open spec fn spec_edit_outcome(frame: SaveFrame, body: Seq<u8>) -> OutcomeModel {
    let containers = spec_containers(body);
    if containers.len() == 0 {
        OutcomeModel::Pass(
            "body "@ + decimal_chars(body.len()) + " bytes, 0 resource containers, roundtrip ok"@,
        )
    } else {
        let first = containers[0];
        let amount = next_amount(first.amount);
        match spec_checked_write(
            body,
            first.amount_offset,
            amount as int,
            "resource amount field"@,
        ) {
            Err(e) => OutcomeModel::Fail("set_amount: "@ + error_message(e)),
            Ok(edited) => {
                let (prefix, synced) = spec_sync_counts(frame.prefix, spec_containers(edited));
                let edited_frame = SaveFrame { prefix, ..frame };
                match spec_reparse(edited_frame, edited) {
                    Err(m) => OutcomeModel::Fail("reparse of edited file: "@ + m),
                    Ok((_, b)) => {
                        let echoed = if spec_containers(b).len() > 0 {
                            Some(spec_containers(b)[0].amount)
                        } else {
                            None
                        };
                        let survived = match echoed {
        Some(v) => v == amount,
        None => false,
    };
    if !survived {
                            OutcomeModel::Fail(
                                "edit did not survive roundtrip: "@ + option_amount_text(echoed),
                            )
                        } else {
                            match spec_check_injection(frame, body) {
                                Ok(injection) => OutcomeModel::Pass(
                                    "body "@ + decimal_chars(body.len()) + " bytes, "@
                                        + decimal_chars(containers.len())
                                        + " resource containers, "@ + decimal_chars(synced)
                                        + " meta counts, "@ + injection,
                                ),
                                Err(reason) => OutcomeModel::Fail("item injection: "@ + reason),
                            }
                        }
                    },
                }
            },
        }
    }
}

/// The outcome of the full check battery on raw save bytes.
pub open spec fn spec_verify(bytes: Seq<u8>) -> OutcomeModel {
    match spec_parse(bytes) {
        Err(ErrorModel::NoChunkStream) => OutcomeModel::NotWorldSave,
        Err(e) => OutcomeModel::Fail("parse: "@ + error_message(e)),
        Ok((frame, body)) => if !fits_address_space(body.len() + INJECTION_ROOM) {
            OutcomeModel::Fail("parse: body "@ + oversized_text())
        } else {
            match roundtrip_failure(frame, body) {
                Some(reason) => OutcomeModel::Fail(reason),
                None => spec_edit_outcome(frame, body),
            }
        },
    }
}

fn prefixed(head: &str, tail: &str) -> (r: String)
    ensures
        r@ == head@ + tail@,
{
    let mut s = String::new();
    s.append(head);
    s.append(tail);
    s
}

fn has_pylon_stack(after: &Vec<Stack>, pylon_name: &String) -> (r: bool)
    requires
        pylon_name@ == pylon(),
    ensures
        r == has_pylons(stack_views(after@)),
{
    let ghost a = stack_views(after@);
    let mut j: usize = 0;
    while j < after.len()
        invariant
            pylon_name@ == pylon(),
            a == stack_views(after@),
            j <= after@.len(),
            forall|k: int| 0 <= k < j ==> !((#[trigger] a[k]).item === pylon() && a[k].count == 4),
        decreases after@.len() - j,
    {
        let stack = &after[j];
        assert(a[j as int] == stack@);
        if *stack.item_name() == *pylon_name && stack.stored_count() == 4 {
            return true;
        }
        j = j + 1;
    }
    false
}

fn preserved(before: &Vec<Stack>, after: &Vec<Stack>) -> (r: bool)
    ensures
        r == stacks_preserved(stack_views(before@), stack_views(after@)),
{
    let ghost b = stack_views(before@);
    let ghost a = stack_views(after@);
    let mut i: usize = 0;
    while i < before.len()
        invariant
            b == stack_views(before@),
            a == stack_views(after@),
            b.len() == before@.len(),
            a.len() == after@.len(),
            i <= before@.len(),
            forall|k: int| 0 <= k < i ==> has_match(a, #[trigger] b[k]),
        decreases before@.len() - i,
    {
        let old_stack = &before[i];
        assert(b[i as int] == old_stack@);
        let mut found = false;
        let mut j: usize = 0;
        while j < after.len()
            invariant
                i < before@.len(),
                b.len() == before@.len(),
                a == stack_views(after@),
                a.len() == after@.len(),
                j <= after@.len(),
                old_stack@ == b[i as int],
                found ==> has_match(a, b[i as int]),
                !found ==> forall|m: int|
                    0 <= m < j ==> !((#[trigger] a[m]).item == b[i as int].item && a[m].count
                        == b[i as int].count),
            decreases after@.len() - j,
        {
            let new_stack = &after[j];
            assert(a[j as int] == new_stack@);
            if !found && *new_stack.item_name() == *old_stack.item_name()
                && new_stack.stored_count() == old_stack.stored_count() {
                found = true;
            }
            j = j + 1;
        }
        if !found {
            assert(!has_match(a, b[i as int]));
            return false;
        }
        i = i + 1;
    }
    true
}

fn after_injection(save: &SaveFile, before_stacks: &Vec<Stack>, reparsed: &SaveFile) -> (r:
    std::result::Result<String, String>)
    requires
        fits_address_space(save.body_view().len() as int),
        fits_address_space(reparsed.body_view().len() as int),
    ensures
        match spec_after_injection(
            save.body_view(),
            stack_views(before_stacks@),
            reparsed.frame(),
            reparsed.body_view(),
        ) {
            Ok(s) => r matches Ok(x) && x@ == s,
            Err(s) => r matches Err(x) && x@ == s,
        },
{
    reveal(spec_after_injection);
    let pylon_name = String::from_str("BridgePylon");
    let after = match items::inventory(reparsed.body(), reparsed.archive_version()) {
        Ok(inventory) => inventory,
        Err(error) => return Err(prefixed("inventory after injection: ", error.message().as_str())),
    };
    let after_stacks = after.stack_list();
    if after_stacks.len() == 0 || after_stacks.len() - 1 != before_stacks.len() {
        let mut s = String::from_str("stack count ");
        push_decimal(&mut s, before_stacks.len() as u64);
        s.append(" -> ");
        push_decimal(&mut s, after_stacks.len() as u64);
        s.append(", expected +1");
        return Err(s);
    }
    if !has_pylon_stack(after_stacks, &pylon_name) {
        return Err(String::from_str("injected BridgePylon x4 not found after roundtrip"));
    }
    if !preserved(before_stacks, after_stacks) {
        return Err(String::from_str("pre-existing stacks changed during injection"));
    }
    if resources::containers(reparsed.body()).len() != resources::containers(save.body()).len() {
        return Err(String::from_str("resource containers disturbed by injection"));
    }
    let mut s = String::from_str("injection ok (");
    push_decimal(&mut s, after_stacks.len() as u64);
    s.append(" stacks)");
    Ok(s)
}

fn pylon_item() -> (r: ItemClass)
    ensures
        r.0@ == pylon(),
        encode_utf8(r.0@).len() == 11,
{
    let name = String::from_str("BridgePylon");
    proof {
        reveal_strlit("BridgePylon");
        assert(vstd::utf8::is_ascii_chars(name@));
        vstd::utf8::is_ascii_chars_encode_utf8(name@);
    }
    ItemClass(name)
}

fn check_injection(save: &SaveFile) -> (r: std::result::Result<String, String>)
    requires
        save.wf(),
        fits_address_space(save.body_view().len() + INJECTION_ROOM),
    ensures
        match spec_check_injection(save.frame(), save.body_view()) {
            Ok(s) => r matches Ok(x) && x@ == s,
            Err(s) => r matches Err(x) && x@ == s,
        },
{
    reveal(spec_check_injection);
    let version = save.archive_version();
    let before = match items::inventory(save.body(), version) {
        Ok(inventory) => inventory,
        Err(error) => {
            let mut s = prefixed("no injection (", error.message().as_str());
            s.append(")");
            return Ok(s);
        },
    };
    if before.stack_list().len() == 0 {
        return Ok(String::from_str("no injection (empty stack list)"));
    }
    let item = pylon_item();
    let injected_body = match items::add_stack(save.body(), version, &item, 4) {
        Ok(body) => body,
        Err(error) => {
            match error {
                Error::UnsupportedArchiveVersion(_) => {
                    let mut s = prefixed("injection skipped (", error.message().as_str());
                    s.append(")");
                    return Ok(s);
                },
                _ => return Err(prefixed("injection failed: ", error.message().as_str())),
            }
        },
    };
    let mut injected = save.duplicate();
    injected.set_body(injected_body);
    let reparsed = match reparse(&injected) {
        Ok(s) => s,
        Err(m) => return Err(prefixed("reparse after injection: ", m.as_str())),
    };
    after_injection(save, before.stack_list(), &reparsed)
}

fn roundtrip_check(save: &SaveFile) -> (r: Option<String>)
    requires
        save.wf(),
    ensures
        match roundtrip_failure(save.frame(), save.body_view()) {
            Some(m) => r matches Some(x) && x@ == m,
            None => r is None,
        },
{
    reveal(roundtrip_failure);
    let reparsed = match reparse(save) {
        Ok(s) => s,
        Err(m) => return Some(prefixed("reparse of rebuilt file: ", m.as_str())),
    };
    if !crate::bytes::bytes_eq(reparsed.body(), save.body()) {
        return Some(String::from_str("body changed across rebuild roundtrip"));
    }
    let masked_after = masked_prefix(&reparsed);
    let masked_before = masked_prefix(save);
    if !crate::bytes::bytes_eq(masked_after.as_slice(), masked_before.as_slice()) {
        return Some(String::from_str("prefix changed across rebuild roundtrip"));
    }
    let after_offsets = reparsed.size_field_offsets();
    let before_offsets = save.size_field_offsets();
    if after_offsets[0] != before_offsets[0] || after_offsets[1] != before_offsets[1] {
        return Some(String::from_str("size field offsets moved across rebuild roundtrip"));
    }
    None
}

fn next_amount_exec(a: i32) -> (r: i32)
    ensures
        r == next_amount(a),
{
    if a == i32::MAX {
        i32::MIN
    } else {
        a + 1
    }
}

fn edit_outcome(save: &SaveFile) -> (r: Outcome)
    requires
        save.wf(),
        fits_address_space(save.body_view().len() + INJECTION_ROOM),
        fits_address_space(save.frame().prefix.len() as int),
    ensures
        r@ == spec_edit_outcome(save.frame(), save.body_view()),
{
    reveal(spec_edit_outcome);
    let containers = resources::containers(save.body());
    let count = containers.len();
    assert(container_views(containers@).len() == containers@.len());
    if count == 0 {
        let mut s = String::from_str("body ");
        push_decimal(&mut s, save.body().len() as u64);
        s.append(" bytes, 0 resource containers, roundtrip ok");
        return Outcome::Pass(s);
    }
    let first = &containers[0];
    assert(container_views(containers@)[0] == first@);
    let amount = next_amount_exec(first.stored_amount());
    let mut edited = save.duplicate();
    match resources::set_amount(edited.body_mut().as_mut_slice(), first, amount) {
        Ok(()) => {},
        Err(error) => return Outcome::Fail(prefixed("set_amount: ", error.message().as_str())),
    }
    assert(edited.body_view().len() == save.body_view().len());
    let edited_containers = resources::containers(edited.body());
    let synced = meta::sync_counts(edited.prefix_mut(), edited_containers.as_slice());
    let reparsed = match reparse(&edited) {
        Ok(s) => s,
        Err(m) => return Outcome::Fail(prefixed("reparse of edited file: ", m.as_str())),
    };
    let echoed_containers = resources::containers(reparsed.body());
    assert(container_views(echoed_containers@).len() == echoed_containers@.len());
    let echoed: Option<i32> = if echoed_containers.len() > 0 {
        assert(container_views(echoed_containers@)[0] == echoed_containers@[0]@);
        Some(echoed_containers[0].stored_amount())
    } else {
        None
    };
    let survived = match echoed {
        Some(v) => v == amount,
        None => false,
    };
    if !survived {
        let mut s = String::from_str("edit did not survive roundtrip: ");
        match echoed {
            Some(v) => {
                s.append("Some(");
                push_signed_decimal(&mut s, v as i64);
                s.append(")");
            },
            None => s.append("None"),
        }
        assert(s@ =~= "edit did not survive roundtrip: "@ + option_amount_text(echoed));
        return Outcome::Fail(s);
    }
    match check_injection(save) {
        Ok(injection) => {
            let mut s = String::from_str("body ");
            push_decimal(&mut s, save.body().len() as u64);
            s.append(" bytes, ");
            push_decimal(&mut s, count as u64);
            s.append(" resource containers, ");
            push_decimal(&mut s, synced as u64);
            s.append(" meta counts, ");
            s.append(injection.as_str());
            Outcome::Pass(s)
        },
        Err(reason) => Outcome::Fail(prefixed("item injection: ", reason.as_str())),
    }
}

/// Run the full check battery against raw save bytes.
pub fn verify(bytes: &[u8]) -> (r: Outcome)
    requires
        fits_address_space(bytes@.len() as int),
    ensures
        r@ == spec_verify(bytes@),
{
    let save = match SaveFile::parse(bytes) {
        Ok(save) => save,
        Err(Error::NoChunkStream) => return Outcome::NotWorldSave,
        Err(error) => return Outcome::Fail(prefixed("parse: ", error.message().as_str())),
    };
    if !has_room(save.body().len(), INJECTION_ROOM) {
        return Outcome::Fail(prefixed("parse: body ", "too large"));
    }
    proof {
        crate::sav::lemma_parse_prefix_within(bytes@);
    }
    match roundtrip_check(&save) {
        Some(reason) => Outcome::Fail(reason),
        None => edit_outcome(&save),
    }
}

} // verus!
