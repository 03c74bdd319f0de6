//! The editor's two operations over whole save files: a summary of what is
//! editable, and applying a set of edits.
//!
//! Both work on plain values (strings, integers, the bits of `f32`s), so
//! any front end can carry them over its own wire format.
use vstd::prelude::*;
use vstd::utf8::encode_utf8;

use crate::alters::{self, spec_alters, spec_dead_alters, AlterModel, EmotionModel};
use crate::error::{error_message, ErrorModel};
use crate::items::{self, spec_inventory, StackModel};
use crate::research::{self, not_in, spec_research, strings_view};
use crate::resources::{self, container_views, spec_containers, ContainerModel};
use crate::elb::spec_checked_write;
use crate::meta::{self, spec_sync_counts};
use crate::sav::{rebuild_fits, spec_parse, spec_rebuild, ArchiveVersion, SaveFile, SaveFrame};
use crate::text::{push_signed_decimal, signed_decimal_chars};
use crate::time::{self, spec_game_time};
use crate::{fits_address_space, has_room, within_address_space};

verus! {

/// A resource container's name and amount.
pub struct ResourceSummary {
    pub name: String,
    pub amount: i32,
}

/// An item stack's item class and count.
pub struct StackSummary {
    pub name: String,
    pub count: i32,
}

/// The game clock.
pub struct TimeSummary {
    pub day: i32,
    pub hour: i32,
    pub minute: i32,
}

/// One emotion of an alter, with the bits of its `f32` value.
pub struct EmotionSummary {
    pub name: String,
    pub value_bits: u32,
}

/// One alter: its name, the bits of its first radiation value (of `0.0`
/// when it has none) and its emotions, each name once.
pub struct AlterSummary {
    pub name: String,
    pub radiation_bits: u32,
    pub emotions: Vec<EmotionSummary>,
}

/// Research progress: how many technologies are unlocked and discovered,
/// and which unlocked ones are missing.
pub struct ResearchSummary {
    pub unlocked: usize,
    pub discovered: usize,
    pub missing: Vec<String>,
}

/// What a save holds that the editor can change.
pub struct Summary {
    pub archive_version: String,
    pub body_len: usize,
    pub resources: Vec<ResourceSummary>,
    pub items: Vec<StackSummary>,
    pub items_error: Option<String>,
    pub can_add_items: bool,
    pub time: Option<TimeSummary>,
    pub alters: Vec<AlterSummary>,
    pub dead_alters: Vec<String>,
    pub research: Option<ResearchSummary>,
    pub can_complete_research: bool,
}

/// Mathematical value of an [`AlterSummary`].
pub struct AlterSummaryModel {
    pub name: Seq<char>,
    pub radiation_bits: u32,
    pub emotions: Seq<(Seq<char>, u32)>,
}

/// Mathematical value of a [`ResearchSummary`].
pub struct ResearchSummaryModel {
    pub unlocked: nat,
    pub discovered: nat,
    pub missing: Seq<Seq<char>>,
}

/// Mathematical value of a [`Summary`].
pub struct SummaryModel {
    pub archive_version: Seq<char>,
    pub body_len: nat,
    pub resources: Seq<(Seq<char>, i32)>,
    pub items: Seq<(Seq<char>, i32)>,
    pub items_error: Option<Seq<char>>,
    pub can_add_items: bool,
    pub time: Option<(i32, i32, i32)>,
    pub alters: Seq<AlterSummaryModel>,
    pub dead_alters: Seq<Seq<char>>,
    pub research: Option<ResearchSummaryModel>,
    pub can_complete_research: bool,
}

impl View for AlterSummary {
    type V = AlterSummaryModel;

    open spec fn view(&self) -> AlterSummaryModel {
        AlterSummaryModel {
            name: self.name@,
            radiation_bits: self.radiation_bits,
            emotions: emotion_rows(self.emotions@),
        }
    }
}

impl View for Summary {
    type V = SummaryModel;

    open spec fn view(&self) -> SummaryModel {
        SummaryModel {
            archive_version: self.archive_version@,
            body_len: self.body_len as nat,
            resources: resource_rows(self.resources@),
            items: stack_rows(self.items@),
            items_error: match self.items_error {
                Some(m) => Some(m@),
                None => None,
            },
            can_add_items: self.can_add_items,
            time: match self.time {
                Some(t) => Some((t.day, t.hour, t.minute)),
                None => None,
            },
            alters: alter_rows(self.alters@),
            dead_alters: strings_view(self.dead_alters@),
            research: match self.research {
                Some(r) => Some(
                    ResearchSummaryModel {
                        unlocked: r.unlocked as nat,
                        discovered: r.discovered as nat,
                        missing: strings_view(r.missing@),
                    },
                ),
                None => None,
            },
            can_complete_research: self.can_complete_research,
        }
    }
}

/// The rows of resource summaries.
pub open spec fn resource_rows(v: Seq<ResourceSummary>) -> Seq<(Seq<char>, i32)> {
    v.map_values(|r: ResourceSummary| (r.name@, r.amount))
}

/// The rows of stack summaries.
pub open spec fn stack_rows(v: Seq<StackSummary>) -> Seq<(Seq<char>, i32)> {
    v.map_values(|s: StackSummary| (s.name@, s.count))
}

/// The rows of emotion summaries.
pub open spec fn emotion_rows(v: Seq<EmotionSummary>) -> Seq<(Seq<char>, u32)> {
    v.map_values(|e: EmotionSummary| (e.name@, e.value_bits))
}

/// The views of alter summaries.
pub open spec fn alter_rows(v: Seq<AlterSummary>) -> Seq<AlterSummaryModel> {
    v.map_values(|a: AlterSummary| a@)
}

/// The name and amount of each container.
pub open spec fn container_rows(cs: Seq<ContainerModel>) -> Seq<(Seq<char>, i32)> {
    cs.map_values(|c: ContainerModel| (c.resource, c.amount))
}

/// The item and count of each stack.
pub open spec fn stack_model_rows(ss: Seq<StackModel>) -> Seq<(Seq<char>, i32)> {
    ss.map_values(|s: StackModel| (s.item, s.count))
}

/// The summaries of alters.
pub open spec fn alter_model_rows(rs: Seq<AlterModel>) -> Seq<AlterSummaryModel> {
    rs.map_values(|a: AlterModel| alter_summary(a))
}

/// How an archive version is shown.
pub open spec fn version_label(version: ArchiveVersion) -> Seq<char> {
    match version {
        ArchiveVersion::V2 => "2"@,
        ArchiveVersion::V3 => "3"@,
        ArchiveVersion::Other(v) => "unknown ("@ + signed_decimal_chars(v as int) + ")"@,
    }
}

fn version_label_exec(version: ArchiveVersion) -> (r: String)
    ensures
        r@ == version_label(version),
{
    match version {
        ArchiveVersion::V2 => String::from_str("2"),
        ArchiveVersion::V3 => String::from_str("3"),
        ArchiveVersion::Other(value) => {
            let mut s = String::from_str("unknown (");
            push_signed_decimal(&mut s, value as i64);
            s.append(")");
            s
        },
    }
}

/// The emotions of `es` as name and value, keeping the first of each name.
pub open spec fn distinct_emotions(es: Seq<EmotionModel>) -> Seq<(Seq<char>, u32)>
    decreases es.len(),
{
    if es.len() == 0 {
        Seq::empty()
    } else {
        let earlier = distinct_emotions(es.drop_last());
        if exists|k: int| 0 <= k < earlier.len() && (#[trigger] earlier[k]).0 == es.last().name {
            earlier
        } else {
            earlier.push((es.last().name, es.last().value_bits))
        }
    }
}

/// The summary of an alter.
pub open spec fn alter_summary(a: AlterModel) -> AlterSummaryModel {
    AlterSummaryModel {
        name: a.name,
        radiation_bits: if a.radiation.len() > 0 {
            a.radiation[0].0
        } else {
            0
        },
        emotions: distinct_emotions(a.emotions),
    }
}

/// The summary of a parsed save.
pub open spec fn spec_summary(frame: SaveFrame, body: Seq<u8>) -> SummaryModel {
    let version = frame.version;
    SummaryModel {
        archive_version: version_label(version),
        body_len: body.len(),
        resources: container_rows(spec_containers(body)),
        items: match spec_inventory(body, version) {
            Ok(inv) => stack_model_rows(inv.stacks),
            Err(_) => Seq::empty(),
        },
        items_error: match spec_inventory(body, version) {
            Ok(_) => None,
            Err(e) => Some(error_message(e)),
        },
        can_add_items: version == ArchiveVersion::V3,
        time: match spec_game_time(body, version) {
            Ok(t) => Some((t.day, t.hour, t.minute)),
            Err(_) => None,
        },
        alters: match spec_alters(body) {
            Ok(roster) => alter_model_rows(roster),
            Err(_) => Seq::empty(),
        },
        dead_alters: spec_dead_alters(body, version),
        research: match spec_research(body, version) {
            Ok(state) => Some(
                ResearchSummaryModel {
                    unlocked: state.unlocked.len(),
                    discovered: state.discovered.len(),
                    missing: not_in(state.unlocked, state.discovered),
                },
            ),
            Err(_) => None,
        },
        can_complete_research: version == ArchiveVersion::V3,
    }
}

/// The message for a body beyond the address-space bound.
pub open spec fn body_too_large() -> Seq<char> {
    "body too large"@
}

fn resource_summaries(body: &[u8]) -> (r: Vec<ResourceSummary>)
    requires
        fits_address_space(body@.len() as int),
    ensures
        resource_rows(r@) == container_rows(spec_containers(body@)),
{
    let containers = resources::containers(body);
    let ghost cs = container_views(containers@);
    let mut out: Vec<ResourceSummary> = Vec::new();
    let mut i: usize = 0;
    while i < containers.len()
        invariant
            cs == container_views(containers@),
            cs.len() == containers@.len(),
            i <= containers@.len(),
            resource_rows(out@) == container_rows(cs.subrange(0, i as int)),
        decreases containers@.len() - i,
    {
        let c = &containers[i];
        assert(cs[i as int] == c@);
        let ghost before = out@;
        out.push(ResourceSummary { name: c.resource_name().clone(), amount: c.stored_amount() });
        assert(resource_rows(out@) =~= resource_rows(before).push((c@.resource, c@.amount)));
        assert(container_rows(cs.subrange(0, i + 1)) =~= container_rows(cs.subrange(0, i as int)).push(
            (c@.resource, c@.amount),
        ));
        i = i + 1;
    }
    assert(cs.subrange(0, i as int) =~= cs);
    out
}

fn stack_summaries(stacks: &Vec<items::Stack>) -> (r: Vec<StackSummary>)
    ensures
        stack_rows(r@) == stack_model_rows(items::stack_views(stacks@)),
{
    let ghost ss = items::stack_views(stacks@);
    let mut out: Vec<StackSummary> = Vec::new();
    let mut i: usize = 0;
    while i < stacks.len()
        invariant
            ss == items::stack_views(stacks@),
            ss.len() == stacks@.len(),
            i <= stacks@.len(),
            stack_rows(out@) == stack_model_rows(ss.subrange(0, i as int)),
        decreases stacks@.len() - i,
    {
        let s = &stacks[i];
        assert(ss[i as int] == s@);
        let ghost before = out@;
        out.push(StackSummary { name: s.item_name().clone(), count: s.stored_count() });
        assert(stack_rows(out@) =~= stack_rows(before).push((s@.item, s@.count)));
        assert(stack_model_rows(ss.subrange(0, i + 1)) =~= stack_model_rows(ss.subrange(0, i as int)).push(
            (s@.item, s@.count),
        ));
        i = i + 1;
    }
    assert(ss.subrange(0, i as int) =~= ss);
    out
}

fn emotion_summaries(emotions: &Vec<alters::Emotion>) -> (r: Vec<EmotionSummary>)
    ensures
        emotion_rows(r@) == distinct_emotions(alters::emotion_views(emotions@)),
{
    let ghost es = alters::emotion_views(emotions@);
    let mut out: Vec<EmotionSummary> = Vec::new();
    let mut i: usize = 0;
    while i < emotions.len()
        invariant
            es == alters::emotion_views(emotions@),
            es.len() == emotions@.len(),
            i <= emotions@.len(),
            emotion_rows(out@) == distinct_emotions(es.subrange(0, i as int)),
        decreases emotions@.len() - i,
    {
        let e = &emotions[i];
        assert(es[i as int] == e@);
        let ghost prefix = es.subrange(0, i + 1);
        assert(prefix.drop_last() =~= es.subrange(0, i as int));
        let ghost earlier = distinct_emotions(es.subrange(0, i as int));
        let ghost before = emotion_rows(out@);
        let mut seen = false;
        let mut j: usize = 0;
        while j < out.len()
            invariant
                j <= out@.len(),
                before == emotion_rows(out@),
                before.len() == out@.len(),
                seen == exists|k: int| 0 <= k < j && (#[trigger] before[k]).0 == e@.name,
            decreases out@.len() - j,
        {
            assert(before[j as int] == (out@[j as int].name@, out@[j as int].value_bits));
            if out[j].name == *e.name_text() {
                seen = true;
            }
            j = j + 1;
        }
        if !seen {
            out.push(EmotionSummary { name: e.name_text().clone(), value_bits: e.bits() });
            assert(emotion_rows(out@) =~= before.push((e@.name, e@.value_bits)));
        }
        i = i + 1;
    }
    assert(es.subrange(0, i as int) =~= es);
    out
}

fn alter_summaries(roster: &Vec<alters::Alter>) -> (r: Vec<AlterSummary>)
    ensures
        alter_rows(r@) == alter_model_rows(alters::alter_views(roster@)),
{
    let ghost rs = alters::alter_views(roster@);
    let mut out: Vec<AlterSummary> = Vec::new();
    let mut i: usize = 0;
    while i < roster.len()
        invariant
            rs == alters::alter_views(roster@),
            rs.len() == roster@.len(),
            i <= roster@.len(),
            alter_rows(out@) == alter_model_rows(rs.subrange(0, i as int)),
        decreases roster@.len() - i,
    {
        let a = &roster[i];
        assert(rs[i as int] == a@);
        let radiation_bits = if a.radiation.len() > 0 {
            a.radiation[0].0
        } else {
            0
        };
        let emotions = emotion_summaries(&a.emotions);
        let summary = AlterSummary { name: a.name.clone(), radiation_bits, emotions };
        assert(summary@ == alter_summary(a@));
        let ghost before = out@;
        let ghost sv = summary@;
        out.push(summary);
        assert(alter_rows(out@) =~= alter_rows(before).push(sv));
        assert(alter_model_rows(rs.subrange(0, i + 1)) =~= alter_model_rows(rs.subrange(0, i as int)).push(
            alter_summary(a@),
        ));
        i = i + 1;
    }
    assert(rs.subrange(0, i as int) =~= rs);
    out
}

/// Parse a save and describe its editable contents.
///
/// Fails with the parse error's message when the file is not a parseable
/// world save.
pub fn summarize(bytes: &[u8]) -> (r: Result<Summary, String>)
    requires
        fits_address_space(bytes@.len() as int),
    ensures
        match spec_parse(bytes@) {
            Err(e) => r matches Err(m) && m@ == error_message(e),
            Ok((frame, body)) => if fits_address_space(body.len() as int) {
                r matches Ok(s) && s@ == spec_summary(frame, body)
            } else {
                r matches Err(m) && m@ == body_too_large()
            },
        },
{
    let save = match SaveFile::parse(bytes) {
        Ok(s) => s,
        Err(e) => return Err(e.message()),
    };
    let body = save.body();
    if !within_address_space(body.len()) {
        return Err(String::from_str("body too large"));
    }
    let version = save.archive_version();
    let resources = resource_summaries(body);
    let (items, items_error) = match items::inventory(body, version) {
        Ok(inventory) => (stack_summaries(inventory.stack_list()), None),
        Err(error) => (Vec::new(), Some(error.message())),
    };
    let clock = match time::game_time(body, version) {
        Ok(t) => {
            let (day, hour, minute) = t.clock();
            Some(TimeSummary { day, hour, minute })
        },
        Err(_) => None,
    };
    let roster = match alters::alters(body) {
        Ok(roster) => alter_summaries(&roster),
        Err(_) => Vec::new(),
    };
    let dead = alters::dead_alters(body, version);
    let research_summary = match research::research(body, version) {
        Ok(state) => {
            let missing = research::missing(&state);
            Some(
                ResearchSummary {
                    unlocked: state.unlocked_paths().len(),
                    discovered: state.discovered_paths().len(),
                    missing,
                },
            )
        },
        Err(_) => None,
    };
    let v3 = match version {
        ArchiveVersion::V3 => true,
        _ => false,
    };
    let summary = Summary {
        archive_version: version_label_exec(version),
        body_len: body.len(),
        resources,
        items,
        items_error,
        can_add_items: v3,
        time: clock,
        alters: roster,
        dead_alters: dead,
        research: research_summary,
        can_complete_research: v3,
    };
    let ghost want = spec_summary(save.frame(), save.body_view());
    assert(summary@.archive_version == want.archive_version);
    assert(summary@.body_len == want.body_len);
    assert(summary@.resources == want.resources);
    assert(summary@.items == want.items);
    assert(summary@.items_error == want.items_error);
    assert(summary@.can_add_items == want.can_add_items);
    assert(summary@.time == want.time);
    assert(summary@.alters == want.alters);
    assert(summary@.dead_alters == want.dead_alters);
    assert(summary@.research == want.research);
    assert(summary@.can_complete_research == want.can_complete_research);
    assert(summary@ == spec_summary(save.frame(), save.body_view()));
    Ok(summary)
}

/// Set a resource's stored amount.
pub struct ResourceEdit {
    pub name: String,
    pub amount: i32,
}

/// Set an item stack's count.
pub struct ItemCountEdit {
    pub name: String,
    pub count: i32,
}

/// Add a stack of an item class.
pub struct AddItemEdit {
    pub name: String,
    pub count: i32,
}

/// Set the game clock.
pub struct TimeEdit {
    pub day: i32,
    pub hour: i32,
    pub minute: i32,
}

/// Set one emotion of one alter to the `f32` with the given bits.
pub struct EmotionEdit {
    pub alter: String,
    pub emotion: String,
    pub value_bits: u32,
}

/// Set the radiation of one alter to the `f32` with the given bits.
pub struct RadiationEdit {
    pub alter: String,
    pub value_bits: u32,
}

/// A set of edits, applied in the order of the fields.
pub struct Edits {
    pub resources: Vec<ResourceEdit>,
    pub item_counts: Vec<ItemCountEdit>,
    pub add_items: Vec<AddItemEdit>,
    pub time: Option<TimeEdit>,
    pub alter_emotions: Vec<EmotionEdit>,
    pub alter_radiation: Vec<RadiationEdit>,
    pub complete_research: bool,
}

/// The rows of resource edits.
pub open spec fn resource_edit_rows(v: Seq<ResourceEdit>) -> Seq<(Seq<char>, i32)> {
    v.map_values(|e: ResourceEdit| (e.name@, e.amount))
}

/// The rows of stack-count edits.
pub open spec fn item_count_rows(v: Seq<ItemCountEdit>) -> Seq<(Seq<char>, i32)> {
    v.map_values(|e: ItemCountEdit| (e.name@, e.count))
}

/// The rows of added stacks.
pub open spec fn add_item_rows(v: Seq<AddItemEdit>) -> Seq<(Seq<char>, i32)> {
    v.map_values(|e: AddItemEdit| (e.name@, e.count))
}

/// The rows of emotion edits.
pub open spec fn emotion_edit_rows(v: Seq<EmotionEdit>) -> Seq<(Seq<char>, Seq<char>, u32)> {
    v.map_values(|e: EmotionEdit| (e.alter@, e.emotion@, e.value_bits))
}

/// The rows of radiation edits.
pub open spec fn radiation_edit_rows(v: Seq<RadiationEdit>) -> Seq<(Seq<char>, u32)> {
    v.map_values(|e: RadiationEdit| (e.alter@, e.value_bits))
}

/// Mathematical value of an [`Edits`].
pub struct EditsModel {
    pub resources: Seq<(Seq<char>, i32)>,
    pub item_counts: Seq<(Seq<char>, i32)>,
    pub add_items: Seq<(Seq<char>, i32)>,
    pub time: Option<(i32, i32, i32)>,
    pub alter_emotions: Seq<(Seq<char>, Seq<char>, u32)>,
    pub alter_radiation: Seq<(Seq<char>, u32)>,
    pub complete_research: bool,
}

impl View for Edits {
    type V = EditsModel;

    open spec fn view(&self) -> EditsModel {
        EditsModel {
            resources: resource_edit_rows(self.resources@),
            item_counts: item_count_rows(self.item_counts@),
            add_items: add_item_rows(self.add_items@),
            time: match self.time {
                Some(t) => Some((t.day, t.hour, t.minute)),
                None => None,
            },
            alter_emotions: emotion_edit_rows(self.alter_emotions@),
            alter_radiation: radiation_edit_rows(self.alter_radiation@),
            complete_research: self.complete_research,
        }
    }
}

/// The index of the first container named `name`.
pub open spec fn first_container_named(cs: Seq<ContainerModel>, name: Seq<char>) -> Option<int>
    decreases cs.len(),
{
    if cs.len() == 0 {
        None
    } else if cs[0].resource == name {
        Some(0)
    } else {
        match first_container_named(cs.drop_first(), name) {
            Some(k) => Some(k + 1),
            None => None,
        }
    }
}

/// The index of the first stack of item `name`.
pub open spec fn first_stack_named(ss: Seq<StackModel>, name: Seq<char>) -> Option<int>
    decreases ss.len(),
{
    if ss.len() == 0 {
        None
    } else if ss[0].item == name {
        Some(0)
    } else {
        match first_stack_named(ss.drop_first(), name) {
            Some(k) => Some(k + 1),
            None => None,
        }
    }
}

/// The index of the first alter named `name`.
pub open spec fn first_alter_named(rs: Seq<AlterModel>, name: Seq<char>) -> Option<int>
    decreases rs.len(),
{
    if rs.len() == 0 {
        None
    } else if rs[0].name == name {
        Some(0)
    } else {
        match first_alter_named(rs.drop_first(), name) {
            Some(k) => Some(k + 1),
            None => None,
        }
    }
}

/// The body after one resource edit, or the message of its failure.
pub open spec fn resource_edit(body: Seq<u8>, edit: (Seq<char>, i32)) -> std::result::Result<
    Seq<u8>,
    Seq<char>,
> {
    let cs = spec_containers(body);
    match first_container_named(cs, edit.0) {
        None => Err("unknown resource: "@ + edit.0),
        Some(k) => match spec_checked_write(
            body,
            cs[k].amount_offset,
            edit.1 as int,
            "resource amount field"@,
        ) {
            Err(e) => Err(error_message(e)),
            Ok(b) => Ok(b),
        },
    }
}

/// The body after the resource edits, in order, or the first failure.
#[verifier::opaque]
pub open spec fn resource_edits(body: Seq<u8>, edits: Seq<(Seq<char>, i32)>) -> std::result::Result<
    Seq<u8>,
    Seq<char>,
>
    decreases edits.len(),
{
    if edits.len() == 0 {
        Ok(body)
    } else {
        match resource_edit(body, edits[0]) {
            Err(m) => Err(m),
            Ok(b) => resource_edits(b, edits.drop_first()),
        }
    }
}

/// The body after one stack-count edit, or the message of its failure.
pub open spec fn item_count_edit(
    body: Seq<u8>,
    version: ArchiveVersion,
    edit: (Seq<char>, i32),
) -> std::result::Result<Seq<u8>, Seq<char>> {
    match spec_inventory(body, version) {
        Err(e) => Err(error_message(e)),
        Ok(inv) => match first_stack_named(inv.stacks, edit.0) {
            None => Err("unknown item stack: "@ + edit.0),
            Some(k) => match spec_checked_write(
                body,
                inv.stacks[k].count_offset,
                edit.1 as int,
                "stack count field"@,
            ) {
                Err(e) => Err(error_message(e)),
                Ok(b) => Ok(b),
            },
        },
    }
}

/// The body after the stack-count edits, in order, or the first failure.
#[verifier::opaque]
pub open spec fn item_count_edits(
    body: Seq<u8>,
    version: ArchiveVersion,
    edits: Seq<(Seq<char>, i32)>,
) -> std::result::Result<Seq<u8>, Seq<char>>
    decreases edits.len(),
{
    if edits.len() == 0 {
        Ok(body)
    } else {
        match item_count_edit(body, version, edits[0]) {
            Err(m) => Err(m),
            Ok(b) => item_count_edits(b, version, edits.drop_first()),
        }
    }
}

/// The body after the clock edit, if any, or the message of its failure.
#[verifier::opaque]
pub open spec fn time_edit(body: Seq<u8>, version: ArchiveVersion, edit: Option<(i32, i32, i32)>) -> std::result::Result<
    Seq<u8>,
    Seq<char>,
> {
    match edit {
        None => Ok(body),
        Some((day, hour, minute)) => match spec_game_time(body, version) {
            Err(e) => Err(error_message(e)),
            Ok(clock) => {
                let (b, outcome) = crate::time::spec_set_game_time(body, clock, day, hour, minute);
                match outcome {
                    Ok(()) => Ok(b),
                    Err(e) => Err(error_message(e)),
                }
            },
        },
    }
}

/// The body after one emotion edit against `roster`, or its failure.
pub open spec fn emotion_edit(
    body: Seq<u8>,
    roster: Seq<AlterModel>,
    edit: (Seq<char>, Seq<char>, u32),
) -> std::result::Result<Seq<u8>, Seq<char>> {
    match first_alter_named(roster, edit.0) {
        None => Err("unknown alter: "@ + edit.0),
        Some(k) => {
            let (b, outcome) = alters::spec_set_emotions(body, roster[k].emotions, edit.1, edit.2, 0);
            match outcome {
                Ok(()) => Ok(b),
                Err(e) => Err(error_message(e)),
            }
        },
    }
}

/// The body after the emotion edits, in order, or the first failure.
pub open spec fn emotion_edits(
    body: Seq<u8>,
    roster: Seq<AlterModel>,
    edits: Seq<(Seq<char>, Seq<char>, u32)>,
) -> std::result::Result<Seq<u8>, Seq<char>>
    decreases edits.len(),
{
    if edits.len() == 0 {
        Ok(body)
    } else {
        match emotion_edit(body, roster, edits[0]) {
            Err(m) => Err(m),
            Ok(b) => emotion_edits(b, roster, edits.drop_first()),
        }
    }
}

/// The body after one radiation edit against `roster`, or its failure.
pub open spec fn radiation_edit(body: Seq<u8>, roster: Seq<AlterModel>, edit: (Seq<char>, u32)) -> std::result::Result<
    Seq<u8>,
    Seq<char>,
> {
    match first_alter_named(roster, edit.0) {
        None => Err("unknown alter: "@ + edit.0),
        Some(k) => {
            let (b, outcome) = alters::spec_set_radiation(body, roster[k].radiation, edit.1, 0);
            match outcome {
                Ok(()) => Ok(b),
                Err(e) => Err(error_message(e)),
            }
        },
    }
}

/// The body after the radiation edits, in order, or the first failure.
pub open spec fn radiation_edits(
    body: Seq<u8>,
    roster: Seq<AlterModel>,
    edits: Seq<(Seq<char>, u32)>,
) -> std::result::Result<Seq<u8>, Seq<char>>
    decreases edits.len(),
{
    if edits.len() == 0 {
        Ok(body)
    } else {
        match radiation_edit(body, roster, edits[0]) {
            Err(m) => Err(m),
            Ok(b) => radiation_edits(b, roster, edits.drop_first()),
        }
    }
}

/// The body after the alter edits (against the roster of the body before
/// them), or the first failure.
#[verifier::opaque]
pub open spec fn alter_edits(
    body: Seq<u8>,
    emotions: Seq<(Seq<char>, Seq<char>, u32)>,
    radiation: Seq<(Seq<char>, u32)>,
) -> std::result::Result<Seq<u8>, Seq<char>> {
    if emotions.len() == 0 && radiation.len() == 0 {
        Ok(body)
    } else {
        match spec_alters(body) {
            Err(e) => Err(error_message(e)),
            Ok(roster) => match emotion_edits(body, roster, emotions) {
                Err(m) => Err(m),
                Ok(b) => radiation_edits(b, roster, radiation),
            },
        }
    }
}

/// The message for an item name beyond [`items::MAX_STEM_BYTES`].
pub open spec fn name_too_long() -> Seq<char> {
    "item name too long"@
}

/// The body after adding one stack, or the message of its failure.
pub open spec fn add_item_edit(body: Seq<u8>, version: ArchiveVersion, edit: (Seq<char>, i32)) -> std::result::Result<
    Seq<u8>,
    Seq<char>,
> {
    if encode_utf8(edit.0).len() > items::MAX_STEM_BYTES {
        Err(name_too_long())
    } else if !fits_address_space(
        body.len() + encode_utf8(edit.0).len() + encode_utf8(edit.0).len() + encode_utf8(edit.0).len()
            + items::NAME_ROOM,
    ) {
        Err(body_too_large())
    } else {
        match items::spec_add_stack(body, version, encode_utf8(edit.0), edit.1) {
            Err(e) => Err(error_message(e)),
            Ok(b) => Ok(b),
        }
    }
}

/// The body after adding the stacks, in order, or the first failure.
#[verifier::opaque]
pub open spec fn add_item_edits(
    body: Seq<u8>,
    version: ArchiveVersion,
    edits: Seq<(Seq<char>, i32)>,
) -> std::result::Result<Seq<u8>, Seq<char>>
    decreases edits.len(),
{
    if edits.len() == 0 {
        Ok(body)
    } else {
        match add_item_edit(body, version, edits[0]) {
            Err(m) => Err(m),
            Ok(b) => add_item_edits(b, version, edits.drop_first()),
        }
    }
}

/// Whether technology paths can be appended: each `lstr` length fits an
/// `i32` and all together stay far below the `i64` range.
pub open spec fn paths_fit(paths: Seq<Seq<char>>) -> bool {
    &&& forall|i: int| 0 <= i < paths.len() ==> encode_utf8(#[trigger] paths[i]).len() < i32::MAX
    &&& research::lstr_concat(paths).len() <= i64::MAX
}

/// The message for technology paths that [`paths_fit`] refuses.
pub open spec fn paths_too_long() -> Seq<char> {
    "research paths too long"@
}

/// The body after completing all missing research, if asked, or the
/// message of its failure.
#[verifier::opaque]
pub open spec fn research_edit(body: Seq<u8>, version: ArchiveVersion, complete: bool) -> std::result::Result<
    Seq<u8>,
    Seq<char>,
> {
    if !complete {
        Ok(body)
    } else if !fits_address_space(body.len() as int) {
        Err(body_too_large())
    } else {
        match spec_research(body, version) {
            Err(e) => Err(error_message(e)),
            Ok(state) => {
                let missing = not_in(state.unlocked, state.discovered);
                if !paths_fit(missing) {
                    Err(paths_too_long())
                } else {
                    match research::spec_complete(body, version, missing) {
                        Err(e) => Err(error_message(e)),
                        Ok(b) => Ok(b),
                    }
                }
            },
        }
    }
}

/// The file rebuilt from the frame and the edited body, with the prefix's
/// load-screen counts synced, or the message of its failure.
pub open spec fn finish_edits(frame: SaveFrame, body: Seq<u8>) -> std::result::Result<
    Seq<u8>,
    Seq<char>,
> {
    if !fits_address_space(body.len() as int) {
        Err(body_too_large())
    } else {
        let (prefix, _) = spec_sync_counts(frame.prefix, spec_containers(body));
        let synced = SaveFrame { prefix, ..frame };
        if !rebuild_fits(synced, body) {
            Err(crate::verify::unfit_text())
        } else {
            Ok(spec_rebuild(synced, body))
        }
    }
}

/// The file after applying `edits` to the save `bytes`, or the message of
/// the first failure.
pub open spec fn spec_apply_edits(bytes: Seq<u8>, edits: EditsModel) -> std::result::Result<
    Seq<u8>,
    Seq<char>,
> {
    match spec_parse(bytes) {
        Err(e) => Err(error_message(e)),
        Ok((frame, body)) => if !fits_address_space(body.len() as int) {
            Err(body_too_large())
        } else {
            let version = frame.version;
            match resource_edits(body, edits.resources) {
                Err(m) => Err(m),
                Ok(b1) => match item_count_edits(b1, version, edits.item_counts) {
                    Err(m) => Err(m),
                    Ok(b2) => match time_edit(b2, version, edits.time) {
                        Err(m) => Err(m),
                        Ok(b3) => match alter_edits(b3, edits.alter_emotions, edits.alter_radiation) {
                            Err(m) => Err(m),
                            Ok(b4) => match add_item_edits(b4, version, edits.add_items) {
                                Err(m) => Err(m),
                                Ok(b5) => match research_edit(b5, version, edits.complete_research) {
                                    Err(m) => Err(m),
                                    Ok(b6) => finish_edits(frame, b6),
                                },
                            },
                        },
                    },
                },
            }
        },
    }
}

fn find_container(cs: &Vec<resources::Container>, name: &String) -> (r: Option<usize>)
    ensures
        match first_container_named(container_views(cs@), name@) {
            Some(k) => r matches Some(x) && x as int == k && x < cs@.len(),
            None => r is None,
        },
{
    let ghost v = container_views(cs@);
    let mut i: usize = 0;
    assert(v.subrange(0, v.len() as int) =~= v);
    while i < cs.len()
        invariant
            v == container_views(cs@),
            v.len() == cs@.len(),
            i <= cs@.len(),
            first_container_named(v, name@) == match first_container_named(
                v.subrange(i as int, v.len() as int),
                name@,
            ) {
                Some(k) => Some(k + i),
                None => None::<int>,
            },
        decreases cs@.len() - i,
    {
        let ghost rest = v.subrange(i as int, v.len() as int);
        assert(rest[0] == cs@[i as int]@);
        assert(rest.drop_first() =~= v.subrange(i + 1, v.len() as int));
        if *cs[i].resource_name() == *name {
            return Some(i);
        }
        i = i + 1;
    }
    None
}

fn find_stack(ss: &Vec<items::Stack>, name: &String) -> (r: Option<usize>)
    ensures
        match first_stack_named(items::stack_views(ss@), name@) {
            Some(k) => r matches Some(x) && x as int == k && x < ss@.len(),
            None => r is None,
        },
{
    let ghost v = items::stack_views(ss@);
    let mut i: usize = 0;
    assert(v.subrange(0, v.len() as int) =~= v);
    while i < ss.len()
        invariant
            v == items::stack_views(ss@),
            v.len() == ss@.len(),
            i <= ss@.len(),
            first_stack_named(v, name@) == match first_stack_named(
                v.subrange(i as int, v.len() as int),
                name@,
            ) {
                Some(k) => Some(k + i),
                None => None::<int>,
            },
        decreases ss@.len() - i,
    {
        let ghost rest = v.subrange(i as int, v.len() as int);
        assert(rest[0] == ss@[i as int]@);
        assert(rest.drop_first() =~= v.subrange(i + 1, v.len() as int));
        if *ss[i].item_name() == *name {
            return Some(i);
        }
        i = i + 1;
    }
    None
}

fn find_alter(rs: &Vec<alters::Alter>, name: &String) -> (r: Option<usize>)
    ensures
        match first_alter_named(alters::alter_views(rs@), name@) {
            Some(k) => r matches Some(x) && x as int == k && x < rs@.len(),
            None => r is None,
        },
{
    let ghost v = alters::alter_views(rs@);
    let mut i: usize = 0;
    assert(v.subrange(0, v.len() as int) =~= v);
    while i < rs.len()
        invariant
            v == alters::alter_views(rs@),
            v.len() == rs@.len(),
            i <= rs@.len(),
            first_alter_named(v, name@) == match first_alter_named(
                v.subrange(i as int, v.len() as int),
                name@,
            ) {
                Some(k) => Some(k + i),
                None => None::<int>,
            },
        decreases rs@.len() - i,
    {
        let ghost rest = v.subrange(i as int, v.len() as int);
        assert(rest[0] == rs@[i as int]@);
        assert(rest.drop_first() =~= v.subrange(i + 1, v.len() as int));
        if rs[i].name == *name {
            return Some(i);
        }
        i = i + 1;
    }
    None
}

fn apply_resource_edits(body: &mut Vec<u8>, edits: &Vec<ResourceEdit>) -> (r: Result<(), String>)
    requires
        fits_address_space(old(body)@.len() as int),
    ensures
        match resource_edits(old(body)@, resource_edit_rows(edits@)) {
            Ok(b) => r is Ok && final(body)@ == b,
            Err(m) => r matches Err(x) && x@ == m,
        },
        final(body)@.len() == old(body)@.len(),
{
    reveal(resource_edits);
    let ghost all = resource_edit_rows(edits@);
    let mut i: usize = 0;
    assert(all.subrange(0, all.len() as int) =~= all);
    while i < edits.len()
        invariant
            all == resource_edit_rows(edits@),
            all.len() == edits@.len(),
            i <= edits@.len(),
            body@.len() == old(body)@.len(),
            fits_address_space(body@.len() as int),
            resource_edits(old(body)@, all) == resource_edits(
                body@,
                all.subrange(i as int, all.len() as int),
            ),
        decreases edits@.len() - i,
    {
        reveal(resource_edits);
        let ghost rest = all.subrange(i as int, all.len() as int);
        assert(rest[0] == (edits@[i as int].name@, edits@[i as int].amount));
        assert(rest.drop_first() =~= all.subrange(i + 1, all.len() as int));
        let edit = &edits[i];
        let containers = resources::containers(body.as_slice());
        let k = match find_container(&containers, &edit.name) {
            Some(k) => k,
            None => {
                let mut m = String::from_str("unknown resource: ");
                m.append(edit.name.as_str());
                return Err(m);
            },
        };
        assert(container_views(containers@)[k as int] == containers@[k as int]@);
        match resources::set_amount(body.as_mut_slice(), &containers[k], edit.amount) {
            Ok(()) => {},
            Err(e) => return Err(e.message()),
        }
        i = i + 1;
    }
    Ok(())
}

fn apply_item_count_edits(body: &mut Vec<u8>, version: ArchiveVersion, edits: &Vec<ItemCountEdit>) -> (r:
    Result<(), String>)
    requires
        fits_address_space(old(body)@.len() as int),
    ensures
        match item_count_edits(old(body)@, version, item_count_rows(edits@)) {
            Ok(b) => r is Ok && final(body)@ == b,
            Err(m) => r matches Err(x) && x@ == m,
        },
        final(body)@.len() == old(body)@.len(),
{
    reveal(item_count_edits);
    let ghost all = item_count_rows(edits@);
    let mut i: usize = 0;
    assert(all.subrange(0, all.len() as int) =~= all);
    while i < edits.len()
        invariant
            all == item_count_rows(edits@),
            all.len() == edits@.len(),
            i <= edits@.len(),
            body@.len() == old(body)@.len(),
            fits_address_space(body@.len() as int),
            item_count_edits(old(body)@, version, all) == item_count_edits(
                body@,
                version,
                all.subrange(i as int, all.len() as int),
            ),
        decreases edits@.len() - i,
    {
        reveal(item_count_edits);
        let ghost rest = all.subrange(i as int, all.len() as int);
        assert(rest[0] == (edits@[i as int].name@, edits@[i as int].count));
        assert(rest.drop_first() =~= all.subrange(i + 1, all.len() as int));
        let edit = &edits[i];
        let inventory = match items::inventory(body.as_slice(), version) {
            Ok(inv) => inv,
            Err(e) => return Err(e.message()),
        };
        let stacks = inventory.stack_list();
        let k = match find_stack(stacks, &edit.name) {
            Some(k) => k,
            None => {
                let mut m = String::from_str("unknown item stack: ");
                m.append(edit.name.as_str());
                return Err(m);
            },
        };
        assert(items::stack_views(stacks@)[k as int] == stacks@[k as int]@);
        match items::set_count(body.as_mut_slice(), &stacks[k], edit.count) {
            Ok(()) => {},
            Err(e) => return Err(e.message()),
        }
        i = i + 1;
    }
    Ok(())
}

fn apply_time_edit(body: &mut Vec<u8>, version: ArchiveVersion, edit: &Option<TimeEdit>) -> (r: Result<
    (),
    String,
>)
    requires
        fits_address_space(old(body)@.len() as int),
    ensures
        match time_edit(
            old(body)@,
            version,
            match edit {
                Some(t) => Some((t.day, t.hour, t.minute)),
                None => None,
            },
        ) {
            Ok(b) => r is Ok && final(body)@ == b,
            Err(m) => r matches Err(x) && x@ == m,
        },
        final(body)@.len() == old(body)@.len(),
{
    reveal(time_edit);
    match edit {
        None => Ok(()),
        Some(t) => {
            let clock = match time::game_time(body.as_slice(), version) {
                Ok(c) => c,
                Err(e) => return Err(e.message()),
            };
            match time::set_game_time(body.as_mut_slice(), &clock, t.day, t.hour, t.minute) {
                Ok(()) => Ok(()),
                Err(e) => Err(e.message()),
            }
        },
    }
}

fn apply_alter_edits(body: &mut Vec<u8>, emotions: &Vec<EmotionEdit>, radiation: &Vec<RadiationEdit>) -> (r:
    Result<(), String>)
    requires
        fits_address_space(old(body)@.len() as int),
    ensures
        match alter_edits(old(body)@, emotion_edit_rows(emotions@), radiation_edit_rows(radiation@)) {
            Ok(b) => r is Ok && final(body)@ == b,
            Err(m) => r matches Err(x) && x@ == m,
        },
        final(body)@.len() == old(body)@.len(),
{
    reveal(alter_edits);
    let ghost erows = emotion_edit_rows(emotions@);
    let ghost rrows = radiation_edit_rows(radiation@);
    if emotions.len() == 0 && radiation.len() == 0 {
        return Ok(());
    }
    let roster = match alters::alters(body.as_slice()) {
        Ok(r) => r,
        Err(e) => return Err(e.message()),
    };
    let ghost rv = alters::alter_views(roster@);
    let ghost b0 = body@;
    let mut i: usize = 0;
    assert(erows.subrange(0, erows.len() as int) =~= erows);
    while i < emotions.len()
        invariant
            erows == emotion_edit_rows(emotions@),
            erows.len() == emotions@.len(),
            rv == alters::alter_views(roster@),
            rv.len() == roster@.len(),
            b0 == old(body)@,
            spec_alters(b0) == Ok::<Seq<AlterModel>, ErrorModel>(rv),
            emotions@.len() > 0 || radiation@.len() > 0,
            rrows == radiation_edit_rows(radiation@),
            i <= emotions@.len(),
            body@.len() == b0.len(),
            emotion_edits(b0, rv, erows) == emotion_edits(
                body@,
                rv,
                erows.subrange(i as int, erows.len() as int),
            ),
        decreases emotions@.len() - i,
    {
        reveal(alter_edits);
        let ghost rest = erows.subrange(i as int, erows.len() as int);
        let edit = &emotions[i];
        assert(rest[0] == (edit.alter@, edit.emotion@, edit.value_bits));
        assert(rest.drop_first() =~= erows.subrange(i + 1, erows.len() as int));
        let k = match find_alter(&roster, &edit.alter) {
            Some(k) => k,
            None => {
                let mut m = String::from_str("unknown alter: ");
                m.append(edit.alter.as_str());
                return Err(m);
            },
        };
        assert(rv[k as int] == roster@[k as int]@);
        match alters::set_emotion(body.as_mut_slice(), &roster[k], edit.emotion.as_str(), edit.value_bits) {
            Ok(()) => {},
            Err(e) => return Err(e.message()),
        }
        i = i + 1;
    }
    let ghost b1 = body@;
    assert(erows.subrange(i as int, erows.len() as int) =~= Seq::<(Seq<char>, Seq<char>, u32)>::empty());
    let mut j: usize = 0;
    assert(rrows.subrange(0, rrows.len() as int) =~= rrows);
    while j < radiation.len()
        invariant
            rrows == radiation_edit_rows(radiation@),
            rrows.len() == radiation@.len(),
            rv == alters::alter_views(roster@),
            rv.len() == roster@.len(),
            b0 == old(body)@,
            spec_alters(b0) == Ok::<Seq<AlterModel>, ErrorModel>(rv),
            emotions@.len() > 0 || radiation@.len() > 0,
            erows == emotion_edit_rows(emotions@),
            emotion_edits(b0, rv, erows) == Ok::<Seq<u8>, Seq<char>>(b1),
            j <= radiation@.len(),
            body@.len() == b0.len(),
            radiation_edits(b1, rv, rrows) == radiation_edits(
                body@,
                rv,
                rrows.subrange(j as int, rrows.len() as int),
            ),
        decreases radiation@.len() - j,
    {
        reveal(alter_edits);
        let ghost rest = rrows.subrange(j as int, rrows.len() as int);
        let edit = &radiation[j];
        assert(rest[0] == (edit.alter@, edit.value_bits));
        assert(rest.drop_first() =~= rrows.subrange(j + 1, rrows.len() as int));
        let k = match find_alter(&roster, &edit.alter) {
            Some(k) => k,
            None => {
                let mut m = String::from_str("unknown alter: ");
                m.append(edit.alter.as_str());
                return Err(m);
            },
        };
        assert(rv[k as int] == roster@[k as int]@);
        match alters::set_radiation(body.as_mut_slice(), &roster[k], edit.value_bits) {
            Ok(()) => {},
            Err(e) => return Err(e.message()),
        }
        j = j + 1;
    }
    assert(rrows.subrange(j as int, rrows.len() as int) =~= Seq::<(Seq<char>, u32)>::empty());
    Ok(())
}

fn apply_add_items(body: &mut Vec<u8>, version: ArchiveVersion, edits: &Vec<AddItemEdit>) -> (r: Result<
    (),
    String,
>)
    ensures
        match add_item_edits(old(body)@, version, add_item_rows(edits@)) {
            Ok(b) => r is Ok && final(body)@ == b,
            Err(m) => r matches Err(x) && x@ == m,
        },
{
    reveal(add_item_edits);
    let ghost all = add_item_rows(edits@);
    let mut i: usize = 0;
    assert(all.subrange(0, all.len() as int) =~= all);
    while i < edits.len()
        invariant
            all == add_item_rows(edits@),
            all.len() == edits@.len(),
            i <= edits@.len(),
            add_item_edits(old(body)@, version, all) == add_item_edits(
                body@,
                version,
                all.subrange(i as int, all.len() as int),
            ),
        decreases edits@.len() - i,
    {
        reveal(add_item_edits);
        let ghost rest = all.subrange(i as int, all.len() as int);
        let edit = &edits[i];
        assert(rest[0] == (edit.name@, edit.count));
        assert(rest.drop_first() =~= all.subrange(i + 1, all.len() as int));
        let name_len = edit.name.as_str().as_bytes().len();
        if name_len > items::MAX_STEM_BYTES {
            return Err(String::from_str("item name too long"));
        }
        if !has_room(body.len(), name_len + name_len + name_len + items::NAME_ROOM) {
            return Err(String::from_str("body too large"));
        }
        let item = items::ItemClass(edit.name.clone());
        let grown = match items::add_stack(body.as_slice(), version, &item, edit.count) {
            Ok(b) => b,
            Err(e) => return Err(e.message()),
        };
        *body = grown;
        i = i + 1;
    }
    Ok(())
}

/// Lengthening the list of paths does not shorten their concatenation.
proof fn lemma_concat_prefix(paths: Seq<Seq<char>>, i: int)
    requires
        0 <= i <= paths.len(),
    ensures
        research::lstr_concat(paths.subrange(0, i)).len() <= research::lstr_concat(paths).len(),
    decreases paths.len() - i,
{
    if i < paths.len() {
        lemma_concat_prefix(paths, i + 1);
        assert(paths.subrange(0, i + 1).drop_last() =~= paths.subrange(0, i));
        assert(research::lstr_concat(paths.subrange(0, i + 1)).len() >= research::lstr_concat(
            paths.subrange(0, i),
        ).len());
    } else {
        assert(paths.subrange(0, i) =~= paths);
    }
}

fn paths_fit_exec(paths: &Vec<String>) -> (r: bool)
    ensures
        r == paths_fit(strings_view(paths@)),
{
    let ghost ps = strings_view(paths@);
    let mut total: u64 = 0;
    let mut i: usize = 0;
    assert(ps.subrange(0, 0) =~= Seq::<Seq<char>>::empty());
    while i < paths.len()
        invariant
            ps == strings_view(paths@),
            ps.len() == paths@.len(),
            i <= paths@.len(),
            forall|k: int| 0 <= k < i ==> encode_utf8(#[trigger] ps[k]).len() < i32::MAX,
            total == research::lstr_concat(ps.subrange(0, i as int)).len(),
            total <= i64::MAX,
        decreases paths@.len() - i,
    {
        let n = paths[i].as_str().as_bytes().len();
        assert(ps[i as int] == paths@[i as int]@);
        if n >= 0x7fff_ffff {
            assert(!paths_fit(ps));
            return false;
        }
        assert(ps.subrange(0, i + 1).drop_last() =~= ps.subrange(0, i as int));
        let step = n as u64 + 5;
        if step > 0x7fff_ffff_ffff_ffff - total {
            proof {
                lemma_concat_prefix(ps, i + 1);
            }
            return false;
        }
        total = total + step;
        i = i + 1;
    }
    assert(ps.subrange(0, i as int) =~= ps);
    true
}

fn apply_research_edit(body: &mut Vec<u8>, version: ArchiveVersion, complete: bool) -> (r: Result<
    (),
    String,
>)
    ensures
        match research_edit(old(body)@, version, complete) {
            Ok(b) => r is Ok && final(body)@ == b,
            Err(m) => r matches Err(x) && x@ == m,
        },
{
    reveal(research_edit);
    if !complete {
        return Ok(());
    }
    if !within_address_space(body.len()) {
        return Err(String::from_str("body too large"));
    }
    let state = match research::research(body.as_slice(), version) {
        Ok(s) => s,
        Err(e) => return Err(e.message()),
    };
    let missing = research::missing(&state);
    if !paths_fit_exec(&missing) {
        return Err(String::from_str("research paths too long"));
    }
    proof {
        research::lemma_not_in_encodable(strings_view(missing@), state@.discovered);
    }
    let done = match research::complete(body.as_slice(), version, missing.as_slice()) {
        Ok(b) => b,
        Err(e) => return Err(e.message()),
    };
    *body = done;
    Ok(())
}

/// Parse a save, apply `edits`, and return the rebuilt file bytes.
///
/// Fails with a message when parsing fails, an edit names an unknown
/// resource, stack or alter, or an edit itself fails (such as item
/// injection on an archive version that does not support it).
pub fn apply_edits(bytes: &[u8], edits: &Edits) -> (r: Result<Vec<u8>, String>)
    requires
        fits_address_space(bytes@.len() as int),
    ensures
        match spec_apply_edits(bytes@, edits@) {
            Ok(b) => r matches Ok(x) && x@ == b,
            Err(m) => r matches Err(x) && x@ == m,
        },
{
    let save = match SaveFile::parse(bytes) {
        Ok(s) => s,
        Err(e) => return Err(e.message()),
    };
    proof {
        crate::sav::lemma_parse_prefix_within(bytes@);
    }
    let version = save.archive_version();
    let mut body: Vec<u8> = Vec::new();
    body.extend_from_slice(save.body());
    assert(body@ =~= save.body_view());
    if !within_address_space(body.len()) {
        return Err(String::from_str("body too large"));
    }
    match apply_resource_edits(&mut body, &edits.resources) {
        Ok(()) => {},
        Err(m) => return Err(m),
    }
    match apply_item_count_edits(&mut body, version, &edits.item_counts) {
        Ok(()) => {},
        Err(m) => return Err(m),
    }
    match apply_time_edit(&mut body, version, &edits.time) {
        Ok(()) => {},
        Err(m) => return Err(m),
    }
    match apply_alter_edits(&mut body, &edits.alter_emotions, &edits.alter_radiation) {
        Ok(()) => {},
        Err(m) => return Err(m),
    }
    match apply_add_items(&mut body, version, &edits.add_items) {
        Ok(()) => {},
        Err(m) => return Err(m),
    }
    match apply_research_edit(&mut body, version, edits.complete_research) {
        Ok(()) => {},
        Err(m) => return Err(m),
    }
    if !within_address_space(body.len()) {
        return Err(String::from_str("body too large"));
    }
    let mut edited = save.duplicate();
    edited.set_body(body);
    let containers = resources::containers(edited.body());
    meta::sync_counts(edited.prefix_mut(), containers.as_slice());
    match edited.try_to_bytes() {
        Some(out) => Ok(out),
        None => Err(String::from_str("size fields do not fit an i32")),
    }
}

} // verus!
