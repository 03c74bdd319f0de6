//! Game clock: the `P9TimeSystem` subsystem's `CurrentTime` struct.
//!
//! `CurrentTime` is a `StructProperty<P9DateTime>` holding `Date`, `Hour`,
//! and `Minute` tagged `IntProperty` values (plus an `Overflow` float that
//! is left alone). `Date` is the day number shown in-game and embedded in
//! save filenames. All three are fixed-width in-place edits.
//!
//! `P9DateTime` appears thousands of times in a save (timestamps on events
//! and components); only the one inside `P9TimeSystem`'s `CurrentTime`
//! property is the live clock, so lookup is anchored to that record.
use vstd::prelude::*;

use crate::bytes::{read_i32, spec_read_i32};
use crate::elb::{
    find_record, int_prop_pattern, spec_checked_write, spec_find_record, spec_int_prop_pattern,
    write_i32,
};
use crate::error::{Error, ErrorModel, Result};
use crate::fits_address_space;
use crate::sav::ArchiveVersion;
use crate::search::{find_first, spec_find};

verus! {

/// Bytes of "/Script/P9Playable.P9TimeSystem".
pub const TIME_SYSTEM: [u8; 31] = [0x2f, 0x53, 0x63, 0x72, 0x69, 0x70, 0x74, 0x2f, 0x50, 0x39, 0x50, 0x6c, 0x61, 0x79, 0x61, 0x62, 0x6c, 0x65, 0x2e, 0x50, 0x39, 0x54, 0x69, 0x6d, 0x65, 0x53, 0x79, 0x73, 0x74, 0x65, 0x6d];

/// Bytes of the `lstr` "CurrentTime".
pub const CURRENT_TIME: [u8; 16] = [0x0c, 0x00, 0x00, 0x00, 0x43, 0x75, 0x72, 0x72, 0x65, 0x6e, 0x74, 0x54, 0x69, 0x6d, 0x65, 0x00];

/// Bytes of "Date".
pub const DATE: [u8; 4] = [0x44, 0x61, 0x74, 0x65];

/// Bytes of "Hour".
pub const HOUR: [u8; 4] = [0x48, 0x6f, 0x75, 0x72];

/// Bytes of "Minute".
pub const MINUTE: [u8; 6] = [0x4d, 0x69, 0x6e, 0x75, 0x74, 0x65];

/// How far past `CurrentTime` its fields are looked for.
pub const WINDOW: usize = 400;

/// The in-game clock with the offsets needed to rewrite it.
#[derive(Debug, Clone, Copy)]
pub struct GameTime {
    pub day: i32,
    pub hour: i32,
    pub minute: i32,
    day_offset: usize,
    hour_offset: usize,
    minute_offset: usize,
}

impl GameTime {
    /// The field offsets are positions: each fits a `usize`.
    pub proof fn lemma_offsets_range(&self)
        ensures
            0 <= self@.day_offset <= usize::MAX,
            0 <= self@.hour_offset <= usize::MAX,
            0 <= self@.minute_offset <= usize::MAX,
    {
    }

    /// Day, hour and minute.
    pub fn clock(&self) -> (r: (i32, i32, i32))
        ensures
            r == (self@.day, self@.hour, self@.minute),
    {
        (self.day, self.hour, self.minute)
    }
}

/// Mathematical value of a [`GameTime`].
pub struct GameTimeModel {
    pub day: i32,
    pub hour: i32,
    pub minute: i32,
    pub day_offset: int,
    pub hour_offset: int,
    pub minute_offset: int,
}

impl View for GameTime {
    type V = GameTimeModel;

    closed spec fn view(&self) -> GameTimeModel {
        GameTimeModel {
            day: self.day,
            hour: self.hour,
            minute: self.minute,
            day_offset: self.day_offset as int,
            hour_offset: self.hour_offset as int,
            minute_offset: self.minute_offset as int,
        }
    }
}

/// The error for a violated time-system invariant.
pub open spec fn time_error(reason: Seq<char>) -> ErrorModel {
    ErrorModel::MalformedChunk { offset: 0, reason: "time system structure: "@ + reason }
}

fn structure_error(reason: &str) -> (e: Error)
    ensures
        e@ == time_error(reason@),
{
    let mut text = String::new();
    text.append("time system structure: ");
    text.append(reason);
    Error::MalformedChunk { offset: 0, reason: text }
}

/// The `IntProperty` named `name` first found in `body[start..end]`: its
/// value and the value's offset (the value itself may lie past `end`);
/// `missing` when there is none.
pub open spec fn spec_int_after(
    body: Seq<u8>,
    start: int,
    end: int,
    name: Seq<u8>,
    missing: Seq<char>,
    version: ArchiveVersion,
) -> std::result::Result<(int, int), Seq<char>> {
    let pattern = spec_int_prop_pattern(name, version);
    match spec_find(body.subrange(start, end), pattern) {
        None => Err(missing),
        Some(found) => {
            let offset = start + found + pattern.len();
            match spec_read_i32(body, offset) {
                None => Err("truncated value"@),
                Some(v) => Ok((v, offset)),
            }
        },
    }
}

fn int_after(
    body: &[u8],
    start: usize,
    end: usize,
    name: &[u8],
    missing: &'static str,
    version: ArchiveVersion,
) -> (r: std::result::Result<(i32, usize), &'static str>)
    requires
        start <= end <= body@.len(),
        name@.len() <= 16,
        fits_address_space(body@.len() as int),
    ensures
        match spec_int_after(body@, start as int, end as int, name@, missing@, version) {
            Ok((v, o)) => r matches Ok((x, y)) && x == v && y == o,
            Err(m) => r matches Err(x) && x@ == m,
        },
{
    let pattern = int_prop_pattern(name, version);
    let found = match find_first(&body[start..end], pattern.as_slice()) {
        Some(f) => f,
        None => return Err(missing),
    };
    let offset = start + found + pattern.len();
    match read_i32(body, offset) {
        Some(v) => Ok((v, offset)),
        None => Err("truncated value"),
    }
}

/// The live game clock of a body, or the error [`game_time`] reports: the
/// first `CurrentTime` inside the `P9TimeSystem` record's content, then
/// `Date`, `Hour` and `Minute` each looked for in the 400 bytes from there
/// (cut at the record's end).
pub open spec fn spec_game_time(body: Seq<u8>, version: ArchiveVersion) -> std::result::Result<
    GameTimeModel,
    ErrorModel,
> {
    match spec_find_record(body, TIME_SYSTEM@) {
        None => Err(time_error("P9TimeSystem record not found"@)),
        Some((content_start, content_size, _)) => {
            let content_end = content_start + content_size;
            match spec_find(body.subrange(content_start, content_end), CURRENT_TIME@) {
                None => Err(time_error("CurrentTime property not found"@)),
                Some(current) => {
                    let start = content_start + current;
                    let end = if content_end < start + WINDOW {
                        content_end
                    } else {
                        start + WINDOW
                    };
                    match spec_int_after(body, start, end, DATE@, "Date property not found"@, version) {
                        Err(m) => Err(time_error(m)),
                        Ok((day, day_offset)) => match spec_int_after(
                            body,
                            start,
                            end,
                            HOUR@,
                            "Hour property not found"@,
                            version,
                        ) {
                            Err(m) => Err(time_error(m)),
                            Ok((hour, hour_offset)) => match spec_int_after(
                                body,
                                start,
                                end,
                                MINUTE@,
                                "Minute property not found"@,
                                version,
                            ) {
                                Err(m) => Err(time_error(m)),
                                Ok((minute, minute_offset)) => Ok(
                                    GameTimeModel {
                                        day: day as i32,
                                        hour: hour as i32,
                                        minute: minute as i32,
                                        day_offset,
                                        hour_offset,
                                        minute_offset,
                                    },
                                ),
                            },
                        },
                    }
                },
            }
        },
    }
}

/// Locate the live game clock.
///
/// Fails when the `P9TimeSystem` record or the `CurrentTime` fields cannot
/// be found where expected.
pub fn game_time(body: &[u8], version: ArchiveVersion) -> (r: Result<GameTime>)
    requires
        fits_address_space(body@.len() as int),
    ensures
        match spec_game_time(body@, version) {
            Ok(m) => r matches Ok(x) && x@ == m,
            Err(e) => r matches Err(x) && x@ == e,
        },
{
    let (content_start, content_size, _) = match find_record(body, &TIME_SYSTEM) {
        Some(x) => x,
        None => return Err(structure_error("P9TimeSystem record not found")),
    };
    let content_end = content_start + content_size;
    let current = match find_first(&body[content_start..content_end], &CURRENT_TIME) {
        Some(c) => c,
        None => return Err(structure_error("CurrentTime property not found")),
    };
    let start = content_start + current;
    let end = if content_end < start + WINDOW {
        content_end
    } else {
        start + WINDOW
    };
    let (day, day_offset) = match int_after(
        body,
        start,
        end,
        &DATE,
        "Date property not found",
        version,
    ) {
        Ok(x) => x,
        Err(m) => return Err(structure_error(m)),
    };
    let (hour, hour_offset) = match int_after(
        body,
        start,
        end,
        &HOUR,
        "Hour property not found",
        version,
    ) {
        Ok(x) => x,
        Err(m) => return Err(structure_error(m)),
    };
    let (minute, minute_offset) = match int_after(
        body,
        start,
        end,
        &MINUTE,
        "Minute property not found",
        version,
    ) {
        Ok(x) => x,
        Err(m) => return Err(structure_error(m)),
    };
    Ok(GameTime { day, hour, minute, day_offset, hour_offset, minute_offset })
}

/// The body after [`set_game_time`] and its outcome: the three writes in
/// order, stopping at the first that is out of bounds (earlier writes stay).
pub open spec fn spec_set_game_time(
    body: Seq<u8>,
    time: GameTimeModel,
    day: i32,
    hour: i32,
    minute: i32,
) -> (Seq<u8>, std::result::Result<(), ErrorModel>) {
    match spec_checked_write(body, time.day_offset, day as int, "i32 field"@) {
        Err(e) => (body, Err(e)),
        Ok(b1) => match spec_checked_write(b1, time.hour_offset, hour as int, "i32 field"@) {
            Err(e) => (b1, Err(e)),
            Ok(b2) => match spec_checked_write(b2, time.minute_offset, minute as int, "i32 field"@) {
                Err(e) => (b2, Err(e)),
                Ok(b3) => (b3, Ok(())),
            },
        },
    }
}

/// Overwrite the clock in place.
///
/// Fails with `OutOfBounds` when a recorded offset does not fit the
/// supplied body; the fields written before it keep their new values.
pub fn set_game_time(body: &mut [u8], time: &GameTime, day: i32, hour: i32, minute: i32) -> (r:
    Result<()>)
    ensures
        final(body)@ == spec_set_game_time(old(body)@, time@, day, hour, minute).0,
        match spec_set_game_time(old(body)@, time@, day, hour, minute).1 {
            Ok(()) => r is Ok,
            Err(e) => r matches Err(x) && x@ == e,
        },
        final(body)@.len() == old(body)@.len(),
{
    match write_i32(body, time.day_offset, day) {
        Ok(()) => {},
        Err(e) => return Err(e),
    }
    match write_i32(body, time.hour_offset, hour) {
        Ok(()) => {},
        Err(e) => return Err(e),
    }
    write_i32(body, time.minute_offset, minute)
}

} // verus!
