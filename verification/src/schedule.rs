//! Scheduling arithmetic: the time window of each group within the music,
//! and the timing block of the emitted document.

use vstd::prelude::*;
use crate::model::CsvRecord;
use crate::model::RecordView;
use crate::model::OutputGroupTime;
use crate::model::OutputGroupTimeView;
use crate::model::OutputTime;
use crate::model::rows;

verus! {

/// The second at which the window of the group at `position` opens.
pub open spec fn window_start(position: int, intro: int, interval: int) -> int {
    (position - 1) * interval + intro
}

/// The second at which the window of the group at `position` closes.
pub open spec fn window_end(position: int, intro: int, interval: int) -> int {
    position * interval + intro
}

/// The time window of the group at `position`.
pub open spec fn spec_group_time(position: int, intro: int, interval: int) -> OutputGroupTimeView {
    OutputGroupTimeView {
        position,
        start: window_start(position, intro, interval),
        end: window_end(position, intro, interval),
    }
}

/// The window of a position can be computed: positions count from one, and
/// the end of the window is a machine integer.
pub open spec fn window_fits(position: int, intro: int, interval: int) -> bool {
    1 <= position && window_end(position, intro, interval) <= usize::MAX
}

/// The window of every row's group can be computed.
pub open spec fn schedule_fits(records: Seq<RecordView>, intro: int, interval: int) -> bool {
    forall|k: int|
        0 <= k < records.len() ==> window_fits(
            (#[trigger] records[k]).group_position,
            intro,
            interval,
        )
}

/// A window lasts one interval, and opens where the one before it closes.
pub proof fn lemma_window(position: int, intro: int, interval: int)
    ensures
        window_end(position, intro, interval) - window_start(position, intro, interval)
            == interval,
        window_start(position + 1, intro, interval) == window_end(position, intro, interval),
{
    assert((position - 1) * interval == position * interval - interval) by (nonlinear_arith);
}

/// The time window of the group at `position`.
pub fn group_time(position: usize, intro: usize, interval: usize) -> (time: OutputGroupTime)
    requires
        window_fits(position as int, intro as int, interval as int),
    ensures
        time@ == spec_group_time(position as int, intro as int, interval as int),
        time.end - time.start == interval,
{
    proof {
        lemma_window(position as int, intro as int, interval as int);
        assert(0 <= (position - 1) * interval) by (nonlinear_arith)
            requires
                position >= 1,
                interval >= 0,
        ;
        assert(0 <= position * interval) by (nonlinear_arith)
            requires
                position >= 1,
                interval >= 0,
        ;
    }
    OutputGroupTime {
        position,
        start: (position - 1) * interval + intro,
        end: position * interval + intro,
    }
}

/// The time window of the group at `position`, where it can be computed.
pub fn checked_group_time(position: usize, intro: usize, interval: usize) -> (time: Option<
    OutputGroupTime,
>)
    ensures
        time is Some <==> window_fits(position as int, intro as int, interval as int),
        time matches Some(t) ==> t@ == spec_group_time(
            position as int,
            intro as int,
            interval as int,
        ),
{
    if position == 0 {
        return None;
    }
    match position.checked_mul(interval) {
        None => None,
        Some(span) => match span.checked_add(intro) {
            None => None,
            Some(_) => Some(group_time(position, intro, interval)),
        },
    }
}

/// Tells whether the window of every row's group can be computed.
pub fn check_schedule(records: &Vec<CsvRecord>, intro: usize, interval: usize) -> (fits: bool)
    ensures
        fits == schedule_fits(rows(records@), intro as int, interval as int),
{
    let mut k: usize = 0;
    while k < records.len()
        invariant
            k <= records@.len(),
            forall|j: int|
                0 <= j < k ==> window_fits(
                    (#[trigger] rows(records@)[j]).group_position,
                    intro as int,
                    interval as int,
                ),
        decreases records@.len() - k,
    {
        if checked_group_time(records[k].group_position, intro, interval).is_none() {
            assert(!window_fits(
                rows(records@)[k as int].group_position,
                intro as int,
                interval as int,
            ));
            return false;
        }
        k += 1;
    }
    true
}

/// Why no document can be made.
#[derive(Clone, Copy, Debug, PartialEq, Eq, Structural)]
pub enum OutputError {
    /// Times were asked for, and the length of the music is not known.
    MissingMusicInfo,
}

/// The timing block of a document: none unless times are asked for, and then
/// the two constants with the length of the music, which must be known.
pub open spec fn spec_output_time(
    with_time: bool,
    intro: usize,
    interval: usize,
    music_duration: Option<usize>,
) -> Result<Option<OutputTime>, OutputError> {
    if !with_time {
        Ok(None)
    } else {
        match music_duration {
            Some(duration) => Ok(
                Some(
                    OutputTime {
                        intro_duration: intro,
                        group_interval_duration: interval,
                        music_duration: duration,
                    },
                ),
            ),
            None => Err(OutputError::MissingMusicInfo),
        }
    }
}

/// The timing block of a document.
pub fn output_time(
    with_time: bool,
    intro: usize,
    interval: usize,
    music_duration: Option<usize>,
) -> (time: Result<Option<OutputTime>, OutputError>)
    ensures
        time == spec_output_time(with_time, intro, interval, music_duration),
        time is Err <==> with_time && music_duration is None,
{
    if !with_time {
        Ok(None)
    } else {
        match music_duration {
            Some(duration) => Ok(
                Some(
                    OutputTime {
                        intro_duration: intro,
                        group_interval_duration: interval,
                        music_duration: duration,
                    },
                ),
            ),
            None => Err(OutputError::MissingMusicInfo),
        }
    }
}

} // verus!
