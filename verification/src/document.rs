//! The emitted document as a whole, and what holds of every document.

use vstd::prelude::*;
use vstd::seq_lib::seq_to_set_is_finite;
use crate::model::CsvRecord;
use crate::model::RecordView;
use crate::model::Output;
use crate::model::OutputView;
use crate::model::OutputGroupView;
use crate::model::MemberView;
use crate::model::OutputTime;
use crate::model::rows;
use crate::model::texts;
use crate::groups::has_position;
use crate::groups::positions;
use crate::groups::rows_at;
use crate::groups::member_of_row;
use crate::groups::spec_profile_index;
use crate::groups::lemma_rows_upto;
use crate::listing::is_group_listing;
use crate::listing::lists_position;
use crate::listing::SortKey;
use crate::listing::spec_sort_key;
use crate::listing::listed_before;
use crate::listing::output_group_at;
use crate::listing::output_groups;
use crate::profiles::is_profile_list;
use crate::profiles::lemma_profile_list_unique;
use crate::profiles::profile_column;
use crate::profiles::distinct_profiles;
use crate::schedule::OutputError;
use crate::schedule::schedule_fits;
use crate::schedule::spec_output_time;
use crate::schedule::output_time;
use crate::schedule::lemma_window;
use crate::text::text_lt;
use crate::text::text_le;
use crate::text::lemma_text_lt_asymmetric;
use crate::text::lemma_text_lt_irreflexive;

verus! {

/// `out` is the document of `records` under the given settings.
pub open spec fn is_output(
    out: OutputView,
    records: Seq<RecordView>,
    intro: usize,
    interval: usize,
    year: usize,
    with_time: bool,
    with_music: bool,
    music_duration: Option<usize>,
) -> bool {
    &&& is_profile_list(out.profiles, records)
    &&& is_group_listing(
        out.groups,
        records,
        out.profiles,
        intro as int,
        interval as int,
        with_time,
    )
    &&& Ok::<Option<OutputTime>, OutputError>(out.time) == spec_output_time(
        with_time,
        intro,
        interval,
        music_duration,
    )
    &&& out.with_music == with_music
    &&& out.year == year
}

/// Makes the document of a roster. Where times are asked for, the length of
/// the music must be given.
pub fn build_output(
    records: &Vec<CsvRecord>,
    intro: usize,
    interval: usize,
    year: usize,
    with_time: bool,
    with_music: bool,
    music_duration: Option<usize>,
) -> (made: Result<Output, OutputError>)
    requires
        with_time ==> schedule_fits(rows(records@), intro as int, interval as int),
    ensures
        made is Err <==> with_time && music_duration is None,
        made matches Err(e) ==> e == OutputError::MissingMusicInfo,
        made matches Ok(out) ==> is_output(
            out@,
            rows(records@),
            intro,
            interval,
            year,
            with_time,
            with_music,
            music_duration,
        ),
{
    let profiles = distinct_profiles(records);
    proof {
        let labels = profile_column(rows(records@));
        assert forall|k: int| 0 <= k < records@.len() implies texts(profiles@).contains(
            (#[trigger] records@[k])@.profile,
        ) by {
            assert(labels[k] == records@[k]@.profile);
            assert(labels.contains(labels[k]));
        }
    }
    let groups = output_groups(records, &profiles, intro, interval, with_time);
    match output_time(with_time, intro, interval, music_duration) {
        Err(e) => Err(e),
        Ok(time) => Ok(Output { groups, profiles, time, with_music, year }),
    }
}

/// In a strictly rising list each label has its own place as its index.
pub proof fn lemma_index_in_rising_list(profiles: Seq<Seq<char>>, x: int)
    requires
        forall|i: int, j: int|
            0 <= i < j < profiles.len() ==> text_lt(#[trigger] profiles[i], #[trigger] profiles[j]),
        0 <= x < profiles.len(),
    ensures
        spec_profile_index(profiles, profiles[x]) == x,
{
    let label = profiles[x];
    assert(profiles.contains(label));
    profiles.index_of_first_ensures(label);
    let first = profiles.index_of_first(label)->0;
    lemma_text_lt_irreflexive(label);
    if first < x {
        assert(text_lt(profiles[first], profiles[x]));
    } else if first > x {
        assert(text_lt(profiles[x], profiles[first]));
    }
}

/// `member` is a member of one of `groups`.
pub open spec fn lists_member(groups: Seq<OutputGroupView>, member: MemberView) -> bool {
    exists|i: int, j: int|
        0 <= i < groups.len() && 0 <= j < groups[i].members.len() && #[trigger] groups[i].members[j]
            == member
}

/// Some member of `groups` has the profile index `x`.
pub open spec fn uses_profile(groups: Seq<OutputGroupView>, x: int) -> bool {
    exists|i: int, j: int|
        0 <= i < groups.len() && 0 <= j < groups[i].members.len() && (
        #[trigger] groups[i].members[j]).profile == x
}

/// The members of a document are the rows of the roster: each row is a
/// member of exactly the group at its position, under its row number.
pub proof fn lemma_rows_are_members(
    groups: Seq<OutputGroupView>,
    records: Seq<RecordView>,
    profiles: Seq<Seq<char>>,
    intro: int,
    interval: int,
    with_time: bool,
)
    requires
        is_group_listing(groups, records, profiles, intro, interval, with_time),
    ensures
        forall|i: int, j: int|
            0 <= i < groups.len() && 0 <= j < groups[i].members.len() ==> {
                let member = #[trigger] groups[i].members[j];
                &&& 0 <= member.id < records.len()
                &&& records[member.id].group_position == groups[i].position
                &&& member == member_of_row(records, profiles, member.id)
            },
        forall|k: int|
            0 <= k < records.len() ==> lists_member(
                groups,
                #[trigger] member_of_row(records, profiles, k),
            ),
{
    assert forall|i: int, j: int|
        0 <= i < groups.len() && 0 <= j < groups[i].members.len() implies {
        let member = #[trigger] groups[i].members[j];
        &&& 0 <= member.id < records.len()
        &&& records[member.id].group_position == groups[i].position
        &&& member == member_of_row(records, profiles, member.id)
    } by {
        let position = groups[i].position;
        lemma_rows_upto(records, position, records.len() as int);
        let at = rows_at(records, position);
        assert(groups[i].members[j] == member_of_row(records, profiles, at[j]));
    }
    assert forall|k: int| 0 <= k < records.len() implies lists_member(
        groups,
        #[trigger] member_of_row(records, profiles, k),
    ) by {
        let position = records[k].group_position;
        assert(has_position(records, position));
        assert(lists_position(groups, position));
        let i = choose|i: int| 0 <= i < groups.len() && (#[trigger] groups[i]).position == position;
        lemma_rows_upto(records, position, records.len() as int);
        let at = rows_at(records, position);
        assert(at.contains(k));
        let j = choose|j: int| 0 <= j < at.len() && at[j] == k;
        assert(groups[i].members[j] == member_of_row(records, profiles, k));
    }
}

/// The profile indices of a document are the indices of its profile list:
/// every member's index is the place of its row's label in the list, every
/// place of the list is the index of some member, and the list rises strictly
/// in the order of strings, so that a smaller index means an earlier label.
pub proof fn lemma_profile_indices(
    out: OutputView,
    records: Seq<RecordView>,
    intro: int,
    interval: int,
    with_time: bool,
)
    requires
        is_profile_list(out.profiles, records),
        is_group_listing(out.groups, records, out.profiles, intro, interval, with_time),
    ensures
        forall|i: int, j: int|
            0 <= i < out.groups.len() && 0 <= j < out.groups[i].members.len() ==> {
                let member = #[trigger] out.groups[i].members[j];
                &&& 0 <= member.profile < out.profiles.len()
                &&& out.profiles[member.profile] == records[member.id].profile
            },
        forall|x: int| 0 <= x < out.profiles.len() ==> #[trigger] uses_profile(out.groups, x),
        forall|x: int, y: int|
            0 <= x < out.profiles.len() && 0 <= y < out.profiles.len() ==> (x < y <==> text_lt(
                #[trigger] out.profiles[x],
                #[trigger] out.profiles[y],
            )),
{
    let profiles = out.profiles;
    let groups = out.groups;
    let labels = profile_column(records);
    lemma_rows_are_members(groups, records, profiles, intro, interval, with_time);
    assert forall|i: int, j: int|
        0 <= i < groups.len() && 0 <= j < groups[i].members.len() implies {
        let member = #[trigger] groups[i].members[j];
        &&& 0 <= member.profile < profiles.len()
        &&& profiles[member.profile] == records[member.id].profile
    } by {
        let member = groups[i].members[j];
        let label = records[member.id].profile;
        assert(labels[member.id] == label);
        assert(labels.contains(label));
        assert(profiles.contains(label));
        profiles.index_of_first_ensures(label);
    }
    assert forall|x: int| 0 <= x < profiles.len() implies #[trigger] uses_profile(groups, x) by {
        assert(profiles.contains(profiles[x]));
        assert(labels.contains(profiles[x]));
        let k = choose|k: int| 0 <= k < labels.len() && labels[k] == profiles[x];
        assert(records[k].profile == profiles[x]);
        lemma_index_in_rising_list(profiles, x);
        assert(lists_member(groups, member_of_row(records, profiles, k)));
        let (i, j) = choose|i: int, j: int|
            0 <= i < groups.len() && 0 <= j < groups[i].members.len() && #[trigger] groups[i].members[j]
                == member_of_row(records, profiles, k);
        assert(groups[i].members[j].profile == x);
    }
    assert forall|x: int, y: int| 0 <= x < profiles.len() && 0 <= y < profiles.len() implies (x < y
        <==> text_lt(#[trigger] profiles[x], #[trigger] profiles[y])) by {
        if x == y {
            lemma_text_lt_irreflexive(profiles[x]);
        } else if y < x {
            assert(text_lt(profiles[y], profiles[x]));
            lemma_text_lt_asymmetric(profiles[y], profiles[x]);
        }
    }
}

/// Every time window of a document lasts one interval, and opens when the
/// intro and one interval for each earlier position have passed.
pub proof fn lemma_time_windows(
    groups: Seq<OutputGroupView>,
    records: Seq<RecordView>,
    profiles: Seq<Seq<char>>,
    intro: int,
    interval: int,
    with_time: bool,
)
    requires
        is_group_listing(groups, records, profiles, intro, interval, with_time),
    ensures
        forall|i: int|
            0 <= i < groups.len() ==> {
                let group = #[trigger] groups[i];
                &&& group.time_interval is Some <==> with_time
                &&& group.time_interval matches Some(time) ==> {
                    &&& time.position == group.position
                    &&& time.start == (group.position - 1) * interval + intro
                    &&& time.end == group.position * interval + intro
                    &&& time.end - time.start == interval
                }
            },
{
    assert forall|i: int| 0 <= i < groups.len() implies {
        let group = #[trigger] groups[i];
        &&& group.time_interval is Some <==> with_time
        &&& group.time_interval matches Some(time) ==> {
            &&& time.position == group.position
            &&& time.start == (group.position - 1) * interval + intro
            &&& time.end == group.position * interval + intro
            &&& time.end - time.start == interval
        }
    } by {
        lemma_window(groups[i].position, intro, interval);
    }
}

/// A document with times lists its groups by strictly rising position; one
/// without times lists them by name, no name before an earlier one.
pub proof fn lemma_listing_order(
    groups: Seq<OutputGroupView>,
    records: Seq<RecordView>,
    profiles: Seq<Seq<char>>,
    intro: int,
    interval: int,
    with_time: bool,
)
    requires
        is_group_listing(groups, records, profiles, intro, interval, with_time),
    ensures
        with_time ==> forall|i: int, j: int|
            0 <= i < j < groups.len() ==> (#[trigger] groups[i]).position < (
            #[trigger] groups[j]).position,
        !with_time ==> forall|i: int, j: int|
            0 <= i < j < groups.len() ==> text_le(
                (#[trigger] groups[i]).name,
                (#[trigger] groups[j]).name,
            ),
        forall|i: int, j: int|
            0 <= i < j < groups.len() ==> (#[trigger] groups[i]).position != (
            #[trigger] groups[j]).position,
{
    assert forall|i: int, j: int| 0 <= i < j < groups.len() implies (#[trigger] groups[i]).position
        != (#[trigger] groups[j]).position by {
        if groups[i].position == groups[j].position {
            assert(groups[i] == groups[j]);
            lemma_text_lt_irreflexive(groups[i].name);
        }
    }
    if !with_time {
        assert forall|i: int, j: int| 0 <= i < j < groups.len() implies text_le(
            (#[trigger] groups[i]).name,
            (#[trigger] groups[j]).name,
        ) by {
            if text_lt(groups[i].name, groups[j].name) {
                lemma_text_lt_asymmetric(groups[i].name, groups[j].name);
            }
        }
    }
}

/// A document has as many groups as its roster has positions.
pub proof fn lemma_group_count(
    groups: Seq<OutputGroupView>,
    records: Seq<RecordView>,
    profiles: Seq<Seq<char>>,
    intro: int,
    interval: int,
    with_time: bool,
)
    requires
        is_group_listing(groups, records, profiles, intro, interval, with_time),
    ensures
        positions(records).finite(),
        groups.len() == positions(records).len(),
{
    let listed = groups.map_values(|g: OutputGroupView| g.position);
    lemma_listing_order(groups, records, profiles, intro, interval, with_time);
    assert(listed.no_duplicates()) by {
        assert forall|i: int, j: int|
            0 <= i < listed.len() && 0 <= j < listed.len() && i != j implies listed[i]
            != listed[j] by {
            if i < j {
                assert(groups[i].position != groups[j].position);
            } else {
                assert(groups[j].position != groups[i].position);
            }
        }
    }
    assert(listed.to_set() =~= positions(records)) by {
        assert forall|p: int| listed.to_set().contains(p) <==> positions(records).contains(
            p,
        ) by {
            if listed.contains(p) {
                let i = choose|i: int| 0 <= i < listed.len() && listed[i] == p;
                assert(has_position(records, groups[i].position));
            }
            if has_position(records, p) {
                assert(lists_position(groups, p));
                let i = choose|i: int| 0 <= i < groups.len() && (#[trigger] groups[i]).position == p;
                assert(listed[i] == p);
            }
        }
    }
    listed.unique_seq_to_set();
    seq_to_set_is_finite(listed);
}

/// No two groups stand before each other.
proof fn lemma_listed_before_asymmetric(key: SortKey, a: OutputGroupView, b: OutputGroupView)
    requires
        listed_before(key, a, b),
    ensures
        !listed_before(key, b, a),
{
    if key == SortKey::ByName && text_lt(a.name, b.name) {
        lemma_text_lt_asymmetric(a.name, b.name);
    }
}

/// Two sequences of groups in which each group is told by its position, each
/// group stands before those that follow it, and the same positions occur,
/// are equal.
proof fn lemma_same_listing(
    a: Seq<OutputGroupView>,
    b: Seq<OutputGroupView>,
    key: SortKey,
    at: spec_fn(int) -> OutputGroupView,
)
    requires
        forall|i: int| 0 <= i < a.len() ==> (#[trigger] a[i]) == at(a[i].position),
        forall|i: int| 0 <= i < b.len() ==> (#[trigger] b[i]) == at(b[i].position),
        forall|i: int, j: int|
            0 <= i < j < a.len() ==> listed_before(key, #[trigger] a[i], #[trigger] a[j]),
        forall|i: int, j: int|
            0 <= i < j < b.len() ==> listed_before(key, #[trigger] b[i], #[trigger] b[j]),
        forall|p: int| lists_position(a, p) <==> lists_position(b, p),
    ensures
        a == b,
    decreases a.len(),
{
    if a.len() == 0 {
        if b.len() > 0 {
            assert(lists_position(b, b[0].position));
        }
        assert(a =~= b);
    } else if b.len() == 0 {
        assert(lists_position(a, a[0].position));
    } else {
        let x = a.last();
        let y = b.last();
        assert(lists_position(a, x.position));
        assert(lists_position(b, y.position));
        let i = choose|i: int| 0 <= i < b.len() && (#[trigger] b[i]).position == x.position;
        let j = choose|j: int| 0 <= j < a.len() && (#[trigger] a[j]).position == y.position;
        assert(b[i] == x);
        assert(a[j] == y);
        if x != y {
            assert(listed_before(key, b[i], b[b.len() - 1]));
            assert(listed_before(key, a[j], a[a.len() - 1]));
            lemma_listed_before_asymmetric(key, x, y);
        }
        let a0 = a.drop_last();
        let b0 = b.drop_last();
        assert forall|p: int| lists_position(a0, p) <==> lists_position(b0, p) by {
            if lists_position(a0, p) {
                let k = choose|k: int| 0 <= k < a0.len() && (#[trigger] a0[k]).position == p;
                assert(a[k].position == p);
                assert(listed_before(key, a[k], a[a.len() - 1]));
                assert(lists_position(a, p));
                let m = choose|m: int| 0 <= m < b.len() && (#[trigger] b[m]).position == p;
                if m == b.len() - 1 {
                    assert(a[k] == x);
                    lemma_listed_before_asymmetric(key, x, x);
                }
                assert(b0[m].position == p);
            }
            if lists_position(b0, p) {
                let k = choose|k: int| 0 <= k < b0.len() && (#[trigger] b0[k]).position == p;
                assert(b[k].position == p);
                assert(listed_before(key, b[k], b[b.len() - 1]));
                assert(lists_position(b, p));
                let m = choose|m: int| 0 <= m < a.len() && (#[trigger] a[m]).position == p;
                if m == a.len() - 1 {
                    assert(b[k] == y);
                    lemma_listed_before_asymmetric(key, y, y);
                }
                assert(a0[m].position == p);
            }
        }
        assert forall|i: int, j: int| 0 <= i < j < a0.len() implies listed_before(
            key,
            #[trigger] a0[i],
            #[trigger] a0[j],
        ) by {
            assert(listed_before(key, a[i], a[j]));
        }
        assert forall|i: int, j: int| 0 <= i < j < b0.len() implies listed_before(
            key,
            #[trigger] b0[i],
            #[trigger] b0[j],
        ) by {
            assert(listed_before(key, b[i], b[j]));
        }
        assert forall|i: int| 0 <= i < a0.len() implies (#[trigger] a0[i]) == at(
            a0[i].position,
        ) by {
            assert(a0[i] == a[i]);
        }
        assert forall|i: int| 0 <= i < b0.len() implies (#[trigger] b0[i]) == at(
            b0[i].position,
        ) by {
            assert(b0[i] == b[i]);
        }
        lemma_same_listing(a0, b0, key, at);
        assert(a =~= a0.push(x));
        assert(b =~= b0.push(y));
    }
}

/// A roster has one listing under given settings.
pub proof fn lemma_listing_unique(
    a: Seq<OutputGroupView>,
    b: Seq<OutputGroupView>,
    records: Seq<RecordView>,
    profiles: Seq<Seq<char>>,
    intro: int,
    interval: int,
    with_time: bool,
)
    requires
        is_group_listing(a, records, profiles, intro, interval, with_time),
        is_group_listing(b, records, profiles, intro, interval, with_time),
    ensures
        a == b,
{
    let at = |p: int| output_group_at(records, profiles, p, intro, interval, with_time);
    assert forall|p: int| lists_position(a, p) <==> lists_position(b, p) by {
        if lists_position(a, p) {
            let i = choose|i: int| 0 <= i < a.len() && (#[trigger] a[i]).position == p;
            assert(has_position(records, a[i].position));
        }
        if lists_position(b, p) {
            let i = choose|i: int| 0 <= i < b.len() && (#[trigger] b[i]).position == p;
            assert(has_position(records, b[i].position));
        }
    }
    lemma_same_listing(a, b, spec_sort_key(with_time), at);
}

/// A roster has one document under given settings.
pub proof fn lemma_output_unique(
    a: OutputView,
    b: OutputView,
    records: Seq<RecordView>,
    intro: usize,
    interval: usize,
    year: usize,
    with_time: bool,
    with_music: bool,
    music_duration: Option<usize>,
)
    requires
        is_output(a, records, intro, interval, year, with_time, with_music, music_duration),
        is_output(b, records, intro, interval, year, with_time, with_music, music_duration),
    ensures
        a == b,
{
    lemma_profile_list_unique(a.profiles, b.profiles, records);
    lemma_listing_unique(
        a.groups,
        b.groups,
        records,
        a.profiles,
        intro as int,
        interval as int,
        with_time,
    );
}

} // verus!
