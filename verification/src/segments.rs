//! The music segment plan: where the music is cut, one segment for the
//! intro, one for each group and one for what remains, and the file that
//! each segment goes to.

use vstd::prelude::*;
use vstd::string::StringExecFns;
use vstd::set_lib::lemma_map_size;
use vstd::relations::injective_on;
use std::collections::BTreeSet;
use crate::model::CsvRecord;
use crate::model::RecordView;
use crate::model::rows;
use crate::model::texts;
use crate::groups::has_position;
use crate::groups::positions;
use crate::numeral::decimal;
use crate::numeral::decimal_string;

verus! {

/// A segment of the music and the file it is written to.
#[derive(Clone, Debug, PartialEq, Eq)]
pub struct SegmentMapping {
    /// The name of the segment's stream in the filter graph.
    pub label: String,
    /// The path of the segment's file.
    pub path: String,
}

/// A mapping as a mathematical value.
pub struct SegmentMappingView {
    pub label: Seq<char>,
    pub path: Seq<char>,
}

impl View for SegmentMapping {
    type V = SegmentMappingView;

    open spec fn view(&self) -> SegmentMappingView {
        SegmentMappingView { label: self.label@, path: self.path@ }
    }
}

/// How the music is cut and where the segments go.
#[derive(Clone, Debug, PartialEq, Eq)]
pub struct SegmentPlan {
    /// The filter graph that cuts the music.
    pub filter: String,
    /// The segments in their order, each with its file.
    pub mappings: Vec<SegmentMapping>,
}

/// A plan as a mathematical value.
pub struct SegmentPlanView {
    pub filter: Seq<char>,
    pub mappings: Seq<SegmentMappingView>,
}

impl View for SegmentPlan {
    type V = SegmentPlanView;

    open spec fn view(&self) -> SegmentPlanView {
        SegmentPlanView {
            filter: self.filter@,
            mappings: self.mappings@.map_values(|m: SegmentMapping| m@),
        }
    }
}

/// The second of cut `k`: the intro, then one interval for each group.
pub open spec fn cut_time(intro: nat, interval: nat, k: nat) -> nat {
    intro + interval * k
}

/// The cuts after the first, each written after a bar: `|c1|c2` and so on
/// up to cut `cuts`.
pub open spec fn later_cuts(intro: nat, interval: nat, cuts: nat) -> Seq<char>
    decreases cuts,
{
    if cuts == 0 {
        Seq::empty()
    } else {
        later_cuts(intro, interval, (cuts - 1) as nat) + seq!['|'] + decimal(
            cut_time(intro, interval, cuts),
        )
    }
}

/// The name of stream `index` in the filter graph: the number in brackets.
pub open spec fn stream_label(index: nat) -> Seq<char> {
    seq!['['] + decimal(index) + seq![']']
}

/// The names of the first `count` streams, one after the other.
pub open spec fn stream_labels(count: nat) -> Seq<char>
    decreases count,
{
    if count == 0 {
        Seq::empty()
    } else {
        stream_labels((count - 1) as nat) + stream_label((count - 1) as nat)
    }
}

/// The filter graph for a roster of `groups` groups: the segment filter with
/// its `groups + 1` cuts, and the names of its `groups + 2` streams.
pub open spec fn spec_filter(intro: nat, interval: nat, groups: nat) -> Seq<char> {
    "asegment=timestamps="@ + decimal(intro) + later_cuts(intro, interval, groups) + stream_labels(
        groups + 2,
    )
}

/// The file of segment `index` in a directory.
pub open spec fn segment_path(directory: Seq<char>, index: nat) -> Seq<char> {
    directory + seq!['/'] + decimal(index) + ".ogg"@
}

/// The mapping of segment `index`.
pub open spec fn spec_mapping(directory: Seq<char>, index: nat) -> SegmentMappingView {
    SegmentMappingView { label: stream_label(index), path: segment_path(directory, index) }
}

/// The plan for a roster.
pub open spec fn spec_plan(
    records: Seq<RecordView>,
    intro: nat,
    interval: nat,
    directory: Seq<char>,
) -> SegmentPlanView {
    let groups = positions(records).len();
    SegmentPlanView {
        filter: spec_filter(intro, interval, groups),
        mappings: Seq::new(groups + 2, |i: int| spec_mapping(directory, i as nat)),
    }
}

/// The numbers of a plan for `groups` groups are machine integers.
pub open spec fn cuts_fit(intro: nat, interval: nat, groups: nat) -> bool {
    groups + 2 <= usize::MAX && cut_time(intro, interval, groups) <= usize::MAX
}

/// The numbers of the plan for a roster are machine integers.
pub open spec fn segments_fit(records: Seq<RecordView>, intro: nat, interval: nat) -> bool {
    cuts_fit(intro, interval, positions(records).len())
}

/// Among the first `n` rows, some row is at `position`.
pub open spec fn seen_upto(records: Seq<RecordView>, position: int, n: int) -> bool {
    exists|k: int| 0 <= k < n && (#[trigger] records[k]).group_position == position
}

/// Counts the positions of a roster.
pub fn count_groups(records: &Vec<CsvRecord>) -> (count: usize)
    ensures
        positions(rows(records@)).finite(),
        count == positions(rows(records@)).len(),
{
    let ghost rs = rows(records@);
    let mut seen: BTreeSet<usize> = BTreeSet::new();
    let mut k: usize = 0;
    while k < records.len()
        invariant
            k <= records@.len(),
            rs == rows(records@),
            seen@.finite(),
            forall|p: usize| seen@.contains(p) <==> seen_upto(rs, p as int, k as int),
        decreases records@.len() - k,
    {
        let ghost before = seen@;
        seen.insert(records[k].group_position);
        proof {
            assert(rs[k as int].group_position == records@[k as int].group_position);
            assert forall|p: usize| seen@.contains(p) <==> seen_upto(rs, p as int, k + 1) by {
                if seen_upto(rs, p as int, k + 1) {
                    let j = choose|j: int|
                        0 <= j < k + 1 && (#[trigger] rs[j]).group_position == p as int;
                    if j < k {
                        assert(seen_upto(rs, p as int, k as int));
                    }
                }
                if before.contains(p) {
                    let j = choose|j: int| 0 <= j < k && (#[trigger] rs[j]).group_position == p as int;
                    assert(rs[j].group_position == p as int);
                }
            }
        }
        k += 1;
    }
    proof {
        let widen = |p: usize| p as int;
        assert(injective_on(widen, seen@));
        assert(seen@.map(widen) =~= positions(rs)) by {
            assert forall|q: int| seen@.map(widen).contains(q) <==> positions(rs).contains(q) by {
                if seen@.map(widen).contains(q) {
                    let p = choose|p: usize| seen@.contains(p) && widen(p) == q;
                    assert(seen_upto(rs, p as int, k as int));
                    let j = choose|j: int| 0 <= j < k && (#[trigger] rs[j]).group_position == p as int;
                    assert(has_position(rs, q));
                }
                if has_position(rs, q) {
                    let j = choose|j: int|
                        0 <= j < rs.len() && (#[trigger] rs[j]).group_position == q;
                    let p = records@[j].group_position;
                    assert(seen_upto(rs, p as int, k as int));
                    assert(seen@.contains(p) && widen(p) == q);
                }
            }
        }
        lemma_map_size(seen@, positions(rs), widen);
    }
    seen.len()
}

/// No cut lies after the last.
proof fn lemma_cut_time_rises(intro: nat, interval: nat, k: nat, last: nat)
    requires
        k <= last,
    ensures
        cut_time(intro, interval, k) <= cut_time(intro, interval, last),
{
    assert(interval * k <= interval * last) by (nonlinear_arith)
        requires
            k <= last,
    ;
}

/// The name of stream `index` in the filter graph.
pub fn stream_label_string(index: usize) -> (label: String)
    ensures
        label@ == stream_label(index as nat),
{
    let mut label = String::from_str("[");
    label.append(decimal_string(index).as_str());
    label.append("]");
    proof {
        reveal_strlit("[");
        reveal_strlit("]");
        assert(label@ =~= stream_label(index as nat));
    }
    label
}

/// The filter graph that cuts the music for `groups` groups.
pub fn segment_filter(intro: usize, interval: usize, groups: usize) -> (filter: String)
    requires
        cuts_fit(intro as nat, interval as nat, groups as nat),
    ensures
        filter@ == spec_filter(intro as nat, interval as nat, groups as nat),
{
    let ghost head = "asegment=timestamps="@ + decimal(intro as nat);
    let mut filter = String::from_str("asegment=timestamps=");
    filter.append(decimal_string(intro).as_str());
    let mut index: usize = 1;
    while index < groups + 1
        invariant
            1 <= index <= groups + 1,
            cuts_fit(intro as nat, interval as nat, groups as nat),
            filter@ == head + later_cuts(intro as nat, interval as nat, (index - 1) as nat),
        decreases groups + 1 - index,
    {
        proof {
            lemma_cut_time_rises(intro as nat, interval as nat, index as nat, groups as nat);
            assert(interval * index >= 0) by (nonlinear_arith)
                requires
                    interval >= 0,
                    index >= 0,
            ;
        }
        filter.append("|");
        filter.append(decimal_string(intro + interval * index).as_str());
        proof {
            reveal_strlit("|");
            assert(filter@ =~= head + later_cuts(intro as nat, interval as nat, index as nat));
        }
        index += 1;
    }
    let ghost cuts = filter@;
    let mut stream: usize = 0;
    while stream < groups + 2
        invariant
            stream <= groups + 2,
            groups + 2 <= usize::MAX,
            filter@ == cuts + stream_labels(stream as nat),
        decreases groups + 2 - stream,
    {
        filter.append(stream_label_string(stream).as_str());
        proof {
            assert(filter@ =~= cuts + stream_labels((stream + 1) as nat));
        }
        stream += 1;
    }
    filter
}

/// The file of segment `index` in a directory.
pub fn segment_path_string(directory: &str, index: usize) -> (path: String)
    ensures
        path@ == segment_path(directory@, index as nat),
{
    let mut path = String::from_str(directory);
    path.append("/");
    path.append(decimal_string(index).as_str());
    path.append(".ogg");
    proof {
        reveal_strlit("/");
        assert(path@ =~= segment_path(directory@, index as nat));
    }
    path
}

/// The segments of the music for `groups` groups, each with its file.
pub fn segment_mappings(directory: &str, groups: usize) -> (mappings: Vec<SegmentMapping>)
    requires
        groups + 2 <= usize::MAX,
    ensures
        mappings@.len() == groups + 2,
        forall|i: int|
            0 <= i < mappings@.len() ==> (#[trigger] mappings@[i])@ == spec_mapping(
                directory@,
                i as nat,
            ),
{
    let mut mappings: Vec<SegmentMapping> = Vec::new();
    let mut index: usize = 0;
    while index < groups + 2
        invariant
            index <= groups + 2,
            groups + 2 <= usize::MAX,
            mappings@.len() == index,
            forall|i: int|
                0 <= i < index ==> (#[trigger] mappings@[i])@ == spec_mapping(
                    directory@,
                    i as nat,
                ),
        decreases groups + 2 - index,
    {
        mappings.push(
            SegmentMapping {
                label: stream_label_string(index),
                path: segment_path_string(directory, index),
            },
        );
        index += 1;
    }
    mappings
}

/// Tells whether the numbers of the plan for a roster are machine integers.
pub fn check_segments(records: &Vec<CsvRecord>, intro: usize, interval: usize) -> (fits: bool)
    ensures
        fits == segments_fit(rows(records@), intro as nat, interval as nat),
{
    let groups = count_groups(records);
    if groups.checked_add(2).is_none() {
        return false;
    }
    match interval.checked_mul(groups) {
        None => false,
        Some(span) => intro.checked_add(span).is_some(),
    }
}

/// Plans the segments of the music for a roster: one for the intro, one for
/// each position of the roster, and one for what remains.
pub fn plan_segments(records: &Vec<CsvRecord>, intro: usize, interval: usize, directory: &str) -> (plan:
    SegmentPlan)
    requires
        segments_fit(rows(records@), intro as nat, interval as nat),
    ensures
        plan@ == spec_plan(rows(records@), intro as nat, interval as nat, directory@),
        plan.mappings@.len() == positions(rows(records@)).len() + 2,
{
    let groups = count_groups(records);
    let filter = segment_filter(intro, interval, groups);
    let mappings = segment_mappings(directory, groups);
    let plan = SegmentPlan { filter, mappings };
    proof {
        assert(plan@.mappings =~= spec_plan(
            rows(records@),
            intro as nat,
            interval as nat,
            directory@,
        ).mappings);
    }
    plan
}

/// The arguments that map the first `count` segments: for each, `-map`, the
/// segment's stream and its file.
pub open spec fn mapping_arguments(mappings: Seq<SegmentMappingView>, count: nat) -> Seq<Seq<char>>
    decreases count,
{
    if count == 0 {
        Seq::empty()
    } else {
        let mapping = mappings[count - 1];
        mapping_arguments(mappings, (count - 1) as nat) + seq!["-map"@, mapping.label, mapping.path]
    }
}

/// The arguments of the cutting tool for a plan: the music as input, the
/// filter graph, and the mapping of every segment.
pub open spec fn spec_arguments(plan: SegmentPlanView, music: Seq<char>) -> Seq<Seq<char>> {
    seq!["-hide_banner"@, "-i"@, music, "-filter_complex"@, plan.filter] + mapping_arguments(
        plan.mappings,
        plan.mappings.len(),
    )
}

/// The arguments of the cutting tool for a plan.
pub fn ffmpeg_arguments(plan: &SegmentPlan, music: &str) -> (arguments: Vec<String>)
    ensures
        texts(arguments@) == spec_arguments(plan@, music@),
        arguments@.len() == 5 + 3 * plan.mappings@.len(),
{
    let mut arguments: Vec<String> = Vec::new();
    arguments.push(String::from_str("-hide_banner"));
    arguments.push(String::from_str("-i"));
    arguments.push(String::from_str(music));
    arguments.push(String::from_str("-filter_complex"));
    arguments.push(plan.filter.clone());
    let ghost head = texts(arguments@);
    assert(head =~= seq!["-hide_banner"@, "-i"@, music@, "-filter_complex"@, plan@.filter]);
    let mut index: usize = 0;
    while index < plan.mappings.len()
        invariant
            index <= plan.mappings@.len(),
            arguments@.len() == 5 + 3 * index,
            texts(arguments@) == head + mapping_arguments(plan@.mappings, index as nat),
        decreases plan.mappings@.len() - index,
    {
        let mapping = &plan.mappings[index];
        let ghost before = texts(arguments@);
        arguments.push(String::from_str("-map"));
        arguments.push(mapping.label.clone());
        arguments.push(mapping.path.clone());
        proof {
            assert(plan@.mappings[index as int] == mapping@);
            assert(texts(arguments@) =~= before + seq!["-map"@, mapping@.label, mapping@.path]);
            assert(texts(arguments@) =~= head + mapping_arguments(
                plan@.mappings,
                (index + 1) as nat,
            ));
        }
        index += 1;
    }
    arguments
}

/// A plan has two segments more than the roster has positions.
pub proof fn lemma_segment_count(
    records: Seq<RecordView>,
    intro: nat,
    interval: nat,
    directory: Seq<char>,
)
    ensures
        spec_plan(records, intro, interval, directory).mappings.len() == positions(records).len()
            + 2,
{
}

} // verus!
