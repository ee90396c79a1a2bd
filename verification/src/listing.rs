//! The group listing of a document: one emitted group for each position of
//! the roster, in the order that the document asks for.

use vstd::prelude::*;
use vstd::set_lib::set_int_range;
use vstd::set_lib::lemma_int_range;
use vstd::set_lib::lemma_subset_equality;
use vstd::seq_lib::seq_to_set_is_finite;
use vstd::std_specs::btree::group_btree_axioms;
use vstd::std_specs::btree::axiom_increasing_seq_meaning;
use vstd::laws_cmp::group_laws_cmp;
use vstd::std_specs::cmp::OrdSpec;
use vstd::std_specs::iter::IteratorSpec;
use std::collections::BTreeMap;
use core::cmp::Ordering;
use itertools::Itertools;
use crate::model::CsvRecord;
use crate::model::RecordView;
use crate::model::Group;
use crate::model::OutputGroup;
use crate::model::OutputGroupView;
use crate::model::rows;
use crate::model::texts;
use crate::model::group_views;
use crate::groups::has_position;
use crate::groups::group_at;
use crate::groups::group_records;
use crate::schedule::spec_group_time;
use crate::schedule::schedule_fits;
use crate::schedule::group_time;
use crate::text::Rank;
use crate::text::text_lt;
use crate::text::compare_text;

verus! {

/// What decides the order of a listing.
#[derive(Clone, Copy, Debug, PartialEq, Eq, Structural)]
pub enum SortKey {
    ByName,
    ByPosition,
}

/// The key that a document is listed by: positions where it carries times,
/// names where it does not.
pub open spec fn spec_sort_key(with_time: bool) -> SortKey {
    if with_time {
        SortKey::ByPosition
    } else {
        SortKey::ByName
    }
}

/// The key that a document is listed by.
pub fn sort_key(with_time: bool) -> (key: SortKey)
    ensures
        key == spec_sort_key(with_time),
{
    if with_time {
        SortKey::ByPosition
    } else {
        SortKey::ByName
    }
}

/// `a` comes strictly before `b` by the key alone.
pub open spec fn key_before(key: SortKey, a: OutputGroupView, b: OutputGroupView) -> bool {
    match key {
        SortKey::ByName => text_lt(a.name, b.name),
        SortKey::ByPosition => a.position < b.position,
    }
}

/// `a` stands before `b` in a listing: by the key, and by position where the
/// key does not tell them apart.
pub open spec fn listed_before(key: SortKey, a: OutputGroupView, b: OutputGroupView) -> bool {
    key_before(key, a, b) || (!key_before(key, b, a) && a.position < b.position)
}

/// The emitted group at `position`.
pub open spec fn output_group_at(
    records: Seq<RecordView>,
    profiles: Seq<Seq<char>>,
    position: int,
    intro: int,
    interval: int,
    with_time: bool,
) -> OutputGroupView {
    let group = group_at(records, profiles, position);
    OutputGroupView {
        position,
        name: group.name,
        location: group.location,
        link: group.link,
        time_interval: if with_time {
            Some(spec_group_time(position, intro, interval))
        } else {
            None
        },
        members: group.members,
    }
}

/// One of `groups` is at `position`.
pub open spec fn lists_position(groups: Seq<OutputGroupView>, position: int) -> bool {
    exists|i: int| 0 <= i < groups.len() && (#[trigger] groups[i]).position == position
}

/// `groups` is the listing of `records`: each of its groups is the emitted
/// group of a position of the roster, every position of the roster has its
/// group, and each group stands before those that follow it.
pub open spec fn is_group_listing(
    groups: Seq<OutputGroupView>,
    records: Seq<RecordView>,
    profiles: Seq<Seq<char>>,
    intro: int,
    interval: int,
    with_time: bool,
) -> bool {
    &&& forall|i: int|
        0 <= i < groups.len() ==> {
            &&& has_position(records, (#[trigger] groups[i]).position)
            &&& groups[i] == output_group_at(
                records,
                profiles,
                groups[i].position,
                intro,
                interval,
                with_time,
            )
        }
    &&& forall|p: int| has_position(records, p) ==> #[trigger] lists_position(groups, p)
    &&& forall|i: int, j: int|
        0 <= i < j < groups.len() ==> listed_before(
            spec_sort_key(with_time),
            #[trigger] groups[i],
            #[trigger] groups[j],
        )
}

/// The keys of a map of groups, rising.
fn ascending_keys(map: &BTreeMap<usize, Group>) -> (keys: Vec<usize>)
    ensures
        forall|p: usize| keys@.contains(p) <==> map@.contains_key(p),
        forall|i: int, j: int| 0 <= i < j < keys@.len() ==> keys@[i] < keys@[j],
{
    broadcast use group_btree_axioms, group_laws_cmp;

    let mut keys: Vec<usize> = Vec::new();
    let walk = map.keys();
    for key in it: walk
        invariant
            keys@.len() == it.index(),
            forall|i: int| 0 <= i < it.index() ==> keys@[i] == *it.seq()[i],
            it.seq() == map.keys().remaining(),
    {
        keys.push(*key);
    }
    proof {
        let s = map.keys().remaining();
        assert(keys@ =~= s.unref());
        axiom_increasing_seq_meaning::<&usize>(s);
        assert forall|i: int, j: int| 0 <= i < j < keys@.len() implies keys@[i] < keys@[j] by {
            assert(OrdSpec::cmp_spec(&s[i], &s[j]) is Less);
        }
        assert(keys@.to_set() == map@.dom());
        assert forall|p: usize| keys@.contains(p) <==> map@.contains_key(p) by {
            assert(keys@.to_set().contains(p) <==> map@.dom().contains(p));
        }
    }
    keys
}

/// Compares two emitted groups by a key.
pub fn compare_groups(key: SortKey, a: &OutputGroup, b: &OutputGroup) -> (order: Ordering)
    ensures
        order is Less <==> key_before(key, a@, b@),
        order is Greater <==> key_before(key, b@, a@),
{
    match key {
        SortKey::ByName => match compare_text(a.name.as_str(), b.name.as_str()) {
            Rank::Before => Ordering::Less,
            Rank::Same => Ordering::Equal,
            Rank::After => Ordering::Greater,
        },
        SortKey::ByPosition => {
            if a.position < b.position {
                Ordering::Less
            } else if a.position > b.position {
                Ordering::Greater
            } else {
                Ordering::Equal
            }
        },
    }
}

/// `order` carries `from` over into `to`: place `i` of `to` holds what place
/// `order[i]` of `from` held, and no place of `from` is taken twice.
pub open spec fn arranges(order: Seq<int>, from: Seq<OutputGroup>, to: Seq<OutputGroup>) -> bool {
    &&& order.len() == from.len()
    &&& to.len() == from.len()
    &&& forall|i: int|
        0 <= i < order.len() ==> 0 <= #[trigger] order[i] < from.len() && to[i] == from[order[i]]
    &&& forall|i: int, j: int|
        0 <= i < j < order.len() ==> #[trigger] order[i] != #[trigger] order[j]
}

/// `order` carries `from` over into `to` as a stable sort by the key does:
/// `to` is sorted, and what the key does not tell apart keeps its old order.
pub open spec fn sorts_stably(
    order: Seq<int>,
    from: Seq<OutputGroup>,
    to: Seq<OutputGroup>,
    key: SortKey,
) -> bool {
    &&& arranges(order, from, to)
    &&& forall|i: int, j: int|
        0 <= i < j < to.len() ==> {
            &&& !key_before(key, (#[trigger] to[j])@, (#[trigger] to[i])@)
            &&& !key_before(key, to[i]@, to[j]@) ==> order[i] < order[j]
        }
}

/// `Itertools::sorted_by` on emitted groups, compared with
/// `compare_groups` and collected: the same groups, sorted by the key, and
/// those that the key does not tell apart in the order they came in.
#[verifier::external_body]
fn sort_groups(groups: Vec<OutputGroup>, key: SortKey) -> (sorted: Vec<OutputGroup>)
    ensures
        exists|order: Seq<int>| sorts_stably(order, groups@, sorted@, key),
{
    groups.into_iter().sorted_by(|a, b| compare_groups(key, a, b)).collect()
}

/// An arrangement takes every place of what it carries over.
proof fn lemma_arrangement_onto(order: Seq<int>, n: int)
    requires
        order.len() == n,
        forall|i: int| 0 <= i < n ==> 0 <= #[trigger] order[i] < n,
        forall|i: int, j: int| 0 <= i < j < n ==> #[trigger] order[i] != #[trigger] order[j],
    ensures
        forall|m: int| 0 <= m < n ==> order.contains(m),
{
    assert(order.no_duplicates());
    order.unique_seq_to_set();
    seq_to_set_is_finite(order);
    lemma_int_range(0, n);
    assert(order.to_set().subset_of(set_int_range(0, n))) by {
        assert forall|x: int| order.to_set().contains(x) implies set_int_range(0, n).contains(
            x,
        ) by {
            let i = choose|i: int| 0 <= i < order.len() && order[i] == x;
            assert(0 <= order[i] < n);
        }
    }
    lemma_subset_equality(order.to_set(), set_int_range(0, n));
    assert forall|m: int| 0 <= m < n implies order.contains(m) by {
        assert(set_int_range(0, n).contains(m));
        assert(order.to_set().contains(m));
    }
}

/// Groups that stand by rising position, once sorted stably by the document's
/// key, are the listing.
proof fn lemma_sorted_is_listing(
    from: Seq<OutputGroup>,
    to: Seq<OutputGroup>,
    order: Seq<int>,
    records: Seq<RecordView>,
    profiles: Seq<Seq<char>>,
    intro: int,
    interval: int,
    with_time: bool,
)
    requires
        sorts_stably(order, from, to, spec_sort_key(with_time)),
        forall|i: int|
            0 <= i < from.len() ==> {
                &&& has_position(records, (#[trigger] from[i])@.position)
                &&& from[i]@ == output_group_at(
                    records,
                    profiles,
                    from[i]@.position,
                    intro,
                    interval,
                    with_time,
                )
            },
        forall|i: int, j: int|
            0 <= i < j < from.len() ==> (#[trigger] from[i])@.position < (
            #[trigger] from[j])@.position,
        forall|p: int|
            has_position(records, p) ==> exists|i: int|
                0 <= i < from.len() && (#[trigger] from[i])@.position == p,
    ensures
        is_group_listing(group_views(to), records, profiles, intro, interval, with_time),
{
    let key = spec_sort_key(with_time);
    let groups = group_views(to);
    let n = from.len() as int;
    lemma_arrangement_onto(order, n);
    assert forall|i: int| 0 <= i < groups.len() implies {
        &&& has_position(records, (#[trigger] groups[i]).position)
        &&& groups[i] == output_group_at(
            records,
            profiles,
            groups[i].position,
            intro,
            interval,
            with_time,
        )
    } by {
        assert(to[i] == from[order[i]]);
    }
    assert forall|p: int| has_position(records, p) implies exists|i: int|
        0 <= i < groups.len() && (#[trigger] groups[i]).position == p by {
        let m = choose|m: int| 0 <= m < from.len() && (#[trigger] from[m])@.position == p;
        assert(order.contains(m));
        let i = choose|i: int| 0 <= i < order.len() && order[i] == m;
        assert(to[i] == from[order[i]]);
        assert(groups[i].position == p);
    }
    assert forall|i: int, j: int| 0 <= i < j < groups.len() implies listed_before(
        key,
        #[trigger] groups[i],
        #[trigger] groups[j],
    ) by {
        assert(to[i] == from[order[i]]);
        assert(to[j] == from[order[j]]);
        assert(!key_before(key, to[j]@, to[i]@));
        assert(order[i] != order[j]);
        if order[i] < order[j] {
            assert(from[order[i]]@.position < from[order[j]]@.position);
        } else {
            assert(from[order[j]]@.position < from[order[i]]@.position);
            assert(key_before(key, to[i]@, to[j]@));
        }
    }
}

/// The group listing of a roster: its rows gathered by position, each group
/// with its time window where times are asked for, sorted by the document's
/// key.
pub fn output_groups(
    records: &Vec<CsvRecord>,
    profiles: &Vec<String>,
    intro: usize,
    interval: usize,
    with_time: bool,
) -> (groups: Vec<OutputGroup>)
    requires
        forall|k: int|
            0 <= k < records@.len() ==> texts(profiles@).contains(
                (#[trigger] records@[k])@.profile,
            ),
        with_time ==> schedule_fits(rows(records@), intro as int, interval as int),
    ensures
        is_group_listing(
            group_views(groups@),
            rows(records@),
            texts(profiles@),
            intro as int,
            interval as int,
            with_time,
        ),
{
    let ghost rs = rows(records@);
    let ghost ps = texts(profiles@);
    let mut map = group_records(records, profiles);
    let keys = ascending_keys(&map);
    let ghost full = map@;
    let mut listed: Vec<OutputGroup> = Vec::new();
    let mut m: usize = 0;
    proof {
        assert forall|j: int| 0 <= j < keys@.len() implies map@.contains_key(
            #[trigger] keys@[j],
        ) by {
            assert(keys@.contains(keys@[j]));
        }
    }
    while m < keys.len()
        invariant
            m <= keys@.len(),
            listed@.len() == m,
            forall|i: int, j: int| 0 <= i < j < keys@.len() ==> keys@[i] < keys@[j],
            forall|p: usize| keys@.contains(p) <==> full.contains_key(p),
            forall|p: usize| #[trigger] full.contains_key(p) <==> has_position(rs, p as int),
            forall|p: usize| #[trigger]
                full.contains_key(p) ==> full[p]@ == group_at(rs, ps, p as int),
            forall|j: int|
                m <= j < keys@.len() ==> map@.contains_key(#[trigger] keys@[j]) && map@[keys@[j]]
                    == full[keys@[j]],
            forall|i: int|
                0 <= i < m ==> (#[trigger] listed@[i])@ == output_group_at(
                    rs,
                    ps,
                    keys@[i] as int,
                    intro as int,
                    interval as int,
                    with_time,
                ),
            with_time ==> schedule_fits(rs, intro as int, interval as int),
        decreases keys@.len() - m,
    {
        let key = keys[m];
        proof {
            assert(keys@.contains(key));
            assert(full.contains_key(key));
            assert(has_position(rs, key as int));
        }
        let time_interval = if with_time {
            proof {
                let k = choose|k: int|
                    0 <= k < rs.len() && (#[trigger] rs[k]).group_position == key as int;
            }
            Some(group_time(key, intro, interval))
        } else {
            None
        };
        let ghost held = map@;
        let ghost before = listed@;
        let group = map.remove(&key).unwrap();
        listed.push(
            OutputGroup {
                position: key,
                name: group.name,
                location: group.location,
                link: group.link,
                time_interval,
                members: group.members,
            },
        );
        proof {
            assert(group == full[key]);
            assert(listed@[m as int]@ == output_group_at(
                rs,
                ps,
                key as int,
                intro as int,
                interval as int,
                with_time,
            ));
            assert forall|i: int| 0 <= i < m + 1 implies (#[trigger] listed@[i])@
                == output_group_at(
                rs,
                ps,
                keys@[i] as int,
                intro as int,
                interval as int,
                with_time,
            ) by {
                if i < m {
                    assert(listed@[i] == before[i]);
                }
            }
            assert forall|j: int| m + 1 <= j < keys@.len() implies map@.contains_key(
                #[trigger] keys@[j],
            ) && map@[keys@[j]] == full[keys@[j]] by {
                assert(keys@[m as int] < keys@[j]);
                assert(held.contains_key(keys@[j]));
            }
        }
        m += 1;
    }
    let ghost from = listed@;
    let sorted = sort_groups(listed, sort_key(with_time));
    proof {
        let order = choose|order: Seq<int>|
            sorts_stably(order, from, sorted@, spec_sort_key(with_time));
        assert forall|p: int| has_position(rs, p) implies exists|i: int|
            0 <= i < from.len() && (#[trigger] from[i])@.position == p by {
            let k = choose|k: int| 0 <= k < rs.len() && (#[trigger] rs[k]).group_position == p;
            let q = records@[k].group_position;
            assert(rs[k] == records@[k]@);
            assert(has_position(rs, q as int));
            assert(full.contains_key(q));
            assert(keys@.contains(q));
            let i = choose|i: int| 0 <= i < keys@.len() && keys@[i] == q;
            assert(from[i]@.position == p);
        }
        assert forall|i: int| 0 <= i < from.len() implies {
            &&& has_position(rs, (#[trigger] from[i])@.position)
            &&& from[i]@ == output_group_at(
                rs,
                ps,
                from[i]@.position,
                intro as int,
                interval as int,
                with_time,
            )
        } by {
            assert(keys@.contains(keys@[i]));
            assert(full.contains_key(keys@[i]));
        }
        assert forall|i: int, j: int| 0 <= i < j < from.len() implies (#[trigger] from[i])@.position
            < (#[trigger] from[j])@.position by {
            assert(keys@[i] < keys@[j]);
        }
        lemma_sorted_is_listing(
            from,
            sorted@,
            order,
            rs,
            ps,
            intro as int,
            interval as int,
            with_time,
        );
    }
    sorted
}

} // verus!
