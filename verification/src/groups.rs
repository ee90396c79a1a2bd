//! Grouping: the rows of a roster gathered by group position, each row
//! turned into a member of its group.

use vstd::prelude::*;
use vstd::string::StringExecFns;
use std::collections::BTreeMap;
use crate::model::CsvRecord;
use crate::model::RecordView;
use crate::model::Member;
use crate::model::MemberView;
use crate::model::Group;
use crate::model::GroupView;
use crate::model::Technique;
use crate::model::rows;
use crate::model::texts;
use crate::model::member_views;

verus! {

/// Some row of the roster is at `position`.
pub open spec fn has_position(records: Seq<RecordView>, position: int) -> bool {
    exists|k: int| 0 <= k < records.len() && (#[trigger] records[k]).group_position == position
}

/// The positions of a roster.
pub open spec fn positions(records: Seq<RecordView>) -> Set<int> {
    Set::new(|p: int| has_position(records, p))
}

/// The indices, in rising order, of the rows at `position` among the first
/// `n` rows.
pub open spec fn rows_upto(records: Seq<RecordView>, position: int, n: int) -> Seq<int>
    decreases n,
{
    if n <= 0 {
        Seq::empty()
    } else {
        let before = rows_upto(records, position, n - 1);
        if records[n - 1].group_position == position {
            before.push(n - 1)
        } else {
            before
        }
    }
}

/// The indices, in rising order, of the rows at `position`.
pub open spec fn rows_at(records: Seq<RecordView>, position: int) -> Seq<int> {
    rows_upto(records, position, records.len() as int)
}

/// The index that a label has in a profile list: that of its first
/// occurrence, and the length of the list where it does not occur.
pub open spec fn spec_profile_index(profiles: Seq<Seq<char>>, label: Seq<char>) -> int {
    match profiles.index_of_first(label) {
        Some(i) => i,
        None => profiles.len() as int,
    }
}

/// The member that row `k` becomes.
pub open spec fn member_of_row(
    records: Seq<RecordView>,
    profiles: Seq<Seq<char>>,
    k: int,
) -> MemberView {
    let r = records[k];
    MemberView {
        id: k,
        name: r.first_name + seq![' '] + r.last_name,
        discord_name: r.discord_name,
        profile: spec_profile_index(profiles, r.profile),
        level: r.level,
        preferred_techniques: r.preferred_techniques,
        known_techniques: r.known_techniques,
    }
}

/// The group made of the rows `indices`: name, location and link are those
/// of the first of them, and the members are the rows in the given order.
pub open spec fn group_of_rows(
    records: Seq<RecordView>,
    profiles: Seq<Seq<char>>,
    indices: Seq<int>,
) -> GroupView {
    let first = records[indices[0]];
    GroupView {
        name: first.group_name,
        location: first.group_location,
        link: first.group_link,
        members: indices.map_values(|k: int| member_of_row(records, profiles, k)),
    }
}

/// The group at `position`.
pub open spec fn group_at(
    records: Seq<RecordView>,
    profiles: Seq<Seq<char>>,
    position: int,
) -> GroupView {
    group_of_rows(records, profiles, rows_at(records, position))
}

/// What `rows_upto` holds: exactly the rows at the position, below `n`, in
/// rising order.
pub proof fn lemma_rows_upto(records: Seq<RecordView>, position: int, n: int)
    requires
        0 <= n <= records.len(),
    ensures
        forall|i: int|
            0 <= i < rows_upto(records, position, n).len() ==> {
                let k = #[trigger] rows_upto(records, position, n)[i];
                0 <= k < n && records[k].group_position == position
            },
        forall|i: int, j: int|
            0 <= i < j < rows_upto(records, position, n).len() ==> rows_upto(
                records,
                position,
                n,
            )[i] < rows_upto(records, position, n)[j],
        forall|k: int|
            0 <= k < n && (#[trigger] records[k]).group_position == position ==> rows_upto(
                records,
                position,
                n,
            ).contains(k),
    decreases n,
{
    if n > 0 {
        lemma_rows_upto(records, position, n - 1);
        let before = rows_upto(records, position, n - 1);
        let now = rows_upto(records, position, n);
        assert forall|k: int|
            0 <= k < n && (#[trigger] records[k]).group_position == position implies now.contains(
            k,
        ) by {
            if k < n - 1 {
                assert(before.contains(k));
                let i = choose|i: int| 0 <= i < before.len() && before[i] == k;
                assert(now[i] == k);
            } else {
                assert(now[before.len() as int] == k);
            }
        }
    }
}

/// A position has rows exactly when some row of the roster is at it.
pub proof fn lemma_rows_at_nonempty(records: Seq<RecordView>, position: int)
    ensures
        rows_at(records, position).len() > 0 <==> has_position(records, position),
{
    lemma_rows_upto(records, position, records.len() as int);
    let at = rows_at(records, position);
    if at.len() > 0 {
        let k = at[0];
        assert(records[k].group_position == position);
    }
    if has_position(records, position) {
        let k = choose|k: int|
            0 <= k < records.len() && (#[trigger] records[k]).group_position == position;
        assert(at.contains(k));
    }
}

/// The index of a label is the first place at which it stands.
pub proof fn lemma_first_place(profiles: Seq<Seq<char>>, label: Seq<char>, i: int)
    requires
        0 <= i < profiles.len(),
        profiles[i] == label,
        forall|j: int| 0 <= j < i ==> profiles[j] != label,
    ensures
        spec_profile_index(profiles, label) == i,
{
    assert(profiles.contains(label));
    profiles.index_of_first_ensures(label);
    let first = profiles.index_of_first(label)->0;
    if first > i {
        assert(profiles[i] != label);
    }
}

/// Looks a label up in a profile list.
pub fn profile_index(profiles: &Vec<String>, label: &String) -> (found: Option<usize>)
    ensures
        found is Some <==> texts(profiles@).contains(label@),
        found matches Some(i) ==> {
            &&& i < profiles@.len()
            &&& profiles@[i as int]@ == label@
            &&& forall|j: int| 0 <= j < i ==> profiles@[j]@ != label@
            &&& spec_profile_index(texts(profiles@), label@) == i
        },
{
    let ghost labels = texts(profiles@);
    let mut i: usize = 0;
    while i < profiles.len()
        invariant
            i <= profiles@.len(),
            labels == texts(profiles@),
            forall|j: int| 0 <= j < i ==> labels[j] != label@,
        decreases profiles@.len() - i,
    {
        if profiles[i] == *label {
            proof {
                assert(labels[i as int] == label@);
                lemma_first_place(labels, label@, i as int);
                assert forall|j: int| 0 <= j < i implies profiles@[j]@ != label@ by {
                    assert(labels[j] != label@);
                }
            }
            return Some(i);
        }
        i += 1;
    }
    None
}

/// The member that row `k` of the roster becomes.
fn member_from_row(records: &Vec<CsvRecord>, profiles: &Vec<String>, k: usize) -> (member: Member)
    requires
        k < records@.len(),
        texts(profiles@).contains(records@[k as int]@.profile),
    ensures
        member@ == member_of_row(rows(records@), texts(profiles@), k as int),
{
    let record = &records[k];
    let mut name = String::from_str(record.first_name.as_str());
    name.append(" ");
    name.append(record.last_name.as_str());
    proof {
        reveal_strlit(" ");
        assert(" "@ =~= seq![' ']);
    }
    let profile = profile_index(profiles, &record.profile).unwrap();
    let member = Member {
        id: k,
        name,
        discord_name: record.discord_name.clone(),
        profile,
        level: record.level,
        preferred_techniques: copy_techniques(&record.preferred_techniques),
        known_techniques: copy_techniques(&record.known_techniques),
    };
    member
}

/// A copy of a list of techniques.
fn copy_techniques(techniques: &Vec<Technique>) -> (copy: Vec<Technique>)
    ensures
        copy@ == techniques@,
{
    let mut copy: Vec<Technique> = Vec::new();
    let mut i: usize = 0;
    while i < techniques.len()
        invariant
            i <= techniques@.len(),
            copy@ == techniques@.take(i as int),
        decreases techniques@.len() - i,
    {
        copy.push(techniques[i]);
        assert(copy@ =~= techniques@.take(i + 1));
        i += 1;
    }
    assert(techniques@.take(techniques@.len() as int) =~= techniques@);
    copy
}

/// Gathers the rows of a roster by group position. Each group takes its
/// name, location and link from the first of its rows, and lists its rows as
/// members in row order.
pub fn group_records(records: &Vec<CsvRecord>, profiles: &Vec<String>) -> (groups: BTreeMap<
    usize,
    Group,
>)
    requires
        forall|k: int|
            0 <= k < records@.len() ==> texts(profiles@).contains(
                (#[trigger] records@[k])@.profile,
            ),
    ensures
        forall|p: usize| #[trigger] groups@.contains_key(p) <==> has_position(rows(records@), p as int),
        forall|p: usize| #[trigger]
            groups@.contains_key(p) ==> groups@[p]@ == group_at(
                rows(records@),
                texts(profiles@),
                p as int,
            ),
{
    let ghost rs = rows(records@);
    let ghost ps = texts(profiles@);
    let mut groups: BTreeMap<usize, Group> = BTreeMap::new();
    let mut k: usize = 0;
    while k < records.len()
        invariant
            k <= records@.len(),
            rs == rows(records@),
            ps == texts(profiles@),
            forall|k: int|
                0 <= k < records@.len() ==> texts(profiles@).contains(
                    (#[trigger] records@[k])@.profile,
                ),
            forall|p: usize| #[trigger]
                groups@.contains_key(p) <==> rows_upto(rs, p as int, k as int).len() > 0,
            forall|p: usize| #[trigger]
                groups@.contains_key(p) ==> groups@[p]@ == group_of_rows(
                    rs,
                    ps,
                    rows_upto(rs, p as int, k as int),
                ),
        decreases records@.len() - k,
    {
        let record = &records[k];
        let position = record.group_position;
        let member = member_from_row(records, profiles, k);
        let ghost held = groups@;
        let ghost before = rows_upto(rs, position as int, k as int);
        let mut group = match groups.remove(&position) {
            Some(group) => group,
            None => Group {
                name: record.group_name.clone(),
                location: record.group_location,
                link: record.group_link.clone(),
                members: Vec::with_capacity(6),
            },
        };
        let ghost listed = group.members@;
        proof {
            assert(rs[k as int] == record@);
            if held.contains_key(position) {
                assert(group@ == group_of_rows(rs, ps, before));
            } else {
                assert(before.len() == 0);
                assert(listed.len() == 0);
            }
            assert(member_views(listed) =~= before.map_values(
                |i: int| member_of_row(rs, ps, i),
            ));
            assert(listed.len() == before.len());
        }
        group.members.push(member);
        proof {
            let now = rows_upto(rs, position as int, k + 1);
            assert(now == before.push(k as int));
            assert(group.members@ == listed.push(member));
            assert(member_views(group.members@) =~= now.map_values(
                |i: int| member_of_row(rs, ps, i),
            )) by {
                assert forall|i: int| 0 <= i < now.len() implies member_views(group.members@)[i]
                    == member_of_row(rs, ps, now[i]) by {
                    if i < before.len() {
                        assert(group.members@[i] == listed[i]);
                        assert(member_views(listed)[i] == member_of_row(rs, ps, before[i]));
                    }
                }
            }
            assert(now[0] == (if before.len() > 0 { before[0] } else { k as int }));
            assert(group@ == group_of_rows(rs, ps, now));
        }
        groups.insert(position, group);
        proof {
            assert(groups@ == held.insert(position, group)) by {
                assert(held.remove(position).insert(position, group) =~= held.insert(
                    position,
                    group,
                ));
            }
            assert forall|p: usize| #[trigger]
                groups@.contains_key(p) <==> rows_upto(rs, p as int, k + 1).len() > 0 by {
                if p != position {
                    assert(held.contains_key(p) <==> groups@.contains_key(p));
                }
            }
            assert forall|p: usize| #[trigger] groups@.contains_key(p) implies groups@[p]@
                == group_of_rows(rs, ps, rows_upto(rs, p as int, k + 1)) by {
                if p != position {
                    assert(held.contains_key(p));
                    assert(groups@[p] == held[p]);
                }
            }
        }
        k += 1;
    }
    proof {
        assert forall|p: usize| #[trigger]
            groups@.contains_key(p) <==> has_position(rs, p as int) by {
            lemma_rows_at_nonempty(rs, p as int);
        }
    }
    groups
}

} // verus!
