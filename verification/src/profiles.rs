//! The profile list of a roster: its distinct profile labels in the order of
//! strings, and the index that each label has in it.

use vstd::prelude::*;
use itertools::Itertools;
use crate::model::CsvRecord;
use crate::model::RecordView;
use crate::model::rows;
use crate::model::texts;
use crate::text::text_lt;
use crate::text::text_le;
use crate::text::lemma_text_lt_connected;
use crate::text::lemma_text_lt_transitive;
use crate::text::lemma_text_lt_irreflexive;

verus! {

/// A sequence without its repeats: each value stays where it first occurs.
pub open spec fn first_occurrences(s: Seq<Seq<char>>) -> Seq<Seq<char>>
    decreases s.len(),
{
    if s.len() == 0 {
        s
    } else {
        let before = first_occurrences(s.drop_last());
        if before.contains(s.last()) {
            before
        } else {
            before.push(s.last())
        }
    }
}

/// Dropping repeats leaves every value once.
pub proof fn lemma_first_occurrences(s: Seq<Seq<char>>)
    ensures
        first_occurrences(s).no_duplicates(),
        forall|x: Seq<char>| #[trigger] first_occurrences(s).contains(x) <==> s.contains(x),
    decreases s.len(),
{
    if s.len() > 0 {
        let front = s.drop_last();
        let before = first_occurrences(front);
        let kept = first_occurrences(s);
        lemma_first_occurrences(front);
        assert forall|x: Seq<char>| #[trigger] kept.contains(x) <==> s.contains(x) by {
            assert(before.contains(x) <==> front.contains(x));
            if s.contains(x) {
                let i = choose|i: int| 0 <= i < s.len() && s[i] == x;
                if i < s.len() - 1 {
                    assert(front[i] == x);
                    let j = choose|j: int| 0 <= j < before.len() && before[j] == x;
                    assert(kept[j] == x);
                } else if before.contains(x) {
                    let j = choose|j: int| 0 <= j < before.len() && before[j] == x;
                    assert(kept[j] == x);
                } else {
                    assert(kept[before.len() as int] == x);
                }
            }
            if kept.contains(x) {
                let j = choose|j: int| 0 <= j < kept.len() && kept[j] == x;
                if j < before.len() {
                    assert(before[j] == x);
                    let i = choose|i: int| 0 <= i < front.len() && front[i] == x;
                    assert(s[i] == x);
                } else {
                    assert(s[s.len() - 1] == x);
                }
            }
        }
    }
}

/// The profile labels of the rows, row by row.
pub open spec fn profile_column(records: Seq<RecordView>) -> Seq<Seq<char>> {
    records.map_values(|r: RecordView| r.profile)
}

/// `profiles` is the profile list of `records`: it rises strictly in the
/// order of strings, and holds the labels of the rows and nothing else.
pub open spec fn is_profile_list(profiles: Seq<Seq<char>>, records: Seq<RecordView>) -> bool {
    &&& forall|i: int, j: int|
        0 <= i < j < profiles.len() ==> text_lt(#[trigger] profiles[i], #[trigger] profiles[j])
    &&& forall|x: Seq<char>| profiles.contains(x) <==> profile_column(records).contains(x)
}

/// `Itertools::unique` on owned strings, collected: the strings of `items`
/// in their order, each kept where it first occurs and left out where it
/// occurs again.
#[verifier::external_body]
fn unique_strings(items: Vec<String>) -> (kept: Vec<String>)
    ensures
        texts(kept@) == first_occurrences(texts(items@)),
{
    items.into_iter().unique().collect()
}

/// `Itertools::sorted` on owned strings, gathered with
/// `Itertools::collect_vec`: the same strings, each as often as before, in
/// ascending order of strings.
#[verifier::external_body]
fn sorted_strings(items: Vec<String>) -> (sorted: Vec<String>)
    ensures
        texts(sorted@).to_multiset() == texts(items@).to_multiset(),
        forall|i: int, j: int|
            0 <= i < j < sorted@.len() ==> text_le(
                #[trigger] texts(sorted@)[i],
                #[trigger] texts(sorted@)[j],
            ),
{
    items.into_iter().sorted().collect_vec()
}

/// A sorted sequence of distinct strings rises strictly.
proof fn lemma_sorted_distinct_rises(s: Seq<Seq<char>>)
    requires
        s.no_duplicates(),
        forall|i: int, j: int| 0 <= i < j < s.len() ==> text_le(#[trigger] s[i], #[trigger] s[j]),
    ensures
        forall|i: int, j: int| 0 <= i < j < s.len() ==> text_lt(#[trigger] s[i], #[trigger] s[j]),
{
    assert forall|i: int, j: int| 0 <= i < j < s.len() implies text_lt(
        #[trigger] s[i],
        #[trigger] s[j],
    ) by {
        assert(text_le(s[i], s[j]));
        lemma_text_lt_connected(s[i], s[j]);
    }
}

/// The profile list of a roster.
pub fn distinct_profiles(records: &Vec<CsvRecord>) -> (profiles: Vec<String>)
    ensures
        is_profile_list(texts(profiles@), rows(records@)),
{
    let mut column: Vec<String> = Vec::new();
    let mut k: usize = 0;
    while k < records.len()
        invariant
            k <= records@.len(),
            column@.len() == k,
            texts(column@) == profile_column(rows(records@)).take(k as int),
        decreases records@.len() - k,
    {
        let ghost before = column@;
        let label = records[k].profile.clone();
        assert(label@ == rows(records@)[k as int].profile);
        column.push(label);
        proof {
            let labels = profile_column(rows(records@));
            assert forall|i: int| 0 <= i < k + 1 implies texts(column@)[i] == labels[i] by {
                if i < k {
                    assert(column@[i] == before[i]);
                    assert(texts(before)[i] == labels.take(k as int)[i]);
                } else {
                    assert(column@[i] == label);
                }
            }
            assert(texts(column@) =~= labels.take(k + 1));
        }
        k += 1;
    }
    let ghost labels = profile_column(rows(records@));
    assert(texts(column@) == labels) by {
        assert(labels.take(labels.len() as int) =~= labels);
    }
    let kept = unique_strings(column);
    let profiles = sorted_strings(kept);
    proof {
        let u = texts(kept@);
        let p = texts(profiles@);
        lemma_first_occurrences(labels);
        u.lemma_multiset_has_no_duplicates();
        p.lemma_multiset_has_no_duplicates_conv();
        lemma_sorted_distinct_rises(p);
        p.to_multiset_ensures();
        u.to_multiset_ensures();
        assert forall|x: Seq<char>| p.contains(x) <==> labels.contains(x) by {
            assert(p.contains(x) <==> p.to_multiset().count(x) > 0);
            assert(u.contains(x) <==> u.to_multiset().count(x) > 0);
            assert(first_occurrences(labels).contains(x) <==> labels.contains(x));
        }
    }
    profiles
}

/// Two profile lists of one roster are the same list.
pub proof fn lemma_profile_list_unique(
    a: Seq<Seq<char>>,
    b: Seq<Seq<char>>,
    records: Seq<RecordView>,
)
    requires
        is_profile_list(a, records),
        is_profile_list(b, records),
    ensures
        a == b,
{
    lemma_rising_same_content(a, b);
}

/// Two strictly rising sequences with the same content are equal.
pub proof fn lemma_rising_same_content(a: Seq<Seq<char>>, b: Seq<Seq<char>>)
    requires
        forall|i: int, j: int| 0 <= i < j < a.len() ==> text_lt(#[trigger] a[i], #[trigger] a[j]),
        forall|i: int, j: int| 0 <= i < j < b.len() ==> text_lt(#[trigger] b[i], #[trigger] b[j]),
        forall|x: Seq<char>| a.contains(x) <==> b.contains(x),
    ensures
        a == b,
    decreases a.len(),
{
    if a.len() == 0 {
        if b.len() > 0 {
            assert(b.contains(b[0]));
        }
        assert(a =~= b);
    } else if b.len() == 0 {
        assert(a.contains(a[0]));
    } else {
        // The greatest element of each is its last, so the last elements agree.
        let x = a.last();
        let y = b.last();
        assert(a.contains(x));
        assert(b.contains(y));
        let i = choose|i: int| 0 <= i < b.len() && b[i] == x;
        let j = choose|j: int| 0 <= j < a.len() && a[j] == y;
        if x != y {
            assert(text_lt(b[i], b[b.len() - 1]));
            assert(text_lt(a[j], a[a.len() - 1]));
            lemma_text_lt_transitive(x, y, x);
            lemma_text_lt_irreflexive(x);
        }
        let a0 = a.drop_last();
        let b0 = b.drop_last();
        assert forall|z: Seq<char>| a0.contains(z) <==> b0.contains(z) by {
            if a0.contains(z) {
                let k = choose|k: int| 0 <= k < a0.len() && a0[k] == z;
                assert(a[k] == z);
                assert(text_lt(a[k], a[a.len() - 1]));
                assert(a.contains(z));
                let m = choose|m: int| 0 <= m < b.len() && b[m] == z;
                if m == b.len() - 1 {
                    lemma_text_lt_irreflexive(z);
                }
                assert(b0[m] == z);
            }
            if b0.contains(z) {
                let k = choose|k: int| 0 <= k < b0.len() && b0[k] == z;
                assert(b[k] == z);
                assert(text_lt(b[k], b[b.len() - 1]));
                assert(b.contains(z));
                let m = choose|m: int| 0 <= m < a.len() && a[m] == z;
                if m == a.len() - 1 {
                    lemma_text_lt_irreflexive(z);
                }
                assert(a0[m] == z);
            }
        }
        assert forall|i: int, j: int| 0 <= i < j < a0.len() implies text_lt(
            #[trigger] a0[i],
            #[trigger] a0[j],
        ) by {
            assert(text_lt(a[i], a[j]));
        }
        assert forall|i: int, j: int| 0 <= i < j < b0.len() implies text_lt(
            #[trigger] b0[i],
            #[trigger] b0[j],
        ) by {
            assert(text_lt(b[i], b[j]));
        }
        lemma_rising_same_content(a0, b0);
        assert(a =~= a0.push(x));
        assert(b =~= b0.push(y));
    }
}

} // verus!
