//! Stable sorting of table rows by state id.
//!
//! [`sort_rows`] is an insertion sort: each row is placed after every
//! already-placed row whose id is less than or equal to its own, so rows with
//! equal ids keep their relative input order.

use crate::transition_table::{row_views, SpecRow, TransitionTableRow};
use vstd::prelude::*;
use vstd::seq_lib::group_to_multiset_ensures;

verus! {

/// Places `x` after every element of `s` whose id is at most `x.id`.
pub open spec fn insert_sorted(x: SpecRow, s: Seq<SpecRow>) -> Seq<SpecRow>
    decreases s.len(),
{
    if s.len() == 0 {
        seq![x]
    } else if s.last().id <= x.id {
        s.push(x)
    } else {
        insert_sorted(x, s.drop_last()).push(s.last())
    }
}

/// Stable insertion sort of rows, ascending by id.
pub open spec fn sort_rows(s: Seq<SpecRow>) -> Seq<SpecRow>
    decreases s.len(),
{
    if s.len() == 0 {
        seq![]
    } else {
        insert_sorted(s.last(), sort_rows(s.drop_last()))
    }
}

/// Whether the rows of `s` are in ascending order of id.
pub open spec fn sorted_by_id(s: Seq<SpecRow>) -> bool {
    forall|i: int, j: int| 0 <= i < j < s.len() ==> s[i].id <= s[j].id
}

/// Whether no two rows of `s` share an id.
pub open spec fn distinct_ids(s: Seq<SpecRow>) -> bool {
    forall|i: int, j: int| 0 <= i < j < s.len() ==> s[i].id != s[j].id
}

/// Inserting at the boundary position `j` is what [`insert_sorted`] does:
/// everything from `j` on has a greater id, and the element before `j` (if
/// any) has an id at most `x.id`.
pub proof fn lemma_insert_sorted_at(x: SpecRow, s: Seq<SpecRow>, j: int)
    requires
        0 <= j <= s.len(),
        forall|k: int| j <= k < s.len() ==> s[k].id > x.id,
        j > 0 ==> s[j - 1].id <= x.id,
    ensures
        insert_sorted(x, s) == s.insert(j, x),
    decreases s.len(),
{
    if j == s.len() {
        if s.len() == 0 {
            assert(insert_sorted(x, s) =~= s.insert(j, x));
        } else {
            assert(s.last().id <= x.id);
            assert(s.push(x) =~= s.insert(j, x));
        }
    } else {
        assert(s[s.len() - 1].id > x.id);
        lemma_insert_sorted_at(x, s.drop_last(), j);
        assert(s.drop_last().insert(j, x).push(s.last()) =~= s.insert(j, x));
    }
}

/// In a sorted sequence there is a boundary position for `x`: everything
/// from it on has a greater id, everything before it an id at most `x.id`.
pub proof fn lemma_sorted_boundary(x: SpecRow, s: Seq<SpecRow>) -> (j: int)
    requires
        sorted_by_id(s),
    ensures
        0 <= j <= s.len(),
        forall|k: int| j <= k < s.len() ==> s[k].id > x.id,
        j > 0 ==> s[j - 1].id <= x.id,
    decreases s.len(),
{
    if s.len() == 0 {
        0
    } else if s.last().id <= x.id {
        s.len() as int
    } else {
        assert(sorted_by_id(s.drop_last()));
        let j = lemma_sorted_boundary(x, s.drop_last());
        assert forall|k: int| j <= k < s.len() - 1 implies s[k].id > x.id by {
            assert(s.drop_last()[k] == s[k]);
        }
        j
    }
}

/// Insertion keeps a sorted sequence sorted.
pub proof fn lemma_insert_sorted_sorted(x: SpecRow, s: Seq<SpecRow>)
    requires
        sorted_by_id(s),
    ensures
        sorted_by_id(insert_sorted(x, s)),
{
    let j = lemma_sorted_boundary(x, s);
    lemma_insert_sorted_at(x, s, j);
    let t = s.insert(j, x);
    assert forall|a: int, b: int| 0 <= a < b < t.len() implies t[a].id <= t[b].id by {
        if a < j {
            assert(t[a] == s[a]);
            if a < j - 1 {
                assert(s[a].id <= s[j - 1].id);
            }
            assert(s[a].id <= x.id);
        }
        if a == j {
            assert(t[a] == x);
        }
        if a > j {
            assert(t[a] == s[a - 1]);
        }
        if b < j {
            assert(t[b] == s[b]);
        }
        if b == j {
            assert(t[b] == x);
            assert(a < j);
            if a < j - 1 {
                assert(s[a].id <= s[j - 1].id);
            }
            assert(s[a].id <= x.id);
        }
        if b > j {
            assert(t[b] == s[b - 1]);
            assert(s[b - 1].id > x.id || b - 1 < j);
        }
    }
}

/// The sort's result is sorted.
pub proof fn lemma_sort_rows_sorted(s: Seq<SpecRow>)
    ensures
        sorted_by_id(sort_rows(s)),
    decreases s.len(),
{
    if s.len() > 0 {
        lemma_sort_rows_sorted(s.drop_last());
        lemma_insert_sorted_sorted(s.last(), sort_rows(s.drop_last()));
    }
}

/// Sorting an already sorted sequence changes nothing.
pub proof fn lemma_sort_rows_of_sorted(s: Seq<SpecRow>)
    requires
        sorted_by_id(s),
    ensures
        sort_rows(s) == s,
    decreases s.len(),
{
    if s.len() > 0 {
        assert(sorted_by_id(s.drop_last()));
        lemma_sort_rows_of_sorted(s.drop_last());
        lemma_insert_sorted_at(s.last(), s.drop_last(), s.len() - 1);
        assert(s.drop_last().insert(s.len() - 1, s.last()) =~= s);
    }
}

/// Insertion adds exactly the inserted row to the multiset of rows.
pub proof fn lemma_insert_sorted_multiset(x: SpecRow, s: Seq<SpecRow>)
    ensures
        insert_sorted(x, s).to_multiset() == s.to_multiset().insert(x),
    decreases s.len(),
{
    broadcast use group_to_multiset_ensures;

    if s.len() == 0 {
        assert(seq![x] =~= Seq::<SpecRow>::empty().push(x));
        assert(Seq::<SpecRow>::empty().push(x).to_multiset() =~= Seq::<
            SpecRow,
        >::empty().to_multiset().insert(x));
    } else if s.last().id <= x.id {
    } else {
        lemma_insert_sorted_multiset(x, s.drop_last());
        assert(s.drop_last().push(s.last()) =~= s);
        assert(insert_sorted(x, s).to_multiset() =~= s.to_multiset().insert(x));
    }
}

/// Sorting permutes the rows: the multiset of rows is unchanged.
pub proof fn lemma_sort_rows_multiset(s: Seq<SpecRow>)
    ensures
        sort_rows(s).to_multiset() == s.to_multiset(),
    decreases s.len(),
{
    broadcast use group_to_multiset_ensures;

    if s.len() > 0 {
        lemma_sort_rows_multiset(s.drop_last());
        lemma_insert_sorted_multiset(s.last(), sort_rows(s.drop_last()));
        assert(s.drop_last().push(s.last()) =~= s);
    }
}

/// Two sorted sequences with the same rows and no repeated id are equal.
pub proof fn lemma_sorted_unique(s1: Seq<SpecRow>, s2: Seq<SpecRow>)
    requires
        sorted_by_id(s1),
        sorted_by_id(s2),
        distinct_ids(s1),
        s1.to_multiset() == s2.to_multiset(),
    ensures
        s1 == s2,
    decreases s1.len(),
{
    broadcast use group_to_multiset_ensures;

    s1.to_multiset_ensures();
    s2.to_multiset_ensures();
    if s1.len() == 0 {
        assert(s2.len() == s2.to_multiset().len());
        assert(s1 =~= s2);
    } else {
        assert(s1.len() == s1.to_multiset().len());
        assert(s2.len() == s2.to_multiset().len());
        assert(s2.len() == s1.len());
        assert(s1.to_multiset().count(s2[0]) > 0);
        assert(s1.contains(s2[0]));
        let i = choose|i: int| 0 <= i < s1.len() && s1[i] == s2[0];
        assert(s2.to_multiset().count(s1[0]) > 0);
        assert(s2.contains(s1[0]));
        let j = choose|j: int| 0 <= j < s2.len() && s2[j] == s1[0];
        assert(s1[0].id <= s1[i].id);
        assert(s2[0].id <= s2[j].id);
        assert(s1[0].id == s2[0].id);
        assert(i == 0);
        assert(s1[0] == s2[0]);
        assert(s1.drop_first() =~= s1.remove(0));
        assert(s2.drop_first() =~= s2.remove(0));
        assert(s1.drop_first().to_multiset() == s2.drop_first().to_multiset());
        assert(sorted_by_id(s1.drop_first()));
        assert(sorted_by_id(s2.drop_first()));
        assert(distinct_ids(s1.drop_first()));
        lemma_sorted_unique(s1.drop_first(), s2.drop_first());
        assert forall|k: int| 0 <= k < s1.len() implies s1[k] == s2[k] by {
            if k > 0 {
                assert(s1.drop_first()[k - 1] == s2.drop_first()[k - 1]);
            }
        }
        assert(s1 =~= s2);
    }
}

/// Inserts `row` into `out`, which grows by exactly that row, placed as
/// [`insert_sorted`] says.
pub fn insert_row(out: &mut Vec<TransitionTableRow>, row: TransitionTableRow)
    ensures
        row_views(final(out)@) == insert_sorted(row@, row_views(old(out)@)),
{
    let mut j: usize = out.len();
    while j > 0 && out[j - 1].id > row.id
        invariant
            j <= out@.len(),
            out@ == old(out)@,
            forall|k: int| j <= k < out@.len() ==> row_views(out@)[k].id > row@.id,
        decreases j,
    {
        j = j - 1;
    }
    proof {
        lemma_insert_sorted_at(row@, row_views(out@), j as int);
    }
    let ghost prior = out@;
    out.insert(j, row);
    assert(row_views(out@) =~= row_views(prior).insert(j as int, row@));
}

/// Sorts the rows ascending by id, stably, exactly as [`sort_rows`] says.
pub fn sort_table_rows(rows: Vec<TransitionTableRow>) -> (r: Vec<TransitionTableRow>)
    ensures
        row_views(r@) == sort_rows(row_views(rows@)),
{
    let ghost orig = row_views(rows@);
    let mut rest = rows;
    let mut out: Vec<TransitionTableRow> = Vec::new();
    while rest.len() > 0
        invariant
            rest@.len() <= orig.len(),
            row_views(rest@) == orig.skip(orig.len() - rest@.len()),
            row_views(out@) == sort_rows(orig.take(orig.len() - rest@.len())),
        decreases rest@.len(),
    {
        let ghost j: int = orig.len() - rest@.len();
        let ghost prior = rest@;
        let row = rest.remove(0);
        proof {
            assert(row == prior[0]);
            assert(row@ == row_views(prior)[0]);
            assert(row@ == orig[j]);
            assert(rest@ == prior.remove(0));
            assert(row_views(rest@) =~= orig.skip(j + 1)) by {
                assert forall|k: int| 0 <= k < rest@.len() implies row_views(rest@)[k] == orig.skip(
                    j + 1,
                )[k] by {
                    assert(rest@[k] == prior[k + 1]);
                    assert(row_views(prior)[k + 1] == orig.skip(j)[k + 1]);
                }
            }
            assert(orig.take(j + 1).drop_last() =~= orig.take(j));
            assert(orig.take(j + 1).last() == orig[j]);
        }
        insert_row(&mut out, row);
    }
    assert(orig.take(orig.len() as int) =~= orig);
    out
}

} // verus!
