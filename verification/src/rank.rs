//! Ranking: the largest records of a table, largest first.

use vstd::prelude::*;

use crate::table::{Record, Table};

verus! {

/// The position at which a record of `size` goes into `s`: behind every
/// leading record that is at least as large, before the first smaller one.
pub open spec fn slot(s: Seq<Record>, size: nat) -> int
    decreases s.len(),
{
    if s.len() == 0 || s[0].size < size {
        0
    } else {
        1 + slot(s.drop_first(), size)
    }
}

/// `s` with `r` put in at its slot.
pub open spec fn place(s: Seq<Record>, r: Record) -> Seq<Record> {
    s.insert(slot(s, r.size), r)
}

/// The records of `s` from the largest to the smallest; records of the same
/// size keep the order they have in `s`.
pub open spec fn ordered(s: Seq<Record>) -> Seq<Record>
    decreases s.len(),
{
    if s.len() == 0 {
        s
    } else {
        place(ordered(s.drop_last()), s.last())
    }
}

/// The first `limit` records of `s`, or all of `s` if it has fewer.
pub open spec fn prefix(s: Seq<Record>, limit: nat) -> Seq<Record> {
    if limit < s.len() {
        s.take(limit as int)
    } else {
        s
    }
}

/// The ranking of a table: its `limit` largest records, largest first.
pub open spec fn top(s: Seq<Record>, limit: nat) -> Seq<Record> {
    prefix(ordered(s), limit)
}

/// Whether no record of `s` is larger than one that stands before it.
pub open spec fn descending(s: Seq<Record>) -> bool {
    forall|i: int, j: int| 0 <= i <= j < s.len() ==> s[i].size >= s[j].size
}

/// The ranked pairs of size and path as records.
pub open spec fn pairs(out: Seq<(u64, String)>) -> Seq<Record> {
    Seq::new(out.len(), |i: int| Record { path: out[i].1@, size: out[i].0 as nat })
}

/// The slot is the one position with nothing smaller before it and something
/// smaller, or the end, at it.
pub proof fn lemma_slot(s: Seq<Record>, size: nat)
    ensures
        0 <= slot(s, size) <= s.len(),
        forall|j: int| 0 <= j < slot(s, size) ==> s[j].size >= size,
        slot(s, size) < s.len() ==> s[slot(s, size)].size < size,
    decreases s.len(),
{
    if s.len() == 0 || s[0].size < size {
    } else {
        let rest = s.drop_first();
        lemma_slot(rest, size);
        assert forall|j: int| 0 <= j < slot(s, size) implies s[j].size >= size by {
            if j > 0 {
                assert(s[j] == rest[j - 1]);
            }
        }
        if slot(s, size) < s.len() {
            assert(s[slot(s, size)] == rest[slot(rest, size)]);
        }
    }
}

/// A position with nothing smaller before it and something smaller, or the
/// end, at it is the slot.
pub proof fn lemma_slot_is(s: Seq<Record>, size: nat, k: int)
    requires
        0 <= k <= s.len(),
        forall|j: int| 0 <= j < k ==> s[j].size >= size,
        k < s.len() ==> s[k].size < size,
    ensures
        slot(s, size) == k,
{
    lemma_slot(s, size);
    let found = slot(s, size);
    if found < k {
        assert(s[found].size >= size);
    } else if k < found {
        assert(s[k].size >= size);
    }
}

/// Cutting the ranking down to `limit` records before a record is placed
/// gives the same first `limit` records as cutting it down afterwards.
pub proof fn lemma_place_prefix(s: Seq<Record>, r: Record, limit: nat)
    ensures
        prefix(place(s, r), limit) == prefix(place(prefix(s, limit), r), limit),
        slot(prefix(s, limit), r.size) == if slot(s, r.size) < prefix(s, limit).len() {
            slot(s, r.size)
        } else {
            prefix(s, limit).len() as int
        },
{
    lemma_slot(s, r.size);
    let k = slot(s, r.size);
    let cut = prefix(s, limit);
    let at = if k < cut.len() {
        k
    } else {
        cut.len() as int
    };
    lemma_slot_is(cut, r.size, at);
    assert(prefix(place(s, r), limit) =~= prefix(place(cut, r), limit));
}

/// The ranking holds as many records as the table.
pub proof fn lemma_ordered_len(s: Seq<Record>)
    ensures
        ordered(s).len() == s.len(),
    decreases s.len(),
{
    if s.len() > 0 {
        lemma_ordered_len(s.drop_last());
        lemma_slot(ordered(s.drop_last()), s.last().size);
    }
}

/// The ranking goes from the largest record to the smallest.
pub proof fn lemma_ordered_descending(s: Seq<Record>)
    ensures
        descending(ordered(s)),
    decreases s.len(),
{
    if s.len() > 0 {
        let before = ordered(s.drop_last());
        let r = s.last();
        lemma_ordered_descending(s.drop_last());
        lemma_slot(before, r.size);
        let k = slot(before, r.size);
        let after = before.insert(k, r);
        assert forall|i: int, j: int| 0 <= i <= j < after.len() implies after[i].size
            >= after[j].size by {
            if j < k {
                assert(after[i] == before[i] && after[j] == before[j]);
            } else if i > k {
                assert(after[i] == before[i - 1] && after[j] == before[j - 1]);
            } else if i == k && j > k {
                assert(after[j] == before[j - 1]);
                assert(before[k].size >= before[j - 1].size);
            } else if i < k && j > k {
                assert(after[i] == before[i] && after[j] == before[j - 1]);
            } else if i < k && j == k {
                assert(after[i] == before[i]);
            }
        }
    }
}

/// The ranking holds exactly the records of the table, each as often as the
/// table holds it.
pub proof fn lemma_ordered_permutes(s: Seq<Record>)
    ensures
        ordered(s).to_multiset() =~= s.to_multiset(),
    decreases s.len(),
{
    broadcast use vstd::seq_lib::group_to_multiset_ensures;

    if s.len() > 0 {
        let before = ordered(s.drop_last());
        let r = s.last();
        lemma_ordered_permutes(s.drop_last());
        lemma_slot(before, r.size);
        let k = slot(before, r.size);
        let after = before.insert(k, r);
        assert(after.remove(k) =~= before);
        assert(after[k] == r);
        assert(before.to_multiset() =~= after.to_multiset().remove(r));
        assert(after.contains(r));
        assert(after.to_multiset() =~= before.to_multiset().insert(r));
        assert(s.drop_last().push(r) =~= s);
        assert(s.to_multiset() =~= s.drop_last().to_multiset().insert(r));
    }
}

/// Top-N correctness: no record that the ranking leaves out is larger than
/// one that it holds, and a limit that is not below the number of records
/// leaves none out.
pub proof fn lemma_top(s: Seq<Record>, limit: nat)
    ensures
        top(s, limit).len() == if limit < s.len() {
            limit
        } else {
            s.len()
        },
        descending(top(s, limit)),
        forall|i: int, j: int|
            0 <= i < top(s, limit).len() <= j < s.len() ==> top(s, limit)[i].size >= ordered(
                s,
            )[j].size,
        limit >= s.len() ==> top(s, limit) == ordered(s),
        ordered(s).to_multiset() =~= s.to_multiset(),
{
    lemma_ordered_len(s);
    lemma_ordered_descending(s);
    lemma_ordered_permutes(s);
}

/// Finds the slot for a record of `size` among the pairs ranked so far.
fn find_slot(best: &Vec<(u64, String)>, size: u64) -> (at: usize)
    ensures
        at == slot(pairs(best@), size as nat),
{
    let mut at: usize = 0;
    while at < best.len() && best[at].0 >= size
        invariant
            at <= best.len(),
            forall|j: int| 0 <= j < at ==> pairs(best@)[j].size >= size,
        decreases best.len() - at,
    {
        at += 1;
    }
    proof {
        lemma_slot_is(pairs(best@), size as nat, at as int);
    }
    at
}

/// The `limit` largest records of the table as pairs of size and path, from
/// the largest to the smallest; all of them if the table has no more than
/// `limit`. Records of the same size come in the order of the table.
pub fn rank(table: &Table, limit: usize) -> (out: Vec<(u64, String)>)
    requires
        table.wf(),
    ensures
        pairs(out@) == top(table@, limit as nat),
        out@.len() == if limit < table@.len() {
            limit as nat
        } else {
            table@.len()
        },
        descending(pairs(out@)),
{
    let n = table.len();
    let mut best: Vec<(u64, String)> = Vec::new();
    let mut i: usize = 0;
    assert(table@.take(0) =~= Seq::<Record>::empty());
    assert(pairs(best@) =~= Seq::<Record>::empty());
    while i < n
        invariant
            i <= n,
            n == table@.len(),
            table.wf(),
            pairs(best@) == top(table@.take(i as int), limit as nat),
        decreases n - i,
    {
        let size = table.size_at(i);
        let at = find_slot(&best, size);
        let ghost seen = table@.take(i as int);
        let ghost r = table@[i as int];
        let ghost was = pairs(best@);
        proof {
            assert(table@.take(i + 1).drop_last() =~= seen);
            assert(table@.take(i + 1).last() == r);
            lemma_ordered_len(seen);
            lemma_place_prefix(ordered(seen), r, limit as nat);
            lemma_slot(was, r.size);
        }
        if at < limit {
            let path = table.path_at(i).clone();
            best.insert(at, (size, path));
            assert(pairs(best@) =~= place(was, r));
            if best.len() > limit {
                best.pop();
                assert(pairs(best@) =~= place(was, r).take(limit as int));
            }
        } else {
            assert(prefix(place(was, r), limit as nat) =~= was);
        }
        i += 1;
    }
    proof {
        assert(table@.take(n as int) =~= table@);
        lemma_top(table@, limit as nat);
    }
    best
}

} // verus!
