//! The model of a walk: the directories found so far, which of them have been
//! listed, and what follows from a listing.
//!
//! A walk keeps its directories in the order in which it met them. The
//! directory at the cursor is the next to be listed; the ones behind it wait
//! their turn, the ones before it have been dealt with. A listing adds the
//! directories it names behind all the others.

use vstd::prelude::*;

use crate::entry::{plan, EntryView, Probe, StepView};
use crate::exclude::excluded_by;
use crate::table::{upsert, Record};

verus! {

/// One directory of a walk.
pub ghost struct DirView {
    /// Where the directory is.
    pub path: Seq<char>,
    /// The position of the directory whose listing named this one; the
    /// root's is its own.
    pub parent: int,
    /// Whether a listing of the directory has been taken in.
    pub listed: bool,
    /// The entries of that listing; none before it came, or if it failed.
    pub entries: Seq<EntryView>,
    /// The position that the first directory named by the listing got.
    pub first_child: int,
}

/// The state of a walk.
pub ghost struct Walk {
    pub excluded: Seq<Seq<char>>,
    pub dirs: Seq<DirView>,
    pub cursor: int,
}

/// The lengths of the files among `entries`, added up.
pub open spec fn file_bytes(entries: Seq<EntryView>) -> nat
    decreases entries.len(),
{
    if entries.len() == 0 {
        0
    } else {
        file_bytes(entries.drop_last()) + match entries.last().probe {
            Probe::File(len) => len as nat,
            _ => 0,
        }
    }
}

/// The bytes that `steps` say to count, added up.
pub open spec fn step_bytes(steps: Seq<StepView>) -> nat
    decreases steps.len(),
{
    if steps.len() == 0 {
        0
    } else {
        step_bytes(steps.drop_last()) + match steps.last() {
            StepView::Bytes(len) => len as nat,
            _ => 0,
        }
    }
}

/// The paths of the directories that `steps` say to visit, in order.
pub open spec fn visits(steps: Seq<StepView>) -> Seq<Seq<char>>
    decreases steps.len(),
{
    if steps.len() == 0 {
        Seq::empty()
    } else {
        match steps.last() {
            StepView::Visit(path) => visits(steps.drop_last()).push(path),
            _ => visits(steps.drop_last()),
        }
    }
}

/// A directory that has just been found and waits to be listed.
pub open spec fn fresh(path: Seq<char>, parent: int) -> DirView {
    DirView { path, parent, listed: false, entries: Seq::empty(), first_child: 0 }
}

impl Walk {
    /// A walk before anything was listed: it holds the root, unless the root
    /// is excluded, in which case it holds nothing and is done.
    pub open spec fn start(root: Seq<char>, excluded: Seq<Seq<char>>) -> Walk {
        Walk {
            excluded,
            dirs: if excluded_by(root, excluded) {
                Seq::empty()
            } else {
                seq![fresh(root, 0)]
            },
            cursor: 0,
        }
    }

    /// Whether no directory waits to be listed.
    pub open spec fn done(self) -> bool {
        self.cursor >= self.dirs.len()
    }

    /// The paths of the directories that wait to be listed, the next first.
    pub open spec fn pending(self) -> Seq<Seq<char>> {
        Seq::new((self.dirs.len() - self.cursor) as nat, |i: int| self.dirs[self.cursor + i].path)
    }

    /// The directories that a listing of the directory at the cursor adds.
    pub open spec fn found(self, entries: Seq<EntryView>) -> Seq<DirView> {
        let paths = visits(plan(self.dirs[self.cursor].path, entries, self.excluded));
        Seq::new(paths.len(), |i: int| fresh(paths[i], self.cursor))
    }

    /// The walk after the listing of the directory at the cursor came in.
    /// `None` is a listing that failed: the directory stays unlisted. A walk
    /// that is done takes nothing in.
    pub open spec fn supply(self, listing: Option<Seq<EntryView>>) -> Walk {
        if self.done() {
            self
        } else {
            match listing {
                None => Walk { cursor: self.cursor + 1, ..self },
                Some(entries) => Walk {
                    dirs: self.dirs.update(
                        self.cursor,
                        DirView {
                            listed: true,
                            entries,
                            first_child: self.dirs.len() as int,
                            ..self.dirs[self.cursor]
                        },
                    ) + self.found(entries),
                    cursor: self.cursor + 1,
                    ..self
                },
            }
        }
    }

    /// The lengths of the files in the listings of the first `n` directories.
    pub open spec fn seen_upto(self, n: int) -> nat
        decreases n,
    {
        if n <= 0 {
            0
        } else {
            self.seen_upto(n - 1) + file_bytes(self.dirs[n - 1].entries)
        }
    }

    /// The lengths of all files that the walk has been told of.
    pub open spec fn bytes_seen(self) -> nat {
        self.seen_upto(self.dirs.len() as int)
    }

    /// Whether the walk can take `listing` in and still hold every total in
    /// 64 bits.
    pub open spec fn fits(self, listing: Option<Seq<EntryView>>) -> bool {
        match listing {
            Some(entries) => self.done() || self.bytes_seen() + file_bytes(entries) <= u64::MAX,
            None => true,
        }
    }

    /// The total of the directory at `d`: the files in its listing and the
    /// totals of the directories that the listing named. It is zero for a
    /// directory that is not listed.
    pub open spec fn total(self, d: int) -> nat
        decreases self.dirs.len() - d, self.dirs.len() + 1,
    {
        if 0 <= d < self.dirs.len() {
            file_bytes(self.dirs[d].entries) + self.children_total(d, 0)
        } else {
            0
        }
    }

    /// The totals of the directories from position `from` on whose parent is
    /// the directory at `d`.
    pub open spec fn children_total(self, d: int, from: int) -> nat
        decreases self.dirs.len() - d, self.dirs.len() - from,
    {
        if 0 <= d < self.dirs.len() && 0 <= from < self.dirs.len() {
            (if d < from && self.dirs[from].parent == d {
                self.total(from)
            } else {
                0
            }) + self.children_total(d, from + 1)
        } else {
            0
        }
    }

    /// The table after the first `n` directories wrote their records: each
    /// listed directory writes its path and total, in the order of the walk.
    pub open spec fn table_upto(self, n: int) -> Seq<Record>
        decreases n,
    {
        if n <= 0 {
            Seq::empty()
        } else if self.dirs[n - 1].listed {
            upsert(
                self.table_upto(n - 1),
                Record { path: self.dirs[n - 1].path, size: self.total(n - 1) },
            )
        } else {
            self.table_upto(n - 1)
        }
    }

    /// The result table of the walk.
    pub open spec fn table(self) -> Seq<Record> {
        self.table_upto(self.dirs.len() as int)
    }

    /// Whether the listing of the root has failed.
    pub open spec fn root_failed(self) -> bool {
        self.dirs.len() > 0 && self.cursor > 0 && !self.dirs[0].listed
    }

    /// The paths that the listing of the directory at `d` named for a visit.
    pub open spec fn named(self, d: int) -> Seq<Seq<char>> {
        visits(plan(self.dirs[d].path, self.dirs[d].entries, self.excluded))
    }

    /// The position of the directory that the listing of the directory at
    /// `d` named as its `r`-th visit.
    pub open spec fn child_at(self, d: int, r: int) -> int {
        self.dirs[d].first_child + r
    }

    /// What holds of every walk that began at `start` and took listings in.
    pub open spec fn inv(self) -> bool {
        self.shape() && self.layout()
    }

    /// The directories that a listing named stand side by side, in the order
    /// in which it named them, behind the directory that was listed; and no
    /// other directory has it as its parent.
    pub open spec fn layout(self) -> bool {
        &&& forall|d: int|
            0 <= d < self.dirs.len() && (#[trigger] self.dirs[d]).listed ==> d
                < self.dirs[d].first_child && self.dirs[d].first_child + self.named(d).len()
                <= self.dirs.len()
        &&& forall|d: int, r: int|
            0 <= d < self.dirs.len() && self.dirs[d].listed && 0 <= r < self.named(d).len() ==> {
                let child = self.dirs[#[trigger] self.child_at(d, r)];
                child.parent == d && child.path == self.named(d)[r]
            }
        &&& forall|j: int, p: int|
            1 <= j < self.dirs.len() && 0 <= p < self.dirs.len() && (#[trigger] self.dirs[j]).parent
                == p ==> (#[trigger] self.dirs[p]).first_child <= j < self.dirs[p].first_child
                + self.named(p).len()
    }

    /// No directory is excluded, the ones from the cursor on are untouched,
    /// and every other one than the root was named by the listing of a
    /// directory before it.
    pub open spec fn shape(self) -> bool {
        &&& 0 <= self.cursor <= self.dirs.len()
        &&& forall|j: int|
            0 <= j < self.dirs.len() ==> !excluded_by((#[trigger] self.dirs[j]).path, self.excluded)
        &&& forall|j: int|
            self.cursor <= j < self.dirs.len() ==> !(#[trigger] self.dirs[j]).listed
                && self.dirs[j].entries.len() == 0
        &&& forall|j: int|
            0 <= j < self.cursor && !(#[trigger] self.dirs[j]).listed ==> self.dirs[j].entries.len()
                == 0
        &&& forall|j: int|
            1 <= j < self.dirs.len() ==> 0 <= (#[trigger] self.dirs[j]).parent < j
                && self.dirs[j].parent < self.cursor
        &&& forall|j: int, p: int|
            1 <= j < self.dirs.len() && 0 <= p < self.dirs.len() && (#[trigger] self.dirs[j]).parent
                == p ==> (#[trigger] self.dirs[p]).listed
        &&& self.dirs.len() > 0 ==> self.dirs[0].parent == 0
    }
}

/// The files of the first entries of a listing are no more than all of them.
pub proof fn lemma_file_bytes_prefix(entries: Seq<EntryView>, i: int)
    requires
        0 <= i <= entries.len(),
    ensures
        file_bytes(entries.take(i)) <= file_bytes(entries),
    decreases entries.len(),
{
    if i == entries.len() {
        assert(entries.take(i) =~= entries);
    } else {
        assert(entries.drop_last().take(i) =~= entries.take(i));
        lemma_file_bytes_prefix(entries.drop_last(), i);
    }
}

/// The bytes of the first steps of a plan are no more than those of all.
pub proof fn lemma_step_bytes_prefix(steps: Seq<StepView>, i: int)
    requires
        0 <= i <= steps.len(),
    ensures
        step_bytes(steps.take(i)) <= step_bytes(steps),
    decreases steps.len(),
{
    if i == steps.len() {
        assert(steps.take(i) =~= steps);
    } else {
        assert(steps.drop_last().take(i) =~= steps.take(i));
        lemma_step_bytes_prefix(steps.drop_last(), i);
    }
}

/// A plan counts exactly the files of the listing it was made for.
pub proof fn lemma_plan_bytes(parent: Seq<char>, entries: Seq<EntryView>, excluded: Seq<Seq<char>>)
    ensures
        step_bytes(plan(parent, entries, excluded)) == file_bytes(entries),
    decreases entries.len(),
{
    if entries.len() > 0 {
        assert(plan(parent, entries, excluded).drop_last() =~= plan(
            parent,
            entries.drop_last(),
            excluded,
        ));
        lemma_plan_bytes(parent, entries.drop_last(), excluded);
    }
}

/// Every path that a plan says to visit is not excluded.
pub proof fn lemma_visits_not_excluded(
    parent: Seq<char>,
    entries: Seq<EntryView>,
    excluded: Seq<Seq<char>>,
    r: int,
)
    requires
        0 <= r < visits(plan(parent, entries, excluded)).len(),
    ensures
        !excluded_by(visits(plan(parent, entries, excluded))[r], excluded),
    decreases entries.len(),
{
    let steps = plan(parent, entries, excluded);
    assert(steps.drop_last() =~= plan(parent, entries.drop_last(), excluded));
    if steps.last() is Visit && r == visits(steps).len() - 1 {
    } else {
        lemma_visits_not_excluded(parent, entries.drop_last(), excluded, r);
    }
}

/// A start is a walk of which the invariant holds, with nothing seen yet.
pub proof fn lemma_start_inv(root: Seq<char>, excluded: Seq<Seq<char>>)
    ensures
        Walk::start(root, excluded).inv(),
        Walk::start(root, excluded).bytes_seen() == 0,
{
    let w = Walk::start(root, excluded);
    if w.dirs.len() > 0 {
        assert(w.seen_upto(0) == 0);
        assert(w.seen_upto(1) == 0);
    }
}

/// Taking a listing in keeps the invariant.
pub proof fn lemma_supply_inv(w: Walk, listing: Option<Seq<EntryView>>)
    requires
        w.inv(),
    ensures
        w.supply(listing).inv(),
{
    lemma_supply_shape(w, listing);
    lemma_supply_layout(w, listing);
}

/// Taking a listing in keeps the directories that a listing named together.
pub proof fn lemma_supply_layout(w: Walk, listing: Option<Seq<EntryView>>)
    requires
        w.inv(),
    ensures
        w.supply(listing).layout(),
{
    let after = w.supply(listing);
    if !w.done() {
        match listing {
            None => {
                assert forall|d: int, r: int|
                    0 <= d < after.dirs.len() && after.dirs[d].listed && 0 <= r < after.named(
                        d,
                    ).len() implies {
                    let child = after.dirs[#[trigger] after.child_at(d, r)];
                    child.parent == d && child.path == after.named(d)[r]
                } by {
                    assert(after.named(d) == w.named(d));
                    assert(after.child_at(d, r) == w.child_at(d, r));
                }
                assert forall|j: int, p: int|
                    1 <= j < after.dirs.len() && 0 <= p < after.dirs.len() && (
                    #[trigger] after.dirs[j]).parent == p implies (
                #[trigger] after.dirs[p]).first_child <= j < after.dirs[p].first_child
                    + after.named(p).len() by {
                    assert(after.named(p) == w.named(p));
                }
            },
            Some(entries) => {
                let k = w.cursor;
                let n = w.dirs.len() as int;
                assert forall|d: int| 0 <= d < after.dirs.len() implies (after.named(d) == if d
                    == k {
                    visits(plan(w.dirs[k].path, entries, w.excluded))
                } else if d < n {
                    w.named(d)
                } else {
                    Seq::<Seq<char>>::empty()
                }) by {
                    if d >= n {
                        assert(after.dirs[d].entries.len() == 0);
                        assert(plan(after.dirs[d].path, after.dirs[d].entries, after.excluded)
                            =~= Seq::<StepView>::empty());
                    } else if d != k {
                        assert(after.dirs[d] == w.dirs[d]);
                    }
                }
                assert forall|d: int|
                    0 <= d < after.dirs.len() && (#[trigger] after.dirs[d]).listed implies d
                    < after.dirs[d].first_child && after.dirs[d].first_child + after.named(d).len()
                    <= after.dirs.len() by {
                    if d != k {
                        assert(d < n);
                        assert(after.dirs[d] == w.dirs[d]);
                        assert(w.dirs[d].listed);
                    }
                }
                assert forall|d: int, r: int|
                    0 <= d < after.dirs.len() && after.dirs[d].listed && 0 <= r < after.named(
                        d,
                    ).len() implies {
                    let child = after.dirs[#[trigger] after.child_at(d, r)];
                    child.parent == d && child.path == after.named(d)[r]
                } by {
                    if d == k {
                        assert(after.child_at(d, r) == n + r);
                        assert(after.dirs[n + r] == w.found(entries)[r]);
                    } else {
                        assert(d < n);
                        assert(after.dirs[d] == w.dirs[d]);
                        assert(w.dirs[d].listed);
                        assert(after.child_at(d, r) == w.child_at(d, r));
                        let c = w.child_at(d, r);
                        assert(w.dirs[c].parent == d);
                        assert(c < n);
                        assert(after.dirs[c].parent == w.dirs[c].parent);
                        assert(after.dirs[c].path == w.dirs[c].path);
                    }
                }
                assert forall|j: int, p: int|
                    1 <= j < after.dirs.len() && 0 <= p < after.dirs.len() && (
                    #[trigger] after.dirs[j]).parent == p implies (
                #[trigger] after.dirs[p]).first_child <= j < after.dirs[p].first_child
                    + after.named(p).len() by {
                    if j < n {
                        assert(w.dirs[j].parent == p);
                        assert(p < k);
                        assert(after.dirs[p] == w.dirs[p]);
                    } else {
                        assert(after.dirs[j] == w.found(entries)[j - n]);
                    }
                }
            },
        }
    }
}

/// Taking a listing in keeps the shape of the walk.
pub proof fn lemma_supply_shape(w: Walk, listing: Option<Seq<EntryView>>)
    requires
        w.shape(),
    ensures
        w.supply(listing).shape(),
{
    let after = w.supply(listing);
    if !w.done() {
        match listing {
            None => {},
            Some(entries) => {
                let k = w.cursor;
                let n = w.dirs.len() as int;
                assert forall|j: int| 0 <= j < after.dirs.len() implies !excluded_by(
                    (#[trigger] after.dirs[j]).path,
                    after.excluded,
                ) by {
                    if j >= n {
                        lemma_visits_not_excluded(w.dirs[k].path, entries, w.excluded, j - n);
                    } else {
                        assert(after.dirs[j].path == w.dirs[j].path);
                    }
                }
                assert forall|j: int| 1 <= j < after.dirs.len() implies 0 <= (
                #[trigger] after.dirs[j]).parent < j && after.dirs[j].parent < after.cursor by {
                    if j < n {
                        assert(after.dirs[j].parent == w.dirs[j].parent);
                    }
                }
                assert forall|j: int, p: int|
                    1 <= j < after.dirs.len() && 0 <= p < after.dirs.len() && (
                    #[trigger] after.dirs[j]).parent == p implies (
                #[trigger] after.dirs[p]).listed by {
                    if j < n {
                        assert(w.dirs[j].parent == p);
                        if p != k {
                            assert(w.dirs[p].listed);
                        }
                    }
                }
                assert forall|j: int| 0 <= j < after.cursor && !(
                #[trigger] after.dirs[j]).listed implies after.dirs[j].entries.len() == 0 by {
                    assert(after.dirs[j] == w.dirs[j]);
                }
            },
        }
    }
}

/// What was seen up to `n` depends on the listings before `n` alone.
pub proof fn lemma_seen_same(a: Walk, b: Walk, n: int)
    requires
        n <= a.dirs.len(),
        n <= b.dirs.len(),
        forall|j: int| 0 <= j < n ==> (#[trigger] a.dirs[j]).entries == b.dirs[j].entries,
    ensures
        a.seen_upto(n) == b.seen_upto(n),
    decreases n,
{
    if n > 0 {
        lemma_seen_same(a, b, n - 1);
        assert(a.dirs[n - 1].entries == b.dirs[n - 1].entries);
    }
}

/// Directories without entries add nothing to what was seen.
pub proof fn lemma_seen_empty_tail(w: Walk, m: int, n: int)
    requires
        0 <= m <= n <= w.dirs.len(),
        forall|j: int| m <= j < n ==> (#[trigger] w.dirs[j]).entries.len() == 0,
    ensures
        w.seen_upto(n) == w.seen_upto(m),
    decreases n - m,
{
    if m < n {
        lemma_seen_empty_tail(w, m, n - 1);
        assert(w.dirs[n - 1].entries.len() == 0);
    }
}

/// A listing adds the lengths of its files to what was seen.
pub proof fn lemma_supply_seen(w: Walk, entries: Seq<EntryView>)
    requires
        w.inv(),
        !w.done(),
    ensures
        w.supply(Some(entries)).bytes_seen() == w.bytes_seen() + file_bytes(entries),
{
    let after = w.supply(Some(entries));
    let k = w.cursor;
    let n = w.dirs.len() as int;
    lemma_seen_same(w, after, k);
    lemma_seen_empty_tail(w, k, n);
    assert(after.seen_upto(k + 1) == w.seen_upto(k) + file_bytes(entries));
    assert forall|j: int| k + 1 <= j < after.dirs.len() implies (
    #[trigger] after.dirs[j]).entries.len() == 0 by {
        if j < n {
            assert(after.dirs[j] == w.dirs[j]);
        }
    }
    lemma_seen_empty_tail(after, k + 1, after.dirs.len() as int);
}

/// The directories that stand at or before `d` are no children of it.
pub proof fn lemma_children_total_low(w: Walk, d: int, from: int)
    requires
        0 <= from <= d + 1,
    ensures
        w.children_total(d, from) == w.children_total(d, d + 1),
    decreases d + 1 - from,
{
    if from <= d {
        lemma_children_total_low(w, d, from + 1);
    }
}

/// The numbers of `s` before position `n`, added up.
pub open spec fn sum_upto(s: Seq<u64>, n: int) -> nat
    decreases n,
{
    if n <= 0 {
        0
    } else {
        sum_upto(s, n - 1) + s[n - 1] as nat
    }
}

/// Each number is at most the sum it is part of.
pub proof fn lemma_sum_bound(s: Seq<u64>, p: int, n: int)
    requires
        0 <= p < n <= s.len(),
    ensures
        s[p] as nat <= sum_upto(s, n),
    decreases n,
{
    if p < n - 1 {
        lemma_sum_bound(s, p, n - 1);
    }
}

/// Changing one number changes the sums that it is part of by as much.
pub proof fn lemma_sum_update(s: Seq<u64>, p: int, v: u64, n: int)
    requires
        0 <= p < s.len(),
        0 <= n <= s.len(),
    ensures
        sum_upto(s.update(p, v), n) == if p < n {
            sum_upto(s, n) - s[p] + v
        } else {
            sum_upto(s, n) as int
        },
    decreases n,
{
    if n > 0 {
        lemma_sum_update(s, p, v, n - 1);
        if p < n - 1 {
            lemma_sum_bound(s, p, n - 1);
        }
    }
}

/// Where each number is what the files of one listing come to, the sums are
/// what was seen.
pub proof fn lemma_sum_is_seen(w: Walk, s: Seq<u64>, n: int)
    requires
        0 <= n <= w.dirs.len(),
        s.len() == w.dirs.len(),
        forall|j: int| 0 <= j < n ==> (#[trigger] s[j]) as nat == file_bytes(w.dirs[j].entries),
    ensures
        sum_upto(s, n) == w.seen_upto(n),
    decreases n,
{
    if n > 0 {
        lemma_sum_is_seen(w, s, n - 1);
        assert(s[n - 1] as nat == file_bytes(w.dirs[n - 1].entries));
    }
}

} // verus!
