//! The walker: it says which directories it wants listed, takes the listings
//! in one by one, and ends with the result table. It never touches a
//! filesystem itself.

use vstd::prelude::*;

use crate::entry::{entry_views, plan, plan_listing, Entry, EntryView, Probe, Step, StepView};
use crate::exclude::{excluded_by, is_excluded, texts};
use crate::laws::lemma_excluded_never_recorded;
use crate::table::{has_path, Table};
use crate::walk::{
    file_bytes, fresh, lemma_children_total_low, lemma_file_bytes_prefix, lemma_plan_bytes,
    lemma_seen_same, lemma_start_inv, lemma_step_bytes_prefix, lemma_sum_bound,
    lemma_sum_is_seen, lemma_sum_update, lemma_supply_inv, lemma_supply_seen, step_bytes, sum_upto,
    visits, DirView, Walk,
};

verus! {

/// A listing as specifications see it: `None` is a listing that failed.
pub open spec fn listing_view(listing: Option<Vec<Entry>>) -> Option<Seq<EntryView>> {
    match listing {
        None => None,
        Some(entries) => Some(entry_views(entries@)),
    }
}

/// One directory of the walk.
struct Dir {
    path: String,
    parent: usize,
    listed: bool,
    bytes: u64,
    entries: Ghost<Seq<EntryView>>,
    first_child: Ghost<int>,
}

impl View for Dir {
    type V = DirView;

    closed spec fn view(&self) -> DirView {
        DirView {
            path: self.path@,
            parent: self.parent as int,
            listed: self.listed,
            entries: self.entries@,
            first_child: self.first_child@,
        }
    }
}

/// The views of the steps of a plan, in order.
pub open spec fn step_views(steps: Seq<Step>) -> Seq<StepView> {
    Seq::new(steps.len(), |i: int| steps[i]@)
}

/// Carries out the steps of a plan for the directory at position `parent`:
/// adds a pending directory for every visit, and returns the bytes counted.
fn take_steps(dirs: &mut Vec<Dir>, steps: &Vec<Step>, parent: usize) -> (bytes: u64)
    requires
        step_bytes(step_views(steps@)) <= u64::MAX,
    ensures
        bytes as nat == step_bytes(step_views(steps@)),
        final(dirs)@.len() == old(dirs)@.len() + visits(step_views(steps@)).len(),
        forall|j: int| 0 <= j < old(dirs)@.len() ==> final(dirs)@[j] == old(dirs)@[j],
        forall|r: int|
            0 <= r < visits(step_views(steps@)).len() ==> {
                let made = #[trigger] final(dirs)@[old(dirs)@.len() + r];
                made@ == fresh(visits(step_views(steps@))[r], parent as int) && made.bytes == 0
            },
{
    let ghost all = step_views(steps@);
    let ghost first = dirs@.len();
    let mut bytes: u64 = 0;
    let mut i: usize = 0;
    assert(all.take(0) =~= Seq::<StepView>::empty());
    while i < steps.len()
        invariant
            i <= steps.len(),
            all == step_views(steps@),
            first == old(dirs)@.len(),
            step_bytes(all) <= u64::MAX,
            bytes as nat == step_bytes(all.take(i as int)),
            dirs@.len() == first + visits(all.take(i as int)).len(),
            forall|j: int| 0 <= j < first ==> dirs@[j] == old(dirs)@[j],
            forall|r: int|
                0 <= r < visits(all.take(i as int)).len() ==> (#[trigger] dirs@[first + r])@
                    == fresh(visits(all.take(i as int))[r], parent as int) && dirs@[first
                    + r].bytes == 0,
        decreases steps.len() - i,
    {
        proof {
            assert(all.take(i + 1).drop_last() =~= all.take(i as int));
            assert(all.take(i + 1).last() == steps@[i as int]@);
            lemma_step_bytes_prefix(all, i + 1);
        }
        match &steps[i] {
            Step::Skip => {},
            Step::Bytes(len) => {
                bytes = bytes + *len;
            },
            Step::Visit(path) => {
                dirs.push(
                    Dir {
                        path: path.clone(),
                        parent,
                        listed: false,
                        bytes: 0,
                        entries: Ghost(Seq::empty()),
                        first_child: Ghost(0),
                    },
                );
            },
        }
        i += 1;
    }
    assert(all.take(i as int) =~= all);
    bytes
}

/// A walk in progress.
pub struct Walker {
    excluded: Vec<String>,
    dirs: Vec<Dir>,
    cursor: usize,
    seen: u64,
}

impl View for Walker {
    type V = Walk;

    closed spec fn view(&self) -> Walk {
        Walk {
            excluded: texts(self.excluded@),
            dirs: Seq::new(self.dirs@.len(), |j: int| self.dirs@[j]@),
            cursor: self.cursor as int,
        }
    }
}

impl Walker {
    /// The invariant of a walker: its walk is one that began at a start, and
    /// the bytes it has counted are those of the listings it took in.
    pub closed spec fn wf(&self) -> bool {
        &&& self@.inv()
        &&& self.seen as nat == self@.bytes_seen()
        &&& forall|j: int|
            0 <= j < self.dirs@.len() ==> (#[trigger] self.dirs@[j]).bytes as nat == file_bytes(
                self.dirs@[j].entries@,
            )
    }

    /// A walker's walk has the invariant of all walks, and what it has seen
    /// fits in 64 bits.
    pub proof fn lemma_wf(&self)
        requires
            self.wf(),
        ensures
            self@.inv(),
            self@.bytes_seen() <= u64::MAX,
    {
    }

    /// Begins a walk at `root` that leaves alone every path that begins with
    /// one of `excluded`.
    pub fn new(root: &str, excluded: Vec<String>) -> (walker: Walker)
        ensures
            walker.wf(),
            walker@ == Walk::start(root@, texts(excluded@)),
    {
        let mut dirs: Vec<Dir> = Vec::new();
        if !is_excluded(root, &excluded) {
            dirs.push(
                Dir {
                    path: root.to_owned(),
                    parent: 0,
                    listed: false,
                    bytes: 0,
                    entries: Ghost(Seq::empty()),
                    first_child: Ghost(0),
                },
            );
        }
        let walker = Walker { excluded, dirs, cursor: 0, seen: 0 };
        proof {
            lemma_start_inv(root@, texts(excluded@));
            assert(walker@.dirs =~= Walk::start(root@, texts(excluded@)).dirs);
        }
        walker
    }

    /// Whether the walk is over: no directory waits to be listed.
    pub fn is_done(&self) -> (done: bool)
        requires
            self.wf(),
        ensures
            done == self@.done(),
    {
        self.cursor >= self.dirs.len()
    }

    /// The paths of the directories that wait to be listed. The first of
    /// them is the one whose listing [`Walker::supply`] takes next.
    pub fn pending(&self) -> (paths: Vec<String>)
        requires
            self.wf(),
        ensures
            texts(paths@) == self@.pending(),
    {
        let mut paths: Vec<String> = Vec::new();
        let mut j: usize = self.cursor;
        while j < self.dirs.len()
            invariant
                self.cursor <= j <= self.dirs.len(),
                paths@.len() == j - self.cursor,
                forall|i: int|
                    0 <= i < paths@.len() ==> (#[trigger] paths@[i])@ == self.dirs@[self.cursor
                        + i].path@,
            decreases self.dirs.len() - j,
        {
            paths.push(self.dirs[j].path.clone());
            j += 1;
        }
        assert(texts(paths@) =~= self@.pending());
        paths
    }

    /// Whether the walk can take `listing` in without a total leaving the
    /// range of 64 bits.
    pub fn has_room(&self, listing: &Option<Vec<Entry>>) -> (yes: bool)
        requires
            self.wf(),
        ensures
            yes == self@.fits(listing_view(*listing)),
    {
        if self.cursor >= self.dirs.len() {
            return true;
        }
        match listing {
            None => true,
            Some(entries) => {
                let ghost all = entry_views(entries@);
                let mut sum: u64 = self.seen;
                let mut i: usize = 0;
                assert(all.take(0) =~= Seq::<EntryView>::empty());
                while i < entries.len()
                    invariant
                        i <= entries.len(),
                        all == entry_views(entries@),
                        listing_view(*listing) == Some(all),
                        self.wf(),
                        !self@.done(),
                        sum as nat == self.seen as nat + file_bytes(all.take(i as int)),
                    decreases entries.len() - i,
                {
                    proof {
                        assert(all.take(i + 1).drop_last() =~= all.take(i as int));
                        assert(all.take(i + 1).last() == entries@[i as int]@);
                        lemma_file_bytes_prefix(all, i + 1);
                    }
                    match entries[i].probe {
                        Probe::File(len) => {
                            assert(file_bytes(all.take(i + 1)) == file_bytes(all.take(i as int))
                                + len);
                            if len > u64::MAX - sum {
                                return false;
                            }
                            sum = sum + len;
                        },
                        _ => {},
                    }
                    i += 1;
                }
                assert(all.take(i as int) =~= all);
                true
            },
        }
    }

    /// Takes in the listing of the first pending directory. `None` says that
    /// the directory could not be listed: it stays without a record and
    /// counts for nothing. The files of a listing count for the directory,
    /// and the directories it names join the pending ones unless they are
    /// excluded. A walk that is done stays as it is.
    pub fn supply(&mut self, listing: Option<Vec<Entry>>)
        requires
            old(self).wf(),
            old(self)@.fits(listing_view(listing)),
        ensures
            final(self).wf(),
            final(self)@ == old(self)@.supply(listing_view(listing)),
    {
        if self.cursor >= self.dirs.len() {
            return ;
        }
        match listing {
            None => {
                self.take_failure();
            },
            Some(entries) => {
                self.take_listing(entries);
            },
        }
    }

    /// Takes `listing` in if the walk has room for it, and says whether it
    /// did. A listing that is refused leaves the walk as it was.
    pub fn try_supply(&mut self, listing: Option<Vec<Entry>>) -> (taken: bool)
        requires
            old(self).wf(),
        ensures
            final(self).wf(),
            taken == old(self)@.fits(listing_view(listing)),
            final(self)@ == if taken {
                old(self)@.supply(listing_view(listing))
            } else {
                old(self)@
            },
    {
        if self.has_room(&listing) {
            self.supply(listing);
            true
        } else {
            false
        }
    }

    /// Takes in a listing that failed.
    fn take_failure(&mut self)
        requires
            old(self).wf(),
            !old(self)@.done(),
        ensures
            final(self).wf(),
            final(self)@ == old(self)@.supply(None),
    {
        let ghost before = self@;
        let ghost after = before.supply(None);
        proof {
            lemma_supply_inv(before, None);
            lemma_seen_same(before, after, before.dirs.len() as int);
        }
        let n = self.dirs.len();
        assert(self.cursor < n);
        self.cursor = self.cursor + 1;
        assert(self@.dirs =~= before.dirs);
        assert(self@ == after);
    }

    /// Takes in a listing that did not fail.
    fn take_listing(&mut self, entries: Vec<Entry>)
        requires
            old(self).wf(),
            !old(self)@.done(),
            old(self)@.bytes_seen() + file_bytes(entry_views(entries@)) <= u64::MAX,
        ensures
            final(self).wf(),
            final(self)@ == old(self)@.supply(Some(entry_views(entries@))),
    {
        let k = self.cursor;
        let ghost before = self@;
        let ghost all = entry_views(entries@);
        let ghost after = before.supply(Some(all));
        let ghost paths = visits(plan(before.dirs[k as int].path, all, before.excluded));
        let steps = plan_listing(self.dirs[k].path.as_str(), &entries, &self.excluded);
        let first = self.dirs.len();
        proof {
            lemma_supply_inv(before, Some(all));
            lemma_supply_seen(before, all);
            lemma_plan_bytes(before.dirs[k as int].path, all, before.excluded);
            assert(step_views(steps@) =~= plan(before.dirs[k as int].path, all, before.excluded));
        }
        let bytes = take_steps(&mut self.dirs, &steps, k);
        let ghost grown = self.dirs@;
        let here = Dir {
            path: self.dirs[k].path.clone(),
            parent: self.dirs[k].parent,
            listed: true,
            bytes,
            entries: Ghost(all),
            first_child: Ghost(first as int),
        };
        self.dirs.set(k, here);
        self.seen = self.seen + bytes;
        self.cursor = k + 1;
        proof {
            assert(self.dirs@.len() == after.dirs.len());
            assert forall|j: int| 0 <= j < self.dirs@.len() implies (#[trigger] self.dirs@[j])@
                == after.dirs[j] && self.dirs@[j].bytes as nat == file_bytes(
                self.dirs@[j].entries@,
            ) by {
                if j == k {
                    assert(grown[j] == old(self).dirs@[j]);
                } else if j < first {
                    assert(self.dirs@[j] == grown[j]);
                    assert(grown[j] == old(self).dirs@[j]);
                    assert(before.dirs[j] == old(self).dirs@[j]@);
                } else {
                    let r = j - first;
                    assert(self.dirs@[j] == grown[first + r]);
                    assert(grown[first + r]@ == fresh(paths[r], k as int));
                    assert(after.dirs[j] == before.found(all)[r]);
                    assert(file_bytes(Seq::<EntryView>::empty()) == 0);
                }
            }
            assert(self@.dirs =~= after.dirs);
            assert(self@ == after);
            assert(self@.inv());
            assert(self.seen as nat == self@.bytes_seen());
        }
    }

    /// The total of every directory of the walk, by position.
    fn totals(&self) -> (totals: Vec<u64>)
        requires
            self.wf(),
        ensures
            totals@.len() == self@.dirs.len(),
            forall|j: int| 0 <= j < totals@.len() ==> (#[trigger] totals@[j]) as nat == self@.total(j),
    {
        let n = self.dirs.len();
        let ghost w = self@;
        let mut totals: Vec<u64> = Vec::new();
        let mut j: usize = 0;
        while j < n
            invariant
                j <= n,
                n == self.dirs@.len(),
                self.wf(),
                totals@.len() == j,
                forall|i: int|
                    0 <= i < j ==> (#[trigger] totals@[i]) as nat == file_bytes(
                        self@.dirs[i].entries,
                    ),
            decreases n - j,
        {
            assert(self.dirs@[j as int].bytes as nat == file_bytes(self.dirs@[j as int].entries@));
            totals.push(self.dirs[j].bytes);
            j += 1;
        }
        proof {
            lemma_sum_is_seen(w, totals@, n as int);
        }
        let mut k: usize = n;
        while k > 1
            invariant
                k <= n,
                n == self.dirs@.len(),
                w == self@,
                self.wf(),
                totals@.len() == n,
                sum_upto(totals@, k as int) == self.seen,
                forall|i: int|
                    0 <= i < n ==> (#[trigger] totals@[i]) as nat == file_bytes(w.dirs[i].entries)
                        + w.children_total(i, k as int),
            decreases k,
        {
            k -= 1;
            let p = self.dirs[k].parent;
            let ghost was = totals@;
            proof {
                assert(w.dirs[k as int].parent == p);
                assert(0 <= p < k);
                lemma_sum_bound(was, p as int, k as int);
                lemma_children_total_low(w, k as int, 0);
                assert(was[k as int] as nat == w.total(k as int));
            }
            let merged = totals[p] + totals[k];
            totals.set(p, merged);
            proof {
                lemma_sum_update(was, p as int, merged, k as int);
                assert forall|i: int| 0 <= i < n implies (#[trigger] totals@[i]) as nat
                    == file_bytes(w.dirs[i].entries) + w.children_total(i, k as int) by {
                    assert(was[i] as nat == file_bytes(w.dirs[i].entries) + w.children_total(
                        i,
                        k + 1,
                    ));
                }
            }
        }
        proof {
            assert forall|i: int| 0 <= i < totals@.len() implies (#[trigger] totals@[i]) as nat
                == w.total(i) by {
                lemma_children_total_low(w, i, 0);
                lemma_children_total_low(w, i, 1);
            }
        }
        totals
    }

    /// Ends a walk that is done. The walk fails if its root could not be
    /// listed. Otherwise it gives the result table: a record for every
    /// directory that was listed, with the directory's total.
    pub fn finish(self) -> (result: Result<Table, WalkError>)
        requires
            self.wf(),
            self@.done(),
        ensures
            result is Err <==> self@.root_failed(),
            result matches Ok(table) ==> table.wf() && table@ == self@.table(),
            result matches Ok(table) ==> forall|path: Seq<char>|
                excluded_by(path, self@.excluded) ==> !has_path(table@, path),
    {
        proof {
            assert forall|path: Seq<char>| excluded_by(path, self@.excluded) implies !has_path(
                self@.table(),
                path,
            ) by {
                lemma_excluded_never_recorded(self@, path);
            }
        }
        let n = self.dirs.len();
        if n > 0 && !self.dirs[0].listed {
            return Err(WalkError::RootUnreadable);
        }
        let totals = self.totals();
        let mut table = Table::new();
        let mut j: usize = 0;
        while j < n
            invariant
                j <= n,
                n == self.dirs@.len(),
                totals@.len() == n,
                forall|i: int| 0 <= i < n ==> (#[trigger] totals@[i]) as nat == self@.total(i),
                table.wf(),
                table@ == self@.table_upto(j as int),
            decreases n - j,
        {
            if self.dirs[j].listed {
                table.insert(self.dirs[j].path.clone(), totals[j]);
            }
            j += 1;
        }
        Ok(table)
    }
}

/// Why a walk gave no table.
#[derive(Clone, Copy, Debug, PartialEq, Eq)]
pub enum WalkError {
    /// The directory at which the walk began could not be listed.
    RootUnreadable,
}

impl WalkError {
    /// The error in words.
    pub fn message(&self) -> (text: String)
        ensures
            text@ == "the starting directory cannot be listed"@,
    {
        "the starting directory cannot be listed".to_owned()
    }
}

} // verus!
