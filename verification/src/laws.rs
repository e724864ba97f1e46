//! What holds of every walk: how a directory's total is made up, what an
//! excluded or unreadable directory comes to, and that a walk depends on
//! nothing but the listings it is given.

use vstd::prelude::*;

use crate::entry::{joined, plan, plan_of, EntryView, StepView};
use crate::exclude::{begins_with, components_of, excluded_by, leads, scan};
use crate::rank::top;
use crate::table::{distinct_paths, has_path, index_of, upsert, Record};
use crate::walk::{lemma_plan_bytes, lemma_start_inv, lemma_supply_inv, step_bytes, visits, Walk};

verus! {

/// Every path begins with itself.
pub proof fn lemma_begins_with_itself(path: Seq<char>)
    ensures
        begins_with(path, path),
{
}

/// What begins with a path begins with everything that the path begins with.
pub proof fn lemma_begins_with_chain(path: Seq<char>, middle: Seq<char>, prefix: Seq<char>)
    requires
        begins_with(path, middle),
        begins_with(middle, prefix),
    ensures
        begins_with(path, prefix),
{
    let p = components_of(path);
    let m = components_of(middle);
    let q = components_of(prefix);
    assert forall|i: int| 0 <= i < q.len() implies p[i] == q[i] by {
        assert(m[i] == q[i]);
        assert(p[i] == m[i]);
    }
}

proof fn lemma_scan_grows(s: Seq<char>, t: Seq<char>)
    requires
        s.len() == 0 || s.last() == '/',
    ensures
        leads(scan(s).0, scan(s + t).0),
        leads(scan(s).0, components_of(s + t)),
    decreases t.len(),
{
    if t.len() == 0 {
        assert(s + t =~= s);
    } else {
        assert((s + t).drop_last() =~= s + t.drop_last());
        lemma_scan_grows(s, t.drop_last());
    }
}

/// The path of an entry begins with the path of the directory that holds
/// it, unless the entry's name is absolute.
pub proof fn lemma_joined_begins_with_parent(parent: Seq<char>, name: Seq<char>)
    requires
        name.len() == 0 || name[0] != '/',
    ensures
        begins_with(joined(parent, name), parent),
{
    if parent.len() == 0 {
    } else if parent.last() == '/' {
        lemma_scan_grows(parent, name);
    } else {
        let s = parent.push('/');
        assert(s.drop_last() =~= parent);
        assert(parent + seq!['/'] + name =~= s + name);
        lemma_scan_grows(s, name);
    }
}

/// Everything below an excluded directory is excluded: to leave the
/// directory alone is to leave alone all that it holds.
pub proof fn lemma_excluded_below(parent: Seq<char>, name: Seq<char>, excluded: Seq<Seq<char>>)
    requires
        excluded_by(parent, excluded),
        name.len() == 0 || name[0] != '/',
    ensures
        excluded_by(joined(parent, name), excluded),
{
    let k = choose|k: int| 0 <= k < excluded.len() && begins_with(parent, #[trigger] excluded[k]);
    lemma_joined_begins_with_parent(parent, name);
    lemma_begins_with_chain(joined(parent, name), parent, excluded[k]);
}

/// The totals of the directories from position `lo` up to, not including,
/// position `hi`.
pub open spec fn range_total(w: Walk, lo: int, hi: int) -> nat
    decreases hi - lo,
{
    if lo >= hi {
        0
    } else {
        w.total(lo) + range_total(w, lo + 1, hi)
    }
}

/// What entry `i` of the listing of the directory at `d` contributes to the
/// directory's total: a file its length, a directory that was visited its own
/// total, and every other entry nothing.
pub open spec fn contribution(w: Walk, d: int, i: int) -> nat {
    match plan_of(w.dirs[d].path, w.dirs[d].entries[i], w.excluded) {
        StepView::Skip => 0,
        StepView::Bytes(len) => len as nat,
        StepView::Visit(_) => w.total(
            w.child_at(
                d,
                visits(plan(w.dirs[d].path, w.dirs[d].entries, w.excluded).take(i)).len() as int,
            ),
        ),
    }
}

/// The contributions of the first `n` entries of the listing of the
/// directory at `d`.
pub open spec fn contributions(w: Walk, d: int, n: int) -> nat
    decreases n,
{
    if n <= 0 {
        0
    } else {
        contributions(w, d, n - 1) + contribution(w, d, n - 1)
    }
}

proof fn lemma_range_push(w: Walk, lo: int, hi: int)
    requires
        lo <= hi,
    ensures
        range_total(w, lo, hi + 1) == range_total(w, lo, hi) + w.total(hi),
    decreases hi - lo,
{
    if lo < hi {
        lemma_range_push(w, lo + 1, hi);
    } else {
        assert(range_total(w, lo + 1, hi + 1) == 0);
    }
}

proof fn lemma_no_children_of_unlisted(w: Walk, d: int, from: int)
    requires
        w.inv(),
        0 <= d < w.dirs.len(),
        !w.dirs[d].listed,
        0 <= from,
    ensures
        w.children_total(d, from) == 0,
    decreases w.dirs.len() - from,
{
    if from < w.dirs.len() {
        lemma_no_children_of_unlisted(w, d, from + 1);
        if d < from && w.dirs[from].parent == d {
            assert(w.dirs[d].listed);
        }
    }
}

proof fn lemma_no_children_behind(w: Walk, d: int, from: int)
    requires
        w.inv(),
        0 <= d < w.dirs.len(),
        w.dirs[d].listed,
        w.dirs[d].first_child + w.named(d).len() <= from,
    ensures
        w.children_total(d, from) == 0,
    decreases w.dirs.len() - from,
{
    if from < w.dirs.len() {
        lemma_no_children_behind(w, d, from + 1);
        if d < from && w.dirs[from].parent == d {
            assert(w.dirs[d].first_child <= from < w.dirs[d].first_child + w.named(d).len());
        }
    }
}

proof fn lemma_children_side_by_side(w: Walk, d: int, from: int)
    requires
        w.inv(),
        0 <= d < w.dirs.len(),
        w.dirs[d].listed,
        w.dirs[d].first_child <= from <= w.dirs[d].first_child + w.named(d).len(),
    ensures
        w.children_total(d, from) == range_total(
            w,
            from,
            w.dirs[d].first_child + w.named(d).len(),
        ),
    decreases w.dirs[d].first_child + w.named(d).len() - from,
{
    let end = w.dirs[d].first_child + w.named(d).len();
    if from == end {
        lemma_no_children_behind(w, d, from);
    } else {
        lemma_children_side_by_side(w, d, from + 1);
        let r = from - w.dirs[d].first_child;
        assert(w.child_at(d, r) == from);
        assert(w.dirs[w.child_at(d, r)].parent == d);
    }
}

proof fn lemma_no_children_before(w: Walk, d: int, from: int)
    requires
        w.inv(),
        0 <= d < w.dirs.len(),
        w.dirs[d].listed,
        0 <= from <= w.dirs[d].first_child,
    ensures
        w.children_total(d, from) == w.children_total(d, w.dirs[d].first_child),
    decreases w.dirs[d].first_child - from,
{
    if from < w.dirs[d].first_child {
        lemma_no_children_before(w, d, from + 1);
        if d < from && w.dirs[from].parent == d {
            assert(w.dirs[d].first_child <= from);
        }
    }
}

proof fn lemma_contributions(w: Walk, d: int, n: int)
    requires
        w.inv(),
        0 <= d < w.dirs.len(),
        w.dirs[d].listed,
        0 <= n <= w.dirs[d].entries.len(),
    ensures
        contributions(w, d, n) == step_bytes(
            plan(w.dirs[d].path, w.dirs[d].entries, w.excluded).take(n),
        ) + range_total(
            w,
            w.dirs[d].first_child,
            w.dirs[d].first_child + visits(
                plan(w.dirs[d].path, w.dirs[d].entries, w.excluded).take(n),
            ).len(),
        ),
    decreases n,
{
    let steps = plan(w.dirs[d].path, w.dirs[d].entries, w.excluded);
    let first = w.dirs[d].first_child;
    if n > 0 {
        lemma_contributions(w, d, n - 1);
        assert(steps.take(n).drop_last() =~= steps.take(n - 1));
        assert(steps.take(n).last() == steps[n - 1]);
        let m = visits(steps.take(n - 1)).len() as int;
        if steps[n - 1] is Visit {
            lemma_range_push(w, first, first + m);
        }
    } else {
        assert(steps.take(0) =~= Seq::<StepView>::empty());
    }
}

/// Sum consistency: the total of a listed directory is the sum of what the
/// entries of its listing contribute, where a file contributes its length, a
/// directory that was visited its own total, and any other entry nothing.
pub proof fn lemma_sum_consistency(w: Walk, d: int)
    requires
        w.inv(),
        0 <= d < w.dirs.len(),
        w.dirs[d].listed,
    ensures
        w.total(d) == contributions(w, d, w.dirs[d].entries.len() as int),
{
    let steps = plan(w.dirs[d].path, w.dirs[d].entries, w.excluded);
    lemma_contributions(w, d, w.dirs[d].entries.len() as int);
    assert(steps.take(w.dirs[d].entries.len() as int) =~= steps);
    lemma_plan_bytes(w.dirs[d].path, w.dirs[d].entries, w.excluded);
    lemma_no_children_before(w, d, 0);
    lemma_children_side_by_side(w, d, w.dirs[d].first_child);
}

/// A directory whose path is excluded contributes nothing to the directory
/// that holds it.
pub proof fn lemma_excluded_contributes_nothing(w: Walk, d: int, i: int)
    requires
        0 <= d < w.dirs.len(),
        0 <= i < w.dirs[d].entries.len(),
        w.dirs[d].entries[i].probe is Directory,
        excluded_by(joined(w.dirs[d].path, w.dirs[d].entries[i].name), w.excluded),
    ensures
        contribution(w, d, i) == 0,
{
}

/// An entry that could not be probed contributes nothing.
pub proof fn lemma_unavailable_contributes_nothing(w: Walk, d: int, i: int)
    requires
        0 <= d < w.dirs.len(),
        0 <= i < w.dirs[d].entries.len(),
        w.dirs[d].entries[i].probe is Unavailable,
    ensures
        contribution(w, d, i) == 0,
{
}

/// A directory that could not be listed, or that still waits to be listed,
/// has the total zero.
pub proof fn lemma_unlisted_total(w: Walk, d: int)
    requires
        w.inv(),
        0 <= d < w.dirs.len(),
        !w.dirs[d].listed,
    ensures
        w.total(d) == 0,
{
    lemma_no_children_of_unlisted(w, d, 0);
    assert(w.dirs[d].entries.len() == 0);
}

/// Root failure: a walk whose root cannot be listed is done after that one
/// answer, and has failed.
pub proof fn lemma_root_failure(root: Seq<char>, excluded: Seq<Seq<char>>)
    requires
        !excluded_by(root, excluded),
    ensures
        !Walk::start(root, excluded).done(),
        Walk::start(root, excluded).pending() == seq![root],
        Walk::start(root, excluded).supply(None).done(),
        Walk::start(root, excluded).supply(None).root_failed(),
{
    assert(Walk::start(root, excluded).pending() =~= seq![root]);
}


/// Whether one of the first `n` directories of the walk is listed and stands
/// at `path`.
pub open spec fn listed_before(w: Walk, n: int, path: Seq<char>) -> bool {
    exists|j: int| 0 <= j < n && (#[trigger] w.dirs[j]).listed && w.dirs[j].path == path
}

/// Writing a record adds its path to the paths of the table, and no other.
pub proof fn lemma_upsert_paths(s: Seq<Record>, r: Record, path: Seq<char>)
    ensures
        has_path(upsert(s, r), path) <==> has_path(s, path) || path == r.path,
{
    let after = upsert(s, r);
    if has_path(s, r.path) {
        let at = index_of(s, r.path);
        if has_path(s, path) {
            let i = index_of(s, path);
            assert(after[i].path == path);
        }
        if path == r.path {
            assert(after[at].path == path);
        }
        if has_path(after, path) {
            let i = index_of(after, path);
            if i != at {
                assert(s[i].path == path);
            }
        }
    } else {
        if has_path(s, path) {
            let i = index_of(s, path);
            assert(after[i].path == path);
        }
        if path == r.path {
            assert(after[s.len() as int].path == path);
        }
        if has_path(after, path) {
            let i = index_of(after, path);
            if i < s.len() {
                assert(s[i].path == path);
            }
        }
    }
}

/// Writing a record keeps the paths of a table apart, gives the path of the
/// record its size, and leaves the size of every other path as it was.
pub proof fn lemma_upsert_sizes(s: Seq<Record>, r: Record, path: Seq<char>)
    requires
        distinct_paths(s),
        has_path(upsert(s, r), path),
    ensures
        distinct_paths(upsert(s, r)),
        upsert(s, r)[index_of(upsert(s, r), path)].size == if path == r.path {
            r.size
        } else {
            s[index_of(s, path)].size
        },
{
    let after = upsert(s, r);
    lemma_upsert_paths(s, r, path);
    if has_path(s, r.path) {
        let at = index_of(s, r.path);
        assert forall|i: int, j: int|
            0 <= i < after.len() && 0 <= j < after.len() && (#[trigger] after[i]).path == (
            #[trigger] after[j]).path implies i == j by {
            assert(s[i].path == after[i].path);
            assert(s[j].path == after[j].path);
        }
        let i = index_of(after, path);
        if path == r.path {
            assert(s[i].path == s[at].path);
        } else {
            assert(s[i].path == path);
            assert(index_of(s, path) == i);
        }
    } else {
        assert forall|i: int, j: int|
            0 <= i < after.len() && 0 <= j < after.len() && (#[trigger] after[i]).path == (
            #[trigger] after[j]).path implies i == j by {
            if i < s.len() {
                assert(s[i].path == after[i].path);
            }
            if j < s.len() {
                assert(s[j].path == after[j].path);
            }
        }
        let i = index_of(after, path);
        if path != r.path {
            assert(i < s.len());
            assert(s[i].path == path);
            assert(index_of(s, path) == i);
        } else {
            if i < s.len() {
                assert(s[i].path == r.path);
            }
        }
    }
}

/// The paths of the table are the paths of the listed directories.
pub proof fn lemma_table_paths(w: Walk, n: int, path: Seq<char>)
    requires
        0 <= n <= w.dirs.len(),
    ensures
        has_path(w.table_upto(n), path) <==> listed_before(w, n, path),
        n == w.dirs.len() ==> (has_path(w.table(), path) <==> listed_before(w, n, path)),
    decreases n,
{
    if n > 0 {
        lemma_table_paths(w, n - 1, path);
        let last = w.dirs[n - 1];
        if last.listed {
            lemma_upsert_paths(
                w.table_upto(n - 1),
                Record { path: last.path, size: w.total(n - 1) },
                path,
            );
        }
        if listed_before(w, n, path) {
            let j = choose|j: int|
                0 <= j < n && (#[trigger] w.dirs[j]).listed && w.dirs[j].path == path;
            if j < n - 1 {
                assert(listed_before(w, n - 1, path));
            }
        }
        if listed_before(w, n - 1, path) {
            let j = choose|j: int|
                0 <= j < n - 1 && (#[trigger] w.dirs[j]).listed && w.dirs[j].path == path;
            assert(w.dirs[j].listed && w.dirs[j].path == path);
        }
        if last.listed && last.path == path {
            assert(w.dirs[n - 1].listed && w.dirs[n - 1].path == path);
        }
    }
}

/// Exclusion: a path that begins with an excluded prefix is no key of the
/// result table.
pub proof fn lemma_excluded_never_recorded(w: Walk, path: Seq<char>)
    requires
        w.inv(),
        excluded_by(path, w.excluded),
    ensures
        !has_path(w.table(), path),
{
    lemma_table_paths(w, w.dirs.len() as int, path);
    if listed_before(w, w.dirs.len() as int, path) {
        let j = choose|j: int|
            0 <= j < w.dirs.len() && (#[trigger] w.dirs[j]).listed && w.dirs[j].path == path;
        assert(!excluded_by(w.dirs[j].path, w.excluded));
    }
}

/// Containment: a directory that could not be listed has no record, unless
/// another directory with the same path was listed.
pub proof fn lemma_unlisted_never_recorded(w: Walk, d: int)
    requires
        0 <= d < w.dirs.len(),
        forall|j: int|
            0 <= j < w.dirs.len() && (#[trigger] w.dirs[j]).listed ==> w.dirs[j].path
                != w.dirs[d].path,
    ensures
        !has_path(w.table(), w.dirs[d].path),
{
    lemma_table_paths(w, w.dirs.len() as int, w.dirs[d].path);
}

/// No path is a key of the table twice.
pub proof fn lemma_table_distinct(w: Walk, n: int)
    requires
        0 <= n <= w.dirs.len(),
    ensures
        distinct_paths(w.table_upto(n)),
    decreases n,
{
    if n > 0 {
        lemma_table_distinct(w, n - 1);
        let last = w.dirs[n - 1];
        if last.listed {
            let r = Record { path: last.path, size: w.total(n - 1) };
            lemma_upsert_paths(w.table_upto(n - 1), r, r.path);
            lemma_upsert_sizes(w.table_upto(n - 1), r, r.path);
        }
    }
}

/// The record of a listed directory holds the directory's total, where no
/// directory that was listed later has the same path.
pub proof fn lemma_recorded_total(w: Walk, d: int, n: int)
    requires
        0 <= d < n <= w.dirs.len(),
        w.dirs[d].listed,
        forall|j: int|
            d < j < w.dirs.len() && (#[trigger] w.dirs[j]).listed ==> w.dirs[j].path
                != w.dirs[d].path,
    ensures
        has_path(w.table_upto(n), w.dirs[d].path),
        w.table_upto(n)[index_of(w.table_upto(n), w.dirs[d].path)].size == w.total(d),
    decreases n,
{
    let path = w.dirs[d].path;
    let last = w.dirs[n - 1];
    let before = w.table_upto(n - 1);
    let r = Record { path: last.path, size: w.total(n - 1) };
    lemma_table_distinct(w, n - 1);
    if n - 1 == d {
        lemma_upsert_paths(before, r, path);
        lemma_upsert_sizes(before, r, path);
    } else {
        lemma_recorded_total(w, d, n - 1);
        if last.listed {
            lemma_upsert_paths(before, r, path);
            lemma_upsert_sizes(before, r, path);
        }
    }
}


/// The walk after it took in `answers`, one after the other.
pub open spec fn run(w: Walk, answers: Seq<Option<Seq<EntryView>>>) -> Walk
    decreases answers.len(),
{
    if answers.len() == 0 {
        w
    } else {
        run(w, answers.drop_last()).supply(answers.last())
    }
}

/// What a tree answers when the directory at `path` is to be listed: the
/// entries it holds for the path, or a failure where it holds none.
pub open spec fn lookup(tree: Map<Seq<char>, Seq<EntryView>>, path: Seq<char>) -> Option<
    Seq<EntryView>,
> {
    if tree.contains_key(path) {
        Some(tree[path])
    } else {
        None
    }
}

/// Whether `answers` are what `tree` answers to a walk that begins as `w`:
/// each answer is the listing of the directory that was next when it came.
pub open spec fn answers_from(
    w: Walk,
    tree: Map<Seq<char>, Seq<EntryView>>,
    answers: Seq<Option<Seq<EntryView>>>,
) -> bool {
    forall|i: int|
        0 <= i < answers.len() ==> {
            let at = #[trigger] run(w, answers.take(i));
            !at.done() && answers[i] == lookup(tree, at.dirs[at.cursor].path)
        }
}

proof fn lemma_same_answers(
    w: Walk,
    tree: Map<Seq<char>, Seq<EntryView>>,
    first: Seq<Option<Seq<EntryView>>>,
    second: Seq<Option<Seq<EntryView>>>,
    i: int,
)
    requires
        answers_from(w, tree, first),
        answers_from(w, tree, second),
        0 <= i <= first.len(),
        i <= second.len(),
    ensures
        first.take(i) == second.take(i),
    decreases i,
{
    if i > 0 {
        lemma_same_answers(w, tree, first, second, i - 1);
        let at = run(w, first.take(i - 1));
        assert(at == run(w, second.take(i - 1)));
        assert(first[i - 1] == lookup(tree, at.dirs[at.cursor].path));
        assert(second[i - 1] == lookup(tree, at.dirs[at.cursor].path));
        assert(first.take(i) =~= first.take(i - 1).push(first[i - 1]));
        assert(second.take(i) =~= second.take(i - 1).push(second[i - 1]));
    } else {
        assert(first.take(0) =~= second.take(0));
    }
}

/// Idempotence: two walks of one tree from one root, with the same
/// exclusions, take in the same listings, end in the same state and give the
/// same ranking.
pub proof fn lemma_idempotent(
    root: Seq<char>,
    excluded: Seq<Seq<char>>,
    tree: Map<Seq<char>, Seq<EntryView>>,
    first: Seq<Option<Seq<EntryView>>>,
    second: Seq<Option<Seq<EntryView>>>,
    limit: nat,
)
    requires
        answers_from(Walk::start(root, excluded), tree, first),
        answers_from(Walk::start(root, excluded), tree, second),
        run(Walk::start(root, excluded), first).done(),
        run(Walk::start(root, excluded), second).done(),
    ensures
        first == second,
        run(Walk::start(root, excluded), first) == run(Walk::start(root, excluded), second),
        top(run(Walk::start(root, excluded), first).table(), limit) == top(
            run(Walk::start(root, excluded), second).table(),
            limit,
        ),
{
    let w = Walk::start(root, excluded);
    assert(first.take(first.len() as int) =~= first);
    assert(second.take(second.len() as int) =~= second);
    if first.len() <= second.len() {
        lemma_same_answers(w, tree, first, second, first.len() as int);
        if first.len() < second.len() {
            assert(!run(w, second.take(first.len() as int)).done());
        }
    } else {
        lemma_same_answers(w, tree, first, second, second.len() as int);
        assert(!run(w, first.take(second.len() as int)).done());
    }
}

/// Every walk that began at a start and took listings in has the invariant.
pub proof fn lemma_run_inv(
    root: Seq<char>,
    excluded: Seq<Seq<char>>,
    answers: Seq<Option<Seq<EntryView>>>,
)
    ensures
        run(Walk::start(root, excluded), answers).inv(),
    decreases answers.len(),
{
    if answers.len() == 0 {
        lemma_start_inv(root, excluded);
    } else {
        lemma_run_inv(root, excluded, answers.drop_last());
        lemma_supply_inv(run(Walk::start(root, excluded), answers.drop_last()), answers.last());
    }
}

} // verus!
