//! The exclusion filter: which paths a walk never enters.
//!
//! A path is compared with an exclusion prefix component by component, not
//! character by character: `/proc/1` begins with `/proc`, `/procfs` does not.

use vstd::prelude::*;

verus! {

/// The views of a vector of strings, in order.
pub open spec fn texts(v: Seq<String>) -> Seq<Seq<char>> {
    Seq::new(v.len(), |i: int| v[i]@)
}

/// The views of a vector of character vectors, in order.
pub open spec fn views(v: Seq<Vec<char>>) -> Seq<Seq<char>> {
    Seq::new(v.len(), |i: int| v[i]@)
}

/// Whether a piece between two separators is the single character `.`.
pub open spec fn is_dot(piece: Seq<char>) -> bool {
    piece == seq!['.']
}

/// The components `done` after the piece `cur` has ended: an empty piece
/// (two separators in a row) adds nothing, and neither does `.` unless it is
/// the very first component.
pub open spec fn close(done: Seq<Seq<char>>, cur: Seq<char>) -> Seq<Seq<char>> {
    if cur.len() == 0 || (is_dot(cur) && done.len() > 0) {
        done
    } else {
        done.push(cur)
    }
}

/// Reads `s` from the left: the components that have ended, and the piece
/// that is still open. A leading separator gives the root component `/`.
pub open spec fn scan(s: Seq<char>) -> (Seq<Seq<char>>, Seq<char>)
    decreases s.len(),
{
    if s.len() == 0 {
        (Seq::empty(), Seq::empty())
    } else {
        let before = scan(s.drop_last());
        if s.last() != '/' {
            (before.0, before.1.push(s.last()))
        } else if s.len() == 1 {
            (seq![seq!['/']], Seq::empty())
        } else {
            (close(before.0, before.1), Seq::empty())
        }
    }
}

/// The components of a path: the root `/` if the path starts with a
/// separator, then each maximal run of characters other than the separator,
/// leaving out every `.` that is not the first component.
pub open spec fn components_of(s: Seq<char>) -> Seq<Seq<char>> {
    close(scan(s).0, scan(s).1)
}

/// Whether `q` is an initial segment of `p`.
pub open spec fn leads<A>(q: Seq<A>, p: Seq<A>) -> bool {
    q.len() <= p.len() && forall|i: int| 0 <= i < q.len() ==> p[i] == q[i]
}

/// Whether the components of `path` begin with all the components of `prefix`.
pub open spec fn begins_with(path: Seq<char>, prefix: Seq<char>) -> bool {
    leads(components_of(prefix), components_of(path))
}

/// Whether `path` begins with one of the prefixes in `excluded`.
pub open spec fn excluded_by(path: Seq<char>, excluded: Seq<Seq<char>>) -> bool {
    exists|k: int| 0 <= k < excluded.len() && begins_with(path, #[trigger] excluded[k])
}

/// Copies the characters of `s` into a vector.
pub fn to_chars(s: &str) -> (v: Vec<char>)
    ensures
        v@ == s@,
{
    let mut v: Vec<char> = Vec::new();
    for c in it: s.chars()
        invariant
            v@ == it.seq().take(it.index() as int),
            it.seq() == s@,
    {
        v.push(c);
    }
    v
}

/// Splits a path into its components.
pub fn components(path: &str) -> (out: Vec<Vec<char>>)
    ensures
        views(out@) == components_of(path@),
{
    let chars = to_chars(path);
    let mut done: Vec<Vec<char>> = Vec::new();
    let mut cur: Vec<char> = Vec::new();
    let mut i: usize = 0;
    while i < chars.len()
        invariant
            i <= chars.len(),
            chars@ == path@,
            views(done@) == scan(chars@.take(i as int)).0,
            cur@ == scan(chars@.take(i as int)).1,
        decreases chars.len() - i,
    {
        let c = chars[i];
        proof {
            assert(chars@.take(i + 1).drop_last() == chars@.take(i as int));
            assert(chars@.take(i + 1).last() == c);
        }
        if c != '/' {
            cur.push(c);
        } else if i == 0 {
            let mut root: Vec<char> = Vec::new();
            root.push('/');
            done.push(root);
            cur = Vec::new();
            assert(views(done@) == seq![seq!['/']]);
        } else {
            finish_piece(&mut done, cur);
            cur = Vec::new();
        }
        i += 1;
    }
    proof {
        assert(chars@.take(i as int) == chars@);
    }
    finish_piece(&mut done, cur);
    done
}

/// Ends the piece `cur`, adding it to `done` if it is a component.
fn finish_piece(done: &mut Vec<Vec<char>>, cur: Vec<char>)
    ensures
        views(final(done)@) == close(views(old(done)@), cur@),
{
    let dot = cur.len() == 1 && cur[0] == '.';
    proof {
        if dot {
            assert(cur@ == seq!['.']);
        }
        assert(views(done@).len() == done@.len());
    }
    if cur.len() == 0 || (dot && done.len() > 0) {
    } else {
        let ghost before = views(done@);
        done.push(cur);
        assert(views(done@) == before.push(cur@));
    }
}

/// Whether two character vectors hold the same characters.
fn same_chars(a: &Vec<char>, b: &Vec<char>) -> (same: bool)
    ensures
        same == (a@ == b@),
{
    if a.len() != b.len() {
        return false;
    }
    let mut i: usize = 0;
    while i < a.len()
        invariant
            i <= a.len(),
            a.len() == b.len(),
            forall|j: int| 0 <= j < i ==> a@[j] == b@[j],
        decreases a.len() - i,
    {
        if a[i] != b[i] {
            return false;
        }
        i += 1;
    }
    assert(a@ =~= b@);
    true
}

/// Whether the components `q` are an initial segment of the components `p`.
fn components_lead(q: &Vec<Vec<char>>, p: &Vec<Vec<char>>) -> (yes: bool)
    ensures
        yes == leads(views(q@), views(p@)),
{
    if q.len() > p.len() {
        return false;
    }
    let mut i: usize = 0;
    while i < q.len()
        invariant
            i <= q.len(),
            q.len() <= p.len(),
            forall|j: int| 0 <= j < i ==> views(p@)[j] == views(q@)[j],
        decreases q.len() - i,
    {
        if !same_chars(&q[i], &p[i]) {
            assert(views(p@)[i as int] != views(q@)[i as int]);
            return false;
        }
        i += 1;
    }
    true
}

/// Whether `path` begins, component by component, with `prefix`.
pub fn starts_with(path: &str, prefix: &str) -> (yes: bool)
    ensures
        yes == begins_with(path@, prefix@),
{
    let p = components(path);
    let q = components(prefix);
    components_lead(&q, &p)
}

/// Whether `path` begins with one of the excluded prefixes. The path is taken
/// as written: nothing is resolved or made absolute first.
pub fn is_excluded(path: &str, excluded: &Vec<String>) -> (yes: bool)
    ensures
        yes == excluded_by(path@, texts(excluded@)),
{
    let p = components(path);
    let mut k: usize = 0;
    while k < excluded.len()
        invariant
            k <= excluded.len(),
            views(p@) == components_of(path@),
            forall|j: int| 0 <= j < k ==> !begins_with(path@, #[trigger] texts(excluded@)[j]),
        decreases excluded.len() - k,
    {
        let q = components(excluded[k].as_str());
        if components_lead(&q, &p) {
            assert(begins_with(path@, texts(excluded@)[k as int]));
            return true;
        }
        k += 1;
    }
    false
}

/// The pseudo-filesystem roots that a walk leaves alone unless told otherwise.
pub fn default_exclusions() -> (excluded: Vec<String>)
    ensures
        texts(excluded@) == seq!["/proc"@, "/dev"@, "/sys"@, "/run"@, "/tmp"@, "/var/run"@],
{
    let mut excluded: Vec<String> = Vec::new();
    excluded.push("/proc".to_owned());
    excluded.push("/dev".to_owned());
    excluded.push("/sys".to_owned());
    excluded.push("/run".to_owned());
    excluded.push("/tmp".to_owned());
    excluded.push("/var/run".to_owned());
    assert(texts(excluded@) =~= seq!["/proc"@, "/dev"@, "/sys"@, "/run"@, "/tmp"@, "/var/run"@]);
    excluded
}

} // verus!
