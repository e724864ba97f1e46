//! What a filesystem reports about one entry of a directory, and what a walk
//! does with it.

use rayon::iter::{IntoParallelRefIterator, ParallelIterator};
use vstd::prelude::*;
use vstd::string::*;

use crate::exclude::{excluded_by, is_excluded, texts};

verus! {

/// What a metadata probe found out about an entry.
#[derive(Clone, Copy, Debug, PartialEq, Eq)]
pub enum Probe {
    /// The probe failed: neither kind nor size is known.
    Unavailable,
    /// Anything that is not a directory, with its length in bytes.
    File(u64),
    /// A directory.
    Directory,
}

/// One entry of a directory listing.
#[derive(Clone, Debug, PartialEq, Eq)]
pub struct Entry {
    pub name: String,
    pub probe: Probe,
}

/// An [`Entry`] as specifications see it.
pub ghost struct EntryView {
    pub name: Seq<char>,
    pub probe: Probe,
}

impl View for Entry {
    type V = EntryView;

    open spec fn view(&self) -> EntryView {
        EntryView { name: self.name@, probe: self.probe }
    }
}

/// What a walk does with one entry.
#[derive(Clone, Debug, PartialEq, Eq)]
pub enum Step {
    /// Nothing: the entry counts for zero bytes.
    Skip,
    /// Count this many bytes for the directory that holds the entry.
    Bytes(u64),
    /// Walk the directory at this path.
    Visit(String),
}

/// A [`Step`] as specifications see it.
pub ghost enum StepView {
    Skip,
    Bytes(u64),
    Visit(Seq<char>),
}

impl View for Step {
    type V = StepView;

    open spec fn view(&self) -> StepView {
        match self {
            Step::Skip => StepView::Skip,
            Step::Bytes(len) => StepView::Bytes(*len),
            Step::Visit(path) => StepView::Visit(path@),
        }
    }
}

/// The views of a listing's entries, in order.
pub open spec fn entry_views(entries: Seq<Entry>) -> Seq<EntryView> {
    Seq::new(entries.len(), |i: int| entries[i]@)
}

/// The path of the entry `name` of the directory `parent`: an absolute name
/// stands alone, otherwise the two are put together with exactly one
/// separator between them.
pub open spec fn joined(parent: Seq<char>, name: Seq<char>) -> Seq<char> {
    if name.len() > 0 && name[0] == '/' {
        name
    } else if parent.len() == 0 || parent.last() == '/' {
        parent + name
    } else {
        parent + seq!['/'] + name
    }
}

/// What a walk does with `entry` of the directory `parent`: an entry that
/// could not be probed is skipped, a file counts its length, and a directory
/// is visited unless its path is excluded.
pub open spec fn plan_of(parent: Seq<char>, entry: EntryView, excluded: Seq<Seq<char>>) -> StepView {
    match entry.probe {
        Probe::Unavailable => StepView::Skip,
        Probe::File(len) => StepView::Bytes(len),
        Probe::Directory => {
            if excluded_by(joined(parent, entry.name), excluded) {
                StepView::Skip
            } else {
                StepView::Visit(joined(parent, entry.name))
            }
        },
    }
}

/// The steps for a whole listing, entry by entry.
pub open spec fn plan(parent: Seq<char>, entries: Seq<EntryView>, excluded: Seq<Seq<char>>) -> Seq<
    StepView,
> {
    Seq::new(entries.len(), |i: int| plan_of(parent, entries[i], excluded))
}

/// Builds the path of the entry `name` of the directory `parent`.
pub fn join(parent: &str, name: &str) -> (path: String)
    ensures
        path@ == joined(parent@, name@),
{
    if !name.is_empty() && name.get_char(0) == '/' {
        return name.to_owned();
    }
    let n = parent.unicode_len();
    let mut path = parent.to_owned();
    if n > 0 && parent.get_char(n - 1) != '/' {
        proof {
            reveal_strlit("/");
        }
        path.append("/");
        assert("/"@ == seq!['/']);
    }
    path.append(name);
    path
}

/// Decides what a walk does with one entry of the directory `parent`.
pub fn plan_entry(parent: &str, entry: &Entry, excluded: &Vec<String>) -> (step: Step)
    ensures
        step@ == plan_of(parent@, entry@, texts(excluded@)),
{
    match entry.probe {
        Probe::Unavailable => Step::Skip,
        Probe::File(len) => Step::Bytes(len),
        Probe::Directory => {
            let child = join(parent, entry.name.as_str());
            if is_excluded(child.as_str(), excluded) {
                Step::Skip
            } else {
                Step::Visit(child)
            }
        },
    }
}

/// Plans every entry of a listing on rayon's thread pool. The body is the
/// chain `par_iter`, `map`, `collect` of rayon's `IntoParallelRefIterator` and
/// `ParallelIterator`, with [`plan_entry`] as the function that is mapped.
/// Not proved, but taken from rayon: `map` applies the function to each item,
/// and `collect` into a vector keeps the order of the items, so that there is
/// one step for each entry, at the entry's position.
#[verifier::external_body]
pub(crate) fn plan_listing(parent: &str, entries: &Vec<Entry>, excluded: &Vec<String>) -> (steps:
    Vec<Step>)
    ensures
        steps@.len() == entries@.len(),
        forall|i: int|
            0 <= i < entries@.len() ==> (#[trigger] steps@[i])@ == plan_of(
                parent@,
                entries@[i]@,
                texts(excluded@),
            ),
{
    entries.par_iter().map(|entry| plan_entry(parent, entry, excluded)).collect()
}

} // verus!
