//! The walk below a root path, as a state machine.
//!
//! The caller reads the filesystem: it asks the walk for the next directory to
//! list, lists it, and hands the listing back. The walk decides what is kept,
//! which directories remain to be listed, and how the collection ends.

use vstd::prelude::*;
use crate::filter::{select, select_files};

verus! {

/// What a filesystem entry is, following symbolic links.
#[derive(Clone, Copy, PartialEq, Eq, Structural, Debug)]
pub enum EntryKind {
    File,
    Dir,
    /// Neither a regular file nor a directory: a broken link, a socket,
    /// a path that does not exist.
    Other,
}

/// Why a collection failed.
#[derive(Clone, Copy, PartialEq, Eq, Structural, Debug)]
pub enum CollectError {
    /// The root path is neither a regular file nor a directory.
    NotFound,
    /// No file is left once the filter is applied.
    EmptyResult,
}

/// One entry of a directory listing: its full path and its kind.
#[derive(Debug)]
pub struct Entry {
    pub path: String,
    pub kind: EntryKind,
}

impl View for Entry {
    type V = (Seq<char>, EntryKind);

    open spec fn view(&self) -> (Seq<char>, EntryKind) {
        (self.path@, self.kind)
    }
}

/// A listing as paths and kinds.
pub open spec fn listing_view(es: Seq<Entry>) -> Seq<(Seq<char>, EntryKind)> {
    es.map_values(|e: Entry| e@)
}

/// The paths of the entries of kind `k`, in listing order.
pub open spec fn of_kind(listing: Seq<(Seq<char>, EntryKind)>, k: EntryKind) -> Seq<Seq<char>>
    decreases listing.len(),
{
    if listing.len() == 0 {
        Seq::empty()
    } else {
        let rest = of_kind(listing.drop_last(), k);
        if listing.last().1 == k {
            rest.push(listing.last().0)
        } else {
            rest
        }
    }
}

/// The state of a walk: directories still to be listed, and the regular
/// files found so far.
pub struct WalkState {
    pub pending: Seq<Seq<char>>,
    pub files: Seq<Seq<char>>,
}

/// The state a walk starts in, or the error it cannot start with.
pub open spec fn start_spec(root: Seq<char>, kind: EntryKind) -> Result<WalkState, CollectError> {
    match kind {
        EntryKind::File => Ok(WalkState { pending: Seq::empty(), files: seq![root] }),
        EntryKind::Dir => Ok(WalkState { pending: seq![root], files: Seq::empty() }),
        EntryKind::Other => Err(CollectError::NotFound),
    }
}

/// The state after the directory last in line was taken out to be listed.
pub open spec fn take_spec(w: WalkState) -> WalkState {
    WalkState { pending: w.pending.drop_last(), files: w.files }
}

/// The state after a listing was handed in: its files are kept, its
/// directories wait their turn, anything else is passed over.
pub open spec fn record_spec(w: WalkState, listing: Seq<(Seq<char>, EntryKind)>) -> WalkState {
    WalkState {
        pending: w.pending + of_kind(listing, EntryKind::Dir),
        files: w.files + of_kind(listing, EntryKind::File),
    }
}

/// How a collection ends on the files found: the ones that pass the filter,
/// or `EmptyResult` when none does.
pub open spec fn outcome(
    files: Seq<Seq<char>>,
    filter: Option<Seq<Seq<char>>>,
) -> Result<Seq<Seq<char>>, CollectError> {
    if select(files, filter).len() == 0 {
        Err(CollectError::EmptyResult)
    } else {
        Ok(select(files, filter))
    }
}

/// The paths of a collection's result.
pub open spec fn result_view(r: Result<Vec<String>, CollectError>) -> Result<Seq<Seq<char>>, CollectError> {
    match r {
        Ok(v) => Ok(v.deep_view()),
        Err(e) => Err(e),
    }
}

/// A walk in progress.
pub struct Walk {
    pending: Vec<String>,
    files: Vec<String>,
}

impl View for Walk {
    type V = WalkState;

    closed spec fn view(&self) -> WalkState {
        WalkState { pending: self.pending.deep_view(), files: self.files.deep_view() }
    }
}

impl Walk {
    /// Starts a walk at `root`: a regular file is the whole result, a
    /// directory is listed first, anything else is `NotFound`.
    pub fn start(root: String, kind: EntryKind) -> (r: Result<Walk, CollectError>)
        ensures
            match (r, start_spec(root@, kind)) {
                (Ok(w), Ok(s)) => w@ == s,
                (Err(e), Err(f)) => e == f,
                _ => false,
            },
    {
        match kind {
            EntryKind::File => {
                let mut files: Vec<String> = Vec::new();
                files.push(root);
                let w = Walk { pending: Vec::new(), files };
                assert(w@.files =~= seq![root@]);
                assert(w@.pending =~= Seq::<Seq<char>>::empty());
                Ok(w)
            },
            EntryKind::Dir => {
                let mut pending: Vec<String> = Vec::new();
                pending.push(root);
                let w = Walk { pending, files: Vec::new() };
                assert(w@.pending =~= seq![root@]);
                assert(w@.files =~= Seq::<Seq<char>>::empty());
                Ok(w)
            },
            EntryKind::Other => Err(CollectError::NotFound),
        }
    }

    /// The next directory to list, the one found last; `None` once every
    /// directory has been listed.
    pub fn next_dir(&mut self) -> (r: Option<String>)
        ensures
            old(self)@.pending.len() == 0 ==> r is None && final(self)@ == old(self)@,
            old(self)@.pending.len() > 0 ==> r is Some && r->0@ == old(self)@.pending.last()
                && final(self)@ == take_spec(old(self)@),
    {
        let r = self.pending.pop();
        proof {
            if old(self)@.pending.len() > 0 {
                assert(self@.pending =~= old(self)@.pending.drop_last());
            } else {
                assert(self@.pending =~= old(self)@.pending);
            }
        }
        r
    }

    /// Hands in the listing of a directory.
    pub fn record_listing(&mut self, entries: &Vec<Entry>)
        ensures
            final(self)@ == record_spec(old(self)@, listing_view(entries@)),
    {
        let ghost l = listing_view(entries@);
        let mut i: usize = 0;
        while i < entries.len()
            invariant
                0 <= i <= entries.len(),
                l == listing_view(entries@),
                self@ == record_spec(old(self)@, l.subrange(0, i as int)),
            decreases entries.len() - i,
        {
            let ghost before = self@;
            let ghost prefix = l.subrange(0, i as int + 1);
            assert(prefix.drop_last() =~= l.subrange(0, i as int));
            assert(prefix.last() == entries@[i as int]@);
            let e = &entries[i];
            match e.kind {
                EntryKind::File => {
                    self.files.push(e.path.clone());
                    assert(self@.files =~= before.files.push(e.path@));
                    assert(self@.pending =~= before.pending);
                },
                EntryKind::Dir => {
                    self.pending.push(e.path.clone());
                    assert(self@.pending =~= before.pending.push(e.path@));
                    assert(self@.files =~= before.files);
                },
                EntryKind::Other => {
                    assert(self@.pending =~= before.pending);
                    assert(self@.files =~= before.files);
                },
            }
            i = i + 1;
        }
        assert(l.subrange(0, entries.len() as int) =~= l);
    }

    /// Ends the walk: the files found that pass `filter`, in the order they
    /// were found, or `EmptyResult` when none does.
    pub fn finish(&self, filter: &Option<Vec<String>>) -> (r: Result<Vec<String>, CollectError>)
        ensures
            result_view(r) == outcome(self@.files, filter.deep_view()),
    {
        let kept = select_files(&self.files, filter);
        if kept.len() == 0 {
            Err(CollectError::EmptyResult)
        } else {
            Ok(kept)
        }
    }
}

} // verus!
