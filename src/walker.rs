//! The directory walker: a stack of pending entries, filled from directory
//! listings and emptied last-in-first-out.
use vstd::prelude::*;

verus! {

/// What an entry's metadata says it is.
#[derive(Clone, Copy, Debug, PartialEq, Eq, Structural)]
pub enum EntryKind {
    File,
    Dir,
    Other,
}

impl EntryKind {
    pub fn is_file(&self) -> (r: bool)
        ensures
            r == (*self is File),
    {
        matches!(self, EntryKind::File)
    }

    pub fn is_dir(&self) -> (r: bool)
        ensures
            r == (*self is Dir),
    {
        matches!(self, EntryKind::Dir)
    }
}

/// The children of a listing that resolved, in listing order; the ones that
/// failed to resolve are dropped.
pub open spec fn resolved<T, E>(listing: Seq<Result<T, E>>) -> Seq<T>
    decreases listing.len(),
{
    if listing.len() == 0 {
        Seq::empty()
    } else {
        let rest = resolved(listing.drop_last());
        match listing.last() {
            Ok(t) => rest.push(t),
            Err(_) => rest,
        }
    }
}

/// A depth-first walk in progress. `stack` holds the entries found by
/// listing a directory and not yet visited; the last one is visited next.
pub struct DirIter<T> {
    stack: Vec<T>,
}

impl<T> DirIter<T> {
    /// The entries still to visit, the next one last.
    pub closed spec fn pending(&self) -> Seq<T> {
        self.stack@
    }

    /// Starts a walk from the listing of the root. A root that could not be
    /// listed is fatal: its error is returned and there is no walk.
    pub fn new<E>(root_listing: Result<Vec<Result<T, E>>, E>) -> (r: Result<Self, E>)
        ensures
            root_listing is Err ==> r is Err && r->Err_0 == root_listing->Err_0,
            root_listing is Ok ==> r is Ok && r->Ok_0.pending() == resolved(
                root_listing->Ok_0@,
            ),
    {
        let mut dir_iter = DirIter { stack: Vec::new() };
        match dir_iter.read_dir(root_listing) {
            Ok(()) => Ok(dir_iter),
            Err(e) => Err(e),
        }
    }

    /// Pushes the resolved children of a directory listing, in listing
    /// order, or returns the listing's error and leaves the stack as it was.
    pub fn read_dir<E>(&mut self, listing: Result<Vec<Result<T, E>>, E>) -> (r: Result<(), E>)
        ensures
            listing is Err ==> r is Err && r->Err_0 == listing->Err_0 && final(self).pending()
                == old(self).pending(),
            listing is Ok ==> r is Ok && final(self).pending() == old(self).pending() + resolved(
                listing->Ok_0@,
            ),
    {
        let children = match listing {
            Ok(children) => children,
            Err(e) => return Err(e),
        };
        let ghost start = self.stack@;
        let ghost all = children@;
        for child in it: children.into_iter()
            invariant
                it.seq() == all,
                self.stack@ == start + resolved(all.take(it.index() as int)),
        {
            match child {
                Ok(c) => self.stack.push(c),
                Err(_) => {},
            }
            proof {
                let i = it.index() as int;
                assert(all.take(i + 1).drop_last() == all.take(i));
                assert(self.stack@ == start + resolved(all.take(i + 1)));
            }
        }
        assert(all.take(all.len() as int) == all);
        Ok(())
    }
    /// Whether the walk is over: nothing is left to visit.
    pub fn is_done(&self) -> (r: bool)
        ensures
            r == (self.pending().len() == 0),
    {
        self.stack.len() == 0
    }

    /// Takes the entry to visit next: the one pushed last.
    pub fn pop_pending(&mut self) -> (r: Option<T>)
        ensures
            old(self).pending().len() == 0 ==> r is None && final(self).pending() == old(self).pending(),
            old(self).pending().len() > 0 ==> r == Some(old(self).pending().last()) && final(self).pending() == old(self).pending().drop_last(),
    {
        self.stack.pop()
    }

    /// Finishes the visit of `entry`, given its metadata and, for a
    /// directory, its listing.
    ///
    /// A metadata error is the result, and nothing is descended into. For a
    /// directory the listing's children are pushed; a listing error is the
    /// result instead of the entry. A directory handed in without a listing
    /// counts as empty. Anything else is the result as it is.
    pub fn settle<E>(
        &mut self,
        entry: T,
        metadata: Result<EntryKind, E>,
        listing: Option<Result<Vec<Result<T, E>>, E>>,
    ) -> (r: Result<(T, EntryKind), E>)
        ensures
            metadata is Err ==> r is Err && r->Err_0 == metadata->Err_0 && final(self).pending()
                == old(self).pending(),
            metadata is Ok && !(metadata->Ok_0 is Dir) ==> r == Ok::<(T, EntryKind), E>(
                (entry, metadata->Ok_0),
            ) && final(self).pending() == old(self).pending(),
            metadata == Ok::<EntryKind, E>(EntryKind::Dir) && listing is None ==> r == Ok::<
                (T, EntryKind),
                E,
            >((entry, EntryKind::Dir)) && final(self).pending() == old(self).pending(),
            metadata == Ok::<EntryKind, E>(EntryKind::Dir) && listing is Some ==> ({
                let l = listing->Some_0;
                &&& l is Err ==> r is Err && r->Err_0 == l->Err_0 && final(self).pending()
                    == old(self).pending()
                &&& l is Ok ==> r == Ok::<(T, EntryKind), E>((entry, EntryKind::Dir)) && final(self).pending() == old(self).pending() + resolved(l->Ok_0@)
            }),
    {
        let kind = match metadata {
            Ok(k) => k,
            Err(e) => return Err(e),
        };
        if kind.is_dir() {
            if let Some(l) = listing {
                if let Err(e) = self.read_dir(l) {
                    return Err(e);
                }
            }
        }
        Ok((entry, kind))
    }
}

/// Whether visiting an entry with this metadata calls for listing it.
pub fn needs_listing<E>(metadata: &Result<EntryKind, E>) -> (r: bool)
    ensures
        r == (*metadata == Ok::<EntryKind, E>(EntryKind::Dir)),
{
    match metadata {
        Ok(k) => k.is_dir(),
        Err(_) => false,
    }
}

} // verus!
