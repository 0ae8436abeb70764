use vstd::prelude::*;

use crate::bytes::bytes_eq;
use crate::document::opt_view;

verus! {

// ---------------------------------------------------------------------------
// The restore registry.
//
// Every file that is about to be overwritten registers its pristine bytes
// first, under its path; a file created during the run registers a deletion
// marker instead. A path is recorded at most once, so a file edited twice
// still restores to its state before the run. Draining hands every record
// out exactly once: the first drain returns them all, every later drain
// returns nothing. The caller performs the writes and deletions.
// ---------------------------------------------------------------------------

/// One undo record: the pristine content to rewrite, or, when the file did
/// not exist before the run, a marker to delete it.
pub struct File {
    pub path: Vec<u8>,
    pub contents: Option<Vec<u8>>,
}

#[verifier::ext_equal]
pub struct FileV {
    pub path: Seq<u8>,
    pub contents: Option<Seq<u8>>,
}

impl View for File {
    type V = FileV;

    open spec fn view(&self) -> FileV {
        FileV { path: self.path@, contents: opt_view(self.contents) }
    }
}

/// What restoring one record means on disk.
pub enum RestoreAction {
    Rewrite { path: Vec<u8>, contents: Vec<u8> },
    Remove { path: Vec<u8> },
}

impl File {
    /// The write or deletion this record calls for; the caller performs it.
    pub fn restore(self) -> (a: RestoreAction)
        ensures
            match a {
                RestoreAction::Rewrite { path, contents } => self@.path == path@ && self@.contents
                    == Option::Some(contents@),
                RestoreAction::Remove { path } => self@.path == path@ && self@.contents is None,
            },
    {
        match self.contents {
            Some(contents) => RestoreAction::Rewrite { path: self.path, contents },
            None => RestoreAction::Remove { path: self.path },
        }
    }
}

/// The registry of undo records for one run.
pub struct Manager {
    files: Vec<File>,
}

impl Manager {
    /// The recorded undo entries, oldest first.
    pub closed spec fn records(&self) -> Seq<FileV> {
        self.files@.map_values(|f: File| f@)
    }

    /// A record exists for the path.
    pub open spec fn has_path(&self, p: Seq<u8>) -> bool {
        exists|i: int| 0 <= i < self.records().len() && (#[trigger] self.records()[i]).path == p
    }

    /// An empty registry.
    pub fn new() -> (r: Manager)
        ensures
            r.records() == Seq::<FileV>::empty(),
    {
        let r = Manager { files: Vec::new() };
        proof {
            assert(r.records() =~= Seq::<FileV>::empty());
        }
        r
    }

    fn knows_path(&self, path: &Vec<u8>) -> (r: bool)
        ensures
            r == self.has_path(path@),
    {
        let mut i: usize = 0;
        while i < self.files.len()
            invariant
                i <= self.files@.len(),
                forall|j: int| 0 <= j < i ==> (#[trigger] self.records()[j]).path != path@,
            decreases self.files@.len() - i,
        {
            proof {
                assert(self.records()[i as int] == self.files@[i as int]@);
            }
            if bytes_eq(self.files[i].path.as_slice(), path.as_slice()) {
                return true;
            }
            i += 1;
        }
        false
    }

    /// Records the pristine bytes for the path, once: a later registration
    /// for the same path changes nothing, so the first-seen content wins.
    pub fn register(&mut self, contents: Vec<u8>, path: Vec<u8>)
        ensures
            old(self).has_path(path@) ==> final(self).records() == old(self).records(),
            !old(self).has_path(path@) ==> final(self).records() == old(self).records().push(
                FileV { path: path@, contents: Option::Some(contents@) },
            ),
    {
        if !self.knows_path(&path) {
            let ghost pre = self.records();
            let f = File { path, contents: Some(contents) };
            let ghost fv = f@;
            self.files.push(f);
            proof {
                assert(self.records() =~= pre.push(fv));
            }
        }
    }

    /// Records that the path did not exist before the run, once.
    pub fn register_remove(&mut self, path: Vec<u8>)
        ensures
            old(self).has_path(path@) ==> final(self).records() == old(self).records(),
            !old(self).has_path(path@) ==> final(self).records() == old(self).records().push(
                FileV { path: path@, contents: Option::None },
            ),
    {
        if !self.knows_path(&path) {
            let ghost pre = self.records();
            let f = File { path, contents: None };
            let ghost fv = f@;
            self.files.push(f);
            proof {
                assert(self.records() =~= pre.push(fv));
            }
        }
    }

    /// Drains the registry: the first call returns every record, in
    /// registration order, and leaves the registry empty, so any later call
    /// returns nothing and asks for no further work.
    pub fn restore_all(&mut self) -> (drained: Vec<File>)
        ensures
            drained@.map_values(|f: File| f@) == old(self).records(),
            final(self).records() == Seq::<FileV>::empty(),
    {
        let mut drained: Vec<File> = Vec::new();
        core::mem::swap(&mut drained, &mut self.files);
        proof {
            assert(final(self).records() =~= Seq::<FileV>::empty());
        }
        drained
    }
}

} // verus!
