//! Model of the local filesystem slice that a mirroring run touches.
//!
//! The run only ever creates directories (idempotently) and writes whole
//! files. `LocalFs` holds that slice as plain values, so the engine's
//! effect on disk can be stated and proved: its view is the set of
//! directories known to exist and the map from file path to content.

use vstd::prelude::*;
use crate::paths::bytes_eq;
use crate::paths::copy_bytes;

verus! {

/// Mathematical view of the touched filesystem slice: the directories
/// that exist and the content of each file.
#[verifier::ext_equal]
pub struct FsView {
    pub dirs: Set<Seq<u8>>,
    pub files: Map<Seq<u8>, Seq<u8>>,
}

/// The view of a local root with nothing in it yet.
pub open spec fn empty_fs() -> FsView {
    FsView { dirs: Set::empty(), files: Map::empty() }
}

/// One recorded whole-file write: a path and the content written.
pub struct FileEntry {
    pub path: Vec<u8>,
    pub content: Vec<u8>,
}

/// The file map described by a log of whole-file writes; a later write
/// to the same path fully replaces the earlier content.
pub open spec fn map_of(entries: Seq<FileEntry>) -> Map<Seq<u8>, Seq<u8>>
    decreases entries.len(),
{
    if entries.len() == 0 {
        Map::empty()
    } else {
        map_of(entries.drop_last()).insert(entries.last().path@, entries.last().content@)
    }
}

/// The directory set described by a list of paths.
pub open spec fn set_of(dirs: Seq<Vec<u8>>) -> Set<Seq<u8>>
    decreases dirs.len(),
{
    if dirs.len() == 0 {
        Set::empty()
    } else {
        set_of(dirs.drop_last()).insert(dirs.last()@)
    }
}

pub proof fn lemma_set_of_contains(dirs: Seq<Vec<u8>>, p: Seq<u8>)
    ensures
        set_of(dirs).contains(p) <==> (exists|i: int|
            0 <= i < dirs.len() && dirs[i]@ == p),
    decreases dirs.len(),
{
    if dirs.len() > 0 {
        let dl = dirs.drop_last();
        lemma_set_of_contains(dl, p);
        assert forall|i: int|
            0 <= i < dirs.len() && dirs[i]@ == p implies set_of(dirs).contains(p) by {
            if i < dirs.len() - 1 {
                assert(dl[i] == dirs[i]);
            } else {
                assert(dirs.last()@ == p);
            }
        }
        if set_of(dirs).contains(p) && dirs.last()@ != p {
            let i = choose|i: int| 0 <= i < dl.len() && dl[i]@ == p;
            assert(dirs[i]@ == p);
        }
    }
}

pub proof fn lemma_map_of_key(entries: Seq<FileEntry>, p: Seq<u8>)
    ensures
        map_of(entries).contains_key(p) <==> (exists|i: int|
            0 <= i < entries.len() && entries[i].path@ == p),
    decreases entries.len(),
{
    if entries.len() > 0 {
        let dl = entries.drop_last();
        lemma_map_of_key(dl, p);
        assert forall|i: int|
            0 <= i < entries.len() && entries[i].path@ == p implies map_of(
            entries,
        ).contains_key(p) by {
            if i < entries.len() - 1 {
                assert(dl[i] == entries[i]);
            } else {
                assert(entries.last().path@ == p);
            }
        }
        if map_of(entries).contains_key(p) && entries.last().path@ != p {
            let i = choose|i: int| 0 <= i < dl.len() && dl[i].path@ == p;
            assert(entries[i].path@ == p);
        }
    }
}

/// The content mapped to a path is the content of its last write.
pub proof fn lemma_map_of_value(entries: Seq<FileEntry>, p: Seq<u8>, i: int)
    requires
        0 <= i < entries.len(),
        entries[i].path@ == p,
        forall|j: int| i < j < entries.len() ==> entries[j].path@ != p,
    ensures
        map_of(entries).contains_key(p),
        map_of(entries)[p] == entries[i].content@,
    decreases entries.len(),
{
    if i == entries.len() - 1 {
    } else {
        let dl = entries.drop_last();
        assert(entries.last().path@ != p);
        assert forall|j: int| i < j < dl.len() implies dl[j].path@ != p by {
            assert(dl[j] == entries[j]);
        }
        lemma_map_of_value(dl, p, i);
    }
}

/// The filesystem slice a run has touched, as plain values: the
/// directories created or seen, and the log of whole-file writes.
pub struct LocalFs {
    dirs: Vec<Vec<u8>>,
    files: Vec<FileEntry>,
}

impl View for LocalFs {
    type V = FsView;

    closed spec fn view(&self) -> FsView {
        FsView { dirs: set_of(self.dirs@), files: map_of(self.files@) }
    }
}

impl LocalFs {
    /// An empty local root.
    pub fn new() -> (r: LocalFs)
        ensures
            r@ == empty_fs(),
    {
        let r = LocalFs { dirs: Vec::new(), files: Vec::new() };
        proof {
            assert(r@.dirs =~= empty_fs().dirs);
            assert(r@.files =~= empty_fs().files);
        }
        r
    }

    /// Whether the directory at `p` exists.
    pub fn has_dir(&self, p: &Vec<u8>) -> (r: bool)
        ensures
            r == self@.dirs.contains(p@),
    {
        let mut i: usize = 0;
        while i < self.dirs.len()
            invariant
                i <= self.dirs@.len(),
                forall|j: int| 0 <= j < i ==> self.dirs@[j]@ != p@,
            decreases self.dirs@.len() - i,
        {
            if bytes_eq(&self.dirs[i], p) {
                proof {
                    lemma_set_of_contains(self.dirs@, p@);
                }
                return true;
            }
            i = i + 1;
        }
        proof {
            lemma_set_of_contains(self.dirs@, p@);
        }
        false
    }

    /// Whether a file exists at `p`.
    pub fn has_file(&self, p: &Vec<u8>) -> (r: bool)
        ensures
            r == self@.files.contains_key(p@),
    {
        let mut i: usize = 0;
        while i < self.files.len()
            invariant
                i <= self.files@.len(),
                forall|j: int| 0 <= j < i ==> self.files@[j].path@ != p@,
            decreases self.files@.len() - i,
        {
            if bytes_eq(&self.files[i].path, p) {
                proof {
                    lemma_map_of_key(self.files@, p@);
                }
                return true;
            }
            i = i + 1;
        }
        proof {
            lemma_map_of_key(self.files@, p@);
        }
        false
    }

    /// The content of the file at `p`, if one exists.
    pub fn file_content(&self, p: &Vec<u8>) -> (r: Option<Vec<u8>>)
        ensures
            match r {
                Some(c) => self@.files.contains_key(p@) && c@ == self@.files[p@],
                None => !self@.files.contains_key(p@),
            },
    {
        let mut i: usize = self.files.len();
        while i > 0
            invariant
                i <= self.files@.len(),
                forall|j: int| i <= j < self.files@.len() ==> self.files@[j].path@ != p@,
            decreases i,
        {
            if bytes_eq(&self.files[i - 1].path, p) {
                proof {
                    lemma_map_of_value(self.files@, p@, i - 1);
                }
                return Some(copy_bytes(&self.files[i - 1].content));
            }
            i = i - 1;
        }
        proof {
            lemma_map_of_key(self.files@, p@);
        }
        None
    }

    /// Creates the directory at `p`; creating one that already exists is
    /// not an error and changes nothing.
    pub fn make_dir(&mut self, p: &Vec<u8>)
        ensures
            final(self)@.dirs == old(self)@.dirs.insert(p@),
            final(self)@.files == old(self)@.files,
    {
        if !self.has_dir(p) {
            let ghost before = self.dirs@;
            self.dirs.push(copy_bytes(p));
            proof {
                assert(self.dirs@.drop_last() =~= before);
                assert(self.dirs@.last()@ == p@);
            }
        } else {
            proof {
                assert(self@.dirs.insert(p@) =~= self@.dirs);
            }
        }
    }

    /// Writes the whole content of the file at `p`, fully replacing any
    /// existing content.
    pub fn write_file(&mut self, p: &Vec<u8>, content: &Vec<u8>)
        ensures
            final(self)@.dirs == old(self)@.dirs,
            final(self)@.files == old(self)@.files.insert(p@, content@),
    {
        let ghost before = self.files@;
        self.files.push(FileEntry { path: copy_bytes(p), content: copy_bytes(content) });
        proof {
            assert(self.files@.drop_last() =~= before);
            assert(self.files@.last().path@ == p@);
            assert(self.files@.last().content@ == content@);
        }
    }
}

} // verus!
