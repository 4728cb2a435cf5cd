//! The visibility model of crash-safe downloads.
//!
//! A download writes to a staging area and becomes visible at its final
//! path only through a commit — the model of an atomic rename after a
//! complete write. Reads see committed files alone: staged bytes, however
//! many were written, are invisible, and a crash (dropping the staging
//! area, renaming nothing) leaves every read exactly as it was. The
//! model's contracts are what the downloader's file handling promises;
//! the serving layer reads only what was committed.

use vstd::prelude::*;

use crate::asset::bytes_eq;

verus! {

/// One file: its path and its bytes.
pub struct FileEntry {
    /// Path the file is addressed by.
    pub path: Vec<u8>,
    /// The file's bytes.
    pub content: Vec<u8>,
}

/// The content of the first file of `s` at path `p`, if any.
pub open spec fn find_file(s: Seq<FileEntry>, p: Seq<u8>) -> Option<Seq<u8>>
    decreases s.len(),
{
    if s.len() == 0 {
        Option::None
    } else {
        match find_file(s.drop_last(), p) {
            Option::Some(c) => Option::Some(c),
            Option::None => if s.last().path@ == p {
                Option::Some(s.last().content@)
            } else {
                Option::None
            },
        }
    }
}

/// Whether some file of `s` has path `p`.
pub open spec fn file_at(s: Seq<FileEntry>, p: Seq<u8>) -> bool {
    find_file(s, p) is Some
}

/// Appending one file extends lookups by exactly that path, earlier
/// entries taking precedence.
pub proof fn lemma_find_file_push(s: Seq<FileEntry>, x: FileEntry, p: Seq<u8>)
    ensures
        find_file(s.push(x), p) == (if find_file(s, p) is Some {
            find_file(s, p)
        } else if x.path@ == p {
            Option::Some(x.content@)
        } else {
            Option::<Seq<u8>>::None
        }),
{
    assert(s.push(x).drop_last() =~= s);
    assert(s.push(x).last() == x);
}

/// A found file is a member of the sequence.
pub proof fn lemma_find_file_is_member(s: Seq<FileEntry>, p: Seq<u8>)
    requires
        file_at(s, p),
    ensures
        exists|i: int|
            0 <= i < s.len() && s[i].path@ == p && s[i].content@ == find_file(s, p)->Some_0,
    decreases s.len(),
{
    if s.len() > 0 {
        if file_at(s.drop_last(), p) {
            lemma_find_file_is_member(s.drop_last(), p);
            let i = choose|i: int|
                0 <= i < s.drop_last().len() && s.drop_last()[i].path@ == p
                    && s.drop_last()[i].content@ == find_file(s.drop_last(), p)->Some_0;
            assert(s[i] == s.drop_last()[i]);
        } else {
            assert(s[s.len() - 1] == s.last());
        }
    }
}

/// A member's path is found.
pub proof fn lemma_member_is_found(s: Seq<FileEntry>, i: int)
    requires
        0 <= i < s.len(),
    ensures
        file_at(s, s[i].path@),
    decreases s.len(),
{
    if i < s.len() - 1 {
        lemma_member_is_found(s.drop_last(), i);
        assert(s.drop_last()[i] == s[i]);
    }
}

/// The staged and committed files of the model.
pub struct FsModel {
    /// Visible files: committed by rename, readable.
    pub committed: Vec<FileEntry>,
    /// Staging area: bytes written but not yet renamed; invisible.
    pub staged: Vec<FileEntry>,
}

impl FsModel {
    /// Paths are unique within the committed files and within the staging
    /// area.
    pub open spec fn wf(self) -> bool {
        &&& forall|i: int, j: int|
            0 <= i < j < self.committed@.len() ==> self.committed@[i].path@
                != self.committed@[j].path@
        &&& forall|i: int, j: int|
            0 <= i < j < self.staged@.len() ==> self.staged@[i].path@ != self.staged@[j].path@
    }

    /// An empty file system.
    pub fn new() -> (m: FsModel)
        ensures
            m.wf(),
            m.committed@.len() == 0,
            m.staged@.len() == 0,
    {
        FsModel { committed: Vec::new(), staged: Vec::new() }
    }

    /// The index of `p` within `files`, if present.
    fn find_index(files: &Vec<FileEntry>, p: &Vec<u8>) -> (r: Option<usize>)
        ensures
            match r {
                Option::Some(i) => i < files@.len() && files@[i as int].path@ == p@,
                Option::None => forall|i: int| 0 <= i < files@.len() ==> files@[i].path@ != p@,
            },
    {
        let n = files.len();
        let mut i: usize = 0;
        while i < n
            invariant
                n == files@.len(),
                i <= n,
                forall|k: int| 0 <= k < i ==> files@[k].path@ != p@,
            decreases n - i,
        {
            if bytes_eq(&files[i].path, p) {
                return Some(i);
            }
            i = i + 1;
        }
        None
    }

    /// Reads the file visible at `p`: committed bytes or nothing. Staged
    /// bytes are never returned.
    pub fn read(&self, p: &Vec<u8>) -> (r: Option<&Vec<u8>>)
        requires
            self.wf(),
        ensures
            match r {
                Option::Some(c) => find_file(self.committed@, p@) == Option::Some(c@),
                Option::None => find_file(self.committed@, p@) is None,
            },
    {
        match Self::find_index(&self.committed, p) {
            Some(i) => {
                proof {
                    lemma_member_is_found(self.committed@, i as int);
                    lemma_find_file_is_member(self.committed@, p@);
                    let j = choose|j: int|
                        0 <= j < self.committed@.len() && self.committed@[j].path@ == p@
                            && self.committed@[j].content@ == find_file(
                            self.committed@,
                            p@,
                        )->Some_0;
                    if j != i as int {
                        assert(self.committed@[j].path@ == self.committed@[i as int].path@);
                        assert(false);
                    }
                }
                Some(&self.committed[i].content)
            },
            None => {
                proof {
                    if file_at(self.committed@, p@) {
                        lemma_find_file_is_member(self.committed@, p@);
                    }
                }
                None
            },
        }
    }

    /// Opens a staging slot for `p`. Visible files do not change. Succeeds
    /// exactly when `p` is not already being staged; fails changing
    /// nothing.
    pub fn stage(&mut self, p: Vec<u8>) -> (r: bool)
        requires
            old(self).wf(),
        ensures
            final(self).wf(),
            final(self).committed@ == old(self).committed@,
            r <==> (forall|i: int|
                0 <= i < old(self).staged@.len() ==> (#[trigger] old(self).staged@[i]).path@
                    != p@),
            r ==> final(self).staged@.len() == old(self).staged@.len() + 1,
            r ==> final(self).staged@.drop_last() == old(self).staged@,
            r ==> final(self).staged@.last().path@ == p@,
            r ==> final(self).staged@.last().content@ == Seq::<u8>::empty(),
            !r ==> final(self).staged@ == old(self).staged@,
    {
        match Self::find_index(&self.staged, &p) {
            Some(_) => false,
            None => {
                let ghost s0 = self.staged@;
                self.staged.push(FileEntry { path: p, content: Vec::new() });
                proof {
                    assert(forall|k: int| 0 <= k < s0.len() ==> self.staged@[k] == s0[k]);
                }
                true
            },
        }
    }

    /// Appends bytes to the staging slot of `p`. Visible files do not
    /// change, whatever was written. Succeeds exactly when `p` is being
    /// staged; fails changing nothing.
    pub fn write_chunk(&mut self, p: &Vec<u8>, chunk: &Vec<u8>) -> (r: bool)
        requires
            old(self).wf(),
        ensures
            final(self).wf(),
            final(self).committed@ == old(self).committed@,
            r <==> (exists|i: int|
                0 <= i < old(self).staged@.len() && (#[trigger] old(self).staged@[i]).path@
                    == p@),
            r ==> final(self).staged@.len() == old(self).staged@.len(),
            r ==> exists|i: int|
                {
                    &&& 0 <= i < old(self).staged@.len()
                    &&& old(self).staged@[i].path@ == p@
                    &&& final(self).staged@[i as int].path@ == p@
                    &&& final(self).staged@[i as int].content@ == old(self).staged@[i].content@
                        + chunk@
                    &&& forall|k: int|
                        0 <= k < old(self).staged@.len() && k != i ==> final(self).staged@[k]
                            == old(self).staged@[k]
                },
            !r ==> final(self).staged@ == old(self).staged@,
    {
        match Self::find_index(&self.staged, p) {
            Some(i) => {
                let ghost s0 = self.staged@;
                let mut entry = self.staged.remove(i);
                let mut j: usize = 0;
                let m = chunk.len();
                let ghost c0 = entry.content@;
                while j < m
                    invariant
                        m == chunk@.len(),
                        j <= m,
                        entry.path == s0[i as int].path,
                        i < s0.len(),
                        entry.content@ =~= c0 + chunk@.subrange(0, j as int),
                        self.staged@ == s0.remove(i as int),
                    decreases m - j,
                {
                    entry.content.push(chunk[j]);
                    j = j + 1;
                }
                proof {
                    assert(entry.content@ =~= c0 + chunk@);
                }
                self.staged.insert(i, entry);
                proof {
                    assert(self.staged@ =~= s0.update(i as int, entry));
                    assert(forall|k: int|
                        0 <= k < s0.len() && k != i ==> self.staged@[k] == s0[k]);
                    assert(self.staged@[i as int].path@ == s0[i as int].path@);
                }
                true
            },
            None => false,
        }
    }

    /// A crash: every staged write is lost, nothing was renamed. Visible
    /// files do not change.
    pub fn crash(&mut self)
        requires
            old(self).wf(),
        ensures
            final(self).wf(),
            final(self).committed@ == old(self).committed@,
            final(self).staged@.len() == 0,
    {
        self.staged = Vec::new();
    }

    /// The atomic rename: the staged bytes of `p` become the visible file
    /// at `p`. Succeeds exactly when `p` is being staged and no file is
    /// yet visible at `p`; fails changing nothing.
    pub fn commit(&mut self, p: &Vec<u8>) -> (r: bool)
        requires
            old(self).wf(),
        ensures
            final(self).wf(),
            r <==> ((exists|i: int|
                0 <= i < old(self).staged@.len() && (#[trigger] old(self).staged@[i]).path@
                    == p@) && find_file(old(self).committed@, p@) is None),
            !r ==> final(self).committed@ == old(self).committed@,
            !r ==> final(self).staged@ == old(self).staged@,
            r ==> exists|i: int|
                {
                    &&& 0 <= i < old(self).staged@.len()
                    &&& old(self).staged@[i].path@ == p@
                    &&& final(self).committed@ == old(self).committed@.push(old(self).staged@[i])
                    &&& final(self).staged@ == old(self).staged@.remove(i)
                },
            r ==> forall|q: Seq<u8>|
                find_file(final(self).committed@, q) == (if find_file(
                    old(self).committed@,
                    q,
                ) is Some {
                    find_file(old(self).committed@, q)
                } else if q == p@ {
                    find_file(final(self).committed@, p@)
                } else {
                    Option::<Seq<u8>>::None
                }),
    {
        let si = match Self::find_index(&self.staged, p) {
            Some(i) => i,
            None => {
                return false;
            },
        };
        match Self::find_index(&self.committed, p) {
            Some(ci) => {
                proof {
                    lemma_member_is_found(self.committed@, ci as int);
                }
                false
            },
            None => {
                proof {
                    if file_at(self.committed@, p@) {
                        lemma_find_file_is_member(self.committed@, p@);
                    }
                }
                let ghost c0 = self.committed@;
                let ghost s0 = self.staged@;
                let entry = self.staged.remove(si);
                self.committed.push(entry);
                proof {
                    assert(forall|k: int|
                        0 <= k < si ==> self.staged@[k] == s0[k]);
                    assert(forall|k: int|
                        si <= k < self.staged@.len() ==> self.staged@[k] == s0[k + 1]);
                    assert(self.committed@ =~= c0.push(s0[si as int]));
                    assert forall|q: Seq<u8>|
                        find_file(self.committed@, q) == (if find_file(c0, q) is Some {
                            find_file(c0, q)
                        } else if q == p@ {
                            find_file(self.committed@, p@)
                        } else {
                            Option::<Seq<u8>>::None
                        }) by {
                        lemma_find_file_push(c0, s0[si as int], q);
                        lemma_find_file_push(c0, s0[si as int], p@);
                    }
                }
                true
            },
        }
    }
}

/// Law: what a read returns is a function of the committed files alone,
/// so any run of staging, partial writes and crashes — anything short of
/// a commit — leaves every read unchanged. The substance is carried by
/// the operations' contracts: `stage`, `write_chunk` and `crash` each
/// ensure the committed files stay what they were, and `read` answers
/// from them alone; this function is where those pieces compose.
pub proof fn lemma_uncommitted_invisible(before: FsModel, after: FsModel, p: Seq<u8>)
    requires
        after.committed@ == before.committed@,
    ensures
        find_file(after.committed@, p) == find_file(before.committed@, p),
{
}

} // verus!
