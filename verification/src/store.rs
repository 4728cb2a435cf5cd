//! The revision registry.
//!
//! An append-only collection of revisions, keyed by identifier. The
//! vector is kept sorted by identifier, strictly ascending, so the
//! latest revision is the last element and the identifier listing comes
//! out ordered. Insertion of an already-present identifier is a no-op:
//! insertion is idempotent by key. The registry itself is a plain value;
//! the callers serialize writers around it (a reader-writer lock in the
//! serving process) and readers only ever see a committed state.

use vstd::prelude::*;

use crate::asset::AssetDescriptor;
use crate::asset::find_in;
use crate::asset::find_path;
use crate::asset::has_path;
use crate::asset::unique_paths;
use crate::asset::views_of;

verus! {

/// A named, immutable snapshot of the complete asset set available from
/// upstream at one point in time.
pub struct Revision {
    /// Identifier, the unique key; ordered by the upstream's versioning.
    pub id: u64,
    /// Root storage location of this revision's files.
    pub root: Vec<u8>,
    /// The complete asset set of the revision.
    pub assets: Vec<AssetDescriptor>,
}

impl Revision {
    /// The asset paths are pairwise distinct.
    pub open spec fn wf(self) -> bool {
        unique_paths(views_of(self.assets@))
    }
}

/// Identifiers strictly ascend along the sequence.
pub open spec fn sorted_by_id(s: Seq<Revision>) -> bool {
    forall|i: int, j: int| 0 <= i < j < s.len() ==> s[i].id < s[j].id
}

/// Whether some revision of `s` has identifier `id`.
pub open spec fn has_id(s: Seq<Revision>, id: u64) -> bool {
    exists|i: int| 0 <= i < s.len() && s[i].id == id
}

/// What insertion leaves behind: the same sequence when the identifier
/// was already present, else the same revisions plus the new one, still
/// sorted.
pub open spec fn insert_result(s: Seq<Revision>, r: Revision, t: Seq<Revision>) -> bool {
    if has_id(s, r.id) {
        t == s
    } else {
        &&& sorted_by_id(t)
        &&& t.len() == s.len() + 1
        &&& forall|x: Revision| t.contains(x) <==> s.contains(x) || x == r
    }
}

/// The persistent, concurrency-safe registry of known revisions.
pub struct RevisionStore {
    /// The revisions, sorted by identifier, strictly ascending.
    pub revisions: Vec<Revision>,
}

impl RevisionStore {
    /// Sorted by identifier, and every revision well formed.
    pub open spec fn wf(self) -> bool {
        &&& sorted_by_id(self.revisions@)
        &&& forall|i: int| 0 <= i < self.revisions@.len() ==> (#[trigger] self.revisions@[i]).wf()
    }

    /// The registered revisions, in ascending identifier order.
    pub open spec fn view(self) -> Seq<Revision> {
        self.revisions@
    }

    /// An empty registry.
    pub fn new() -> (r: RevisionStore)
        ensures
            r.wf(),
            r@.len() == 0,
    {
        RevisionStore { revisions: Vec::new() }
    }

    /// How many revisions are registered.
    pub fn len(&self) -> (n: usize)
        ensures
            n == self@.len(),
    {
        self.revisions.len()
    }

    /// Adds a revision; a no-op when its identifier is already present.
    pub fn insert(&mut self, r: Revision)
        requires
            old(self).wf(),
            r.wf(),
        ensures
            final(self).wf(),
            insert_result(old(self)@, r, final(self)@),
            has_id(final(self)@, r.id),
    {
        let ghost s0 = self.revisions@;
        let n = self.revisions.len();
        let mut pos: usize = 0;
        while pos < n && self.revisions[pos].id < r.id
            invariant
                n == self.revisions@.len(),
                s0 == self.revisions@,
                pos <= n,
                forall|k: int| 0 <= k < pos ==> s0[k].id < r.id,
            decreases n - pos,
        {
            pos = pos + 1;
        }
        proof {
            assert(pos == n || s0[pos as int].id >= r.id);
        }
        if pos < n {
            if self.revisions[pos].id == r.id {
                proof {
                    assert(has_id(s0, r.id));
                }
                return;
            }
        }
        proof {
            if has_id(s0, r.id) {
                let i = choose|i: int| 0 <= i < s0.len() && s0[i].id == r.id;
                assert(old(self).wf());
                if i < pos {
                    assert(s0[i].id < r.id);
                } else {
                    assert(pos < s0.len() ==> s0[pos as int].id > r.id);
                    if i > pos {
                        assert(s0[pos as int].id < s0[i].id);
                    }
                }
                assert(false);
            }
        }
        self.revisions.insert(pos, r);
        proof {
            let t = self.revisions@;
            assert(t == s0.insert(pos as int, r));
            assert forall|x: Revision| t.contains(x) <==> s0.contains(x) || x == r by {
                if t.contains(x) {
                    let i = choose|i: int| 0 <= i < t.len() && t[i] == x;
                    if i < pos {
                        assert(s0[i] == x);
                    } else if i == pos {
                        assert(x == r);
                    } else {
                        assert(s0[i - 1] == x);
                    }
                }
                if s0.contains(x) {
                    let i = choose|i: int| 0 <= i < s0.len() && s0[i] == x;
                    if i < pos {
                        assert(t[i] == x);
                    } else {
                        assert(t[i + 1] == x);
                    }
                }
                if x == r {
                    assert(t[pos as int] == x);
                }
            }
            assert(sorted_by_id(t)) by {
                assert forall|i: int, j: int| 0 <= i < j < t.len() implies t[i].id < t[j].id by {
                    assert(forall|k: int| 0 <= k < pos ==> t[k] == s0[k]);
                    assert(forall|k: int| pos < k < t.len() ==> t[k] == s0[k - 1]);
                    assert(t[pos as int] == r);
                    assert(forall|k: int| pos <= k < s0.len() ==> s0[k].id > r.id);
                }
            }
            assert(final(self).wf()) by {
                assert(forall|k: int| 0 <= k < pos ==> t[k] == s0[k]);
                assert(forall|k: int| pos < k < t.len() ==> t[k] == s0[k - 1]);
                assert(t[pos as int] == r);
            }
            assert(t[pos as int] == r);
        }
    }

    /// The revision with the maximum identifier, or none when the
    /// registry is empty.
    pub fn latest(&self) -> (r: Option<&Revision>)
        requires
            self.wf(),
        ensures
            match r {
                Option::Some(rev) => self@.len() > 0 && *rev == self@.last() && forall|j: int|
                    0 <= j < self@.len() ==> self@[j].id <= rev.id,
                Option::None => self@.len() == 0,
            },
    {
        let n = self.revisions.len();
        if n == 0 {
            None
        } else {
            Some(&self.revisions[n - 1])
        }
    }

    /// The registered identifiers, ascending.
    pub fn list_ids(&self) -> (r: Vec<u64>)
        requires
            self.wf(),
        ensures
            r@.len() == self@.len(),
            forall|i: int| 0 <= i < r@.len() ==> r@[i] == self@[i].id,
            forall|i: int, j: int| 0 <= i < j < r@.len() ==> r@[i] < r@[j],
    {
        let mut out: Vec<u64> = Vec::new();
        let n = self.revisions.len();
        let mut i: usize = 0;
        while i < n
            invariant
                n == self.revisions@.len(),
                sorted_by_id(self.revisions@),
                i <= n,
                out@.len() == i,
                forall|k: int| 0 <= k < i ==> out@[k] == self.revisions@[k].id,
            decreases n - i,
        {
            out.push(self.revisions[i].id);
            i = i + 1;
        }
        out
    }

    /// The registered revision with identifier `id`, if any.
    pub fn lookup(&self, id: u64) -> (r: Option<&Revision>)
        requires
            self.wf(),
        ensures
            match r {
                Option::Some(rev) => has_id(self@, id) && self@.contains(*rev) && rev.id == id,
                Option::None => !has_id(self@, id),
            },
    {
        let n = self.revisions.len();
        let mut i: usize = 0;
        while i < n
            invariant
                n == self.revisions@.len(),
                i <= n,
                forall|k: int| 0 <= k < i ==> self.revisions@[k].id != id,
            decreases n - i,
        {
            if self.revisions[i].id == id {
                return Some(&self.revisions[i]);
            }
            i = i + 1;
        }
        None
    }

    /// Resolves `(revision identifier, relative path)` to the matching
    /// asset descriptor: the read operation of the serving surface.
    /// Returns nothing exactly when the identifier is unknown or the
    /// revision holds no asset at the path.
    pub fn resolve(&self, id: u64, path: &Vec<u8>) -> (r: Option<&AssetDescriptor>)
        requires
            self.wf(),
        ensures
            match r {
                Option::Some(d) => {
                    &&& has_id(self@, id)
                    &&& exists|i: int|
                        0 <= i < self@.len() && self@[i].id == id && find_path(
                            views_of(self@[i].assets@),
                            path@,
                        ) == Option::Some(d@)
                },
                Option::None => forall|i: int|
                    0 <= i < self@.len() && (#[trigger] self@[i]).id == id ==> !has_path(
                        views_of(self@[i].assets@),
                        path@,
                    ),
            },
    {
        let rev = match self.lookup(id) {
            Some(rev) => rev,
            None => {
                return None;
            },
        };
        let ghost ri = choose|i: int| 0 <= i < self@.len() && self@[i] == *rev;
        match find_in(&rev.assets, path) {
            Some(j) => {
                proof {
                    assert(self@[ri].wf());
                    crate::asset::lemma_find_path_at(views_of(rev.assets@), path@, j as int);
                    assert forall|i: int|
                        0 <= i < self@.len() && self@[i].id == id implies self@[i] == *rev by {
                        if self@[i].id == self@[ri].id && i != ri {
                            assert(sorted_by_id(self@));
                            assert(false);
                        }
                    }
                }
                Some(&rev.assets[j])
            },
            None => {
                proof {
                    assert forall|i: int|
                        0 <= i < self@.len() && (#[trigger] self@[i]).id == id implies !has_path(
                        views_of(self@[i].assets@),
                        path@,
                    ) by {
                        if self@[i].id == self@[ri].id && i != ri {
                            assert(sorted_by_id(self@));
                            assert(false);
                        }
                    }
                }
                None
            },
        }
    }
}

/// Insertion changes the reachable identifiers by exactly the new one.
pub proof fn lemma_insert_ids(s: Seq<Revision>, r: Revision, t: Seq<Revision>)
    requires
        insert_result(s, r, t),
    ensures
        forall|id: u64| has_id(t, id) <==> has_id(s, id) || id == r.id,
{
    if has_id(s, r.id) {
        assert(t == s);
    } else {
        assert forall|id: u64| has_id(t, id) <==> has_id(s, id) || id == r.id by {
            if has_id(t, id) {
                let i = choose|i: int| 0 <= i < t.len() && t[i].id == id;
                assert(t.contains(t[i]));
                if s.contains(t[i]) {
                    let j = choose|j: int| 0 <= j < s.len() && s[j] == t[i];
                    assert(has_id(s, id));
                }
            }
            if has_id(s, id) {
                let i = choose|i: int| 0 <= i < s.len() && s[i].id == id;
                assert(s.contains(s[i]));
                assert(t.contains(s[i]));
                let j = choose|j: int| 0 <= j < t.len() && t[j] == s[i];
                assert(has_id(t, id));
            }
            if id == r.id {
                assert(t.contains(r));
                let j = choose|j: int| 0 <= j < t.len() && t[j] == r;
                assert(has_id(t, id));
            }
        }
    }
}

/// The first revision of `s` with identifier `id`, front to back.
pub open spec fn first_rev(s: Seq<Revision>, id: u64) -> Option<Revision>
    decreases s.len(),
{
    if s.len() == 0 {
        Option::None
    } else if s[0].id == id {
        Option::Some(s[0])
    } else {
        first_rev(s.drop_first(), id)
    }
}

/// `first_rev` finds exactly the first occurrence of an identifier.
pub proof fn lemma_first_rev_found(s: Seq<Revision>, id: u64, i: int)
    requires
        0 <= i < s.len(),
        s[i].id == id,
        forall|k: int| 0 <= k < i ==> s[k].id != id,
    ensures
        first_rev(s, id) == Option::Some(s[i]),
    decreases i,
{
    if i > 0 {
        lemma_first_rev_found(s.drop_first(), id, i - 1);
    }
}

impl RevisionStore {
    /// Rebuilds the registry from revisions reconstructed out of
    /// persisted storage, one insertion each: exactly the persisted
    /// identifiers come back, and each stored revision is the first
    /// persisted one that carries its identifier — later duplicates of
    /// an identifier are dropped.
    pub fn from_revisions(rs: Vec<Revision>) -> (st: RevisionStore)
        requires
            forall|i: int| 0 <= i < rs@.len() ==> (#[trigger] rs@[i]).wf(),
        ensures
            st.wf(),
            forall|id: u64|
                has_id(st@, id) <==> exists|i: int| 0 <= i < rs@.len() && (#[trigger] rs@[i]).id
                    == id,
            forall|x: Revision| st@.contains(x) ==> rs@.contains(x),
            forall|x: Revision| st@.contains(x) ==> first_rev(rs@, x.id) == Option::Some(x),
    {
        let mut st = RevisionStore::new();
        let ghost orig = rs@;
        let mut work = rs;
        let ghost mut done: int = 0;
        proof {
            assert(work@ =~= orig.subrange(0, orig.len() as int));
        }
        while work.len() > 0
            invariant
                st.wf(),
                0 <= done <= orig.len(),
                work@ == orig.subrange(done, orig.len() as int),
                forall|k: int| 0 <= k < orig.len() ==> (#[trigger] orig[k]).wf(),
                forall|id: u64|
                    has_id(st@, id) <==> exists|k: int|
                        0 <= k < done && (#[trigger] orig[k]).id == id,
                forall|x: Revision| st@.contains(x) ==> exists|k: int|
                    0 <= k < done && orig[k] == x,
                forall|x: Revision|
                    st@.contains(x) ==> first_rev(orig, x.id) == Option::Some(x),
            decreases work@.len(),
        {
            let ghost s_before = st@;
            let ghost w_before = work@;
            let r = work.remove(0);
            proof {
                assert(r == w_before[0]);
                assert(orig.subrange(done, orig.len() as int)[0] == orig[done]);
                assert(r == orig[done]);
                assert(work@ == w_before.subrange(1, w_before.len() as int));
                assert forall|k: int| 0 <= k < work@.len() implies work@[k] == orig[
                    done + 1 + k
                ] by {
                    assert(work@[k] == w_before[k + 1]);
                    assert(orig.subrange(done, orig.len() as int)[k + 1] == orig[done + 1 + k]);
                }
                assert(work@ =~= orig.subrange(done + 1, orig.len() as int));
            }
            st.insert(r);
            proof {
                lemma_insert_ids(s_before, r, st@);
                if !has_id(s_before, r.id) {
                    assert forall|k: int| 0 <= k < done implies orig[k].id != r.id by {
                        if orig[k].id == r.id {
                            assert(has_id(s_before, r.id));
                        }
                    }
                    lemma_first_rev_found(orig, r.id, done);
                }
                assert forall|x: Revision|
                    st@.contains(x) implies first_rev(orig, x.id) == Option::Some(x) by {
                    if !s_before.contains(x) {
                        assert(has_id(s_before, r.id) ==> st@ == s_before);
                        assert(x == r);
                    }
                }
                assert forall|x: Revision| st@.contains(x) implies exists|k: int|
                    0 <= k < done + 1 && orig[k] == x by {
                    if s_before.contains(x) {
                        let k = choose|k: int| 0 <= k < done && orig[k] == x;
                        assert(0 <= k < done + 1 && orig[k] == x);
                    } else {
                        assert(has_id(s_before, r.id) ==> st@ == s_before);
                        assert(x == r);
                        assert(orig[done] == x);
                    }
                }
                done = done + 1;
            }
        }
        proof {
            assert(done == orig.len());
            assert forall|x: Revision| st@.contains(x) implies rs@.contains(x) by {
                let k = choose|k: int| 0 <= k < done && orig[k] == x;
            }
        }
        st
    }
}

/// Law: in a sorted registry that holds identifier `id_hi` and nothing
/// above it — a registry reloaded from storage whose greatest persisted
/// revision is `id_hi` — the last element, the one `latest` returns,
/// carries exactly `id_hi`.
pub proof fn lemma_latest_of_ids(s: Seq<Revision>, id_hi: u64)
    requires
        sorted_by_id(s),
        has_id(s, id_hi),
        forall|i: int| 0 <= i < s.len() ==> (#[trigger] s[i]).id <= id_hi,
    ensures
        s.len() > 0,
        s.last().id == id_hi,
{
    let i = choose|i: int| 0 <= i < s.len() && s[i].id == id_hi;
    if i < s.len() - 1 {
        assert(s[i].id < s[s.len() - 1].id);
    }
}

/// Law: inserting two revisions with ascending identifiers into an empty
/// registry leaves the second as the latest: the last element of the
/// registry, the one with the maximum identifier.
pub proof fn lemma_latest_after_two_inserts(
    s0: Seq<Revision>,
    s1: Seq<Revision>,
    s2: Seq<Revision>,
    r1: Revision,
    r2: Revision,
)
    requires
        s0.len() == 0,
        r1.id < r2.id,
        insert_result(s0, r1, s1),
        insert_result(s1, r2, s2),
    ensures
        s2.len() == 2,
        s2.last() == r2,
        forall|j: int| 0 <= j < s2.len() ==> s2[j].id <= r2.id,
{
    assert(!has_id(s0, r1.id));
    assert(s1.contains(r1)) by {
        assert(s1.contains(r1) <==> s0.contains(r1) || r1 == r1);
    }
    assert(s1.len() == 1);
    let i1 = choose|i: int| 0 <= i < s1.len() && s1[i] == r1;
    assert(s1[0] == r1);
    assert(!has_id(s1, r2.id)) by {
        if has_id(s1, r2.id) {
            let j = choose|j: int| 0 <= j < s1.len() && s1[j].id == r2.id;
            assert(s1[j] == r1);
        }
    }
    assert(s2.len() == 2);
    assert forall|j: int| 0 <= j < s2.len() implies s2[j].id <= r2.id by {
        assert(s2.contains(s2[j]));
        assert(s2[j] == r1 || s2[j] == r2) by {
            assert(s2.contains(s2[j]) <==> s1.contains(s2[j]) || s2[j] == r2);
            if s1.contains(s2[j]) {
                let k = choose|k: int| 0 <= k < s1.len() && s1[k] == s2[j];
                assert(s1[k] == r1);
            }
        }
    }
    assert(s2.contains(r2));
    let i2 = choose|i: int| 0 <= i < s2.len() && s2[i] == r2;
    assert(s2.last().id <= r2.id);
    if i2 < s2.len() - 1 {
        assert(sorted_by_id(s2));
        assert(s2[i2].id < s2[s2.len() - 1].id);
        assert(false);
    }
}

} // verus!
