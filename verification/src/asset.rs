//! Asset descriptors and the spec-level model of asset sets.
//!
//! An asset is one downloadable unit: a relative path (the unique key
//! within a revision), a content fingerprint, a size and optional
//! transfer-encoding flags. Two descriptors name the same content iff
//! their fingerprints are equal, independent of size.

use vstd::prelude::*;

verus! {

/// Mathematical model of one asset descriptor.
pub struct AssetView {
    pub path: Seq<u8>,
    pub fingerprint: Seq<u8>,
    pub size: u64,
    pub flags: u64,
}

/// One downloadable unit of a revision.
#[derive(Debug)]
pub struct AssetDescriptor {
    /// Relative path, the unique key within a revision.
    pub path: Vec<u8>,
    /// Content fingerprint; equality of fingerprints means equality of content.
    pub fingerprint: Vec<u8>,
    /// Size in bytes as the manifest declares it.
    pub size: u64,
    /// Transfer-encoding flags; zero when the manifest names none.
    pub flags: u64,
}

impl View for AssetDescriptor {
    type V = AssetView;

    open spec fn view(&self) -> AssetView {
        AssetView {
            path: self.path@,
            fingerprint: self.fingerprint@,
            size: self.size,
            flags: self.flags,
        }
    }
}

/// The models of every descriptor in a sequence.
pub open spec fn views_of(s: Seq<AssetDescriptor>) -> Seq<AssetView> {
    s.map_values(|d: AssetDescriptor| d@)
}

/// The first descriptor of `s` whose path is `p`, front to back.
pub open spec fn find_path(s: Seq<AssetView>, p: Seq<u8>) -> Option<AssetView>
    decreases s.len(),
{
    if s.len() == 0 {
        Option::None
    } else {
        match find_path(s.drop_last(), p) {
            Option::Some(x) => Option::Some(x),
            Option::None => if s.last().path == p {
                Option::Some(s.last())
            } else {
                Option::None
            },
        }
    }
}

/// Whether some descriptor of `s` has path `p`.
pub open spec fn has_path(s: Seq<AssetView>, p: Seq<u8>) -> bool {
    find_path(s, p) is Some
}

/// Whether the paths of `s` are pairwise distinct: the invariant of every
/// asset set of one revision.
pub open spec fn unique_paths(s: Seq<AssetView>) -> bool {
    forall|i: int, j: int| 0 <= i < j < s.len() ==> s[i].path != s[j].path
}

/// The set of paths that occur in `s`.
pub open spec fn path_set(s: Seq<AssetView>) -> Set<Seq<u8>>
    decreases s.len(),
{
    if s.len() == 0 {
        Set::empty()
    } else {
        path_set(s.drop_last()).insert(s.last().path)
    }
}

/// `has_path` and `path_set` agree, and `path_set` is finite.
pub proof fn lemma_path_set_has_path(s: Seq<AssetView>)
    ensures
        path_set(s).finite(),
        forall|p: Seq<u8>| path_set(s).contains(p) <==> has_path(s, p),
    decreases s.len(),
{
    if s.len() > 0 {
        lemma_path_set_has_path(s.drop_last());
        assert forall|p: Seq<u8>| path_set(s).contains(p) <==> has_path(s, p) by {
            assert(path_set(s) == path_set(s.drop_last()).insert(s.last().path));
            assert(path_set(s.drop_last()).contains(p) <==> has_path(s.drop_last(), p));
        }
    }
}

/// A descriptor found by path is an element of the sequence, with that path.
pub proof fn lemma_find_path_is_member(s: Seq<AssetView>, p: Seq<u8>)
    requires
        has_path(s, p),
    ensures
        exists|i: int|
            0 <= i < s.len() && s[i] == find_path(s, p)->Some_0 && s[i].path == p,
    decreases s.len(),
{
    if s.len() > 0 {
        if has_path(s.drop_last(), p) {
            lemma_find_path_is_member(s.drop_last(), p);
            let i = choose|i: int|
                0 <= i < s.drop_last().len() && s.drop_last()[i] == find_path(
                    s.drop_last(),
                    p,
                )->Some_0 && s.drop_last()[i].path == p;
            assert(s[i] == s.drop_last()[i]);
        } else {
            assert(s[s.len() - 1] == s.last());
        }
    }
}

/// Appending one descriptor extends the reachable paths by its path.
pub proof fn lemma_has_path_push(s: Seq<AssetView>, x: AssetView, p: Seq<u8>)
    ensures
        has_path(s.push(x), p) <==> (has_path(s, p) || x.path == p),
{
    assert(s.push(x).drop_last() =~= s);
    assert(s.push(x).last() == x);
}

/// Under unique paths, any element with path `p` is the one that
/// `find_path` returns.
pub proof fn lemma_find_path_at(s: Seq<AssetView>, p: Seq<u8>, i: int)
    requires
        unique_paths(s),
        0 <= i < s.len(),
        s[i].path == p,
    ensures
        find_path(s, p) == Option::Some(s[i]),
    decreases s.len(),
{
    if i < s.len() - 1 {
        lemma_find_path_at(s.drop_last(), p, i);
        assert(s.drop_last()[i] == s[i]);
    } else {
        if has_path(s.drop_last(), p) {
            lemma_find_path_is_member(s.drop_last(), p);
            let j = choose|j: int|
                0 <= j < s.drop_last().len() && s.drop_last()[j] == find_path(
                    s.drop_last(),
                    p,
                )->Some_0 && s.drop_last()[j].path == p;
            assert(s[j].path == s[i].path);
            assert(false);
        }
    }
}

/// Under unique paths, the number of distinct paths equals the number of
/// descriptors.
pub proof fn lemma_path_set_card(s: Seq<AssetView>)
    requires
        unique_paths(s),
    ensures
        path_set(s).finite(),
        path_set(s).len() == s.len(),
    decreases s.len(),
{
    lemma_path_set_has_path(s);
    if s.len() > 0 {
        let d = s.drop_last();
        assert(unique_paths(d)) by {
            assert(forall|i: int, j: int| 0 <= i < j < d.len() ==> s[i] == d[i] && s[j] == d[j]);
        }
        lemma_path_set_card(d);
        lemma_path_set_has_path(d);
        if has_path(d, s.last().path) {
            lemma_find_path_is_member(d, s.last().path);
            let j = choose|j: int|
                0 <= j < d.len() && d[j] == find_path(d, s.last().path)->Some_0 && d[j].path
                    == s.last().path;
            assert(s[j].path == s[s.len() - 1].path);
            assert(false);
        }
        assert(!path_set(d).contains(s.last().path));
    }
}

/// Byte-string equality, decided in executable code.
pub fn bytes_eq(a: &Vec<u8>, b: &Vec<u8>) -> (r: bool)
    ensures
        r == (a@ == b@),
{
    if a.len() != b.len() {
        return false;
    }
    let n = a.len();
    let mut i: usize = 0;
    while i < n
        invariant
            n == a.len() == b.len(),
            i <= n,
            forall|k: int| 0 <= k < i ==> a@[k] == b@[k],
        decreases n - i,
    {
        if a[i] != b[i] {
            return false;
        }
        i = i + 1;
    }
    proof {
        assert(a@ =~= b@);
    }
    true
}

/// A fresh copy of a byte string, equal to the original.
pub fn copy_bytes(v: &Vec<u8>) -> (r: Vec<u8>)
    ensures
        r@ == v@,
{
    let mut r: Vec<u8> = Vec::new();
    let n = v.len();
    let mut i: usize = 0;
    while i < n
        invariant
            n == v.len(),
            i <= n,
            r@ =~= v@.subrange(0, i as int),
        decreases n - i,
    {
        r.push(v[i]);
        i = i + 1;
    }
    proof {
        assert(r@ =~= v@);
    }
    r
}

impl Clone for AssetDescriptor {
    /// A copy whose model equals the original's.
    fn clone(&self) -> (r: Self)
        ensures
            r@ == self@,
    {
        AssetDescriptor {
            path: copy_bytes(&self.path),
            fingerprint: copy_bytes(&self.fingerprint),
            size: self.size,
            flags: self.flags,
        }
    }
}

/// The index of the first descriptor of `list` whose path is `p`, if any.
pub fn find_in(list: &Vec<AssetDescriptor>, p: &Vec<u8>) -> (r: Option<usize>)
    ensures
        match r {
            Option::Some(i) => i < list.len() && views_of(list@)[i as int].path == p@,
            Option::None => !has_path(views_of(list@), p@),
        },
{
    let ghost vs = views_of(list@);
    let n = list.len();
    let mut i: usize = 0;
    while i < n
        invariant
            n == list.len(),
            i <= n,
            vs == views_of(list@),
            forall|k: int| 0 <= k < i ==> vs[k].path != p@,
        decreases n - i,
    {
        if bytes_eq(&list[i].path, p) {
            return Some(i);
        }
        i = i + 1;
    }
    proof {
        if has_path(vs, p@) {
            lemma_find_path_is_member(vs, p@);
        }
    }
    None
}

} // verus!
