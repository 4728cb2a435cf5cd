//! The revision diff engine.
//!
//! `compare` partitions the union of two asset sets, by path, into four
//! buckets: present only in the candidate (new), present in both with a
//! differing fingerprint (changed), present only in the previous set
//! (removed), present in both with a matching fingerprint (unchanged).
//! An empty candidate set is a degenerate input and is rejected: an empty
//! manifest must never silently wipe a mirror's effective content.

use vstd::prelude::*;

use crate::asset::AssetDescriptor;
use crate::asset::AssetView;
use crate::asset::bytes_eq;
use crate::asset::find_in;
use crate::asset::find_path;
use crate::asset::has_path;
use crate::asset::lemma_find_path_at;
use crate::asset::lemma_find_path_is_member;
use crate::asset::lemma_path_set_card;
use crate::asset::lemma_path_set_has_path;
use crate::asset::path_set;
use crate::asset::unique_paths;
use crate::asset::views_of;
use crate::errors::DiffError;

verus! {

/// The four-way partition of two asset sets.
#[derive(Debug)]
pub struct RevisionDiff {
    /// Present only in the candidate set.
    pub new_assets: Vec<AssetDescriptor>,
    /// Present in both sets with differing fingerprints.
    pub changed_assets: Vec<AssetDescriptor>,
    /// Present only in the previous set.
    pub removed_assets: Vec<AssetDescriptor>,
    /// Present in both sets with matching fingerprints.
    pub unchanged_assets: Vec<AssetDescriptor>,
}

/// Whether `old` holds an asset at `x`'s path with `x`'s fingerprint.
pub open spec fn same_content(old: Seq<AssetView>, x: AssetView) -> bool {
    match find_path(old, x.path) {
        Option::Some(y) => y.fingerprint == x.fingerprint,
        Option::None => false,
    }
}

/// The predicate that places an asset in the new bucket.
pub open spec fn new_pred(a: Seq<AssetView>) -> spec_fn(AssetView) -> bool {
    |x: AssetView| !has_path(a, x.path)
}

/// The predicate that places an asset in the changed bucket.
pub open spec fn changed_pred(a: Seq<AssetView>) -> spec_fn(AssetView) -> bool {
    |x: AssetView| has_path(a, x.path) && !same_content(a, x)
}

/// The predicate that places an asset in the unchanged bucket.
pub open spec fn unchanged_pred(a: Seq<AssetView>) -> spec_fn(AssetView) -> bool {
    |x: AssetView| same_content(a, x)
}

/// The candidate assets whose path the previous set does not hold.
pub open spec fn spec_new_bucket(b: Seq<AssetView>, a: Seq<AssetView>) -> Seq<AssetView> {
    b.filter(new_pred(a))
}

/// The candidate assets whose path the previous set holds under a
/// different fingerprint.
pub open spec fn spec_changed_bucket(b: Seq<AssetView>, a: Seq<AssetView>) -> Seq<AssetView> {
    b.filter(changed_pred(a))
}

/// The candidate assets whose path the previous set holds under the same
/// fingerprint.
pub open spec fn spec_unchanged_bucket(b: Seq<AssetView>, a: Seq<AssetView>) -> Seq<AssetView> {
    b.filter(unchanged_pred(a))
}

/// The previous assets whose path the candidate set does not hold.
pub open spec fn spec_removed_bucket(b: Seq<AssetView>, a: Seq<AssetView>) -> Seq<AssetView> {
    a.filter(new_pred(b))
}

/// The asset views of the previous revision, an empty sequence when there
/// is none.
pub open spec fn old_views(previous: Option<&Vec<AssetDescriptor>>) -> Seq<AssetView> {
    match previous {
        Option::Some(p) => views_of(p@),
        Option::None => Seq::empty(),
    }
}

/// Whether `d` is exactly the four-way partition of candidate views `b`
/// against previous views `a`.
pub open spec fn diff_matches(d: RevisionDiff, b: Seq<AssetView>, a: Seq<AssetView>) -> bool {
    &&& views_of(d.new_assets@) == spec_new_bucket(b, a)
    &&& views_of(d.changed_assets@) == spec_changed_bucket(b, a)
    &&& views_of(d.unchanged_assets@) == spec_unchanged_bucket(b, a)
    &&& views_of(d.removed_assets@) == spec_removed_bucket(b, a)
}

/// Partitions the candidate asset set against the previous one.
///
/// Fails exactly when the candidate set is empty; with no previous
/// revision every candidate asset is new. Pure: the inputs are read only.
pub fn compare(
    candidate: &Vec<AssetDescriptor>,
    previous: Option<&Vec<AssetDescriptor>>,
) -> (r: Result<RevisionDiff, DiffError>)
    requires
        unique_paths(views_of(candidate@)),
        unique_paths(old_views(previous)),
    ensures
        r is Err <==> candidate@.len() == 0,
        r is Err ==> r->Err_0 == DiffError::EmptyCandidate,
        r is Ok ==> diff_matches(r->Ok_0, views_of(candidate@), old_views(previous)),
{
    if candidate.len() == 0 {
        return Err(DiffError::EmptyCandidate);
    }
    let empty_prev: Vec<AssetDescriptor> = Vec::new();
    let old: &Vec<AssetDescriptor> = match previous {
        Some(p) => p,
        None => &empty_prev,
    };
    let ghost bv = views_of(candidate@);
    let ghost av = views_of(old@);
    proof {
        assert(av =~= old_views(previous));
    }
    let mut new_assets: Vec<AssetDescriptor> = Vec::new();
    let mut changed_assets: Vec<AssetDescriptor> = Vec::new();
    let mut unchanged_assets: Vec<AssetDescriptor> = Vec::new();
    let mut removed_assets: Vec<AssetDescriptor> = Vec::new();

    let n = candidate.len();
    let mut i: usize = 0;
    while i < n
        invariant
            n == candidate.len(),
            i <= n,
            bv == views_of(candidate@),
            av == views_of(old@),
            unique_paths(av),
            views_of(new_assets@) == spec_new_bucket(bv.subrange(0, i as int), av),
            views_of(changed_assets@) == spec_changed_bucket(bv.subrange(0, i as int), av),
            views_of(unchanged_assets@) == spec_unchanged_bucket(bv.subrange(0, i as int), av),
        decreases n - i,
    {
        let ghost pre = bv.subrange(0, i as int);
        let ghost post = bv.subrange(0, i + 1 as int);
        proof {
            assert(post.drop_last() =~= pre);
            assert(post.last() == bv[i as int]);
            reveal(Seq::filter);
        }
        let x = &candidate[i];
        proof {
            assert(x@ == bv[i as int]);
        }
        match find_in(old, &x.path) {
            Some(j) => {
                proof {
                    lemma_find_path_at(av, x@.path, j as int);
                }
                if bytes_eq(&old[j].fingerprint, &x.fingerprint) {
                    unchanged_assets.push(x.clone());
                } else {
                    changed_assets.push(x.clone());
                }
            },
            None => {
                new_assets.push(x.clone());
            },
        }
        proof {
            assert(views_of(new_assets@) =~= spec_new_bucket(post, av));
            assert(views_of(changed_assets@) =~= spec_changed_bucket(post, av));
            assert(views_of(unchanged_assets@) =~= spec_unchanged_bucket(post, av));
        }
        i = i + 1;
    }
    proof {
        assert(bv.subrange(0, n as int) =~= bv);
    }

    let m = old.len();
    let mut k: usize = 0;
    while k < m
        invariant
            m == old.len(),
            n == candidate.len(),
            bv == views_of(candidate@),
            av == views_of(old@),
            unique_paths(bv),
            k <= m,
            views_of(removed_assets@) == spec_removed_bucket(bv, av.subrange(0, k as int)),
        decreases m - k,
    {
        let ghost pre = av.subrange(0, k as int);
        let ghost post = av.subrange(0, k + 1 as int);
        proof {
            assert(post.drop_last() =~= pre);
            assert(post.last() == av[k as int]);
            reveal(Seq::filter);
        }
        let y = &old[k];
        proof {
            assert(y@ == av[k as int]);
        }
        match find_in(candidate, &y.path) {
            Some(j) => {
                proof {
                    lemma_find_path_at(bv, y@.path, j as int);
                }
            },
            None => {
                removed_assets.push(y.clone());
            },
        }
        proof {
            assert(views_of(removed_assets@) =~= spec_removed_bucket(bv, post));
        }
        k = k + 1;
    }
    proof {
        assert(av.subrange(0, m as int) =~= av);
    }

    Ok(RevisionDiff { new_assets, changed_assets, removed_assets, unchanged_assets })
}

broadcast use vstd::set::group_set_axioms;

proof fn lemma_has_path_filter(s: Seq<AssetView>, pred: spec_fn(AssetView) -> bool, p: Seq<u8>)
    ensures
        has_path(s.filter(pred), p) <==> exists|i: int|
            0 <= i < s.len() && s[i].path == p && pred(s[i]),
    decreases s.len(),
{
    reveal(Seq::filter);
    if s.len() == 0 {
    } else {
        let d = s.drop_last();
        let x = s.last();
        lemma_has_path_filter(d, pred, p);
        if pred(x) {
            crate::asset::lemma_has_path_push(d.filter(pred), x, p);
        }
        if has_path(s.filter(pred), p) {
            if has_path(d.filter(pred), p) {
                let i = choose|i: int| 0 <= i < d.len() && d[i].path == p && pred(d[i]);
                assert(s[i] == d[i]);
                assert(0 <= i < s.len() && s[i].path == p && pred(s[i]));
            } else {
                assert(pred(x) && x.path == p);
                assert(s[s.len() - 1] == x);
            }
        }
        if exists|i: int| 0 <= i < s.len() && s[i].path == p && pred(s[i]) {
            let i = choose|i: int| 0 <= i < s.len() && s[i].path == p && pred(s[i]);
            if i < s.len() - 1 {
                assert(d[i] == s[i]);
                assert(has_path(d.filter(pred), p));
            } else {
                assert(x == s[i]);
            }
            assert(has_path(s.filter(pred), p));
        }
    }
}

proof fn lemma_filter_partition3(
    s: Seq<AssetView>,
    p1: spec_fn(AssetView) -> bool,
    p2: spec_fn(AssetView) -> bool,
    p3: spec_fn(AssetView) -> bool,
)
    requires
        forall|x: AssetView| #![trigger p1(x)] p1(x) || p2(x) || p3(x),
        forall|x: AssetView| #![trigger p1(x), p2(x)] !(p1(x) && p2(x)),
        forall|x: AssetView| #![trigger p1(x), p3(x)] !(p1(x) && p3(x)),
        forall|x: AssetView| #![trigger p2(x), p3(x)] !(p2(x) && p3(x)),
    ensures
        s.filter(p1).len() + s.filter(p2).len() + s.filter(p3).len() == s.len(),
    decreases s.len(),
{
    reveal(Seq::filter);
    if s.len() > 0 {
        lemma_filter_partition3(s.drop_last(), p1, p2, p3);
        assert(p1(s.last()) || p2(s.last()) || p3(s.last()));
    }
}

proof fn lemma_unique_drop_last(s: Seq<AssetView>)
    requires
        unique_paths(s),
        s.len() > 0,
    ensures
        unique_paths(s.drop_last()),
        !has_path(s.drop_last(), s.last().path),
{
    let d = s.drop_last();
    assert(forall|i: int| 0 <= i < d.len() ==> d[i] == s[i]);
    if has_path(d, s.last().path) {
        lemma_find_path_is_member(d, s.last().path);
        let j = choose|j: int|
            0 <= j < d.len() && d[j] == find_path(d, s.last().path)->Some_0 && d[j].path
                == s.last().path;
        assert(s[j].path == s[s.len() - 1].path);
        assert(false);
    }
}

proof fn lemma_removed_card(b: Seq<AssetView>, a: Seq<AssetView>)
    requires
        unique_paths(a),
    ensures
        path_set(a).difference(path_set(b)).finite(),
        spec_removed_bucket(b, a).len() == path_set(a).difference(path_set(b)).len(),
    decreases a.len(),
{
    reveal(Seq::filter);
    lemma_path_set_has_path(a);
    lemma_path_set_has_path(b);
    if a.len() == 0 {
        assert(path_set(a).difference(path_set(b)) =~= Set::<Seq<u8>>::empty());
    } else {
        let d = a.drop_last();
        let x = a.last();
        lemma_unique_drop_last(a);
        lemma_removed_card(b, d);
        lemma_path_set_has_path(d);
        if has_path(b, x.path) {
            assert(path_set(a).difference(path_set(b)) =~= path_set(d).difference(path_set(b)));
            assert(!new_pred(b)(x));
        } else {
            assert(path_set(a).difference(path_set(b)) =~= path_set(d).difference(
                path_set(b),
            ).insert(x.path));
            assert(!path_set(d).difference(path_set(b)).contains(x.path));
            assert(new_pred(b)(x));
        }
    }
}

/// Law: the diff of two asset sets with unique paths is a partition of
/// the union of their paths. The four buckets are pairwise disjoint by
/// path; together they hold exactly the paths of the two inputs; and
/// their combined size equals the number of distinct paths across both.
pub proof fn lemma_diff_partition(b: Seq<AssetView>, a: Seq<AssetView>)
    requires
        unique_paths(b),
        unique_paths(a),
    ensures
        forall|p: Seq<u8>|
            has_path(spec_new_bucket(b, a), p) <==> (has_path(b, p) && !has_path(a, p)),
        forall|p: Seq<u8>|
            has_path(spec_removed_bucket(b, a), p) <==> (has_path(a, p) && !has_path(b, p)),
        forall|p: Seq<u8>|
            !(has_path(spec_changed_bucket(b, a), p) && has_path(spec_unchanged_bucket(b, a), p)),
        forall|p: Seq<u8>|
            has_path(spec_changed_bucket(b, a), p) ==> (has_path(b, p) && has_path(a, p)),
        forall|p: Seq<u8>|
            has_path(spec_unchanged_bucket(b, a), p) ==> (has_path(b, p) && has_path(a, p)),
        forall|p: Seq<u8>|
            (has_path(spec_new_bucket(b, a), p) || has_path(spec_changed_bucket(b, a), p)
                || has_path(spec_unchanged_bucket(b, a), p) || has_path(
                spec_removed_bucket(b, a),
                p,
            )) <==> (has_path(b, p) || has_path(a, p)),
        path_set(b).union(path_set(a)).finite(),
        spec_new_bucket(b, a).len() + spec_changed_bucket(b, a).len() + spec_unchanged_bucket(
            b,
            a,
        ).len() + spec_removed_bucket(b, a).len() == path_set(b).union(path_set(a)).len(),
{
    lemma_path_set_has_path(a);
    lemma_path_set_has_path(b);

    assert forall|p: Seq<u8>|
        has_path(spec_new_bucket(b, a), p) <==> (has_path(b, p) && !has_path(a, p)) by {
        lemma_has_path_filter(b, new_pred(a), p);
        if has_path(spec_new_bucket(b, a), p) {
            let i = choose|i: int| 0 <= i < b.len() && b[i].path == p && new_pred(a)(b[i]);
            lemma_find_path_at(b, p, i);
        }
        if has_path(b, p) && !has_path(a, p) {
            lemma_find_path_is_member(b, p);
            let i = choose|i: int|
                0 <= i < b.len() && b[i] == find_path(b, p)->Some_0 && b[i].path == p;
            assert(new_pred(a)(b[i]));
        }
    }
    assert forall|p: Seq<u8>|
        has_path(spec_removed_bucket(b, a), p) <==> (has_path(a, p) && !has_path(b, p)) by {
        lemma_has_path_filter(a, new_pred(b), p);
        if has_path(spec_removed_bucket(b, a), p) {
            let i = choose|i: int| 0 <= i < a.len() && a[i].path == p && new_pred(b)(a[i]);
            lemma_find_path_at(a, p, i);
        }
        if has_path(a, p) && !has_path(b, p) {
            lemma_find_path_is_member(a, p);
            let i = choose|i: int|
                0 <= i < a.len() && a[i] == find_path(a, p)->Some_0 && a[i].path == p;
            assert(new_pred(b)(a[i]));
        }
    }
    assert forall|p: Seq<u8>|
        has_path(spec_changed_bucket(b, a), p) <==> (has_path(b, p) && changed_pred(a)(
            find_path(b, p)->Some_0,
        )) by {
        lemma_has_path_filter(b, changed_pred(a), p);
        if has_path(spec_changed_bucket(b, a), p) {
            let i = choose|i: int| 0 <= i < b.len() && b[i].path == p && changed_pred(a)(b[i]);
            lemma_find_path_at(b, p, i);
        }
        if has_path(b, p) && changed_pred(a)(find_path(b, p)->Some_0) {
            lemma_find_path_is_member(b, p);
        }
    }
    assert forall|p: Seq<u8>|
        has_path(spec_unchanged_bucket(b, a), p) <==> (has_path(b, p) && unchanged_pred(a)(
            find_path(b, p)->Some_0,
        )) by {
        lemma_has_path_filter(b, unchanged_pred(a), p);
        if has_path(spec_unchanged_bucket(b, a), p) {
            let i = choose|i: int| 0 <= i < b.len() && b[i].path == p && unchanged_pred(a)(b[i]);
            lemma_find_path_at(b, p, i);
        }
        if has_path(b, p) && unchanged_pred(a)(find_path(b, p)->Some_0) {
            lemma_find_path_is_member(b, p);
        }
    }
    assert forall|p: Seq<u8>|
        has_path(spec_changed_bucket(b, a), p) implies (has_path(b, p) && has_path(a, p)) by {
        if has_path(spec_changed_bucket(b, a), p) {
            lemma_find_path_is_member(b, p);
        }
    }
    assert forall|p: Seq<u8>|
        has_path(spec_unchanged_bucket(b, a), p) implies (has_path(b, p) && has_path(a, p)) by {
        if has_path(spec_unchanged_bucket(b, a), p) {
            lemma_find_path_is_member(b, p);
            let x = find_path(b, p)->Some_0;
            assert(same_content(a, x));
            assert(x.path == p);
        }
    }

    // coverage: a path of b falls in one of the three candidate buckets
    assert forall|p: Seq<u8>|
        (has_path(spec_new_bucket(b, a), p) || has_path(spec_changed_bucket(b, a), p) || has_path(
            spec_unchanged_bucket(b, a),
            p,
        ) || has_path(spec_removed_bucket(b, a), p)) <==> (has_path(b, p) || has_path(a, p)) by {
        if has_path(b, p) {
            lemma_find_path_is_member(b, p);
            let x = find_path(b, p)->Some_0;
            assert(new_pred(a)(x) || changed_pred(a)(x) || unchanged_pred(a)(x));
        }
    }

    // counting
    assert forall|x: AssetView| #![trigger new_pred(a)(x)]
        new_pred(a)(x) || changed_pred(a)(x) || unchanged_pred(a)(x) by {
        if has_path(a, x.path) {
            assert(changed_pred(a)(x) || unchanged_pred(a)(x));
        }
    }
    assert(forall|x: AssetView| #![trigger new_pred(a)(x), changed_pred(a)(x)]
        !(new_pred(a)(x) && changed_pred(a)(x)));
    assert forall|x: AssetView| #![trigger new_pred(a)(x), unchanged_pred(a)(x)]
        !(new_pred(a)(x) && unchanged_pred(a)(x)) by {
        if unchanged_pred(a)(x) {
            assert(find_path(a, x.path) is Some);
        }
    }
    assert(forall|x: AssetView| #![trigger changed_pred(a)(x), unchanged_pred(a)(x)]
        !(changed_pred(a)(x) && unchanged_pred(a)(x)));
    lemma_filter_partition3(b, new_pred(a), changed_pred(a), unchanged_pred(a));
    lemma_path_set_card(b);
    lemma_removed_card(b, a);
    let pb = path_set(b);
    let pa = path_set(a);
    let dset = pa.difference(pb);
    assert(pb.disjoint(dset));
    vstd::set_lib::lemma_set_disjoint_lens(pb, dset);
    assert(pb.union(pa) =~= pb + dset);
}

/// Law: against no previous revision, every candidate asset is new and
/// the other three buckets are empty.
pub proof fn lemma_compare_no_previous(b: Seq<AssetView>)
    ensures
        spec_new_bucket(b, Seq::empty()) == b,
        spec_changed_bucket(b, Seq::empty()) == Seq::<AssetView>::empty(),
        spec_unchanged_bucket(b, Seq::empty()) == Seq::<AssetView>::empty(),
        spec_removed_bucket(b, Seq::empty()) == Seq::<AssetView>::empty(),
    decreases b.len(),
{
    reveal(Seq::filter);
    if b.len() > 0 {
        lemma_compare_no_previous(b.drop_last());
        assert(new_pred(Seq::<AssetView>::empty())(b.last()));
        assert(spec_new_bucket(b, Seq::empty()) =~= b);
    }
}

} // verus!
