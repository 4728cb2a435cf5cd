//! The decision core of one sync cycle.
//!
//! A cycle fetches the latest patch information, fetches and parses the
//! manifest, builds a candidate revision, diffs it against the latest
//! registered revision, downloads what is new or changed, and commits the
//! candidate. The fetching, downloading and sleeping are the caller's;
//! this module makes the decisions: building the candidate from a parsed
//! manifest, and turning a diff into the exact download list. A failure
//! leaves no partial plan: the caller aborts only the current cycle and
//! the registry stays at its last good state.

use vstd::prelude::*;

use crate::asset::AssetDescriptor;
use crate::asset::unique_paths;
use crate::asset::views_of;
use crate::diff::RevisionDiff;
use crate::diff::compare;
use crate::diff::diff_matches;
use crate::diff::old_views;
use crate::errors::DiffError;
use crate::manifest::ParseOutcome;
use crate::store::Revision;

verus! {

/// What one cycle decided: the diff against the previous revision and
/// the assets to download — the new ones, then the changed ones. The
/// diff's unchanged bucket names what the new revision keeps from the
/// previous one: those files are not downloaded again, so the caller
/// must carry them over into the new revision's root before committing,
/// or a read under the new revision would miss them.
pub struct CyclePlan {
    /// The four-way partition against the latest registered revision.
    pub diff: RevisionDiff,
    /// The assets to download: exactly the new and the changed.
    pub to_download: Vec<AssetDescriptor>,
}

/// Builds the candidate revision from a parsed manifest.
pub fn build_revision(id: u64, root: Vec<u8>, outcome: ParseOutcome) -> (r: Revision)
    requires
        unique_paths(views_of(outcome.assets@)),
    ensures
        r.wf(),
        r.id == id,
        r.root@ == root@,
        r.assets@ == outcome.assets@,
{
    Revision { id, root, assets: outcome.assets }
}

/// Diffs the candidate against the latest revision and decides what to
/// download: every new asset, then every changed one, in order. Fails
/// exactly when the candidate's asset set is empty, so an empty manifest
/// can never wipe the mirror.
pub fn plan_cycle(candidate: &Revision, latest: Option<&Revision>) -> (r: Result<
    CyclePlan,
    DiffError,
>)
    requires
        candidate.wf(),
        match latest {
            Option::Some(l) => l.wf(),
            Option::None => true,
        },
    ensures
        r is Err <==> candidate.assets@.len() == 0,
        r is Err ==> r->Err_0 == DiffError::EmptyCandidate,
        r is Ok ==> diff_matches(
            r->Ok_0.diff,
            views_of(candidate.assets@),
            match latest {
                Option::Some(l) => views_of(l.assets@),
                Option::None => Seq::empty(),
            },
        ),
        r is Ok ==> views_of(r->Ok_0.to_download@) == views_of(r->Ok_0.diff.new_assets@)
            + views_of(r->Ok_0.diff.changed_assets@),
{
    let prev_assets: Option<&Vec<AssetDescriptor>> = match latest {
        Some(l) => Some(&l.assets),
        None => None,
    };
    proof {
        assert(old_views(prev_assets) =~= (match latest {
            Option::Some(l) => views_of(l.assets@),
            Option::None => Seq::<crate::asset::AssetView>::empty(),
        }));
    }
    let diff = match compare(&candidate.assets, prev_assets) {
        Ok(d) => d,
        Err(e) => {
            return Err(e);
        },
    };
    let mut to_download: Vec<AssetDescriptor> = Vec::new();
    let n1 = diff.new_assets.len();
    let mut i: usize = 0;
    while i < n1
        invariant
            n1 == diff.new_assets@.len(),
            i <= n1,
            to_download@.len() == i,
            forall|k: int| 0 <= k < i ==> to_download@[k]@ == diff.new_assets@[k]@,
        decreases n1 - i,
    {
        to_download.push(diff.new_assets[i].clone());
        i = i + 1;
    }
    let n2 = diff.changed_assets.len();
    let mut k: usize = 0;
    while k < n2
        invariant
            n1 == diff.new_assets@.len(),
            n2 == diff.changed_assets@.len(),
            k <= n2,
            to_download@.len() == n1 + k,
            forall|j: int| 0 <= j < n1 ==> to_download@[j]@ == diff.new_assets@[j]@,
            forall|j: int| 0 <= j < k ==> to_download@[n1 + j]@ == diff.changed_assets@[j]@,
        decreases n2 - k,
    {
        to_download.push(diff.changed_assets[k].clone());
        k = k + 1;
    }
    proof {
        assert(views_of(to_download@) =~= views_of(diff.new_assets@) + views_of(
            diff.changed_assets@,
        ));
    }
    Ok(CyclePlan { diff, to_download })
}

/// Whether the cycle found anything to transfer: with nothing new and
/// nothing changed, the downloader has no work and only the commit
/// remains.
pub fn has_work(plan: &CyclePlan) -> (r: bool)
    ensures
        r == (plan.to_download@.len() > 0),
{
    plan.to_download.len() > 0
}

} // verus!
