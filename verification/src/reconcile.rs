//! Reconciliation planning: which wiki pages a session should own, which
//! stale pages must go, and in what order.  The wiki calls themselves are
//! made by the caller; everything decided here is pure and proved.
//!
//! Stale pages are deleted before the canonical page is edited: deleting
//! first prevents a renamed page and its stale predecessor from coexisting
//! into the next run, and a failed edit after cleanup leaves less
//! inconsistency behind than the converse.

use vstd::prelude::*;
use crate::aktool::EventId;
use crate::komapedia::space_to_underscore;
use crate::model::{AK, Event, ak_page_title, ak_wikitext};
use crate::text::views_of;

verus! {

/// An error reported by the wiki API: its code and explanation.  It aborts
/// the current session's processing, not the whole run.
#[derive(Debug)]
pub struct PublishError {
    pub code: String,
    pub info: String,
}

/// The pages to delete among those tagged as a session's: every title
/// that, with spaces normalised to the wiki's word separator, differs from
/// the canonical title, in query order.
pub open spec fn deletions_spec(canonical: Seq<char>, pages: Seq<Seq<char>>) -> Seq<Seq<char>>
    decreases pages.len(),
{
    if pages.len() == 0 {
        Seq::empty()
    } else if space_to_underscore(pages.last()) == space_to_underscore(canonical) {
        deletions_spec(canonical, pages.drop_last())
    } else {
        deletions_spec(canonical, pages.drop_last()) + seq![pages.last()]
    }
}

/// Everything to do for one session: delete the stale pages, then write
/// the canonical page with the rendered text.
pub struct SessionPlan {
    /// The canonical page title.
    pub title: String,
    /// The full text the page shall carry.
    pub text: String,
    /// The tagged pages to delete, in query order, before the edit.
    pub deletions: Vec<String>,
}

/// Selects the tagged pages that are not the canonical title.
pub fn plan_deletions(canonical: &String, pages: &Vec<String>) -> (r: Vec<String>)
    ensures
        views_of(r@) == deletions_spec(canonical@, views_of(pages@)),
{
    let keep = crate::komapedia::normalize_title(canonical.as_str());
    let n = pages.len();
    let mut r: Vec<String> = Vec::new();
    let mut i: usize = 0;
    proof {
        assert(views_of(pages@.take(0)) =~= Seq::<Seq<char>>::empty());
    }
    while i < n
        invariant
            i <= n,
            n == pages@.len(),
            keep@ == space_to_underscore(canonical@),
            views_of(r@) == deletions_spec(canonical@, views_of(pages@.take(i as int))),
        decreases n - i,
    {
        let ghost pre = r@;
        let norm = crate::komapedia::normalize_title(pages[i].as_str());
        let stale = !(norm == keep);
        if stale {
            r.push(pages[i].clone());
        }
        proof {
            let t1 = views_of(pages@.take(i + 1));
            assert(pages@.take(i + 1).drop_last() =~= pages@.take(i as int));
            assert(t1.drop_last() =~= views_of(pages@.take(i as int))) by {
                assert forall|j: int| 0 <= j < i implies t1.drop_last()[j] == views_of(
                    pages@.take(i as int),
                )[j] by {
                    assert(t1[j] == pages@.take(i + 1)[j]@);
                    assert(pages@.take(i + 1)[j] == pages@[j]);
                    assert(views_of(pages@.take(i as int))[j] == pages@.take(i as int)[j]@);
                    assert(pages@.take(i as int)[j] == pages@[j]);
                }
            }
            assert(t1.last() == pages@.take(i + 1)[i as int]@);
            assert(pages@.take(i + 1)[i as int] == pages@[i as int]);
            assert(deletions_spec(canonical@, t1) == if space_to_underscore(pages@[i as int]@)
                == space_to_underscore(canonical@) {
                deletions_spec(canonical@, t1.drop_last())
            } else {
                deletions_spec(canonical@, t1.drop_last()) + seq![pages@[i as int]@]
            });
            if stale {
                assert(views_of(r@) =~= views_of(pre) + seq![pages@[i as int]@]);
            }
        }
        i += 1;
    }
    proof {
        assert(pages@.take(n as int) =~= pages@);
    }
    r
}

/// Plans one session's reconciliation: the canonical title, the rendered
/// text, and the stale tagged pages to delete first.  `None` exactly when
/// the wiki does not know the event.
pub fn plan_session_update(event: EventId, ak: &AK, tagged: &Vec<String>) -> (r: Option<
    SessionPlan,
>)
    ensures
        r is Some <==> ak_page_title(event, ak.short_name@) is Some,
        r matches Some(p) ==> {
            &&& Some(p.title@) == ak_page_title(event, ak.short_name@)
            &&& p.text@ == ak_wikitext(*ak)
            &&& views_of(p.deletions@) == deletions_spec(p.title@, views_of(tagged@))
        },
{
    let title = match ak.wikipage(event) {
        None => {
            return None;
        },
        Some(t) => t,
    };
    let text = ak.wikitext();
    let deletions = plan_deletions(&title, tagged);
    Some(SessionPlan { title, text, deletions })
}

/// The sessions of an event that are eligible for publication, by id,
/// ascending: those whose publication-type flag is set.
pub open spec fn koma_ids(entries: Seq<(u64, AK)>) -> Seq<u64>
    decreases entries.len(),
{
    if entries.len() == 0 {
        Seq::empty()
    } else if entries.last().1.koma {
        koma_ids(entries.drop_last()) + seq![entries.last().0]
    } else {
        koma_ids(entries.drop_last())
    }
}

/// The ids of the publishable sessions, in ascending id order.
pub fn publishable(event: &Event) -> (r: Vec<u64>)
    requires
        event.inv(),
    ensures
        r@ == koma_ids(event.aks_entries()),
{
    let ghost entries = event.aks_entries();
    let ids = event.aks();
    let n = ids.len();
    let mut r: Vec<u64> = Vec::new();
    let mut i: usize = 0;
    proof {
        assert(entries.take(0) =~= Seq::<(u64, AK)>::empty());
        event.lemma_aks_entries();
    }
    while i < n
        invariant
            i <= n,
            event.inv(),
            entries == event.aks_entries(),
            n == entries.len(),
            ids@.len() == n,
            forall|j: int| 0 <= j < n ==> ids@[j] == entries[j].0,
            r@ == koma_ids(entries.take(i as int)),
        decreases n - i,
    {
        proof {
            event.lemma_aks_entries();
        }
        let keep = match event.ak(ids[i]) {
            Some(a) => a.is_koma(),
            None => false,
        };
        proof {
            assert(entries[i as int].0 == ids@[i as int]);
            assert(event.spec_aks()[ids@[i as int]] == entries[i as int].1);
            assert(entries.take(i + 1).drop_last() =~= entries.take(i as int));
            assert(entries.take(i + 1).last() == entries[i as int]);
        }
        if keep {
            r.push(ids[i]);
            proof {
                assert(r@ =~= koma_ids(entries.take(i + 1)));
            }
        }
        i += 1;
    }
    proof {
        assert(entries.take(n as int) =~= entries);
    }
    r
}

/// Re-running reconciliation against a wiki whose tagged pages all already
/// match the canonical title plans no deletions: the second run of an
/// unchanged source only re-writes the same page.
pub proof fn lemma_reconcile_idempotent(canonical: Seq<char>, pages: Seq<Seq<char>>)
    requires
        forall|i: int|
            0 <= i < pages.len() ==> space_to_underscore(#[trigger] pages[i])
                == space_to_underscore(canonical),
    ensures
        deletions_spec(canonical, pages) == Seq::<Seq<char>>::empty(),
    decreases pages.len(),
{
    if pages.len() > 0 {
        assert(forall|i: int| 0 <= i < pages.len() - 1 ==> #[trigger] pages.drop_last()[i]
            == pages[i]);
        lemma_reconcile_idempotent(canonical, pages.drop_last());
        assert(pages.last() == pages[pages.len() - 1]);
    }
}

} // verus!
