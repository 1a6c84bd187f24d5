//! The two-phase synchronization fold.  Fetching itself happens outside
//! this crate; what is verified here is the decision logic: which fetch
//! outcomes advance the snapshot, how a whole batch of out-of-order,
//! partially failed results folds into it, and the laws that hold of any
//! such run — idempotent merging, invalid entries never stored, a
//! monotone page cursor, and isolation of per-page failures.

use vstd::prelude::*;

use crate::deck::Deck;
use crate::disk::{merge_meta_map, Disk};
use crate::playgwent::deck::DeckMetadata;

verus! {

/// The abstract state of a snapshot: its cursors and the contents of its
/// two id-keyed maps.
pub struct SnapState {
    pub page_start: usize,
    pub page_end: usize,
    pub deckmeta: Map<usize, DeckMetadata>,
    pub decks: Map<usize, Deck>,
}

impl View for Disk {
    type V = SnapState;

    open spec fn view(&self) -> SnapState {
        SnapState {
            page_start: self.page_start,
            page_end: self.page_end,
            deckmeta: self.deckmeta@,
            decks: self.decks@,
        }
    }
}

/// The outcome of one page fetch, as handed to the fold: `Failed` for a
/// transport or decode failure, `Page` for a decoded page of entries.
pub enum FetchOutcome {
    Failed,
    Page(Vec<DeckMetadata>),
}

/// A fetch outcome as the fold sees it: `None` for a failure, `Some` for
/// the fetched entries.
pub open spec fn outcome_view(o: FetchOutcome) -> Option<Seq<DeckMetadata>> {
    match o {
        FetchOutcome::Failed => None,
        FetchOutcome::Page(entries) => Some(entries@),
    }
}

/// A whole batch of fetch outcomes as the fold sees it.
pub open spec fn outcomes_view(pages: Seq<(usize, FetchOutcome)>) -> Seq<
    (usize, Option<Seq<DeckMetadata>>),
> {
    pages.map(|i: int, p: (usize, FetchOutcome)| (p.0, outcome_view(p.1)))
}

/// A page outcome is merged only when the fetch succeeded and the page is
/// non-empty: failures are skipped, and an empty page is treated as "no
/// more data at this offset", contributing nothing — not even a cursor
/// advance.
pub open spec fn spec_merged(o: Option<Seq<DeckMetadata>>) -> bool {
    match o {
        None => false,
        Some(entries) => entries.len() > 0,
    }
}

/// One step of the phase-1 fold, on abstract snapshot states.
pub open spec fn spec_phase1_step(
    v: SnapState,
    offset: usize,
    o: Option<Seq<DeckMetadata>>,
) -> SnapState {
    if !spec_merged(o) {
        v
    } else {
        SnapState {
            page_start: v.page_start,
            page_end: if offset > v.page_end {
                offset
            } else {
                v.page_end
            },
            deckmeta: merge_meta_map(v.deckmeta, o.unwrap()),
            decks: v.decks,
        }
    }
}

/// A whole phase-1 run: the fold of a batch of page outcomes, in the
/// order their fetches completed.
pub open spec fn spec_phase1_run(
    v: SnapState,
    pages: Seq<(usize, Option<Seq<DeckMetadata>>)>,
) -> SnapState
    decreases pages.len(),
{
    if pages.len() == 0 {
        v
    } else {
        spec_phase1_step(
            spec_phase1_run(v, pages.drop_last()),
            pages.last().0,
            pages.last().1,
        )
    }
}

/// One step of the phase-2 fold: a failed detail fetch changes nothing, a
/// successful one is stored by id.
pub open spec fn spec_phase2_step(v: SnapState, id: usize, o: Option<Deck>) -> SnapState {
    match o {
        None => v,
        Some(deck) => SnapState {
            page_start: v.page_start,
            page_end: v.page_end,
            deckmeta: v.deckmeta,
            decks: v.decks.insert(id, deck),
        },
    }
}

/// A whole phase-2 run.
pub open spec fn spec_phase2_run(v: SnapState, details: Seq<(usize, Option<Deck>)>) -> SnapState
    decreases details.len(),
{
    if details.len() == 0 {
        v
    } else {
        spec_phase2_step(
            spec_phase2_run(v, details.drop_last()),
            details.last().0,
            details.last().1,
        )
    }
}

impl Disk {
    /// Folds the outcome of fetching the page at `offset` into the
    /// snapshot: a failed fetch or an empty page leaves the snapshot
    /// unchanged; a non-empty page advances the cursor to `offset` if
    /// that is further along and merges every valid entry by id.
    pub fn phase1_step(self, offset: usize, outcome: FetchOutcome) -> (r: Disk)
        ensures
            r@ == spec_phase1_step(self@, offset, outcome_view(outcome)),
    {
        match outcome {
            FetchOutcome::Failed => self,
            FetchOutcome::Page(entries) => {
                if entries.len() == 0 {
                    self
                } else {
                    let r = self.merge_meta(offset, entries);
                    proof {
                        assert(r@ =~= spec_phase1_step(self@, offset, outcome_view(outcome)));
                    }
                    r
                }
            },
        }
    }

    /// Folds a whole batch of phase-1 outcomes, in completion order.
    pub fn phase1_run(self, pages: Vec<(usize, FetchOutcome)>) -> (r: Disk)
        ensures
            r@ == spec_phase1_run(self@, outcomes_view(pages@)),
    {
        let ghost all = outcomes_view(pages@);
        let mut pages = pages;
        let mut s = self;
        while pages.len() > 0
            invariant
                pages@.len() <= all.len(),
                outcomes_view(pages@) =~= all.skip(all.len() - pages@.len()),
                s@ == spec_phase1_run(self@, all.take(all.len() - pages@.len())),
            decreases pages.len(),
        {
            let ghost i = all.len() - pages@.len();
            let ghost prev = pages@;
            let (offset, outcome) = pages.remove(0);
            proof {
                assert((offset, outcome) == prev[0]);
                assert(outcomes_view(prev)[0] == (prev[0].0, outcome_view(prev[0].1)));
                assert((offset, outcome_view(outcome)) == all[i]);
                assert forall|j: int| 0 <= j < pages@.len() implies outcomes_view(pages@)[j]
                    == all.skip(i + 1)[j] by {
                    assert(pages@[j] == prev[j + 1]);
                    assert(outcomes_view(prev)[j + 1] == (prev[j + 1].0, outcome_view(
                        prev[j + 1].1,
                    )));
                    assert(outcomes_view(pages@)[j] == (pages@[j].0, outcome_view(pages@[j].1)));
                }
                assert(outcomes_view(pages@) =~= all.skip(i + 1));
                assert(all.take(i + 1).drop_last() =~= all.take(i));
                assert(all.take(i + 1).last() == all[i]);
            }
            s = s.phase1_step(offset, outcome);
        }
        proof {
            assert(all.take(all.len() as int) =~= all);
        }
        s
    }

    /// Folds the outcome of one detail fetch: a failure leaves the id
    /// without a detail record (eligible for retry on a future run), a
    /// success overwrites any stale detail.
    pub fn phase2_step(self, id: usize, outcome: Option<Deck>) -> (r: Disk)
        ensures
            r@ == spec_phase2_step(self@, id, outcome),
    {
        match outcome {
            None => self,
            Some(deck) => {
                let mut s = self;
                s.decks.insert(id, deck);
                proof {
                    assert(s@ =~= spec_phase2_step(self@, id, Some(deck)));
                }
                s
            },
        }
    }

    /// Folds a whole batch of phase-2 outcomes, in completion order.
    pub fn phase2_run(self, details: Vec<(usize, Option<Deck>)>) -> (r: Disk)
        ensures
            r@ == spec_phase2_run(self@, details@),
    {
        let ghost all = details@;
        let mut details = details;
        let mut s = self;
        while details.len() > 0
            invariant
                details@.len() <= all.len(),
                details@ =~= all.skip(all.len() - details@.len()),
                s@ == spec_phase2_run(self@, all.take(all.len() - details@.len())),
            decreases details.len(),
        {
            let ghost i = all.len() - details@.len();
            let (id, outcome) = details.remove(0);
            proof {
                assert((id, outcome) == all[i]);
                assert(all.skip(i).remove(0) =~= all.skip(i + 1));
                assert(all.take(i + 1).drop_last() =~= all.take(i));
                assert(all.take(i + 1).last() == all[i]);
            }
            s = s.phase2_step(id, outcome);
        }
        proof {
            assert(all.take(all.len() as int) =~= all);
        }
        s
    }
}

/// What merging a page leaves under key `k`: the page's last valid entry
/// with that id, if it has one.
pub open spec fn last_valid_at(es: Seq<DeckMetadata>, k: usize) -> Option<DeckMetadata>
    decreases es.len(),
{
    if es.len() == 0 {
        None
    } else if !es.last().invalid && es.last().id == k {
        Some(es.last())
    } else {
        last_valid_at(es.drop_last(), k)
    }
}

/// The exact effect of a page merge on any key: the last valid entry of
/// the page with that id wins; a key the page has no valid entry for is
/// left exactly as it was — present or absent.
pub proof fn lemma_merge_meta_at(m: Map<usize, DeckMetadata>, es: Seq<DeckMetadata>, k: usize)
    ensures
        match last_valid_at(es, k) {
            Some(e) => merge_meta_map(m, es).contains_key(k) && merge_meta_map(m, es)[k] == e,
            None => merge_meta_map(m, es).contains_key(k) == m.contains_key(k) && (m.contains_key(
                k,
            ) ==> merge_meta_map(m, es)[k] == m[k]),
        },
    decreases es.len(),
{
    if es.len() > 0 {
        lemma_merge_meta_at(m, es.drop_last(), k);
    }
}

/// Idempotent merge: merging the same page twice yields the same map
/// state as merging it once — for every id the last valid value wins, and
/// nothing is duplicated.
pub proof fn lemma_merge_meta_idempotent(m: Map<usize, DeckMetadata>, es: Seq<DeckMetadata>)
    ensures
        merge_meta_map(merge_meta_map(m, es), es) == merge_meta_map(m, es),
{
    let once = merge_meta_map(m, es);
    let twice = merge_meta_map(once, es);
    assert forall|k: usize| #[trigger]
        twice.contains_key(k) == once.contains_key(k) && (once.contains_key(k)
            ==> twice[k] == once[k]) by {
        lemma_merge_meta_at(m, es, k);
        lemma_merge_meta_at(once, es, k);
    }
    assert(twice =~= once);
}

/// Invalid entries are never stored: a key for which the page holds only
/// invalid entries (or none at all) is exactly as before the merge —
/// absent if it was absent, and untouched if a prior valid merge stored
/// it.
pub proof fn lemma_invalid_never_stored(m: Map<usize, DeckMetadata>, es: Seq<DeckMetadata>, k: usize)
    requires
        forall|i: int| 0 <= i < es.len() && es[i].id == k ==> es[i].invalid,
    ensures
        merge_meta_map(m, es).contains_key(k) == m.contains_key(k),
        m.contains_key(k) ==> merge_meta_map(m, es)[k] == m[k],
{
    lemma_last_valid_none(es, k);
    lemma_merge_meta_at(m, es, k);
}

proof fn lemma_last_valid_none(es: Seq<DeckMetadata>, k: usize)
    requires
        forall|i: int| 0 <= i < es.len() && es[i].id == k ==> es[i].invalid,
    ensures
        last_valid_at(es, k) is None,
    decreases es.len(),
{
    if es.len() > 0 {
        lemma_last_valid_none(es.drop_last(), k);
    }
}

/// Merging never removes keys: every id present before a phase-1 run is
/// present after it.
pub proof fn lemma_run_preserves_keys(
    v: SnapState,
    pages: Seq<(usize, Option<Seq<DeckMetadata>>)>,
    k: usize,
)
    requires
        v.deckmeta.contains_key(k),
    ensures
        spec_phase1_run(v, pages).deckmeta.contains_key(k),
    decreases pages.len(),
{
    if pages.len() > 0 {
        lemma_run_preserves_keys(v, pages.drop_last(), k);
        let prev = spec_phase1_run(v, pages.drop_last());
        lemma_merge_meta_at(prev.deckmeta, match pages.last().1 {
            Some(es) => es,
            None => Seq::empty(),
        }, k);
    }
}

/// A phase-2 run only adds or overwrites detail records: every id present
/// before it is present after it, and the metadata map and cursors are
/// untouched.
pub proof fn lemma_phase2_preserves_keys(
    v: SnapState,
    details: Seq<(usize, Option<Deck>)>,
    k: usize,
)
    requires
        v.decks.contains_key(k),
    ensures
        spec_phase2_run(v, details).decks.contains_key(k),
        spec_phase2_run(v, details).deckmeta == v.deckmeta,
        spec_phase2_run(v, details).page_start == v.page_start,
        spec_phase2_run(v, details).page_end == v.page_end,
    decreases details.len(),
{
    if details.len() > 0 {
        lemma_phase2_preserves_keys(v, details.drop_last(), k);
    }
}

/// Cursor monotonicity: after any sequence of phase-1 merges the cursor
/// equals the maximum of its starting value and the offsets of the pages
/// actually merged; in particular it never decreases, and pages that
/// failed or were empty do not advance it.
pub proof fn lemma_cursor_monotonic(v: SnapState, pages: Seq<(usize, Option<Seq<DeckMetadata>>)>)
    ensures
        spec_phase1_run(v, pages).page_end >= v.page_end,
        forall|i: int|
            0 <= i < pages.len() && spec_merged(pages[i].1) ==> spec_phase1_run(v, pages).page_end
                >= pages[i].0,
        spec_phase1_run(v, pages).page_end == v.page_end || exists|i: int|
            0 <= i < pages.len() && spec_merged(pages[i].1) && spec_phase1_run(v, pages).page_end
                == pages[i].0,
    decreases pages.len(),
{
    if pages.len() > 0 {
        lemma_cursor_monotonic(v, pages.drop_last());
        let prev = spec_phase1_run(v, pages.drop_last());
        let after = spec_phase1_run(v, pages);
        assert forall|i: int|
            0 <= i < pages.len() && spec_merged(pages[i].1) implies after.page_end
            >= pages[i].0 by {
            if i < pages.len() - 1 {
                assert(pages.drop_last()[i] == pages[i]);
            }
        }
        if after.page_end != v.page_end {
            if spec_merged(pages.last().1) && after.page_end == pages.last().0 {
                assert(0 <= pages.len() - 1 < pages.len() && spec_merged(
                    pages[pages.len() - 1].1,
                ) && after.page_end == pages[pages.len() - 1].0);
            } else {
                let j = choose|j: int|
                    0 <= j < pages.drop_last().len() && spec_merged(pages.drop_last()[j].1)
                        && prev.page_end == pages.drop_last()[j].0;
                assert(pages[j] == pages.drop_last()[j]);
                assert(after.page_end == pages[j].0);
            }
        }
    }
}

/// Partial failure isolation: a page that failed or came back empty
/// contributes nothing — the run with it is the run without it, so the
/// other pages of the batch still merge and the run completes.
pub proof fn lemma_failed_page_isolated(
    v: SnapState,
    pages: Seq<(usize, Option<Seq<DeckMetadata>>)>,
    i: int,
)
    requires
        0 <= i < pages.len(),
        !spec_merged(pages[i].1),
    ensures
        spec_phase1_run(v, pages) == spec_phase1_run(v, pages.remove(i)),
    decreases pages.len(),
{
    if i == pages.len() - 1 {
        assert(pages.remove(i) =~= pages.drop_last());
    } else {
        assert(pages.remove(i).drop_last() =~= pages.drop_last().remove(i));
        assert(pages.remove(i).last() == pages.last());
        lemma_failed_page_isolated(v, pages.drop_last(), i);
    }
}

} // verus!
