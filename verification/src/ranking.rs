//! Ranking: candidates in the order of their scores, the better first and
//! among equals the one that stands earlier in the index, cut off behind a
//! fixed number.

use vstd::prelude::*;

verus! {

/// A text of the index that matches, by its position there, with its score.
#[derive(Debug, Clone, Copy, PartialEq, Eq, Structural)]
pub struct Candidate {
    pub position: usize,
    pub score: u32,
}

/// No candidate scores better than one before it.
pub open spec fn descending(ranked: Seq<Candidate>) -> bool {
    forall|i: int, j: int|
        0 <= i < j < ranked.len() ==> (#[trigger] ranked[i]).score >= (#[trigger] ranked[j]).score
}

/// Each candidate stands later in the index than the ones before it.
pub open spec fn ascending_positions(candidates: Seq<Candidate>) -> bool {
    forall|i: int, j: int|
        0 <= i < j < candidates.len() ==> (#[trigger] candidates[i]).position < (
        #[trigger] candidates[j]).position
}

/// Of two candidates the earlier scores better, or they score the same and
/// the earlier stands earlier in the index.
pub open spec fn well_ranked(ranked: Seq<Candidate>) -> bool {
    forall|i: int, j: int|
        0 <= i < j < ranked.len() ==> {
            let a = #[trigger] ranked[i];
            let b = #[trigger] ranked[j];
            a.score > b.score || (a.score == b.score && a.position < b.position)
        }
}

/// Where a candidate with `score` goes: behind the last one that scores at
/// least as well.
pub open spec fn rank_of(ranked: Seq<Candidate>, score: u32) -> int
    decreases ranked.len(),
{
    if ranked.len() == 0 {
        0
    } else if ranked.last().score >= score {
        ranked.len() as int
    } else {
        rank_of(ranked.drop_last(), score)
    }
}

/// The ranking with one more candidate in its place.
pub open spec fn insert_ranked(ranked: Seq<Candidate>, candidate: Candidate) -> Seq<Candidate> {
    ranked.insert(rank_of(ranked, candidate.score), candidate)
}

/// The candidates ranked: each in turn goes behind those that score at
/// least as well.
pub open spec fn ranked(candidates: Seq<Candidate>) -> Seq<Candidate>
    decreases candidates.len(),
{
    if candidates.len() == 0 {
        Seq::empty()
    } else {
        insert_ranked(ranked(candidates.drop_last()), candidates.last())
    }
}

/// The first `cap` of a sequence, or all of it where it has fewer.
pub open spec fn first<A>(items: Seq<A>, cap: nat) -> Seq<A> {
    if items.len() <= cap {
        items
    } else {
        items.take(cap as int)
    }
}

/// Where a candidate goes in a descending ranking: everything before
/// scores at least as well, everything from there on scores worse.
pub proof fn lemma_rank_of(ranked: Seq<Candidate>, score: u32)
    requires
        descending(ranked),
    ensures
        0 <= rank_of(ranked, score) <= ranked.len(),
        forall|i: int| 0 <= i < rank_of(ranked, score) ==> (#[trigger] ranked[i]).score >= score,
        forall|i: int|
            rank_of(ranked, score) <= i < ranked.len() ==> (#[trigger] ranked[i]).score < score,
    decreases ranked.len(),
{
    if ranked.len() > 0 {
        let front = ranked.drop_last();
        assert forall|i: int, j: int| 0 <= i < j < front.len() implies (#[trigger] front[i]).score
            >= (#[trigger] front[j]).score by {
            assert(front[i] == ranked[i] && front[j] == ranked[j]);
        }
        lemma_rank_of(front, score);
        if ranked.last().score >= score {
            assert forall|i: int| 0 <= i < ranked.len() implies (#[trigger] ranked[i]).score
                >= score by {
                if i < ranked.len() - 1 {
                    assert(ranked[i].score >= ranked[ranked.len() - 1].score);
                }
            }
        } else {
            assert forall|i: int| 0 <= i < rank_of(ranked, score) implies (
            #[trigger] ranked[i]).score >= score by {
                assert(front[i] == ranked[i]);
            }
            assert forall|i: int| rank_of(ranked, score) <= i < ranked.len() implies (
            #[trigger] ranked[i]).score < score by {
                if i < ranked.len() - 1 {
                    assert(front[i] == ranked[i]);
                }
            }
        }
    }
}

/// The place of a candidate in a descending ranking is the only one with
/// nothing worse before it and nothing as good behind it.
pub proof fn lemma_rank_of_is(ranked: Seq<Candidate>, score: u32, at: int)
    requires
        descending(ranked),
        0 <= at <= ranked.len(),
        forall|i: int| 0 <= i < at ==> (#[trigger] ranked[i]).score >= score,
        forall|i: int| at <= i < ranked.len() ==> (#[trigger] ranked[i]).score < score,
    ensures
        rank_of(ranked, score) == at,
{
    lemma_rank_of(ranked, score);
    let found = rank_of(ranked, score);
    if found < at {
        assert(ranked[found].score < score);
    } else if at < found {
        assert(ranked[at].score >= score);
    }
}

/// A descending ranking stays one when a candidate is put in its place.
pub proof fn lemma_insert_ranked_descending(ranked: Seq<Candidate>, candidate: Candidate)
    requires
        descending(ranked),
    ensures
        descending(insert_ranked(ranked, candidate)),
        insert_ranked(ranked, candidate).len() == ranked.len() + 1,
{
    lemma_rank_of(ranked, candidate.score);
    let at = rank_of(ranked, candidate.score);
    let grown = insert_ranked(ranked, candidate);
    assert forall|i: int, j: int| 0 <= i < j < grown.len() implies (#[trigger] grown[i]).score >= (
    #[trigger] grown[j]).score by {
        if j < at {
            assert(grown[i] == ranked[i] && grown[j] == ranked[j]);
        } else if j == at {
            assert(grown[i] == ranked[i]);
        } else if i < at {
            assert(grown[i] == ranked[i] && grown[j] == ranked[j - 1]);
        } else if i == at {
            assert(grown[j] == ranked[j - 1]);
        } else {
            assert(grown[i] == ranked[i - 1] && grown[j] == ranked[j - 1]);
        }
    }
}

/// Ranking neither loses nor invents a candidate, and the result is
/// descending.
pub proof fn lemma_ranked(candidates: Seq<Candidate>)
    ensures
        ranked(candidates).len() == candidates.len(),
        descending(ranked(candidates)),
        forall|i: int|
            0 <= i < candidates.len() ==> candidates.contains(#[trigger] ranked(candidates)[i]),
        forall|i: int|
            0 <= i < candidates.len() ==> ranked(candidates).contains(#[trigger] candidates[i]),
    decreases candidates.len(),
{
    if candidates.len() > 0 {
        let front = candidates.drop_last();
        let newest = candidates.last();
        let before = ranked(front);
        let all = ranked(candidates);
        lemma_ranked(front);
        lemma_insert_ranked_descending(before, newest);
        lemma_rank_of(before, newest.score);
        let at = rank_of(before, newest.score);
        assert forall|i: int| 0 <= i < candidates.len() implies candidates.contains(
            #[trigger] all[i],
        ) by {
            if i == at {
                assert(candidates[candidates.len() - 1] == all[i]);
            } else {
                let k = if i < at {
                    i
                } else {
                    i - 1
                };
                assert(all[i] == before[k]);
                assert(front.contains(before[k]));
                let m = choose|m: int| 0 <= m < front.len() && front[m] == before[k];
                assert(candidates[m] == all[i]);
            }
        }
        assert forall|i: int| 0 <= i < candidates.len() implies all.contains(
            #[trigger] candidates[i],
        ) by {
            if i == candidates.len() - 1 {
                assert(all[at] == candidates[i]);
            } else {
                assert(front[i] == candidates[i]);
                assert(before.contains(front[i]));
                let m = choose|m: int| 0 <= m < before.len() && before[m] == front[i];
                if m < at {
                    assert(all[m] == before[m]);
                } else {
                    assert(all[m + 1] == before[m]);
                }
            }
        }
    }
}

/// Ranking is stable: where the candidates come in the order of the index,
/// equal scores keep that order.
pub proof fn lemma_ranked_is_stable(candidates: Seq<Candidate>)
    requires
        ascending_positions(candidates),
    ensures
        well_ranked(ranked(candidates)),
    decreases candidates.len(),
{
    if candidates.len() > 0 {
        let front = candidates.drop_last();
        let newest = candidates.last();
        let before = ranked(front);
        let all = ranked(candidates);
        assert forall|i: int, j: int| 0 <= i < j < front.len() implies (
        #[trigger] front[i]).position < (#[trigger] front[j]).position by {
            assert(front[i] == candidates[i] && front[j] == candidates[j]);
        }
        lemma_ranked_is_stable(front);
        lemma_ranked(front);
        lemma_rank_of(before, newest.score);
        let at = rank_of(before, newest.score);
        assert forall|k: int| 0 <= k < before.len() implies (#[trigger] before[k]).position
            < newest.position by {
            assert(front.contains(before[k]));
            let m = choose|m: int| 0 <= m < front.len() && front[m] == before[k];
            assert(candidates[m] == before[k]);
            assert(candidates[m].position < candidates[candidates.len() - 1].position);
        }
        assert forall|i: int, j: int| 0 <= i < j < all.len() implies {
            let a = #[trigger] all[i];
            let b = #[trigger] all[j];
            a.score > b.score || (a.score == b.score && a.position < b.position)
        } by {
            if j < at {
                assert(all[i] == before[i] && all[j] == before[j]);
            } else if j == at {
                assert(all[i] == before[i]);
            } else if i < at {
                assert(all[i] == before[i] && all[j] == before[j - 1]);
            } else if i == at {
                assert(all[j] == before[j - 1]);
            } else {
                assert(all[i] == before[i - 1] && all[j] == before[j - 1]);
            }
        }
    }
}

/// The first `cap` of a ranking with one more candidate can be had from the
/// first `cap` of the ranking without it.
pub proof fn lemma_first_of_insert_ranked(ranked: Seq<Candidate>, candidate: Candidate, cap: nat)
    requires
        descending(ranked),
    ensures
        first(insert_ranked(ranked, candidate), cap) == first(
            insert_ranked(first(ranked, cap), candidate),
            cap,
        ),
{
    if ranked.len() > cap {
        let kept = first(ranked, cap);
        assert forall|i: int, j: int| 0 <= i < j < kept.len() implies (#[trigger] kept[i]).score
            >= (#[trigger] kept[j]).score by {
            assert(kept[i] == ranked[i] && kept[j] == ranked[j]);
        }
        lemma_rank_of(ranked, candidate.score);
        lemma_rank_of(kept, candidate.score);
        let at = rank_of(ranked, candidate.score);
        let near = if at < cap {
            at
        } else {
            cap as int
        };
        assert forall|i: int| 0 <= i < near implies (#[trigger] kept[i]).score
            >= candidate.score by {
            assert(kept[i] == ranked[i]);
        }
        assert forall|i: int| near <= i < kept.len() implies (#[trigger] kept[i]).score
            < candidate.score by {
            assert(kept[i] == ranked[i]);
        }
        lemma_rank_of_is(kept, candidate.score, near);
        assert(first(insert_ranked(ranked, candidate), cap) =~= first(
            insert_ranked(kept, candidate),
            cap,
        ));
    }
}

/// Puts a candidate in its place among the best so far and drops the last
/// of them where they are more than `cap`.
pub fn keep_best(best: &mut Vec<Candidate>, candidate: Candidate, cap: usize)
    requires
        descending(old(best)@),
        old(best)@.len() <= cap,
    ensures
        final(best)@ == first(insert_ranked(old(best)@, candidate), cap as nat),
        descending(final(best)@),
        final(best)@.len() <= cap,
{
    let mut at: usize = best.len();
    while at > 0 && best[at - 1].score < candidate.score
        invariant
            at <= best.len(),
            best@ == old(best)@,
            forall|i: int| at <= i < best.len() ==> (#[trigger] best@[i]).score < candidate.score,
        decreases at,
    {
        at -= 1;
    }
    proof {
        assert forall|i: int| 0 <= i < at implies (#[trigger] best@[i]).score
            >= candidate.score by {
            assert(best@[i].score >= best@[at - 1].score);
        }
        lemma_rank_of_is(best@, candidate.score, at as int);
        lemma_insert_ranked_descending(best@, candidate);
    }
    let ghost grown = insert_ranked(best@, candidate);
    if at < cap {
        best.insert(at, candidate);
        if best.len() > cap {
            let _ = best.pop();
            assert(best@ =~= grown.take(cap as int));
        }
    } else {
        assert(best@ =~= grown.take(cap as int));
    }
    proof {
        let kept = first(grown, cap as nat);
        assert forall|i: int, j: int| 0 <= i < j < kept.len() implies (#[trigger] kept[i]).score
            >= (#[trigger] kept[j]).score by {
            assert(kept[i] == grown[i] && kept[j] == grown[j]);
        }
    }
}

} // verus!
