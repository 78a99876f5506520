//! Matched positions: what the matcher reports, word by word and with
//! repetitions, brought into ascending order without repetitions and kept
//! inside the text; and, for a text that the matcher reads by grapheme
//! clusters, the characters that the matched clusters hold.

use crate::highlight::{strictly_ascending, within};
use vstd::prelude::*;

verus! {

/// Where `position` goes in ascending positions: behind the last smaller
/// one.
pub open spec fn place_of(sorted: Seq<u32>, position: u32) -> int
    decreases sorted.len(),
{
    if sorted.len() == 0 {
        0
    } else if sorted.last() < position {
        sorted.len() as int
    } else {
        place_of(sorted.drop_last(), position)
    }
}

/// Ascending positions with one more, unless it is among them already.
pub open spec fn with_position(sorted: Seq<u32>, position: u32) -> Seq<u32> {
    let at = place_of(sorted, position);
    if at < sorted.len() && sorted[at] == position {
        sorted
    } else {
        sorted.insert(at, position)
    }
}

/// The reported positions that lie inside a text of `len` characters, in
/// ascending order and each once.
pub open spec fn matched_positions(reported: Seq<u32>, len: nat) -> Seq<u32>
    decreases reported.len(),
{
    if reported.len() == 0 {
        Seq::empty()
    } else {
        let before = matched_positions(reported.drop_last(), len);
        if reported.last() < len {
            with_position(before, reported.last())
        } else {
            before
        }
    }
}

/// In ascending positions everything before the place of a position is
/// smaller and nothing from there on is.
pub proof fn lemma_place_of(sorted: Seq<u32>, position: u32)
    requires
        strictly_ascending(sorted),
    ensures
        0 <= place_of(sorted, position) <= sorted.len(),
        forall|i: int| 0 <= i < place_of(sorted, position) ==> sorted[i] < position,
        forall|i: int| place_of(sorted, position) <= i < sorted.len() ==> sorted[i] >= position,
    decreases sorted.len(),
{
    if sorted.len() > 0 {
        let front = sorted.drop_last();
        assert forall|i: int, j: int| 0 <= i < j < front.len() implies front[i] < front[j] by {
            assert(front[i] == sorted[i] && front[j] == sorted[j]);
        }
        lemma_place_of(front, position);
        if sorted.last() < position {
            assert forall|i: int| 0 <= i < sorted.len() implies sorted[i] < position by {
                if i < sorted.len() - 1 {
                    assert(sorted[i] < sorted[sorted.len() - 1]);
                }
            }
        } else {
            assert forall|i: int| 0 <= i < place_of(sorted, position) implies sorted[i]
                < position by {
                assert(front[i] == sorted[i]);
            }
            assert forall|i: int| place_of(sorted, position) <= i < sorted.len() implies sorted[i]
                >= position by {
                if i < sorted.len() - 1 {
                    assert(front[i] == sorted[i]);
                }
            }
        }
    }
}

/// The place of a position in ascending positions is the only one with
/// smaller positions before it and none behind it.
pub proof fn lemma_place_of_is(sorted: Seq<u32>, position: u32, at: int)
    requires
        strictly_ascending(sorted),
        0 <= at <= sorted.len(),
        forall|i: int| 0 <= i < at ==> sorted[i] < position,
        forall|i: int| at <= i < sorted.len() ==> sorted[i] >= position,
    ensures
        place_of(sorted, position) == at,
{
    lemma_place_of(sorted, position);
    let found = place_of(sorted, position);
    if found < at {
        assert(sorted[found] < position);
    } else if at < found {
        assert(sorted[at] >= position);
    }
}

/// Adding a position keeps the order, keeps what was there, and adds
/// nothing else.
pub proof fn lemma_with_position(sorted: Seq<u32>, position: u32)
    requires
        strictly_ascending(sorted),
    ensures
        strictly_ascending(with_position(sorted, position)),
        forall|p: u32|
            with_position(sorted, position).contains(p) <==> (sorted.contains(p) || p == position),
{
    lemma_place_of(sorted, position);
    let at = place_of(sorted, position);
    let grown = with_position(sorted, position);
    if at < sorted.len() && sorted[at] == position {
        assert forall|p: u32| grown.contains(p) <==> (sorted.contains(p) || p == position) by {
            assert(sorted[at] == position);
        }
    } else {
        assert(grown == sorted.insert(at, position));
        assert forall|i: int, j: int| 0 <= i < j < grown.len() implies grown[i] < grown[j] by {
            if j < at {
                assert(grown[i] == sorted[i] && grown[j] == sorted[j]);
            } else if j == at {
                assert(grown[i] == sorted[i]);
            } else if i < at {
                assert(grown[i] == sorted[i] && grown[j] == sorted[j - 1]);
            } else if i == at {
                assert(grown[j] == sorted[j - 1]);
                assert(sorted[j - 1] >= sorted[at]);
            } else {
                assert(grown[i] == sorted[i - 1] && grown[j] == sorted[j - 1]);
            }
        }
        assert forall|p: u32| grown.contains(p) <==> (sorted.contains(p) || p == position) by {
            if grown.contains(p) {
                let i = choose|i: int| 0 <= i < grown.len() && grown[i] == p;
                if i < at {
                    assert(sorted[i] == p);
                } else if i > at {
                    assert(sorted[i - 1] == p);
                }
            }
            if sorted.contains(p) {
                let i = choose|i: int| 0 <= i < sorted.len() && sorted[i] == p;
                if i < at {
                    assert(grown[i] == p);
                } else {
                    assert(grown[i + 1] == p);
                }
            }
            if p == position {
                assert(grown[at] == p);
            }
        }
    }
}

/// The matched positions are ascending, each lies inside the text, and
/// they are the reported positions inside the text and no other.
pub proof fn lemma_matched_positions(reported: Seq<u32>, len: nat)
    ensures
        strictly_ascending(matched_positions(reported, len)),
        within(matched_positions(reported, len), len),
        forall|p: u32|
            matched_positions(reported, len).contains(p) <==> (reported.contains(p) && p < len),
    decreases reported.len(),
{
    let matched = matched_positions(reported, len);
    if reported.len() > 0 {
        let front = reported.drop_last();
        let newest = reported.last();
        let before = matched_positions(front, len);
        lemma_matched_positions(front, len);
        assert(reported[reported.len() - 1] == newest);
        assert forall|p: u32| reported.contains(p) <==> (front.contains(p) || p == newest) by {
            if reported.contains(p) {
                let i = choose|i: int| 0 <= i < reported.len() && reported[i] == p;
                if i < reported.len() - 1 {
                    assert(front[i] == p);
                }
            }
            if front.contains(p) {
                let i = choose|i: int| 0 <= i < front.len() && front[i] == p;
                assert(reported[i] == p);
            }
        }
        if newest < len {
            lemma_with_position(before, newest);
            assert forall|i: int| 0 <= i < matched.len() implies (#[trigger] matched[i]) < len by {
                assert(matched.contains(matched[i]));
                if before.contains(matched[i]) {
                    let k = choose|k: int| 0 <= k < before.len() && before[k] == matched[i];
                    assert(before[k] < len);
                }
            }
        }
    }
}

/// Brings reported positions into ascending order, each once, and leaves
/// out those that do not lie inside a text of `len` characters.
pub fn sorted_positions(reported: &Vec<u32>, len: usize) -> (matched: Vec<u32>)
    ensures
        matched@ == matched_positions(reported@, len as nat),
        strictly_ascending(matched@),
        within(matched@, len as nat),
{
    let mut matched: Vec<u32> = Vec::new();
    let mut k: usize = 0;
    while k < reported.len()
        invariant
            k <= reported.len(),
            matched@ == matched_positions(reported@.take(k as int), len as nat),
        decreases reported.len() - k,
    {
        let position: u32 = reported[k];
        proof {
            assert(reported@.take(k + 1).drop_last() == reported@.take(k as int));
            assert(reported@.take(k + 1).last() == position);
            lemma_matched_positions(reported@.take(k as int), len as nat);
        }
        if (position as usize) < len {
            let mut at: usize = matched.len();
            while at > 0 && matched[at - 1] >= position
                invariant
                    at <= matched.len(),
                    forall|i: int| at <= i < matched.len() ==> matched@[i] >= position,
                decreases at,
            {
                at -= 1;
            }
            proof {
                assert forall|i: int| 0 <= i < at implies matched@[i] < position by {
                    if i < at - 1 {
                        assert(matched@[i] < matched@[at - 1]);
                    }
                }
                lemma_place_of_is(matched@, position, at as int);
            }
            if at == matched.len() || matched[at] != position {
                matched.insert(at, position);
            }
        }
        k += 1;
    }
    proof {
        assert(reported@.take(k as int) == reported@);
        lemma_matched_positions(reported@, len as nat);
    }
    matched
}

/// The number of characters that stand before cluster `k`, where `sizes`
/// gives the number of characters of each cluster.
pub open spec fn cluster_start(sizes: Seq<usize>, k: int) -> int
    decreases k,
{
    if k <= 0 {
        0
    } else {
        cluster_start(sizes, k - 1) + sizes[k - 1]
    }
}

/// The clusters divide a text of `len` characters: each holds a character
/// or more, and together they hold `len`.
pub open spec fn segments_text(sizes: Seq<usize>, len: nat) -> bool {
    &&& forall|k: int| 0 <= k < sizes.len() ==> sizes[k] >= 1
    &&& cluster_start(sizes, sizes.len() as int) == len
}

/// The positions of the characters of cluster `k`.
pub open spec fn cluster_chars(sizes: Seq<usize>, k: int) -> Seq<u32> {
    Seq::new(sizes[k] as nat, |i: int| (cluster_start(sizes, k) + i) as u32)
}

/// The positions of the characters of the given clusters, cluster by
/// cluster.
pub open spec fn spread(clusters: Seq<u32>, sizes: Seq<usize>) -> Seq<u32>
    decreases clusters.len(),
{
    if clusters.len() == 0 {
        Seq::empty()
    } else {
        spread(clusters.drop_last(), sizes) + cluster_chars(sizes, clusters.last() as int)
    }
}

/// A later cluster starts where an earlier one has ended, or behind.
pub proof fn lemma_cluster_start(sizes: Seq<usize>, j: int, k: int)
    requires
        0 <= j <= k <= sizes.len(),
    ensures
        0 <= cluster_start(sizes, j) <= cluster_start(sizes, k),
        j < k ==> cluster_start(sizes, j) + sizes[j] <= cluster_start(sizes, k),
    decreases k,
{
    if j < k {
        lemma_cluster_start(sizes, j, k - 1);
    } else if k > 0 {
        lemma_cluster_start(sizes, 0, k - 1);
        lemma_cluster_start(sizes, k - 1, k - 1);
    }
}

/// The characters of ascending clusters are ascending positions inside the
/// text, and each lies before the end of the last of the clusters.
pub proof fn lemma_spread(clusters: Seq<u32>, sizes: Seq<usize>)
    requires
        strictly_ascending(clusters),
        within(clusters, sizes.len()),
        cluster_start(sizes, sizes.len() as int) <= u32::MAX,
    ensures
        strictly_ascending(spread(clusters, sizes)),
        within(spread(clusters, sizes), cluster_start(sizes, sizes.len() as int) as nat),
        clusters.len() > 0 ==> forall|i: int|
            0 <= i < spread(clusters, sizes).len() ==> spread(clusters, sizes)[i] < cluster_start(
                sizes,
                clusters.last() as int,
            ) + sizes[clusters.last() as int],
    decreases clusters.len(),
{
    let all = spread(clusters, sizes);
    let total = cluster_start(sizes, sizes.len() as int);
    if clusters.len() > 0 {
        let front = clusters.drop_last();
        let k = clusters.last() as int;
        let before = spread(front, sizes);
        let chars = cluster_chars(sizes, k);
        assert(clusters[clusters.len() - 1] == clusters.last());
        assert forall|i: int, j: int| 0 <= i < j < front.len() implies front[i] < front[j] by {
            assert(front[i] == clusters[i] && front[j] == clusters[j]);
        }
        assert forall|i: int| 0 <= i < front.len() implies (#[trigger] front[i]) < sizes.len() by {
            assert(front[i] == clusters[i]);
        }
        lemma_spread(front, sizes);
        lemma_cluster_start(sizes, k, sizes.len() as int);
        lemma_cluster_start(sizes, 0, k);
        let start = cluster_start(sizes, k);
        assert forall|i: int| 0 <= i < chars.len() implies chars[i] == start + i by {}
        if front.len() > 0 {
            let last = front.last() as int;
            assert(front[front.len() - 1] == clusters[clusters.len() - 2]);
            assert(last < k);
            lemma_cluster_start(sizes, last, k);
        }
        assert forall|i: int| 0 <= i < before.len() implies before[i] < start by {}
        assert forall|i: int| 0 <= i < all.len() implies all[i] < start + sizes[k] && (
        #[trigger] all[i]) < total by {
            if i < before.len() {
                assert(all[i] == before[i]);
            } else {
                assert(all[i] == chars[i - before.len()]);
            }
        }
        assert forall|i: int, j: int| 0 <= i < j < all.len() implies all[i] < all[j] by {
            if j < before.len() {
                assert(all[i] == before[i] && all[j] == before[j]);
            } else if i < before.len() {
                assert(all[i] == before[i] && all[j] == chars[j - before.len()]);
            } else {
                assert(all[i] == chars[i - before.len()] && all[j] == chars[j - before.len()]);
            }
        }
    }
}

/// The positions of the characters that the given clusters hold, where
/// `sizes` gives the number of characters of each cluster of the text.
pub fn spread_positions(clusters: &Vec<u32>, sizes: &Vec<usize>) -> (positions: Vec<u32>)
    requires
        strictly_ascending(clusters@),
        within(clusters@, sizes.len() as nat),
        cluster_start(sizes@, sizes.len() as int) <= u32::MAX,
    ensures
        positions@ == spread(clusters@, sizes@),
        strictly_ascending(positions@),
        within(positions@, cluster_start(sizes@, sizes.len() as int) as nat),
{
    let mut starts: Vec<usize> = Vec::new();
    let mut reached: usize = 0;
    let mut k: usize = 0;
    while k < sizes.len()
        invariant
            k <= sizes.len(),
            starts.len() == k,
            reached == cluster_start(sizes@, k as int),
            cluster_start(sizes@, sizes.len() as int) <= u32::MAX,
            forall|i: int| 0 <= i < k ==> starts@[i] == cluster_start(sizes@, i),
        decreases sizes.len() - k,
    {
        proof {
            lemma_cluster_start(sizes@, k as int, sizes.len() as int);
        }
        starts.push(reached);
        reached = reached + sizes[k];
        k += 1;
    }
    let mut positions: Vec<u32> = Vec::new();
    let mut at: usize = 0;
    while at < clusters.len()
        invariant
            at <= clusters.len(),
            starts.len() == sizes.len(),
            within(clusters@, sizes.len() as nat),
            cluster_start(sizes@, sizes.len() as int) <= u32::MAX,
            forall|i: int| 0 <= i < sizes.len() ==> starts@[i] == cluster_start(sizes@, i),
            positions@ == spread(clusters@.take(at as int), sizes@),
        decreases clusters.len() - at,
    {
        let cluster: usize = clusters[at] as usize;
        let start: usize = starts[cluster];
        let size: usize = sizes[cluster];
        let ghost before = positions@;
        proof {
            assert(clusters@[at as int] < sizes.len());
            assert(clusters@.take(at + 1).drop_last() == clusters@.take(at as int));
            assert(clusters@.take(at + 1).last() == clusters@[at as int]);
            lemma_cluster_start(sizes@, cluster as int, sizes.len() as int);
        }
        let mut i: usize = 0;
        while i < size
            invariant
                i <= size,
                size == sizes@[cluster as int],
                start == cluster_start(sizes@, cluster as int),
                start + size <= u32::MAX,
                positions@ == before + cluster_chars(sizes@, cluster as int).take(i as int),
            decreases size - i,
        {
            positions.push((start + i) as u32);
            i += 1;
            assert(positions@ =~= before + cluster_chars(sizes@, cluster as int).take(i as int));
        }
        assert(cluster_chars(sizes@, cluster as int).take(size as int) =~= cluster_chars(
            sizes@,
            cluster as int,
        ));
        at += 1;
    }
    proof {
        assert(clusters@.take(at as int) == clusters@);
        lemma_spread(clusters@, sizes@);
    }
    positions
}

/// The number of characters of a text.
pub fn char_count(text: &str) -> (count: usize)
    ensures
        count == text@.len(),
{
    text.unicode_len()
}

} // verus!
