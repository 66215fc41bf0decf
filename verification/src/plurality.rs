//! The plurality voting rule: candidates are ranked by the number of ballots
//! that place them first, in descending order of vote count, with equal
//! counts broken by ascending candidate index. A tie between the top two
//! counts is irresolvable and yields the tie signal instead of a ranking.

use vstd::prelude::*;

use crate::{
    ballots_of, is_total_ranking, lemma_poll_max_bounds, poll_max, ranking_contains,
    spec_ncandidates, Candidate, EmptyPoll, Poll, Ranking, VotingSystem,
};

verus! {

/// Plurality voting ranks candidates by number of top ballot rankings.
pub struct PluralityVoting;

/// Ballot `b` casts its vote for candidate `c`: its first (most preferred)
/// entry is `c`. An empty ballot is an abstention and votes for nobody.
pub open spec fn first_choice_is(b: Seq<Candidate>, c: int) -> bool {
    b.len() > 0 && b[0].0 == c
}

/// The number of ballots whose first choice is candidate `c`.
pub open spec fn vote_count(ballots: Seq<Seq<Candidate>>, c: int) -> nat
    decreases ballots.len(),
{
    if ballots.len() == 0 {
        0
    } else {
        vote_count(ballots.drop_last(), c) + if first_choice_is(ballots.last(), c) {
            1nat
        } else {
            0nat
        }
    }
}

/// The plurality order: candidate `a` is ranked strictly ahead of `b` when it
/// has more votes, or the same number of votes and the smaller index (the
/// stable tie-break).
pub open spec fn prefers(ballots: Seq<Seq<Candidate>>, a: int, b: int) -> bool {
    ||| vote_count(ballots, a) > vote_count(ballots, b)
    ||| (vote_count(ballots, a) == vote_count(ballots, b) && a < b)
}

/// The ranking lists candidates in the plurality order, front to back.
pub open spec fn plurality_sorted(ballots: Seq<Seq<Candidate>>, r: Seq<Candidate>) -> bool {
    forall|p: int, q: int|
        0 <= p < q < r.len() ==> prefers(
            ballots,
            (#[trigger] r[p]).0 as int,
            (#[trigger] r[q]).0 as int,
        )
}

/// No candidate in `0..n` out-polls candidate `a`.
pub open spec fn is_max_count(ballots: Seq<Seq<Candidate>>, n: int, a: int) -> bool {
    forall|c: int| 0 <= c < n ==> #[trigger] vote_count(ballots, c) <= vote_count(ballots, a)
}

/// Two distinct candidates tie for first place: both attain the maximum vote
/// count, so plurality cannot resolve a unique winner.
pub open spec fn tie_for_first(ballots: Seq<Seq<Candidate>>, n: int) -> bool {
    exists|a: int, b: int|
        0 <= a < n && 0 <= b < n && a != b && #[trigger] vote_count(ballots, a)
            == #[trigger] vote_count(ballots, b) && is_max_count(ballots, n, a)
}

/// The exact outcome plurality owes a poll with at least one vote: the tie
/// signal when two candidates tie for first place, and otherwise the unique
/// total ranking sorted by the plurality order.
pub open spec fn plurality_outcome(
    ballots: Seq<Seq<Candidate>>,
    outcome: Option<Seq<Candidate>>,
) -> bool {
    let n = spec_ncandidates(ballots);
    if tie_for_first(ballots, n) {
        outcome is None
    } else {
        &&& outcome matches Some(r)
        &&& is_total_ranking(r, n)
        &&& plurality_sorted(ballots, r)
    }
}

/// No candidate collects more votes than there are ballots.
pub proof fn lemma_vote_count_le_len(ballots: Seq<Seq<Candidate>>, c: int)
    ensures
        vote_count(ballots, c) <= ballots.len(),
    decreases ballots.len(),
{
    if ballots.len() > 0 {
        lemma_vote_count_le_len(ballots.drop_last(), c);
    }
}

/// Removing one ballot removes exactly that ballot's own contribution to each
/// candidate's vote count.
pub proof fn lemma_vote_count_remove(ballots: Seq<Seq<Candidate>>, i: int, c: int)
    requires
        0 <= i < ballots.len(),
    ensures
        vote_count(ballots, c) == vote_count(ballots.remove(i), c) + if first_choice_is(
            ballots[i],
            c,
        ) {
            1nat
        } else {
            0nat
        },
    decreases ballots.len(),
{
    if i == ballots.len() - 1 {
        assert(ballots.remove(i) =~= ballots.drop_last());
    } else {
        let prefix = ballots.drop_last();
        assert(ballots.remove(i).drop_last() =~= prefix.remove(i));
        assert(ballots.remove(i).last() == ballots.last());
        lemma_vote_count_remove(prefix, i, c);
    }
}

/// Abstention neutrality: an empty ballot never changes any candidate's vote
/// count — dropping it from the poll leaves every count as it was.
pub proof fn lemma_abstention_neutral(ballots: Seq<Seq<Candidate>>, i: int, c: int)
    requires
        0 <= i < ballots.len(),
        ballots[i].len() == 0,
    ensures
        vote_count(ballots.remove(i), c) == vote_count(ballots, c),
{
    lemma_vote_count_remove(ballots, i, c);
}

/// Vote counts are aggregates over the multiset of ballots: storing the same
/// ballots in any other order gives every candidate the same count.
pub proof fn lemma_vote_count_permutation(
    b1: Seq<Seq<Candidate>>,
    b2: Seq<Seq<Candidate>>,
    c: int,
)
    requires
        b1.to_multiset() == b2.to_multiset(),
    ensures
        vote_count(b1, c) == vote_count(b2, c),
    decreases b2.len(),
{
    broadcast use vstd::seq_lib::group_to_multiset_ensures;

    if b2.len() == 0 {
        assert(b1.len() == b1.to_multiset().len());
    } else {
        let x = b2.last();
        let last = b2.len() - 1;
        assert(b2.contains(x));
        assert(b1.to_multiset().count(x) > 0);
        assert(b1.contains(x));
        let i = choose|i: int| 0 <= i < b1.len() && b1[i] == x;
        assert(b2.drop_last() =~= b2.remove(last));
        assert(b1.remove(i).to_multiset() =~= b2.remove(last).to_multiset());
        lemma_vote_count_remove(b1, i, c);
        lemma_vote_count_remove(b2, last, c);
        lemma_vote_count_permutation(b1.remove(i), b2.drop_last(), c);
    }
}

/// Monotonicity: in a plurality-sorted ranking, a candidate listed earlier
/// never has fewer votes than one listed later.
pub proof fn lemma_ranking_monotone(
    ballots: Seq<Seq<Candidate>>,
    r: Seq<Candidate>,
    p: int,
    q: int,
)
    requires
        plurality_sorted(ballots, r),
        0 <= p < q < r.len(),
    ensures
        vote_count(ballots, r[p].0 as int) >= vote_count(ballots, r[q].0 as int),
{
    assert(prefers(ballots, r[p].0 as int, r[q].0 as int));
}

/// Stable tie-break: candidates with equal vote counts appear in the ranking
/// in ascending index order relative to each other.
pub proof fn lemma_stable_tie_break(
    ballots: Seq<Seq<Candidate>>,
    r: Seq<Candidate>,
    p: int,
    q: int,
)
    requires
        plurality_sorted(ballots, r),
        0 <= p < q < r.len(),
        vote_count(ballots, r[p].0 as int) == vote_count(ballots, r[q].0 as int),
    ensures
        r[p].0 < r[q].0,
{
    assert(prefers(ballots, r[p].0 as int, r[q].0 as int));
}

/// Order independence: permuting the ballots within a poll changes neither
/// any candidate's vote count (`lemma_vote_count_permutation`) nor the
/// outcome plurality owes the poll — two outcomes that both satisfy the
/// rule's contract over reordered copies of the same ballots are equal.
pub proof fn lemma_outcome_order_independent(
    b1: Seq<Seq<Candidate>>,
    b2: Seq<Seq<Candidate>>,
    o1: Option<Seq<Candidate>>,
    o2: Option<Seq<Candidate>>,
)
    requires
        b1.to_multiset() == b2.to_multiset(),
        plurality_outcome(b1, o1),
        plurality_outcome(b2, o2),
    ensures
        o1 == o2,
{
    crate::lemma_poll_max_permutation(b1, b2);
    let n = spec_ncandidates(b1);
    assert forall|c: int| #[trigger] vote_count(b1, c) == vote_count(b2, c) by {
        lemma_vote_count_permutation(b1, b2, c);
    }
    if tie_for_first(b1, n) {
        let (a, b) = choose|a: int, b: int|
            0 <= a < n && 0 <= b < n && a != b && #[trigger] vote_count(b1, a)
                == #[trigger] vote_count(b1, b) && is_max_count(b1, n, a);
        assert forall|c: int| 0 <= c < n implies #[trigger] vote_count(b2, c) <= vote_count(
            b2,
            a,
        ) by {
            assert(vote_count(b1, c) <= vote_count(b1, a));
        }
        assert(tie_for_first(b2, n));
    } else if tie_for_first(b2, n) {
        let (a, b) = choose|a: int, b: int|
            0 <= a < n && 0 <= b < n && a != b && #[trigger] vote_count(b2, a)
                == #[trigger] vote_count(b2, b) && is_max_count(b2, n, a);
        assert forall|c: int| 0 <= c < n implies #[trigger] vote_count(b1, c) <= vote_count(
            b1,
            a,
        ) by {
            assert(vote_count(b2, c) <= vote_count(b2, a));
        }
        assert(vote_count(b1, a) == vote_count(b2, a));
        assert(vote_count(b1, b) == vote_count(b2, b));
        assert(tie_for_first(b1, n));
        assert(false);
    } else {
        let r1 = o1->Some_0;
        let r2 = o2->Some_0;
        assert forall|p: int, q: int| 0 <= p < q < r1.len() implies prefers(
            b2,
            (#[trigger] r1[p]).0 as int,
            (#[trigger] r1[q]).0 as int,
        ) by {
            assert(prefers(b1, r1[p].0 as int, r1[q].0 as int));
            assert(vote_count(b1, r1[p].0 as int) == vote_count(b2, r1[p].0 as int));
            assert(vote_count(b1, r1[q].0 as int) == vote_count(b2, r1[q].0 as int));
        }
        lemma_sorted_ranking_unique(b2, r1, r2, n);
    }
}

/// The front of a sorted total ranking attains the maximum vote count.
pub proof fn lemma_front_is_max(ballots: Seq<Seq<Candidate>>, r: Seq<Candidate>, n: int)
    requires
        is_total_ranking(r, n),
        plurality_sorted(ballots, r),
        n >= 1,
    ensures
        is_max_count(ballots, n, r[0].0 as int),
{
    assert forall|c: int| 0 <= c < n implies #[trigger] vote_count(ballots, c) <= vote_count(
        ballots,
        r[0].0 as int,
    ) by {
        assert(ranking_contains(r, c));
        let p = choose|p: int| 0 <= p < r.len() && (#[trigger] r[p]).0 == c;
        if p > 0 {
            assert(prefers(ballots, r[0].0 as int, r[p].0 as int));
        }
    }
}

/// Tie detection exactness: with a sorted total ranking in hand, two
/// candidates tie for first place exactly when the ranking's top two vote
/// counts are equal.
pub proof fn lemma_tie_iff_top_two(ballots: Seq<Seq<Candidate>>, r: Seq<Candidate>, n: int)
    requires
        is_total_ranking(r, n),
        plurality_sorted(ballots, r),
        n >= 1,
    ensures
        tie_for_first(ballots, n) <==> (n >= 2 && vote_count(ballots, r[0].0 as int) == vote_count(
            ballots,
            r[1].0 as int,
        )),
{
    lemma_front_is_max(ballots, r, n);
    let top = r[0].0 as int;
    if n >= 2 && vote_count(ballots, top) == vote_count(ballots, r[1].0 as int) {
        assert(r[0].0 != r[1].0);
        assert(tie_for_first(ballots, n));
    }
    if tie_for_first(ballots, n) {
        let (a, b) = choose|a: int, b: int|
            0 <= a < n && 0 <= b < n && a != b && #[trigger] vote_count(ballots, a)
                == #[trigger] vote_count(ballots, b) && is_max_count(ballots, n, a);
        assert(n >= 2);
        assert(vote_count(ballots, a) == vote_count(ballots, top));
        assert(ranking_contains(r, a));
        assert(ranking_contains(r, b));
        let pa = choose|p: int| 0 <= p < r.len() && (#[trigger] r[p]).0 == a;
        let pb = choose|p: int| 0 <= p < r.len() && (#[trigger] r[p]).0 == b;
        assert(pa != pb);
        let q = if pa >= 1 {
            pa
        } else {
            pb
        };
        assert(q >= 1);
        assert(vote_count(ballots, r[q].0 as int) == vote_count(ballots, top));
        if q > 1 {
            assert(prefers(ballots, r[1].0 as int, r[q].0 as int));
        }
        assert(vote_count(ballots, r[1].0 as int) == vote_count(ballots, top));
    }
}

/// One position of the uniqueness argument below: two sorted total rankings
/// over the same ballots agree at position `p`.
proof fn lemma_rankings_agree_at(
    ballots: Seq<Seq<Candidate>>,
    r1: Seq<Candidate>,
    r2: Seq<Candidate>,
    n: int,
    p: int,
)
    requires
        is_total_ranking(r1, n),
        is_total_ranking(r2, n),
        plurality_sorted(ballots, r1),
        plurality_sorted(ballots, r2),
        0 <= p < n,
    ensures
        r1[p] == r2[p],
    decreases p,
{
    assert forall|q: int| 0 <= q < p implies r1[q] == r2[q] by {
        lemma_rankings_agree_at(ballots, r1, r2, n, q);
    }
    let c = r1[p].0 as int;
    let d = r2[p].0 as int;
    assert(ranking_contains(r2, c));
    let qc = choose|q: int| 0 <= q < r2.len() && (#[trigger] r2[q]).0 == c;
    if qc < p {
        assert(r1[qc].0 == r2[qc].0);
        assert(r1[qc].0 != r1[p].0);
        assert(false);
    }
    assert(ranking_contains(r1, d));
    let qd = choose|q: int| 0 <= q < r1.len() && (#[trigger] r1[q]).0 == d;
    if qd < p {
        assert(r1[qd].0 == r2[qd].0);
        assert(r2[qd].0 != r2[p].0);
        assert(false);
    }
    if qc > p && qd > p {
        assert(prefers(ballots, d, r2[qc].0 as int));
        assert(prefers(ballots, c, r1[qd].0 as int));
        assert(false);
    }
    assert(r1[p].0 == r2[p].0);
}

/// The plurality order admits only one sorted total ranking: any two rankings
/// that both satisfy the rule's contract over the same ballots are equal.
pub proof fn lemma_sorted_ranking_unique(
    ballots: Seq<Seq<Candidate>>,
    r1: Seq<Candidate>,
    r2: Seq<Candidate>,
    n: int,
)
    requires
        is_total_ranking(r1, n),
        is_total_ranking(r2, n),
        plurality_sorted(ballots, r1),
        plurality_sorted(ballots, r2),
    ensures
        r1 == r2,
{
    assert forall|p: int| 0 <= p < n implies r1[p] == r2[p] by {
        lemma_rankings_agree_at(ballots, r1, r2, n, p);
    }
    assert(r1 =~= r2);
}

/// Count each ballot's first choice: entry `c` of the result is the number of
/// ballots in `bs` whose most preferred candidate is `c`.
fn tally_votes(bs: &Vec<Ranking>, n: usize) -> (votes: Vec<usize>)
    requires
        forall|i: int|
            0 <= i < bs@.len() && (#[trigger] bs@[i])@.len() > 0 ==> (bs@[i]@[0].0 as int) < n,
    ensures
        votes@.len() == n,
        forall|c: int| 0 <= c < n ==> votes@[c] as nat == #[trigger] vote_count(ballots_of(bs@), c),
{
    let ghost ballots = ballots_of(bs@);
    let mut votes: Vec<usize> = Vec::new();
    let mut k: usize = 0;
    while k < n
        invariant
            votes@.len() == k,
            k <= n,
            forall|c: int| 0 <= c < k ==> votes@[c] == 0,
        decreases n - k,
    {
        votes.push(0);
        k += 1;
    }
    proof {
        assert(ballots.take(0) =~= Seq::<Seq<Candidate>>::empty());
    }
    let mut i: usize = 0;
    while i < bs.len()
        invariant
            0 <= i <= bs.len(),
            ballots == ballots_of(bs@),
            forall|t: int|
                0 <= t < bs@.len() && (#[trigger] bs@[t])@.len() > 0 ==> (bs@[t]@[0].0 as int) < n,
            votes@.len() == n,
            forall|c: int|
                0 <= c < n ==> votes@[c] as nat == #[trigger] vote_count(
                    ballots.take(i as int),
                    c,
                ),
        decreases bs.len() - i,
    {
        proof {
            assert(ballots.take(i + 1).drop_last() =~= ballots.take(i as int));
            assert(ballots.take(i + 1).last() == ballots[i as int]);
            assert(ballots[i as int] == bs@[i as int]@);
        }
        let b = &bs[i];
        if b.len() > 0 {
            let c = b[0].0;
            proof {
                lemma_vote_count_le_len(ballots.take(i as int), c as int);
            }
            let v = votes[c];
            votes.set(c, v + 1);
            proof {
                assert forall|c2: int|
                    0 <= c2 < n implies votes@[c2] as nat == #[trigger] vote_count(
                    ballots.take(i + 1),
                    c2,
                ) by {
                    assert(vote_count(ballots.take(i + 1), c2) == vote_count(
                        ballots.take(i as int),
                        c2,
                    ) + if first_choice_is(ballots[i as int], c2) {
                        1nat
                    } else {
                        0nat
                    });
                    assert(first_choice_is(ballots[i as int], c2) <==> c2 == c as int);
                }
            }
        } else {
            proof {
                assert forall|c2: int|
                    0 <= c2 < n implies votes@[c2] as nat == #[trigger] vote_count(
                    ballots.take(i + 1),
                    c2,
                ) by {
                    assert(vote_count(ballots.take(i + 1), c2) == vote_count(
                        ballots.take(i as int),
                        c2,
                    ) + if first_choice_is(ballots[i as int], c2) {
                        1nat
                    } else {
                        0nat
                    });
                    assert(!first_choice_is(ballots[i as int], c2));
                }
            }
        }
        i += 1;
    }
    proof {
        assert(ballots.take(bs@.len() as int) =~= ballots);
    }
    votes
}

/// The plurality order read off a table of vote counts: more votes first,
/// equal votes broken by the smaller candidate index.
spec fn count_prefers(counts: Seq<usize>, a: int, b: int) -> bool {
    ||| counts[a] > counts[b]
    ||| (counts[a] == counts[b] && a < b)
}

/// Candidate index `c` appears somewhere in `rank`.
spec fn contains_index(rank: Seq<usize>, c: int) -> bool {
    exists|p: int| 0 <= p < rank.len() && (#[trigger] rank[p]) as int == c
}

/// Whether candidate `a` is ranked ahead of candidate `b` under the given
/// vote counts.
fn prefer(votes: &Vec<usize>, a: usize, b: usize) -> (r: bool)
    requires
        a < votes@.len(),
        b < votes@.len(),
    ensures
        r == count_prefers(votes@, a as int, b as int),
{
    votes[a] > votes[b] || (votes[a] == votes[b] && a < b)
}

/// Sort the candidate indices `0..votes.len()` by the plurality order: by
/// descending vote count, equal counts in ascending index order.
fn sorted_candidates(votes: &Vec<usize>) -> (rank: Vec<usize>)
    ensures
        rank@.len() == votes@.len(),
        forall|p: int| 0 <= p < rank@.len() ==> (#[trigger] rank@[p]) < votes@.len(),
        forall|p: int, q: int| 0 <= p < q < rank@.len() ==> rank@[p] != rank@[q],
        forall|c: int| 0 <= c < rank@.len() ==> #[trigger] contains_index(rank@, c),
        forall|p: int, q: int|
            0 <= p < q < rank@.len() ==> count_prefers(
                votes@,
                (#[trigger] rank@[p]) as int,
                (#[trigger] rank@[q]) as int,
            ),
{
    let n = votes.len();
    let mut rank: Vec<usize> = Vec::new();
    let mut k: usize = 0;
    while k < n
        invariant
            rank@.len() == k,
            k <= n,
            forall|t: int| 0 <= t < k ==> (#[trigger] rank@[t]) as int == t,
        decreases n - k,
    {
        rank.push(k);
        k += 1;
    }
    proof {
        assert forall|c: int| 0 <= c < n implies #[trigger] contains_index(rank@, c) by {
            assert(rank@[c] as int == c);
        }
    }
    let mut i: usize = 0;
    while i < n
        invariant
            0 <= i <= n,
            n == votes@.len(),
            rank@.len() == n,
            forall|p: int| 0 <= p < n ==> (#[trigger] rank@[p]) < n,
            forall|p: int, q: int| 0 <= p < q < n ==> rank@[p] != rank@[q],
            forall|c: int| 0 <= c < n ==> #[trigger] contains_index(rank@, c),
            forall|p: int, q: int|
                0 <= p < q < i ==> count_prefers(
                    votes@,
                    (#[trigger] rank@[p]) as int,
                    (#[trigger] rank@[q]) as int,
                ),
        decreases n - i,
    {
        let mut j: usize = i;
        while j > 0 && prefer(votes, rank[j], rank[j - 1])
            invariant
                0 <= j <= i < n,
                n == votes@.len(),
                rank@.len() == n,
                forall|p: int| 0 <= p < n ==> (#[trigger] rank@[p]) < n,
                forall|p: int, q: int| 0 <= p < q < n ==> rank@[p] != rank@[q],
                forall|c: int| 0 <= c < n ==> #[trigger] contains_index(rank@, c),
                forall|p: int, q: int|
                    0 <= p < q <= i && q != j ==> count_prefers(
                        votes@,
                        (#[trigger] rank@[p]) as int,
                        (#[trigger] rank@[q]) as int,
                    ),
            decreases j,
        {
            let ghost before = rank@;
            let a = rank[j];
            let b = rank[j - 1];
            rank.set(j, b);
            rank.set(j - 1, a);
            proof {
                let now = rank@;
                assert(count_prefers(votes@, a as int, b as int));
                assert forall|p: int, q: int| 0 <= p < q < n implies now[p] != now[q] by {
                    let p0: int = if p == j { j - 1 } else if p == j - 1 { j as int } else { p };
                    let q0: int = if q == j { j - 1 } else if q == j - 1 { j as int } else { q };
                    assert(now[p] == before[p0] && now[q] == before[q0]);
                }
                assert forall|c: int| 0 <= c < n implies #[trigger] contains_index(now, c) by {
                    assert(contains_index(before, c));
                    let p = choose|p: int| 0 <= p < before.len() && (#[trigger] before[p]) as int
                        == c;
                    if p == j {
                        assert(now[j - 1] as int == c);
                    } else if p == j - 1 {
                        assert(now[j as int] as int == c);
                    } else {
                        assert(now[p] as int == c);
                    }
                }
                assert forall|p: int, q: int|
                    0 <= p < q <= i && q != j - 1 implies count_prefers(
                    votes@,
                    (#[trigger] now[p]) as int,
                    (#[trigger] now[q]) as int,
                ) by {
                    let p0: int = if p == j { j - 1 } else if p == j - 1 { j as int } else { p };
                    let q0: int = if q == j { j - 1 } else if q == j - 1 { j as int } else { q };
                    assert(now[p] == before[p0] && now[q] == before[q0]);
                    if p0 == j && q0 == j - 1 {
                        assert(count_prefers(votes@, before[p0] as int, before[q0] as int));
                    } else {
                        assert(p0 < q0 && q0 != j);
                        assert(count_prefers(votes@, before[p0] as int, before[q0] as int));
                    }
                }
            }
            j -= 1;
        }
        proof {
            assert forall|p: int, q: int|
                0 <= p < q < i + 1 implies count_prefers(
                votes@,
                (#[trigger] rank@[p]) as int,
                (#[trigger] rank@[q]) as int,
            ) by {
                if q == j && j > 0 {
                    assert(!count_prefers(votes@, rank@[j as int] as int, rank@[j - 1] as int));
                    assert(rank@[j - 1] != rank@[j as int]);
                    assert(count_prefers(votes@, rank@[j - 1] as int, rank@[j as int] as int));
                    if p < j - 1 {
                        assert(count_prefers(votes@, rank@[p] as int, rank@[j - 1] as int));
                    }
                }
            }
        }
        i += 1;
    }
    rank
}

impl VotingSystem for PluralityVoting {
    /// Plurality owes exactly `plurality_outcome`: the tie signal on a tie
    /// for first place, otherwise the unique plurality-sorted total ranking.
    open spec fn rule_outcome(
        ballots: Seq<Seq<Candidate>>,
        outcome: Option<Seq<Candidate>>,
    ) -> bool {
        plurality_outcome(ballots, outcome)
    }

    fn election(poll: Poll) -> (r: Result<Option<Ranking>, EmptyPoll>) {
        let ghost ballots = poll@;
        let n = match poll.ncandidates() {
            Ok(n) => n,
            Err(e) => {
                return Err(e);
            },
        };
        proof {
            lemma_poll_max_bounds(ballots);
        }
        let bs = poll.0;
        proof {
            assert forall|t: int|
                0 <= t < bs@.len() && (#[trigger] bs@[t])@.len() > 0 implies (bs@[t]@[0].0 as int)
                < n by {
                assert(ballots[t] == bs@[t]@);
                assert(ballots[t][0].0 <= poll_max(ballots));
            }
        }
        let votes = tally_votes(&bs, n);
        let rank = sorted_candidates(&votes);
        let mut out: Vec<Candidate> = Vec::new();
        let mut k: usize = 0;
        while k < rank.len()
            invariant
                out@.len() == k,
                k <= rank@.len(),
                forall|t: int| 0 <= t < k ==> (#[trigger] out@[t]) == Candidate(rank@[t]),
            decreases rank.len() - k,
        {
            out.push(Candidate(rank[k]));
            k += 1;
        }
        proof {
            assert(ballots == ballots_of(bs@));
            assert forall|c: int| 0 <= c < n implies #[trigger] ranking_contains(out@, c) by {
                assert(contains_index(rank@, c));
                let p = choose|p: int| 0 <= p < rank@.len() && (#[trigger] rank@[p]) as int == c;
                assert(out@[p].0 == c);
            }
            assert(is_total_ranking(out@, n as int));
            assert forall|p: int, q: int| 0 <= p < q < out@.len() implies prefers(
                ballots,
                (#[trigger] out@[p]).0 as int,
                (#[trigger] out@[q]).0 as int,
            ) by {
                assert(count_prefers(votes@, rank@[p] as int, rank@[q] as int));
                assert(votes@[rank@[p] as int] as nat == vote_count(ballots, rank@[p] as int));
                assert(votes@[rank@[q] as int] as nat == vote_count(ballots, rank@[q] as int));
            }
            assert(plurality_sorted(ballots, out@));
            lemma_tie_iff_top_two(ballots, out@, n as int);
        }
        if out.len() >= 2 {
            let i0 = out[0].0;
            let i1 = out[1].0;
            let v0 = votes[i0];
            let v1 = votes[i1];
            if v0 == v1 {
                return Ok(None);
            }
        }
        Ok(Some(out))
    }
}

} // verus!
