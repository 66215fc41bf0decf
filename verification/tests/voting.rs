use vote::{Candidate, EmptyPoll, Poll, PluralityVoting, Ranking, VotingSystem};

fn poll_of(ballots: &[&[usize]]) -> Poll {
    Poll(
        ballots
            .iter()
            .map(|b| b.iter().map(|&c| Candidate(c)).collect::<Ranking>())
            .collect(),
    )
}

fn make_poll() -> Poll {
    poll_of(&[&[2, 1, 0], &[0, 1, 2], &[0, 2, 1], &[1, 2], &[]])
}

#[test]
fn try_plurality() {
    match PluralityVoting::election(make_poll()) {
        Ok(Some(result)) => assert_eq!(result[0], Candidate(0)),
        Ok(None) => panic!("election rejected all candidates"),
        Err(EmptyPoll) => panic!("election found no candidates"),
    }
}

#[test]
fn ncandidates_is_one_past_the_maximum() {
    assert_eq!(make_poll().ncandidates(), Ok(3));
    assert_eq!(poll_of(&[&[7]]).ncandidates(), Ok(8));
    assert_eq!(poll_of(&[&[0]]).ncandidates(), Ok(1));
}

#[test]
fn ncandidates_fails_without_votes() {
    assert_eq!(poll_of(&[]).ncandidates(), Err(EmptyPoll));
    assert_eq!(poll_of(&[&[], &[]]).ncandidates(), Err(EmptyPoll));
}

#[test]
fn election_fails_on_all_abstentions() {
    assert_eq!(PluralityVoting::election(poll_of(&[&[], &[]])), Err(EmptyPoll));
    assert_eq!(PluralityVoting::election(poll_of(&[])), Err(EmptyPoll));
}

#[test]
fn full_example_ranking() {
    let result = PluralityVoting::election(make_poll()).unwrap().unwrap();
    assert_eq!(result, vec![Candidate(0), Candidate(1), Candidate(2)]);
}

#[test]
fn tie_for_first_is_detected() {
    assert_eq!(PluralityVoting::election(poll_of(&[&[0], &[1]])), Ok(None));
}

#[test]
fn three_way_tie_is_detected() {
    assert_eq!(
        PluralityVoting::election(poll_of(&[&[0], &[1], &[2]])),
        Ok(None)
    );
}

#[test]
fn tie_between_distant_indices_is_detected() {
    assert_eq!(
        PluralityVoting::election(poll_of(&[&[0], &[0], &[2], &[2], &[1]])),
        Ok(None)
    );
}

#[test]
fn majority_breaks_the_tie() {
    let result = PluralityVoting::election(poll_of(&[&[0], &[0], &[1]]));
    assert_eq!(result, Ok(Some(vec![Candidate(0), Candidate(1)])));
}

#[test]
fn single_candidate_wins_alone() {
    let result = PluralityVoting::election(poll_of(&[&[0]]));
    assert_eq!(result, Ok(Some(vec![Candidate(0)])));
}

#[test]
fn ranking_covers_unmentioned_candidates() {
    // Candidates 0 and 2 receive no first-choice votes but still appear,
    // in ascending index order, behind the vote-getters.
    let result = PluralityVoting::election(poll_of(&[&[3], &[3], &[1]]));
    assert_eq!(
        result,
        Ok(Some(vec![Candidate(3), Candidate(1), Candidate(0), Candidate(2)]))
    );
}

#[test]
fn equal_counts_keep_index_order() {
    let result = PluralityVoting::election(poll_of(&[&[2], &[2], &[0], &[1]]));
    assert_eq!(result, Ok(Some(vec![Candidate(2), Candidate(0), Candidate(1)])));
}

#[test]
fn abstentions_change_nothing() {
    let with = PluralityVoting::election(poll_of(&[&[0], &[], &[1], &[], &[1]]));
    let without = PluralityVoting::election(poll_of(&[&[0], &[1], &[1]]));
    assert_eq!(with, without);
    assert_eq!(without, Ok(Some(vec![Candidate(1), Candidate(0)])));
}

#[test]
fn ballot_order_changes_nothing() {
    let forward = PluralityVoting::election(poll_of(&[&[0], &[0], &[1, 0], &[2, 1]]));
    let backward = PluralityVoting::election(poll_of(&[&[2, 1], &[1, 0], &[0], &[0]]));
    assert_eq!(forward, backward);
    assert_eq!(
        forward,
        Ok(Some(vec![Candidate(0), Candidate(1), Candidate(2)]))
    );
}

#[test]
fn lower_preferences_are_ignored() {
    // Candidate 1 is everyone's second choice but nobody's first: plurality
    // ranks it only by its zero first-choice count (tied with 2, below 0).
    let result = PluralityVoting::election(poll_of(&[&[0, 1], &[0, 1], &[2, 1], &[0, 1, 2]]));
    assert_eq!(result, Ok(Some(vec![Candidate(0), Candidate(2), Candidate(1)])));
}
