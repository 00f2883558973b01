use anova::snowball::{Snowball, SnowballError};

#[derive(Debug, PartialEq, Clone)]
enum Color {
    Red,
    Green,
    Blue,
}

fn get_snowball<T: PartialEq>() -> Snowball<T> {
    let sample_size = 5;
    let quorum_size = 4;
    let decision_threshold = 3;
    Snowball::new(sample_size, quorum_size, decision_threshold)
}

fn mostly(color: Color, other: Color) -> Vec<Color> {
    vec![color.clone(), color.clone(), color.clone(), color, other]
}

#[test]
fn snowball_new_snowball() {
    let snowball: Snowball<()> = get_snowball();

    assert_eq!(
        (
            snowball.value(),
            snowball.done(),
            snowball.counter(),
            snowball.hits(&()),
            snowball.sample_size(),
            snowball.quorum_size(),
            snowball.decision_threshold()
        ),
        (None, false, 0, 0, 5, 4, 3)
    );
}

#[test]
fn snowball_track_successes() {
    let mut snowball = get_snowball();

    let votes = vec![
        // 4 Red
        Color::Red,
        Color::Red,
        Color::Red,
        Color::Red,
        // 1 Blue
        Color::Blue,
    ];
    let _ = snowball.tick(votes);
    assert_eq!(snowball.counter(), 1);
    assert_eq!(snowball.done(), false);
    assert_eq!(snowball.value(), Some(&Color::Red));
}

#[test]
fn snowball_reset_when_no_quorum() {
    let mut snowball = get_snowball();
    let mut votes: Vec<Color>;

    votes = vec![
        // 4 Red
        Color::Red,
        Color::Red,
        Color::Red,
        Color::Red,
        // 1 Blue
        Color::Blue,
    ];
    let _ = snowball.tick(votes);
    assert_eq!(snowball.counter(), 1);
    assert_eq!(snowball.done(), false);
    assert_eq!(snowball.value(), Some(&Color::Red));

    votes = vec![
        // 2 Red
        Color::Red,
        Color::Red,
        // 2 Blue
        Color::Blue,
        Color::Blue,
    ];
    let _ = snowball.tick(votes);
    assert_eq!(snowball.counter(), 0);
    assert_eq!(snowball.done(), false);
    assert_eq!(snowball.value(), Some(&Color::Red));
}

#[test]
fn snowball_change_in_majority() {
    let mut snowball = get_snowball();
    let mut votes: Vec<Color>;

    votes = vec![
        // 4 Red
        Color::Red,
        Color::Red,
        Color::Red,
        Color::Red,
        // 1 Blue
        Color::Blue,
    ];
    let _ = snowball.tick(votes);
    assert_eq!(snowball.counter(), 1);
    assert_eq!(snowball.done(), false);
    assert_eq!(snowball.value(), Some(&Color::Red));

    votes = vec![
        // 1 Red
        Color::Red,
        // 4 Blue
        Color::Blue,
        Color::Blue,
        Color::Blue,
        Color::Blue,
    ];
    let _ = snowball.tick(votes.clone());
    assert_eq!(snowball.counter(), 1);
    assert_eq!(snowball.done(), false);
    assert_eq!(snowball.value(), Some(&Color::Red));

    let _ = snowball.tick(votes.clone());
    assert_eq!(snowball.counter(), 1);
    assert_eq!(snowball.done(), false);
    assert_eq!(snowball.value(), Some(&Color::Blue));

    let _ = snowball.tick(votes);
    assert_eq!(snowball.counter(), 2);
    assert_eq!(snowball.done(), false);
    assert_eq!(snowball.value(), Some(&Color::Blue));
}

#[test]
fn snowball_convergence() {
    let mut snowball = get_snowball();
    let votes: Vec<Color>;

    votes = vec![
        // 4 Red
        Color::Red,
        Color::Red,
        Color::Red,
        Color::Red,
        // 1 Blue
        Color::Blue,
    ];

    // 1st round
    let _ = snowball.tick(votes.clone());
    assert_eq!(snowball.counter(), 1);
    assert_eq!(snowball.done(), false);
    assert_eq!(snowball.value(), Some(&Color::Red));

    // 2nd round
    let _ = snowball.tick(votes.clone());
    assert_eq!(snowball.counter(), 2);
    assert_eq!(snowball.done(), false);
    assert_eq!(snowball.value(), Some(&Color::Red));

    // 3rd round
    let _ = snowball.tick(votes.clone());
    assert_eq!(snowball.counter(), 3);
    assert_eq!(snowball.done(), false);
    assert_eq!(snowball.value(), Some(&Color::Red));

    // 4th round
    let _ = snowball.tick(votes.clone());
    assert_eq!(snowball.counter(), 4);
    assert_eq!(snowball.done(), true);
    assert_eq!(snowball.value(), Some(&Color::Red));
}

#[test]
fn snowball_no_quorum_among_three_values() {
    let mut snowball = get_snowball();
    assert_eq!(snowball.tick(mostly(Color::Red, Color::Blue)), Ok(()));
    assert_eq!(
        snowball.tick(vec![
            Color::Red,
            Color::Red,
            Color::Blue,
            Color::Blue,
            Color::Green
        ]),
        Ok(())
    );
    assert_eq!(snowball.counter(), 0);
    assert_eq!(snowball.done(), false);
    assert_eq!(snowball.value(), Some(&Color::Red));
    assert_eq!(snowball.hits(&Color::Red), 1);
    assert_eq!(snowball.hits(&Color::Blue), 0);
}

#[test]
fn snowball_rejects_a_round_without_votes() {
    let mut snowball: Snowball<Color> = get_snowball();
    assert_eq!(snowball.tick(Vec::new()), Err(SnowballError::NoVotes));
    assert_eq!(snowball.value(), None);
    assert_eq!(snowball.counter(), 0);

    let _ = snowball.tick(mostly(Color::Red, Color::Blue));
    let _ = snowball.tick(mostly(Color::Red, Color::Blue));
    assert_eq!(snowball.tick(Vec::new()), Err(SnowballError::NoVotes));
    // The refused round changes nothing.
    assert_eq!(snowball.counter(), 2);
    assert_eq!(snowball.value(), Some(&Color::Red));
    assert_eq!(snowball.hits(&Color::Red), 2);
}

#[test]
fn snowball_is_frozen_once_done() {
    let mut snowball = get_snowball();
    for _ in 0..4 {
        let _ = snowball.tick(mostly(Color::Red, Color::Blue));
    }
    assert!(snowball.done());

    for _ in 0..3 {
        assert_eq!(snowball.tick(mostly(Color::Blue, Color::Red)), Ok(()));
        assert_eq!(snowball.tick(vec![Color::Green]), Ok(()));
        assert_eq!(snowball.tick(Vec::new()), Ok(()));
        snowball.record_round(Some(Color::Blue));
        snowball.record_round(None);
        assert_eq!(snowball.value(), Some(&Color::Red));
        assert_eq!(snowball.counter(), 4);
        assert_eq!(snowball.done(), true);
        assert_eq!(snowball.hits(&Color::Red), 4);
        assert_eq!(snowball.hits(&Color::Blue), 0);
        assert_eq!(snowball.hits(&Color::Green), 0);
    }
}

#[test]
fn snowball_needs_more_rounds_than_the_threshold() {
    let mut snowball: Snowball<u8> = Snowball::new(1, 1, 0);
    assert_eq!(snowball.done(), false);
    let _ = snowball.tick(vec![7]);
    assert_eq!(snowball.counter(), 1);
    assert_eq!(snowball.done(), true);

    let mut snowball: Snowball<u8> = Snowball::new(1, 1, 255);
    for round in 1..=255u64 {
        let _ = snowball.tick(vec![7]);
        assert_eq!(snowball.counter(), round);
        assert_eq!(snowball.done(), false);
    }
    let _ = snowball.tick(vec![7]);
    assert_eq!(snowball.counter(), 256);
    assert_eq!(snowball.done(), true);
}

#[test]
fn snowball_an_interrupted_run_starts_over() {
    let mut snowball = get_snowball();
    for _ in 0..3 {
        let _ = snowball.tick(mostly(Color::Red, Color::Blue));
    }
    let _ = snowball.tick(vec![Color::Red, Color::Blue]);
    assert_eq!(snowball.counter(), 0);
    for round in 1..=3 {
        let _ = snowball.tick(mostly(Color::Red, Color::Blue));
        assert_eq!(snowball.counter(), round);
        assert_eq!(snowball.done(), false);
    }
    let _ = snowball.tick(mostly(Color::Red, Color::Blue));
    assert_eq!(snowball.done(), true);
    assert_eq!(snowball.hits(&Color::Red), 7);
}

#[test]
fn snowball_the_value_has_the_most_hits() {
    let mut snowball: Snowball<u8> = Snowball::new(3, 2, 200);
    let rounds: Vec<u8> = vec![1, 2, 2, 3, 3, 3, 1, 1, 1, 2, 2, 2, 2];
    for winner in rounds {
        let _ = snowball.tick(vec![winner, winner, 9]);
        let current = *snowball.value().unwrap();
        for other in [1u8, 2, 3, 9] {
            assert!(snowball.hits(&other) <= snowball.hits(&current));
        }
    }
    assert_eq!(snowball.value(), Some(&2));
    assert_eq!(
        (snowball.hits(&1), snowball.hits(&2), snowball.hits(&3), snowball.hits(&9)),
        (4, 6, 3, 0)
    );
    assert_eq!(snowball.counter(), 2);
}

#[test]
fn count_votes_finds_the_leader() {
    assert_eq!(Snowball::<u8>::count_votes(Vec::new()), None);
    assert_eq!(Snowball::count_votes(vec![5u8]), Some((5, 1)));
    assert_eq!(
        Snowball::count_votes(vec![1u8, 2, 2, 3, 2, 1]),
        Some((2, 3))
    );
    assert_eq!(
        Snowball::count_votes(vec![Color::Red, Color::Red, Color::Red]),
        Some((Color::Red, 3))
    );
}

#[test]
fn count_votes_breaks_ties_by_the_first_vote() {
    assert_eq!(Snowball::count_votes(vec![1u8, 2, 2, 1]), Some((1, 2)));
    assert_eq!(Snowball::count_votes(vec![2u8, 1, 1, 2]), Some((2, 2)));
    assert_eq!(Snowball::count_votes(vec![3u8, 1, 2]), Some((3, 1)));
    assert_eq!(
        Snowball::count_votes(vec![3u8, 1, 2, 2, 1, 3]),
        Some((3, 2))
    );
}

#[test]
fn snowball_a_tie_at_the_quorum_goes_to_the_first_vote() {
    let mut snowball: Snowball<u8> = Snowball::new(4, 2, 3);
    let _ = snowball.tick(vec![8, 9, 9, 8]);
    assert_eq!(snowball.value(), Some(&8));
    assert_eq!(snowball.hits(&8), 1);
    assert_eq!(snowball.hits(&9), 0);
}

#[test]
fn record_round_follows_the_outcome() {
    let mut snowball: Snowball<Color> = get_snowball();
    snowball.record_round(None);
    assert_eq!(snowball.value(), None);
    assert_eq!(snowball.counter(), 0);

    snowball.record_round(Some(Color::Green));
    assert_eq!(snowball.value(), Some(&Color::Green));
    assert_eq!(snowball.counter(), 1);

    snowball.record_round(Some(Color::Blue));
    assert_eq!(snowball.value(), Some(&Color::Green));
    assert_eq!(snowball.counter(), 1);

    snowball.record_round(None);
    assert_eq!(snowball.value(), Some(&Color::Green));
    assert_eq!(snowball.counter(), 0);

    snowball.record_round(Some(Color::Blue));
    assert_eq!(snowball.value(), Some(&Color::Blue));
    assert_eq!(snowball.counter(), 1);
    assert_eq!(snowball.hits(&Color::Blue), 2);
    assert_eq!(snowball.hits(&Color::Green), 1);
    assert_eq!(snowball.done(), false);
}

#[test]
fn count_votes_in_a_long_round() {
    let mut votes: Vec<u8> = Vec::new();
    for i in 0..200u8 {
        votes.push(i % 7);
    }
    // 0..=3 occur 29 times, 4..=6 occur 28 times; 0 is voted for first.
    assert_eq!(Snowball::count_votes(votes.clone()), Some((0, 29)));
    votes.push(6);
    votes.push(6);
    assert_eq!(Snowball::count_votes(votes), Some((6, 30)));
}

#[test]
fn snowball_a_sample_of_twenty() {
    let mut snowball: Snowball<u8> = Snowball::new(20, 14, 2);
    let mut votes = vec![1u8; 14];
    votes.extend_from_slice(&[2, 2, 2, 3, 3, 4]);
    for round in 1..=2 {
        assert_eq!(snowball.tick(votes.clone()), Ok(()));
        assert_eq!(snowball.counter(), round);
        assert_eq!(snowball.done(), false);
    }
    let mut short = vec![1u8; 13];
    short.extend_from_slice(&[2, 2, 2, 3, 3, 4, 4]);
    assert_eq!(snowball.tick(short), Ok(()));
    assert_eq!(snowball.counter(), 0);
    for _ in 0..3 {
        assert_eq!(snowball.tick(votes.clone()), Ok(()));
    }
    assert_eq!(snowball.done(), true);
    assert_eq!(snowball.value(), Some(&1));
    assert_eq!(snowball.hits(&1), 5);
}
