use frame_breaker::{
    required_fee, score_from_words, Ledger, SubmissionError, MAX_NAME_CHARS, REDUCED_FEE,
    STANDARD_FEE, TEST_NETWORK_ID,
};

const MAINNET_ID: u64 = 1;

#[test]
fn test_submit_score() {
    let mut contract = Ledger::new(MAINNET_ID);
    let receipt = contract.submit_score("RustTest".to_string(), 1000, 10000000000000000u128);
    assert!(receipt.is_ok());
    let scores = contract.get_leaderboard(1);
    assert_eq!(scores.len(), 1);
    assert_eq!(scores[0].score, 1000);
}

#[test]
fn test_deployment_validation() {
    let contract = Ledger::new(MAINNET_ID);
    let stats = contract.get_stats();
    assert_eq!(stats.0, 0); // total_submissions
    assert_eq!(stats.1, 10000000000000000u128); // submission_fee (0.01 ETH)
    assert_eq!(stats.2, 0); // contract_balance
}

#[test]
fn test_network_specific_features() {
    for network in [1337u64, 1, 5] {
        let contract = Ledger::new(network);
        let expected_fee = if network == 1337 {
            1000000000000000u128 // 0.001 ETH
        } else {
            10000000000000000u128 // 0.01 ETH
        };
        assert_eq!(contract.submission_fee(), expected_fee);
    }
}

#[test]
fn fresh_test_network_stats() {
    let l = Ledger::new(TEST_NETWORK_ID);
    assert_eq!(l.get_stats(), (0, REDUCED_FEE, 0));
    assert!(l.get_leaderboard(5).is_empty());
}

#[test]
fn alice_submission_recorded() {
    let mut l = Ledger::new(TEST_NETWORK_ID);
    let receipt = l.submit_score("Alice".to_string(), 1000, REDUCED_FEE).unwrap();
    assert_eq!(receipt.sequence_number, 0);
    assert_eq!(receipt.submission.player_name, "Alice");
    assert_eq!(receipt.submission.fee_paid, REDUCED_FEE);
    let top = l.get_leaderboard(1);
    assert_eq!(top.len(), 1);
    assert_eq!(top[0].player_name, "Alice");
    assert_eq!(top[0].score, 1000);
    assert_eq!(l.get_stats(), (1, REDUCED_FEE, REDUCED_FEE));
}

#[test]
fn equal_scores_keep_submission_order() {
    let mut l = Ledger::new(TEST_NETWORK_ID);
    l.submit_score("Alice".to_string(), 1000, REDUCED_FEE).unwrap();
    let bob = l.submit_score("Bob".to_string(), 1000, REDUCED_FEE).unwrap();
    assert_eq!(bob.sequence_number, 1);
    let top = l.get_leaderboard(2);
    assert_eq!(top.len(), 2);
    assert_eq!(top[0].player_name, "Alice");
    assert_eq!(top[1].player_name, "Bob");
    assert_eq!(top[0].sequence_number, 0);
    assert_eq!(top[1].sequence_number, 1);
}

#[test]
fn one_unit_short_is_refused() {
    let mut l = Ledger::new(TEST_NETWORK_ID);
    l.submit_score("Alice".to_string(), 1000, REDUCED_FEE).unwrap();
    let before = l.get_stats();
    let r = l.submit_score("Carol".to_string(), 5, REDUCED_FEE - 1);
    assert_eq!(
        r.unwrap_err(),
        SubmissionError::InsufficientOrExcessFee { expected: REDUCED_FEE, actual: REDUCED_FEE - 1 }
    );
    assert_eq!(l.get_stats(), before);
    assert_eq!(l.get_leaderboard(10).len(), 1);
}

#[test]
fn overpayment_is_refused() {
    let mut l = Ledger::new(MAINNET_ID);
    let r = l.submit_score("Dave".to_string(), 5, STANDARD_FEE + 1);
    assert_eq!(
        r.unwrap_err(),
        SubmissionError::InsufficientOrExcessFee { expected: STANDARD_FEE, actual: STANDARD_FEE + 1 }
    );
    assert_eq!(l.get_stats(), (0, STANDARD_FEE, 0));
}

#[test]
fn wrong_fee_reported_before_bad_name() {
    let mut l = Ledger::new(MAINNET_ID);
    let r = l.submit_score(String::new(), 5, REDUCED_FEE);
    assert_eq!(
        r.unwrap_err(),
        SubmissionError::InsufficientOrExcessFee { expected: STANDARD_FEE, actual: REDUCED_FEE }
    );
}

#[test]
fn invalid_names_are_refused() {
    let mut l = Ledger::new(MAINNET_ID);
    assert_eq!(
        l.submit_score(String::new(), 5, STANDARD_FEE).unwrap_err(),
        SubmissionError::InvalidName
    );
    let long = "x".repeat(MAX_NAME_CHARS + 1);
    assert_eq!(l.submit_score(long, 5, STANDARD_FEE).unwrap_err(), SubmissionError::InvalidName);
    assert_eq!(l.get_stats(), (0, STANDARD_FEE, 0));
    let longest = "é".repeat(MAX_NAME_CHARS);
    assert!(l.submit_score(longest, 5, STANDARD_FEE).is_ok());
}

#[test]
fn score_range_is_checked() {
    assert_eq!(score_from_words(0, 42), Ok(42));
    assert_eq!(score_from_words(0, u128::MAX), Ok(u128::MAX));
    assert_eq!(score_from_words(1, 0), Err(SubmissionError::InvalidScore));
}

#[test]
fn fee_schedule_bands() {
    assert_eq!(required_fee(TEST_NETWORK_ID), 1_000_000_000_000_000);
    assert_eq!(required_fee(0), 10_000_000_000_000_000);
    assert_eq!(required_fee(u64::MAX), STANDARD_FEE);
    assert_eq!(Ledger::new(TEST_NETWORK_ID).network_id(), TEST_NETWORK_ID);
}

#[test]
fn leaderboard_ranks_by_score_then_order() {
    let mut l = Ledger::new(TEST_NETWORK_ID);
    let entries = [("a", 5u128), ("b", 9), ("c", 5), ("d", 0), ("e", 9), ("f", 7)];
    for (name, score) in entries {
        l.submit_score(name.to_string(), score, REDUCED_FEE).unwrap();
    }
    let top = l.get_leaderboard(100);
    let names: Vec<&str> = top.iter().map(|s| s.player_name.as_str()).collect();
    assert_eq!(names, vec!["b", "e", "f", "a", "c", "d"]);
    for w in top.windows(2) {
        assert!(
            w[0].score > w[1].score
                || (w[0].score == w[1].score && w[0].sequence_number < w[1].sequence_number)
        );
    }
    let top3 = l.get_leaderboard(3);
    let names3: Vec<&str> = top3.iter().map(|s| s.player_name.as_str()).collect();
    assert_eq!(names3, vec!["b", "e", "f"]);
    assert!(l.get_leaderboard(0).is_empty());
    // Asking twice gives the same answer.
    let again = l.get_leaderboard(3);
    let names_again: Vec<&str> = again.iter().map(|s| s.player_name.as_str()).collect();
    assert_eq!(names3, names_again);
}

#[test]
fn counters_track_the_log() {
    let mut l = Ledger::new(MAINNET_ID);
    for i in 0..10u128 {
        l.submit_score(format!("p{}", i), i * 3, STANDARD_FEE).unwrap();
        let (total, fee, balance) = l.get_stats();
        assert_eq!(total as u128, i + 1);
        assert_eq!(fee, STANDARD_FEE);
        assert_eq!(balance, (i + 1) * STANDARD_FEE);
        assert_eq!(l.get_leaderboard(u64::MAX).len() as u128, i + 1);
    }
}
