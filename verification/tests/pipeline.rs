use card_randomness::analyze::analyze_randomness;
use card_randomness::cards::{generate_deck, Card, Color, Value};
use card_randomness::deal::deal_hands;
use card_randomness::trial::{run_trial, ShufflePlan};

#[test]
fn deal_full_deck() {
    let mut deck = generate_deck();
    let original = deck.clone();
    let hands = deal_hands(&mut deck, 4, 10);
    assert_eq!(hands.len(), 4);
    for hand in hands.iter() {
        assert_eq!(hand.len(), 10);
    }
    assert_eq!(deck.len(), 68);
    for h in 0..4 {
        for j in 0..10 {
            assert_eq!(hands[h][j], original[107 - (j * 4 + h)]);
        }
    }
    assert_eq!(deck.as_slice(), &original[..68]);
}

#[test]
fn deal_exhausted_deck() {
    let full = generate_deck();
    let mut deck: Vec<Card> = full[..5].to_vec();
    let original = deck.clone();
    let hands = deal_hands(&mut deck, 2, 4);
    assert_eq!(hands.len(), 2);
    // Pops come from the back: hand 0 gets positions 4, 2, 0; hand 1
    // gets positions 3 and 1; then the deck is exhausted.
    assert_eq!(hands[0], vec![original[4], original[2], original[0]]);
    assert_eq!(hands[1], vec![original[3], original[1]]);
    assert_eq!(deck.len(), 0);
}

#[test]
fn deal_zero_hands() {
    let mut deck = generate_deck();
    let hands = deal_hands(&mut deck, 0, 10);
    assert_eq!(hands.len(), 0);
    assert_eq!(deck.len(), 108);
}

#[test]
fn end_to_end_canonical_deal() {
    // Canonical deck, no shuffle: dealing pops from the end, so the 40
    // dealt cards are the Skip cards, the Wild cards, all Yellow cards,
    // and the two Green 11s and two Green 12s.
    let mut deck = generate_deck();
    let hands = deal_hands(&mut deck, 4, 10);
    let counts = analyze_randomness(&hands);
    assert_eq!(counts.total, 40);
    // Colors: Red, Blue, Green, Yellow, Wild, Skip.
    assert_eq!(counts.colors, vec![0, 0, 4, 24, 8, 4]);
    // Values: numbers 1..=10 from the Yellow cards only, numbers 11 and
    // 12 from Yellow and Green, then Wild and Skip.
    assert_eq!(counts.values, vec![2, 2, 2, 2, 2, 2, 2, 2, 2, 2, 4, 4, 8, 4]);
}

#[test]
fn run_trial_no_shuffle_matches_direct_pipeline() {
    let counts = run_trial(ShufflePlan::NoShuffle);
    let mut deck = generate_deck();
    let hands = deal_hands(&mut deck, 4, 10);
    let direct = analyze_randomness(&hands);
    assert_eq!(counts, direct);
}

#[test]
fn run_trial_uniform_shuffle_counts_forty_cards() {
    let counts = run_trial(ShufflePlan::Uniform(2));
    assert_eq!(counts.total, 40);
    let color_sum: usize = counts.colors.iter().sum();
    let value_sum: usize = counts.values.iter().sum();
    assert_eq!(color_sum, 40);
    assert_eq!(value_sum, 40);
}

#[test]
fn run_trial_overhand_riffle_counts_forty_cards() {
    let counts = run_trial(ShufflePlan::OverhandRiffle(2));
    assert_eq!(counts.total, 40);
    let color_sum: usize = counts.colors.iter().sum();
    let value_sum: usize = counts.values.iter().sum();
    assert_eq!(color_sum, 40);
    assert_eq!(value_sum, 40);
}
