use card_randomness::analyze::{analyze_randomness, color_index_of, value_index_of};
use card_randomness::cards::{generate_deck, Card, Color, Value};
use card_randomness::deal::deal_hands;

fn card(color: Color, value: Value) -> Card {
    Card { color, value }
}

#[test]
fn category_indices() {
    assert_eq!(color_index_of(Color::Red), 0);
    assert_eq!(color_index_of(Color::Blue), 1);
    assert_eq!(color_index_of(Color::Green), 2);
    assert_eq!(color_index_of(Color::Yellow), 3);
    assert_eq!(color_index_of(Color::Wild), 4);
    assert_eq!(color_index_of(Color::Skip), 5);
    assert_eq!(value_index_of(Value::Number(1)), 0);
    assert_eq!(value_index_of(Value::Number(12)), 11);
    assert_eq!(value_index_of(Value::Wild), 12);
    assert_eq!(value_index_of(Value::Skip), 13);
}

#[test]
fn analyze_small_batch() {
    let hands = vec![
        vec![
            card(Color::Red, Value::Number(1)),
            card(Color::Red, Value::Number(1)),
            card(Color::Blue, Value::Number(2)),
        ],
        vec![card(Color::Wild, Value::Wild)],
    ];
    let counts = analyze_randomness(&hands);
    assert_eq!(counts.total, 4);
    assert_eq!(counts.colors, vec![2, 1, 0, 0, 1, 0]);
    assert_eq!(counts.values, vec![2, 1, 0, 0, 0, 0, 0, 0, 0, 0, 0, 0, 1, 0]);
}

#[test]
fn analyze_empty_batch() {
    let hands: Vec<Vec<Card>> = Vec::new();
    let counts = analyze_randomness(&hands);
    assert_eq!(counts.total, 0);
    assert_eq!(counts.colors, vec![0; 6]);
    assert_eq!(counts.values, vec![0; 14]);
}

#[test]
fn analysis_is_deterministic() {
    let mut deck = generate_deck();
    let hands = deal_hands(&mut deck, 4, 10);
    let first = analyze_randomness(&hands);
    let second = analyze_randomness(&hands);
    assert_eq!(first, second);
}

#[test]
fn frequency_counts_sum_to_total() {
    let mut deck = generate_deck();
    let hands = deal_hands(&mut deck, 4, 10);
    let counts = analyze_randomness(&hands);
    let color_sum: usize = counts.colors.iter().sum();
    let value_sum: usize = counts.values.iter().sum();
    assert_eq!(color_sum, counts.total);
    assert_eq!(value_sum, counts.total);
}
