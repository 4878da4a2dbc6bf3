use card_randomness::cards::{generate_deck, Card, Color, Value};
use card_randomness::shuffle::{overhand_shuffle, riffle_shuffle, shuffle_deck};

fn count_card(deck: &Vec<Card>, target: Card) -> usize {
    let mut n = 0;
    for c in deck.iter() {
        if *c == target {
            n += 1;
        }
    }
    n
}

fn all_distinct_cards() -> Vec<Card> {
    let mut cards = Vec::new();
    for color in [Color::Red, Color::Blue, Color::Green, Color::Yellow] {
        for n in 1..=12u8 {
            cards.push(Card { color, value: Value::Number(n) });
        }
    }
    cards.push(Card { color: Color::Wild, value: Value::Wild });
    cards.push(Card { color: Color::Skip, value: Value::Skip });
    cards
}

fn assert_same_multiset(a: &Vec<Card>, b: &Vec<Card>) {
    assert_eq!(a.len(), b.len());
    for target in all_distinct_cards() {
        assert_eq!(count_card(a, target), count_card(b, target));
    }
}

#[test]
fn uniform_shuffle_preserves_multiset() {
    let before = generate_deck();
    let mut deck = generate_deck();
    shuffle_deck(&mut deck, 3);
    assert_same_multiset(&before, &deck);
}

#[test]
fn uniform_shuffle_zero_times_is_identity() {
    let before = generate_deck();
    let mut deck = generate_deck();
    shuffle_deck(&mut deck, 0);
    assert_eq!(before, deck);
}

#[test]
fn riffle_shuffle_preserves_multiset() {
    let before = generate_deck();
    let mut deck = generate_deck();
    riffle_shuffle(&mut deck);
    assert_same_multiset(&before, &deck);
}

#[test]
fn riffle_shuffle_tiny_deck_is_no_op() {
    let mut deck = vec![
        Card { color: Color::Red, value: Value::Number(1) },
        Card { color: Color::Blue, value: Value::Number(2) },
        Card { color: Color::Green, value: Value::Number(3) },
    ];
    let before = deck.clone();
    riffle_shuffle(&mut deck);
    assert_eq!(before, deck);
}

#[test]
fn riffle_shuffle_four_cards() {
    let mut deck = vec![
        Card { color: Color::Red, value: Value::Number(1) },
        Card { color: Color::Blue, value: Value::Number(2) },
        Card { color: Color::Green, value: Value::Number(3) },
        Card { color: Color::Yellow, value: Value::Number(4) },
    ];
    let before = deck.clone();
    riffle_shuffle(&mut deck);
    assert_same_multiset(&before, &deck);
}

#[test]
fn overhand_shuffle_preserves_multiset() {
    let before = generate_deck();
    let mut deck = generate_deck();
    overhand_shuffle(&mut deck, 3);
    assert_same_multiset(&before, &deck);
}

#[test]
fn overhand_shuffle_zero_passes_is_identity() {
    let before = generate_deck();
    let mut deck = generate_deck();
    overhand_shuffle(&mut deck, 0);
    assert_eq!(before, deck);
}
