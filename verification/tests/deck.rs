use card_randomness::cards::{generate_deck, Card, Color, Value};

fn count_card(deck: &Vec<Card>, target: Card) -> usize {
    let mut n = 0;
    for c in deck.iter() {
        if *c == target {
            n += 1;
        }
    }
    n
}

const REAL_COLORS: [Color; 4] = [Color::Red, Color::Blue, Color::Green, Color::Yellow];

#[test]
fn deck_has_108_cards() {
    let deck = generate_deck();
    assert_eq!(deck.len(), 108);
}

#[test]
fn deck_composition() {
    let deck = generate_deck();
    for color in REAL_COLORS {
        for n in 1..=12u8 {
            let target = Card { color, value: Value::Number(n) };
            assert_eq!(count_card(&deck, target), 2);
        }
    }
    let wild = Card { color: Color::Wild, value: Value::Wild };
    let skip = Card { color: Color::Skip, value: Value::Skip };
    assert_eq!(count_card(&deck, wild), 8);
    assert_eq!(count_card(&deck, skip), 4);
}

#[test]
fn deck_canonical_order() {
    let deck = generate_deck();
    assert_eq!(deck[0], Card { color: Color::Red, value: Value::Number(1) });
    assert_eq!(deck[1], Card { color: Color::Red, value: Value::Number(1) });
    assert_eq!(deck[2], Card { color: Color::Red, value: Value::Number(2) });
    assert_eq!(deck[23], Card { color: Color::Red, value: Value::Number(12) });
    assert_eq!(deck[24], Card { color: Color::Blue, value: Value::Number(1) });
    assert_eq!(deck[95], Card { color: Color::Yellow, value: Value::Number(12) });
    assert_eq!(deck[96], Card { color: Color::Wild, value: Value::Wild });
    assert_eq!(deck[103], Card { color: Color::Wild, value: Value::Wild });
    assert_eq!(deck[104], Card { color: Color::Skip, value: Value::Skip });
    assert_eq!(deck[107], Card { color: Color::Skip, value: Value::Skip });
}

#[test]
fn deck_generation_is_deterministic() {
    let a = generate_deck();
    let b = generate_deck();
    assert_eq!(a, b);
}
