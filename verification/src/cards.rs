//! Card and deck model: the six-way color tag, the card value, the
//! canonical 108-card deck, and counting of cards in a sequence.
use vstd::prelude::*;

verus! {

use vstd::multiset::Multiset;

/// Categorical marker of a card: four "real" colors plus the Wild and
/// Skip markers used by the special cards.
#[derive(Clone, Copy, Debug, PartialEq, Eq, Structural)]
pub enum Color {
    Red,
    Blue,
    Green,
    Yellow,
    Wild,
    Skip,
}

/// Face of a card: a number from 1 to 12, or one of the special faces.
#[derive(Clone, Copy, Debug, PartialEq, Eq, Structural)]
pub enum Value {
    Number(u8),
    Wild,
    Skip,
}

/// A single card: a color tag paired with a value.
#[derive(Clone, Copy, Debug, PartialEq, Eq, Structural)]
pub struct Card {
    pub color: Color,
    pub value: Value,
}

/// Number of cards in the full deck: 4 colors x 12 numbers x 2 copies,
/// plus 8 Wild and 4 Skip cards.
pub const DECK_SIZE: usize = 108;

/// Number of Wild cards in the deck.
pub const NUM_WILD_CARDS: usize = 8;

/// Number of Skip cards in the deck.
pub const NUM_SKIP_CARDS: usize = 4;

/// Cards dealt to each hand in the default configuration.
pub const HAND_SIZE: usize = 10;

/// Number of hands dealt in the default configuration.
pub const NUM_HANDS: usize = 4;

/// Index of a color in the fixed six-way category universe.
pub open spec fn color_index(c: Color) -> int {
    match c {
        Color::Red => 0,
        Color::Blue => 1,
        Color::Green => 2,
        Color::Yellow => 3,
        Color::Wild => 4,
        Color::Skip => 5,
    }
}

/// The real color with the given index among the four number-card colors.
pub open spec fn number_color(ci: int) -> Color {
    if ci == 0 {
        Color::Red
    } else if ci == 1 {
        Color::Blue
    } else if ci == 2 {
        Color::Green
    } else {
        Color::Yellow
    }
}

/// A card is well formed when number cards carry a real color in range
/// 1..=12, Wild cards the Wild tag, and Skip cards the Skip tag.
pub open spec fn card_valid(card: Card) -> bool {
    match card.value {
        Value::Number(n) => 1 <= n <= 12 && 0 <= color_index(card.color) < 4,
        Value::Wild => card.color == Color::Wild,
        Value::Skip => card.color == Color::Skip,
    }
}

/// The number card with color index `ci` and face value `n`.
pub open spec fn number_card(ci: int, n: int) -> Card {
    Card { color: number_color(ci), value: Value::Number(n as u8) }
}

/// The (unique) Wild card value.
pub open spec fn wild_card() -> Card {
    Card { color: Color::Wild, value: Value::Wild }
}

/// The (unique) Skip card value.
pub open spec fn skip_card() -> Card {
    Card { color: Color::Skip, value: Value::Skip }
}

/// Card at position `i` of the canonical deck order: number cards grouped
/// by color and ascending value, two copies each, then Wild, then Skip.
pub open spec fn canonical_card(i: int) -> Card {
    if i < 96 {
        number_card(i / 24, (i % 24) / 2 + 1)
    } else if i < 104 {
        wild_card()
    } else {
        skip_card()
    }
}

/// How many positions of `s` hold exactly the card `target`.
pub open spec fn count_card(s: Seq<Card>, target: Card) -> nat
    decreases s.len(),
{
    if s.len() == 0 {
        0
    } else {
        count_card(s.drop_last(), target) + if s.last() == target {
            1nat
        } else {
            0nat
        }
    }
}

/// Appending one card raises the count of that card by one and leaves
/// every other count unchanged.
pub proof fn lemma_count_card_push(s: Seq<Card>, x: Card, target: Card)
    ensures
        count_card(s.push(x), target) == count_card(s, target) + if x == target {
            1nat
        } else {
            0nat
        },
{
    assert(s.push(x).drop_last() =~= s);
    assert(s.push(x).last() == x);
}

/// Counting a card in a sequence agrees with the count in the sequence's
/// multiset: shuffles preserve the multiset, hence every per-card count.
pub proof fn lemma_count_card_is_multiset_count(s: Seq<Card>, target: Card)
    ensures
        count_card(s, target) == s.to_multiset().count(target),
    decreases s.len(),
{
    broadcast use vstd::seq_lib::group_to_multiset_ensures;
    broadcast use vstd::multiset::group_multiset_axioms;

    if s.len() == 0 {
        assert(s.to_multiset() =~= Multiset::<Card>::empty());
    } else {
        lemma_count_card_is_multiset_count(s.drop_last(), target);
        assert(s.drop_last().push(s.last()) =~= s);
        assert(s.drop_last().push(s.last()).to_multiset() =~= s.drop_last().to_multiset().insert(
            s.last(),
        ));
    }
}

/// Builds the fixed 108-card deck in canonical order: for each real color,
/// two copies of each number 1..=12, then all Wild cards, then all Skip
/// cards. Deterministic; the result's composition is pinned exactly.
pub fn generate_deck() -> (deck: Vec<Card>)
    ensures
        deck@.len() == DECK_SIZE,
        forall|i: int| 0 <= i < deck@.len() ==> deck@[i] == canonical_card(i),
        forall|i: int| 0 <= i < deck@.len() ==> card_valid(#[trigger] deck@[i]),
        forall|ci: int, n: int|
            0 <= ci < 4 && 1 <= n <= 12 ==> count_card(deck@, #[trigger] number_card(ci, n)) == 2,
        count_card(deck@, wild_card()) == NUM_WILD_CARDS,
        count_card(deck@, skip_card()) == NUM_SKIP_CARDS,
{
    let mut deck: Vec<Card> = Vec::new();
    let mut ci: usize = 0;
    while ci < 4
        invariant
            ci <= 4,
            deck@.len() == 24 * ci,
            forall|k: int| 0 <= k < deck@.len() ==> deck@[k] == canonical_card(k),
            forall|cj: int, n: int|
                0 <= cj < 4 && 1 <= n <= 12 ==> count_card(deck@, #[trigger] number_card(cj, n))
                    == if cj < ci { 2int } else { 0int },
            count_card(deck@, wild_card()) == 0,
            count_card(deck@, skip_card()) == 0,
        decreases 4 - ci,
    {
        let color = nth_number_color(ci);
        let mut v: u8 = 1;
        while v <= 12
            invariant
                ci < 4,
                1 <= v <= 13,
                color == number_color(ci as int),
                deck@.len() == 24 * ci + 2 * (v - 1),
                forall|k: int| 0 <= k < deck@.len() ==> deck@[k] == canonical_card(k),
                forall|cj: int, n: int|
                    0 <= cj < 4 && 1 <= n <= 12 ==> count_card(
                        deck@,
                        #[trigger] number_card(cj, n),
                    ) == if cj < ci || (cj == ci && n < v) { 2int } else { 0int },
                count_card(deck@, wild_card()) == 0,
                count_card(deck@, skip_card()) == 0,
            decreases 13 - v,
        {
            let card = Card { color, value: Value::Number(v) };
            proof {
                lemma_canonical_number_position(ci as int, v as int, deck@.len() as int);
                lemma_canonical_number_position(ci as int, v as int, deck@.len() as int + 1);
                assert(card == number_card(ci as int, v as int));
            }
            let ghost pre = deck@;
            deck.push(card);
            proof {
                lemma_counts_after_number_push(pre, ci as int, v as int);
            }
            let ghost mid = deck@;
            deck.push(card);
            proof {
                lemma_counts_after_number_push(mid, ci as int, v as int);
            }
            v = v + 1;
        }
        ci = ci + 1;
    }
    let mut w: usize = 0;
    while w < NUM_WILD_CARDS
        invariant
            w <= NUM_WILD_CARDS,
            deck@.len() == 96 + w,
            forall|k: int| 0 <= k < deck@.len() ==> deck@[k] == canonical_card(k),
            forall|cj: int, n: int|
                0 <= cj < 4 && 1 <= n <= 12 ==> count_card(deck@, #[trigger] number_card(cj, n))
                    == 2,
            count_card(deck@, wild_card()) == w,
            count_card(deck@, skip_card()) == 0,
        decreases NUM_WILD_CARDS - w,
    {
        let ghost pre = deck@;
        deck.push(Card { color: Color::Wild, value: Value::Wild });
        proof {
            lemma_counts_after_special_push(pre, wild_card());
        }
        w = w + 1;
    }
    let mut s: usize = 0;
    while s < NUM_SKIP_CARDS
        invariant
            s <= NUM_SKIP_CARDS,
            deck@.len() == 104 + s,
            forall|k: int| 0 <= k < deck@.len() ==> deck@[k] == canonical_card(k),
            forall|cj: int, n: int|
                0 <= cj < 4 && 1 <= n <= 12 ==> count_card(deck@, #[trigger] number_card(cj, n))
                    == 2,
            count_card(deck@, wild_card()) == NUM_WILD_CARDS,
            count_card(deck@, skip_card()) == s,
        decreases NUM_SKIP_CARDS - s,
    {
        let ghost pre = deck@;
        deck.push(Card { color: Color::Skip, value: Value::Skip });
        proof {
            lemma_counts_after_special_push(pre, skip_card());
        }
        s = s + 1;
    }
    proof {
        assert(forall|i: int| 0 <= i < deck@.len() ==> card_valid(#[trigger] deck@[i])) by {
            assert forall|i: int| 0 <= i < deck@.len() implies card_valid(#[trigger] deck@[i]) by {
                lemma_canonical_card_valid(i);
            }
        }
    }
    deck
}

/// The real color at index `ci` of the fixed color order.
fn nth_number_color(ci: usize) -> (c: Color)
    requires
        ci < 4,
    ensures
        c == number_color(ci as int),
{
    if ci == 0 {
        Color::Red
    } else if ci == 1 {
        Color::Blue
    } else if ci == 2 {
        Color::Green
    } else {
        Color::Yellow
    }
}

/// Every card of the canonical deck is well formed.
pub proof fn lemma_canonical_card_valid(i: int)
    requires
        0 <= i < 108,
    ensures
        card_valid(canonical_card(i)),
{
    if i < 96 {
        vstd::arithmetic::div_mod::lemma_fundamental_div_mod(i, 24);
        vstd::arithmetic::div_mod::lemma_mod_bound(i, 24);
        vstd::arithmetic::div_mod::lemma_fundamental_div_mod(i % 24, 2);
        vstd::arithmetic::div_mod::lemma_mod_bound(i % 24, 2);
        assert(0 <= i / 24 < 4) by (nonlinear_arith)
            requires
                0 <= i < 96,
        ;
        assert(1 <= (i % 24) / 2 + 1 <= 12) by (nonlinear_arith)
            requires
                0 <= i % 24 < 24,
        ;
    }
}

/// At position `24 * ci + 2 * (v - 1)` or one past it, the canonical deck
/// holds the number card `(ci, v)`.
proof fn lemma_canonical_number_position(ci: int, v: int, pos: int)
    requires
        0 <= ci < 4,
        1 <= v <= 12,
        pos == 24 * ci + 2 * (v - 1) || pos == 24 * ci + 2 * (v - 1) + 1,
    ensures
        canonical_card(pos) == number_card(ci, v),
{
    let r = pos - 24 * ci;
    vstd::arithmetic::div_mod::lemma_fundamental_div_mod_converse(pos, 24, ci, r);
    vstd::arithmetic::div_mod::lemma_fundamental_div_mod_converse(r, 2, v - 1, r - 2 * (v - 1));
}

/// Pushing the number card `(ci, v)` raises only that pair's count.
proof fn lemma_counts_after_number_push(pre: Seq<Card>, ci: int, v: int)
    requires
        0 <= ci < 4,
        1 <= v <= 12,
    ensures
        forall|cj: int, n: int|
            0 <= cj < 4 && 1 <= n <= 12 ==> count_card(
                pre.push(number_card(ci, v)),
                #[trigger] number_card(cj, n),
            ) == count_card(pre, number_card(cj, n)) + if cj == ci && n == v {
                1int
            } else {
                0int
            },
        count_card(pre.push(number_card(ci, v)), wild_card()) == count_card(pre, wild_card()),
        count_card(pre.push(number_card(ci, v)), skip_card()) == count_card(pre, skip_card()),
{
    let x = number_card(ci, v);
    assert forall|cj: int, n: int| 0 <= cj < 4 && 1 <= n <= 12 implies count_card(
        pre.push(x),
        #[trigger] number_card(cj, n),
    ) == count_card(pre, number_card(cj, n)) + if cj == ci && n == v {
        1int
    } else {
        0int
    } by {
        lemma_count_card_push(pre, x, number_card(cj, n));
        if number_card(cj, n) == x {
            assert(number_color(cj) == number_color(ci));
            assert(cj == ci);
            assert((n as u8) == (v as u8));
            assert(n == v);
        }
    }
    lemma_count_card_push(pre, x, wild_card());
    lemma_count_card_push(pre, x, skip_card());
}

/// Pushing a Wild or Skip card raises only that card's count.
proof fn lemma_counts_after_special_push(pre: Seq<Card>, x: Card)
    requires
        x == wild_card() || x == skip_card(),
    ensures
        forall|cj: int, n: int|
            0 <= cj < 4 && 1 <= n <= 12 ==> count_card(pre.push(x), #[trigger] number_card(cj, n))
                == count_card(pre, number_card(cj, n)),
        count_card(pre.push(x), wild_card()) == count_card(pre, wild_card()) + if x == wild_card() {
            1int
        } else {
            0int
        },
        count_card(pre.push(x), skip_card()) == count_card(pre, skip_card()) + if x == skip_card() {
            1int
        } else {
            0int
        },
{
    assert forall|cj: int, n: int| 0 <= cj < 4 && 1 <= n <= 12 implies count_card(
        pre.push(x),
        #[trigger] number_card(cj, n),
    ) == count_card(pre, number_card(cj, n)) by {
        lemma_count_card_push(pre, x, number_card(cj, n));
    }
    lemma_count_card_push(pre, x, wild_card());
    lemma_count_card_push(pre, x, skip_card());
}

} // verus!
