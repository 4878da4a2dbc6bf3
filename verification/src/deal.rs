//! Dealer: partitions a deck into fixed-size hands, treating the deck as
//! a stack (the last card in deck order is dealt first), one card per
//! hand per round. A deck too small for all rounds simply runs out; the
//! hands dealt so far stay as they are.
use vstd::prelude::*;
use crate::cards::Card;

verus! {

/// How many of `pops` attempted draws from a deck of length `len`
/// actually produce a card.
pub open spec fn dealt_count(len: int, pops: int) -> int {
    if pops <= len {
        pops
    } else {
        len
    }
}

/// How many of the first `upto` rounds deal a card to hand `h`, when
/// `num_hands` hands are served per round from a deck of length `len`.
/// Round `j` serves hand `h` exactly when `j * num_hands + h < len`.
pub open spec fn rounds_dealt(len: int, num_hands: int, h: int, upto: int) -> int
    decreases upto,
{
    if upto <= 0 {
        0
    } else {
        rounds_dealt(len, num_hands, h, upto - 1) + if (upto - 1) * num_hands + h < len {
            1int
        } else {
            0int
        }
    }
}

/// While the deck lasts, every round deals: `rounds_dealt` is the full
/// round count whenever the last round's draw is still inside the deck.
pub proof fn lemma_rounds_dealt_full(len: int, num_hands: int, h: int, upto: int)
    requires
        num_hands >= 0,
        0 <= upto,
        upto == 0 || (upto - 1) * num_hands + h < len,
    ensures
        rounds_dealt(len, num_hands, h, upto) == upto,
    decreases upto,
{
    if upto > 0 {
        assert((upto - 2) * num_hands <= (upto - 1) * num_hands) by (nonlinear_arith)
            requires
                num_hands >= 0,
        ;
        lemma_rounds_dealt_full(len, num_hands, h, upto - 1);
    }
}

/// A hand never holds more cards than rounds were played.
pub proof fn lemma_rounds_dealt_le(len: int, num_hands: int, h: int, upto: int)
    requires
        0 <= upto,
    ensures
        0 <= rounds_dealt(len, num_hands, h, upto) <= upto,
    decreases upto,
{
    if upto > 0 {
        lemma_rounds_dealt_le(len, num_hands, h, upto - 1);
    }
}

/// Deals `hand_size` rounds of one card each to `num_hands` hands, drawn
/// from the back of the deck in round-robin order. Hand `h` receives in
/// round `j` the card at position `len - 1 - (j * num_hands + h)` of the
/// original deck, as long as that position exists; the dealt cards are
/// removed from the deck. Exhaustion is silent: once the deck runs out,
/// later rounds deal nothing.
pub fn deal_hands(deck: &mut Vec<Card>, num_hands: usize, hand_size: usize) -> (hands: Vec<
    Vec<Card>,
>)
    ensures
        hands@.len() == num_hands,
        forall|h: int|
            0 <= h < num_hands ==> (#[trigger] hands@[h])@.len() == rounds_dealt(
                old(deck)@.len() as int,
                num_hands as int,
                h,
                hand_size as int,
            ),
        forall|h: int, j: int|
            0 <= h < num_hands && 0 <= j < hands@[h]@.len() ==> (#[trigger] hands@[h]@[j]) == old(
                deck,
            )@[old(deck)@.len() - 1 - (j * num_hands + h)],
        final(deck)@ == old(deck)@.take(
            old(deck)@.len() - dealt_count(
                old(deck)@.len() as int,
                num_hands as int * hand_size as int,
            ),
        ),
{
    let ghost d0 = deck@;
    let l = deck.len();
    let mut hands: Vec<Vec<Card>> = Vec::new();
    let mut h: usize = 0;
    while h < num_hands
        invariant
            h <= num_hands,
            hands@.len() == h,
            forall|k: int| 0 <= k < h ==> (#[trigger] hands@[k])@.len() == 0,
        decreases num_hands - h,
    {
        hands.push(Vec::new());
        h = h + 1;
    }
    let mut j: usize = 0;
    while j < hand_size
        invariant
            j <= hand_size,
            hands@.len() == num_hands,
            l == d0.len(),
            deck@ == d0.take(l - dealt_count(l as int, j * num_hands)),
            forall|k: int|
                0 <= k < num_hands ==> (#[trigger] hands@[k])@.len() == rounds_dealt(
                    l as int,
                    num_hands as int,
                    k,
                    j as int,
                ),
            forall|k: int, jj: int|
                0 <= k < num_hands && 0 <= jj < hands@[k]@.len() ==> (#[trigger] hands@[k]@[jj])
                    == d0[l - 1 - (jj * num_hands + k)],
        decreases hand_size - j,
    {
        let mut hh: usize = 0;
        while hh < num_hands
            invariant
                hh <= num_hands,
                j < hand_size,
                hands@.len() == num_hands,
                l == d0.len(),
                deck@ == d0.take(l - dealt_count(l as int, j * num_hands + hh)),
                forall|k: int|
                    0 <= k < hh ==> (#[trigger] hands@[k])@.len() == rounds_dealt(
                        l as int,
                        num_hands as int,
                        k,
                        j as int + 1,
                    ),
                forall|k: int|
                    hh <= k < num_hands ==> (#[trigger] hands@[k])@.len() == rounds_dealt(
                        l as int,
                        num_hands as int,
                        k,
                        j as int,
                    ),
                forall|k: int, jj: int|
                    0 <= k < num_hands && 0 <= jj < hands@[k]@.len() ==> (#[trigger] hands@[k]@[jj])
                        == d0[l - 1 - (jj * num_hands + k)],
            decreases num_hands - hh,
        {
            let ghost pops = j * num_hands + hh;
            proof {
                lemma_rounds_dealt_le(l as int, num_hands as int, hh as int, j as int);
            }
            match deck.pop() {
                Some(card) => {
                    proof {
                        assert(pops < l);
                        assert(deck@ =~= d0.take(l - pops - 1));
                        if j > 0 {
                            assert((j as int - 1) * num_hands <= j as int * num_hands)
                                by (nonlinear_arith)
                                requires
                                    j >= 1,
                            ;
                        }
                        lemma_rounds_dealt_full(l as int, num_hands as int, hh as int, j as int);
                        assert(hands@[hh as int]@.len() == j);
                    }
                    hands[hh].push(card);
                }
                None => {
                    proof {
                        assert(l - dealt_count(l as int, pops as int) == 0);
                        assert(pops >= l);
                        assert(dealt_count(l as int, pops + 1) == l);
                        assert(deck@ =~= d0.take(l - dealt_count(l as int, pops + 1)));
                    }
                },
            }
            hh = hh + 1;
        }
        proof {
            assert((j as int + 1) * num_hands == j as int * num_hands + num_hands)
                by (nonlinear_arith);
        }
        j = j + 1;
    }
    proof {
        assert(j * num_hands == num_hands as int * hand_size as int) by (nonlinear_arith)
            requires
                j == hand_size,
        ;
    }
    hands
}

/// Dealing conservation for the default configuration: a full 108-card
/// deck dealt into 4 hands of 10 deals 40 cards in all, every hand
/// receives exactly 10, and 68 cards remain in the deck.
pub proof fn lemma_dealing_conservation(d: Seq<Card>)
    requires
        d.len() == 108,
    ensures
        dealt_count(d.len() as int, 40int) == 40,
        d.len() - dealt_count(d.len() as int, 40int) == 68,
        forall|h: int| 0 <= h < 4 ==> #[trigger] rounds_dealt(108, 4, h, 10) == 10,
{
    assert forall|h: int| 0 <= h < 4 implies #[trigger] rounds_dealt(108, 4, h, 10) == 10 by {
        lemma_rounds_dealt_full(108, 4, h, 10);
    }
}

/// No card is dealt twice: distinct (hand, round) pairs draw from
/// distinct positions of a 108-card deck, so no card position appears in
/// more than one hand.
pub proof fn lemma_deal_positions_distinct(h1: int, j1: int, h2: int, j2: int)
    requires
        0 <= h1 < 4,
        0 <= h2 < 4,
        0 <= j1,
        0 <= j2,
        !(h1 == h2 && j1 == j2),
    ensures
        108 - 1 - (j1 * 4 + h1) != 108 - 1 - (j2 * 4 + h2),
{
}

} // verus!
