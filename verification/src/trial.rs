//! One trial of the pipeline: build a fresh deck, optionally shuffle it
//! under an explicit plan, deal the default four hands of ten, and count
//! the categories of the dealt cards.
use vstd::prelude::*;
use crate::cards::{Card, HAND_SIZE, NUM_HANDS, canonical_card, card_valid, generate_deck};
use crate::analyze::{
    CategoryCounts,
    analyze_randomness,
    count_color_in_hands,
    count_value_in_hands,
    hand_valid,
    hands_seq,
    sum_counts,
    total_cards,
};
use crate::deal::{deal_hands, lemma_rounds_dealt_full};
use crate::shuffle::{overhand_shuffle, riffle_shuffle, shuffle_deck};

verus! {

/// The canonical deck as a sequence of cards.
pub open spec fn canonical_deck() -> Seq<Card> {
    Seq::new(108, |i: int| canonical_card(i))
}

/// The category counts `counts` are exactly the analysis of the hands
/// `hh`: every slot is the spec count of its category and the total is
/// the number of cards.
pub open spec fn counts_of_hands(counts: CategoryCounts, hh: Seq<Seq<Card>>) -> bool {
    &&& counts.colors@.len() == 6
    &&& (forall|ci: int| 0 <= ci < 6 ==> counts.colors@[ci] == count_color_in_hands(hh, ci))
    &&& counts.values@.len() == 14
    &&& (forall|vi: int| 0 <= vi < 14 ==> counts.values@[vi] == count_value_in_hands(hh, vi))
    &&& counts.total == total_cards(hh)
}

/// `hh` is the default deal from the back of the 108-card deck `d`: four
/// hands of ten, hand `h` receiving in round `j` the card at position
/// `107 - (j * 4 + h)`.
pub open spec fn hands_dealt_from(hh: Seq<Seq<Card>>, d: Seq<Card>) -> bool {
    &&& d.len() == 108
    &&& hh.len() == 4
    &&& (forall|h: int| 0 <= h < 4 ==> (#[trigger] hh[h]).len() == 10)
    &&& (forall|h: int, j: int|
        0 <= h < 4 && 0 <= j < 10 ==> (#[trigger] hh[h][j]) == d[107 - (j * 4 + h)])
}

/// The hands dealt from the canonical deck with no shuffle: hand `h`
/// receives in round `j` the card at position `107 - (j * 4 + h)` of the
/// canonical order, so the Skip and Wild cards appended last come first.
pub open spec fn canonical_hands() -> Seq<Seq<Card>> {
    Seq::new(4, |h: int| Seq::new(10, |j: int| canonical_card(107 - (j * 4 + h))))
}

/// How the deck is shuffled before dealing, if at all. The reference
/// configuration deals straight from the canonical order; shuffling is an
/// explicit, visible switch.
#[derive(Clone, Copy, Debug, PartialEq, Eq, Structural)]
pub enum ShufflePlan {
    /// Deal straight from the canonical order.
    NoShuffle,
    /// Apply the uniform shuffle the given number of times.
    Uniform(usize),
    /// Per repeat: two overhand shuffles of three passes each, then one
    /// riffle shuffle.
    OverhandRiffle(usize),
}

/// Runs one trial: a fresh canonical deck, the chosen shuffle plan, a
/// deal of four hands of ten, and the category counts of those hands.
/// Whatever the shuffle did, the counts are the analysis of four hands
/// of ten dealt from some reordering of the canonical deck, so exactly
/// 40 cards are counted and the counts of each kind sum to 40; with no
/// shuffle, every count is pinned to the canonical hands.
pub fn run_trial(plan: ShufflePlan) -> (counts: CategoryCounts)
    ensures
        counts.colors@.len() == 6,
        counts.values@.len() == 14,
        counts.total == NUM_HANDS * HAND_SIZE,
        sum_counts(counts.colors@, 6) == counts.total,
        sum_counts(counts.values@, 14) == counts.total,
        exists|d: Seq<Card>, hh: Seq<Seq<Card>>|
            d.to_multiset() == canonical_deck().to_multiset() && #[trigger] hands_dealt_from(
                hh,
                d,
            ) && counts_of_hands(counts, hh),
        plan == ShufflePlan::NoShuffle ==> forall|ci: int|
            0 <= ci < 6 ==> counts.colors@[ci] == count_color_in_hands(canonical_hands(), ci),
        plan == ShufflePlan::NoShuffle ==> forall|vi: int|
            0 <= vi < 14 ==> counts.values@[vi] == count_value_in_hands(canonical_hands(), vi),
{
    let mut deck = generate_deck();
    let ghost deck0 = deck@;
    match plan {
        ShufflePlan::NoShuffle => {},
        ShufflePlan::Uniform(times) => {
            shuffle_deck(&mut deck, times);
        },
        ShufflePlan::OverhandRiffle(reps) => {
            let mut r: usize = 0;
            while r < reps
                invariant
                    r <= reps,
                    deck@.to_multiset() == deck0.to_multiset(),
                    deck@.len() == deck0.len(),
                decreases reps - r,
            {
                overhand_shuffle(&mut deck, 3);
                overhand_shuffle(&mut deck, 3);
                riffle_shuffle(&mut deck);
                r = r + 1;
            }
        },
    }
    proof {
        assert(deck@.to_multiset() == deck0.to_multiset());
        assert(deck@.len() == 108);
        lemma_permuted_deck_valid(deck0, deck@);
    }
    let ghost shuffled = deck@;
    let hands = deal_hands(&mut deck, NUM_HANDS, HAND_SIZE);
    proof {
        assert forall|h: int| 0 <= h < 4 implies (#[trigger] hands@[h])@.len() == 10 by {
            lemma_rounds_dealt_full(108, 4, h, 10);
        }
        let hh = hands_seq(hands);
        assert forall|h: int| 0 <= h < hh.len() implies hand_valid(#[trigger] hh[h]) by {
            assert forall|j: int| 0 <= j < hh[h].len() implies card_valid(#[trigger] hh[h][j]) by {
                assert(hh[h][j] == hands@[h]@[j]);
                assert(hands@[h]@[j] == shuffled[108 - 1 - (j * 4 + h)]);
            }
        }
        lemma_total_cards_of_four(hh);
        if plan == ShufflePlan::NoShuffle {
            assert(hh =~~= canonical_hands());
        }
    }
    let counts = analyze_randomness(&hands);
    proof {
        let hh = hands_seq(hands);
        assert(deck0 =~= canonical_deck());
        assert forall|h: int, j: int| 0 <= h < 4 && 0 <= j < 10 implies (#[trigger] hh[h][j])
            == shuffled[107 - (j * 4 + h)] by {
            assert(hh[h][j] == hands@[h]@[j]);
            assert(hands@[h]@[j] == shuffled[108 - 1 - (j * 4 + h)]);
        }
        assert(hands_dealt_from(hh, shuffled));
        assert(counts_of_hands(counts, hh));
    }
    counts
}

/// A batch of four hands of ten cards holds forty cards in all.
proof fn lemma_total_cards_of_four(hh: Seq<Seq<Card>>)
    requires
        hh.len() == 4,
        forall|i: int| 0 <= i < 4 ==> (#[trigger] hh[i]).len() == 10,
    ensures
        total_cards(hh) == 40,
{
    let h3 = hh.drop_last();
    let h2 = h3.drop_last();
    let h1 = h2.drop_last();
    let h0 = h1.drop_last();
    assert(total_cards(h0) == 0);
    assert(total_cards(h1) == total_cards(h0) + h1.last().len());
    assert(h1.last() == hh[0]);
    assert(total_cards(h2) == total_cards(h1) + h2.last().len());
    assert(h2.last() == hh[1]);
    assert(total_cards(h3) == total_cards(h2) + h3.last().len());
    assert(h3.last() == hh[2]);
    assert(total_cards(hh) == total_cards(h3) + hh.last().len());
    assert(hh.last() == hh[3]);
}

/// A deck with the canonical multiset of cards holds only well-formed
/// cards, whatever order a shuffle left it in.
proof fn lemma_permuted_deck_valid(d0: Seq<Card>, d: Seq<Card>)
    requires
        d.to_multiset() == d0.to_multiset(),
        forall|i: int| 0 <= i < d0.len() ==> card_valid(#[trigger] d0[i]),
    ensures
        forall|i: int| 0 <= i < d.len() ==> card_valid(#[trigger] d[i]),
{
    broadcast use vstd::seq_lib::group_to_multiset_ensures;

    assert forall|i: int| 0 <= i < d.len() implies card_valid(#[trigger] d[i]) by {
        assert(d.contains(d[i]));
        assert(d.to_multiset().count(d[i]) > 0);
        assert(d0.to_multiset().count(d[i]) > 0);
        assert(d0.contains(d[i]));
        let j = choose|j: int| 0 <= j < d0.len() && d0[j] == d[i];
        assert(card_valid(d0[j]));
    }
}

} // verus!
