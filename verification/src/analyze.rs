//! Randomness analyzer: counts color and value categories over one batch
//! of hands. The category universe is fixed up front (six colors; twelve
//! numbers plus Wild and Skip), so every analysis reports every category,
//! absent ones with a zero count. Frequencies and entropies are ratios of
//! these counts; the counts carry all the information of one trial.
use vstd::prelude::*;
use crate::cards::{Card, Color, Value, card_valid, color_index};

verus! {

/// Index of a card value in the fixed fourteen-way category universe:
/// numbers 1..=12 at indices 0..=11, then Wild, then Skip.
pub open spec fn value_index(v: Value) -> int {
    match v {
        Value::Number(n) => n - 1,
        Value::Wild => 12,
        Value::Skip => 13,
    }
}

/// The sequences of cards held by a vector of hands.
pub open spec fn hands_seq(hands: Vec<Vec<Card>>) -> Seq<Seq<Card>> {
    Seq::new(hands@.len(), |i: int| hands@[i]@)
}

/// Every card of one hand is well formed.
pub open spec fn hand_valid(s: Seq<Card>) -> bool {
    forall|j: int| 0 <= j < s.len() ==> card_valid(#[trigger] s[j])
}

/// Every card of every hand is well formed.
pub open spec fn hands_valid(hh: Seq<Seq<Card>>) -> bool {
    forall|i: int| 0 <= i < hh.len() ==> hand_valid(#[trigger] hh[i])
}

/// How many cards of `s` carry the color with index `ci`.
pub open spec fn count_color(s: Seq<Card>, ci: int) -> nat
    decreases s.len(),
{
    if s.len() == 0 {
        0
    } else {
        count_color(s.drop_last(), ci) + if color_index(s.last().color) == ci {
            1nat
        } else {
            0nat
        }
    }
}

/// How many cards of `s` carry the value with index `vi`.
pub open spec fn count_value(s: Seq<Card>, vi: int) -> nat
    decreases s.len(),
{
    if s.len() == 0 {
        0
    } else {
        count_value(s.drop_last(), vi) + if value_index(s.last().value) == vi {
            1nat
        } else {
            0nat
        }
    }
}

/// How many cards across all hands carry the color with index `ci`.
pub open spec fn count_color_in_hands(hh: Seq<Seq<Card>>, ci: int) -> nat
    decreases hh.len(),
{
    if hh.len() == 0 {
        0
    } else {
        count_color_in_hands(hh.drop_last(), ci) + count_color(hh.last(), ci)
    }
}

/// How many cards across all hands carry the value with index `vi`.
pub open spec fn count_value_in_hands(hh: Seq<Seq<Card>>, vi: int) -> nat
    decreases hh.len(),
{
    if hh.len() == 0 {
        0
    } else {
        count_value_in_hands(hh.drop_last(), vi) + count_value(hh.last(), vi)
    }
}

/// Total number of cards across all hands.
pub open spec fn total_cards(hh: Seq<Seq<Card>>) -> nat
    decreases hh.len(),
{
    if hh.len() == 0 {
        0
    } else {
        total_cards(hh.drop_last()) + hh.last().len()
    }
}

/// Per-trial category counts: one slot per color, one per value, and the
/// number of cards counted. Relative frequencies are these counts divided
/// by the total; the two entropies are computed from the same counts.
#[derive(Clone, Debug, PartialEq, Eq)]
pub struct CategoryCounts {
    /// One count per color, indexed by `color_index`.
    pub colors: Vec<usize>,
    /// One count per value, indexed by `value_index`.
    pub values: Vec<usize>,
    /// Number of cards across all hands of the batch.
    pub total: usize,
}

/// Counts the color and value categories over one batch of hands. The
/// result is a function of the hands alone: every slot equals the spec
/// count of its category, and the total equals the number of cards.
pub fn analyze_randomness(hands: &Vec<Vec<Card>>) -> (counts: CategoryCounts)
    requires
        hands_valid(hands_seq(*hands)),
        total_cards(hands_seq(*hands)) <= usize::MAX,
    ensures
        counts.colors@.len() == 6,
        forall|ci: int|
            0 <= ci < 6 ==> counts.colors@[ci] == count_color_in_hands(hands_seq(*hands), ci),
        counts.values@.len() == 14,
        forall|vi: int|
            0 <= vi < 14 ==> counts.values@[vi] == count_value_in_hands(hands_seq(*hands), vi),
        counts.total == total_cards(hands_seq(*hands)),
        sum_counts(counts.colors@, 6) == counts.total,
        sum_counts(counts.values@, 14) == counts.total,
{
    let mut colors: Vec<usize> = Vec::new();
    let mut ci: usize = 0;
    while ci < 6
        invariant
            ci <= 6,
            colors@.len() == ci,
            hands_valid(hands_seq(*hands)),
            total_cards(hands_seq(*hands)) <= usize::MAX,
            forall|k: int|
                0 <= k < ci ==> colors@[k] == count_color_in_hands(hands_seq(*hands), k),
        decreases 6 - ci,
    {
        let c = count_color_cards(hands, ci);
        colors.push(c);
        ci = ci + 1;
    }
    let mut values: Vec<usize> = Vec::new();
    let mut vi: usize = 0;
    while vi < 14
        invariant
            vi <= 14,
            values@.len() == vi,
            hands_valid(hands_seq(*hands)),
            total_cards(hands_seq(*hands)) <= usize::MAX,
            colors@.len() == 6,
            forall|k: int|
                0 <= k < 6 ==> colors@[k] == count_color_in_hands(hands_seq(*hands), k),
            forall|k: int|
                0 <= k < vi ==> values@[k] == count_value_in_hands(hands_seq(*hands), k),
        decreases 14 - vi,
    {
        let v = count_value_cards(hands, vi);
        values.push(v);
        vi = vi + 1;
    }
    let total = count_total_cards(hands);
    proof {
        lemma_sum_counts_matches_colors(colors@, hands_seq(*hands), 6);
        lemma_color_frequency_sum(hands_seq(*hands));
        lemma_sum_counts_matches_values(values@, hands_seq(*hands), 14);
        lemma_value_frequency_sum(hands_seq(*hands));
    }
    CategoryCounts { colors, values, total }
}

/// Counts the cards across all hands whose color has index `ci`.
pub fn count_color_cards(hands: &Vec<Vec<Card>>, ci: usize) -> (r: usize)
    requires
        total_cards(hands_seq(*hands)) <= usize::MAX,
    ensures
        r == count_color_in_hands(hands_seq(*hands), ci as int),
{
    let ghost hh = hands_seq(*hands);
    let mut acc: usize = 0;
    let mut i: usize = 0;
    while i < hands.len()
        invariant
            i <= hands@.len(),
            hh == hands_seq(*hands),
            hh.len() == hands@.len(),
            total_cards(hh) <= usize::MAX,
            acc == count_color_in_hands(hh.take(i as int), ci as int),
            acc <= total_cards(hh.take(i as int)),
        decreases hands@.len() - i,
    {
        let hand = &hands[i];
        let mut j: usize = 0;
        while j < hand.len()
            invariant
                j <= hand@.len(),
                i < hh.len(),
                hh.len() == hands@.len(),
                hand@ == hh[i as int],
                hh == hands_seq(*hands),
                total_cards(hh) <= usize::MAX,
                acc == count_color_in_hands(hh.take(i as int), ci as int) + count_color(
                    hh[i as int].take(j as int),
                    ci as int,
                ),
                acc <= total_cards(hh.take(i as int)) + j,
            decreases hand@.len() - j,
        {
            proof {
                lemma_count_color_take_step(hh[i as int], j as int, ci as int);
                lemma_total_cards_take_step(hh, i as int);
                lemma_total_cards_prefix_le(hh, i as int + 1);
            }
            if color_index_of(hand[j].color) == ci {
                acc = acc + 1;
            }
            j = j + 1;
        }
        proof {
            lemma_count_color_hands_take_step(hh, i as int, ci as int);
            lemma_total_cards_take_step(hh, i as int);
            assert(hh[i as int].take(hand@.len() as int) =~= hh[i as int]);
        }
        i = i + 1;
    }
    proof {
        assert(hh.take(hands@.len() as int) =~= hh);
    }
    acc
}

/// Counts the cards across all hands whose value has index `vi`.
pub fn count_value_cards(hands: &Vec<Vec<Card>>, vi: usize) -> (r: usize)
    requires
        hands_valid(hands_seq(*hands)),
        total_cards(hands_seq(*hands)) <= usize::MAX,
    ensures
        r == count_value_in_hands(hands_seq(*hands), vi as int),
{
    let ghost hh = hands_seq(*hands);
    let mut acc: usize = 0;
    let mut i: usize = 0;
    while i < hands.len()
        invariant
            i <= hands@.len(),
            hh == hands_seq(*hands),
            hh.len() == hands@.len(),
            hands_valid(hh),
            total_cards(hh) <= usize::MAX,
            acc == count_value_in_hands(hh.take(i as int), vi as int),
            acc <= total_cards(hh.take(i as int)),
        decreases hands@.len() - i,
    {
        let hand = &hands[i];
        let mut j: usize = 0;
        while j < hand.len()
            invariant
                j <= hand@.len(),
                i < hh.len(),
                hh.len() == hands@.len(),
                hand@ == hh[i as int],
                hh == hands_seq(*hands),
                hands_valid(hh),
                total_cards(hh) <= usize::MAX,
                acc == count_value_in_hands(hh.take(i as int), vi as int) + count_value(
                    hh[i as int].take(j as int),
                    vi as int,
                ),
                acc <= total_cards(hh.take(i as int)) + j,
            decreases hand@.len() - j,
        {
            proof {
                lemma_count_value_take_step(hh[i as int], j as int, vi as int);
                lemma_total_cards_take_step(hh, i as int);
                lemma_total_cards_prefix_le(hh, i as int + 1);
                assert(card_valid(hh[i as int][j as int]));
            }
            if value_index_of(hand[j].value) == vi {
                acc = acc + 1;
            }
            j = j + 1;
        }
        proof {
            lemma_count_value_hands_take_step(hh, i as int, vi as int);
            lemma_total_cards_take_step(hh, i as int);
            assert(hh[i as int].take(hand@.len() as int) =~= hh[i as int]);
        }
        i = i + 1;
    }
    proof {
        assert(hh.take(hands@.len() as int) =~= hh);
    }
    acc
}

/// Counts the cards across all hands.
pub fn count_total_cards(hands: &Vec<Vec<Card>>) -> (r: usize)
    requires
        total_cards(hands_seq(*hands)) <= usize::MAX,
    ensures
        r == total_cards(hands_seq(*hands)),
{
    let ghost hh = hands_seq(*hands);
    let mut acc: usize = 0;
    let mut i: usize = 0;
    while i < hands.len()
        invariant
            i <= hands@.len(),
            hh == hands_seq(*hands),
            hh.len() == hands@.len(),
            total_cards(hh) <= usize::MAX,
            acc == total_cards(hh.take(i as int)),
        decreases hands@.len() - i,
    {
        proof {
            lemma_total_cards_take_step(hh, i as int);
            lemma_total_cards_prefix_le(hh, i as int + 1);
        }
        let hand = &hands[i];
        acc = acc + hand.len();
        i = i + 1;
    }
    proof {
        assert(hh.take(hands@.len() as int) =~= hh);
    }
    acc
}

/// Index of a color in the fixed six-way category universe.
pub fn color_index_of(c: Color) -> (i: usize)
    ensures
        i as int == color_index(c),
{
    match c {
        Color::Red => 0,
        Color::Blue => 1,
        Color::Green => 2,
        Color::Yellow => 3,
        Color::Wild => 4,
        Color::Skip => 5,
    }
}

/// Index of a well-formed card value in the fixed fourteen-way category
/// universe.
pub fn value_index_of(v: Value) -> (i: usize)
    requires
        v matches Value::Number(n) ==> 1 <= n <= 12,
    ensures
        i as int == value_index(v),
{
    match v {
        Value::Number(n) => (n - 1) as usize,
        Value::Wild => 12,
        Value::Skip => 13,
    }
}

/// One step of a card sequence extends at most one color count.
proof fn lemma_count_color_take_step(s: Seq<Card>, j: int, ci: int)
    requires
        0 <= j < s.len(),
    ensures
        count_color(s.take(j + 1), ci) == count_color(s.take(j), ci) + if color_index(s[j].color)
            == ci {
            1nat
        } else {
            0nat
        },
{
    assert(s.take(j + 1).drop_last() =~= s.take(j));
    assert(s.take(j + 1).last() == s[j]);
}

/// One step of a card sequence extends at most one value count.
proof fn lemma_count_value_take_step(s: Seq<Card>, j: int, vi: int)
    requires
        0 <= j < s.len(),
    ensures
        count_value(s.take(j + 1), vi) == count_value(s.take(j), vi) + if value_index(s[j].value)
            == vi {
            1nat
        } else {
            0nat
        },
{
    assert(s.take(j + 1).drop_last() =~= s.take(j));
    assert(s.take(j + 1).last() == s[j]);
}

/// Taking one more hand adds that hand's color count.
proof fn lemma_count_color_hands_take_step(hh: Seq<Seq<Card>>, i: int, ci: int)
    requires
        0 <= i < hh.len(),
    ensures
        count_color_in_hands(hh.take(i + 1), ci) == count_color_in_hands(hh.take(i), ci)
            + count_color(hh[i], ci),
{
    assert(hh.take(i + 1).drop_last() =~= hh.take(i));
    assert(hh.take(i + 1).last() == hh[i]);
}

/// Taking one more hand adds that hand's value count.
proof fn lemma_count_value_hands_take_step(hh: Seq<Seq<Card>>, i: int, vi: int)
    requires
        0 <= i < hh.len(),
    ensures
        count_value_in_hands(hh.take(i + 1), vi) == count_value_in_hands(hh.take(i), vi)
            + count_value(hh[i], vi),
{
    assert(hh.take(i + 1).drop_last() =~= hh.take(i));
    assert(hh.take(i + 1).last() == hh[i]);
}

/// Taking one more hand adds that hand's length to the total.
proof fn lemma_total_cards_take_step(hh: Seq<Seq<Card>>, i: int)
    requires
        0 <= i < hh.len(),
    ensures
        total_cards(hh.take(i + 1)) == total_cards(hh.take(i)) + hh[i].len(),
{
    assert(hh.take(i + 1).drop_last() =~= hh.take(i));
    assert(hh.take(i + 1).last() == hh[i]);
}

/// Sum of the first `k` slots of a counts vector.
pub open spec fn sum_counts(v: Seq<usize>, k: int) -> int
    decreases k,
{
    if k <= 0 {
        0
    } else {
        sum_counts(v, k - 1) + v[k - 1]
    }
}

/// A counts vector whose slots mirror the per-color spec counts sums
/// like them.
proof fn lemma_sum_counts_matches_colors(v: Seq<usize>, hh: Seq<Seq<Card>>, k: int)
    requires
        forall|ci: int| 0 <= ci < k ==> v[ci] == count_color_in_hands(hh, ci),
    ensures
        sum_counts(v, k) == sum_color_counts(hh, k),
    decreases k,
{
    if k > 0 {
        lemma_sum_counts_matches_colors(v, hh, k - 1);
    }
}

/// A counts vector whose slots mirror the per-value spec counts sums
/// like them.
proof fn lemma_sum_counts_matches_values(v: Seq<usize>, hh: Seq<Seq<Card>>, k: int)
    requires
        forall|vi: int| 0 <= vi < k ==> v[vi] == count_value_in_hands(hh, vi),
    ensures
        sum_counts(v, k) == sum_value_counts(hh, k),
    decreases k,
{
    if k > 0 {
        lemma_sum_counts_matches_values(v, hh, k - 1);
    }
}

/// Sum of the first `k` per-color counts of one hand.
pub open spec fn sum_color_counts_flat(s: Seq<Card>, k: int) -> nat
    decreases k,
{
    if k <= 0 {
        0
    } else {
        sum_color_counts_flat(s, k - 1) + count_color(s, k - 1)
    }
}

/// Sum of the first `k` per-color counts of a batch of hands.
pub open spec fn sum_color_counts(hh: Seq<Seq<Card>>, k: int) -> nat
    decreases k,
{
    if k <= 0 {
        0
    } else {
        sum_color_counts(hh, k - 1) + count_color_in_hands(hh, k - 1)
    }
}

/// Sum of the first `k` per-value counts of one hand.
pub open spec fn sum_value_counts_flat(s: Seq<Card>, k: int) -> nat
    decreases k,
{
    if k <= 0 {
        0
    } else {
        sum_value_counts_flat(s, k - 1) + count_value(s, k - 1)
    }
}

/// Sum of the first `k` per-value counts of a batch of hands.
pub open spec fn sum_value_counts(hh: Seq<Seq<Card>>, k: int) -> nat
    decreases k,
{
    if k <= 0 {
        0
    } else {
        sum_value_counts(hh, k - 1) + count_value_in_hands(hh, k - 1)
    }
}

/// Frequency conservation for colors: over any batch of hands, the six
/// color counts sum to the total number of cards, so the color relative
/// frequencies of one trial sum to one.
pub proof fn lemma_color_frequency_sum(hh: Seq<Seq<Card>>)
    ensures
        sum_color_counts(hh, 6) == total_cards(hh),
    decreases hh.len(),
{
    if hh.len() == 0 {
        lemma_sum_color_hands_zero(hh, 6);
    } else {
        lemma_color_frequency_sum(hh.drop_last());
        lemma_sum_color_hands_drop(hh, 6);
        lemma_color_sum_flat(hh.last());
    }
}

/// Frequency conservation for values: over any batch of well-formed
/// hands, the fourteen value counts sum to the total number of cards, so
/// the value relative frequencies of one trial sum to one.
pub proof fn lemma_value_frequency_sum(hh: Seq<Seq<Card>>)
    requires
        hands_valid(hh),
    ensures
        sum_value_counts(hh, 14) == total_cards(hh),
    decreases hh.len(),
{
    if hh.len() == 0 {
        lemma_sum_value_hands_zero(hh, 14);
    } else {
        assert(hands_valid(hh.drop_last())) by {
            assert forall|i: int| 0 <= i < hh.drop_last().len() implies hand_valid(
                #[trigger] hh.drop_last()[i],
            ) by {
                assert(hh.drop_last()[i] == hh[i]);
            }
        }
        lemma_value_frequency_sum(hh.drop_last());
        lemma_sum_value_hands_drop(hh, 14);
        lemma_value_sum_flat(hh.last());
    }
}

/// Determinism of analysis: every metric of a trial is a function of the
/// hand data alone, so two analyses of equal hands agree throughout.
pub proof fn lemma_analysis_deterministic(a: Seq<Seq<Card>>, b: Seq<Seq<Card>>)
    requires
        a == b,
    ensures
        forall|ci: int| count_color_in_hands(a, ci) == count_color_in_hands(b, ci),
        forall|vi: int| count_value_in_hands(a, vi) == count_value_in_hands(b, vi),
        total_cards(a) == total_cards(b),
{
}

/// The six color counts of one hand sum to its length.
proof fn lemma_color_sum_flat(s: Seq<Card>)
    ensures
        sum_color_counts_flat(s, 6) == s.len(),
    decreases s.len(),
{
    if s.len() == 0 {
        lemma_sum_color_flat_zero(s, 6);
    } else {
        lemma_color_sum_flat(s.drop_last());
        lemma_sum_color_flat_drop(s, 6);
    }
}

/// The fourteen value counts of one well-formed hand sum to its length.
proof fn lemma_value_sum_flat(s: Seq<Card>)
    requires
        hand_valid(s),
    ensures
        sum_value_counts_flat(s, 14) == s.len(),
    decreases s.len(),
{
    if s.len() == 0 {
        lemma_sum_value_flat_zero(s, 14);
    } else {
        assert(hand_valid(s.drop_last())) by {
            assert forall|j: int| 0 <= j < s.drop_last().len() implies card_valid(
                #[trigger] s.drop_last()[j],
            ) by {
                assert(s.drop_last()[j] == s[j]);
            }
        }
        lemma_value_sum_flat(s.drop_last());
        lemma_sum_value_flat_drop(s, 14);
        assert(card_valid(s[s.len() - 1]));
        assert(0 <= value_index(s.last().value) < 14);
    }
}

/// Dropping the last card lowers exactly the one color sum it falls in.
proof fn lemma_sum_color_flat_drop(s: Seq<Card>, k: int)
    requires
        s.len() > 0,
        0 <= k,
    ensures
        sum_color_counts_flat(s, k) == sum_color_counts_flat(s.drop_last(), k) + if 0 <= color_index(
            s.last().color,
        ) < k {
            1nat
        } else {
            0nat
        },
    decreases k,
{
    if k > 0 {
        lemma_sum_color_flat_drop(s, k - 1);
    }
}

/// Dropping the last card lowers exactly the one value sum it falls in.
proof fn lemma_sum_value_flat_drop(s: Seq<Card>, k: int)
    requires
        s.len() > 0,
        0 <= k,
    ensures
        sum_value_counts_flat(s, k) == sum_value_counts_flat(s.drop_last(), k) + if 0 <= value_index(
            s.last().value,
        ) < k {
            1nat
        } else {
            0nat
        },
    decreases k,
{
    if k > 0 {
        lemma_sum_value_flat_drop(s, k - 1);
    }
}

/// Dropping the last hand splits every color sum.
proof fn lemma_sum_color_hands_drop(hh: Seq<Seq<Card>>, k: int)
    requires
        hh.len() > 0,
        0 <= k,
    ensures
        sum_color_counts(hh, k) == sum_color_counts(hh.drop_last(), k) + sum_color_counts_flat(
            hh.last(),
            k,
        ),
    decreases k,
{
    if k > 0 {
        lemma_sum_color_hands_drop(hh, k - 1);
    }
}

/// Dropping the last hand splits every value sum.
proof fn lemma_sum_value_hands_drop(hh: Seq<Seq<Card>>, k: int)
    requires
        hh.len() > 0,
        0 <= k,
    ensures
        sum_value_counts(hh, k) == sum_value_counts(hh.drop_last(), k) + sum_value_counts_flat(
            hh.last(),
            k,
        ),
    decreases k,
{
    if k > 0 {
        lemma_sum_value_hands_drop(hh, k - 1);
    }
}

/// All color sums of an empty hand are zero.
proof fn lemma_sum_color_flat_zero(s: Seq<Card>, k: int)
    requires
        s.len() == 0,
    ensures
        sum_color_counts_flat(s, k) == 0,
    decreases k,
{
    if k > 0 {
        lemma_sum_color_flat_zero(s, k - 1);
    }
}

/// All value sums of an empty hand are zero.
proof fn lemma_sum_value_flat_zero(s: Seq<Card>, k: int)
    requires
        s.len() == 0,
    ensures
        sum_value_counts_flat(s, k) == 0,
    decreases k,
{
    if k > 0 {
        lemma_sum_value_flat_zero(s, k - 1);
    }
}

/// All color sums of an empty batch are zero.
proof fn lemma_sum_color_hands_zero(hh: Seq<Seq<Card>>, k: int)
    requires
        hh.len() == 0,
    ensures
        sum_color_counts(hh, k) == 0,
    decreases k,
{
    if k > 0 {
        lemma_sum_color_hands_zero(hh, k - 1);
    }
}

/// All value sums of an empty batch are zero.
proof fn lemma_sum_value_hands_zero(hh: Seq<Seq<Card>>, k: int)
    requires
        hh.len() == 0,
    ensures
        sum_value_counts(hh, k) == 0,
    decreases k,
{
    if k > 0 {
        lemma_sum_value_hands_zero(hh, k - 1);
    }
}

/// A prefix of the hands never holds more cards than all of them.
proof fn lemma_total_cards_prefix_le(hh: Seq<Seq<Card>>, i: int)
    requires
        0 <= i <= hh.len(),
    ensures
        total_cards(hh.take(i)) <= total_cards(hh),
    decreases hh.len(),
{
    if i == hh.len() {
        assert(hh.take(i) =~= hh);
    } else {
        assert(hh.drop_last().take(i) =~= hh.take(i));
        lemma_total_cards_prefix_le(hh.drop_last(), i);
    }
}

} // verus!
