//! Shuffle algorithms: a uniform shuffle delegated to the random source,
//! and verified riffle and overhand shuffles built on bounded random
//! draws. Each one permutes the deck: the multiset of cards is invariant.
use vstd::prelude::*;
use crate::cards::{count_card, lemma_count_card_is_multiset_count, Card};
use crate::rng::{fresh_rng, rand_in_range, shuffle_in_place};

verus! {

use vstd::seq_lib::lemma_multiset_commutative;
use vstd::seq_lib::group_to_multiset_ensures;
use vstd::multiset::group_multiset_axioms;

/// Permutation invariance, read at the level of individual cards: two
/// decks with the same multiset hold every card the same number of
/// times, so no shuffle changes any (color, value) count.
pub proof fn lemma_permutation_preserves_counts(a: Seq<Card>, b: Seq<Card>, target: Card)
    requires
        a.to_multiset() == b.to_multiset(),
    ensures
        count_card(a, target) == count_card(b, target),
{
    lemma_count_card_is_multiset_count(a, target);
    lemma_count_card_is_multiset_count(b, target);
}

/// Applies a uniformly random permutation to the full deck, `times` times
/// over. The multiset of cards is unchanged; only the order may differ,
/// and zero repetitions leave the deck untouched.
pub fn shuffle_deck(deck: &mut Vec<Card>, times: usize)
    ensures
        final(deck)@.to_multiset() == old(deck)@.to_multiset(),
        final(deck)@.len() == old(deck)@.len(),
        times == 0 ==> final(deck)@ == old(deck)@,
{
    let mut rng = fresh_rng();
    let mut t: usize = 0;
    while t < times
        invariant
            t <= times,
            deck@.to_multiset() == old(deck)@.to_multiset(),
            deck@.len() == old(deck)@.len(),
            times == 0 ==> deck@ == old(deck)@,
        decreases times - t,
    {
        shuffle_in_place(deck, &mut rng);
        t = t + 1;
    }
}

/// `c` interleaves `a` and `b`: every element of `c` comes from the
/// front of one of the two, so each of `a` and `b` occurs in `c` as a
/// subsequence in its original relative order, and together they cover
/// all of `c`.
pub open spec fn is_interleaving(a: Seq<Card>, b: Seq<Card>, c: Seq<Card>) -> bool
    decreases c.len(),
{
    if c.len() == 0 {
        a.len() == 0 && b.len() == 0
    } else {
        ||| (a.len() > 0 && a.first() == c.first() && is_interleaving(
            a.drop_first(),
            b,
            c.drop_first(),
        ))
        ||| (b.len() > 0 && b.first() == c.first() && is_interleaving(
            a,
            b.drop_first(),
            c.drop_first(),
        ))
    }
}

/// An interleaving grows on the left: appending a card to `a` and to the
/// end of the merge keeps it an interleaving.
proof fn lemma_interleaving_push_left(a: Seq<Card>, b: Seq<Card>, c: Seq<Card>, x: Card)
    requires
        is_interleaving(a, b, c),
    ensures
        is_interleaving(a.push(x), b, c.push(x)),
    decreases c.len(),
{
    if c.len() == 0 {
        assert(a.push(x).first() == x);
        assert(c.push(x).first() == x);
        assert(a.push(x).drop_first() =~= a);
        assert(c.push(x).drop_first() =~= c);
    } else {
        if a.len() > 0 && a.first() == c.first() && is_interleaving(
            a.drop_first(),
            b,
            c.drop_first(),
        ) {
            lemma_interleaving_push_left(a.drop_first(), b, c.drop_first(), x);
            assert(a.push(x).drop_first() =~= a.drop_first().push(x));
            assert(c.push(x).drop_first() =~= c.drop_first().push(x));
            assert(a.push(x).first() == c.push(x).first());
        } else {
            lemma_interleaving_push_left(a, b.drop_first(), c.drop_first(), x);
            assert(c.push(x).drop_first() =~= c.drop_first().push(x));
            assert(b.first() == c.push(x).first());
            assert(is_interleaving(a.push(x), b.drop_first(), c.drop_first().push(x)));
        }
    }
}

/// An interleaving grows on the right, symmetrically.
proof fn lemma_interleaving_push_right(a: Seq<Card>, b: Seq<Card>, c: Seq<Card>, x: Card)
    requires
        is_interleaving(a, b, c),
    ensures
        is_interleaving(a, b.push(x), c.push(x)),
    decreases c.len(),
{
    if c.len() == 0 {
        assert(b.push(x).first() == x);
        assert(c.push(x).first() == x);
        assert(b.push(x).drop_first() =~= b);
        assert(c.push(x).drop_first() =~= c);
    } else {
        if a.len() > 0 && a.first() == c.first() && is_interleaving(
            a.drop_first(),
            b,
            c.drop_first(),
        ) {
            lemma_interleaving_push_right(a.drop_first(), b, c.drop_first(), x);
            assert(c.push(x).drop_first() =~= c.drop_first().push(x));
            assert(a.first() == c.push(x).first());
            assert(is_interleaving(a.drop_first(), b.push(x), c.drop_first().push(x)));
        } else {
            lemma_interleaving_push_right(a, b.drop_first(), c.drop_first(), x);
            assert(b.push(x).drop_first() =~= b.drop_first().push(x));
            assert(c.push(x).drop_first() =~= c.drop_first().push(x));
            assert(b.push(x).first() == c.push(x).first());
        }
    }
}

/// `c` is a genuine riffle of the first `la` cards of `a` and the first
/// `lb` cards of `b`: read as a sequence of rounds, each round appended
/// a run `sa` of up to 3 cards from `a`'s unconsumed front and then a
/// run `sb` of up to 3 cards from `b`'s, a run being empty only once its
/// whole half was already consumed, and every round moving at least one
/// card.
pub open spec fn is_riffle_rounds(
    a: Seq<Card>,
    b: Seq<Card>,
    la: int,
    lb: int,
    c: Seq<Card>,
) -> bool
    decreases la + lb,
{
    if la <= 0 && lb <= 0 {
        c.len() == 0
    } else {
        exists|sa: Seq<Card>, sb: Seq<Card>, cp: Seq<Card>|
            #![trigger cp + sa + sb]
            {
                &&& sa.len() <= 3
                &&& sb.len() <= 3
                &&& sa.len() <= la
                &&& sb.len() <= lb
                &&& sa.len() + sb.len() >= 1
                &&& (sa.len() == 0 ==> la == a.len())
                &&& (sb.len() == 0 ==> lb == b.len())
                &&& sa == a.subrange(la - sa.len(), la)
                &&& sb == b.subrange(lb - sb.len(), lb)
                &&& c == cp + sa + sb
                &&& is_riffle_rounds(a, b, la - sa.len(), lb - sb.len(), cp)
            }
    }
}

/// `c` is a genuine riffle of all of `a` and all of `b`.
pub open spec fn is_riffle_merge(a: Seq<Card>, b: Seq<Card>, c: Seq<Card>) -> bool {
    is_riffle_rounds(a, b, a.len() as int, b.len() as int, c)
}

/// Imperfect riffle shuffle: splits the deck at a point drawn uniformly
/// from [len/2 - 2, len/2 + 2], then interleaves the halves by taking
/// random runs of 1 to 3 cards from each side in turn, skipping a side
/// once it is exhausted: the result interleaves the two halves, each kept
/// in its relative order. Decks shorter than 4 cards are left unchanged.
/// The multiset of cards is unchanged; only the order may differ.
pub fn riffle_shuffle(deck: &mut Vec<Card>)
    ensures
        final(deck)@.to_multiset() == old(deck)@.to_multiset(),
        final(deck)@.len() == old(deck)@.len(),
        old(deck)@.len() < 4 ==> final(deck)@ == old(deck)@,
        old(deck)@.len() >= 4 ==> exists|mid: int|
            #![trigger old(deck)@.subrange(0, mid)]
            old(deck)@.len() / 2 - 2 <= mid <= old(deck)@.len() / 2 + 2 && is_interleaving(
                old(deck)@.subrange(0, mid),
                old(deck)@.subrange(mid, old(deck)@.len() as int),
                final(deck)@,
            ) && is_riffle_merge(
                old(deck)@.subrange(0, mid),
                old(deck)@.subrange(mid, old(deck)@.len() as int),
                final(deck)@,
            ),
{
    broadcast use group_to_multiset_ensures;
    broadcast use group_multiset_axioms;

    let len = deck.len();
    if len < 4 {
        return ;
    }
    let mut rng = fresh_rng();
    let mid = rand_in_range(&mut rng, len / 2 - 2, len / 2 + 2);
    assert(mid <= len);
    let mut shuffled: Vec<Card> = Vec::new();
    let mut li: usize = 0;
    let mut ri: usize = mid;
    proof {
        assert(deck@.subrange(0, 0).len() == 0);
        assert(deck@.subrange(mid as int, mid as int).len() == 0);
        assert(is_interleaving(
            deck@.subrange(0, 0),
            deck@.subrange(mid as int, mid as int),
            shuffled@,
        ));
        assert(is_riffle_rounds(
            deck@.subrange(0, mid as int),
            deck@.subrange(mid as int, len as int),
            0,
            0,
            shuffled@,
        ));
    }
    while li < mid || ri < len
        invariant
            li <= mid <= ri <= len,
            len == deck@.len(),
            shuffled@.len() == li + (ri - mid),
            shuffled@.to_multiset() == deck@.subrange(0, li as int).to_multiset().add(
                deck@.subrange(mid as int, ri as int).to_multiset(),
            ),
            is_interleaving(
                deck@.subrange(0, li as int),
                deck@.subrange(mid as int, ri as int),
                shuffled@,
            ),
            is_riffle_rounds(
                deck@.subrange(0, mid as int),
                deck@.subrange(mid as int, len as int),
                li as int,
                ri - mid,
                shuffled@,
            ),
        decreases (mid - li) + (len - ri),
    {
        broadcast use group_to_multiset_ensures;
        broadcast use group_multiset_axioms;

        let ghost li0 = li;
        let ghost ri0 = ri;
        let ghost c0 = shuffled@;
        proof {
            assert(c0 + deck@.subrange(li0 as int, li0 as int) =~= c0);
        }
        let take_left = rand_in_range(&mut rng, 1, 3);
        let mut k: usize = 0;
        while k < take_left && li < mid
            invariant
                li == li0 + k,
                li <= mid <= ri <= len,
                k <= take_left,
                len == deck@.len(),
                shuffled@.len() == li + (ri - mid),
                shuffled@.to_multiset() == deck@.subrange(0, li as int).to_multiset().add(
                    deck@.subrange(mid as int, ri as int).to_multiset(),
                ),
                is_interleaving(
                    deck@.subrange(0, li as int),
                    deck@.subrange(mid as int, ri as int),
                    shuffled@,
                ),
                shuffled@ == c0 + deck@.subrange(li0 as int, li as int),
            decreases take_left - k,
        {
            broadcast use group_to_multiset_ensures;
            broadcast use group_multiset_axioms;

            assert(deck@.subrange(0, li as int + 1) =~= deck@.subrange(0, li as int).push(
                deck@[li as int],
            ));
            proof {
                lemma_interleaving_push_left(
                    deck@.subrange(0, li as int),
                    deck@.subrange(mid as int, ri as int),
                    shuffled@,
                    deck@[li as int],
                );
                assert(deck@.subrange(li0 as int, li as int + 1) =~= deck@.subrange(
                    li0 as int,
                    li as int,
                ).push(deck@[li as int]));
                assert(c0 + deck@.subrange(li0 as int, li as int + 1) =~= (c0 + deck@.subrange(
                    li0 as int,
                    li as int,
                )).push(deck@[li as int]));
            }
            shuffled.push(deck[li]);
            li = li + 1;
            k = k + 1;
        }
        proof {
            assert(li - li0 <= 3);
            assert(li == li0 ==> li == mid);
        }
        let ghost c1 = shuffled@;
        proof {
            assert(c1 + deck@.subrange(ri0 as int, ri0 as int) =~= c1);
        }
        let take_right = rand_in_range(&mut rng, 1, 3);
        let mut k2: usize = 0;
        while k2 < take_right && ri < len
            invariant
                ri == ri0 + k2,
                li <= mid <= ri <= len,
                k2 <= take_right,
                len == deck@.len(),
                shuffled@.len() == li + (ri - mid),
                shuffled@.to_multiset() == deck@.subrange(0, li as int).to_multiset().add(
                    deck@.subrange(mid as int, ri as int).to_multiset(),
                ),
                is_interleaving(
                    deck@.subrange(0, li as int),
                    deck@.subrange(mid as int, ri as int),
                    shuffled@,
                ),
                c1 == c0 + deck@.subrange(li0 as int, li as int),
                shuffled@ == c1 + deck@.subrange(ri0 as int, ri as int),
            decreases take_right - k2,
        {
            broadcast use group_to_multiset_ensures;
            broadcast use group_multiset_axioms;

            assert(deck@.subrange(mid as int, ri as int + 1) =~= deck@.subrange(
                mid as int,
                ri as int,
            ).push(deck@[ri as int]));
            proof {
                lemma_interleaving_push_right(
                    deck@.subrange(0, li as int),
                    deck@.subrange(mid as int, ri as int),
                    shuffled@,
                    deck@[ri as int],
                );
                assert(deck@.subrange(ri0 as int, ri as int + 1) =~= deck@.subrange(
                    ri0 as int,
                    ri as int,
                ).push(deck@[ri as int]));
                assert(c1 + deck@.subrange(ri0 as int, ri as int + 1) =~= (c1 + deck@.subrange(
                    ri0 as int,
                    ri as int,
                )).push(deck@[ri as int]));
            }
            shuffled.push(deck[ri]);
            ri = ri + 1;
            k2 = k2 + 1;
        }
        proof {
            if li0 < mid {
                assert(li > li0);
            } else {
                assert(ri0 < len);
                assert(ri > ri0);
            }
            assert(ri - ri0 <= 3);
            assert(ri == ri0 ==> ri == len);
            let a = deck@.subrange(0, mid as int);
            let b = deck@.subrange(mid as int, len as int);
            let seg1 = deck@.subrange(li0 as int, li as int);
            let seg2 = deck@.subrange(ri0 as int, ri as int);
            assert(seg1 =~= a.subrange(li - seg1.len(), li as int));
            assert(seg2 =~= b.subrange(ri - mid - seg2.len(), ri - mid));
            assert(shuffled@ == c0 + seg1 + seg2);
            assert(is_riffle_rounds(a, b, li0 as int, ri0 - mid, c0));
            assert(is_riffle_rounds(a, b, li as int, ri - mid, shuffled@));
        }
    }
    proof {
        assert(deck@ =~= deck@.subrange(0, mid as int) + deck@.subrange(mid as int, len as int));
        lemma_multiset_commutative(deck@.subrange(0, mid as int), deck@.subrange(
            mid as int,
            len as int,
        ));
        assert(is_interleaving(
            deck@.subrange(0, mid as int),
            deck@.subrange(mid as int, len as int),
            shuffled@,
        ));
        assert(deck@.subrange(0, mid as int).len() == mid);
        assert(deck@.subrange(mid as int, len as int).len() == len - mid);
        assert(is_riffle_merge(
            deck@.subrange(0, mid as int),
            deck@.subrange(mid as int, len as int),
            shuffled@,
        ));
    }
    *deck = shuffled;
}

/// `c` is one overhand pass over `d`: `d` splits into front chunks of 1
/// to 10 cards each (never more than remain when the chunk is taken),
/// and `c` is those chunks concatenated in reverse order, each chunk's
/// internal order kept.
pub open spec fn is_overhand_pass(d: Seq<Card>, c: Seq<Card>) -> bool
    decreases d.len(),
{
    if d.len() == 0 {
        c.len() == 0
    } else {
        c.len() == d.len() && exists|k: int|
            1 <= k <= 10 && k <= d.len() && c.subrange(d.len() - k, d.len() as int) == d.subrange(
                0,
                k,
            ) && is_overhand_pass(d.skip(k), c.subrange(0, d.len() - k))
    }
}

/// `c` is the result of `passes` overhand passes over `d`; zero passes
/// leave the deck as it was.
pub open spec fn is_overhand_shuffle(d: Seq<Card>, c: Seq<Card>, passes: int) -> bool
    decreases passes,
{
    if passes <= 0 {
        c == d
    } else {
        exists|m: Seq<Card>|
            is_overhand_shuffle(d, m, passes - 1) && #[trigger] is_overhand_pass(m, c)
    }
}

/// One more front chunk taken from the rest of the deck lands at the
/// front of the pass result.
proof fn lemma_overhand_pass_extend(d: Seq<Card>, c: Seq<Card>, seg: Seq<Card>)
    requires
        is_overhand_pass(d, c),
        1 <= seg.len() <= 10,
    ensures
        is_overhand_pass(d + seg, seg + c),
    decreases d.len(),
{
    let dn = d + seg;
    let cn = seg + c;
    if d.len() == 0 {
        let k = seg.len() as int;
        assert(dn =~= seg);
        assert(cn =~= seg);
        assert(cn.subrange(dn.len() - k, dn.len() as int) =~= dn.subrange(0, k));
        assert(cn.subrange(0, dn.len() - k).len() == 0);
        assert(dn.skip(k).len() == 0);
        assert(is_overhand_pass(dn.skip(k), cn.subrange(0, dn.len() - k)));
        assert(is_overhand_pass(dn, cn));
    } else {
        let k = choose|k: int|
            1 <= k <= 10 && k <= d.len() && c.subrange(d.len() - k, d.len() as int) == d.subrange(
                0,
                k,
            ) && is_overhand_pass(d.skip(k), c.subrange(0, d.len() - k));
        lemma_overhand_pass_extend(d.skip(k), c.subrange(0, d.len() - k), seg);
        assert(dn.subrange(0, k) =~= d.subrange(0, k));
        assert(cn.subrange(dn.len() - k, dn.len() as int) =~= c.subrange(
            d.len() - k,
            d.len() as int,
        ));
        assert(dn.skip(k) =~= d.skip(k) + seg);
        assert(cn.subrange(0, dn.len() - k) =~= seg + c.subrange(0, d.len() - k));
        assert(is_overhand_pass(dn.skip(k), cn.subrange(0, dn.len() - k)));
        assert(is_overhand_pass(dn, cn));
    }
}

/// Overhand shuffle: for each pass, repeatedly moves a random chunk of 1
/// to min(10, remaining) cards from the front of the deck to the front of
/// the sequence being built, so later chunks end up earlier: each pass
/// turns the deck into its front chunks concatenated in reverse order.
/// The multiset of cards is unchanged, and zero passes leave the deck
/// untouched.
pub fn overhand_shuffle(deck: &mut Vec<Card>, passes: usize)
    ensures
        final(deck)@.to_multiset() == old(deck)@.to_multiset(),
        final(deck)@.len() == old(deck)@.len(),
        is_overhand_shuffle(old(deck)@, final(deck)@, passes as int),
        passes == 0 ==> final(deck)@ == old(deck)@,
{
    let mut rng = fresh_rng();
    let mut p: usize = 0;
    proof {
        assert(is_overhand_shuffle(old(deck)@, deck@, 0));
    }
    while p < passes
        invariant
            p <= passes,
            deck@.to_multiset() == old(deck)@.to_multiset(),
            deck@.len() == old(deck)@.len(),
            is_overhand_shuffle(old(deck)@, deck@, p as int),
            p == 0 ==> deck@ == old(deck)@,
        decreases passes - p,
    {
        let ghost before = deck@;
        overhand_pass(deck, &mut rng);
        proof {
            assert(is_overhand_pass(before, deck@));
            assert(is_overhand_shuffle(old(deck)@, deck@, p as int + 1));
        }
        p = p + 1;
    }
}

/// One overhand pass; see `overhand_shuffle`.
fn overhand_pass(deck: &mut Vec<Card>, rng: &mut rand::rngs::ThreadRng)
    ensures
        final(deck)@.to_multiset() == old(deck)@.to_multiset(),
        final(deck)@.len() == old(deck)@.len(),
        is_overhand_pass(old(deck)@, final(deck)@),
{
    broadcast use group_to_multiset_ensures;
    broadcast use group_multiset_axioms;

    let len = deck.len();
    let mut shuffled: Vec<Card> = Vec::new();
    let mut pos: usize = 0;
    proof {
        assert(deck@.subrange(0, 0).len() == 0);
        assert(is_overhand_pass(deck@.subrange(0, 0), shuffled@));
    }
    while pos < len
        invariant
            pos <= len,
            len == deck@.len(),
            shuffled@.len() == pos,
            shuffled@.to_multiset() == deck@.subrange(0, pos as int).to_multiset(),
            is_overhand_pass(deck@.subrange(0, pos as int), shuffled@),
        decreases len - pos,
    {
        broadcast use group_to_multiset_ensures;
        broadcast use group_multiset_axioms;

        let remaining = len - pos;
        let max_chunk = if remaining < 10 {
            remaining
        } else {
            10
        };
        let chunk = rand_in_range(rng, 1, max_chunk);
        let mut next: Vec<Card> = Vec::new();
        let mut i: usize = 0;
        while i < chunk
            invariant
                i <= chunk,
                pos + chunk <= len,
                len == deck@.len(),
                next@ == deck@.subrange(pos as int, pos + i as int),
            decreases chunk - i,
        {
            assert(deck@.subrange(pos as int, pos + i as int + 1) =~= deck@.subrange(
                pos as int,
                pos + i as int,
            ).push(deck@[pos + i as int]));
            next.push(deck[pos + i]);
            i = i + 1;
        }
        let ghost shuf0 = shuffled@;
        next.append(&mut shuffled);
        proof {
            let seg = deck@.subrange(pos as int, pos + chunk as int);
            lemma_multiset_commutative(seg, shuf0);
            assert(deck@.subrange(0, pos + chunk as int) =~= deck@.subrange(0, pos as int) + seg);
            lemma_multiset_commutative(deck@.subrange(0, pos as int), seg);
            assert(next@.to_multiset() =~= deck@.subrange(0, pos + chunk as int).to_multiset());
            lemma_overhand_pass_extend(deck@.subrange(0, pos as int), shuf0, seg);
            assert(next@ == seg + shuf0);
            assert(is_overhand_pass(deck@.subrange(0, pos + chunk as int), next@));
        }
        shuffled = next;
        pos = pos + chunk;
    }
    proof {
        assert(deck@.subrange(0, len as int) =~= deck@);
    }
    *deck = shuffled;
}

} // verus!
