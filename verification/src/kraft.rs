//! Kraft's inequality: the codewords of a prefix-free code leave room for
//! one another.

use vstd::prelude::*;
use vstd::arithmetic::power2::lemma_pow2_unfold;
use crate::codes::is_binary;
use crate::optimal::{fits_tree, kraft_sum, within};

verus! {

/// The lengths of the codewords.
pub open spec fn lengths(c: Seq<Seq<u8>>) -> Seq<nat> {
    c.map_values(|w: Seq<u8>| w.len())
}

/// No codeword of the row is the beginning of another one in it.
pub open spec fn pairwise_prefix_free(c: Seq<Seq<u8>>) -> bool {
    forall|i: int, j: int|
        0 <= i < c.len() && 0 <= j < c.len() && i != j ==> !(#[trigger] c[i]).is_prefix_of(
            #[trigger] c[j],
        )
}

/// Every codeword of the row is made of bits.
pub open spec fn all_binary(c: Seq<Seq<u8>>) -> bool {
    forall|i: int| 0 <= i < c.len() ==> is_binary(#[trigger] c[i])
}

/// The codewords that begin with `bit`, each without that first bit.
pub open spec fn tails(c: Seq<Seq<u8>>, bit: u8) -> Seq<Seq<u8>>
    decreases c.len(),
{
    if c.len() == 0 {
        Seq::empty()
    } else if c.last().len() > 0 && c.last()[0] == bit {
        tails(c.drop_last(), bit).push(c.last().skip(1))
    } else {
        tails(c.drop_last(), bit)
    }
}

/// The length of the longest codeword.
pub open spec fn longest(c: Seq<Seq<u8>>) -> nat
    decreases c.len(),
{
    if c.len() == 0 {
        0
    } else if c.last().len() >= longest(c.drop_last()) {
        c.last().len()
    } else {
        longest(c.drop_last())
    }
}

/// No codeword is longer than the longest.
pub proof fn lemma_longest(c: Seq<Seq<u8>>)
    ensures
        within(lengths(c), longest(c)),
    decreases c.len(),
{
    if c.len() > 0 {
        lemma_longest(c.drop_last());
        assert forall|i: int| 0 <= i < c.len() implies #[trigger] lengths(c)[i] <= longest(c) by {
            if i < c.len() - 1 {
                assert(lengths(c.drop_last())[i] == lengths(c)[i]);
            }
        }
    }
}

/// Every tail comes from a codeword of the row that begins with the bit.
pub proof fn lemma_tails_come_from(c: Seq<Seq<u8>>, bit: u8, k: int) -> (i: int)
    requires
        0 <= k < tails(c, bit).len(),
    ensures
        0 <= i < c.len(),
        c[i] == seq![bit] + tails(c, bit)[k],
    decreases c.len(),
{
    let front = c.drop_last();
    if c.last().len() > 0 && c.last()[0] == bit && k == tails(front, bit).len() {
        assert(c.last() =~= seq![bit] + c.last().skip(1));
        c.len() - 1
    } else {
        lemma_tails_come_from(front, bit, k)
    }
}

/// The tails of a prefix-free row of codewords are prefix-free, they are
/// made of bits where the codewords are, and each is shorter than the
/// longest codeword may be.
pub proof fn lemma_tails_prefix_free(c: Seq<Seq<u8>>, bit: u8, scale: nat)
    requires
        pairwise_prefix_free(c),
        all_binary(c),
        within(lengths(c), scale),
        scale >= 1,
    ensures
        pairwise_prefix_free(tails(c, bit)),
        all_binary(tails(c, bit)),
        within(lengths(tails(c, bit)), (scale - 1) as nat),
    decreases c.len(),
{
    let t = tails(c, bit);
    if c.len() > 0 {
        let front = c.drop_last();
        assert forall|i: int, j: int|
            0 <= i < front.len() && 0 <= j < front.len() && i != j implies !(#[trigger] front[i]).is_prefix_of(
            #[trigger] front[j],
        ) by {
            assert(front[i] == c[i] && front[j] == c[j]);
        }
        assert forall|i: int| 0 <= i < front.len() implies is_binary(#[trigger] front[i]) by {
            assert(front[i] == c[i]);
        }
        assert forall|i: int| 0 <= i < front.len() implies #[trigger] lengths(front)[i]
            <= scale by {
            assert(lengths(front)[i] == lengths(c)[i]);
        }
        lemma_tails_prefix_free(front, bit, scale);
        let ft = tails(front, bit);
        if c.last().len() > 0 && c.last()[0] == bit {
            let tail = c.last().skip(1);
            assert(c.last() =~= seq![bit] + tail);
            assert forall|i: int, j: int|
                0 <= i < t.len() && 0 <= j < t.len() && i != j implies !(#[trigger] t[i]).is_prefix_of(
                #[trigger] t[j],
            ) by {
                if i < ft.len() && j < ft.len() {
                    assert(t[i] == ft[i] && t[j] == ft[j]);
                } else {
                    let old = if i < ft.len() { i } else { j };
                    let from = lemma_tails_come_from(front, bit, old);
                    assert(c[from] == front[from]);
                    assert(c[from] == seq![bit] + ft[old]);
                    if t[i].is_prefix_of(t[j]) {
                        lemma_prefix_behind_bit(bit, t[i], t[j]);
                        if i < ft.len() {
                            assert(c[from].is_prefix_of(c[c.len() - 1]));
                        } else {
                            assert(c[c.len() - 1].is_prefix_of(c[from]));
                        }
                    }
                }
            }
            assert forall|i: int| 0 <= i < t.len() implies is_binary(#[trigger] t[i]) by {
                if i == ft.len() {
                    assert(is_binary(c[c.len() - 1]));
                    assert forall|b: int| 0 <= b < tail.len() implies #[trigger] tail[b] <= 1 by {
                        assert(tail[b] == c.last()[b + 1]);
                    }
                } else {
                    assert(t[i] == ft[i]);
                }
            }
            assert forall|i: int| 0 <= i < t.len() implies #[trigger] lengths(t)[i] <= scale
                - 1 by {
                if i == ft.len() {
                    assert(lengths(c)[c.len() - 1] <= scale);
                } else {
                    assert(lengths(t)[i] == lengths(ft)[i]);
                }
            }
        }
    }
}

/// Behind one and the same bit, a beginning stays a beginning.
pub proof fn lemma_prefix_behind_bit(bit: u8, a: Seq<u8>, b: Seq<u8>)
    requires
        a.is_prefix_of(b),
    ensures
        (seq![bit] + a).is_prefix_of(seq![bit] + b),
{
    let x = seq![bit] + a;
    let y = seq![bit] + b;
    assert(a =~= b.subrange(0, a.len() as int));
    assert(x =~= y.subrange(0, x.len() as int));
}

/// Kraft's sum of nonempty codewords is that of the tails behind `0` and
/// that of the tails behind `1`, counted at the next smaller scale.
pub proof fn lemma_kraft_sum_splits(c: Seq<Seq<u8>>, scale: nat)
    requires
        all_binary(c),
        forall|i: int| 0 <= i < c.len() ==> (#[trigger] c[i]).len() > 0,
        within(lengths(c), scale),
        scale >= 1,
    ensures
        kraft_sum(lengths(c), scale) == kraft_sum(lengths(tails(c, 0)), (scale - 1) as nat)
            + kraft_sum(lengths(tails(c, 1)), (scale - 1) as nat),
    decreases c.len(),
{
    if c.len() > 0 {
        let front = c.drop_last();
        let last = c.last();
        assert forall|i: int| 0 <= i < front.len() implies is_binary(#[trigger] front[i]) by {
            assert(front[i] == c[i]);
        }
        assert forall|i: int| 0 <= i < front.len() implies (#[trigger] front[i]).len() > 0 by {
            assert(front[i] == c[i]);
        }
        assert forall|i: int| 0 <= i < front.len() implies #[trigger] lengths(front)[i]
            <= scale by {
            assert(lengths(front)[i] == lengths(c)[i]);
        }
        lemma_kraft_sum_splits(front, scale);
        assert(lengths(c).drop_last() =~= lengths(front));
        assert(lengths(c).last() == last.len());
        assert(lengths(c)[c.len() - 1] <= scale);
        assert(is_binary(c[c.len() - 1]));
        assert(last[0] <= 1);
        let bit = last[0];
        let t = tails(c, bit);
        let ft = tails(front, bit);
        assert(t == ft.push(last.skip(1)));
        assert(lengths(t).drop_last() =~= lengths(ft));
        assert(lengths(t).last() == last.len() - 1);
        assert(tails(c, (1 - bit) as u8) == tails(front, (1 - bit) as u8));
    }
}

/// Kraft's inequality: the lengths of the codewords of a prefix-free row
/// leave room for one another.
pub proof fn lemma_kraft(c: Seq<Seq<u8>>, scale: nat)
    requires
        pairwise_prefix_free(c),
        all_binary(c),
        within(lengths(c), scale),
    ensures
        fits_tree(lengths(c), scale),
    decreases scale,
{
    let d = lengths(c);
    if c.len() == 0 {
    } else if exists|i: int| 0 <= i < c.len() && (#[trigger] c[i]).len() == 0 {
        let i = choose|i: int| 0 <= i < c.len() && (#[trigger] c[i]).len() == 0;
        if c.len() > 1 {
            let j = if i == 0 { 1int } else { 0int };
            assert(c[i] =~= c[j].subrange(0, 0));
            assert(c[i].is_prefix_of(c[j]));
        }
        assert(d.drop_last() =~= Seq::<nat>::empty());
        assert(kraft_sum(d.drop_last(), scale) == 0);
        assert(d.last() == 0);
    } else {
        assert(c[0].len() > 0);
        assert(d[0] <= scale);
        let up = (scale - 1) as nat;
        lemma_kraft_sum_splits(c, scale);
        lemma_tails_prefix_free(c, 0, scale);
        lemma_tails_prefix_free(c, 1, scale);
        lemma_kraft(tails(c, 0), up);
        lemma_kraft(tails(c, 1), up);
        lemma_pow2_unfold(scale);
    }
}

} // verus!
