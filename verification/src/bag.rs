//! Fair random piece generation: the "bag randomizer".
//!
//! Shapes are dealt in groups of seven; each group is a uniformly shuffled
//! permutation of the seven shapes, so over every aligned window of seven
//! draws each shape appears exactly once.

use vstd::prelude::*;

use crate::pieces::PieceShape;

verus! {

/// How often `sh` occurs in `s`.
pub open spec fn count_shape(s: Seq<PieceShape>, sh: PieceShape) -> nat
    decreases s.len(),
{
    if s.len() == 0 {
        0
    } else {
        count_shape(s.drop_last(), sh) + if s.last() == sh {
            1nat
        } else {
            0nat
        }
    }
}

/// A complete fair group: seven entries holding each shape exactly once.
pub open spec fn full_bag(s: Seq<PieceShape>) -> bool {
    s.len() == 7 && forall|sh: PieceShape| count_shape(s, sh) == 1
}

/// No shape occurs twice in `s`.
pub open spec fn distinct_shapes(s: Seq<PieceShape>) -> bool {
    forall|i: int, j: int| 0 <= i < j < s.len() ==> s[i] != s[j]
}

/// The queue discipline of the bag randomizer: after the leading partial
/// group (whatever remains of the group currently being consumed, its
/// length the queue length modulo seven), the queue is a chain of complete
/// fair groups. The partial group, being the tail of a fair group, never
/// repeats a shape.
pub open spec fn fair_suffix(q: Seq<PieceShape>) -> bool {
    let r = (q.len() % 7) as int;
    &&& distinct_shapes(q.subrange(0, r))
    &&& forall|g: int|
        0 <= g && r + 7 * g + 7 <= q.len() ==> full_bag(
            #[trigger] q.subrange(r + 7 * g, r + 7 * g + 7),
        )
}

/// The seven shapes in their canonical order: one unshuffled fair group.
pub open spec fn canonical_group() -> Seq<PieceShape> {
    seq![
        PieceShape::L,
        PieceShape::I,
        PieceShape::Z,
        PieceShape::Square,
        PieceShape::T,
        PieceShape::InvertedZ,
        PieceShape::InvertedL,
    ]
}

/// The canonical group holds each shape exactly once.
pub proof fn lemma_canonical_group_full_bag()
    ensures
        full_bag(canonical_group()),
{
    assert forall|sh: PieceShape| count_shape(canonical_group(), sh) == 1 by {
        reveal_with_fuel(count_shape, 8);
        assert(canonical_group().drop_last().drop_last().drop_last().drop_last().drop_last()
            .drop_last().drop_last() =~= Seq::<PieceShape>::empty());
    }
}

/// Every occurring shape is counted at least once.
proof fn lemma_count_at_index(s: Seq<PieceShape>, i: int)
    requires
        0 <= i < s.len(),
    ensures
        count_shape(s, s[i]) >= 1,
    decreases s.len(),
{
    if i == s.len() - 1 {
    } else {
        lemma_count_at_index(s.drop_last(), i);
    }
}

/// A shape standing at two positions is counted at least twice.
proof fn lemma_count_two_indices(s: Seq<PieceShape>, i: int, j: int)
    requires
        0 <= i < j < s.len(),
        s[i] == s[j],
    ensures
        count_shape(s, s[i]) >= 2,
    decreases s.len(),
{
    if j == s.len() - 1 {
        lemma_count_at_index(s.drop_last(), i);
    } else {
        lemma_count_two_indices(s.drop_last(), i, j);
    }
}

/// A complete fair group never repeats a shape.
pub proof fn lemma_full_bag_distinct(s: Seq<PieceShape>)
    requires
        full_bag(s),
    ensures
        distinct_shapes(s),
{
    assert forall|i: int, j: int| 0 <= i < j < s.len() implies s[i] != s[j] by {
        if s[i] == s[j] {
            lemma_count_two_indices(s, i, j);
        }
    }
}

/// Relies on `rand::seq::SliceRandom::shuffle` (rand 0.8): a Fisher-Yates
/// shuffle that reorders the slice in place by element swaps, so the result
/// holds exactly the original elements, each exactly as often as before.
#[verifier::external_body]
fn shuffle_shapes(v: &mut Vec<PieceShape>)
    ensures
        final(v)@.len() == old(v)@.len(),
        forall|sh: PieceShape| count_shape(final(v)@, sh) == count_shape(old(v)@, sh),
{
    rand::seq::SliceRandom::shuffle(v.as_mut_slice(), &mut rand::thread_rng());
}

/// Relies on `rand::Rng::gen_range` (rand 0.8): returns a value uniformly
/// drawn from the given range; the range `0..7` is never empty, so the call
/// cannot panic and the result is below seven.
#[verifier::external_body]
pub(crate) fn random_shape_index() -> (r: u8)
    ensures
        r < 7,
{
    rand::Rng::gen_range(&mut rand::thread_rng(), 0u8..7u8)
}

/// One freshly shuffled fair group: a uniformly random permutation of the
/// seven shapes.
fn shuffled_group() -> (r: Vec<PieceShape>)
    ensures
        full_bag(r@),
{
    let mut group: Vec<PieceShape> = Vec::new();
    group.push(PieceShape::L);
    group.push(PieceShape::I);
    group.push(PieceShape::Z);
    group.push(PieceShape::Square);
    group.push(PieceShape::T);
    group.push(PieceShape::InvertedZ);
    group.push(PieceShape::InvertedL);
    proof {
        assert(group@ =~= canonical_group());
        lemma_canonical_group_full_bag();
    }
    shuffle_shapes(&mut group);
    group
}

impl PieceShape {
    /// `n` complete shuffled fair groups, concatenated: `7 * n` shapes in
    /// all, and every aligned window of seven holds each shape exactly
    /// once.
    pub fn generate_fair_collection(n: usize) -> (r: Vec<PieceShape>)
        requires
            n <= 1000,
        ensures
            r@.len() == 7 * n,
            forall|g: int|
                0 <= g < n ==> full_bag(#[trigger] r@.subrange(7 * g, 7 * g + 7)),
    {
        let mut r: Vec<PieceShape> = Vec::new();
        let mut g: usize = 0;
        while g < n
            invariant
                g <= n,
                n <= 1000,
                r@.len() == 7 * g,
                forall|k: int|
                    0 <= k < g ==> full_bag(#[trigger] r@.subrange(7 * k, 7 * k + 7)),
            decreases n - g,
        {
            let mut group = shuffled_group();
            let ghost prev = r@;
            let ghost grp = group@;
            r.append(&mut group);
            proof {
                assert(r@ == prev + grp);
                assert forall|k: int| 0 <= k < g + 1 implies full_bag(
                    #[trigger] r@.subrange(7 * k, 7 * k + 7),
                ) by {
                    if k < g {
                        assert(r@.subrange(7 * k, 7 * k + 7) =~= prev.subrange(7 * k, 7 * k + 7));
                    } else {
                        assert(r@.subrange(7 * k, 7 * k + 7) =~= grp);
                    }
                }
            }
            g += 1;
        }
        r
    }
}

/// Popping the front of a fair queue leaves a fair queue.
pub proof fn lemma_fair_pop(q: Seq<PieceShape>)
    requires
        fair_suffix(q),
        q.len() >= 1,
    ensures
        fair_suffix(q.subrange(1, q.len() as int)),
{
    let n = q.len() as int;
    let r = (q.len() % 7) as int;
    let q2 = q.subrange(1, n);
    let r2 = (q2.len() % 7) as int;
    if r == 0 {
        assert(n % 7 == 0);
        assert(n >= 7);
        assert(r2 == 6);
        // The old first window loses its head; a fair group never repeats
        // a shape, so the remainder is distinct.
        let g0: int = 0;
        assert(full_bag(q.subrange(r + 7 * g0, r + 7 * g0 + 7)));
        assert(q.subrange(r + 7 * g0, r + 7 * g0 + 7) =~= q.subrange(0, 7));
        lemma_full_bag_distinct(q.subrange(0, 7));
        assert forall|i: int, j: int| 0 <= i < j < 6 implies q2.subrange(0, 6)[i] != q2.subrange(
            0,
            6,
        )[j] by {
            assert(q2.subrange(0, 6)[i] == q.subrange(0, 7)[i + 1]);
            assert(q2.subrange(0, 6)[j] == q.subrange(0, 7)[j + 1]);
        }
        assert forall|g: int| 0 <= g && 6 + 7 * g + 7 <= q2.len() implies full_bag(
            #[trigger] q2.subrange(6 + 7 * g, 6 + 7 * g + 7),
        ) by {
            assert(q2.subrange(6 + 7 * g, 6 + 7 * g + 7) =~= q.subrange(
                7 * (g + 1),
                7 * (g + 1) + 7,
            ));
            assert(full_bag(q.subrange(0 + 7 * (g + 1), 0 + 7 * (g + 1) + 7)));
        }
    } else {
        assert(r2 == r - 1);
        assert forall|i: int, j: int| 0 <= i < j < r2 implies q2.subrange(0, r2)[i] != q2.subrange(
            0,
            r2,
        )[j] by {
            assert(q2.subrange(0, r2)[i] == q.subrange(0, r)[i + 1]);
            assert(q2.subrange(0, r2)[j] == q.subrange(0, r)[j + 1]);
        }
        assert forall|g: int| 0 <= g && r2 + 7 * g + 7 <= q2.len() implies full_bag(
            #[trigger] q2.subrange(r2 + 7 * g, r2 + 7 * g + 7),
        ) by {
            assert(q2.subrange(r2 + 7 * g, r2 + 7 * g + 7) =~= q.subrange(
                r + 7 * g,
                r + 7 * g + 7,
            ));
            assert(full_bag(q.subrange(r + 7 * g, r + 7 * g + 7)));
        }
    }
}

/// Appending complete fair groups to a fair queue leaves a fair queue.
pub proof fn lemma_fair_append(q: Seq<PieceShape>, gs: Seq<PieceShape>)
    requires
        fair_suffix(q),
        gs.len() % 7 == 0,
        forall|g: int|
            0 <= g && 7 * g + 7 <= gs.len() ==> full_bag(#[trigger] gs.subrange(7 * g, 7 * g + 7)),
    ensures
        fair_suffix(q + gs),
{
    let n = q.len() as int;
    let m = gs.len() as int;
    let r = (q.len() % 7) as int;
    let c = q + gs;
    let n0 = n / 7;
    let m0 = m / 7;
    assert(n == 7 * n0 + r) by {
        vstd::arithmetic::div_mod::lemma_fundamental_div_mod(n, 7);
    }
    assert(m == 7 * m0) by {
        vstd::arithmetic::div_mod::lemma_fundamental_div_mod(m, 7);
    }
    assert(c.len() == n + m);
    assert((n + m) % 7 == r) by {
        vstd::arithmetic::div_mod::lemma_fundamental_div_mod(n + m, 7);
        vstd::arithmetic::div_mod::lemma_fundamental_div_mod(n, 7);
        let k = (n + m) / 7;
        // n + m == 7 * k + (n + m) % 7 and n + m == 7 * (n0 + m0) + r, with
        // both remainders in [0, 7); equal numbers leave equal remainders.
        assert(7 * k + (n + m) % 7 == 7 * (n0 + m0) + r);
        assert(0 <= (n + m) % 7 < 7) by {
            vstd::arithmetic::div_mod::lemma_mod_division_less_than_divisor(n + m, 7);
        }
        assert(0 <= r < 7);
        vstd::arithmetic::mul::lemma_mul_is_distributive_sub(7, k, n0 + m0);
        assert(7 * (k - (n0 + m0)) == r - (n + m) % 7);
        assert(-7 < r - (n + m) % 7 < 7);
        assert(k - (n0 + m0) == 0) by {
            if k - (n0 + m0) >= 1 {
                vstd::arithmetic::mul::lemma_mul_inequality(1, k - (n0 + m0), 7);
            }
            if k - (n0 + m0) <= -1 {
                vstd::arithmetic::mul::lemma_mul_inequality(k - (n0 + m0), -1, 7);
            }
        }
    }
    assert(r <= n);
    assert(c.subrange(0, r) =~= q.subrange(0, r));
    assert forall|g: int| 0 <= g && r + 7 * g + 7 <= c.len() implies full_bag(
        #[trigger] c.subrange(r + 7 * g, r + 7 * g + 7),
    ) by {
        if r + 7 * g + 7 <= n {
            assert(c.subrange(r + 7 * g, r + 7 * g + 7) =~= q.subrange(r + 7 * g, r + 7 * g + 7));
            assert(full_bag(q.subrange(r + 7 * g, r + 7 * g + 7)));
        } else {
            // The window lies wholly inside the appended groups: windows
            // are aligned, so it cannot straddle the seam.
            assert(g >= n0) by {
                if g < n0 {
                    assert(g + 1 <= n0);
                    vstd::arithmetic::mul::lemma_mul_inequality(g + 1, n0, 7);
                    assert(7 * (g + 1) <= 7 * n0);
                }
            }
            let g2 = g - n0;
            assert(r + 7 * g - n == 7 * g2 - 7 * n0 + 7 * n0) by {
                vstd::arithmetic::mul::lemma_mul_is_distributive_sub(7, g, n0);
            }
            assert(c.subrange(r + 7 * g, r + 7 * g + 7) =~= gs.subrange(7 * g2, 7 * g2 + 7));
            assert(full_bag(gs.subrange(7 * g2, 7 * g2 + 7)));
        }
    }
}

} // verus!
