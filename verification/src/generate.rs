//! Making a board from a seed: a seeded generator chooses the side of the
//! board and, cell by cell, which of the values that are left goes next.

use crate::board::{is_square, Input};
use crate::tally::{cells, lemma_cells_determine_grid, lemma_flat_index, lemma_flat_split, tally};
use rand::rngs::StdRng;
use rand::Rng;
use rand::SeedableRng;
use vstd::prelude::*;
use vstd::seq_lib::{to_multiset_build, to_multiset_remove};

verus! {

/// The seeded generator of the `rand` crate. Nothing inside it is visible
/// here; the contracts below speak of its state through `rng_state`.
#[verifier::external_type_specification]
#[verifier::external_body]
pub struct ExStdRng(StdRng);

/// The state that a generator is in. Two generators in one state give the
/// same numbers from then on.
pub uninterp spec fn rng_state(rng: StdRng) -> Seq<u8>;

/// The state of the generator that `StdRng::seed_from_u64` makes of a seed.
pub uninterp spec fn seeded_state(seed: u64) -> Seq<u8>;

/// What `gen_range(lo..hi)` does to a generator in a given state: the number
/// that it returns, and the state that it leaves the generator in.
pub uninterp spec fn drawn(state: Seq<u8>, lo: u64, hi: u64) -> (u64, Seq<u8>);

/// `StdRng::seed_from_u64`: the generator is a function of the seed alone.
/// The crate documents the construction as fixed: the same seed gives the
/// same generator in every run.
#[verifier::external_body]
fn seeded(seed: u64) -> (rng: StdRng)
    ensures
        rng_state(rng) == seeded_state(seed),
{
    StdRng::seed_from_u64(seed)
}

/// `Rng::gen_range` on a half-open range of `u64`: the number returned lies
/// in the range, and it and the state left behind are functions of the state
/// before and of the range. The call panics on an empty range, hence the
/// `requires`. The numbers are drawn as `u64` so that they do not depend on
/// the width of `usize`.
#[verifier::external_body]
fn next_in_range(rng: &mut StdRng, lo: u64, hi: u64) -> (r: u64)
    requires
        lo < hi,
    ensures
        lo <= r < hi,
        r == drawn(rng_state(*old(rng)), lo, hi).0,
        rng_state(*final(rng)) == drawn(rng_state(*old(rng)), lo, hi).1,
{
    rng.gen_range(lo..hi)
}

/// The smallest and the largest side of a generated board.
pub const MIN_SIZE: usize = 4;

pub const MAX_SIZE: usize = 22;

/// The values to place on a board of `2 * half` cells: each value below
/// `half` twice.
pub open spec fn pool(half: nat) -> Seq<usize> {
    Seq::new(2 * half, |k: int| (k / 2) as usize)
}

/// `picks` can deal out `n` values: the pick at step `k` is an index into
/// the `n - k` values that are left.
pub open spec fn valid_picks(n: int, picks: Seq<usize>) -> bool {
    &&& picks.len() == n
    &&& forall|k: int| 0 <= k < n ==> (#[trigger] picks[k]) < n - k
}

/// The values that are left after the first `k` picks were taken out.
pub open spec fn left_after(values: Seq<usize>, picks: Seq<usize>, k: int) -> Seq<usize>
    decreases k,
{
    if k <= 0 {
        values
    } else {
        left_after(values, picks, k - 1).remove(picks[k - 1] as int)
    }
}

/// The values in the order in which the picks take them out: each pick takes
/// the value at its index among those that are left.
pub open spec fn dealt(values: Seq<usize>, picks: Seq<usize>) -> Seq<usize> {
    Seq::new(picks.len(), |k: int| left_after(values, picks, k)[picks[k] as int])
}

/// A grid holds every value below half the number of its cells exactly
/// twice, and no other value.
pub open spec fn is_paired(g: Seq<Seq<usize>>) -> bool {
    forall|v: usize|
        tally(g).count(v) == (if v < g.len() * g.len() / 2 {
            2nat
        } else {
            0nat
        })
}

/// The pool holds each value below `half` twice and nothing else.
pub proof fn lemma_pool_tally(half: nat, v: usize)
    requires
        half <= usize::MAX,
    ensures
        pool(half).to_multiset().count(v) == (if v < half {
            2nat
        } else {
            0nat
        }),
    decreases half,
{
    if half == 0 {
        assert(pool(0) =~= Seq::<usize>::empty());
        Seq::<usize>::empty().to_multiset_ensures();
        assert(pool(0).to_multiset().len() == 0);
        if pool(0).to_multiset().count(v) > 0 {
            vstd::multiset::axiom_count_le_len(pool(0).to_multiset(), v);
        }
    } else {
        let h = (half - 1) as nat;
        lemma_pool_tally(h, v);
        let last = h as usize;
        assert(pool(half) =~= pool(h).push(last).push(last));
        to_multiset_build(pool(h), last);
        to_multiset_build(pool(h).push(last), last);
    }
}

/// After `k` picks, `n - k` values are left.
pub proof fn lemma_left_after_len(values: Seq<usize>, picks: Seq<usize>, k: int)
    requires
        valid_picks(values.len() as int, picks),
        0 <= k <= picks.len(),
    ensures
        left_after(values, picks, k).len() == values.len() - k,
    decreases k,
{
    if k > 0 {
        lemma_left_after_len(values, picks, k - 1);
    }
}

/// What was dealt in the first `k` picks, together with what is left, is
/// what there was to deal.
proof fn lemma_dealt_prefix_tally(values: Seq<usize>, picks: Seq<usize>, k: int)
    requires
        valid_picks(values.len() as int, picks),
        0 <= k <= picks.len(),
    ensures
        dealt(values, picks).take(k).to_multiset().add(
            left_after(values, picks, k).to_multiset(),
        ) == values.to_multiset(),
    decreases k,
{
    let d = dealt(values, picks);
    if k == 0 {
        assert(d.take(0) =~= Seq::<usize>::empty());
        Seq::<usize>::empty().to_multiset_ensures();
        assert(d.take(0).to_multiset().add(values.to_multiset()) =~= values.to_multiset());
    } else {
        lemma_dealt_prefix_tally(values, picks, k - 1);
        lemma_left_after_len(values, picks, k - 1);
        let before = left_after(values, picks, k - 1);
        let i = picks[k - 1] as int;
        assert(d.take(k) =~= d.take(k - 1).push(before[i]));
        to_multiset_build(d.take(k - 1), before[i]);
        to_multiset_remove(before, i);
        assert(before.to_multiset().count(before[i]) > 0) by {
            before.to_multiset_ensures();
            assert(before.contains(before[i]));
        }
        assert(d.take(k).to_multiset().add(before.remove(i).to_multiset()) =~= d.take(
            k - 1,
        ).to_multiset().add(before.to_multiset()));
    }
}

/// Dealing changes the order of the values and nothing else.
pub proof fn lemma_dealt_tally(values: Seq<usize>, picks: Seq<usize>)
    requires
        valid_picks(values.len() as int, picks),
    ensures
        dealt(values, picks).to_multiset() == values.to_multiset(),
{
    let n = picks.len() as int;
    lemma_dealt_prefix_tally(values, picks, n);
    lemma_left_after_len(values, picks, n);
    let rest = left_after(values, picks, n);
    assert(rest =~= Seq::<usize>::empty());
    Seq::<usize>::empty().to_multiset_ensures();
    assert(dealt(values, picks).take(n) =~= dealt(values, picks));
    assert(dealt(values, picks).to_multiset().add(rest.to_multiset()) =~= dealt(
        values,
        picks,
    ).to_multiset());
}

/// The state of a generator after `k` picks were drawn to deal out `n` values.
pub open spec fn state_after(state: Seq<u8>, n: nat, k: int) -> Seq<u8>
    decreases k,
{
    if k <= 0 {
        state
    } else {
        drawn(state_after(state, n, k - 1), 0, (n - (k - 1)) as u64).1
    }
}

/// The picks that a generator in a given state draws to deal out `n` values:
/// the pick at step `k` is drawn below the number `n - k` of values left.
pub open spec fn picks_from(state: Seq<u8>, n: nat) -> Seq<usize> {
    Seq::new(n, |k: int| drawn(state_after(state, n, k), 0, (n - k) as u64).0 as usize)
}

/// The side of the board that a seed gives: twice a number drawn from 2 to 11.
pub open spec fn generated_size(seed: u64) -> nat {
    (2 * drawn(seeded_state(seed), 2, 12).0) as nat
}

/// The cells, row by row, of the board that a seed gives.
pub open spec fn generated_cells(seed: u64) -> Seq<usize> {
    let n = generated_size(seed) * generated_size(seed);
    dealt(pool(n / 2), picks_from(drawn(seeded_state(seed), 2, 12).1, n))
}

/// Draws the picks that deal out `n` values.
fn draw_picks(rng: &mut StdRng, n: usize) -> (picks: Vec<usize>)
    ensures
        picks@ == picks_from(rng_state(*old(rng)), n as nat),
        valid_picks(n as int, picks@),
        rng_state(*final(rng)) == state_after(rng_state(*old(rng)), n as nat, n as int),
{
    let ghost start = rng_state(*rng);
    let mut picks: Vec<usize> = Vec::new();
    let mut k: usize = 0;
    while k < n
        invariant
            k <= n,
            picks@.len() == k,
            rng_state(*rng) == state_after(start, n as nat, k as int),
            forall|j: int| 0 <= j < k ==> (#[trigger] picks@[j]) < n - j,
            forall|j: int| 0 <= j < k ==> #[trigger] picks@[j] == picks_from(start, n as nat)[j],
        decreases n - k,
    {
        let left = (n - k) as u64;
        let pick = next_in_range(rng, 0, left);
        picks.push(pick as usize);
        k += 1;
    }
    assert(picks@ =~= picks_from(start, n as nat));
    picks
}

/// Deals the pool of a board of side `size` out onto the board, row by row:
/// each pick takes the value at its index among the values that are left.
pub fn place(size: usize, picks: &Vec<usize>) -> (r: Input)
    requires
        size % 2 == 0,
        size * size <= usize::MAX,
        valid_picks(size * size, picks@),
    ensures
        r.size == size,
        r.wf(),
        cells(r.grid()) == dealt(pool((size * size / 2) as nat), picks@),
        is_paired(r.grid()),
{
    let n = size * size;
    let half = n / 2;
    let ghost h = size as int / 2;
    assert(size * size == 2 * (2 * h * h)) by (nonlinear_arith)
        requires
            size == 2 * h,
    ;
    assert(n == 2 * half);
    let ghost values = pool(half as nat);
    let ghost order = dealt(values, picks@);
    let mut left: Vec<usize> = Vec::new();
    let mut v: usize = 0;
    while v < half
        invariant
            v <= half,
            left@ == pool(v as nat),
        decreases half - v,
    {
        left.push(v);
        left.push(v);
        v += 1;
        assert(left@ =~= pool(v as nat));
    }
    let mut board: Vec<Vec<usize>> = Vec::new();
    let mut k: usize = 0;
    let mut i: usize = 0;
    while i < size
        invariant
            i <= size,
            n == size * size,
            k == i * size,
            values.len() == n,
            valid_picks(n as int, picks@),
            order == dealt(values, picks@),
            left@ == left_after(values, picks@, k as int),
            board@.len() == i,
            forall|r: int| 0 <= r < i ==> (#[trigger] board@[r])@.len() == size,
            forall|r: int, c: int|
                0 <= r < i && 0 <= c < size ==> #[trigger] board@[r]@[c] == order[r * size + c],
        decreases size - i,
    {
        let mut row: Vec<usize> = Vec::new();
        let mut j: usize = 0;
        while j < size
            invariant
                i < size,
                j <= size,
                n == size * size,
                k == i * size + j,
                values.len() == n,
                valid_picks(n as int, picks@),
                order == dealt(values, picks@),
                left@ == left_after(values, picks@, k as int),
                row@.len() == j,
                forall|c: int| 0 <= c < j ==> #[trigger] row@[c] == order[i * size + c],
            decreases size - j,
        {
            proof {
                lemma_flat_index(size as int, i as int, j as int);
                lemma_left_after_len(values, picks@, k as int);
            }
            let idx = picks[k];
            row.push(left[idx]);
            left.remove(idx);
            k += 1;
            j += 1;
        }
        board.push(row);
        i += 1;
        assert(k == i * size) by (nonlinear_arith)
            requires
                k == (i - 1) * size + size,
        ;
    }
    let r = Input { size, board };
    proof {
        let g = r.grid();
        assert(g.len() == size);
        assert forall|a: int| 0 <= a < size implies (#[trigger] g[a]).len() == size by {
            assert(g[a] == board@[a]@);
        }
        assert(is_square(g, size as int));
        assert forall|p: int| 0 <= p < n implies cells(g)[p] == order[p] by {
            lemma_flat_split(size as int, p);
        }
        assert(cells(g) =~= order);
        lemma_dealt_tally(values, picks@);
        assert forall|w: usize|
            tally(g).count(w) == (if w < g.len() * g.len() / 2 {
                2nat
            } else {
                0nat
            }) by {
            lemma_pool_tally(half as nat, w);
        }
    }
    r
}

/// The board that a seed gives, as a grid.
pub open spec fn generated_grid(seed: u64) -> Seq<Seq<usize>> {
    let m = generated_size(seed) as int;
    Seq::new(m as nat, |r: int| Seq::new(m as nat, |c: int| generated_cells(seed)[r * m + c]))
}

/// `b` is the board of `seed`: it has the side and the cells that the seed
/// gives.
pub open spec fn is_generated(seed: u64, b: Input) -> bool {
    &&& b.wf()
    &&& b.size == generated_size(seed)
    &&& cells(b.grid()) == generated_cells(seed)
}

/// A seed has one board: two boards made of the same seed have the same side
/// and hold the same value in every cell.
pub proof fn lemma_gen_deterministic(seed: u64, a: Input, b: Input)
    requires
        is_generated(seed, a),
        is_generated(seed, b),
    ensures
        a.size == b.size,
        a.grid() == b.grid(),
{
    lemma_cells_determine_grid(a.grid(), b.grid(), a.size as int);
}

/// The board of a seed is the grid that the seed gives.
pub proof fn lemma_generated_grid(seed: u64, b: Input)
    requires
        is_generated(seed, b),
    ensures
        b.grid() == generated_grid(seed),
{
    let m = b.size as int;
    let g = b.grid();
    let want = generated_grid(seed);
    assert forall|r: int| 0 <= r < m implies g[r] == want[r] by {
        assert forall|c: int| 0 <= c < m implies g[r][c] == want[r][c] by {
            lemma_flat_index(m, r, c);
            assert(cells(g)[r * m + c] == g[r][c]);
        }
        assert(g[r] =~= want[r]);
    }
    assert(g =~= want);
}

/// Makes the board of a seed. The side is twice a number drawn from 2 to 11;
/// the values are dealt out by picks drawn one for each cell. The same seed
/// gives the same board, and every board holds each value below half the
/// number of its cells exactly twice.
pub fn gen(seed: u64) -> (r: Input)
    ensures
        is_generated(seed, r),
        MIN_SIZE <= r.size <= MAX_SIZE,
        r.size % 2 == 0,
        is_paired(r.grid()),
{
    let mut rng = seeded(seed);
    let half_side = next_in_range(&mut rng, 2, 12) as usize;
    let size = half_side * 2;
    assert(size * size <= 22 * 22) by (nonlinear_arith)
        requires
            size <= 22,
    ;
    let picks = draw_picks(&mut rng, size * size);
    place(size, &picks)
}

} // verus!
