//! Counting the values of a board: the cells listed row by row, the multiset
//! of what they hold, and the fact that moving cells about keeps it.

use crate::board::is_square;
use vstd::arithmetic::div_mod::{lemma_fundamental_div_mod, lemma_fundamental_div_mod_converse};
use vstd::arithmetic::div_mod::lemma_mod_bound;
use vstd::multiset::Multiset;
use vstd::prelude::*;
use vstd::seq_lib::{to_multiset_build, to_multiset_remove};

verus! {

/// The cells of a square grid, row by row.
pub open spec fn cells(g: Seq<Seq<usize>>) -> Seq<usize> {
    Seq::new(
        (g.len() * g.len()) as nat,
        |k: int| g[k / (g.len() as int)][k % (g.len() as int)],
    )
}

/// The values that a square grid holds, each as often as it occurs.
pub open spec fn tally(g: Seq<Seq<usize>>) -> Multiset<usize> {
    cells(g).to_multiset()
}

/// `p` lists every index below `m` exactly once.
pub open spec fn is_permutation(p: Seq<int>, m: int) -> bool {
    &&& p.len() == m
    &&& forall|k: int| 0 <= k < m ==> 0 <= #[trigger] p[k] < m
    &&& forall|a: int, b: int| 0 <= a < b < m ==> #[trigger] p[a] != #[trigger] p[b]
}

/// The cell `(r, c)` of a grid of side `m` stands at place `r * m + c` of the
/// row-by-row listing, and that place names no other cell.
pub proof fn lemma_flat_index(m: int, r: int, c: int)
    requires
        0 <= r < m,
        0 <= c < m,
    ensures
        0 <= r * m + c < m * m,
        (r * m + c) / m == r,
        (r * m + c) % m == c,
{
    lemma_fundamental_div_mod_converse(r * m + c, m, r, c);
    assert(r * m + c < m * m) by (nonlinear_arith)
        requires
            0 <= r < m,
            0 <= c < m,
    ;
    assert(0 <= r * m) by (nonlinear_arith)
        requires
            0 <= r,
            0 <= m,
    ;
}

/// Every place of the row-by-row listing names one cell of the grid.
pub proof fn lemma_flat_split(m: int, k: int)
    requires
        0 <= m,
        0 <= k < m * m,
    ensures
        0 <= k / m < m,
        0 <= k % m < m,
        k == (k / m) * m + k % m,
{
    assert(m > 0) by (nonlinear_arith)
        requires
            0 <= m,
            0 <= k < m * m,
    ;
    lemma_fundamental_div_mod(k, m);
    lemma_mod_bound(k, m);
    let q = k / m;
    assert(m * q == q * m) by (nonlinear_arith);
    assert(0 <= q < m) by (nonlinear_arith)
        requires
            0 <= k < m * m,
            k == q * m + k % m,
            0 <= k % m < m,
            m > 0,
    ;
}

/// A sequence read through a permutation of its indices holds the same
/// values, each as often as before.
pub proof fn lemma_reindexed_multiset<A>(s: Seq<A>, t: Seq<A>, p: Seq<int>)
    requires
        is_permutation(p, s.len() as int),
        t.len() == s.len(),
        forall|k: int| 0 <= k < t.len() ==> t[k] == s[#[trigger] p[k]],
    ensures
        t.to_multiset() == s.to_multiset(),
    decreases s.len(),
{
    let m = s.len() as int;
    if m == 0 {
        assert(s =~= t);
    } else {
        let j = p[m - 1];
        let shorter = t.drop_last();
        let rest = s.remove(j);
        let q = Seq::new(
            (m - 1) as nat,
            |k: int|
                if p[k] < j {
                    p[k]
                } else {
                    p[k] - 1
                },
        );
        assert forall|k: int| 0 <= k < m - 1 implies 0 <= #[trigger] q[k] < m - 1 by {
            assert(p[k] != p[m - 1]);
        }
        assert forall|a: int, b: int| 0 <= a < b < m - 1 implies #[trigger] q[a]
            != #[trigger] q[b] by {
            assert(p[a] != p[b]);
            assert(p[a] != p[m - 1]);
            assert(p[b] != p[m - 1]);
        }
        assert forall|k: int| 0 <= k < shorter.len() implies shorter[k] == rest[#[trigger] q[k]] by {
            assert(p[k] != p[m - 1]);
            assert(t[k] == s[p[k]]);
        }
        lemma_reindexed_multiset(rest, shorter, q);
        to_multiset_remove(s, j);
        assert(t =~= shorter.push(t[m - 1]));
        to_multiset_build(shorter, t[m - 1]);
        assert(t[m - 1] == s[p[m - 1]]);
        assert(s.to_multiset().count(s[j]) > 0) by {
            s.to_multiset_ensures();
            assert(s.contains(s[j]));
        }
        assert(s.to_multiset() =~= s.to_multiset().remove(s[j]).insert(s[j]));
    }
}

/// The places of the listing that a map of cells sends the places to.
pub open spec fn flat_map(m: int, f: spec_fn(int, int) -> (int, int)) -> Seq<int> {
    Seq::new((m * m) as nat, |k: int| f(k / m, k % m).0 * m + f(k / m, k % m).1)
}

/// A map of the cells of a grid that keeps them on the grid and sends no two
/// cells to one permutes the places of the row-by-row listing.
pub proof fn lemma_cell_map_permutation(m: int, f: spec_fn(int, int) -> (int, int))
    requires
        0 <= m,
        forall|r: int, c: int|
            0 <= r < m && 0 <= c < m ==> 0 <= (#[trigger] f(r, c)).0 < m && 0 <= f(r, c).1 < m,
        forall|r1: int, c1: int, r2: int, c2: int|
            0 <= r1 < m && 0 <= c1 < m && 0 <= r2 < m && 0 <= c2 < m && #[trigger] f(r1, c1)
                == #[trigger] f(r2, c2) ==> r1 == r2 && c1 == c2,
    ensures
        is_permutation(flat_map(m, f), m * m),
{
    let p = flat_map(m, f);
    assert(0 <= m * m) by (nonlinear_arith)
        requires
            0 <= m,
    ;
    assert forall|k: int| 0 <= k < m * m implies 0 <= #[trigger] p[k] < m * m by {
        lemma_flat_split(m, k);
        let (r, c) = f(k / m, k % m);
        lemma_flat_index(m, r, c);
    }
    assert forall|a: int, b: int| 0 <= a < b < m * m implies #[trigger] p[a] != #[trigger] p[b] by {
        lemma_flat_split(m, a);
        lemma_flat_split(m, b);
        let (ra, ca) = f(a / m, a % m);
        let (rb, cb) = f(b / m, b % m);
        lemma_flat_index(m, ra, ca);
        lemma_flat_index(m, rb, cb);
        if p[a] == p[b] {
            assert(ra == rb && ca == cb);
            assert(f(a / m, a % m) == f(b / m, b % m));
            assert(a / m == b / m && a % m == b % m);
            assert(false);
        }
    }
}

/// Two square grids of one side with the same cells, row by row, are the
/// same grid.
pub proof fn lemma_cells_determine_grid(a: Seq<Seq<usize>>, b: Seq<Seq<usize>>, m: int)
    requires
        is_square(a, m),
        is_square(b, m),
        cells(a) == cells(b),
    ensures
        a == b,
{
    assert forall|r: int| 0 <= r < m implies a[r] == b[r] by {
        assert forall|c: int| 0 <= c < m implies a[r][c] == b[r][c] by {
            lemma_flat_index(m, r, c);
            assert(cells(a)[r * m + c] == a[r][c]);
            assert(cells(b)[r * m + c] == b[r][c]);
        }
        assert(a[r] =~= b[r]);
    }
    assert(a =~= b);
}

} // verus!
