//! The score of a board that holds every value twice: each value gives at
//! most one pair of equal neighbours, so the score is at most the number of
//! values.

use crate::board::is_square;
use crate::generate::is_paired;
use crate::score::{adjacent_matches, cell_matches, row_matches, rows_matches};
use crate::tally::{cells, lemma_flat_index, tally};
use vstd::prelude::*;
use vstd::seq_lib::to_multiset_remove;
use vstd::set_lib::lemma_len_subset;

verus! {

/// The values among the first `n` of a sequence.
pub open spec fn seen(s: Seq<usize>, n: int) -> Set<usize>
    decreases n,
{
    if n <= 0 {
        Set::empty()
    } else {
        seen(s, n - 1).insert(s[n - 1])
    }
}

/// The values below `h`.
pub open spec fn below(h: nat) -> Set<usize>
    decreases h,
{
    if h == 0 {
        Set::empty()
    } else {
        below((h - 1) as nat).insert((h - 1) as usize)
    }
}

proof fn lemma_seen(s: Seq<usize>, n: int)
    requires
        0 <= n <= s.len(),
    ensures
        seen(s, n).finite(),
        forall|v: usize|
            seen(s, n).contains(v) ==> exists|i: int| 0 <= i < n && #[trigger] s[i] == v,
    decreases n,
{
    if n > 0 {
        lemma_seen(s, n - 1);
        assert forall|v: usize| seen(s, n).contains(v) implies exists|i: int|
            0 <= i < n && #[trigger] s[i] == v by {
            if v == s[n - 1] {
                assert(s[n - 1] == v);
            } else {
                assert(seen(s, n - 1).contains(v));
                let i = choose|i: int| 0 <= i < n - 1 && #[trigger] s[i] == v;
                assert(s[i] == v);
            }
        }
    }
}

proof fn lemma_below(h: nat)
    requires
        h <= usize::MAX + 1,
    ensures
        below(h).finite(),
        below(h).len() == h,
        forall|v: usize| below(h).contains(v) <==> v < h,
    decreases h,
{
    if h > 0 {
        lemma_below((h - 1) as nat);
    }
}

/// A value that a sequence holds no more than twice stands at no three
/// places.
proof fn lemma_no_third(s: Seq<usize>, i: int, j: int, k: int)
    requires
        0 <= i < j < k < s.len(),
        s[i] == s[j],
        s[j] == s[k],
    ensures
        s.to_multiset().count(s[i]) >= 3,
{
    broadcast use vstd::multiset::group_multiset_axioms;

    let v = s[i];
    let a = s.remove(k);
    let b = a.remove(j);
    to_multiset_remove(s, k);
    to_multiset_remove(a, j);
    s.to_multiset_ensures();
    a.to_multiset_ensures();
    b.to_multiset_ensures();
    assert(s[k] == v);
    assert(a[j] == v);
    assert(b[i] == v);
    assert(b.contains(v));
    assert(a.contains(v));
    assert(s.contains(v));
    assert(b.to_multiset().count(v) >= 1);
    assert(a.to_multiset().count(v) >= 2);
}

/// On a board that holds no value more than twice, a cell that has an equal
/// neighbour to the right or below has only one of the two, and no cell
/// before it, row by row, holds its value.
proof fn lemma_cell_charge(g: Seq<Seq<usize>>, m: int, r: int, c: int)
    requires
        is_square(g, m),
        0 <= r < m,
        0 <= c < m,
        forall|v: usize| tally(g).count(v) <= 2,
    ensures
        cell_matches(g, r, c) <= 1,
        cell_matches(g, r, c) == 1 ==> !seen(cells(g), r * m + c).contains(g[r][c]),
{
    let s = cells(g);
    let k = r * m + c;
    lemma_flat_index(m, r, c);
    assert(s[k] == g[r][c]);
    let right = c + 1 < m && g[r][c] == g[r][c + 1];
    let down = r + 1 < m && g[r][c] == g[r + 1][c];
    if right {
        lemma_flat_index(m, r, c + 1);
        assert(s[k + 1] == g[r][c + 1]);
    }
    if down {
        lemma_flat_index(m, r + 1, c);
        assert((r + 1) * m + c == k + m) by (nonlinear_arith)
            requires
                k == r * m + c,
        ;
        assert(s[k + m] == g[r + 1][c]);
    }
    assert(tally(g).count(s[k]) <= 2);
    if right && down {
        assert(m > 1);
        lemma_no_third(s, k, k + 1, k + m);
    }
    if (right || down) && seen(s, k).contains(g[r][c]) {
        lemma_seen(s, k);
        let i = choose|i: int| 0 <= i < k && #[trigger] s[i] == g[r][c];
        assert(tally(g).count(s[i]) <= 2);
        if right {
            lemma_no_third(s, i, k, k + 1);
        } else {
            lemma_no_third(s, i, k, k + m);
        }
    }
}

proof fn lemma_row_charge(g: Seq<Seq<usize>>, m: int, r: int, c: int)
    requires
        is_square(g, m),
        0 <= r < m,
        0 <= c <= m,
        forall|v: usize| tally(g).count(v) <= 2,
    ensures
        row_matches(g, r, c) <= seen(cells(g), r * m + c).len() - seen(cells(g), r * m).len(),
    decreases c,
{
    if c > 0 {
        lemma_row_charge(g, m, r, c - 1);
        lemma_cell_charge(g, m, r, c - 1);
        lemma_flat_index(m, r, c - 1);
        lemma_seen(cells(g), r * m + c - 1);
        assert(seen(cells(g), r * m + c) == seen(cells(g), r * m + c - 1).insert(
            cells(g)[r * m + c - 1],
        ));
    }
}

proof fn lemma_rows_charge(g: Seq<Seq<usize>>, m: int, r: int)
    requires
        is_square(g, m),
        0 <= r <= m,
        forall|v: usize| tally(g).count(v) <= 2,
    ensures
        rows_matches(g, r) <= seen(cells(g), r * m).len(),
    decreases r,
{
    if r > 0 {
        lemma_rows_charge(g, m, r - 1);
        lemma_row_charge(g, m, r - 1, m);
        assert((r - 1) * m + m == r * m) by (nonlinear_arith);
    } else {
        assert(0 * m == 0);
    }
}

/// The score of a board that holds every value below half the number of its
/// cells exactly twice, and no other value, is at most the number of values:
/// half the number of cells.
pub proof fn lemma_paired_score_bound(g: Seq<Seq<usize>>, size: int)
    requires
        is_square(g, size),
        is_paired(g),
    ensures
        0 <= adjacent_matches(g) <= size * size / 2,
{
    let s = cells(g);
    let n = size * size;
    let half = (n / 2) as nat;
    assert(0 <= n) by (nonlinear_arith)
        requires
            n == size * size,
    ;
    crate::score::lemma_adjacent_matches_bound(g, size);
    assert forall|v: usize| tally(g).count(v) <= 2 by {}
    lemma_rows_charge(g, size, size);
    lemma_seen(s, n);
    if half <= usize::MAX + 1 {
        lemma_below(half);
        assert forall|v: usize| seen(s, n).contains(v) implies below(half).contains(v) by {
            let i = choose|i: int| 0 <= i < n && #[trigger] s[i] == v;
            s.to_multiset_ensures();
            assert(s.contains(v));
            assert(tally(g).count(v) > 0);
            assert(v < g.len() * g.len() / 2);
        }
        lemma_len_subset(seen(s, n), below(half));
    } else {
        lemma_below((usize::MAX + 1) as nat);
        assert forall|v: usize| seen(s, n).contains(v) implies below(
            (usize::MAX + 1) as nat,
        ).contains(v) by {}
        lemma_len_subset(seen(s, n), below((usize::MAX + 1) as nat));
    }
}

} // verus!
