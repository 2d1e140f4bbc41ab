use vstd::prelude::*;

use crate::gol_instance::GolInstance;

verus! {

/// The eight neighbour offsets `(dj, di)` (column, row) in the order the
/// rule adds them up.
pub open spec fn neighbor_offsets() -> Seq<(i32, i32)> {
    seq![(-1i32, 1i32), (0i32, 1i32), (1i32, 1i32), (-1i32, 0i32), (1i32, 0i32), (-1i32, -1i32), (0i32, -1i32), (1i32, -1i32)]
}

/// The value of the `k`-th neighbour of cell `(i, j)`, the board wrapping
/// around at its edges.
pub open spec fn neighbor_value(g: Seq<Seq<i32>>, h: nat, w: nat, i: int, j: int, k: int) -> int {
    let (dj, di) = neighbor_offsets()[k];
    g[(i + di) % (h as int)][(j + dj) % (w as int)] as int
}

/// The sum of the first `n` neighbours of cell `(i, j)`.
pub open spec fn neighbor_sum(g: Seq<Seq<i32>>, h: nat, w: nat, i: int, j: int, n: nat) -> int
    decreases n,
{
    if n == 0 {
        0
    } else {
        neighbor_sum(g, h, w, i, j, (n - 1) as nat) + neighbor_value(g, h, w, i, j, n - 1)
    }
}

/// The next value of cell `(i, j)`: a live cell (value above zero) stays
/// alive with two or three as its neighbours' sum, a dead one comes alive
/// with exactly three; alive is 1, dead is 0.
pub open spec fn next_cell(g: Seq<Seq<i32>>, h: nat, w: nat, i: int, j: int) -> i32 {
    let s = neighbor_sum(g, h, w, i, j, 8);
    if g[i][j] > 0 {
        if 2 <= s && s <= 3 {
            1
        } else {
            0
        }
    } else {
        if s == 3 {
            1
        } else {
            0
        }
    }
}

/// The next generation of a board of `h` rows and `w` columns.
pub open spec fn next_grid(g: Seq<Seq<i32>>, h: nat, w: nat) -> Seq<Seq<i32>> {
    Seq::new(h, |i: int| Seq::new(w, |j: int| next_cell(g, h, w, i, j)))
}

/// Every partial sum of every cell's neighbours, taken in the rule's order,
/// fits in an `i32`.
pub open spec fn sums_fit(g: Seq<Seq<i32>>, h: nat, w: nat) -> bool {
    forall|i: int, j: int, n: nat|
        0 <= i < h && 0 <= j < w && n <= 8 ==> i32::MIN <= #[trigger] neighbor_sum(g, h, w, i, j, n)
            <= i32::MAX
}

/// `g` holds every cell a board of `h` rows and `w` columns reads: at least
/// `h` rows, each of at least `w` cells (rows and cells beyond those are
/// never read). A board with no row or no column reads nothing.
pub open spec fn covers(g: Seq<Seq<i32>>, h: nat, w: nat) -> bool {
    h == 0 || w == 0 || (g.len() >= h && forall|i: int| 0 <= i < h ==> #[trigger] g[i].len() >= w)
}

/// Every cell of `g` is 0 or 1.
pub open spec fn is_binary(g: Seq<Seq<i32>>) -> bool {
    forall|i: int, j: int| 0 <= i < g.len() && 0 <= j < g[i].len() ==> 0 <= #[trigger] g[i][j] <= 1
}

/// The board after `t` generations.
pub open spec fn generations(g: Seq<Seq<i32>>, h: nat, w: nat, t: nat) -> Seq<Seq<i32>>
    decreases t,
{
    if t == 0 {
        g
    } else {
        next_grid(generations(g, h, w, (t - 1) as nat), h, w)
    }
}

/// The index `i + d` on a ring of `n` positions.
fn wrap(i: usize, d: i32, n: usize) -> (r: usize)
    requires
        i < n,
        -1 <= d <= 1,
    ensures
        r < n,
        r == (i + d) % (n as int),
{
    let ghost ni = n as int;
    if d < 0 {
        if i == 0 {
            assert((0 - 1) % ni == ni - 1) by (nonlinear_arith)
                requires
                    ni > 0,
            ;
            n - 1
        } else {
            assert((i as int - 1) % ni == i - 1) by (nonlinear_arith)
                requires
                    0 <= i - 1 < ni,
            ;
            i - 1
        }
    } else if d > 0 {
        if i + 1 == n {
            assert(ni % ni == 0) by (nonlinear_arith)
                requires
                    ni > 0,
            ;
            0
        } else {
            assert((i as int + 1) % ni == i + 1) by (nonlinear_arith)
                requires
                    0 <= i + 1 < ni,
            ;
            i + 1
        }
    } else {
        assert((i as int) % ni == i) by (nonlinear_arith)
            requires
                0 <= i < ni,
        ;
        i
    }
}

/// Whether `step` can run on the board: its rows hold the cells the board
/// reads, its height and width fit in an `i32`, and no neighbour sum leaves
/// the range of `i32`.
pub fn can_step(gol: &GolInstance) -> (ok: bool)
    ensures
        ok == (covers(gol@, gol.h as nat, gol.w as nat) && gol.h <= i32::MAX && gol.w <= i32::MAX && sums_fit(
            gol@,
            gol.h as nat,
            gol.w as nat,
        )),
{
    let h = gol.h;
    let w = gol.w;
    if h > i32::MAX as usize || w > i32::MAX as usize {
        return false;
    }
    if h > 0 && w > 0 {
        if gol.cells.len() < h {
            return false;
        }
        for i in 0..h
            invariant
                h == gol.h,
                w == gol.w,
                gol.cells@.len() >= h,
                forall|a: int| 0 <= a < i ==> #[trigger] gol@[a].len() >= w,
        {
            assert(gol@[i as int].len() == gol.cells@[i as int]@.len());
            if gol.cells[i].len() < w {
                return false;
            }
        }
    }
    let ghost g = gol@;
    assert(covers(g, h as nat, w as nat));
    let difs: [(i32, i32); 8] = [(-1, 1), (0, 1), (1, 1), (-1, 0), (1, 0), (-1, -1), (0, -1), (1, -1)];
    assert(difs@ =~= neighbor_offsets());
    for i in 0..h
        invariant
            difs@ == neighbor_offsets(),
            h == gol.h,
            w == gol.w,
            g == gol@,
            h <= i32::MAX,
            w <= i32::MAX,
            covers(g, h as nat, w as nat),
            forall|a: int, b: int, n: nat|
                0 <= a < i && 0 <= b < w && n <= 8 ==> i32::MIN <= #[trigger] neighbor_sum(
                    g,
                    h as nat,
                    w as nat,
                    a,
                    b,
                    n,
                ) <= i32::MAX,
    {
        for j in 0..w
            invariant
                difs@ == neighbor_offsets(),
                h == gol.h,
                w == gol.w,
                g == gol@,
                i < h,
                covers(g, h as nat, w as nat),
                forall|a: int, b: int, n: nat|
                    ((0 <= a < i && 0 <= b < w) || (a == i && 0 <= b < j)) && n <= 8 ==> i32::MIN
                        <= #[trigger] neighbor_sum(g, h as nat, w as nat, a, b, n) <= i32::MAX,
        {
            let mut sum: i64 = 0;
            for k in 0..8usize
                invariant
                    difs@ == neighbor_offsets(),
                    h == gol.h,
                    w == gol.w,
                    g == gol@,
                    i < h,
                    j < w,
                    covers(g, h as nat, w as nat),
                    sum == neighbor_sum(g, h as nat, w as nat, i as int, j as int, k as nat),
                    forall|n: nat|
                        n <= k ==> i32::MIN <= #[trigger] neighbor_sum(
                            g,
                            h as nat,
                            w as nat,
                            i as int,
                            j as int,
                            n,
                        ) <= i32::MAX,
                    forall|a: int, b: int, n: nat|
                        ((0 <= a < i && 0 <= b < w) || (a == i && 0 <= b < j)) && n <= 8 ==> i32::MIN
                            <= #[trigger] neighbor_sum(g, h as nat, w as nat, a, b, n) <= i32::MAX,
            {
                let (dj, di) = difs[k];
                let ii = wrap(i, di, h);
                let jj = wrap(j, dj, w);
                assert(g[ii as int].len() >= w);
                assert(neighbor_sum(g, h as nat, w as nat, i as int, j as int, (k + 1) as nat)
                    == sum + g[ii as int][jj as int]);
                sum = sum + gol.cells[ii][jj] as i64;
                if sum < i32::MIN as i64 || sum > i32::MAX as i64 {
                    assert(!sums_fit(g, h as nat, w as nat)) by {
                        assert(!(i32::MIN <= neighbor_sum(g, h as nat, w as nat, i as int, j as int, (k + 1) as nat) <= i32::MAX));
                    }
                    return false;
                }
            }
        }
    }
    true
}

/// Replaces the board by its next generation, the board wrapping around at
/// its edges.
pub fn step(gol: &mut GolInstance)
    requires
        covers(old(gol)@, old(gol).h as nat, old(gol).w as nat),
        old(gol).h <= i32::MAX,
        old(gol).w <= i32::MAX,
        sums_fit(old(gol)@, old(gol).h as nat, old(gol).w as nat),
    ensures
        final(gol).h == old(gol).h,
        final(gol).w == old(gol).w,
        final(gol)@ == next_grid(old(gol)@, old(gol).h as nat, old(gol).w as nat),
{
    let difs: [(i32, i32); 8] = [(-1, 1), (0, 1), (1, 1), (-1, 0), (1, 0), (-1, -1), (0, -1), (1, -1)];
    assert(difs@ =~= neighbor_offsets());
    let h = gol.h;
    let w = gol.w;
    let ghost g = gol@;
    let mut cells: Vec<Vec<i32>> = Vec::with_capacity(h);
    for i in 0..h
        invariant
            difs@ == neighbor_offsets(),
            h == gol.h,
            w == gol.w,
            g == gol@,
            covers(g, h as nat, w as nat),
            sums_fit(g, h as nat, w as nat),
            cells.deep_view() =~= next_grid(g, h as nat, w as nat).take(i as int),
    {
        let mut row: Vec<i32> = Vec::with_capacity(w);
        for j in 0..w
            invariant
                difs@ == neighbor_offsets(),
                h == gol.h,
                w == gol.w,
                g == gol@,
                i < h,
                covers(g, h as nat, w as nat),
                sums_fit(g, h as nat, w as nat),
                row@ =~= Seq::new(j as nat, |jj: int| next_cell(g, h as nat, w as nat, i as int, jj)),
        {
            let mut neigs: i32 = 0;
            for k in 0..8usize
                invariant
                    difs@ == neighbor_offsets(),
                    h == gol.h,
                    w == gol.w,
                    g == gol@,
                    i < h,
                    j < w,
                    covers(g, h as nat, w as nat),
                    sums_fit(g, h as nat, w as nat),
                    neigs == neighbor_sum(g, h as nat, w as nat, i as int, j as int, k as nat),
            {
                let (dj, di) = difs[k];
                let ii = wrap(i, di, h);
                let jj = wrap(j, dj, w);
                assert(neighbor_sum(g, h as nat, w as nat, i as int, j as int, (k + 1) as nat)
                    == neigs + g[ii as int][jj as int]);
                assert(g[ii as int].len() >= w);
                neigs = neigs + gol.cells[ii][jj];
            }
            assert(g[i as int].len() >= w);
            let is_alive = gol.cells[i][j] > 0;
            if is_alive {
                if neigs >= 2 && neigs <= 3 {
                    row.push(1);
                } else {
                    row.push(0);
                }
            } else {
                if neigs == 3 {
                    row.push(1);
                } else {
                    row.push(0);
                }
            }
        }
        let ghost old_cells = cells@;
        let ghost old_deep = cells.deep_view();
        assert(row.deep_view() =~= row@);
        cells.push(row);
        assert(cells@ == old_cells.push(row));
        assert(cells.deep_view() =~= old_deep.push(row@));
        assert(next_grid(g, h as nat, w as nat).take(i + 1) =~= next_grid(g, h as nat, w as nat).take(
            i as int,
        ).push(next_grid(g, h as nat, w as nat)[i as int]));
    }
    gol.cells = cells;
}

/// The `k`-th neighbour of a cell on the board lies on the board.
proof fn lemma_neighbor_on_board(h: nat, w: nat, i: int, j: int, k: int)
    requires
        0 <= i < h,
        0 <= j < w,
        0 <= k < 8,
    ensures
        0 <= (i + neighbor_offsets()[k].1) % (h as int) < h,
        0 <= (j + neighbor_offsets()[k].0) % (w as int) < w,
{
    let (dj, di) = neighbor_offsets()[k];
    let hi = h as int;
    let wi = w as int;
    assert(0 <= (i + di) % hi < hi) by (nonlinear_arith)
        requires
            hi > 0,
    ;
    assert(0 <= (j + dj) % wi < wi) by (nonlinear_arith)
        requires
            wi > 0,
    ;
}

/// On a board of zeros and ones, the sum of the first `n` neighbours lies
/// between 0 and `n`.
proof fn lemma_binary_neighbor_sum(g: Seq<Seq<i32>>, h: nat, w: nat, i: int, j: int, n: nat)
    requires
        covers(g, h, w),
        is_binary(g),
        0 <= i < h,
        0 <= j < w,
        n <= 8,
    ensures
        0 <= neighbor_sum(g, h, w, i, j, n) <= n,
    decreases n,
{
    if n > 0 {
        lemma_binary_neighbor_sum(g, h, w, i, j, (n - 1) as nat);
        lemma_neighbor_on_board(h, w, i, j, n - 1);
        let (dj, di) = neighbor_offsets()[n - 1];
        let ii = (i + di) % (h as int);
        let jj = (j + dj) % (w as int);
        assert(g[ii].len() >= w);
        assert(0 <= g[ii][jj] <= 1);
    }
}

/// On a board of zeros only, every neighbour sum is zero.
proof fn lemma_dead_neighbor_sum(g: Seq<Seq<i32>>, h: nat, w: nat, i: int, j: int, n: nat)
    requires
        crate::gol_instance::is_grid(g, h, w),
        forall|a: int, b: int| 0 <= a < h && 0 <= b < w ==> #[trigger] g[a][b] == 0,
        0 <= i < h,
        0 <= j < w,
        n <= 8,
    ensures
        neighbor_sum(g, h, w, i, j, n) == 0,
    decreases n,
{
    if n > 0 {
        lemma_dead_neighbor_sum(g, h, w, i, j, (n - 1) as nat);
        lemma_neighbor_on_board(h, w, i, j, n - 1);
    }
}

/// The rule, cell by cell. Let `s` be the sum of the values of the eight
/// cells around `(i, j)`, the board wrapping around at its edges. In the next
/// generation the cell is 0 or 1; a live cell (value above zero) is 1
/// exactly when `s` is 2 or 3, and a dead one exactly when `s` is 3.
pub proof fn law_step_rule(g: Seq<Seq<i32>>, h: nat, w: nat, i: int, j: int)
    requires
        0 <= i < h,
        0 <= j < w,
    ensures
        ({
            let up = (i - 1) % (h as int);
            let down = (i + 1) % (h as int);
            let left = (j - 1) % (w as int);
            let right = (j + 1) % (w as int);
            let s = g[up][left] + g[up][j] + g[up][right] + g[i][left] + g[i][right] + g[down][left]
                + g[down][j] + g[down][right];
            let next = next_grid(g, h, w)[i][j];
            &&& (next == 0 || next == 1)
            &&& g[i][j] > 0 ==> (next == 1 <==> (s == 2 || s == 3))
            &&& g[i][j] <= 0 ==> (next == 1 <==> s == 3)
        }),
{
    let hi = h as int;
    let wi = w as int;
    assert((i + 0) % hi == i) by (nonlinear_arith)
        requires
            0 <= i < hi,
    ;
    assert((j + 0) % wi == j) by (nonlinear_arith)
        requires
            0 <= j < wi,
    ;
    assert((i + -1) % hi == (i - 1) % hi);
    assert((j + -1) % wi == (j - 1) % wi);
    reveal_with_fuel(neighbor_sum, 9);
}

/// A board of zeros and ones can always take a step: none of its
/// neighbour sums leaves the range of `i32`.
pub proof fn law_binary_board_sums_fit(g: Seq<Seq<i32>>, h: nat, w: nat)
    requires
        covers(g, h, w),
        is_binary(g),
    ensures
        sums_fit(g, h, w),
{
    assert forall|i: int, j: int, n: nat|
        0 <= i < h && 0 <= j < w && n <= 8 implies i32::MIN <= #[trigger] neighbor_sum(g, h, w, i, j, n)
        <= i32::MAX by {
        lemma_binary_neighbor_sum(g, h, w, i, j, n);
    }
}

/// A step keeps the board's height and width, and leaves only zeros and
/// ones on it.
pub proof fn law_next_grid_shape(g: Seq<Seq<i32>>, h: nat, w: nat)
    ensures
        crate::gol_instance::is_grid(next_grid(g, h, w), h, w),
        is_binary(next_grid(g, h, w)),
{
}

/// A board with no live cell stays as it is.
pub proof fn law_empty_board_is_still(g: Seq<Seq<i32>>, h: nat, w: nat)
    requires
        crate::gol_instance::is_grid(g, h, w),
        forall|i: int, j: int| 0 <= i < h && 0 <= j < w ==> #[trigger] g[i][j] == 0,
    ensures
        next_grid(g, h, w) == g,
{
    assert forall|i: int| 0 <= i < h implies #[trigger] next_grid(g, h, w)[i] =~= g[i] by {
        assert forall|j: int| 0 <= j < w implies next_grid(g, h, w)[i][j] == #[trigger] g[i][j] by {
            lemma_dead_neighbor_sum(g, h, w, i, j, 8);
        }
    }
    assert(next_grid(g, h, w) =~= g);
}

/// After at least one generation, the board is exactly `h` rows of `w`
/// cells, whatever rows it had before, and holds only zeros and ones; a
/// board of exactly that shape keeps it after any number of generations.
pub proof fn law_generations_shape(g: Seq<Seq<i32>>, h: nat, w: nat, t: nat)
    ensures
        (t > 0 || crate::gol_instance::is_grid(g, h, w)) ==> crate::gol_instance::is_grid(
            generations(g, h, w, t),
            h,
            w,
        ),
        t > 0 ==> is_binary(generations(g, h, w, t)),
{
    if t > 0 {
        law_next_grid_shape(generations(g, h, w, (t - 1) as nat), h, w);
    }
}

/// Running `a` generations and then `b` more is running `a + b`
/// generations.
pub proof fn law_generations_compose(g: Seq<Seq<i32>>, h: nat, w: nat, a: nat, b: nat)
    ensures
        generations(generations(g, h, w, a), h, w, b) == generations(g, h, w, a + b),
    decreases b,
{
    if b > 0 {
        law_generations_compose(g, h, w, a, (b - 1) as nat);
        assert((a + b - 1) as nat == a + (b - 1) as nat);
    }
}

/// The board `g` turned around the torus by `a` rows and `b` columns: cell
/// `(i, j)` of the result is cell `((i + a) mod h, (j + b) mod w)` of `g`.
pub open spec fn shifted(g: Seq<Seq<i32>>, h: nat, w: nat, a: int, b: int) -> Seq<Seq<i32>> {
    Seq::new(h, |i: int| Seq::new(w, |j: int| g[(i + a) % (h as int)][(j + b) % (w as int)]))
}

/// The board `g` of `h` rows and `w` columns mirrored on its diagonal:
/// `w` rows of `h` cells, cell `(j, i)` being cell `(i, j)` of `g`.
pub open spec fn transposed(g: Seq<Seq<i32>>, h: nat, w: nat) -> Seq<Seq<i32>> {
    Seq::new(w, |j: int| Seq::new(h, |i: int| g[i][j]))
}

/// Shifting a board and summing neighbours of `(i, j)` sums the neighbours
/// of the shifted-to cell.
proof fn lemma_shift_neighbor_sum(
    g: Seq<Seq<i32>>,
    h: nat,
    w: nat,
    a: int,
    b: int,
    i: int,
    j: int,
    n: nat,
)
    requires
        0 <= i < h,
        0 <= j < w,
        n <= 8,
    ensures
        neighbor_sum(shifted(g, h, w, a, b), h, w, i, j, n) == neighbor_sum(
            g,
            h,
            w,
            (i + a) % (h as int),
            (j + b) % (w as int),
            n,
        ),
    decreases n,
{
    if n > 0 {
        lemma_shift_neighbor_sum(g, h, w, a, b, i, j, (n - 1) as nat);
        let k = n - 1;
        lemma_neighbor_on_board(h, w, i, j, k);
        let (dj, di) = neighbor_offsets()[k];
        let hi = h as int;
        let wi = w as int;
        vstd::arithmetic::div_mod::lemma_add_mod_noop_right(a, i + di, hi);
        vstd::arithmetic::div_mod::lemma_add_mod_noop_right(di as int, i + a, hi);
        vstd::arithmetic::div_mod::lemma_add_mod_noop_right(b, j + dj, wi);
        vstd::arithmetic::div_mod::lemma_add_mod_noop_right(dj as int, j + b, wi);
        assert(((i + di) % hi + a) % hi == ((i + a) % hi + di) % hi) by {
            assert(a + (i + di) == di + (i + a));
        }
        assert(((j + dj) % wi + b) % wi == ((j + b) % wi + dj) % wi) by {
            assert(b + (j + dj) == dj + (j + b));
        }
    }
}

/// A step commutes with turning the board around the torus: stepping the
/// shifted board gives the shifted next generation.
pub proof fn law_step_commutes_with_shift(g: Seq<Seq<i32>>, h: nat, w: nat, a: int, b: int)
    ensures
        next_grid(shifted(g, h, w, a, b), h, w) == shifted(next_grid(g, h, w), h, w, a, b),
{
    let lhs = next_grid(shifted(g, h, w, a, b), h, w);
    let rhs = shifted(next_grid(g, h, w), h, w, a, b);
    assert forall|i: int| 0 <= i < h implies #[trigger] lhs[i] =~= rhs[i] by {
        assert forall|j: int| 0 <= j < w implies #[trigger] lhs[i][j] == rhs[i][j] by {
            let hi = h as int;
            let wi = w as int;
            assert(0 <= (i + a) % hi < hi) by (nonlinear_arith)
                requires
                    hi > 0,
            ;
            assert(0 <= (j + b) % wi < wi) by (nonlinear_arith)
                requires
                    wi > 0,
            ;
            lemma_shift_neighbor_sum(g, h, w, a, b, i, j, 8);
        }
    }
    assert(lhs =~= rhs);
}

/// The neighbour offsets with their two components swapped, as indices: the
/// `k`-th offset swapped is the `swapped_offset(k)`-th one.
spec fn swapped_offset(k: int) -> int {
    if k == 0 {
        7
    } else if k == 1 {
        4
    } else if k == 3 {
        6
    } else if k == 4 {
        1
    } else if k == 6 {
        3
    } else if k == 7 {
        0
    } else {
        k
    }
}

/// The `k`-th neighbour of `(j, i)` on the mirrored board is the
/// `swapped_offset(k)`-th neighbour of `(i, j)` on the board.
proof fn lemma_transpose_neighbor(g: Seq<Seq<i32>>, h: nat, w: nat, i: int, j: int, k: int)
    requires
        0 <= i < h,
        0 <= j < w,
        0 <= k < 8,
    ensures
        neighbor_value(transposed(g, h, w), w, h, j, i, k) == neighbor_value(
            g,
            h,
            w,
            i,
            j,
            swapped_offset(k),
        ),
{
    lemma_neighbor_on_board(h, w, i, j, swapped_offset(k));
    lemma_neighbor_on_board(w, h, j, i, k);
    assert(neighbor_offsets()[k].0 == neighbor_offsets()[swapped_offset(k)].1);
    assert(neighbor_offsets()[k].1 == neighbor_offsets()[swapped_offset(k)].0);
}

/// A step commutes with mirroring the board on its diagonal.
pub proof fn law_step_commutes_with_transpose(g: Seq<Seq<i32>>, h: nat, w: nat)
    ensures
        next_grid(transposed(g, h, w), w, h) == transposed(next_grid(g, h, w), h, w),
{
    let t = transposed(g, h, w);
    let lhs = next_grid(t, w, h);
    let rhs = transposed(next_grid(g, h, w), h, w);
    assert forall|j: int| 0 <= j < w implies #[trigger] lhs[j] =~= rhs[j] by {
        assert forall|i: int| 0 <= i < h implies #[trigger] lhs[j][i] == rhs[j][i] by {
            reveal_with_fuel(neighbor_sum, 9);
            lemma_transpose_neighbor(g, h, w, i, j, 0);
            lemma_transpose_neighbor(g, h, w, i, j, 1);
            lemma_transpose_neighbor(g, h, w, i, j, 2);
            lemma_transpose_neighbor(g, h, w, i, j, 3);
            lemma_transpose_neighbor(g, h, w, i, j, 4);
            lemma_transpose_neighbor(g, h, w, i, j, 5);
            lemma_transpose_neighbor(g, h, w, i, j, 6);
            lemma_transpose_neighbor(g, h, w, i, j, 7);
            assert(neighbor_sum(t, w, h, j, i, 8) == neighbor_sum(g, h, w, i, j, 8));
        }
    }
    assert(lhs =~= rhs);
}

/// No generation leaves the board as it is, and each further generation is
/// one more step: `iterate` for `t + 1` generations gives what `iterate` for
/// `t` generations followed by `step` gives.
pub proof fn law_generations_step(g: Seq<Seq<i32>>, h: nat, w: nat, t: nat)
    ensures
        generations(g, h, w, 0) == g,
        generations(g, h, w, t + 1) == next_grid(generations(g, h, w, t), h, w),
        generations(g, h, w, 1) == next_grid(g, h, w),
{
    assert((t + 1 - 1) as nat == t);
}

/// Runs `t` generations. When `prt` is set, the drawing of the board after
/// each generation is handed back, in order, for the caller to print.
pub fn iterate(gol: &mut GolInstance, t: usize, prt: bool) -> (frames: Vec<String>)
    requires
        t > 0 ==> {
            &&& covers(old(gol)@, old(gol).h as nat, old(gol).w as nat)
            &&& old(gol).h <= i32::MAX
            &&& old(gol).w <= i32::MAX
            &&& sums_fit(old(gol)@, old(gol).h as nat, old(gol).w as nat)
        },
    ensures
        final(gol).h == old(gol).h,
        final(gol).w == old(gol).w,
        final(gol)@ == generations(old(gol)@, old(gol).h as nat, old(gol).w as nat, t as nat),
        frames@.len() == (if prt {
            t as nat
        } else {
            0
        }),
        forall|k: int|
            0 <= k < frames@.len() ==> #[trigger] frames@[k]@ == crate::gol_instance::drawing(
                generations(old(gol)@, old(gol).h as nat, old(gol).w as nat, (k + 1) as nat),
                old(gol).w as nat,
            ),
{
    let ghost g0 = gol@;
    let ghost h = gol.h as nat;
    let ghost w = gol.w as nat;
    let mut frames: Vec<String> = Vec::new();
    for i in 0..t
        invariant
            gol.h == h,
            gol.w == w,
            t > 0 ==> {
                &&& covers(g0, h, w)
                &&& h <= i32::MAX
                &&& w <= i32::MAX
                &&& sums_fit(g0, h, w)
            },
            gol@ == generations(g0, h, w, i as nat),
            frames@.len() == (if prt {
                i as nat
            } else {
                0
            }),
            forall|k: int|
                0 <= k < frames@.len() ==> #[trigger] frames@[k]@ == crate::gol_instance::drawing(
                    generations(g0, h, w, (k + 1) as nat),
                    w,
                ),
    {
        proof {
            law_generations_shape(g0, h, w, i as nat);
            if i > 0 {
                law_next_grid_shape(generations(g0, h, w, (i - 1) as nat), h, w);
                assert(covers(gol@, h, w));
                law_binary_board_sums_fit(gol@, h, w);
            }
        }
        step(gol);
        if prt {
            let frame = gol.show();
            frames.push(frame);
        }
    }
    frames
}

} // verus!
