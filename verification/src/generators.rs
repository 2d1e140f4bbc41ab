use vstd::prelude::*;

use rand::rngs::ThreadRng;
use rand::Rng;

use crate::gol_instance::GolInstance;

verus! {

/// `rand`'s thread-local generator, carried through opaque.
#[verifier::external_type_specification]
#[verifier::external_body]
pub struct ExThreadRng(rand::rngs::ThreadRng);

/// Calls `rand::thread_rng`, the lazily seeded generator of the current
/// thread. Nothing is stated of its state; `rand` panics when the operating
/// system gives it no seed, which no clause here rules out.
#[verifier::external_body]
fn thread_rng() -> ThreadRng {
    rand::thread_rng()
}

/// Calls `Rng::gen_range` with the half-open range `low..high`: `rand`
/// documents a value drawn from that range and a panic on an empty range,
/// which `requires` leaves out. Which value comes is chance. `rand` also
/// panics when reseeding the generator from the operating system fails,
/// which no clause here rules out.
#[verifier::external_body]
fn gen_range(rng: &mut ThreadRng, low: i32, high: i32) -> (v: i32)
    requires
        low < high,
    ensures
        low <= v < high,
{
    rng.gen_range(low..high)
}

/// The small board: three rows of three cells, the middle row alive.
pub fn gen_small() -> (gol: GolInstance)
    ensures
        gol.h == 3,
        gol.w == 3,
        gol@ == seq![seq![0i32, 0, 0], seq![1i32, 1, 1], seq![0i32, 0, 0]],
{
    let gol = GolInstance { h: 3, w: 3, cells: vec![vec![0; 3], vec![1; 3], vec![0; 3]] };
    assert(gol@ =~= seq![seq![0i32, 0, 0], seq![1i32, 1, 1], seq![0i32, 0, 0]]) by {
        assert(gol.cells@[0].deep_view() =~= seq![0i32, 0, 0]);
        assert(gol.cells@[1].deep_view() =~= seq![1i32, 1, 1]);
        assert(gol.cells@[2].deep_view() =~= seq![0i32, 0, 0]);
    }
    gol
}

/// A board of `h` rows of `w` cells filled row after row from `draws`:
/// cell `(i, j)` is `draws[i * w + j]`.
pub fn board_from_draws(w: usize, h: usize, draws: &Vec<i32>) -> (gol: GolInstance)
    requires
        draws@.len() == h * w,
    ensures
        gol.h == h,
        gol.w == w,
        gol.wf(),
        forall|i: int, j: int| 0 <= i < h && 0 <= j < w ==> #[trigger] gol@[i][j] == draws@[i * w + j],
{
    let mut cells: Vec<Vec<i32>> = Vec::with_capacity(h);
    let mut base: usize = 0;
    let total = draws.len();
    assert(0 * w == 0);
    for i in 0..h
        invariant
            draws@.len() == h * w,
            total == h * w,
            cells@.len() == i,
            base == i * w,
            forall|a: int| 0 <= a < i ==> #[trigger] cells@[a]@.len() == w,
            forall|a: int, b: int|
                0 <= a < i && 0 <= b < w ==> #[trigger] cells@[a]@[b] == draws@[a * w + b],
    {
        assert(base + w <= h * w && base + w == (i + 1) * w) by (nonlinear_arith)
            requires
                base == i * w,
                i < h,
        ;
        let mut row: Vec<i32> = Vec::with_capacity(w);
        for j in 0..w
            invariant
                draws@.len() == h * w,
                total == h * w,
                base == i * w,
                base + w <= h * w,
                row@.len() == j,
                forall|b: int| 0 <= b < j ==> #[trigger] row@[b] == draws@[i * w + b],
        {
            row.push(draws[base + j]);
        }
        cells.push(row);
        base = base + w;
    }
    let gol = GolInstance { h, w, cells };
    assert forall|i: int| 0 <= i < h implies #[trigger] gol@[i].len() == w by {
        assert(gol@[i] == gol.cells@[i].deep_view());
    }
    assert forall|i: int, j: int| 0 <= i < h && 0 <= j < w implies #[trigger] gol@[i][j] == draws@[i * w + j] by {
        assert(gol@[i] == gol.cells@[i].deep_view());
        assert(gol.cells@[i]@[j] == draws@[i * w + j]);
    }
    gol
}

/// A board of `h` rows and `w` columns, each cell drawn at random as 0 or 1,
/// row after row.
pub fn gen_random(w: usize, h: usize) -> (gol: GolInstance)
    ensures
        gol.h == h,
        gol.w == w,
        gol.wf(),
        crate::solver::is_binary(gol@),
{
    let mut rng = thread_rng();
    let mut draws: Vec<i32> = Vec::new();
    for i in 0..h
        invariant
            draws@.len() == i * w,
            forall|k: int| 0 <= k < draws@.len() ==> 0 <= #[trigger] draws@[k] <= 1,
    {
        for j in 0..w
            invariant
                draws@.len() == i * w + j,
                forall|k: int| 0 <= k < draws@.len() ==> 0 <= #[trigger] draws@[k] <= 1,
        {
            draws.push(gen_range(&mut rng, 0, 2));
        }
        assert(i * w + w == (i + 1) * w) by (nonlinear_arith);
    }
    let gol = board_from_draws(w, h, &draws);
    assert forall|i: int, j: int| 0 <= i < gol@.len() && 0 <= j < gol@[i].len() implies 0 <= #[trigger] gol@[i][j]
        <= 1 by {
        assert(0 <= i * w + j < h * w) by (nonlinear_arith)
            requires
                0 <= i < h,
                0 <= j < w,
        ;
        assert(0 <= draws@[i * w + j] <= 1);
    }
    gol
}

} // verus!
