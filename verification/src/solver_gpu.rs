use vstd::prelude::*;

verus! {

/// How many dispatch pairs the buffer check runs.
pub const RUN_COUNT: u32 = 10;

/// The side of the square work group of the compute shader.
pub const WORK_GROUP_SIZE: u32 = 16;

/// `a / b` rounded up.
pub fn ceil_div(a: u32, b: u32) -> (q: u32)
    requires
        b > 0,
        a + b <= u32::MAX,
    ensures
        q == (a + b - 1) / (b as int),
        q * b >= a,
        q * b < a + b,
{
    let q = (a + b - 1) / b;
    proof {
        let ai = a as int;
        let bi = b as int;
        let qi = q as int;
        assert(qi * bi >= ai && qi * bi < ai + bi) by (nonlinear_arith)
            requires
                bi > 0,
                ai >= 0,
                qi == (ai + bi - 1) / bi,
        ;
    }
    q
}

/// The number of work groups along the rows and along the columns that
/// cover a board of `h` rows and `w` columns.
pub fn work_group_counts(h: usize, w: usize) -> (counts: (u32, u32))
    requires
        h + WORK_GROUP_SIZE <= u32::MAX,
        w + WORK_GROUP_SIZE <= u32::MAX,
    ensures
        counts.0 == (h + WORK_GROUP_SIZE - 1) / (WORK_GROUP_SIZE as int),
        counts.1 == (w + WORK_GROUP_SIZE - 1) / (WORK_GROUP_SIZE as int),
        counts.0 * WORK_GROUP_SIZE >= h,
        counts.1 * WORK_GROUP_SIZE >= w,
{
    let group_count_x = ceil_div(h as u32, WORK_GROUP_SIZE);
    let group_count_y = ceil_div(w as u32, WORK_GROUP_SIZE);
    (group_count_x, group_count_y)
}

/// The descriptor set that dispatch `k` binds: set 0 reads buffer 0 and
/// writes buffer 1, set 1 (the reversed one) reads buffer 1 and writes
/// buffer 0.
pub open spec fn set_of_dispatch(k: nat) -> nat {
    k % 2
}

/// The buffer that dispatch `k` reads.
pub open spec fn dispatch_input(k: nat) -> nat {
    set_of_dispatch(k)
}

/// The buffer that dispatch `k` writes.
pub open spec fn dispatch_output(k: nat) -> nat {
    (1 - set_of_dispatch(k)) as nat
}

/// The buffer that holds the board after `t` dispatches; both buffers start
/// with the board.
pub open spec fn result_buffer(t: nat) -> nat {
    t % 2
}

/// The descriptor set of each of the `t` dispatches that run `t`
/// generations: `t / 2` pairs of set 0 then set 1, and one more set 0 when
/// `t` is odd.
pub fn dispatch_sequence(t: usize) -> (sets: Vec<u8>)
    ensures
        sets@.len() == t,
        forall|k: int| 0 <= k < t ==> #[trigger] sets@[k] == set_of_dispatch(k as nat),
{
    let mut sets: Vec<u8> = Vec::new();
    let run_count: usize = t / 2;
    for i in 0..run_count
        invariant
            run_count == t / 2,
            sets@.len() == 2 * i,
            forall|k: int| 0 <= k < sets@.len() ==> #[trigger] sets@[k] == set_of_dispatch(k as nat),
    {
        sets.push(0);
        sets.push(1);
    }
    if result_in_second_buffer(t) {
        sets.push(0);
    }
    sets
}

/// Whether the board is read back from the second buffer after `t`
/// dispatches, that is whether `t` is odd.
pub fn result_in_second_buffer(t: usize) -> (second: bool)
    ensures
        second == (result_buffer(t as nat) == 1),
{
    let second = t & 1 != 0;
    assert(second == (t % 2 == 1)) by (bit_vector)
        requires
            second == (t & 1 != 0),
    ;
    second
}

/// Each dispatch reads what the one before it wrote, the first reads the
/// buffer that was filled first, and after the last dispatch the board is
/// read back from the buffer that dispatch wrote.
pub proof fn law_dispatches_chain(t: nat)
    ensures
        dispatch_input(0) == 0,
        forall|k: nat| 0 < k < t ==> #[trigger] dispatch_input(k) == dispatch_output((k - 1) as nat),
        t > 0 ==> result_buffer(t) == dispatch_output((t - 1) as nat),
        t == 0 ==> result_buffer(t) == 0,
{
}

/// Whether `data[n] == n * factor` for every index `n`.
pub fn is_scaled_sequence(data: &[u32], factor: u32) -> (ok: bool)
    requires
        data@.len() <= u32::MAX + 1,
    ensures
        ok == (forall|n: int| 0 <= n < data@.len() ==> #[trigger] data@[n] == n * factor),
{
    let len = data.len();
    for n in 0..len
        invariant
            len == data@.len(),
            len <= u32::MAX + 1,
            forall|m: int| 0 <= m < n ==> #[trigger] data@[m] == m * factor,
    {
        assert(n * factor <= u32::MAX * u32::MAX) by (nonlinear_arith)
            requires
                n <= u32::MAX,
                factor <= u32::MAX,
        ;
        let expected: u64 = (n as u64) * (factor as u64);
        if data[n] as u64 != expected {
            return false;
        }
    }
    true
}

/// Whether `data[n] == n + shift` for every index `n`.
pub fn is_shifted_sequence(data: &[u32], shift: u32) -> (ok: bool)
    requires
        data@.len() <= u32::MAX + 1,
    ensures
        ok == (forall|n: int| 0 <= n < data@.len() ==> #[trigger] data@[n] == n + shift),
{
    let len = data.len();
    for n in 0..len
        invariant
            len == data@.len(),
            len <= u32::MAX + 1,
            forall|m: int| 0 <= m < n ==> #[trigger] data@[m] == m + shift,
    {
        let expected: u64 = (n as u64) + (shift as u64);
        if data[n] as u64 != expected {
            return false;
        }
    }
    true
}

} // verus!
