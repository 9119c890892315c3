//! The split of the agents among the workers: contiguous ranges of ids,
//! as even as can be, with the first workers taking one agent more where
//! the division leaves a remainder.

use vstd::prelude::*;
use vstd::arithmetic::div_mod::lemma_fundamental_div_mod;

verus! {

/// The id of the first agent of worker `w`, among `t` workers that share
/// `n` agents.
pub open spec fn part_start(n: int, t: int, w: int) -> int {
    w * (n / t) + if w < n % t {
        w
    } else {
        n % t
    }
}

/// The ranges of a split: they follow one another without a gap, start
/// at agent 0 and end at agent `n`.
pub open spec fn is_partition(parts: Seq<(usize, usize)>, n: int) -> bool {
    &&& parts.len() >= 1
    &&& parts[0].0 == 0
    &&& parts[parts.len() - 1].1 == n
    &&& forall|w: int| 0 <= w < parts.len() ==> (#[trigger] parts[w]).0 <= parts[w].1
    &&& forall|w: int| 0 <= w < parts.len() - 1 ==> (#[trigger] parts[w]).1 == parts[w + 1].0
}

/// The split covers the agents: it starts at 0, ends at `n`, and each
/// worker has `n / t` agents, or one more if it is among the first
/// `n % t`.
pub proof fn lemma_part_start(n: int, t: int, w: int)
    requires
        0 <= n,
        1 <= t,
        0 <= w < t,
    ensures
        part_start(n, t, 0) == 0,
        part_start(n, t, t) == n,
        part_start(n, t, w + 1) - part_start(n, t, w) == n / t + if w < n % t {
            1int
        } else {
            0int
        },
        0 <= part_start(n, t, w) <= part_start(n, t, w + 1) <= n,
{
    let q = n / t;
    let r = n % t;
    lemma_fundamental_div_mod(n, t);
    assert(0 <= r < t);
    assert(0 <= q) by (nonlinear_arith)
        requires
            0 <= n,
            1 <= t,
            q == n / t,
    ;
    assert((w + 1) * q == w * q + q) by (nonlinear_arith);
    assert(0 * q == 0);
    assert(0 <= w * q) by (nonlinear_arith)
        requires
            0 <= w,
            0 <= q,
    ;
    assert((w + 1) * q <= t * q) by (nonlinear_arith)
        requires
            w + 1 <= t,
            0 <= q,
    ;
    assert(t * q == t * (n / t));
}

/// The ranges of a split lie within `0..=n`.
pub proof fn lemma_partition_bounds(parts: Seq<(usize, usize)>, n: int, w: int)
    requires
        is_partition(parts, n),
        0 <= w < parts.len(),
    ensures
        parts[w].1 <= n,
    decreases parts.len() - w,
{
    if w + 1 < parts.len() {
        lemma_partition_bounds(parts, n, w + 1);
        assert(parts[w].1 == parts[w + 1].0);
        assert(parts[w + 1].0 <= parts[w + 1].1);
    }
}

/// Splits `num_agents` agents among `num_threads` workers.
pub fn partition(num_agents: usize, num_threads: usize) -> (parts: Vec<(usize, usize)>)
    requires
        num_threads >= 1,
    ensures
        parts.len() == num_threads,
        forall|w: int|
            0 <= w < num_threads ==> (#[trigger] parts[w]).0 == part_start(
                num_agents as int,
                num_threads as int,
                w,
            ) && parts[w].1 == part_start(num_agents as int, num_threads as int, w + 1),
        is_partition(parts@, num_agents as int),
{
    let agents_per_thread = num_agents / num_threads;
    let mut remainder = num_agents % num_threads;
    let ghost n = num_agents as int;
    let ghost t = num_threads as int;
    let mut parts: Vec<(usize, usize)> = Vec::new();
    let mut start: usize = 0;
    let mut w: usize = 0;
    while w < num_threads
        invariant
            w <= num_threads,
            1 <= num_threads,
            n == num_agents,
            t == num_threads,
            agents_per_thread == n / t,
            remainder == if w < n % t {
                n % t - w
            } else {
                0
            },
            parts.len() == w,
            start == part_start(n, t, w as int),
            forall|v: int|
                0 <= v < w ==> (#[trigger] parts[v]).0 == part_start(n, t, v) && parts[v].1
                    == part_start(n, t, v + 1),
        decreases num_threads - w,
    {
        proof {
            lemma_part_start(n, t, w as int);
        }
        let size = if remainder > 0 {
            remainder -= 1;
            agents_per_thread + 1
        } else {
            agents_per_thread
        };
        let end = start + size;
        parts.push((start, end));
        start = end;
        w += 1;
    }
    proof {
        lemma_part_start(n, t, 0);
        assert forall|v: int| 0 <= v < parts.len() implies (#[trigger] parts[v]).0
            <= parts[v].1 by {
            lemma_part_start(n, t, v);
        }
    }
    parts
}

} // verus!
