//! Trial orders: the order in which an agent tries the values of its
//! domain, fixed when the agent is made. Without a seed every agent tries
//! 0, 1, 2, ...; with a seed each agent gets a shuffle of its own that
//! depends on nothing but the seed and the agent's id.

use vstd::prelude::*;

verus! {

/// A trial order for a domain of `n` values: each value once.
pub open spec fn is_trial_order(order: Seq<usize>, n: nat) -> bool {
    &&& order.len() == n
    &&& forall|i: int| 0 <= i < n ==> #[trigger] order[i] < n
    &&& forall|i: int, j: int| 0 <= i < j < n ==> order[i] != order[j]
}

/// Multiplier of the linear congruential generator behind the shuffle.
pub const MULTIPLIER: u64 = 6364136223846793005;

/// Increment of the generator.
pub const INCREMENT: u64 = 1442695040888963407;

/// The state that follows `state` in the generator, modulo 2^64.
pub open spec fn next_random(state: u64) -> u64 {
    state.wrapping_mul(MULTIPLIER).wrapping_add(INCREMENT)
}

/// The values 0, 1, ..., n - 1 in rising order.
pub open spec fn identity_order(n: nat) -> Seq<usize> {
    Seq::new(n, |i: int| i as usize)
}

/// `order` with the entries at `i` and `j` exchanged.
pub open spec fn swapped(order: Seq<usize>, i: int, j: int) -> Seq<usize> {
    order.update(i, order[j]).update(j, order[i])
}

/// The shuffle of the entries `0..=i` of `order`: from `i` downwards each
/// entry is exchanged with one at or below it, which the generator picks.
pub open spec fn shuffled(order: Seq<usize>, state: u64, i: int) -> Seq<usize>
    decreases i,
{
    if i <= 0 {
        order
    } else {
        let next = next_random(state);
        let j = next as int % (i + 1);
        shuffled(swapped(order, i, j), next, i - 1)
    }
}

/// The trial order of agent `id` among `n` agents.
pub open spec fn spec_trial_order(n: nat, seed: Option<u64>, id: usize) -> Seq<usize> {
    match seed {
        None => identity_order(n),
        Some(s) => shuffled(identity_order(n), s.wrapping_add(id as u64), n - 1),
    }
}

/// Exchanging two entries of a trial order gives a trial order.
pub proof fn lemma_swapped_is_order(order: Seq<usize>, n: nat, i: int, j: int)
    requires
        is_trial_order(order, n),
        0 <= i < n,
        0 <= j < n,
    ensures
        is_trial_order(swapped(order, i, j), n),
{
    let s = swapped(order, i, j);
    assert forall|a: int, b: int| 0 <= a < b < n implies s[a] != s[b] by {
        let pa = if a == i {
            j
        } else if a == j {
            i
        } else {
            a
        };
        let pb = if b == i {
            j
        } else if b == j {
            i
        } else {
            b
        };
        assert(s[a] == order[pa]);
        assert(s[b] == order[pb]);
        if pa < pb {
            assert(order[pa] != order[pb]);
        } else {
            assert(order[pb] != order[pa]);
        }
    }
}

/// A shuffle of a trial order is a trial order.
pub proof fn lemma_shuffled_is_order(order: Seq<usize>, n: nat, state: u64, i: int)
    requires
        is_trial_order(order, n),
        i < n,
    ensures
        is_trial_order(shuffled(order, state, i), n),
    decreases i,
{
    if i > 0 {
        let next = next_random(state);
        let j = next as int % (i + 1);
        lemma_swapped_is_order(order, n, i, j);
        lemma_shuffled_is_order(swapped(order, i, j), n, next, i - 1);
    }
}

/// Every agent's trial order holds each value of the domain once,
/// whatever the seed.
pub proof fn lemma_trial_order_is_order(n: nat, seed: Option<u64>, id: usize)
    requires
        n <= usize::MAX,
    ensures
        is_trial_order(spec_trial_order(n, seed, id), n),
{
    if seed is Some {
        lemma_shuffled_is_order(identity_order(n), n, seed->0.wrapping_add(id as u64), n - 1);
    }
}

/// Makes the trial order of agent `id` among `n` agents.
pub fn trial_order(n: usize, seed: Option<u64>, id: usize) -> (order: Vec<usize>)
    ensures
        order@ == spec_trial_order(n as nat, seed, id),
        is_trial_order(order@, n as nat),
{
    let mut order: Vec<usize> = Vec::new();
    let mut k: usize = 0;
    while k < n
        invariant
            k <= n,
            order@ == identity_order(k as nat),
        decreases n - k,
    {
        order.push(k);
        assert(order@ =~= identity_order((k + 1) as nat));
        k += 1;
    }
    proof {
        lemma_trial_order_is_order(n as nat, seed, id);
    }
    match seed {
        None => order,
        Some(s) => {
            if n == 0 {
                return order;
            }
            let mut state: u64 = s.wrapping_add(id as u64);
            let mut i: usize = n - 1;
            while i > 0
                invariant
                    i < n,
                    order@.len() == n,
                    shuffled(order@, state, i as int) == spec_trial_order(n as nat, seed, id),
                decreases i,
            {
                state = state.wrapping_mul(MULTIPLIER).wrapping_add(INCREMENT);
                let j = (state % (i as u64 + 1)) as usize;
                let at_i = order[i];
                let at_j = order[j];
                order[i] = at_j;
                order[j] = at_i;
                i -= 1;
            }
            order
        },
    }
}

} // verus!
