//! Backend selection for proxied routes: round-robin, which walks the
//! target list under a cursor, or random, which picks by an entropy
//! value the caller supplies.  The target list never changes after
//! start-up; only the cursor moves.

use vstd::prelude::*;

verus! {

#[derive(Clone, Copy, PartialEq, Eq, Structural, Debug)]
pub enum LoadBalancerMode {
    RoundRobin,
    Random,
}

/// The selector: an immutable target list, a cursor, and a mode.
pub struct LoadBalancer {
    pub targets: Vec<String>,
    pub cursor: usize,
    pub mode: LoadBalancerMode,
}

impl LoadBalancer {
    /// With any targets at all, the cursor stays inside the list.
    pub open spec fn wf(&self) -> bool {
        self.targets@.len() > 0 ==> self.cursor < self.targets@.len()
    }

    /// A selector over the given targets, starting at the first.
    pub fn new(targets: Vec<String>, mode: LoadBalancerMode) -> (r: LoadBalancer)
        ensures
            r.wf(),
            r.targets == targets,
            r.cursor == 0,
            r.mode == mode,
    {
        LoadBalancer { targets: targets, cursor: 0, mode: mode }
    }

    /// Picks one backend.  Round-robin returns the target under the
    /// cursor and advances it by one, wrapping; random returns the
    /// target the entropy value names and moves nothing.
    pub fn select(&mut self, entropy: u64) -> (r: String)
        requires
            old(self).wf(),
            old(self).targets@.len() > 0,
        ensures
            final(self).wf(),
            final(self).targets == old(self).targets,
            final(self).mode == old(self).mode,
            old(self).mode == LoadBalancerMode::RoundRobin ==> r@
                == old(self).targets@[old(self).cursor as int]@ && final(self).cursor as int == (
            old(self).cursor + 1) % (old(self).targets@.len() as int),
            old(self).mode == LoadBalancerMode::Random ==> r@ == old(self).targets@[(entropy % (
            old(self).targets@.len() as u64)) as int]@ && final(self).cursor == old(self).cursor,
    {
        match self.mode {
            LoadBalancerMode::RoundRobin => {
                let n = self.targets.len();
                let r = self.targets[self.cursor].clone();
                self.cursor = (self.cursor + 1) % n;
                r
            },
            LoadBalancerMode::Random => {
                let i = (entropy % (self.targets.len() as u64)) as usize;
                self.targets[i].clone()
            },
        }
    }
}

/// How often round-robin picks target `j` among the first `n` picks,
/// starting from cursor `start`: pick `i` lands on `(start + i) % len`.
pub open spec fn rr_count(len: int, start: int, n: int, j: int) -> int
    decreases n when n >= 0
{
    if n <= 0 {
        0
    } else {
        rr_count(len, start, n - 1, j) + if (start + (n - 1)) % len == j {
            1int
        } else {
            0int
        }
    }
}

/// Within one full turn of the list, each target is picked exactly once
/// as far as the turn has got: target `j` has been picked exactly when
/// its distance ahead of the cursor is inside the window.
proof fn lemma_rr_window(len: int, start: int, k: int, j: int)
    requires
        0 < len,
        0 <= start < len,
        0 <= j < len,
        0 <= k <= len,
    ensures
        rr_count(len, start, k, j) == if (j >= start && j - start < k) || (j < start && j + len
            - start < k) {
            1int
        } else {
            0int
        },
    decreases k,
{
    if k > 0 {
        lemma_rr_window(len, start, k - 1, j);
        assert((start + (k - 1)) % len == if start + k - 1 < len {
            start + k - 1
        } else {
            start + k - 1 - len
        }) by {
            if start + k - 1 < len {
                vstd::arithmetic::div_mod::lemma_small_mod((start + k - 1) as nat, len as nat);
            } else {
                vstd::arithmetic::div_mod::lemma_mod_sub_multiples_vanish(start + k - 1, len);
                vstd::arithmetic::div_mod::lemma_small_mod((start + k - 1 - len) as nat, len as nat);
            }
        }
    }
}

/// One full turn picks every target exactly once.
proof fn lemma_rr_one_turn(len: int, start: int, j: int)
    requires
        0 < len,
        0 <= start < len,
        0 <= j < len,
    ensures
        rr_count(len, start, len, j) == 1,
{
    lemma_rr_window(len, start, len, j);
}

/// Picks split into a first block and the rest, the cursor having moved
/// to where the first block leaves it.
proof fn lemma_rr_split(len: int, start: int, a: int, b: int, j: int)
    requires
        0 < len,
        0 <= start,
        0 <= a,
        0 <= b,
    ensures
        rr_count(len, start, a + b, j) == rr_count(len, start, a, j) + rr_count(
            len,
            (start + a) % len,
            b,
            j,
        ),
    decreases b,
{
    if b == 0 {
    } else {
        lemma_rr_split(len, start, a, b - 1, j);
        let s2 = (start + a) % len;
        assert((s2 + (b - 1)) % len == (start + a + (b - 1)) % len) by {
            vstd::arithmetic::div_mod::lemma_add_mod_noop(start + a, b - 1, len);
            vstd::arithmetic::div_mod::lemma_add_mod_noop((start + a) % len, b - 1, len);
            vstd::arithmetic::div_mod::lemma_mod_twice(start + a, len);
            vstd::arithmetic::div_mod::lemma_mod_twice(b - 1, len);
        }
    }
}

/// Round-robin is fair: over any whole number of turns, every target is
/// picked exactly that number of times.
pub proof fn lemma_round_robin_fair(len: int, start: int, reps: int, j: int)
    requires
        0 < len,
        0 <= start < len,
        0 <= j < len,
        0 <= reps,
    ensures
        rr_count(len, start, reps * len, j) == reps,
    decreases reps,
{
    if reps == 0 {
    } else {
        lemma_rr_one_turn(len, start, j);
        lemma_rr_split(len, start, len, (reps - 1) * len, j);
        assert((start + len) % len == start) by {
            vstd::arithmetic::div_mod::lemma_mod_add_multiples_vanish(start, len);
            vstd::arithmetic::div_mod::lemma_small_mod(start as nat, len as nat);
        }
        lemma_round_robin_fair(len, start, reps - 1, j);
        assert(len + (reps - 1) * len == reps * len) by (nonlinear_arith);
    }
}

} // verus!
