//! A single-pile counting game, the built-in example domain.
//!
//! A state is the size of one pile; a move removes between 1 and
//! min(pile, 10) counters; emptying the pile ends the game with reward 1.
//! Backpropagation does not alternate the reward's sign by depth, so this
//! domain is scored from a single participant's point of view.

use crate::model::GameState;
use vstd::prelude::*;

verus! {

/// A pile of `heap` counters.
#[derive(Debug, Clone, Copy)]
pub struct NimState {
    pub heap: u64,
}

impl NimState {
    pub fn new(heap: u64) -> (s: NimState)
        ensures
            s.heap == heap,
    {
        NimState { heap }
    }
}

impl GameState<u64> for NimState {
    /// The legal moves: 1 up to min(heap, 10).
    open spec fn spec_actions(&self) -> Seq<u64> {
        Seq::new(
            (if self.heap < 10 {
                self.heap
            } else {
                10
            }) as nat,
            |k: int| (k + 1) as u64,
        )
    }

    open spec fn spec_next(&self, action: u64) -> NimState {
        NimState { heap: (self.heap - action) as u64 }
    }

    open spec fn spec_terminal(&self) -> Option<i64> {
        if self.heap == 0 {
            Some(1i64)
        } else {
            None
        }
    }

    open spec fn spec_measure(&self) -> nat {
        self.heap as nat
    }

    proof fn lemma_actions_nonempty(&self) {
    }

    proof fn lemma_measure_decreases(&self, action: u64) {
        let acts = self.spec_actions();
        let k = choose|k: int| 0 <= k < acts.len() && acts[k] == action;
        assert(acts[k] == k + 1);
    }

    fn get_actions(&self) -> (r: Vec<u64>) {
        let max: u64 = if self.heap < 10 {
            self.heap
        } else {
            10
        };
        let mut v: Vec<u64> = Vec::new();
        let mut a: u64 = 1;
        while a <= max
            invariant
                1 <= a <= max + 1,
                max <= 10,
                v@.len() == a - 1,
                forall|k: int| 0 <= k < v@.len() ==> #[trigger] v@[k] == k + 1,
            decreases max + 1 - a,
        {
            v.push(a);
            a = a + 1;
        }
        proof {
            assert(v@ =~= self.spec_actions());
        }
        v
    }

    fn get_next_state(&self, action: u64) -> (r: NimState) {
        proof {
            let acts = self.spec_actions();
            let k = choose|k: int| 0 <= k < acts.len() && acts[k] == action;
            assert(acts[k] == k + 1);
        }
        NimState { heap: self.heap - action }
    }

    fn is_terminal(&self) -> (r: Option<i64>) {
        if self.heap == 0 {
            Some(1i64)
        } else {
            None
        }
    }

    fn clone_state(&self) -> (r: NimState) {
        NimState { heap: self.heap }
    }
}

} // verus!
