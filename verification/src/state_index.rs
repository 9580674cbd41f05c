//! A bijective registry assigning each distinct state a densely packed
//! integer id, in order of first appearance. The capability is a trait so
//! alternate backing implementations can be swapped without affecting
//! callers; the `Vec` backing below is one such implementation.

use vstd::prelude::*;

use crate::state::State;

verus! {

/// Registry of states by dense id. Ids are assigned contiguously starting
/// at 0 and are never reused or overwritten; there is no removal.
pub trait StateIndex: Sized {
    /// The registered states, by id.
    spec fn states(&self) -> Seq<Seq<Seq<char>>>;

    /// A registry with nothing in it yet.
    fn empty() -> (s: Self)
        ensures
            s.states() == Seq::<Seq<Seq<char>>>::empty(),
    ;

    /// The state registered under `index`, or nothing when `index` is out
    /// of range.
    fn get_state(&self, index: usize) -> (r: Option<&State>)
        ensures
            match r {
                Some(s) => index < self.states().len() && s@ == self.states()[index as int],
                None => index >= self.states().len(),
            },
    ;

    /// The id under which a state equal to `state` was first registered,
    /// or nothing when no such state was. Lookup is by content equality.
    fn get_index(&self, state: &State) -> (r: Option<usize>)
        ensures
            match r {
                Some(i) => i < self.states().len() && self.states()[i as int] == state@
                    && (forall|j: int| 0 <= j < i ==> self.states()[j] != state@),
                None => forall|j: int| 0 <= j < self.states().len() ==> self.states()[j] != state@,
            },
    ;

    /// Registers a new state at the next free id.
    fn insert(&mut self, index: usize, state: State)
        requires
            index == old(self).states().len(),
        ensures
            final(self).states() == old(self).states().push(state@),
    ;

    /// Number of registered states.
    fn len(&self) -> (n: usize)
        ensures
            n == self.states().len(),
    ;
}

impl StateIndex for Vec<State> {
    open spec fn states(&self) -> Seq<Seq<Seq<char>>> {
        self.deep_view()
    }

    fn empty() -> (s: Self) {
        let v: Vec<State> = Vec::new();
        proof {
            assert(v.deep_view() =~= Seq::<Seq<Seq<char>>>::empty());
        }
        v
    }

    fn get_state(&self, index: usize) -> (r: Option<&State>) {
        if index < self.len() {
            Some(&self[index])
        } else {
            None
        }
    }

    fn get_index(&self, state: &State) -> (r: Option<usize>) {
        let n = self.len();
        let mut i: usize = 0;
        while i < n
            invariant
                0 <= i <= n,
                n == self@.len(),
                forall|j: int| 0 <= j < i ==> self.deep_view()[j] != state@,
            decreases n - i,
        {
            if &self[i] == state {
                return Some(i);
            }
            i = i + 1;
        }
        None
    }

    fn insert(&mut self, index: usize, state: State) {
        let ghost sv = state@;
        let ghost pre = self.deep_view();
        self.push(state);
        proof {
            assert(final(self).deep_view() =~= pre.push(sv));
        }
    }

    fn len(&self) -> (n: usize) {
        let v: &Vec<State> = self;
        v.len()
    }
}

} // verus!
