//! A `State` is an immutable ordered tuple of tokens: one node of the
//! transition graph. Equality is by token content.

use vstd::prelude::*;

verus! {

/// An ordered sequence of tokens treated as one atomic node in the
/// transition graph. For a model of chain order `k`, every state holds
/// exactly `k` tokens.
pub struct State(pub Vec<String>);

impl View for State {
    type V = Seq<Seq<char>>;

    open spec fn view(&self) -> Seq<Seq<char>> {
        self.0.deep_view()
    }
}

impl DeepView for State {
    type V = Seq<Seq<char>>;

    open spec fn deep_view(&self) -> Seq<Seq<char>> {
        self@
    }
}

impl State {
    pub fn new(tokens: Vec<String>) -> (s: Self)
        ensures
            s@ == tokens.deep_view(),
    {
        Self(tokens)
    }

    /// Builds a state from the last `state_size` tokens of a slice
    /// (or from all of them, when fewer are available).
    pub fn from_slice(tokens: &[String], state_size: usize) -> (s: Self)
        ensures
            s@ == tokens.deep_view().subrange(
                if tokens.len() >= state_size { tokens.len() - state_size } else { 0 },
                tokens.len() as int,
            ),
    {
        let start: usize = if tokens.len() >= state_size {
            tokens.len() - state_size
        } else {
            0
        };
        let mut picked: Vec<String> = Vec::new();
        let mut i: usize = start;
        while i < tokens.len()
            invariant
                start <= i <= tokens.len(),
                picked.deep_view() == tokens.deep_view().subrange(start as int, i as int),
            decreases tokens.len() - i,
        {
            let ghost pre = picked.deep_view();
            picked.push(tokens[i].clone());
            proof {
                let post = picked.deep_view();
                let goal = tokens.deep_view().subrange(start as int, i + 1);
                assert(picked@.len() == pre.len() + 1);
                assert forall|j: int| 0 <= j < post.len() implies post[j] == goal[j] by {
                    if j < i - start {
                        assert(pre[j] == tokens.deep_view().subrange(start as int, i as int)[j]);
                        assert(post[j] == pre[j]);
                    } else {
                        assert(picked@[j] == tokens@[i as int]);
                    }
                }
                assert(post =~= goal);
            }
            i = i + 1;
        }
        Self::new(picked)
    }

    /// The tokens this state is made of, in order.
    pub fn tokens(&self) -> (r: &Vec<String>)
        ensures
            r.deep_view() == self@,
    {
        &self.0
    }
}

impl Clone for State {
    fn clone(&self) -> (r: Self)
        ensures
            r@ == self@,
    {
        let c = State(self.0.clone());
        proof {
            assert(c@ =~= self@);
        }
        c
    }
}

impl PartialEq for State {
    fn eq(&self, other: &State) -> (r: bool) {
        if self.0.len() != other.0.len() {
            proof {
                assert(self@.len() != other@.len());
            }
            return false;
        }
        let n = self.0.len();
        let mut i: usize = 0;
        while i < n
            invariant
                0 <= i <= n,
                n == self.0.len() == other.0.len(),
                forall|j: int| 0 <= j < i ==> self@[j] == other@[j],
            decreases n - i,
        {
            if !(self.0[i] == other.0[i]) {
                proof {
                    assert(self@[i as int] != other@[i as int]);
                }
                return false;
            }
            i = i + 1;
        }
        proof {
            assert(self@ =~= other@);
        }
        true
    }
}

impl vstd::std_specs::cmp::PartialEqSpecImpl for State {
    open spec fn obeys_eq_spec() -> bool {
        true
    }

    open spec fn eq_spec(&self, other: &State) -> bool {
        self@ == other@
    }
}

} // verus!
