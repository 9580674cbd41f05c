//! The Markov model: a state registry plus a transition count matrix,
//! built in one pass over a token sequence and read by weighted random
//! walks.
//!
//! Training slides a window of width `k` (the chain order) over the
//! tokens. Each window is a state; each adjacent pair of windows records
//! one transition, stored at row = id of the newer state, column = id of
//! the prior state. Prediction reads the row of the current state and
//! samples a column with probability proportional to its count; an
//! unknown state or an empty row falls back to a uniformly random state.

use vstd::prelude::*;

use crate::matrix::{
    TransitionMatrix, mat_rows, mat_zero, mat_get, mat_set, mat_row_entries, row_lookup,
    row_insert, row_sorted, lemma_row_insert_lookup, lemma_row_insert_sorted,
    lemma_row_insert_columns, lemma_row_lookup_in_range,
};
use crate::sampler::{random_below, weighted_choice, weight_sum, lemma_weight_sum_positive};
use crate::state::State;
use crate::state_index::StateIndex;

verus! {

/// Training rejects input with fewer tokens than the chain order.
#[derive(Clone, Copy, PartialEq, Eq, Structural, Debug)]
pub enum TrainError {
    InsufficientInput,
}

/// The window of width `k` starting at token position `i`.
pub open spec fn window_at(tokens: Seq<Seq<char>>, k: nat, i: int) -> Seq<Seq<char>> {
    tokens.subrange(i, i + k)
}

/// How many windows a training pass over `len` tokens produces.
pub open spec fn num_windows(len: int, k: nat) -> int {
    len - k + 1
}

/// The distinct windows among the first `p`, in order of first appearance:
/// the id assignment after `p` windows have been processed.
pub open spec fn states_after(tokens: Seq<Seq<char>>, k: nat, p: int) -> Seq<Seq<Seq<char>>>
    decreases p,
{
    if p <= 0 {
        Seq::empty()
    } else {
        let prev = states_after(tokens, k, p - 1);
        let w = window_at(tokens, k, p - 1);
        if prev.contains(w) {
            prev
        } else {
            prev.push(w)
        }
    }
}

/// How many of the first `p` windows follow window `a` immediately with
/// window `b`: the number of recorded `a` to `b` transitions.
pub open spec fn pair_count(
    tokens: Seq<Seq<char>>,
    k: nat,
    p: int,
    a: Seq<Seq<char>>,
    b: Seq<Seq<char>>,
) -> nat
    decreases p,
{
    if p <= 1 {
        0
    } else {
        pair_count(tokens, k, p - 1, a, b) + if window_at(tokens, k, p - 1) == b && window_at(
            tokens,
            k,
            p - 2,
        ) == a {
            1 as nat
        } else {
            0 as nat
        }
    }
}

/// A count held in 16 bits: saturates instead of wrapping when a
/// transition recurs more often than the storage can count.
pub open spec fn sat16(n: nat) -> u16 {
    if n >= 65535 {
        65535u16
    } else {
        n as u16
    }
}

/// What the matrix holds at row `r`, column `c` after training: nothing
/// when no transition from state `c` to state `r` was seen, else the
/// saturated count.
pub open spec fn trained_entry(
    tokens: Seq<Seq<char>>,
    k: nat,
    p: int,
    states: Seq<Seq<Seq<char>>>,
    r: int,
    c: int,
) -> Option<u16> {
    if pair_count(tokens, k, p, states[c], states[r]) == 0 {
        None
    } else {
        Some(sat16(pair_count(tokens, k, p, states[c], states[r])))
    }
}

/// The weights of a matrix row, in entry order.
pub open spec fn row_weights(row: Seq<(usize, u16)>) -> Seq<u16> {
    row.map_values(|e: (usize, u16)| e.1)
}

/// Well-formedness of a model: at least one state, a matrix at least as
/// large as the state count, sorted rows, every stored count at least 1
/// (sparsity is exact: a zero count is never materialized), and every
/// stored column naming a registered state.
pub open spec fn model_wf(
    order: u32,
    states: Seq<Seq<Seq<char>>>,
    rows: Seq<Seq<(usize, u16)>>,
) -> bool {
    &&& order >= 1
    &&& 1 <= states.len() <= rows.len()
    &&& forall|r: int| 0 <= r < rows.len() ==> row_sorted(#[trigger] rows[r])
    &&& forall|r: int, j: int|
        0 <= r < rows.len() && 0 <= j < rows[r].len() ==> (#[trigger] rows[r][j]).0 < states.len()
            && rows[r][j].1 >= 1
}

/// A model of chain order `state_size`: one state registry and one count
/// matrix, read-only once built.
pub struct MarkovGeneratorBase<S: StateIndex> {
    pub mat: TransitionMatrix,
    pub states: S,
    pub state_size: u32,
}

impl<S: StateIndex> MarkovGeneratorBase<S> {
    /// The registered states, by id.
    pub open spec fn states_view(&self) -> Seq<Seq<Seq<char>>> {
        self.states.states()
    }

    /// The matrix contents, row by row.
    pub open spec fn rows_view(&self) -> Seq<Seq<(usize, u16)>> {
        mat_rows(self.mat)
    }

    pub open spec fn wf(&self) -> bool {
        model_wf(self.state_size, self.states_view(), self.rows_view())
    }

    /// Trains a model: registers each distinct window of width
    /// `state_size` in order of first appearance and counts each adjacent
    /// window pair at (row = newer window's id, column = prior window's
    /// id). Fails exactly when there are fewer tokens than the chain
    /// order; counts saturate rather than wrap.
    pub fn from_tokens(tokens: &Vec<String>, state_size: u32) -> (r: Result<Self, TrainError>)
        requires
            state_size >= 1,
        ensures
            r is Ok <==> tokens.deep_view().len() >= state_size,
            match r {
                Ok(m) => {
                    let dv = tokens.deep_view();
                    let k = state_size as nat;
                    let nw = num_windows(dv.len() as int, k);
                    &&& m.state_size == state_size
                    &&& m.states_view() == states_after(dv, k, nw)
                    &&& m.rows_view().len() == nw
                    &&& m.wf()
                    &&& forall|r2: int, c2: int|
                        0 <= r2 < m.states_view().len() && 0 <= c2 < m.states_view().len()
                            ==> row_lookup(#[trigger] m.rows_view()[r2], #[trigger] (c2 as usize))
                            == trained_entry(dv, k, nw, m.states_view(), r2, c2)
                    &&& forall|r2: int|
                        m.states_view().len() <= r2 < m.rows_view().len()
                            ==> (#[trigger] m.rows_view()[r2]) == Seq::<(usize, u16)>::empty()
                },
                Err(e) => e == TrainError::InsufficientInput,
            },
    {
        let ghost dv = tokens.deep_view();
        let ghost k_spec = state_size as nat;
        let k = state_size as usize;
        if tokens.len() < k {
            return Err(TrainError::InsufficientInput);
        }
        let last_start = tokens.len() - k;
        let ghost nw = num_windows(dv.len() as int, k_spec);
        assert(nw == last_start + 1);
        let max_possible_states = last_start + 1;

        let mut state_indices: S = S::empty();
        let mut mat = mat_zero(max_possible_states);
        let mut last_state_index: Option<usize> = None;
        let mut i: usize = 0;

        proof {
            assert(forall|r: int|
                0 <= r < nw ==> (#[trigger] mat_rows(mat)[r]) == Seq::<(usize, u16)>::empty());
        }

        while i <= last_start
            invariant
                state_size >= 1,
                k == state_size as usize,
                k_spec == state_size as nat,
                dv == tokens.deep_view(),
                dv.len() == tokens@.len(),
                tokens@.len() <= usize::MAX,
                k <= tokens@.len(),
                last_start == tokens@.len() - k,
                nw == last_start + 1,
                0 <= i <= nw,
                mat_rows(mat).len() == nw,
                state_indices.states() == states_after(dv, k_spec, i as int),
                state_indices.states().len() <= i,
                forall|a: int, b: int|
                    0 <= a < b < state_indices.states().len()
                        ==> #[trigger] state_indices.states()[a] != #[trigger] state_indices.states()[b],
                forall|r: int| 0 <= r < nw ==> row_sorted(#[trigger] mat_rows(mat)[r]),
                forall|r: int, j: int|
                    0 <= r < nw && 0 <= j < mat_rows(mat)[r].len() ==> (#[trigger] mat_rows(
                        mat,
                    )[r][j]).0 < state_indices.states().len() && mat_rows(mat)[r][j].1 >= 1,
                forall|r: int|
                    state_indices.states().len() <= r < nw ==> (#[trigger] mat_rows(mat)[r])
                        == Seq::<(usize, u16)>::empty(),
                forall|r2: int, c2: int|
                    0 <= r2 < state_indices.states().len() && 0 <= c2
                        < state_indices.states().len() ==> row_lookup(
                        #[trigger] mat_rows(mat)[r2],
                        #[trigger] (c2 as usize),
                    ) == trained_entry(dv, k_spec, i as int, state_indices.states(), r2, c2),
                match last_state_index {
                    Some(c) => i >= 1 && (c as int) < state_indices.states().len()
                        && state_indices.states()[c as int] == window_at(dv, k_spec, i - 1),
                    None => i == 0,
                },
            decreases last_start + 1 - i,
        {
            let cur = window_state(tokens, i, k);
            let ghost w = window_at(dv, k_spec, i as int);
            let ghost pre_states = state_indices.states();

            let row = match state_indices.get_index(&cur) {
                Some(r) => {
                    proof {
                        assert(pre_states.contains(w)) by {
                            assert(pre_states[r as int] == w);
                        }
                        assert(states_after(dv, k_spec, i + 1) == pre_states);
                    }
                    r
                },
                None => {
                    let row = state_indices.len();
                    state_indices.insert(row, cur.clone());
                    proof {
                        assert(!pre_states.contains(w));
                        lemma_states_contains(dv, k_spec, i as int);
                        assert forall|t: int| 0 <= t < i implies window_at(dv, k_spec, t) != w by {
                            if window_at(dv, k_spec, t) == w {
                                assert(states_after(dv, k_spec, i as int).contains(w));
                            }
                        }
                        lemma_pair_count_unseen(dv, k_spec, i as int, w);
                        assert(states_after(dv, k_spec, i + 1) == pre_states.push(w));
                    }
                    row
                },
            };
            let ghost sa = state_indices.states();
            proof {
                assert(sa == states_after(dv, k_spec, i + 1));
                assert(sa[row as int] == w);
                assert(sa.len() <= i + 1);
                assert forall|a: int, b: int|
                    0 <= a < b < sa.len() implies #[trigger] sa[a] != #[trigger] sa[b] by {
                    if b >= pre_states.len() {
                        assert(sa.len() == pre_states.len() + 1 && b == pre_states.len());
                        assert(sa[b] == w);
                        assert(pre_states[a] != w);
                    }
                }
            }

            if let Some(col) = last_state_index {
                let ghost pre_rows = mat_rows(mat);
                let ghost old_row = pre_rows[row as int];
                let current = mat_get(&mat, row, col);
                let bumped: u16 = match current {
                    Some(count) => if count < 65535 {
                        count + 1
                    } else {
                        count
                    },
                    None => 1,
                };
                mat_set(&mut mat, row, col, bumped);
                proof {
                    let n0 = pair_count(dv, k_spec, i as int, pre_states[col as int], sa[row as int]);
                    if (row as int) < pre_states.len() {
                        assert(row_lookup(pre_rows[row as int], (col as int) as usize)
                            == trained_entry(dv, k_spec, i as int, pre_states, row as int, col as int));
                        assert(sa[row as int] == pre_states[row as int]);
                    } else {
                        assert(pre_rows[row as int] == Seq::<(usize, u16)>::empty());
                        assert(n0 == 0);
                    }
                    assert(bumped == sat16(n0 + 1));
                    lemma_row_insert_sorted(old_row, col, bumped);
                    lemma_row_insert_columns(old_row, col, bumped);
                    let post_rows = mat_rows(mat);
                    assert forall|r2: int, c2: int|
                        0 <= r2 < sa.len() && 0 <= c2 < sa.len() implies row_lookup(
                        #[trigger] post_rows[r2],
                        #[trigger] (c2 as usize),
                    ) == trained_entry(dv, k_spec, i + 1, sa, r2, c2) by {
                        lemma_entry_step(
                            dv,
                            k_spec,
                            i as int,
                            pre_states,
                            sa,
                            pre_rows,
                            post_rows,
                            row,
                            col,
                            bumped,
                            r2 as usize,
                            c2 as usize,
                        );
                    }
                    assert forall|r2: int, j: int|
                        0 <= r2 < nw && 0 <= j < post_rows[r2].len() implies (#[trigger] post_rows[r2][j]).0
                        < sa.len() && post_rows[r2][j].1 >= 1 by {
                        if r2 == row as int {
                            lemma_bumped_entries(old_row, col, bumped, sa.len() as int, j);
                        }
                    }
                    assert forall|r2: int| sa.len() <= r2 < nw implies (#[trigger] post_rows[r2])
                        == Seq::<(usize, u16)>::empty() by {}
                }
            } else {
                proof {
                    assert(i == 0);
                    assert forall|r2: int, c2: int| 0 <= r2 < sa.len() && 0 <= c2 < sa.len() implies
                        row_lookup(#[trigger] mat_rows(mat)[r2], #[trigger] (c2 as usize)) == trained_entry(
                        dv,
                        k_spec,
                        i + 1,
                        sa,
                        r2,
                        c2,
                    ) by {
                        assert(sa.len() <= 1);
                        assert(pair_count(dv, k_spec, i + 1, sa[c2], sa[r2]) == 0);
                        assert(mat_rows(mat)[r2] == Seq::<(usize, u16)>::empty());
                    }
                }
            }

            last_state_index = Some(row);
            i = i + 1;
        }

        proof {
            assert(i == nw);
            assert(state_indices.states().len() >= 1) by {
                assert(states_after(dv, k_spec, nw).len() >= 1) by {
                    assert(nw >= 1);
                    let prev = states_after(dv, k_spec, nw - 1);
                    if !prev.contains(window_at(dv, k_spec, nw - 1)) {
                        assert(states_after(dv, k_spec, nw) == prev.push(
                            window_at(dv, k_spec, nw - 1),
                        ));
                    }
                }
            }
        }
        let m = MarkovGeneratorBase { mat, states: state_indices, state_size };
        Ok(m)
    }

    /// A uniformly random registered state id.
    fn random_state_index(&self) -> (r: usize)
        requires
            self.states_view().len() > 0,
        ensures
            r < self.states_view().len(),
    {
        random_below(self.states.len())
    }

    /// A uniformly random registered state. Used as the generation seed
    /// and as the fallback for unknown states and dead-end rows.
    pub fn random_state(&self) -> (s: &State)
        requires
            self.wf(),
        ensures
            exists|i: int| 0 <= i < self.states_view().len() && s@ == self.states_view()[i],
    {
        let idx = self.random_state_index();
        match self.states.get_state(idx) {
            Some(s) => s,
            None => unreached(),
        }
    }

    /// The next state of the random walk. A state that was never
    /// registered is replaced by a random one; a registered state whose
    /// row is empty (a dead end) falls back to a random state; otherwise
    /// one of the row's columns is drawn with probability proportional to
    /// its count and its state is returned.
    pub fn predict(&self, current_state: &State) -> (s: State)
        requires
            self.wf(),
        ensures
            exists|i: int| 0 <= i < self.states_view().len() && s@ == self.states_view()[i],
            forall|r: int|
                {
                    &&& 0 <= r < self.states_view().len()
                    &&& (#[trigger] self.states_view()[r]) == current_state@
                    &&& forall|q: int| 0 <= q < r ==> self.states_view()[q] != current_state@
                    &&& self.rows_view()[r].len() > 0
                    &&& weight_sum(row_weights(self.rows_view()[r])) <= u16::MAX as int
                } ==> exists|j: int|
                    0 <= j < self.rows_view()[r].len() && s@ == self.states_view()[self.rows_view()[r][j].0 as int],
    {
        let row_index = match self.states.get_index(current_state) {
            Some(r) => r,
            None => self.random_state_index(),
        };
        let entries = mat_row_entries(&self.mat, row_index);

        if entries.len() == 0 {
            return self.random_state().clone();
        }

        let mut weights: Vec<u16> = Vec::new();
        let mut t: usize = 0;
        while t < entries.len()
            invariant
                0 <= t <= entries@.len(),
                weights@ == entries@.subrange(0, t as int).map_values(|e: (usize, u16)| e.1),
            decreases entries@.len() - t,
        {
            weights.push(entries[t].1);
            proof {
                assert(weights@ =~= entries@.subrange(0, t + 1).map_values(
                    |e: (usize, u16)| e.1,
                ));
            }
            t = t + 1;
        }
        proof {
            assert(entries@.subrange(0, entries@.len() as int) =~= entries@);
            assert(weights@ == row_weights(entries@));
        }

        match weighted_choice(&weights) {
            Some(pick) => {
                let col = entries[pick].0;
                match self.states.get_state(col) {
                    Some(st) => {
                        let out = st.clone();
                        proof {
                            assert(out@ == self.states_view()[col as int]);
                        }
                        out
                    },
                    None => unreached(),
                }
            },
            None => {
                proof {
                    assert forall|j: int| 0 <= j < weights@.len() implies weights@[j] > 0 by {
                        assert(entries@[j].1 >= 1);
                    }
                    lemma_weight_sum_positive(weights@);
                }
                self.random_state().clone()
            },
        }
    }
}

/// The state starting at token position `i`: a window of width `k`.
fn window_state(tokens: &Vec<String>, i: usize, k: usize) -> (s: State)
    requires
        i + k <= tokens@.len(),
    ensures
        s@ == window_at(tokens.deep_view(), k as nat, i as int),
{
    let total = tokens.len();
    let mut picked: Vec<String> = Vec::new();
    let mut j: usize = i;
    while j < i + k
        invariant
            i <= j <= i + k,
            i + k <= total,
            total == tokens@.len(),
            picked.deep_view() == tokens.deep_view().subrange(i as int, j as int),
        decreases i + k - j,
    {
        let ghost pre = picked.deep_view();
        let ghost prevec = picked@;
        let elem = tokens[j].clone();
        proof {
            assert(elem == tokens@[j as int]);
        }
        picked.push(elem);
        proof {
            let post = picked.deep_view();
            let goal = tokens.deep_view().subrange(i as int, j + 1);
            assert(picked@ == prevec.push(elem));
            assert(pre.len() == prevec.len());
            assert(post.len() == picked@.len() == prevec.len() + 1);
            assert forall|x: int| 0 <= x < post.len() implies post[x] == goal[x] by {
                assert(post[x] == picked@[x].deep_view());
                if x < j - i {
                    assert(picked@[x] == prevec[x]);
                    assert(pre[x] == prevec[x].deep_view());
                    assert(pre[x] == tokens.deep_view().subrange(i as int, j as int)[x]);
                    assert(post[x] == pre[x]);
                } else {
                    assert(picked@[x] == elem);
                    assert(picked@[x] == tokens@[j as int]);
                    assert(goal[x] == tokens.deep_view()[j as int]);
                }
            }
            assert(post =~= goal);
        }
        j = j + 1;
    }
    State::new(picked)
}

/// A window is registered after `p` windows exactly when it occurred
/// among the first `p`.
proof fn lemma_states_contains(tokens: Seq<Seq<char>>, k: nat, p: int)
    ensures
        forall|w: Seq<Seq<char>>|
            states_after(tokens, k, p).contains(w) <==> exists|t: int|
                0 <= t < p && window_at(tokens, k, t) == w,
    decreases p,
{
    if p > 0 {
        lemma_states_contains(tokens, k, p - 1);
        let prev = states_after(tokens, k, p - 1);
        let wp = window_at(tokens, k, p - 1);
        assert forall|w: Seq<Seq<char>>| states_after(tokens, k, p).contains(w) implies exists|
            t: int,
        | 0 <= t < p && window_at(tokens, k, t) == w by {
            if prev.contains(w) {
                let t = choose|t: int| 0 <= t < p - 1 && window_at(tokens, k, t) == w;
                assert(0 <= t < p && window_at(tokens, k, t) == w);
            } else {
                assert(w == wp);
                assert(window_at(tokens, k, p - 1) == w);
            }
        }
        assert forall|w: Seq<Seq<char>>| (exists|t: int| 0 <= t < p && window_at(tokens, k, t) == w)
            implies states_after(tokens, k, p).contains(w) by {
            let t = choose|t: int| 0 <= t < p && window_at(tokens, k, t) == w;
            if t < p - 1 {
                assert(prev.contains(w));
                if !prev.contains(wp) {
                    assert(states_after(tokens, k, p) == prev.push(wp));
                    let x = choose|x: int| 0 <= x < prev.len() && prev[x] == w;
                    assert(states_after(tokens, k, p)[x] == w);
                }
            } else {
                assert(w == wp);
                if prev.contains(wp) {
                } else {
                    assert(states_after(tokens, k, p) == prev.push(wp));
                    assert(states_after(tokens, k, p)[prev.len() as int] == wp);
                }
            }
        }
    }
}

/// A window that has not occurred among the first `p` took part in no
/// recorded transition there, on either side.
proof fn lemma_pair_count_unseen(tokens: Seq<Seq<char>>, k: nat, p: int, w: Seq<Seq<char>>)
    requires
        forall|t: int| 0 <= t < p ==> window_at(tokens, k, t) != w,
    ensures
        forall|a: Seq<Seq<char>>| pair_count(tokens, k, p, a, w) == 0,
        forall|b: Seq<Seq<char>>| pair_count(tokens, k, p, w, b) == 0,
    decreases p,
{
    if p > 1 {
        lemma_pair_count_unseen(tokens, k, p - 1, w);
        assert(window_at(tokens, k, p - 1) != w);
        assert(window_at(tokens, k, p - 2) != w);
        assert forall|a: Seq<Seq<char>>| pair_count(tokens, k, p, a, w) == 0 by {
            assert(pair_count(tokens, k, p - 1, a, w) == 0);
        }
        assert forall|b: Seq<Seq<char>>| pair_count(tokens, k, p, w, b) == 0 by {
            assert(pair_count(tokens, k, p - 1, w, b) == 0);
        }
    } else {
        assert forall|a: Seq<Seq<char>>| pair_count(tokens, k, p, a, w) == 0 by {}
        assert forall|b: Seq<Seq<char>>| pair_count(tokens, k, p, w, b) == 0 by {}
    }
}

/// One training step on the matrix: the entry at the recorded pair rises
/// by one (saturating), every other entry is unchanged.
proof fn lemma_entry_step(
    tokens: Seq<Seq<char>>,
    k: nat,
    i: int,
    pre_states: Seq<Seq<Seq<char>>>,
    sa: Seq<Seq<Seq<char>>>,
    pre_rows: Seq<Seq<(usize, u16)>>,
    post_rows: Seq<Seq<(usize, u16)>>,
    row: usize,
    col: usize,
    bumped: u16,
    r2: usize,
    c2: usize,
)
    requires
        i >= 1,
        (r2 as int) < sa.len(),
        (c2 as int) < sa.len(),
        (row as int) < sa.len(),
        (col as int) < pre_states.len(),
        pre_states.len() <= sa.len() <= pre_states.len() + 1,
        forall|x: int| 0 <= x < pre_states.len() ==> #[trigger] sa[x] == pre_states[x],
        forall|a: int, b: int| 0 <= a < b < sa.len() ==> #[trigger] sa[a] != #[trigger] sa[b],
        sa[row as int] == window_at(tokens, k, i),
        pre_states[col as int] == window_at(tokens, k, i - 1),
        sa.len() == pre_states.len() + 1 ==> (row as int) == pre_states.len() && (forall|
            a: Seq<Seq<char>>,
        | pair_count(tokens, k, i, a, window_at(tokens, k, i)) == 0) && (forall|b: Seq<Seq<char>>|
            pair_count(tokens, k, i, window_at(tokens, k, i), b) == 0),
        pre_rows.len() >= sa.len(),
        post_rows == pre_rows.update(row as int, row_insert(pre_rows[row as int], col, bumped)),
        forall|r: int| 0 <= r < pre_rows.len() ==> row_sorted(#[trigger] pre_rows[r]),
        forall|r: int|
            pre_states.len() <= r < pre_rows.len() ==> (#[trigger] pre_rows[r]) == Seq::<
                (usize, u16),
            >::empty(),
        forall|x: int, j: int|
            0 <= x < pre_rows.len() && 0 <= j < pre_rows[x].len() ==> ((#[trigger] pre_rows[x][j]).0
                as int) < pre_states.len(),
        forall|x: int, y: int|
            0 <= x < pre_states.len() && 0 <= y < pre_states.len() ==> row_lookup(
                #[trigger] pre_rows[x],
                #[trigger] (y as usize),
            ) == trained_entry(tokens, k, i, pre_states, x, y),
        bumped == sat16(pair_count(tokens, k, i, pre_states[col as int], sa[row as int]) + 1),
    ensures
        row_lookup(post_rows[r2 as int], c2) == trained_entry(tokens, k, i + 1, sa, r2 as int, c2 as int),
{
    let wcur = window_at(tokens, k, i);
    let wprev = window_at(tokens, k, i - 1);
    let new_count = pair_count(tokens, k, i + 1, sa[c2 as int], sa[r2 as int]);
    let old_count = pair_count(tokens, k, i, sa[c2 as int], sa[r2 as int]);
    assert(new_count == old_count + if wcur == sa[r2 as int] && wprev == sa[c2 as int] {
        1 as nat
    } else {
        0 as nat
    });
    lemma_row_insert_lookup(pre_rows[row as int], col, bumped, c2);
    assert(post_rows[row as int] == row_insert(pre_rows[row as int], col, bumped));
    if r2 == row && c2 == col {
        assert(sa[r2 as int] == wcur && sa[c2 as int] == wprev);
        assert(row_lookup(post_rows[r2 as int], c2) == Some(bumped));
        assert(new_count == old_count + 1);
    } else {
        // a different cell: its pair is not the recorded pair
        if r2 == row {
            assert(sa[c2 as int] != sa[col as int]);
            assert(!(wcur == sa[r2 as int] && wprev == sa[c2 as int]));
            assert(row_lookup(post_rows[r2 as int], c2) == row_lookup(pre_rows[r2 as int], c2));
        } else {
            assert(post_rows[r2 as int] == pre_rows[r2 as int]);
            assert(sa[r2 as int] != sa[row as int]);
            assert(!(wcur == sa[r2 as int] && wprev == sa[c2 as int]));
        }
        assert(new_count == old_count);
        // the old cell held the old spec entry, also around a fresh state
        if (r2 as int) < pre_states.len() && (c2 as int) < pre_states.len() {
            assert(row_lookup(pre_rows[r2 as int], (c2 as int) as usize) == trained_entry(
                tokens,
                k,
                i,
                pre_states,
                r2 as int,
                c2 as int,
            ));
        } else {
            // one side is the fresh state: nothing was recorded for it yet
            assert(sa.len() == pre_states.len() + 1);
            if (r2 as int) >= pre_states.len() {
                assert(pre_rows[r2 as int] == Seq::<(usize, u16)>::empty());
                assert(sa[r2 as int] == wcur);
                assert(pair_count(tokens, k, i, sa[c2 as int], sa[r2 as int]) == 0);
            } else {
                assert((c2 as int) >= pre_states.len());
                assert(sa[c2 as int] == wcur);
                assert(pair_count(tokens, k, i, sa[c2 as int], sa[r2 as int]) == 0);
                if row_lookup(pre_rows[r2 as int], c2) is Some {
                    lemma_row_lookup_in_range(pre_rows[r2 as int], c2);
                    let j = choose|j: int|
                        0 <= j < pre_rows[r2 as int].len() && pre_rows[r2 as int][j].0 == c2;
                    assert((pre_rows[r2 as int][j].0 as int) < pre_states.len());
                    assert(false);
                }
            }
        }
    }
}

/// Every entry of a bumped row is a registered column with a nonzero
/// count, as long as the bumped value is nonzero and the old row was so.
proof fn lemma_bumped_entries(
    old_row: Seq<(usize, u16)>,
    col: usize,
    bumped: u16,
    bound: int,
    j: int,
)
    requires
        row_sorted(old_row),
        bumped >= 1,
        (col as int) < bound,
        forall|x: int| 0 <= x < old_row.len() ==> (#[trigger] old_row[x]).0 < bound && old_row[x].1 >= 1,
        0 <= j < row_insert(old_row, col, bumped).len(),
    ensures
        (row_insert(old_row, col, bumped)[j]).0 < bound,
        (row_insert(old_row, col, bumped)[j]).1 >= 1,
    decreases old_row.len(),
{
    let out = row_insert(old_row, col, bumped);
    if old_row.len() == 0 {
        assert(out == seq![(col, bumped)]);
    } else if col < old_row[0].0 {
        assert(out == seq![(col, bumped)] + old_row);
    } else if col == old_row[0].0 {
        assert(out == seq![(col, bumped)] + old_row.skip(1));
        if j > 0 {
            assert(out[j] == old_row.skip(1)[j - 1]);
            assert(old_row[j] == out[j]);
        }
    } else {
        assert(out == seq![old_row[0]] + row_insert(old_row.skip(1), col, bumped));
        if j > 0 {
            assert(row_sorted(old_row.skip(1)));
            assert(forall|x: int|
                0 <= x < old_row.skip(1).len() ==> (#[trigger] old_row.skip(1)[x]).0 < bound
                    && old_row.skip(1)[x].1 >= 1);
            lemma_bumped_entries(old_row.skip(1), col, bumped, bound, j - 1);
            assert(out[j] == row_insert(old_row.skip(1), col, bumped)[j - 1]);
        }
    }
}

/// Training is a pure function of the token sequence and the chain order:
/// the same input yields the same id assignment and the same counts.
pub proof fn lemma_training_deterministic(
    t1: Seq<Seq<char>>,
    t2: Seq<Seq<char>>,
    k: nat,
    p: int,
)
    requires
        t1 == t2,
    ensures
        states_after(t1, k, p) == states_after(t2, k, p),
        forall|a: Seq<Seq<char>>, b: Seq<Seq<char>>|
            pair_count(t1, k, p, a, b) == pair_count(t2, k, p, a, b),
{
}

/// Training input of length exactly the chain order yields exactly one
/// registered state (the whole input) and records no transition.
pub proof fn lemma_boundary(tokens: Seq<Seq<char>>, k: nat)
    requires
        k >= 1,
        tokens.len() == k,
    ensures
        states_after(tokens, k, num_windows(tokens.len() as int, k)) =~= seq![tokens],
        forall|a: Seq<Seq<char>>, b: Seq<Seq<char>>|
            pair_count(tokens, k, num_windows(tokens.len() as int, k), a, b) == 0,
{
    let nw = num_windows(tokens.len() as int, k);
    assert(nw == 1);
    assert(states_after(tokens, k, 0) == Seq::<Seq<Seq<char>>>::empty());
    assert(window_at(tokens, k, 0) =~= tokens);
    assert(states_after(tokens, k, 1) == states_after(tokens, k, 0).push(window_at(tokens, k, 0)));
}

} // verus!
