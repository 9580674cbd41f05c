//! Persistence: a model is written as a fixed 3-byte magic prefix
//! followed by the chain order, the state list in id order, and the
//! sparse matrix row by row. All integers are little-endian: list
//! lengths and columns as 64-bit values, the chain order as a 32-bit
//! value, counts as 16-bit values, and each character as its 32-bit
//! scalar value.
//!
//! The encoding is specified by the `enc_*` functions, the decoding by
//! the `dec_*` functions, and `lemma_model_round_trip` proves that
//! decoding inverts encoding for every well-formed model.

use vstd::prelude::*;

use vstd::bytes::{
    spec_u16_to_le_bytes, spec_u16_from_le_bytes, spec_u32_to_le_bytes, spec_u32_from_le_bytes,
    spec_u64_to_le_bytes, spec_u64_from_le_bytes, u16_from_le_bytes, u16_to_le_bytes,
    u32_from_le_bytes, u32_to_le_bytes, u64_from_le_bytes, u64_to_le_bytes,
    lemma_auto_spec_u16_to_from_le_bytes, lemma_auto_spec_u32_to_from_le_bytes,
    lemma_auto_spec_u64_to_from_le_bytes,
};
use vstd::slice::slice_subrange;
use vstd::utf8::{is_scalar, char_is_scalar, char_u32_cast};

use crate::matrix::{mat_rows, mat_zero, mat_set, mat_row_entries, row_sorted, lemma_row_insert_append};
use crate::model::{MarkovGeneratorBase, model_wf};
use crate::state::State;
use crate::state_index::StateIndex;

verus! {

/// Loading rejects a structurally invalid payload.
#[derive(Clone, Copy, PartialEq, Eq, Structural, Debug)]
pub enum DecodeError {
    InvalidPayload,
}

/// The magic prefix that marks a byte stream as a saved model.
pub open spec fn magic_bytes() -> Seq<u8> {
    seq![3u8, 4u8, 5u8]
}

// ---------------------------------------------------------------------
// the encoding, as spec functions

pub open spec fn enc_chars(s: Seq<char>) -> Seq<u8>
    decreases s.len(),
{
    if s.len() == 0 {
        Seq::empty()
    } else {
        spec_u32_to_le_bytes(s[0] as u32) + enc_chars(s.skip(1))
    }
}

pub open spec fn enc_string(s: Seq<char>) -> Seq<u8> {
    spec_u64_to_le_bytes(s.len() as u64) + enc_chars(s)
}

pub open spec fn enc_token_list(ts: Seq<Seq<char>>) -> Seq<u8>
    decreases ts.len(),
{
    if ts.len() == 0 {
        Seq::empty()
    } else {
        enc_string(ts[0]) + enc_token_list(ts.skip(1))
    }
}

pub open spec fn enc_state(st: Seq<Seq<char>>) -> Seq<u8> {
    spec_u64_to_le_bytes(st.len() as u64) + enc_token_list(st)
}

pub open spec fn enc_state_list(sts: Seq<Seq<Seq<char>>>) -> Seq<u8>
    decreases sts.len(),
{
    if sts.len() == 0 {
        Seq::empty()
    } else {
        enc_state(sts[0]) + enc_state_list(sts.skip(1))
    }
}

pub open spec fn enc_entry(e: (usize, u16)) -> Seq<u8> {
    spec_u64_to_le_bytes(e.0 as u64) + spec_u16_to_le_bytes(e.1)
}

pub open spec fn enc_entry_list(es: Seq<(usize, u16)>) -> Seq<u8>
    decreases es.len(),
{
    if es.len() == 0 {
        Seq::empty()
    } else {
        enc_entry(es[0]) + enc_entry_list(es.skip(1))
    }
}

pub open spec fn enc_row(row: Seq<(usize, u16)>) -> Seq<u8> {
    spec_u64_to_le_bytes(row.len() as u64) + enc_entry_list(row)
}

pub open spec fn enc_row_list(rows: Seq<Seq<(usize, u16)>>) -> Seq<u8>
    decreases rows.len(),
{
    if rows.len() == 0 {
        Seq::empty()
    } else {
        enc_row(rows[0]) + enc_row_list(rows.skip(1))
    }
}

/// A whole model: magic, chain order, states, matrix.
pub open spec fn enc_model(
    order: u32,
    states: Seq<Seq<Seq<char>>>,
    rows: Seq<Seq<(usize, u16)>>,
) -> Seq<u8> {
    magic_bytes() + spec_u32_to_le_bytes(order) + spec_u64_to_le_bytes(states.len() as u64)
        + enc_state_list(states) + spec_u64_to_le_bytes(rows.len() as u64) + enc_row_list(rows)
}

/// The length casts above are exact for data whose sizes fit the
/// machine, which is all data an in-memory model can hold.
pub open spec fn states_encodable(states: Seq<Seq<Seq<char>>>) -> bool {
    &&& states.len() <= usize::MAX
    &&& forall|i: int| 0 <= i < states.len() ==> (#[trigger] states[i]).len() <= usize::MAX
    &&& forall|i: int, j: int|
        0 <= i < states.len() && 0 <= j < states[i].len() ==> (#[trigger] states[i][j]).len()
            <= usize::MAX
}

pub open spec fn rows_encodable(rows: Seq<Seq<(usize, u16)>>) -> bool {
    &&& rows.len() <= usize::MAX
    &&& forall|r: int| 0 <= r < rows.len() ==> (#[trigger] rows[r]).len() <= usize::MAX
}

// ---------------------------------------------------------------------
// the decoding, as spec functions over a byte sequence and a position

pub open spec fn dec_u16(b: Seq<u8>, pos: int) -> Option<(u16, int)> {
    if 0 <= pos && pos + 2 <= b.len() {
        Some((spec_u16_from_le_bytes(b.subrange(pos, pos + 2)), pos + 2))
    } else {
        None
    }
}

pub open spec fn dec_u32(b: Seq<u8>, pos: int) -> Option<(u32, int)> {
    if 0 <= pos && pos + 4 <= b.len() {
        Some((spec_u32_from_le_bytes(b.subrange(pos, pos + 4)), pos + 4))
    } else {
        None
    }
}

pub open spec fn dec_u64(b: Seq<u8>, pos: int) -> Option<(u64, int)> {
    if 0 <= pos && pos + 8 <= b.len() {
        Some((spec_u64_from_le_bytes(b.subrange(pos, pos + 8)), pos + 8))
    } else {
        None
    }
}

/// A length read from the stream, rejected when it cannot index
/// in-memory data on this machine.
pub open spec fn dec_len(b: Seq<u8>, pos: int) -> Option<(int, int)> {
    match dec_u64(b, pos) {
        Some((n, p)) => if n <= usize::MAX as u64 {
            Some((n as int, p))
        } else {
            None
        },
        None => None,
    }
}

pub open spec fn dec_char(b: Seq<u8>, pos: int) -> Option<(char, int)> {
    match dec_u32(b, pos) {
        Some((v, p)) => if is_scalar(v) {
            Some((v as char, p))
        } else {
            None
        },
        None => None,
    }
}

pub open spec fn dec_chars(b: Seq<u8>, pos: int, count: int) -> Option<(Seq<char>, int)>
    decreases count,
{
    if count <= 0 {
        Some((Seq::empty(), pos))
    } else {
        match dec_char(b, pos) {
            Some((c, p)) => match dec_chars(b, p, count - 1) {
                Some((s, q)) => Some((seq![c] + s, q)),
                None => None,
            },
            None => None,
        }
    }
}

pub open spec fn dec_string(b: Seq<u8>, pos: int) -> Option<(Seq<char>, int)> {
    match dec_len(b, pos) {
        Some((n, p)) => dec_chars(b, p, n),
        None => None,
    }
}

pub open spec fn dec_token_list(b: Seq<u8>, pos: int, count: int) -> Option<(Seq<Seq<char>>, int)>
    decreases count,
{
    if count <= 0 {
        Some((Seq::empty(), pos))
    } else {
        match dec_string(b, pos) {
            Some((t, p)) => match dec_token_list(b, p, count - 1) {
                Some((ts, q)) => Some((seq![t] + ts, q)),
                None => None,
            },
            None => None,
        }
    }
}

pub open spec fn dec_state(b: Seq<u8>, pos: int) -> Option<(Seq<Seq<char>>, int)> {
    match dec_len(b, pos) {
        Some((n, p)) => dec_token_list(b, p, n),
        None => None,
    }
}

pub open spec fn dec_state_list(b: Seq<u8>, pos: int, count: int) -> Option<
    (Seq<Seq<Seq<char>>>, int),
>
    decreases count,
{
    if count <= 0 {
        Some((Seq::empty(), pos))
    } else {
        match dec_state(b, pos) {
            Some((st, p)) => match dec_state_list(b, p, count - 1) {
                Some((sts, q)) => Some((seq![st] + sts, q)),
                None => None,
            },
            None => None,
        }
    }
}

pub open spec fn dec_entry(b: Seq<u8>, pos: int) -> Option<((usize, u16), int)> {
    match dec_len(b, pos) {
        Some((col, p)) => match dec_u16(b, p) {
            Some((cnt, q)) => Some(((col as usize, cnt), q)),
            None => None,
        },
        None => None,
    }
}

pub open spec fn dec_entry_list(b: Seq<u8>, pos: int, count: int) -> Option<
    (Seq<(usize, u16)>, int),
>
    decreases count,
{
    if count <= 0 {
        Some((Seq::empty(), pos))
    } else {
        match dec_entry(b, pos) {
            Some((e, p)) => match dec_entry_list(b, p, count - 1) {
                Some((es, q)) => Some((seq![e] + es, q)),
                None => None,
            },
            None => None,
        }
    }
}

pub open spec fn dec_row(b: Seq<u8>, pos: int) -> Option<(Seq<(usize, u16)>, int)> {
    match dec_len(b, pos) {
        Some((n, p)) => dec_entry_list(b, p, n),
        None => None,
    }
}

pub open spec fn dec_row_list(b: Seq<u8>, pos: int, count: int) -> Option<
    (Seq<Seq<(usize, u16)>>, int),
>
    decreases count,
{
    if count <= 0 {
        Some((Seq::empty(), pos))
    } else {
        match dec_row(b, pos) {
            Some((row, p)) => match dec_row_list(b, p, count - 1) {
                Some((rows, q)) => Some((seq![row] + rows, q)),
                None => None,
            },
            None => None,
        }
    }
}

/// The payload behind the magic prefix: chain order, states, matrix,
/// and the position one past the matrix.
pub open spec fn dec_payload(b: Seq<u8>) -> Option<
    ((u32, Seq<Seq<Seq<char>>>, Seq<Seq<(usize, u16)>>), int),
> {
    if b.len() >= 3 && b.subrange(0, 3) == magic_bytes() {
        match dec_u32(b, 3) {
            Some((order, p1)) => match dec_len(b, p1) {
                Some((n_states, p2)) => match dec_state_list(b, p2, n_states) {
                    Some((states, p3)) => match dec_len(b, p3) {
                        Some((dim, p4)) => match dec_row_list(b, p4, dim) {
                            Some((rows, p5)) => Some(((order, states, rows), p5)),
                            None => None,
                        },
                        None => None,
                    },
                    None => None,
                },
                None => None,
            },
            None => None,
        }
    } else {
        None
    }
}

/// A whole model: magic and payload, the whole stream consumed, and the
/// resulting model well formed; anything else is a structurally invalid
/// payload.
pub open spec fn dec_model(b: Seq<u8>) -> Option<
    (u32, Seq<Seq<Seq<char>>>, Seq<Seq<(usize, u16)>>),
> {
    match dec_payload(b) {
        Some(((order, states, rows), end)) => if end == b.len() && model_wf(
            order,
            states,
            rows,
        ) {
            Some((order, states, rows))
        } else {
            None
        },
        None => None,
    }
}

// ---------------------------------------------------------------------
// decoding inverts encoding

/// Splitting a subrange known to hold a concatenation.
proof fn lemma_subrange_split(b: Seq<u8>, pos: int, x: Seq<u8>, y: Seq<u8>)
    requires
        0 <= pos,
        pos + x.len() + y.len() <= b.len(),
        b.subrange(pos, pos + x.len() + y.len()) == x + y,
    ensures
        b.subrange(pos, pos + x.len()) == x,
        b.subrange(pos + x.len(), pos + x.len() + y.len()) == y,
{
    let whole = b.subrange(pos, pos + x.len() + y.len());
    assert forall|i: int| 0 <= i < x.len() implies b.subrange(pos, pos + x.len())[i] == x[i] by {
        assert(whole[i] == (x + y)[i]);
    }
    assert(b.subrange(pos, pos + x.len()) =~= x);
    assert forall|i: int| 0 <= i < y.len() implies b.subrange(
        pos + x.len(),
        pos + x.len() + y.len(),
    )[i] == y[i] by {
        assert(whole[x.len() + i] == (x + y)[x.len() + i]);
    }
    assert(b.subrange(pos + x.len(), pos + x.len() + y.len()) =~= y);
}

proof fn lemma_dec_u16_at(b: Seq<u8>, pos: int, x: u16)
    requires
        0 <= pos,
        pos + 2 <= b.len(),
        b.subrange(pos, pos + 2) == spec_u16_to_le_bytes(x),
    ensures
        dec_u16(b, pos) == Some((x, pos + 2)),
{
    lemma_auto_spec_u16_to_from_le_bytes();
    assert(spec_u16_to_le_bytes(x).len() == 2);
    assert(spec_u16_from_le_bytes(spec_u16_to_le_bytes(x)) == x);
}

proof fn lemma_dec_u32_at(b: Seq<u8>, pos: int, x: u32)
    requires
        0 <= pos,
        pos + 4 <= b.len(),
        b.subrange(pos, pos + 4) == spec_u32_to_le_bytes(x),
    ensures
        dec_u32(b, pos) == Some((x, pos + 4)),
{
    lemma_auto_spec_u32_to_from_le_bytes();
    assert(spec_u32_to_le_bytes(x).len() == 4);
    assert(spec_u32_from_le_bytes(spec_u32_to_le_bytes(x)) == x);
}

proof fn lemma_dec_u64_at(b: Seq<u8>, pos: int, x: u64)
    requires
        0 <= pos,
        pos + 8 <= b.len(),
        b.subrange(pos, pos + 8) == spec_u64_to_le_bytes(x),
    ensures
        dec_u64(b, pos) == Some((x, pos + 8)),
{
    lemma_auto_spec_u64_to_from_le_bytes();
    assert(spec_u64_to_le_bytes(x).len() == 8);
    assert(spec_u64_from_le_bytes(spec_u64_to_le_bytes(x)) == x);
}

/// A length that fits the machine decodes back to itself.
proof fn lemma_dec_len_at(b: Seq<u8>, pos: int, n: int)
    requires
        0 <= pos,
        pos + 8 <= b.len(),
        0 <= n <= usize::MAX,
        b.subrange(pos, pos + 8) == spec_u64_to_le_bytes(n as u64),
    ensures
        dec_len(b, pos) == Some((n, pos + 8)),
{
    lemma_dec_u64_at(b, pos, n as u64);
}

proof fn lemma_dec_chars_at(b: Seq<u8>, pos: int, s: Seq<char>)
    requires
        0 <= pos,
        pos + enc_chars(s).len() <= b.len(),
        b.subrange(pos, pos + enc_chars(s).len()) == enc_chars(s),
    ensures
        dec_chars(b, pos, s.len() as int) == Some((s, pos + enc_chars(s).len())),
    decreases s.len(),
{
    lemma_auto_spec_u32_to_from_le_bytes();
    if s.len() == 0 {
        assert(dec_chars(b, pos, 0) == Some((Seq::<char>::empty(), pos)));
        assert(s =~= Seq::<char>::empty());
    } else {
        let first = spec_u32_to_le_bytes(s[0] as u32);
        let rest = enc_chars(s.skip(1));
        assert(enc_chars(s) == first + rest);
        lemma_subrange_split(b, pos, first, rest);
        lemma_dec_u32_at(b, pos, s[0] as u32);
        char_is_scalar(s[0]);
        char_u32_cast(s[0], s[0] as u32);
        assert(dec_char(b, pos) == Some((s[0], pos + 4)));
        lemma_dec_chars_at(b, pos + 4, s.skip(1));
        assert(seq![s[0]] + s.skip(1) =~= s);
    }
}

proof fn lemma_dec_string_at(b: Seq<u8>, pos: int, s: Seq<char>)
    requires
        0 <= pos,
        s.len() <= usize::MAX,
        pos + enc_string(s).len() <= b.len(),
        b.subrange(pos, pos + enc_string(s).len()) == enc_string(s),
    ensures
        dec_string(b, pos) == Some((s, pos + enc_string(s).len())),
{
    let lenb = spec_u64_to_le_bytes(s.len() as u64);
    lemma_auto_spec_u64_to_from_le_bytes();
    assert(enc_string(s) == lenb + enc_chars(s));
    lemma_subrange_split(b, pos, lenb, enc_chars(s));
    lemma_dec_len_at(b, pos, s.len() as int);
    lemma_dec_chars_at(b, pos + 8, s);
}

proof fn lemma_dec_token_list_at(b: Seq<u8>, pos: int, ts: Seq<Seq<char>>)
    requires
        0 <= pos,
        forall|i: int| 0 <= i < ts.len() ==> (#[trigger] ts[i]).len() <= usize::MAX,
        pos + enc_token_list(ts).len() <= b.len(),
        b.subrange(pos, pos + enc_token_list(ts).len()) == enc_token_list(ts),
    ensures
        dec_token_list(b, pos, ts.len() as int) == Some((ts, pos + enc_token_list(ts).len())),
    decreases ts.len(),
{
    if ts.len() == 0 {
        assert(ts =~= Seq::<Seq<char>>::empty());
    } else {
        let first = enc_string(ts[0]);
        let rest = enc_token_list(ts.skip(1));
        assert(enc_token_list(ts) == first + rest);
        lemma_subrange_split(b, pos, first, rest);
        lemma_dec_string_at(b, pos, ts[0]);
        assert(forall|i: int|
            0 <= i < ts.skip(1).len() ==> (#[trigger] ts.skip(1)[i]).len() <= usize::MAX);
        lemma_dec_token_list_at(b, pos + first.len(), ts.skip(1));
        assert(seq![ts[0]] + ts.skip(1) =~= ts);
    }
}

proof fn lemma_dec_state_at(b: Seq<u8>, pos: int, st: Seq<Seq<char>>)
    requires
        0 <= pos,
        st.len() <= usize::MAX,
        forall|i: int| 0 <= i < st.len() ==> (#[trigger] st[i]).len() <= usize::MAX,
        pos + enc_state(st).len() <= b.len(),
        b.subrange(pos, pos + enc_state(st).len()) == enc_state(st),
    ensures
        dec_state(b, pos) == Some((st, pos + enc_state(st).len())),
{
    let lenb = spec_u64_to_le_bytes(st.len() as u64);
    lemma_auto_spec_u64_to_from_le_bytes();
    assert(enc_state(st) == lenb + enc_token_list(st));
    lemma_subrange_split(b, pos, lenb, enc_token_list(st));
    lemma_dec_len_at(b, pos, st.len() as int);
    lemma_dec_token_list_at(b, pos + 8, st);
}

proof fn lemma_dec_state_list_at(b: Seq<u8>, pos: int, sts: Seq<Seq<Seq<char>>>)
    requires
        0 <= pos,
        states_encodable(sts),
        pos + enc_state_list(sts).len() <= b.len(),
        b.subrange(pos, pos + enc_state_list(sts).len()) == enc_state_list(sts),
    ensures
        dec_state_list(b, pos, sts.len() as int) == Some((sts, pos + enc_state_list(sts).len())),
    decreases sts.len(),
{
    if sts.len() == 0 {
        assert(sts =~= Seq::<Seq<Seq<char>>>::empty());
    } else {
        let first = enc_state(sts[0]);
        let rest = enc_state_list(sts.skip(1));
        assert(enc_state_list(sts) == first + rest);
        lemma_subrange_split(b, pos, first, rest);
        lemma_dec_state_at(b, pos, sts[0]);
        assert(states_encodable(sts.skip(1))) by {
            assert(forall|i: int|
                0 <= i < sts.skip(1).len() ==> (#[trigger] sts.skip(1)[i]).len() <= usize::MAX);
            assert forall|i: int, j: int|
                0 <= i < sts.skip(1).len() && 0 <= j < sts.skip(1)[i].len() implies (
            #[trigger] sts.skip(1)[i][j]).len() <= usize::MAX by {
                assert(sts[i + 1][j].len() <= usize::MAX);
            }
        }
        lemma_dec_state_list_at(b, pos + first.len(), sts.skip(1));
        assert(seq![sts[0]] + sts.skip(1) =~= sts);
    }
}

proof fn lemma_dec_entry_at(b: Seq<u8>, pos: int, e: (usize, u16))
    requires
        0 <= pos,
        pos + 10 <= b.len(),
        b.subrange(pos, pos + 10) == enc_entry(e),
    ensures
        dec_entry(b, pos) == Some((e, pos + 10)),
{
    let colb = spec_u64_to_le_bytes(e.0 as u64);
    let cntb = spec_u16_to_le_bytes(e.1);
    lemma_auto_spec_u64_to_from_le_bytes();
    lemma_auto_spec_u16_to_from_le_bytes();
    assert(enc_entry(e) == colb + cntb);
    lemma_subrange_split(b, pos, colb, cntb);
    lemma_dec_len_at(b, pos, e.0 as int);
    lemma_dec_u16_at(b, pos + 8, e.1);
}

proof fn lemma_dec_entry_list_at(b: Seq<u8>, pos: int, es: Seq<(usize, u16)>)
    requires
        0 <= pos,
        pos + enc_entry_list(es).len() <= b.len(),
        b.subrange(pos, pos + enc_entry_list(es).len()) == enc_entry_list(es),
    ensures
        dec_entry_list(b, pos, es.len() as int) == Some((es, pos + enc_entry_list(es).len())),
    decreases es.len(),
{
    if es.len() == 0 {
        assert(es =~= Seq::<(usize, u16)>::empty());
    } else {
        let first = enc_entry(es[0]);
        let rest = enc_entry_list(es.skip(1));
        lemma_auto_spec_u64_to_from_le_bytes();
        lemma_auto_spec_u16_to_from_le_bytes();
        assert(enc_entry_list(es) == first + rest);
        assert(first.len() == 10);
        lemma_subrange_split(b, pos, first, rest);
        lemma_dec_entry_at(b, pos, es[0]);
        lemma_dec_entry_list_at(b, pos + 10, es.skip(1));
        assert(seq![es[0]] + es.skip(1) =~= es);
    }
}

proof fn lemma_dec_row_at(b: Seq<u8>, pos: int, row: Seq<(usize, u16)>)
    requires
        0 <= pos,
        row.len() <= usize::MAX,
        pos + enc_row(row).len() <= b.len(),
        b.subrange(pos, pos + enc_row(row).len()) == enc_row(row),
    ensures
        dec_row(b, pos) == Some((row, pos + enc_row(row).len())),
{
    let lenb = spec_u64_to_le_bytes(row.len() as u64);
    lemma_auto_spec_u64_to_from_le_bytes();
    assert(enc_row(row) == lenb + enc_entry_list(row));
    lemma_subrange_split(b, pos, lenb, enc_entry_list(row));
    lemma_dec_len_at(b, pos, row.len() as int);
    lemma_dec_entry_list_at(b, pos + 8, row);
}

proof fn lemma_dec_row_list_at(b: Seq<u8>, pos: int, rows: Seq<Seq<(usize, u16)>>)
    requires
        0 <= pos,
        rows_encodable(rows),
        pos + enc_row_list(rows).len() <= b.len(),
        b.subrange(pos, pos + enc_row_list(rows).len()) == enc_row_list(rows),
    ensures
        dec_row_list(b, pos, rows.len() as int) == Some((rows, pos + enc_row_list(rows).len())),
    decreases rows.len(),
{
    if rows.len() == 0 {
        assert(rows =~= Seq::<Seq<(usize, u16)>>::empty());
    } else {
        let first = enc_row(rows[0]);
        let rest = enc_row_list(rows.skip(1));
        assert(enc_row_list(rows) == first + rest);
        lemma_subrange_split(b, pos, first, rest);
        lemma_dec_row_at(b, pos, rows[0]);
        assert(rows_encodable(rows.skip(1))) by {
            assert(forall|r: int|
                0 <= r < rows.skip(1).len() ==> (#[trigger] rows.skip(1)[r]).len() <= usize::MAX);
        }
        lemma_dec_row_list_at(b, pos + first.len(), rows.skip(1));
        assert(seq![rows[0]] + rows.skip(1) =~= rows);
    }
}

/// Decoding inverts encoding: a saved well-formed model loads back with
/// the same chain order, the same states under the same ids, and the
/// same matrix entries.
pub proof fn lemma_model_round_trip(
    order: u32,
    states: Seq<Seq<Seq<char>>>,
    rows: Seq<Seq<(usize, u16)>>,
)
    requires
        model_wf(order, states, rows),
        states_encodable(states),
        rows_encodable(rows),
    ensures
        dec_model(enc_model(order, states, rows)) == Some((order, states, rows)),
{
    let b = enc_model(order, states, rows);
    let m = magic_bytes();
    let ob = spec_u32_to_le_bytes(order);
    let nb = spec_u64_to_le_bytes(states.len() as u64);
    let sb = enc_state_list(states);
    let db = spec_u64_to_le_bytes(rows.len() as u64);
    let rb = enc_row_list(rows);
    lemma_auto_spec_u32_to_from_le_bytes();
    lemma_auto_spec_u64_to_from_le_bytes();
    assert(b == m + ob + nb + sb + db + rb);
    assert(b.subrange(0, b.len() as int) =~= b);
    assert(b.subrange(0, 3) =~= m) by {
        assert(b =~= m + (ob + nb + sb + db + rb));
    }
    assert(b =~= m + (ob + (nb + (sb + (db + rb)))));
    lemma_subrange_split(b, 0, m, ob + (nb + (sb + (db + rb))));
    lemma_subrange_split(b, 3, ob, nb + (sb + (db + rb)));
    lemma_dec_u32_at(b, 3, order);
    lemma_subrange_split(b, 7, nb, sb + (db + rb));
    lemma_dec_len_at(b, 7, states.len() as int);
    lemma_subrange_split(b, 15, sb, db + rb);
    lemma_dec_state_list_at(b, 15, states);
    let p3: int = 15 + sb.len() as int;
    lemma_subrange_split(b, p3, db, rb);
    lemma_dec_len_at(b, p3, rows.len() as int);
    lemma_dec_row_list_at(b, p3 + 8, rows);
    assert(p3 + 8 + rb.len() == b.len());
}

// ---------------------------------------------------------------------
// encoding an item at the end of a list

proof fn lemma_enc_chars_snoc(s: Seq<char>, c: char)
    ensures
        enc_chars(s.push(c)) == enc_chars(s) + spec_u32_to_le_bytes(c as u32),
    decreases s.len(),
{
    if s.len() == 0 {
        assert(s.push(c)[0] == c);
        assert(s.push(c).skip(1) =~= Seq::<char>::empty());
        assert(enc_chars(s) == Seq::<u8>::empty());
        assert(enc_chars(s.push(c).skip(1)) == Seq::<u8>::empty());
        assert(enc_chars(s.push(c)) =~= enc_chars(s) + spec_u32_to_le_bytes(c as u32));
    } else {
        lemma_enc_chars_snoc(s.skip(1), c);
        assert(s.push(c).skip(1) =~= s.skip(1).push(c));
        assert(s.push(c)[0] == s[0]);
        assert(enc_chars(s.push(c)) == spec_u32_to_le_bytes(s[0] as u32) + enc_chars(s.skip(1).push(c)));
        assert(enc_chars(s.push(c)) =~= enc_chars(s) + spec_u32_to_le_bytes(c as u32));
    }
}

proof fn lemma_enc_token_list_snoc(ts: Seq<Seq<char>>, t: Seq<char>)
    ensures
        enc_token_list(ts.push(t)) == enc_token_list(ts) + enc_string(t),
    decreases ts.len(),
{
    if ts.len() == 0 {
        assert(ts.push(t)[0] == t);
        assert(ts.push(t).skip(1) =~= Seq::<Seq<char>>::empty());
        assert(enc_token_list(ts) == Seq::<u8>::empty());
        assert(enc_token_list(ts.push(t).skip(1)) == Seq::<u8>::empty());
        assert(enc_token_list(ts.push(t)) =~= enc_token_list(ts) + enc_string(t));
    } else {
        lemma_enc_token_list_snoc(ts.skip(1), t);
        assert(ts.push(t).skip(1) =~= ts.skip(1).push(t));
        assert(ts.push(t)[0] == ts[0]);
        assert(enc_token_list(ts.push(t)) == enc_string(ts[0]) + enc_token_list(ts.skip(1).push(t)));
        assert(enc_token_list(ts.push(t)) =~= enc_token_list(ts) + enc_string(t));
    }
}

proof fn lemma_enc_state_list_snoc(sts: Seq<Seq<Seq<char>>>, st: Seq<Seq<char>>)
    ensures
        enc_state_list(sts.push(st)) == enc_state_list(sts) + enc_state(st),
    decreases sts.len(),
{
    if sts.len() == 0 {
        assert(sts.push(st)[0] == st);
        assert(sts.push(st).skip(1) =~= Seq::<Seq<Seq<char>>>::empty());
        assert(enc_state_list(sts) == Seq::<u8>::empty());
        assert(enc_state_list(sts.push(st).skip(1)) == Seq::<u8>::empty());
        assert(enc_state_list(sts.push(st)) =~= enc_state_list(sts) + enc_state(st));
    } else {
        lemma_enc_state_list_snoc(sts.skip(1), st);
        assert(sts.push(st).skip(1) =~= sts.skip(1).push(st));
        assert(sts.push(st)[0] == sts[0]);
        assert(enc_state_list(sts.push(st)) == enc_state(sts[0]) + enc_state_list(sts.skip(1).push(st)));
        assert(enc_state_list(sts.push(st)) =~= enc_state_list(sts) + enc_state(st));
    }
}

proof fn lemma_enc_entry_list_snoc(es: Seq<(usize, u16)>, e: (usize, u16))
    ensures
        enc_entry_list(es.push(e)) == enc_entry_list(es) + enc_entry(e),
    decreases es.len(),
{
    if es.len() == 0 {
        assert(es.push(e)[0] == e);
        assert(es.push(e).skip(1) =~= Seq::<(usize, u16)>::empty());
        assert(enc_entry_list(es) == Seq::<u8>::empty());
        assert(enc_entry_list(es.push(e).skip(1)) == Seq::<u8>::empty());
        assert(enc_entry_list(es.push(e)) =~= enc_entry_list(es) + enc_entry(e));
    } else {
        lemma_enc_entry_list_snoc(es.skip(1), e);
        assert(es.push(e).skip(1) =~= es.skip(1).push(e));
        assert(es.push(e)[0] == es[0]);
        assert(enc_entry_list(es.push(e)) == enc_entry(es[0]) + enc_entry_list(es.skip(1).push(e)));
        assert(enc_entry_list(es.push(e)) =~= enc_entry_list(es) + enc_entry(e));
    }
}

proof fn lemma_enc_row_list_snoc(rows: Seq<Seq<(usize, u16)>>, row: Seq<(usize, u16)>)
    ensures
        enc_row_list(rows.push(row)) == enc_row_list(rows) + enc_row(row),
    decreases rows.len(),
{
    if rows.len() == 0 {
        assert(rows.push(row)[0] == row);
        assert(rows.push(row).skip(1) =~= Seq::<Seq<(usize, u16)>>::empty());
        assert(enc_row_list(rows) == Seq::<u8>::empty());
        assert(enc_row_list(rows.push(row).skip(1)) == Seq::<u8>::empty());
        assert(enc_row_list(rows.push(row)) =~= enc_row_list(rows) + enc_row(row));
    } else {
        lemma_enc_row_list_snoc(rows.skip(1), row);
        assert(rows.push(row).skip(1) =~= rows.skip(1).push(row));
        assert(rows.push(row)[0] == rows[0]);
        assert(enc_row_list(rows.push(row)) == enc_row(rows[0]) + enc_row_list(rows.skip(1).push(row)));
        assert(enc_row_list(rows.push(row)) =~= enc_row_list(rows) + enc_row(row));
    }
}

// ---------------------------------------------------------------------
// writing

fn write_u16(out: &mut Vec<u8>, x: u16)
    ensures
        final(out)@ == old(out)@ + spec_u16_to_le_bytes(x),
{
    let mut b = u16_to_le_bytes(x);
    out.append(&mut b);
}

fn write_u32(out: &mut Vec<u8>, x: u32)
    ensures
        final(out)@ == old(out)@ + spec_u32_to_le_bytes(x),
{
    let mut b = u32_to_le_bytes(x);
    out.append(&mut b);
}

fn write_u64(out: &mut Vec<u8>, x: u64)
    ensures
        final(out)@ == old(out)@ + spec_u64_to_le_bytes(x),
{
    let mut b = u64_to_le_bytes(x);
    out.append(&mut b);
}

/// One token: its character count, then each character's scalar value.
fn write_string(out: &mut Vec<u8>, t: &str)
    ensures
        final(out)@ == old(out)@ + enc_string(t@),
{
    let n = t.unicode_len();
    write_u64(out, n as u64);
    let ghost base = out@;
    let mut ci: usize = 0;
    while ci < n
        invariant
            ci <= n,
            n == t@.len(),
            out@ == base + enc_chars(t@.subrange(0, ci as int)),
        decreases n - ci,
    {
        let c = t.get_char(ci);
        write_u32(out, c as u32);
        proof {
            lemma_enc_chars_snoc(t@.subrange(0, ci as int), c);
            assert(t@.subrange(0, ci as int).push(c) =~= t@.subrange(0, ci + 1));
            assert(out@ =~= base + enc_chars(t@.subrange(0, ci + 1)));
        }
        ci = ci + 1;
    }
    proof {
        assert(t@.subrange(0, n as int) =~= t@);
        assert(out@ =~= old(out)@ + enc_string(t@));
    }
}

/// One state: its token count, then each token.
fn write_state(out: &mut Vec<u8>, st: &State)
    ensures
        final(out)@ == old(out)@ + enc_state(st@),
{
    let tokens = st.tokens();
    write_u64(out, tokens.len() as u64);
    let ghost base = out@;
    let ghost stv = st@;
    let mut ti: usize = 0;
    while ti < tokens.len()
        invariant
            ti <= tokens@.len(),
            stv == tokens.deep_view(),
            stv.len() == tokens@.len(),
            out@ == base + enc_token_list(stv.subrange(0, ti as int)),
        decreases tokens@.len() - ti,
    {
        write_string(out, tokens[ti].as_str());
        proof {
            lemma_enc_token_list_snoc(stv.subrange(0, ti as int), stv[ti as int]);
            assert(stv.subrange(0, ti as int).push(stv[ti as int]) =~= stv.subrange(0, ti + 1));
            assert(tokens@[ti as int]@ == stv[ti as int]);
            assert(out@ =~= base + enc_token_list(stv.subrange(0, ti + 1)));
        }
        ti = ti + 1;
    }
    proof {
        assert(stv.subrange(0, stv.len() as int) =~= stv);
        assert(out@ =~= old(out)@ + enc_state(stv));
    }
}

/// Serializes a model: the magic prefix, then the payload the module
/// header describes.
pub fn save_model<S: StateIndex>(m: &MarkovGeneratorBase<S>) -> (out: Vec<u8>)
    ensures
        out@ == enc_model(m.state_size, m.states_view(), m.rows_view()),
{
    let mut out: Vec<u8> = Vec::new();
    out.push(3u8);
    out.push(4u8);
    out.push(5u8);
    proof {
        assert(out@ =~= magic_bytes());
    }
    write_u32(&mut out, m.state_size);
    let n = m.states.len();
    write_u64(&mut out, n as u64);
    let ghost sv = m.states_view();
    let ghost base = out@;
    let mut i: usize = 0;
    while i < n
        invariant
            i <= n,
            n == sv.len(),
            sv == m.states_view(),
            out@ == base + enc_state_list(sv.subrange(0, i as int)),
        decreases n - i,
    {
        let st = match m.states.get_state(i) {
            Some(st) => st,
            None => unreached(),
        };
        write_state(&mut out, st);
        proof {
            lemma_enc_state_list_snoc(sv.subrange(0, i as int), sv[i as int]);
            assert(sv.subrange(0, i as int).push(sv[i as int]) =~= sv.subrange(0, i + 1));
            assert(out@ =~= base + enc_state_list(sv.subrange(0, i + 1)));
        }
        i = i + 1;
    }
    proof {
        assert(sv.subrange(0, sv.len() as int) =~= sv);
    }
    let ghost rv = m.rows_view();
    let dim = crate::matrix::mat_dim(&m.mat);
    write_u64(&mut out, dim as u64);
    let ghost base2 = out@;
    let mut r: usize = 0;
    while r < dim
        invariant
            r <= dim,
            dim == rv.len(),
            rv == m.rows_view(),
            out@ == base2 + enc_row_list(rv.subrange(0, r as int)),
        decreases dim - r,
    {
        let entries = mat_row_entries(&m.mat, r);
        write_u64(&mut out, entries.len() as u64);
        let ghost base3 = out@;
        let ghost rowv = rv[r as int];
        let mut j: usize = 0;
        while j < entries.len()
            invariant
                j <= entries@.len(),
                entries@ == rowv,
                out@ == base3 + enc_entry_list(rowv.subrange(0, j as int)),
            decreases entries@.len() - j,
        {
            let (col, cnt) = entries[j];
            write_u64(&mut out, col as u64);
            write_u16(&mut out, cnt);
            proof {
                lemma_enc_entry_list_snoc(rowv.subrange(0, j as int), rowv[j as int]);
                assert(rowv.subrange(0, j as int).push(rowv[j as int]) =~= rowv.subrange(
                    0,
                    j + 1,
                ));
                assert(out@ =~= base3 + enc_entry_list(rowv.subrange(0, j + 1)));
            }
            j = j + 1;
        }
        proof {
            assert(rowv.subrange(0, rowv.len() as int) =~= rowv);
            assert(out@ == base3 + enc_entry_list(rowv));
            lemma_enc_row_list_snoc(rv.subrange(0, r as int), rowv);
            assert(rv.subrange(0, r as int).push(rowv) =~= rv.subrange(0, r + 1));
            assert(out@ =~= base2 + enc_row_list(rv.subrange(0, r + 1)));
        }
        r = r + 1;
    }
    proof {
        assert(rv.subrange(0, rv.len() as int) =~= rv);
        assert(out@ =~= enc_model(m.state_size, m.states_view(), m.rows_view()));
    }
    out
}

// ---------------------------------------------------------------------
// reading

/// Relies on `char::from_u32`: yields the value as a `char` exactly when
/// it is a Unicode scalar value.
#[verifier::external_body]
pub(crate) fn char_from_u32(v: u32) -> (r: Option<char>)
    ensures
        r == (if is_scalar(v) {
            Some(v as char)
        } else {
            None::<char>
        }),
{
    char::from_u32(v)
}

/// Relies on `String::push`: appends one character.
#[verifier::external_body]
pub(crate) fn string_push_char(s: &mut String, c: char)
    ensures
        final(s)@ == old(s)@.push(c),
{
    s.push(c)
}

fn read_u16(bytes: &Vec<u8>, pos: usize) -> (r: Option<(u16, usize)>)
    ensures
        match r {
            Some((x, p)) => dec_u16(bytes@, pos as int) == Some((x, p as int)),
            None => dec_u16(bytes@, pos as int) is None,
        },
{
    if bytes.len() >= 2 && pos <= bytes.len() - 2 {
        let s = slice_subrange(bytes.as_slice(), pos, pos + 2);
        Some((u16_from_le_bytes(s), pos + 2))
    } else {
        None
    }
}

fn read_u32(bytes: &Vec<u8>, pos: usize) -> (r: Option<(u32, usize)>)
    ensures
        match r {
            Some((x, p)) => dec_u32(bytes@, pos as int) == Some((x, p as int)),
            None => dec_u32(bytes@, pos as int) is None,
        },
{
    if bytes.len() >= 4 && pos <= bytes.len() - 4 {
        let s = slice_subrange(bytes.as_slice(), pos, pos + 4);
        Some((u32_from_le_bytes(s), pos + 4))
    } else {
        None
    }
}

fn read_u64(bytes: &Vec<u8>, pos: usize) -> (r: Option<(u64, usize)>)
    ensures
        match r {
            Some((x, p)) => dec_u64(bytes@, pos as int) == Some((x, p as int)),
            None => dec_u64(bytes@, pos as int) is None,
        },
{
    if bytes.len() >= 8 && pos <= bytes.len() - 8 {
        let s = slice_subrange(bytes.as_slice(), pos, pos + 8);
        Some((u64_from_le_bytes(s), pos + 8))
    } else {
        None
    }
}

fn read_len(bytes: &Vec<u8>, pos: usize) -> (r: Option<(usize, usize)>)
    ensures
        match r {
            Some((n, p)) => dec_len(bytes@, pos as int) == Some((n as int, p as int)),
            None => dec_len(bytes@, pos as int) is None,
        },
{
    match read_u64(bytes, pos) {
        Some((n, p)) => if n <= usize::MAX as u64 {
            Some((n as usize, p))
        } else {
            None
        },
        None => None,
    }
}

fn read_char(bytes: &Vec<u8>, pos: usize) -> (r: Option<(char, usize)>)
    ensures
        match r {
            Some((c, p)) => dec_char(bytes@, pos as int) == Some((c, p as int)),
            None => dec_char(bytes@, pos as int) is None,
        },
{
    match read_u32(bytes, pos) {
        Some((v, p)) => match char_from_u32(v) {
            Some(c) => Some((c, p)),
            None => None,
        },
        None => None,
    }
}

fn parse_string(bytes: &Vec<u8>, pos: usize) -> (r: Option<(String, usize)>)
    ensures
        match r {
            Some((s, p)) => dec_string(bytes@, pos as int) == Some((s@, p as int)),
            None => dec_string(bytes@, pos as int) is None,
        },
{
    let (n, start) = match read_len(bytes, pos) {
        Some(v) => v,
        None => {
            return None;
        },
    };
    let mut s = String::new();
    let mut p = start;
    let mut done: usize = 0;
    while done < n
        invariant
            done <= n,
            dec_string(bytes@, pos as int) == (match dec_chars(
                bytes@,
                p as int,
                n - done,
            ) {
                Some((t, q)) => Some::<(Seq<char>, int)>((s@ + t, q)),
                None => None::<(Seq<char>, int)>,
            }),
        decreases n - done,
    {
        let ghost p_old = p as int;
        let ghost s_old = s@;
        match read_char(bytes, p) {
            Some((c, np)) => {
                string_push_char(&mut s, c);
                proof {
                    let rem = n - done;
                    assert(dec_char(bytes@, p_old) == Some((c, np as int)));
                    let tail = dec_chars(bytes@, np as int, rem - 1);
                    if tail is Some {
                        let t2 = (tail->0).0;
                        assert(dec_chars(bytes@, p_old, rem) == Some::<(Seq<char>, int)>((
                            seq![c] + t2,
                            (tail->0).1,
                        )));
                        assert(s_old + (seq![c] + t2) =~= s@ + t2);
                    } else {
                        assert(dec_chars(bytes@, p_old, rem) is None);
                    }
                }
                p = np;
                done = done + 1;
            },
            None => {
                proof {
                    assert(dec_chars(bytes@, p_old, n - done) is None);
                }
                return None;
            },
        }
    }
    proof {
        assert(dec_chars(bytes@, p as int, 0) == Some::<(Seq<char>, int)>((
            Seq::<char>::empty(),
            p as int,
        )));
        assert(s@ + Seq::<char>::empty() =~= s@);
    }
    Some((s, p))
}

fn parse_state(bytes: &Vec<u8>, pos: usize) -> (r: Option<(State, usize)>)
    ensures
        match r {
            Some((st, p)) => dec_state(bytes@, pos as int) == Some((st@, p as int)),
            None => dec_state(bytes@, pos as int) is None,
        },
{
    let (n, start) = match read_len(bytes, pos) {
        Some(v) => v,
        None => {
            return None;
        },
    };
    let mut tokens: Vec<String> = Vec::new();
    let mut p = start;
    let mut done: usize = 0;
    proof {
        assert(tokens.deep_view() =~= Seq::<Seq<char>>::empty());
    }
    while done < n
        invariant
            done <= n,
            tokens.deep_view().len() == done,
            dec_state(bytes@, pos as int) == (match dec_token_list(
                bytes@,
                p as int,
                n - done,
            ) {
                Some((ts, q)) => Some::<(Seq<Seq<char>>, int)>((tokens.deep_view() + ts, q)),
                None => None::<(Seq<Seq<char>>, int)>,
            }),
        decreases n - done,
    {
        let ghost p_old = p as int;
        let ghost tv_old = tokens.deep_view();
        match parse_string(bytes, p) {
            Some((t, np)) => {
                let ghost telem = t@;
                let ghost pvec = tokens@;
                tokens.push(t);
                proof {
                    let post = tokens.deep_view();
                    assert(tokens@ == pvec.push(t));
                    assert forall|x: int| 0 <= x < post.len() implies post[x] == tv_old.push(
                        telem,
                    )[x] by {
                        assert(post[x] == tokens@[x].deep_view());
                        if x < tv_old.len() {
                            assert(tokens@[x] == pvec[x]);
                            assert(tv_old[x] == pvec[x].deep_view());
                        } else {
                            assert(tokens@[x] == t);
                        }
                    }
                    assert(post =~= tv_old.push(telem));
                    let rem = n - done;
                    assert(dec_string(bytes@, p_old) == Some((telem, np as int)));
                    let tail = dec_token_list(bytes@, np as int, rem - 1);
                    if tail is Some {
                        let t2 = (tail->0).0;
                        assert(dec_token_list(bytes@, p_old, rem) == Some::<
                            (Seq<Seq<char>>, int),
                        >((seq![telem] + t2, (tail->0).1)));
                        assert(tv_old + (seq![telem] + t2) =~= post + t2);
                    } else {
                        assert(dec_token_list(bytes@, p_old, rem) is None);
                    }
                }
                p = np;
                done = done + 1;
            },
            None => {
                proof {
                    assert(dec_token_list(bytes@, p_old, n - done) is None);
                }
                return None;
            },
        }
    }
    proof {
        assert(dec_token_list(bytes@, p as int, 0) == Some::<(Seq<Seq<char>>, int)>((
            Seq::<Seq<char>>::empty(),
            p as int,
        )));
        assert(tokens.deep_view() + Seq::<Seq<char>>::empty() =~= tokens.deep_view());
    }
    Some((State::new(tokens), p))
}

fn parse_states<S: StateIndex>(bytes: &Vec<u8>, pos: usize, count: usize) -> (r: Option<
    (S, usize),
>)
    ensures
        match r {
            Some((sidx, p)) => dec_state_list(bytes@, pos as int, count as int) == Some((
                sidx.states(),
                p as int,
            )) && sidx.states().len() == count,
            None => dec_state_list(bytes@, pos as int, count as int) is None,
        },
{
    let mut acc: S = S::empty();
    let mut p = pos;
    let mut done: usize = 0;
    while done < count
        invariant
            done <= count,
            acc.states().len() == done,
            dec_state_list(bytes@, pos as int, count as int) == (match dec_state_list(
                bytes@,
                p as int,
                count - done,
            ) {
                Some((sts, q)) => Some::<(Seq<Seq<Seq<char>>>, int)>((acc.states() + sts, q)),
                None => None::<(Seq<Seq<Seq<char>>>, int)>,
            }),
        decreases count - done,
    {
        let ghost p_old = p as int;
        let ghost acc_old = acc.states();
        match parse_state(bytes, p) {
            Some((st, np)) => {
                let ghost stv = st@;
                acc.insert(done, st);
                proof {
                    let rem = count - done;
                    assert(dec_state(bytes@, p_old) == Some((stv, np as int)));
                    let tail = dec_state_list(bytes@, np as int, rem - 1);
                    if tail is Some {
                        let t2 = (tail->0).0;
                        assert(dec_state_list(bytes@, p_old, rem) == Some::<
                            (Seq<Seq<Seq<char>>>, int),
                        >((seq![stv] + t2, (tail->0).1)));
                        assert(acc_old + (seq![stv] + t2) =~= acc_old.push(stv) + t2);
                    } else {
                        assert(dec_state_list(bytes@, p_old, rem) is None);
                    }
                }
                p = np;
                done = done + 1;
            },
            None => {
                proof {
                    assert(dec_state_list(bytes@, p_old, count - done) is None);
                }
                return None;
            },
        }
    }
    proof {
        assert(dec_state_list(bytes@, p as int, 0) == Some::<(Seq<Seq<Seq<char>>>, int)>((
            Seq::<Seq<Seq<char>>>::empty(),
            p as int,
        )));
        assert(acc.states() + Seq::<Seq<Seq<char>>>::empty() =~= acc.states());
    }
    Some((acc, p))
}

/// The rows of a parsed matrix, as sequences.
pub open spec fn rows_of_vecs(rv: Seq<Vec<(usize, u16)>>) -> Seq<Seq<(usize, u16)>> {
    rv.map_values(|v: Vec<(usize, u16)>| v@)
}

fn parse_row(bytes: &Vec<u8>, pos: usize) -> (r: Option<(Vec<(usize, u16)>, usize)>)
    ensures
        match r {
            Some((row, p)) => dec_row(bytes@, pos as int) == Some((row@, p as int)),
            None => dec_row(bytes@, pos as int) is None,
        },
{
    let (n, start) = match read_len(bytes, pos) {
        Some(v) => v,
        None => {
            return None;
        },
    };
    let mut row: Vec<(usize, u16)> = Vec::new();
    let mut p = start;
    let mut done: usize = 0;
    while done < n
        invariant
            done <= n,
            dec_row(bytes@, pos as int) == (match dec_entry_list(bytes@, p as int, n - done) {
                Some((es, q)) => Some::<(Seq<(usize, u16)>, int)>((row@ + es, q)),
                None => None::<(Seq<(usize, u16)>, int)>,
            }),
        decreases n - done,
    {
        let ghost p_old = p as int;
        let ghost row_old = row@;
        let (col, p1) = match read_len(bytes, p) {
            Some(v) => v,
            None => {
                proof {
                    assert(dec_entry(bytes@, p_old) is None);
                    assert(dec_entry_list(bytes@, p_old, n - done) is None);
                }
                return None;
            },
        };
        let (cnt, p2) = match read_u16(bytes, p1) {
            Some(v) => v,
            None => {
                proof {
                    assert(dec_entry(bytes@, p_old) is None);
                    assert(dec_entry_list(bytes@, p_old, n - done) is None);
                }
                return None;
            },
        };
        row.push((col, cnt));
        proof {
            let rem = n - done;
            assert(dec_entry(bytes@, p_old) == Some(((col, cnt), p2 as int)));
            let tail = dec_entry_list(bytes@, p2 as int, rem - 1);
            if tail is Some {
                let t2 = (tail->0).0;
                assert(dec_entry_list(bytes@, p_old, rem) == Some::<(Seq<(usize, u16)>, int)>((
                    seq![(col, cnt)] + t2,
                    (tail->0).1,
                )));
                assert(row_old + (seq![(col, cnt)] + t2) =~= row@ + t2);
            } else {
                assert(dec_entry_list(bytes@, p_old, rem) is None);
            }
        }
        p = p2;
        done = done + 1;
    }
    proof {
        assert(dec_entry_list(bytes@, p as int, 0) == Some::<(Seq<(usize, u16)>, int)>((
            Seq::<(usize, u16)>::empty(),
            p as int,
        )));
        assert(row@ + Seq::<(usize, u16)>::empty() =~= row@);
    }
    Some((row, p))
}

fn parse_rows(bytes: &Vec<u8>, pos: usize, count: usize) -> (r: Option<
    (Vec<Vec<(usize, u16)>>, usize),
>)
    ensures
        match r {
            Some((rows, p)) => dec_row_list(bytes@, pos as int, count as int) == Some((
                rows_of_vecs(rows@),
                p as int,
            )) && rows@.len() == count,
            None => dec_row_list(bytes@, pos as int, count as int) is None,
        },
{
    let mut acc: Vec<Vec<(usize, u16)>> = Vec::new();
    let mut p = pos;
    let mut done: usize = 0;
    proof {
        assert(rows_of_vecs(acc@) =~= Seq::<Seq<(usize, u16)>>::empty());
    }
    while done < count
        invariant
            done <= count,
            acc@.len() == done,
            dec_row_list(bytes@, pos as int, count as int) == (match dec_row_list(
                bytes@,
                p as int,
                count - done,
            ) {
                Some((rs, q)) => Some::<(Seq<Seq<(usize, u16)>>, int)>((
                    rows_of_vecs(acc@) + rs,
                    q,
                )),
                None => None::<(Seq<Seq<(usize, u16)>>, int)>,
            }),
        decreases count - done,
    {
        let ghost p_old = p as int;
        let ghost acc_old = rows_of_vecs(acc@);
        match parse_row(bytes, p) {
            Some((row, np)) => {
                let ghost rowv = row@;
                acc.push(row);
                proof {
                    assert(rows_of_vecs(acc@) =~= acc_old.push(rowv));
                    let rem = count - done;
                    assert(dec_row(bytes@, p_old) == Some((rowv, np as int)));
                    let tail = dec_row_list(bytes@, np as int, rem - 1);
                    if tail is Some {
                        let t2 = (tail->0).0;
                        assert(dec_row_list(bytes@, p_old, rem) == Some::<
                            (Seq<Seq<(usize, u16)>>, int),
                        >((seq![rowv] + t2, (tail->0).1)));
                        assert(acc_old + (seq![rowv] + t2) =~= acc_old.push(rowv) + t2);
                    } else {
                        assert(dec_row_list(bytes@, p_old, rem) is None);
                    }
                }
                p = np;
                done = done + 1;
            },
            None => {
                proof {
                    assert(dec_row_list(bytes@, p_old, count - done) is None);
                }
                return None;
            },
        }
    }
    proof {
        assert(dec_row_list(bytes@, p as int, 0) == Some::<(Seq<Seq<(usize, u16)>>, int)>((
            Seq::<Seq<(usize, u16)>>::empty(),
            p as int,
        )));
        assert(rows_of_vecs(acc@) + Seq::<Seq<(usize, u16)>>::empty() =~= rows_of_vecs(acc@));
    }
    Some((acc, p))
}

/// One row's validity: sorted columns naming registered states, and no
/// zero count materialized.
fn row_ok(row: &Vec<(usize, u16)>, n_states: usize) -> (r: bool)
    ensures
        r == (row_sorted(row@) && (forall|j: int|
            0 <= j < row@.len() ==> (#[trigger] row@[j]).0 < n_states && row@[j].1 >= 1)),
{
    let mut j: usize = 0;
    while j < row.len()
        invariant
            j <= row@.len(),
            forall|a: int, b: int| 0 <= a < b < j ==> (#[trigger] row@[a]).0 < (#[trigger] row@[b]).0,
            forall|a: int| 0 <= a < j ==> (#[trigger] row@[a]).0 < n_states && row@[a].1 >= 1,
        decreases row@.len() - j,
    {
        let (col, cnt) = row[j];
        if col >= n_states || cnt == 0 {
            return false;
        }
        if j > 0 {
            let (pc, _pw) = row[j - 1];
            if pc >= col {
                proof {
                    assert(!row_sorted(row@));
                }
                return false;
            }
        }
        j = j + 1;
    }
    true
}

/// Whether parsed data forms a well-formed model.
fn parsed_wf(order: u32, n_states: usize, rows: &Vec<Vec<(usize, u16)>>) -> (r: bool)
    ensures
        r == model_wf_rows_only(order, n_states as int, rows_of_vecs(rows@)),
{
    if order < 1 || n_states < 1 || n_states > rows.len() {
        return false;
    }
    let mut i: usize = 0;
    while i < rows.len()
        invariant
            i <= rows@.len(),
            order >= 1,
            1 <= n_states <= rows@.len(),
            forall|r: int|
                0 <= r < i ==> row_sorted(#[trigger] rows_of_vecs(rows@)[r]) && (forall|j: int|
                    0 <= j < rows_of_vecs(rows@)[r].len() ==> (#[trigger] rows_of_vecs(
                        rows@,
                    )[r][j]).0 < n_states && rows_of_vecs(rows@)[r][j].1 >= 1),
        decreases rows@.len() - i,
    {
        if !row_ok(&rows[i], n_states) {
            proof {
                assert(rows_of_vecs(rows@)[i as int] == rows@[i as int]@);
            }
            return false;
        }
        proof {
            assert(rows_of_vecs(rows@)[i as int] == rows@[i as int]@);
        }
        i = i + 1;
    }
    true
}

/// Well-formedness of the matrix side of a model: what `model_wf` says
/// once the state list is known to have exactly `n_states` entries.
pub open spec fn model_wf_rows_only(order: u32, n_states: int, rows: Seq<Seq<(usize, u16)>>) -> bool {
    &&& order >= 1
    &&& 1 <= n_states <= rows.len()
    &&& forall|r: int| 0 <= r < rows.len() ==> row_sorted(#[trigger] rows[r])
    &&& forall|r: int, j: int|
        0 <= r < rows.len() && 0 <= j < rows[r].len() ==> (#[trigger] rows[r][j]).0 < n_states
            && rows[r][j].1 >= 1
}

/// `model_wf` and its matrix-only restatement agree once the number of
/// states is fixed.
proof fn lemma_wf_agree(order: u32, states: Seq<Seq<Seq<char>>>, rows: Seq<Seq<(usize, u16)>>)
    ensures
        model_wf(order, states, rows) <==> model_wf_rows_only(
            order,
            states.len() as int,
            rows,
        ),
{
    if model_wf(order, states, rows) {
        assert(model_wf_rows_only(order, states.len() as int, rows));
    }
    if model_wf_rows_only(order, states.len() as int, rows) {
        assert(model_wf(order, states, rows));
    }
}

/// Replays parsed rows into a fresh matrix.
fn build_matrix(rows: &Vec<Vec<(usize, u16)>>, n_states: usize) -> (m: crate::matrix::TransitionMatrix)
    requires
        n_states <= rows@.len(),
        forall|r: int| 0 <= r < rows@.len() ==> row_sorted(#[trigger] rows_of_vecs(rows@)[r]),
        forall|r: int, j: int|
            0 <= r < rows@.len() && 0 <= j < rows_of_vecs(rows@)[r].len() ==> (
            #[trigger] rows_of_vecs(rows@)[r][j]).0 < n_states,
    ensures
        mat_rows(m) == rows_of_vecs(rows@),
{
    let dim = rows.len();
    let mut m = mat_zero(dim);
    let ghost goal = rows_of_vecs(rows@);
    let mut r: usize = 0;
    proof {
        assert(mat_rows(m).len() == dim);
        assert(forall|x: int|
            0 <= x < dim ==> (#[trigger] mat_rows(m)[x]) == Seq::<(usize, u16)>::empty());
    }
    while r < dim
        invariant
            r <= dim,
            dim == rows@.len(),
            goal == rows_of_vecs(rows@),
            n_states <= dim,
            forall|x: int| 0 <= x < dim ==> row_sorted(#[trigger] goal[x]),
            forall|x: int, j: int|
                0 <= x < dim && 0 <= j < goal[x].len() ==> (#[trigger] goal[x][j]).0 < n_states,
            mat_rows(m).len() == dim,
            forall|x: int| 0 <= x < r ==> (#[trigger] mat_rows(m)[x]) == goal[x],
            forall|x: int|
                r <= x < dim ==> (#[trigger] mat_rows(m)[x]) == Seq::<(usize, u16)>::empty(),
        decreases dim - r,
    {
        let row = &rows[r];
        proof {
            assert(goal[r as int] == rows@[r as int]@);
        }
        let mut j: usize = 0;
        while j < row.len()
            invariant
                j <= row@.len(),
                r < dim,
                dim == rows@.len(),
                row@ == goal[r as int],
                n_states <= dim,
                forall|x: int| 0 <= x < dim ==> row_sorted(#[trigger] goal[x]),
                forall|x: int, jj: int|
                    0 <= x < dim && 0 <= jj < goal[x].len() ==> (#[trigger] goal[x][jj]).0
                        < n_states,
                mat_rows(m).len() == dim,
                forall|x: int| 0 <= x < r ==> (#[trigger] mat_rows(m)[x]) == goal[x],
                mat_rows(m)[r as int] == goal[r as int].subrange(0, j as int),
                forall|x: int|
                    r < x < dim ==> (#[trigger] mat_rows(m)[x]) == Seq::<(usize, u16)>::empty(),
            decreases row@.len() - j,
        {
            let (col, cnt) = row[j];
            let ghost pre = mat_rows(m)[r as int];
            mat_set(&mut m, r, col, cnt);
            proof {
                assert(row_sorted(pre)) by {
                    assert(row_sorted(goal[r as int]));
                }
                assert forall|x: int| 0 <= x < pre.len() implies (#[trigger] pre[x]).0 < col by {
                    assert(pre[x] == goal[r as int][x]);
                    assert(goal[r as int][x].0 < goal[r as int][j as int].0);
                }
                lemma_row_insert_append(pre, col, cnt);
                assert(pre.push((col, cnt)) =~= goal[r as int].subrange(0, j + 1));
            }
            j = j + 1;
        }
        proof {
            assert(goal[r as int].subrange(0, goal[r as int].len() as int) =~= goal[r as int]);
        }
        r = r + 1;
    }
    proof {
        assert(mat_rows(m) =~= goal);
    }
    m
}

/// Whether a byte stream carries the magic prefix of a saved model; a
/// stream without it is raw training text.
pub fn has_magic_prefix(bytes: &Vec<u8>) -> (r: bool)
    ensures
        r == (bytes@.len() >= 3 && bytes@.subrange(0, 3) == magic_bytes()),
{
    if bytes.len() >= 3 {
        let ok = bytes[0] == 3 && bytes[1] == 4 && bytes[2] == 5;
        proof {
            if ok {
                assert(bytes@.subrange(0, 3) =~= magic_bytes());
            } else {
                if bytes@.subrange(0, 3) == magic_bytes() {
                    assert(bytes@.subrange(0, 3)[0] == bytes@[0]);
                    assert(bytes@.subrange(0, 3)[1] == bytes@[1]);
                    assert(bytes@.subrange(0, 3)[2] == bytes@[2]);
                    assert(magic_bytes()[0] == 3 && magic_bytes()[1] == 4 && magic_bytes()[2]
                        == 5);
                }
            }
        }
        ok
    } else {
        false
    }
}

/// Deserializes a model saved by `save_model`. Fails, leaving nothing
/// behind, exactly on a structurally invalid payload.
pub fn load_model<S: StateIndex>(bytes: &Vec<u8>) -> (r: Result<MarkovGeneratorBase<S>, DecodeError>)
    ensures
        match r {
            Ok(m) => dec_model(bytes@) == Some((m.state_size, m.states_view(), m.rows_view()))
                && m.wf(),
            Err(e) => dec_model(bytes@) is None && e == DecodeError::InvalidPayload,
        },
{
    if !has_magic_prefix(bytes) {
        return Err(DecodeError::InvalidPayload);
    }
    let (order, p1) = match read_u32(bytes, 3) {
        Some(v) => v,
        None => {
            return Err(DecodeError::InvalidPayload);
        },
    };
    let (n_states, p2) = match read_len(bytes, p1) {
        Some(v) => v,
        None => {
            return Err(DecodeError::InvalidPayload);
        },
    };
    let (sidx, p3) = match parse_states::<S>(bytes, p2, n_states) {
        Some(v) => v,
        None => {
            return Err(DecodeError::InvalidPayload);
        },
    };
    let (dim, p4) = match read_len(bytes, p3) {
        Some(v) => v,
        None => {
            return Err(DecodeError::InvalidPayload);
        },
    };
    let (rows, p5) = match parse_rows(bytes, p4, dim) {
        Some(v) => v,
        None => {
            return Err(DecodeError::InvalidPayload);
        },
    };
    proof {
        assert(dec_payload(bytes@) == Some::<((u32, Seq<Seq<Seq<char>>>, Seq<Seq<(usize, u16)>>),
            int)>(((order, sidx.states(), rows_of_vecs(rows@)), p5 as int)));
    }
    if p5 != bytes.len() {
        return Err(DecodeError::InvalidPayload);
    }
    if !parsed_wf(order, n_states, &rows) {
        proof {
            assert(sidx.states().len() == n_states);
            lemma_wf_agree(order, sidx.states(), rows_of_vecs(rows@));
            assert(!model_wf(order, sidx.states(), rows_of_vecs(rows@)));
        }
        return Err(DecodeError::InvalidPayload);
    }
    let mat = build_matrix(&rows, n_states);
    let m = MarkovGeneratorBase { mat, states: sidx, state_size: order };
    proof {
        assert(m.states_view().len() == n_states);
        lemma_wf_agree(order, m.states_view(), m.rows_view());
        assert(model_wf(order, m.states_view(), m.rows_view()));
    }
    Ok(m)
}

} // verus!
