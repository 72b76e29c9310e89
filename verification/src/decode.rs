//! The executable decoder, verified against the grammar in `grammar`.

use crate::grammar::{
    digit_run_end, digits_val, is_digit_byte, lemma_digit_run_end_is, lemma_digits_val_nonneg,
    lemma_digits_val_step, spec_parse_bytes, spec_parse_dict, spec_parse_document,
    spec_parse_integer, spec_parse_items, spec_parse_list, spec_parse_pairs, spec_parse_top,
    spec_parse_value, DIGIT_NINE, DIGIT_ZERO, TOK_COLON, TOK_DICT, TOK_END, TOK_INT, TOK_LIST,
    TOK_MINUS, TOK_PLUS,
};
use crate::model::{SpecOutcome, SpecTop, SpecValue};
use crate::value::{
    dict_model, lemma_dict_model_push, lemma_dict_model_update, lemma_list_model_push, list_model,
    span_bytes, spans_eq, BencodeError, Span, Value,
};
use vstd::prelude::*;

verus! {

broadcast use vstd::seq::group_seq_axioms, vstd::std_specs::vec::group_vec_axioms;

/// What an executable decoding result denotes, for comparison with the
/// grammar's outcome.
pub open spec fn outcome_of(r: Result<(Value, usize), BencodeError>, buf: Seq<u8>) -> SpecOutcome {
    match r {
        Ok((v, end)) => SpecOutcome::Parsed(v.model(buf), end as int),
        Err(e) => SpecOutcome::Failed(e@),
    }
}

/// Advances past the run of ASCII digits that begins at `from`.
fn scan_digits(input: &[u8], from: usize) -> (end: usize)
    requires
        from <= input@.len(),
    ensures
        from <= end <= input@.len(),
        end as int == digit_run_end(input@, from as int),
        forall|k: int| from <= k < end ==> is_digit_byte(input@[k]),
{
    let ghost s = input@;
    let mut p = from;
    while p < input.len() && input[p] >= DIGIT_ZERO && input[p] <= DIGIT_NINE
        invariant
            from <= p <= s.len(),
            s == input@,
            forall|k: int| from <= k < p ==> is_digit_byte(s[k]),
        decreases s.len() - p,
    {
        p += 1;
    }
    proof {
        lemma_digit_run_end_is(s, from as int, p as int);
    }
    p
}

/// Reads the value of the digit run `input[from..to]` into a `u64`.  The
/// second component reports that the value does not fit: the run denotes a
/// number beyond `u64::MAX`.
fn accumulate_digits(input: &[u8], from: usize, to: usize) -> (r: (u64, bool))
    requires
        from <= to <= input@.len(),
        forall|k: int| from <= k < to ==> is_digit_byte(input@[k]),
    ensures
        !r.1 ==> r.0 as int == digits_val(input@.subrange(from as int, to as int)),
        r.1 ==> digits_val(input@.subrange(from as int, to as int)) > u64::MAX as int,
{
    let ghost s = input@;
    let mut acc: u64 = 0;
    let mut over = false;
    let mut p = from;
    proof {
        assert(s.subrange(from as int, from as int) =~= Seq::<u8>::empty());
    }
    while p < to
        invariant
            from <= p <= to <= s.len(),
            s == input@,
            forall|k: int| from <= k < to ==> is_digit_byte(s[k]),
            !over ==> acc as int == digits_val(s.subrange(from as int, p as int)),
            over ==> digits_val(s.subrange(from as int, p as int)) > u64::MAX as int,
        decreases to - p,
    {
        let d = input[p] - DIGIT_ZERO;
        proof {
            lemma_digits_val_step(s, from as int, p as int);
            lemma_digits_val_nonneg(s.subrange(from as int, p as int));
        }
        if over {
            proof {
                let prev = digits_val(s.subrange(from as int, p as int));
                assert(prev * 10 >= prev) by (nonlinear_arith)
                    requires
                        prev >= 0,
                ;
            }
        } else if acc > (u64::MAX - (d as u64)) / 10 {
            over = true;
            proof {
                let m = u64::MAX as int;
                let dd = d as int;
                assert(acc as int * 10 + dd > m) by (nonlinear_arith)
                    requires
                        acc as int > (m - dd) / 10,
                        0 <= dd <= 9,
                        m == u64::MAX as int,
                ;
            }
        } else {
            proof {
                let m = u64::MAX as int;
                let dd = d as int;
                assert(acc as int * 10 + dd <= m) by (nonlinear_arith)
                    requires
                        acc as int <= (m - dd) / 10,
                        0 <= dd <= 9,
                        acc as int >= 0,
                        m == u64::MAX as int,
                ;
            }
            acc = acc * 10 + (d as u64);
        }
        p += 1;
    }
    (acc, over)
}

/// The largest magnitude of a negative 64-bit integer.
pub const I64_MIN_MAG: u64 = 9223372036854775808;

impl Value {
    /// Decodes one integer token, `i`, an optional sign, digits, `e`,
    /// beginning at `from`.  Returns the decoded value and the position just
    /// past the trailing `e`; the outcome, error taxonomy included, is
    /// exactly what the integer rule of the grammar denotes.
    pub fn parse_integer(input: &[u8], from: usize) -> (r: Result<(Value, usize), BencodeError>)
        requires
            from <= input@.len(),
        ensures
            outcome_of(r, input@) == spec_parse_integer(input@, from as int),
            r matches Ok(p) ==> from < p.1 <= input@.len() && p.0.wf(input@) && p.0 matches Value::Integer(_),
    {
        let ghost s = input@;
        let n = input.len();
        if from >= n || input[from] != TOK_INT {
            return Err(BencodeError::StructuralMismatch(from));
        }
        let mut has_sign = false;
        let mut neg = false;
        if from + 1 < n && (input[from + 1] == TOK_PLUS || input[from + 1] == TOK_MINUS) {
            has_sign = true;
            neg = input[from + 1] == TOK_MINUS;
        }
        let d0 = if has_sign {
            from + 2
        } else {
            from + 1
        };
        let de = scan_digits(input, d0);
        if de == d0 {
            return Err(BencodeError::StructuralMismatch(d0));
        }
        if de >= n || input[de] != TOK_END {
            return Err(BencodeError::StructuralMismatch(de));
        }
        if (neg && input[d0] == DIGIT_ZERO) || (!has_sign && input[d0] == DIGIT_ZERO && de - d0
            > 1) {
            return Err(BencodeError::InvalidInteger(from));
        }
        let (mag, over) = accumulate_digits(input, d0, de);
        proof {
            lemma_digits_val_nonneg(s.subrange(d0 as int, de as int));
        }
        if over {
            return Err(BencodeError::IntegerOverflow(from));
        }
        if neg {
            if mag > I64_MIN_MAG {
                return Err(BencodeError::IntegerOverflow(from));
            }
            let v: i64 = if mag == I64_MIN_MAG {
                i64::MIN
            } else {
                -(mag as i64)
            };
            Ok((Value::Integer(v), de + 1))
        } else {
            if mag > i64::MAX as u64 {
                return Err(BencodeError::IntegerOverflow(from));
            }
            Ok((Value::Integer(mag as i64), de + 1))
        }
    }

    /// Decodes one byte-string token, a decimal length, `:`, and exactly
    /// that many payload bytes, beginning at `from`.  The payload is not
    /// copied: the decoded value holds a span of the input buffer.  The
    /// outcome is exactly what the byte-string rule of the grammar denotes.
    pub fn parse_bytes(input: &[u8], from: usize) -> (r: Result<(Value, usize), BencodeError>)
        requires
            from <= input@.len(),
        ensures
            outcome_of(r, input@) == spec_parse_bytes(input@, from as int),
            r matches Ok(p) ==> from < p.1 <= input@.len() && p.0.wf(input@) && (p.0 matches Value::Bytes(sp)
                && sp.start + sp.len == p.1),
    {
        let ghost s = input@;
        let n = input.len();
        let de = scan_digits(input, from);
        if de == from {
            return Err(BencodeError::StructuralMismatch(from));
        }
        if de >= n || input[de] != TOK_COLON {
            return Err(BencodeError::StructuralMismatch(de));
        }
        let (lv, over) = accumulate_digits(input, from, de);
        proof {
            lemma_digits_val_nonneg(s.subrange(from as int, de as int));
        }
        if over {
            return Err(BencodeError::IntegerOverflow(from));
        }
        if lv == 0 {
            return Err(BencodeError::InvalidByteStringLength(from));
        }
        let ps = de + 1;
        let rem = n - ps;
        if lv > rem as u64 {
            return Err(BencodeError::StructuralMismatch(ps));
        }
        let plen = lv as usize;
        Ok((Value::Bytes(Span { start: ps, len: plen }), ps + plen))
    }

    /// One decoding step at `from`: tries byte-string, integer, list,
    /// dictionary, in that order.  The first success wins; a fatal failure
    /// aborts at once; when every rule fails recoverably, the first rule's
    /// failure is reported.  The outcome is exactly what the dispatcher of
    /// the grammar denotes.
    pub fn parse_value(input: &[u8], from: usize) -> (r: Result<(Value, usize), BencodeError>)
        requires
            from <= input@.len(),
        ensures
            outcome_of(r, input@) == spec_parse_value(input@, from as int),
            r matches Ok(p) ==> from < p.1 <= input@.len() && p.0.wf(input@),
        decreases input@.len() - from, 1int,
    {
        let e1 = match Self::parse_bytes(input, from) {
            Ok(p) => {
                return Ok(p);
            },
            Err(e) => e,
        };
        if e1.is_fatal() {
            return Err(e1);
        }
        let e2 = match Self::parse_integer(input, from) {
            Ok(p) => {
                return Ok(p);
            },
            Err(e) => e,
        };
        if e2.is_fatal() {
            return Err(e2);
        }
        let e3 = match Self::parse_list(input, from) {
            Ok(p) => {
                return Ok(p);
            },
            Err(e) => e,
        };
        if e3.is_fatal() {
            return Err(e3);
        }
        let e4 = match Self::parse_dict(input, from) {
            Ok(p) => {
                return Ok(p);
            },
            Err(e) => e,
        };
        if e4.is_fatal() {
            return Err(e4);
        }
        Err(e1)
    }

    /// Decodes one list token `l<values>e` at `from`.  Elements keep the
    /// order in which they appear; an empty body is a valid empty list.  The
    /// outcome is exactly what the list rule of the grammar denotes.
    #[verifier::loop_isolation(false)]
    pub fn parse_list(input: &[u8], from: usize) -> (r: Result<(Value, usize), BencodeError>)
        requires
            from <= input@.len(),
        ensures
            outcome_of(r, input@) == spec_parse_list(input@, from as int),
            r matches Ok(p) ==> from < p.1 <= input@.len() && p.0.wf(input@),
        decreases input@.len() - from, 0int,
    {
        let ghost s = input@;
        let n = input.len();
        if from >= n || input[from] != TOK_LIST {
            return Err(BencodeError::StructuralMismatch(from));
        }
        let mut items: Vec<Value> = Vec::new();
        let mut p = from + 1;
        proof {
            assert(list_model(items@, s) =~= Seq::<SpecValue>::empty());
        }
        loop
            invariant
                from + 1 <= p <= n,
                forall|i: int| 0 <= i < items@.len() ==> (#[trigger] items@[i]).wf(s),
                spec_parse_items(s, p as int, list_model(items@, s)) == spec_parse_items(
                    s,
                    from + 1,
                    Seq::empty(),
                ),
            decreases n - p,
        {
            if p < n && input[p] == TOK_END {
                return Ok((Value::List(items), p + 1));
            }
            match Self::parse_value(input, p) {
                Ok((v, q)) => {
                    proof {
                        lemma_list_model_push(items@, s, v);
                    }
                    items.push(v);
                    p = q;
                },
                Err(e) => {
                    return Err(e);
                },
            }
        }
    }

    /// Decodes one dictionary token `d<key value ...>e` at `from`.  A key is
    /// decoded strictly under the byte-string rule, its value under the
    /// dispatcher; a later pair with an equal key text replaces the earlier
    /// one, so the entries' key texts stay unique.  The outcome is exactly
    /// what the dictionary rule of the grammar denotes.
    #[verifier::loop_isolation(false)]
    pub fn parse_dict(input: &[u8], from: usize) -> (r: Result<(Value, usize), BencodeError>)
        requires
            from <= input@.len(),
        ensures
            outcome_of(r, input@) == spec_parse_dict(input@, from as int),
            r matches Ok(p) ==> from < p.1 <= input@.len() && p.0.wf(input@),
        decreases input@.len() - from, 0int,
    {
        let ghost s = input@;
        let n = input.len();
        if from >= n || input[from] != TOK_DICT {
            return Err(BencodeError::StructuralMismatch(from));
        }
        let mut entries: Vec<(Span, Value)> = Vec::new();
        let mut p = from + 1;
        proof {
            assert(dict_model(entries@, s) =~= Map::<Seq<u8>, SpecValue>::empty());
        }
        loop
            invariant
                from + 1 <= p <= n,
                forall|i: int|
                    0 <= i < entries@.len() ==> (#[trigger] entries@[i]).0.wf(s.len() as int)
                        && entries@[i].1.wf(s),
                forall|i: int, j: int|
                    0 <= i < j < entries@.len() ==> span_bytes((#[trigger] entries@[i]).0, s)
                        != span_bytes((#[trigger] entries@[j]).0, s),
                spec_parse_pairs(s, p as int, dict_model(entries@, s)) == spec_parse_pairs(
                    s,
                    from + 1,
                    Map::empty(),
                ),
            decreases n - p,
        {
            if p < n && input[p] == TOK_END {
                return Ok((Value::Dictionary(entries), p + 1));
            }
            let (ksp, q) = match Self::parse_bytes(input, p) {
                Ok((kv, q)) => match kv {
                    Value::Bytes(sp) => (sp, q),
                    _ => vstd::pervasive::unreached(),
                },
                Err(e) => {
                    return Err(e);
                },
            };
            match Self::parse_value(input, q) {
                Ok((v, r2)) => {
                    dict_insert(input, &mut entries, ksp, v);
                    p = r2;
                },
                Err(e) => {
                    return Err(e);
                },
            }
        }
    }

    /// Decodes a whole buffer: top-level values accumulate until no further
    /// value is recognizable, and the cursor must then stand exactly at the
    /// end, else the whole buffer is rejected.  An empty buffer yields an
    /// empty sequence.  The outcome is exactly what the top-level driver of
    /// the grammar denotes.
    #[verifier::loop_isolation(false)]
    pub fn parse(input: &[u8]) -> (r: Result<Vec<Value>, BencodeError>)
        ensures
            top_outcome_of(r, input@) == spec_parse_document(input@),
            r matches Ok(vs) ==> forall|i: int| 0 <= i < vs@.len() ==> (#[trigger] vs@[i]).wf(
                input@,
            ),
    {
        let ghost s = input@;
        let n = input.len();
        let mut out: Vec<Value> = Vec::new();
        let mut p: usize = 0;
        proof {
            assert(list_model(out@, s) =~= Seq::<SpecValue>::empty());
        }
        loop
            invariant
                p <= n,
                forall|i: int| 0 <= i < out@.len() ==> (#[trigger] out@[i]).wf(s),
                spec_parse_top(s, p as int, list_model(out@, s)) == spec_parse_document(s),
            decreases n - p,
        {
            match Self::parse_value(input, p) {
                Ok((v, q)) => {
                    proof {
                        lemma_list_model_push(out@, s, v);
                    }
                    out.push(v);
                    p = q;
                },
                Err(e) => {
                    if e.is_fatal() {
                        return Err(e);
                    }
                    if p == n {
                        return Ok(out);
                    }
                    return Err(BencodeError::StructuralMismatch(p));
                },
            }
        }
    }
}

/// What an executable whole-buffer result denotes.
pub open spec fn top_outcome_of(r: Result<Vec<Value>, BencodeError>, buf: Seq<u8>) -> SpecTop {
    match r {
        Ok(vs) => SpecTop::Parsed(list_model(vs@, buf)),
        Err(e) => SpecTop::Failed(e@),
    }
}

/// Binds `key` to `value` among the entries: replaces the one entry whose
/// key text equals the new key's, or appends.  The entries' mapping gains
/// exactly this binding, and the key texts stay unique.
#[verifier::loop_isolation(false)]
fn dict_insert(input: &[u8], entries: &mut Vec<(Span, Value)>, key: Span, value: Value)
    requires
        key.wf(input@.len() as int),
        value.wf(input@),
        forall|i: int|
            0 <= i < old(entries)@.len() ==> (#[trigger] old(entries)@[i]).0.wf(
                input@.len() as int,
            ) && old(entries)@[i].1.wf(input@),
        forall|i: int, j: int|
            0 <= i < j < old(entries)@.len() ==> span_bytes((#[trigger] old(entries)@[i]).0, input@)
                != span_bytes((#[trigger] old(entries)@[j]).0, input@),
    ensures
        dict_model(final(entries)@, input@) == dict_model(old(entries)@, input@).insert(
            span_bytes(key, input@),
            value.model(input@),
        ),
        forall|i: int|
            0 <= i < final(entries)@.len() ==> (#[trigger] final(entries)@[i]).0.wf(
                input@.len() as int,
            ) && final(entries)@[i].1.wf(input@),
        forall|i: int, j: int|
            0 <= i < j < final(entries)@.len() ==> span_bytes(
                (#[trigger] final(entries)@[i]).0,
                input@,
            ) != span_bytes((#[trigger] final(entries)@[j]).0, input@),
{
    let ghost s = input@;
    let mut i: usize = 0;
    while i < entries.len()
        invariant
            i <= entries@.len(),
            entries@ == old(entries)@,
            forall|m: int|
                0 <= m < i ==> span_bytes((#[trigger] entries@[m]).0, s) != span_bytes(key, s),
        decreases entries@.len() - i,
    {
        let esp = entries[i].0;
        if spans_eq(input, esp, key) {
            let ghost olde = entries@;
            entries[i] = (key, value);
            proof {
                lemma_dict_model_update(olde, s, i as int, (key, value));
                assert forall|a: int, b: int| 0 <= a < b < entries@.len() implies span_bytes(
                    (#[trigger] entries@[a]).0,
                    s,
                ) != span_bytes((#[trigger] entries@[b]).0, s) by {
                    assert(span_bytes(entries@[a].0, s) == span_bytes(olde[a].0, s));
                    assert(span_bytes(entries@[b].0, s) == span_bytes(olde[b].0, s));
                }
            }
            return;
        }
        i += 1;
    }
    proof {
        lemma_dict_model_push(entries@, s, (key, value));
    }
    entries.push((key, value));
}

} // verus!
