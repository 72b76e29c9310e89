//! General properties of the grammar, stated and proved once and for all.

use crate::grammar::{
    digit_run_end, digits_val, is_digit_byte, lemma_digit_run_end, lemma_digit_run_end_is,
    lemma_digits_val_nonneg, spec_parse_bytes, spec_parse_dict, spec_parse_integer,
    spec_parse_items, spec_parse_list, spec_parse_pairs, spec_parse_value, DIGIT_ZERO, TOK_COLON,
    TOK_DICT, TOK_END, TOK_INT, TOK_LIST, TOK_MINUS, TOK_PLUS,
};
use crate::model::{SpecError, SpecOutcome, SpecValue};
use vstd::prelude::*;

verus! {

/// A decoded byte string occupies a nonempty span inside the buffer.
pub proof fn lemma_parse_bytes_bounds(s: Seq<u8>, i: int)
    ensures
        spec_parse_bytes(s, i) matches SpecOutcome::Parsed(v, e) ==> i < e <= s.len(),
{
    if 0 <= i <= s.len() {
        lemma_digit_run_end(s, i);
        lemma_digits_val_nonneg(s.subrange(i, digit_run_end(s, i)));
    }
}

/// A decoded integer occupies a nonempty span inside the buffer.
pub proof fn lemma_parse_integer_bounds(s: Seq<u8>, i: int)
    ensures
        spec_parse_integer(s, i) matches SpecOutcome::Parsed(v, e) ==> i < e <= s.len(),
{
    if 0 <= i < s.len() && s[i] == TOK_INT {
        let has_sign = i + 1 < s.len() && (s[i + 1] == TOK_PLUS || s[i + 1] == TOK_MINUS);
        let d0 = if has_sign {
            i + 2
        } else {
            i + 1
        };
        lemma_digit_run_end(s, d0);
    }
}

/// A decoded value occupies a nonempty span inside the buffer.
pub proof fn lemma_parse_value_bounds(s: Seq<u8>, i: int)
    ensures
        spec_parse_value(s, i) matches SpecOutcome::Parsed(v, e) ==> i < e <= s.len(),
    decreases s.len() - i, 1int,
{
    lemma_parse_bytes_bounds(s, i);
    lemma_parse_integer_bounds(s, i);
    lemma_parse_list_bounds(s, i);
    lemma_parse_dict_bounds(s, i);
}

/// A decoded list occupies a nonempty span inside the buffer.
pub proof fn lemma_parse_list_bounds(s: Seq<u8>, i: int)
    ensures
        spec_parse_list(s, i) matches SpecOutcome::Parsed(v, e) ==> i < e <= s.len(),
    decreases s.len() - i, 0int,
{
    if 0 <= i < s.len() && s[i] == TOK_LIST {
        lemma_parse_items_bounds(s, i + 1, Seq::empty());
    }
}

/// A list body beginning at `p` ends past `p`, inside the buffer.
pub proof fn lemma_parse_items_bounds(s: Seq<u8>, p: int, acc: Seq<SpecValue>)
    ensures
        spec_parse_items(s, p, acc) matches SpecOutcome::Parsed(v, e) ==> p < e <= s.len(),
    decreases s.len() - p, 2int,
{
    if 0 <= p < s.len() && s[p] == TOK_END {
    } else {
        lemma_parse_value_bounds(s, p);
        match spec_parse_value(s, p) {
            SpecOutcome::Parsed(v, q) => {
                if p < q <= s.len() {
                    lemma_parse_items_bounds(s, q, acc.push(v));
                }
            },
            SpecOutcome::Failed(_) => {},
        }
    }
}

/// A decoded dictionary occupies a nonempty span inside the buffer.
pub proof fn lemma_parse_dict_bounds(s: Seq<u8>, i: int)
    ensures
        spec_parse_dict(s, i) matches SpecOutcome::Parsed(v, e) ==> i < e <= s.len(),
    decreases s.len() - i, 0int,
{
    if 0 <= i < s.len() && s[i] == TOK_DICT {
        lemma_parse_pairs_bounds(s, i + 1, Map::empty());
    }
}

/// A dictionary body beginning at `p` ends past `p`, inside the buffer.
pub proof fn lemma_parse_pairs_bounds(s: Seq<u8>, p: int, acc: Map<Seq<u8>, SpecValue>)
    ensures
        spec_parse_pairs(s, p, acc) matches SpecOutcome::Parsed(v, e) ==> p < e <= s.len(),
    decreases s.len() - p, 2int,
{
    if 0 <= p < s.len() && s[p] == TOK_END {
    } else {
        match spec_parse_bytes(s, p) {
            SpecOutcome::Parsed(k, q) => {
                if p < q <= s.len() {
                    match k {
                        SpecValue::Bytes(kb) => match spec_parse_value(s, q) {
                            SpecOutcome::Parsed(v, r) => {
                                if q < r <= s.len() {
                                    lemma_parse_pairs_bounds(s, r, acc.insert(kb, v));
                                }
                            },
                            SpecOutcome::Failed(_) => {},
                        },
                        _ => {},
                    }
                }
            },
            SpecOutcome::Failed(_) => {},
        }
    }
}

/// A canonical textual encoding of an integer: an optional sign, then one
/// or more digits, with no leading zero (the single digit `0` aside) and no
/// negative zero.
pub open spec fn valid_int_text(t: Seq<u8>) -> bool {
    let signed = t.len() > 0 && (t[0] == TOK_PLUS || t[0] == TOK_MINUS);
    let d0: int = if signed {
        1
    } else {
        0
    };
    &&& t.len() > d0
    &&& forall|k: int| d0 <= k < t.len() ==> is_digit_byte(t[k])
    &&& !(t[0] == TOK_MINUS && t[d0] == DIGIT_ZERO)
    &&& !(!signed && t[0] == DIGIT_ZERO && t.len() > 1)
}

/// The integer such a text denotes.
pub open spec fn int_text_val(t: Seq<u8>) -> int {
    if t.len() > 0 && t[0] == TOK_MINUS {
        -digits_val(t.subrange(1, t.len() as int))
    } else if t.len() > 0 && t[0] == TOK_PLUS {
        digits_val(t.subrange(1, t.len() as int))
    } else {
        digits_val(t)
    }
}

/// For every valid encoding of an integer `n` within the 64-bit signed
/// range, written as `i`, the text, `e` at position `i` of any buffer, the
/// integer rule — and the dispatcher — decode exactly `n`, and the cursor
/// advances exactly past the trailing `e`, whatever else the buffer holds.
pub proof fn lemma_integer_decoding_exact(s: Seq<u8>, i: int, t: Seq<u8>)
    requires
        valid_int_text(t),
        i64::MIN as int <= int_text_val(t) <= i64::MAX as int,
        0 <= i,
        i + t.len() + 2 <= s.len(),
        s[i] == TOK_INT,
        s[i + 1 + t.len()] == TOK_END,
        s.subrange(i + 1, i + 1 + t.len() as int) == t,
    ensures
        spec_parse_integer(s, i) == SpecOutcome::Parsed(
            SpecValue::Integer(int_text_val(t)),
            i + t.len() + 2,
        ),
        spec_parse_value(s, i) == SpecOutcome::Parsed(
            SpecValue::Integer(int_text_val(t)),
            i + t.len() + 2,
        ),
{
    let signed = t[0] == TOK_PLUS || t[0] == TOK_MINUS;
    let td0: int = if signed {
        1
    } else {
        0
    };
    let d0 = i + 1 + td0;
    let e_pos = i + 1 + t.len() as int;
    assert forall|k: int| i + 1 <= k < e_pos implies s[k] == t[k - (i + 1)] by {
        assert(s.subrange(i + 1, e_pos)[k - (i + 1)] == s[k]);
    }
    assert forall|k: int| d0 <= k < e_pos implies is_digit_byte(s[k]) by {
        assert(t[k - (i + 1)] == s[k]);
    }
    assert(!is_digit_byte(TOK_END));
    lemma_digit_run_end_is(s, d0, e_pos);
    assert(s.subrange(d0, e_pos) =~= t.subrange(td0, t.len() as int));
    if td0 == 0 {
        assert(t.subrange(0, t.len() as int) =~= t);
    }
    assert(!is_digit_byte(TOK_PLUS) && !is_digit_byte(TOK_MINUS));
    assert(spec_parse_integer(s, i) == SpecOutcome::Parsed(
        SpecValue::Integer(int_text_val(t)),
        i + t.len() + 2,
    ));
    assert(!is_digit_byte(TOK_INT));
    assert(digit_run_end(s, i) == i);
    assert(spec_parse_bytes(s, i) == SpecOutcome::Failed(SpecError::StructuralMismatch(i)));
}

/// For every declared byte-string length `L > 0` written as digits and a
/// `:` followed by at least `L` payload bytes, the byte-string rule — and
/// the dispatcher — consume exactly the digits, the separator and `L`
/// payload bytes, whatever the rest of the buffer holds.
pub proof fn lemma_byte_string_decoding_exact(s: Seq<u8>, i: int, d: Seq<u8>)
    requires
        d.len() > 0,
        forall|k: int| 0 <= k < d.len() ==> is_digit_byte(d[k]),
        0 < digits_val(d) <= u64::MAX as int,
        0 <= i,
        i + d.len() < s.len(),
        s.subrange(i, i + d.len() as int) == d,
        s[i + d.len()] == TOK_COLON,
        i + d.len() + 1 + digits_val(d) <= s.len(),
    ensures
        spec_parse_bytes(s, i) == SpecOutcome::Parsed(
            SpecValue::Bytes(
                s.subrange(i + d.len() + 1, i + d.len() + 1 + digits_val(d)),
            ),
            i + d.len() + 1 + digits_val(d),
        ),
        spec_parse_value(s, i) == spec_parse_bytes(s, i),
{
    let de = i + d.len() as int;
    assert forall|k: int| i <= k < de implies is_digit_byte(s[k]) by {
        assert(s.subrange(i, de)[k - i] == s[k]);
        assert(d[k - i] == s[k]);
    }
    assert(!is_digit_byte(TOK_COLON));
    lemma_digit_run_end_is(s, i, de);
    assert(s.subrange(i, de) =~= d);
}

/// Decoding an empty list body yields the empty list, with no error: `l`
/// directly followed by `e`, at any position of any buffer.
pub proof fn lemma_empty_list_decoding(s: Seq<u8>, i: int)
    requires
        0 <= i,
        i + 2 <= s.len(),
        s[i] == TOK_LIST,
        s[i + 1] == TOK_END,
    ensures
        spec_parse_list(s, i) == SpecOutcome::Parsed(SpecValue::List(Seq::empty()), i + 2),
        spec_parse_value(s, i) == SpecOutcome::Parsed(SpecValue::List(Seq::empty()), i + 2),
{
    assert(!is_digit_byte(TOK_LIST));
    assert(digit_run_end(s, i) == i);
    assert(spec_parse_bytes(s, i) == SpecOutcome::Failed(SpecError::StructuralMismatch(i)));
}

/// A dictionary rejects a key token that cannot begin a byte string — no
/// digit at the key position, and not the terminator — with a structural,
/// recoverable error, never a fatal one.
pub proof fn lemma_dict_rejects_bad_key(s: Seq<u8>, i: int)
    requires
        0 <= i < s.len(),
        s[i] == TOK_DICT,
        i + 1 == s.len() || (!is_digit_byte(s[i + 1]) && s[i + 1] != TOK_END),
    ensures
        spec_parse_dict(s, i) == SpecOutcome::Failed(SpecError::StructuralMismatch(i + 1)),
        !SpecError::StructuralMismatch(i + 1).is_fatal(),
{
    assert(digit_run_end(s, i + 1) == i + 1);
}

/// One byte of an equal window.
proof fn lemma_window_byte(s: Seq<u8>, i: int, t: Seq<u8>, j: int, len: int, k: int)
    requires
        0 <= i,
        0 <= j,
        0 <= k < len,
        i + len <= s.len(),
        j + len <= t.len(),
        t.subrange(j, j + len) == s.subrange(i, i + len),
    ensures
        t[j + k] == s[i + k],
{
    assert(t.subrange(j, j + len)[k] == t[j + k]);
    assert(s.subrange(i, i + len)[k] == s[i + k]);
}

/// A window equality carries over to any sub-window.
proof fn lemma_subwindow(s: Seq<u8>, i: int, t: Seq<u8>, j: int, len: int, a: int, b: int)
    requires
        0 <= i,
        0 <= j,
        0 <= a <= b <= len,
        i + len <= s.len(),
        j + len <= t.len(),
        t.subrange(j, j + len) == s.subrange(i, i + len),
    ensures
        t.subrange(j + a, j + b) == s.subrange(i + a, i + b),
{
    assert forall|k: int|
        0 <= k < b - a implies #[trigger] t.subrange(j + a, j + b)[k] == s.subrange(
        i + a,
        i + b,
    )[k] by {
        assert(t.subrange(j, j + len)[a + k] == t[j + (a + k)]);
        assert(s.subrange(i, i + len)[a + k] == s[i + (a + k)]);
        assert(t.subrange(j + a, j + b)[k] == t[j + a + k]);
        assert(s.subrange(i + a, i + b)[k] == s[i + a + k]);
    }
    assert(t.subrange(j + a, j + b) =~= s.subrange(i + a, i + b));
}

/// The byte-string rule reads nothing outside the span it consumes: its
/// success carries over to any equal window of any buffer.
pub proof fn lemma_parse_bytes_local(s: Seq<u8>, i: int, t: Seq<u8>, j: int, v: SpecValue, e: int)
    requires
        spec_parse_bytes(s, i) == SpecOutcome::Parsed(v, e),
        0 <= i,
        0 <= j,
        j + (e - i) <= t.len(),
        t.subrange(j, j + (e - i)) == s.subrange(i, e),
    ensures
        spec_parse_bytes(t, j) == SpecOutcome::Parsed(v, j + (e - i)),
{
    lemma_parse_bytes_bounds(s, i);
    let len = e - i;
    lemma_digit_run_end(s, i);
    let de = digit_run_end(s, i);
    let lv = digits_val(s.subrange(i, de));
    lemma_digits_val_nonneg(s.subrange(i, de));
    assert(e == de + 1 + lv && lv > 0);
    assert forall|k: int| j <= k < j + (de - i) implies is_digit_byte(t[k]) by {
        lemma_window_byte(s, i, t, j, len, k - j);
    }
    lemma_window_byte(s, i, t, j, len, de - i);
    assert(t[j + (de - i)] == s[de]);
    assert(!is_digit_byte(TOK_COLON));
    lemma_digit_run_end_is(t, j, j + (de - i));
    lemma_subwindow(s, i, t, j, len, 0, de - i);
    lemma_subwindow(s, i, t, j, len, de - i + 1, len);
}

/// The integer rule reads nothing outside the span it consumes: its success
/// carries over to any equal window of any buffer.
pub proof fn lemma_parse_integer_local(
    s: Seq<u8>,
    i: int,
    t: Seq<u8>,
    j: int,
    v: SpecValue,
    e: int,
)
    requires
        spec_parse_integer(s, i) == SpecOutcome::Parsed(v, e),
        0 <= i,
        0 <= j,
        j + (e - i) <= t.len(),
        t.subrange(j, j + (e - i)) == s.subrange(i, e),
    ensures
        spec_parse_integer(t, j) == SpecOutcome::Parsed(v, j + (e - i)),
{
    lemma_parse_integer_bounds(s, i);
    let len = e - i;
    let has_sign = i + 1 < s.len() && (s[i + 1] == TOK_PLUS || s[i + 1] == TOK_MINUS);
    let d0 = if has_sign {
        i + 2
    } else {
        i + 1
    };
    lemma_digit_run_end(s, d0);
    let de = digit_run_end(s, d0);
    assert(e == de + 1);
    lemma_window_byte(s, i, t, j, len, 0);
    lemma_window_byte(s, i, t, j, len, 1);
    assert(t[j] == s[i] && t[j + 1] == s[i + 1]);
    assert forall|k: int| j + (d0 - i) <= k < j + (de - i) implies is_digit_byte(t[k]) by {
        lemma_window_byte(s, i, t, j, len, k - j);
    }
    lemma_window_byte(s, i, t, j, len, de - i);
    assert(t[j + (de - i)] == s[de]);
    assert(!is_digit_byte(TOK_END));
    lemma_digit_run_end_is(t, j + (d0 - i), j + (de - i));
    lemma_subwindow(s, i, t, j, len, d0 - i, de - i);
    lemma_window_byte(s, i, t, j, len, d0 - i);
    assert(t[j + (d0 - i)] == s[d0]);
}

/// The dispatcher reads nothing outside the span it consumes: a decoded
/// value carries over to any equal window of any buffer.
pub proof fn lemma_parse_value_local(s: Seq<u8>, i: int, t: Seq<u8>, j: int, v: SpecValue, e: int)
    requires
        spec_parse_value(s, i) == SpecOutcome::Parsed(v, e),
        0 <= i,
        0 <= j,
        j + (e - i) <= t.len(),
        t.subrange(j, j + (e - i)) == s.subrange(i, e),
    ensures
        spec_parse_value(t, j) == SpecOutcome::Parsed(v, j + (e - i)),
    decreases s.len() - i, 1int,
{
    lemma_parse_value_bounds(s, i);
    let len = e - i;
    lemma_window_byte(s, i, t, j, len, 0);
    assert(t[j] == s[i]);
    if spec_parse_bytes(s, i) matches SpecOutcome::Parsed(_, _) {
        lemma_parse_bytes_local(s, i, t, j, v, e);
    } else if spec_parse_integer(s, i) matches SpecOutcome::Parsed(_, _) {
        assert(!is_digit_byte(TOK_INT));
        assert(digit_run_end(t, j) == j);
        lemma_parse_integer_local(s, i, t, j, v, e);
    } else if spec_parse_list(s, i) matches SpecOutcome::Parsed(_, _) {
        assert(!is_digit_byte(TOK_LIST));
        assert(digit_run_end(t, j) == j);
        lemma_parse_list_local(s, i, t, j, v, e);
    } else {
        assert(spec_parse_dict(s, i) matches SpecOutcome::Parsed(_, _));
        assert(!is_digit_byte(TOK_DICT));
        assert(digit_run_end(t, j) == j);
        lemma_parse_dict_local(s, i, t, j, v, e);
    }
}

/// The list rule reads nothing outside the span it consumes.
pub proof fn lemma_parse_list_local(s: Seq<u8>, i: int, t: Seq<u8>, j: int, v: SpecValue, e: int)
    requires
        spec_parse_list(s, i) == SpecOutcome::Parsed(v, e),
        0 <= i,
        0 <= j,
        j + (e - i) <= t.len(),
        t.subrange(j, j + (e - i)) == s.subrange(i, e),
    ensures
        spec_parse_list(t, j) == SpecOutcome::Parsed(v, j + (e - i)),
    decreases s.len() - i, 0int,
{
    lemma_parse_list_bounds(s, i);
    lemma_parse_items_bounds(s, i + 1, Seq::empty());
    lemma_window_byte(s, i, t, j, e - i, 0);
    assert(t[j] == s[i]);
    lemma_subwindow(s, i, t, j, e - i, 1, e - i);
    lemma_parse_items_local(s, i + 1, Seq::empty(), t, j + 1, v, e);
}

/// A list body reads nothing outside the span it consumes.
pub proof fn lemma_parse_items_local(
    s: Seq<u8>,
    p: int,
    acc: Seq<SpecValue>,
    t: Seq<u8>,
    q: int,
    v: SpecValue,
    e: int,
)
    requires
        spec_parse_items(s, p, acc) == SpecOutcome::Parsed(v, e),
        0 <= p,
        0 <= q,
        q + (e - p) <= t.len(),
        t.subrange(q, q + (e - p)) == s.subrange(p, e),
    ensures
        spec_parse_items(t, q, acc) == SpecOutcome::Parsed(v, q + (e - p)),
    decreases s.len() - p, 2int,
{
    lemma_parse_items_bounds(s, p, acc);
    let len = e - p;
    lemma_window_byte(s, p, t, q, len, 0);
    assert(t[q] == s[p]);
    if 0 <= p < s.len() && s[p] == TOK_END {
    } else {
        lemma_parse_value_bounds(s, p);
        match spec_parse_value(s, p) {
            SpecOutcome::Parsed(v1, q1) => {
                if p < q1 <= s.len() {
                    lemma_parse_items_bounds(s, q1, acc.push(v1));
                    let qt = q + (q1 - p);
                    lemma_subwindow(s, p, t, q, len, 0, q1 - p);
                    lemma_parse_value_local(s, p, t, q, v1, q1);
                    lemma_subwindow(s, p, t, q, len, q1 - p, len);
                    lemma_parse_items_local(s, q1, acc.push(v1), t, qt, v, e);
                }
            },
            SpecOutcome::Failed(_) => {},
        }
    }
}

/// The dictionary rule reads nothing outside the span it consumes.
pub proof fn lemma_parse_dict_local(s: Seq<u8>, i: int, t: Seq<u8>, j: int, v: SpecValue, e: int)
    requires
        spec_parse_dict(s, i) == SpecOutcome::Parsed(v, e),
        0 <= i,
        0 <= j,
        j + (e - i) <= t.len(),
        t.subrange(j, j + (e - i)) == s.subrange(i, e),
    ensures
        spec_parse_dict(t, j) == SpecOutcome::Parsed(v, j + (e - i)),
    decreases s.len() - i, 0int,
{
    lemma_parse_dict_bounds(s, i);
    lemma_parse_pairs_bounds(s, i + 1, Map::empty());
    lemma_window_byte(s, i, t, j, e - i, 0);
    assert(t[j] == s[i]);
    lemma_subwindow(s, i, t, j, e - i, 1, e - i);
    lemma_parse_pairs_local(s, i + 1, Map::empty(), t, j + 1, v, e);
}

/// A dictionary body reads nothing outside the span it consumes.
pub proof fn lemma_parse_pairs_local(
    s: Seq<u8>,
    p: int,
    acc: Map<Seq<u8>, SpecValue>,
    t: Seq<u8>,
    q: int,
    v: SpecValue,
    e: int,
)
    requires
        spec_parse_pairs(s, p, acc) == SpecOutcome::Parsed(v, e),
        0 <= p,
        0 <= q,
        q + (e - p) <= t.len(),
        t.subrange(q, q + (e - p)) == s.subrange(p, e),
    ensures
        spec_parse_pairs(t, q, acc) == SpecOutcome::Parsed(v, q + (e - p)),
    decreases s.len() - p, 2int,
{
    lemma_parse_pairs_bounds(s, p, acc);
    let len = e - p;
    lemma_window_byte(s, p, t, q, len, 0);
    assert(t[q] == s[p]);
    if 0 <= p < s.len() && s[p] == TOK_END {
    } else {
        lemma_parse_bytes_bounds(s, p);
        match spec_parse_bytes(s, p) {
            SpecOutcome::Parsed(k, q1) => {
                if p < q1 <= s.len() {
                    match k {
                        SpecValue::Bytes(kb) => {
                            match spec_parse_value(s, q1) {
                                SpecOutcome::Parsed(v1, r1) => {
                                    if q1 < r1 <= s.len() {
                                        lemma_parse_pairs_bounds(s, r1, acc.insert(kb, v1));
                                        let qt = q + (q1 - p);
                                        let rt = q + (r1 - p);
                                        lemma_subwindow(s, p, t, q, len, 0, q1 - p);
                                        lemma_parse_bytes_local(s, p, t, q, k, q1);
                                        lemma_subwindow(s, p, t, q, len, q1 - p, r1 - p);
                                        lemma_parse_value_local(s, q1, t, qt, v1, r1);
                                        lemma_subwindow(s, p, t, q, len, r1 - p, len);
                                        lemma_parse_pairs_local(s, r1, acc.insert(kb, v1), t, rt, v, e);
                                    }
                                },
                                SpecOutcome::Failed(_) => {},
                            }
                        },
                        _ => {},
                    }
                }
            },
            SpecOutcome::Failed(_) => {},
        }
    }
}

/// Decoding is idempotent: the bytes a decoded value came from, decoded on
/// their own, reproduce an equal tree, consuming the whole span.  (That two
/// decodings of one buffer agree is immediate, since the grammar is a
/// function of the buffer and the executable decoder returns exactly what
/// the grammar denotes.)
pub proof fn lemma_decoding_idempotent(s: Seq<u8>, i: int, v: SpecValue, e: int)
    requires
        spec_parse_value(s, i) == SpecOutcome::Parsed(v, e),
        0 <= i,
    ensures
        spec_parse_value(s.subrange(i, e), 0) == SpecOutcome::Parsed(v, e - i),
{
    lemma_parse_value_bounds(s, i);
    assert(s.subrange(i, e).subrange(0, e - i) =~= s.subrange(i, e));
    lemma_parse_value_local(s, i, s.subrange(i, e), 0, v, e);
}

} // verus!
