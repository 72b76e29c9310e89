//! The Bencode grammar as mathematical functions over byte sequences.
//!
//! Each rule maps a sequence and a starting position to a `SpecOutcome`.
//! These functions are the reference against which the executable decoder is
//! verified; the lemmas in `laws` state the grammar's general properties.

use crate::model::{SpecError, SpecOutcome, SpecTop, SpecValue};
use vstd::prelude::*;

verus! {

/// ASCII `i`, which opens an integer.
pub const TOK_INT: u8 = 105;

/// ASCII `l`, which opens a list.
pub const TOK_LIST: u8 = 108;

/// ASCII `d`, which opens a dictionary.
pub const TOK_DICT: u8 = 100;

/// ASCII `e`, which closes an integer, a list or a dictionary.
pub const TOK_END: u8 = 101;

/// ASCII `:`, which separates a byte string's length from its payload.
pub const TOK_COLON: u8 = 58;

/// ASCII `+`, an allowed integer sign.
pub const TOK_PLUS: u8 = 43;

/// ASCII `-`, the negative integer sign.
pub const TOK_MINUS: u8 = 45;

/// ASCII `0`.
pub const DIGIT_ZERO: u8 = 48;

/// ASCII `9`.
pub const DIGIT_NINE: u8 = 57;

/// An ASCII decimal digit.
pub open spec fn is_digit_byte(b: u8) -> bool {
    DIGIT_ZERO <= b && b <= DIGIT_NINE
}

/// One past the end of the run of digits that begins at `i`.
pub open spec fn digit_run_end(s: Seq<u8>, i: int) -> int
    recommends
        0 <= i <= s.len(),
    decreases s.len() - i,
{
    if i < 0 || i >= s.len() || !is_digit_byte(s[i]) {
        i
    } else {
        digit_run_end(s, i + 1)
    }
}

/// The number a run of decimal digits denotes, most significant digit first.
pub open spec fn digits_val(ds: Seq<u8>) -> int
    decreases ds.len(),
{
    if ds.len() == 0 {
        0
    } else {
        digits_val(ds.drop_last()) * 10 + (ds.last() - DIGIT_ZERO)
    }
}

/// The integer rule: `i`, an optional `+` or `-` sign, digits, `e`.
///
/// Fatal conditions: a leading zero (`-` followed by a `0` digit, or an
/// unsigned multi-digit run starting with `0`), and a value outside the
/// 64-bit signed range.  Any other mismatch is recoverable.
pub open spec fn spec_parse_integer(s: Seq<u8>, i: int) -> SpecOutcome {
    if !(0 <= i < s.len() && s[i] == TOK_INT) {
        SpecOutcome::Failed(SpecError::StructuralMismatch(i))
    } else {
        let has_sign = i + 1 < s.len() && (s[i + 1] == TOK_PLUS || s[i + 1] == TOK_MINUS);
        let neg = i + 1 < s.len() && s[i + 1] == TOK_MINUS;
        let d0 = if has_sign {
            i + 2
        } else {
            i + 1
        };
        let de = digit_run_end(s, d0);
        if de == d0 {
            SpecOutcome::Failed(SpecError::StructuralMismatch(d0))
        } else if !(de < s.len() && s[de] == TOK_END) {
            SpecOutcome::Failed(SpecError::StructuralMismatch(de))
        } else if (neg && s[d0] == DIGIT_ZERO) || (!has_sign && s[d0] == DIGIT_ZERO && de - d0 > 1) {
            SpecOutcome::Failed(SpecError::InvalidInteger(i))
        } else {
            let n = if neg {
                -digits_val(s.subrange(d0, de))
            } else {
                digits_val(s.subrange(d0, de))
            };
            if n < i64::MIN as int || n > i64::MAX as int {
                SpecOutcome::Failed(SpecError::IntegerOverflow(i))
            } else {
                SpecOutcome::Parsed(SpecValue::Integer(n), de + 1)
            }
        }
    }
}

/// The byte-string rule: unsigned digits, `:`, then exactly that many
/// payload bytes.
///
/// Fatal conditions: a declared length of zero, and a length outside the
/// unsigned 64-bit range.  A truncated payload is recoverable.  Whatever
/// follows the declared payload is left for the caller.
pub open spec fn spec_parse_bytes(s: Seq<u8>, i: int) -> SpecOutcome {
    let de = digit_run_end(s, i);
    if de == i {
        SpecOutcome::Failed(SpecError::StructuralMismatch(i))
    } else if !(de < s.len() && s[de] == TOK_COLON) {
        SpecOutcome::Failed(SpecError::StructuralMismatch(de))
    } else {
        let lv = digits_val(s.subrange(i, de));
        if lv > u64::MAX as int {
            SpecOutcome::Failed(SpecError::IntegerOverflow(i))
        } else if lv == 0 {
            SpecOutcome::Failed(SpecError::InvalidByteStringLength(i))
        } else if de + 1 + lv > s.len() {
            SpecOutcome::Failed(SpecError::StructuralMismatch(de + 1))
        } else {
            SpecOutcome::Parsed(SpecValue::Bytes(s.subrange(de + 1, de + 1 + lv)), de + 1 + lv)
        }
    }
}

/// One decoding step: try byte-string, integer, list, dictionary, in that
/// order.  The first success wins; a fatal failure is surfaced at once; when
/// every rule fails recoverably, the first rule's failure is reported.
pub open spec fn spec_parse_value(s: Seq<u8>, i: int) -> SpecOutcome
    decreases s.len() - i, 1int,
{
    let r1 = spec_parse_bytes(s, i);
    if !r1.recoverable() {
        r1
    } else {
        let r2 = spec_parse_integer(s, i);
        if !r2.recoverable() {
            r2
        } else {
            let r3 = spec_parse_list(s, i);
            if !r3.recoverable() {
                r3
            } else {
                let r4 = spec_parse_dict(s, i);
                if !r4.recoverable() {
                    r4
                } else {
                    r1
                }
            }
        }
    }
}

/// The list rule: `l`, values, `e`.
pub open spec fn spec_parse_list(s: Seq<u8>, i: int) -> SpecOutcome
    decreases s.len() - i, 0int,
{
    if !(0 <= i < s.len() && s[i] == TOK_LIST) {
        SpecOutcome::Failed(SpecError::StructuralMismatch(i))
    } else {
        spec_parse_items(s, i + 1, Seq::empty())
    }
}

/// The body of a list: values accumulate until the terminator `e`; the
/// dispatcher's failure, recoverable or fatal, is propagated as it stands.
pub open spec fn spec_parse_items(s: Seq<u8>, p: int, acc: Seq<SpecValue>) -> SpecOutcome
    decreases s.len() - p, 2int,
{
    if 0 <= p < s.len() && s[p] == TOK_END {
        SpecOutcome::Parsed(SpecValue::List(acc), p + 1)
    } else {
        match spec_parse_value(s, p) {
            SpecOutcome::Parsed(v, q) => if p < q <= s.len() {
                spec_parse_items(s, q, acc.push(v))
            } else {
                // a decoded value always occupies a nonempty span inside the
                // buffer (lemma_parse_value_bounds), so this arm never applies
                SpecOutcome::Failed(SpecError::StructuralMismatch(p))
            },
            SpecOutcome::Failed(e) => SpecOutcome::Failed(e),
        }
    }
}

/// The dictionary rule: `d`, key–value pairs, `e`.
pub open spec fn spec_parse_dict(s: Seq<u8>, i: int) -> SpecOutcome
    decreases s.len() - i, 0int,
{
    if !(0 <= i < s.len() && s[i] == TOK_DICT) {
        SpecOutcome::Failed(SpecError::StructuralMismatch(i))
    } else {
        spec_parse_pairs(s, i + 1, Map::empty())
    }
}

/// The body of a dictionary: a key under the byte-string rule, then a value
/// under the dispatcher, repeated until the terminator `e`.  A later pair
/// with an equal key replaces the earlier one.
pub open spec fn spec_parse_pairs(s: Seq<u8>, p: int, acc: Map<Seq<u8>, SpecValue>) -> SpecOutcome
    decreases s.len() - p, 2int,
{
    if 0 <= p < s.len() && s[p] == TOK_END {
        SpecOutcome::Parsed(SpecValue::Dictionary(acc), p + 1)
    } else {
        match spec_parse_bytes(s, p) {
            SpecOutcome::Parsed(k, q) => if !(p < q <= s.len()) {
                // a decoded byte string always occupies a nonempty span
                // inside the buffer, so this arm never applies
                SpecOutcome::Failed(SpecError::StructuralMismatch(p))
            } else {
                match k {
                    SpecValue::Bytes(kb) => match spec_parse_value(s, q) {
                        SpecOutcome::Parsed(v, r) => if q < r <= s.len() {
                            spec_parse_pairs(s, r, acc.insert(kb, v))
                        } else {
                            // see above: a decoded value occupies a nonempty span
                            SpecOutcome::Failed(SpecError::StructuralMismatch(q))
                        },
                        SpecOutcome::Failed(e) => SpecOutcome::Failed(e),
                    },
                    // the byte-string rule yields only byte strings
                    _ => SpecOutcome::Failed(SpecError::StructuralMismatch(p)),
                }
            },
            SpecOutcome::Failed(e) => SpecOutcome::Failed(e),
        }
    }
}

/// The top-level driver: values accumulate from position `p` until the
/// dispatcher fails.  A fatal failure aborts; a recoverable failure exactly
/// at the end of the buffer ends the parse successfully; a recoverable
/// failure before the end means unconsumed trailing bytes, which reject the
/// whole buffer.
pub open spec fn spec_parse_top(s: Seq<u8>, p: int, acc: Seq<SpecValue>) -> SpecTop
    decreases s.len() - p, 2int,
{
    match spec_parse_value(s, p) {
        SpecOutcome::Parsed(v, q) => if p < q <= s.len() {
            spec_parse_top(s, q, acc.push(v))
        } else {
            // see spec_parse_items: a decoded value occupies a nonempty span
            SpecTop::Failed(SpecError::StructuralMismatch(p))
        },
        SpecOutcome::Failed(e) => if e.is_fatal() {
            SpecTop::Failed(e)
        } else if p == s.len() {
            SpecTop::Parsed(acc)
        } else {
            SpecTop::Failed(SpecError::StructuralMismatch(p))
        },
    }
}

/// What decoding a whole buffer denotes.
pub open spec fn spec_parse_document(s: Seq<u8>) -> SpecTop {
    spec_parse_top(s, 0, Seq::empty())
}

/// Where the digit run beginning at `i` ends: between `i` and the end of the
/// buffer, everything before it a digit, and the byte there (if any) not one.
pub proof fn lemma_digit_run_end(s: Seq<u8>, i: int)
    requires
        0 <= i <= s.len(),
    ensures
        i <= digit_run_end(s, i) <= s.len(),
        forall|k: int| i <= k < digit_run_end(s, i) ==> is_digit_byte(s[k]),
        digit_run_end(s, i) < s.len() ==> !is_digit_byte(s[digit_run_end(s, i)]),
    decreases s.len() - i,
{
    if i < s.len() && is_digit_byte(s[i]) {
        lemma_digit_run_end(s, i + 1);
    }
}

/// A run of digits bounded by a non-digit (or the buffer's end) is exactly
/// what `digit_run_end` finds.
pub proof fn lemma_digit_run_end_is(s: Seq<u8>, i: int, de: int)
    requires
        0 <= i <= de <= s.len(),
        forall|k: int| i <= k < de ==> is_digit_byte(s[k]),
        de == s.len() || !is_digit_byte(s[de]),
    ensures
        digit_run_end(s, i) == de,
    decreases de - i,
{
    if i < de {
        lemma_digit_run_end_is(s, i + 1, de);
    }
}

/// The value of a digit run is never negative.
pub proof fn lemma_digits_val_nonneg(ds: Seq<u8>)
    requires
        forall|k: int| 0 <= k < ds.len() ==> is_digit_byte(ds[k]),
    ensures
        digits_val(ds) >= 0,
    decreases ds.len(),
{
    if ds.len() > 0 {
        lemma_digits_val_nonneg(ds.drop_last());
    }
}

/// Extending a digit run by one digit multiplies its value by ten and adds
/// the digit.
pub proof fn lemma_digits_val_step(s: Seq<u8>, a: int, p: int)
    requires
        0 <= a <= p < s.len(),
    ensures
        digits_val(s.subrange(a, p + 1)) == digits_val(s.subrange(a, p)) * 10 + (s[p] - DIGIT_ZERO),
{
    assert(s.subrange(a, p + 1).drop_last() =~= s.subrange(a, p));
    assert(s.subrange(a, p + 1).last() == s[p]);
}

} // verus!
