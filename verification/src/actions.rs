//! The actions an agent can take on its turn, their JSON wire form, and
//! the parser for incoming action messages.
//!
//! The parser reads one JSON object with arbitrary whitespace.  The
//! `action` key must hold one of the four tags, compared without regard
//! to ASCII case; a `raise` needs an `amount` key holding an integer in
//! the non-negative `i32` range.  Values under other keys may be any
//! JSON value - strings with escapes, numbers, literals, arrays and
//! objects, to a bounded nesting depth - and are walked over.  Anything
//! else is reported as an error, never thrown.

use vstd::prelude::*;
use vstd::string::StringExecFns;
use vstd::string::StringSliceAdditionalSpecFns;
use crate::strings::{dec_rep, dec_digit, append_dec_i32};
use vstd::utf8::{is_ascii_chars, is_ascii_chars_encode_utf8};

verus! {

/// One betting action.  The raise amount is the raise over the call.
#[derive(Eq, PartialEq, Structural, Debug, Copy, Clone)]
pub enum HandAction {
    Fold,
    Check,
    Call,
    Raise(i32),
}

/// Why an action message was rejected.
#[derive(Eq, PartialEq, Structural, Debug, Copy, Clone)]
pub enum ActionError {
    /// The message is not in the accepted JSON form.
    Malformed,
    /// The `action` key is missing, not a string, or not one of the tags.
    InvalidAction,
    /// The tag is `raise` but `amount` is missing, not an integer, or
    /// out of the accepted range.
    InvalidAmount,
}

impl HandAction {
    /// A raise amount on the wire is non-negative.
    pub open spec fn wire_ok(self) -> bool {
        match self {
            HandAction::Raise(n) => n >= 0,
            _ => true,
        }
    }
}

/// JSON whitespace.
pub open spec fn is_ws(b: u8) -> bool {
    b == 32 || b == 9 || b == 10 || b == 13
}

/// An ASCII decimal digit.
pub open spec fn is_digit(b: u8) -> bool {
    48 <= b <= 57
}

/// ASCII lower-casing of one byte.
pub open spec fn lower(b: u8) -> u8 {
    if 65 <= b <= 90 {
        (b + 32) as u8
    } else {
        b
    }
}

/// The first index at or after `i` that does not hold whitespace.
pub open spec fn spec_skip_ws(s: Seq<u8>, i: int) -> int
    decreases s.len() - i,
{
    if 0 <= i < s.len() && is_ws(s[i]) {
        spec_skip_ws(s, i + 1)
    } else {
        i
    }
}

/// The index of the closing quote of string content starting at `i`,
/// skipping backslash escapes, or `None` at the end.
pub open spec fn spec_find_quote(s: Seq<u8>, i: int) -> Option<int>
    decreases s.len() - i,
{
    if 0 <= i < s.len() {
        if s[i] == 34 {
            Some(i)
        } else if s[i] == 92 {
            if i + 1 < s.len() {
                spec_find_quote(s, i + 2)
            } else {
                None
            }
        } else {
            spec_find_quote(s, i + 1)
        }
    } else {
        None
    }
}

/// The end of the run of decimal digits starting at `i`.
pub open spec fn spec_digit_run_end(s: Seq<u8>, i: int) -> int
    decreases s.len() - i,
{
    if 0 <= i < s.len() && is_digit(s[i]) {
        spec_digit_run_end(s, i + 1)
    } else {
        i
    }
}

/// The value of the digits `s[i..j]`, most significant first.
pub open spec fn spec_digits_val(s: Seq<u8>, i: int, j: int) -> int
    decreases j - i,
{
    if i < j {
        spec_digits_val(s, i, j - 1) * 10 + (s[j - 1] - 48)
    } else {
        0
    }
}

/// A quoted string at `i`: the content span and the index past the
/// closing quote.
pub open spec fn spec_parse_qstring(s: Seq<u8>, i: int) -> Option<(int, int)> {
    if 0 <= i < s.len() && s[i] == 34 {
        match spec_find_quote(s, i + 1) {
            Some(q) => Some((i + 1, q)),
            None => None,
        }
    } else {
        None
    }
}

/// A JSON number at `i`: the value and the index past it.  A plain
/// integer of at most eighteen digits comes back as one; a fraction,
/// an exponent, or a longer run is a number the engine has no use for
/// and comes back opaque.
pub open spec fn spec_parse_number(s: Seq<u8>, i: int) -> Option<(JVal, int)> {
    let neg = 0 <= i < s.len() && s[i] == 45;
    let p = if neg {
        i + 1
    } else {
        i
    };
    let e = spec_digit_run_end(s, p);
    if e == p {
        None
    } else {
        let frac = e < s.len() && s[e] == 46;
        let e1 = if frac {
            spec_digit_run_end(s, e + 1)
        } else {
            e
        };
        if frac && e1 == e + 1 {
            None
        } else {
            let ex = e1 < s.len() && (s[e1] == 101 || s[e1] == 69);
            let q = if ex && e1 + 1 < s.len() && (s[e1 + 1] == 43 || s[e1 + 1] == 45) {
                e1 + 2
            } else {
                e1 + 1
            };
            let e2 = if ex {
                spec_digit_run_end(s, q)
            } else {
                e1
            };
            if ex && e2 == q {
                None
            } else if !frac && !ex && e - p <= 18 {
                let v = spec_digits_val(s, p, e);
                Some((JVal::VInt((if neg {
                    -v
                } else {
                    v
                }) as i64), e))
            } else {
                Some((JVal::VOther, e2))
            }
        }
    }
}

/// One JSON value as far as the action grammar reads it: a string's
/// content span, an integer, or one of the other accepted scalars.
#[derive(Eq, PartialEq, Structural, Debug, Copy, Clone)]
pub enum JVal {
    VStr(usize, usize),
    VInt(i64),
    VOther,
}

/// Whether `s` holds `pat` (as bytes) starting at `i`.
pub open spec fn spec_lit_at(s: Seq<u8>, i: int, pat: Seq<u8>) -> bool {
    i + pat.len() <= s.len() && s.subrange(i, i + pat.len()) == pat
}

/// How deeply nested a value may be before the parser gives up, the
/// same guard a streaming JSON reader uses against unbounded recursion.
pub open spec fn spec_depth_limit() -> int {
    128
}

/// A value at `i`: the value and the index past it.  Strings, numbers
/// and the three literal words are read; arrays and objects are walked
/// over and come back opaque, to the given nesting depth.
pub open spec fn spec_parse_value(s: Seq<u8>, i: int, depth: int) -> Option<(JVal, int)>
    decreases depth, s.len() - i, 0int,
{
    if depth <= 0 {
        None
    } else if 0 <= i < s.len() && s[i] == 34 {
        match spec_parse_qstring(s, i) {
            Some((lo, hi)) => Some((JVal::VStr(lo as usize, hi as usize), hi + 1)),
            None => None,
        }
    } else if 0 <= i < s.len() && (s[i] == 45 || is_digit(s[i])) {
        spec_parse_number(s, i)
    } else if spec_lit_at(s, i, seq![116u8, 114u8, 117u8, 101u8]) {
        Some((JVal::VOther, i + 4))
    } else if spec_lit_at(s, i, seq![110u8, 117u8, 108u8, 108u8]) {
        Some((JVal::VOther, i + 4))
    } else if spec_lit_at(s, i, seq![102u8, 97u8, 108u8, 115u8, 101u8]) {
        Some((JVal::VOther, i + 5))
    } else if 0 <= i < s.len() && s[i] == 91 {
        // '['
        let j = spec_skip_ws(s, i + 1);
        if j < s.len() && s[j] == 93 {
            Some((JVal::VOther, j + 1))
        } else {
            let j1 = if j < i + 1 {
                i + 1
            } else if j > s.len() {
                s.len() as int
            } else {
                j
            };
            match spec_skip_array_items(s, j1, depth - 1) {
                Some(n) => Some((JVal::VOther, n)),
                None => None,
            }
        }
    } else if 0 <= i < s.len() && s[i] == 123 {
        // '{'
        let j = spec_skip_ws(s, i + 1);
        if j < s.len() && s[j] == 125 {
            Some((JVal::VOther, j + 1))
        } else {
            let j1 = if j < i + 1 {
                i + 1
            } else if j > s.len() {
                s.len() as int
            } else {
                j
            };
            match spec_skip_object_items(s, j1, depth - 1) {
                Some(n) => Some((JVal::VOther, n)),
                None => None,
            }
        }
    } else {
        None
    }
}

/// Walk over the elements of an array being skipped, entered at the
/// first element, yielding the index past the closing bracket.
pub open spec fn spec_skip_array_items(s: Seq<u8>, i: int, depth: int) -> Option<int>
    decreases depth, s.len() - i, 1int,
{
    if i >= s.len() {
        None
    } else {
        match spec_parse_value(s, i, depth) {
            None => None,
            Some((_, n)) => {
                let p = spec_skip_ws(s, n);
                if p < s.len() && s[p] == 44 {
                    // ','
                    let q = spec_skip_ws(s, p + 1);
                    let q1 = if q <= i {
                        i + 1
                    } else if q > s.len() {
                        s.len() as int
                    } else {
                        q
                    };
                    spec_skip_array_items(s, q1, depth)
                } else if p < s.len() && s[p] == 93 {
                    // ']'
                    Some(p + 1)
                } else {
                    None
                }
            },
        }
    }
}

/// Walk over the pairs of an object being skipped, entered at the
/// first key, yielding the index past the closing brace.
pub open spec fn spec_skip_object_items(s: Seq<u8>, i: int, depth: int) -> Option<int>
    decreases depth, s.len() - i, 1int,
{
    if i >= s.len() {
        None
    } else {
        match spec_parse_qstring(s, i) {
            None => None,
            Some((_, khi)) => {
                let c = spec_skip_ws(s, khi + 1);
                if c < s.len() && s[c] == 58 {
                    // ':'
                    let v = spec_skip_ws(s, c + 1);
                    let v1 = if v <= i {
                        i + 1
                    } else if v > s.len() {
                        s.len() as int
                    } else {
                        v
                    };
                    match spec_parse_value(s, v1, depth) {
                        None => None,
                        Some((_, n)) => {
                            let p = spec_skip_ws(s, n);
                            if p < s.len() && s[p] == 44 {
                                let q = spec_skip_ws(s, p + 1);
                                let q1 = if q <= i {
                                    i + 1
                                } else if q > s.len() {
                                    s.len() as int
                                } else {
                                    q
                                };
                                spec_skip_object_items(s, q1, depth)
                            } else if p < s.len() && s[p] == 125 {
                                Some(p + 1)
                            } else {
                                None
                            }
                        },
                    }
                } else {
                    None
                }
            },
        }
    }
}

/// The accumulators the pair walk carries: the content span of the last
/// `action` string value, and the last integer `amount` value.  A key
/// seen again with an unusable value clears its accumulator, as the last
/// occurrence of a key is the one that counts.
pub open spec fn spec_update_accs(
    s: Seq<u8>,
    klo: int,
    khi: int,
    jv: JVal,
    act: Option<(usize, usize)>,
    amt: Option<i64>,
) -> (Option<(usize, usize)>, Option<i64>) {
    let key = s.subrange(klo, khi);
    if key == seq![97u8, 99u8, 116u8, 105u8, 111u8, 110u8] {
        // "action"
        (
            match jv {
                JVal::VStr(lo, hi) => Some((lo, hi)),
                _ => None,
            },
            amt,
        )
    } else if key == seq![97u8, 109u8, 111u8, 117u8, 110u8, 116u8] {
        // "amount"
        (
            act,
            match jv {
                JVal::VInt(v) => Some(v),
                _ => None,
            },
        )
    } else {
        (act, amt)
    }
}

/// The walk over `key: value` pairs, entered at the start of a pair.
/// Yields the accumulators and the index past the closing brace.
pub open spec fn spec_parse_pairs(
    s: Seq<u8>,
    i: int,
    act: Option<(usize, usize)>,
    amt: Option<i64>,
) -> Option<(Option<(usize, usize)>, Option<i64>, int)>
    decreases s.len() - i,
{
    if i >= s.len() {
        None
    } else {
        match spec_parse_qstring(s, i) {
            None => None,
            Some((klo, khi)) => {
                let c = spec_skip_ws(s, khi + 1);
                if c < s.len() && s[c] == 58 {
                    // ':'
                    let v = spec_skip_ws(s, c + 1);
                    match spec_parse_value(s, v, spec_depth_limit()) {
                        None => None,
                        Some((jv, n)) => {
                            let accs = spec_update_accs(s, klo, khi, jv, act, amt);
                            let p = spec_skip_ws(s, n);
                            if p < s.len() && s[p] == 44 {
                                // ','
                                let q = spec_skip_ws(s, p + 1);
                                let q1 = if q <= i {
                                    i + 1
                                } else if q > s.len() {
                                    s.len() as int
                                } else {
                                    q
                                };
                                spec_parse_pairs(s, q1, accs.0, accs.1)
                            } else if p < s.len() && s[p] == 125 {
                                // '}'
                                Some((accs.0, accs.1, p + 1))
                            } else {
                                None
                            }
                        },
                    }
                } else {
                    None
                }
            },
        }
    }
}

/// The four tags, lower-cased, as byte sequences.
pub open spec fn tag_fold() -> Seq<u8> {
    seq![102u8, 111u8, 108u8, 100u8]
}

pub open spec fn tag_check() -> Seq<u8> {
    seq![99u8, 104u8, 101u8, 99u8, 107u8]
}

pub open spec fn tag_call() -> Seq<u8> {
    seq![99u8, 97u8, 108u8, 108u8]
}

pub open spec fn tag_raise() -> Seq<u8> {
    seq![114u8, 97u8, 105u8, 115u8, 101u8]
}

/// Turn the gathered accumulators into the action or the error.
pub open spec fn spec_dispatch(
    s: Seq<u8>,
    act: Option<(usize, usize)>,
    amt: Option<i64>,
) -> Result<HandAction, ActionError> {
    match act {
        None => Err(ActionError::InvalidAction),
        Some((lo, hi)) => {
            let t = s.subrange(lo as int, hi as int).map_values(|b: u8| lower(b));
            if t == tag_fold() {
                Ok(HandAction::Fold)
            } else if t == tag_check() {
                Ok(HandAction::Check)
            } else if t == tag_call() {
                Ok(HandAction::Call)
            } else if t == tag_raise() {
                match amt {
                    Some(v) => if 0 <= v <= 0x7fff_ffff {
                        Ok(HandAction::Raise(v as i32))
                    } else {
                        Err(ActionError::InvalidAmount)
                    },
                    None => Err(ActionError::InvalidAmount),
                }
            } else {
                Err(ActionError::InvalidAction)
            }
        },
    }
}

/// What parsing an action message from these bytes yields.
pub open spec fn spec_parse_action(s: Seq<u8>) -> Result<HandAction, ActionError> {
    let i = spec_skip_ws(s, 0);
    if i < s.len() && s[i] == 123 {
        // '{'
        let j = spec_skip_ws(s, i + 1);
        if j < s.len() && s[j] == 125 {
            // '}': the empty object
            if spec_skip_ws(s, j + 1) == s.len() {
                spec_dispatch(s, None, None)
            } else {
                Err(ActionError::Malformed)
            }
        } else {
            match spec_parse_pairs(s, j, None, None) {
                None => Err(ActionError::Malformed),
                Some((act, amt, k)) => if spec_skip_ws(s, k) == s.len() {
                    spec_dispatch(s, act, amt)
                } else {
                    Err(ActionError::Malformed)
                },
            }
        }
    } else {
        Err(ActionError::Malformed)
    }
}

/// Powers of ten.
pub open spec fn pow10(n: nat) -> int
    decreases n,
{
    if n == 0 {
        1
    } else {
        10 * pow10((n - 1) as nat)
    }
}

/// Every byte before the end of a digit run is a digit, and the run end
/// lies between its start and the end of the sequence.
proof fn lemma_digit_run(s: Seq<u8>, i: int)
    requires
        0 <= i <= s.len(),
    ensures
        i <= spec_digit_run_end(s, i) <= s.len(),
        forall|k: int| i <= k < spec_digit_run_end(s, i) ==> is_digit(s[k]),
    decreases s.len() - i,
{
    if i < s.len() && is_digit(s[i]) {
        lemma_digit_run(s, i + 1);
    }
}

/// The value of a digit run is bounded by the power of ten of its width.
proof fn lemma_digits_val_bound(s: Seq<u8>, i: int, j: int)
    requires
        i <= j,
        forall|k: int| i <= k < j ==> is_digit(s[k]),
    ensures
        0 <= spec_digits_val(s, i, j) < pow10((j - i) as nat),
    decreases j - i,
{
    if i < j {
        lemma_digits_val_bound(s, i, j - 1);
    }
}

/// Powers of ten grow with the exponent.
proof fn lemma_pow10_mono(a: nat, b: nat)
    requires
        a <= b,
    ensures
        pow10(a) <= pow10(b),
        pow10(a) >= 1,
    decreases b,
{
    if b > 0 {
        if a == b {
            lemma_pow10_mono((a - 1) as nat, (b - 1) as nat);
        } else {
            lemma_pow10_mono(a, (b - 1) as nat);
        }
    }
}

/// Skip whitespace, as the grammar does.
fn skip_ws(s: &[u8], i: usize) -> (j: usize)
    ensures
        j as int == spec_skip_ws(s@, i as int),
        j >= i,
        i as int <= s@.len() ==> j as int <= s@.len(),
{
    let mut k = i;
    loop
        invariant
            i <= k,
            i as int <= s@.len() ==> k as int <= s@.len(),
            spec_skip_ws(s@, i as int) == spec_skip_ws(s@, k as int),
        decreases s@.len() - k as int,
    {
        if k < s.len() {
            let b = s[k];
            if b == 32 || b == 9 || b == 10 || b == 13 {
                k = k + 1;
            } else {
                return k;
            }
        } else {
            return k;
        }
    }
}

/// Find the closing quote of string content, as the grammar does.
fn find_quote(s: &[u8], i: usize) -> (r: Option<usize>)
    ensures
        match r {
            Some(q) => spec_find_quote(s@, i as int) == Some(q as int) && i <= q < s@.len(),
            None => spec_find_quote(s@, i as int) is None,
        },
{
    let mut k = i;
    loop
        invariant
            i <= k,
            spec_find_quote(s@, i as int) == spec_find_quote(s@, k as int),
        decreases s@.len() - k as int,
    {
        if k < s.len() {
            let b = s[k];
            if b == 34 {
                return Some(k);
            } else if b == 92 {
                if k + 1 < s.len() {
                    k = k + 2;
                } else {
                    return None;
                }
            } else {
                k = k + 1;
            }
        } else {
            return None;
        }
    }
}

/// The end of a digit run, as the grammar does.
fn digit_run_end(s: &[u8], i: usize) -> (j: usize)
    ensures
        j as int == spec_digit_run_end(s@, i as int),
        j >= i,
        i as int <= s@.len() ==> j as int <= s@.len(),
{
    let mut k = i;
    loop
        invariant
            i <= k,
            i as int <= s@.len() ==> k as int <= s@.len(),
            spec_digit_run_end(s@, i as int) == spec_digit_run_end(s@, k as int),
        decreases s@.len() - k as int,
    {
        if k < s.len() {
            let b = s[k];
            if 48 <= b && b <= 57 {
                k = k + 1;
            } else {
                return k;
            }
        } else {
            return k;
        }
    }
}

/// Parse a number, as the grammar does.
fn parse_number(s: &[u8], i: usize) -> (r: Option<(JVal, usize)>)
    requires
        i as int <= s@.len(),
    ensures
        match r {
            Some((jv, n)) => spec_parse_number(s@, i as int) == Some((jv, n as int)) && n as int
                <= s@.len(),
            None => spec_parse_number(s@, i as int) is None,
        },
{
    let neg = i < s.len() && s[i] == 45;
    let p = if neg {
        i + 1
    } else {
        i
    };
    let e = digit_run_end(s, p);
    proof {
        lemma_digit_run(s@, p as int);
    }
    if e == p {
        return None;
    }
    let frac = e < s.len() && s[e] == 46;
    let mut end = e;
    let mut plain = true;
    if frac {
        let f = digit_run_end(s, e + 1);
        if f == e + 1 {
            return None;
        }
        end = f;
        plain = false;
    }
    let ex = end < s.len() && (s[end] == 101 || s[end] == 69);
    if ex {
        let q0 = end + 1;
        let q = if q0 < s.len() && (s[q0] == 43 || s[q0] == 45) {
            q0 + 1
        } else {
            q0
        };
        let g = digit_run_end(s, q);
        if g == q {
            return None;
        }
        end = g;
        plain = false;
    }
    if plain && e - p <= 18 {
        let mut acc: i64 = 0;
        let mut k = p;
        while k < e
            invariant
                p <= k <= e,
                e as int <= s@.len(),
                e - p <= 18,
                forall|t: int| p <= t < e ==> is_digit(s@[t]),
                acc as int == spec_digits_val(s@, p as int, k as int),
                0 <= acc,
                (acc as int) < pow10((k - p) as nat),
            decreases e - k,
        {
            proof {
                lemma_pow10_mono((k - p) as nat, 17nat);
                assert(pow10(17nat) == 100_000_000_000_000_000) by {
                    reveal_with_fuel(pow10, 19);
                }
            }
            let d = s[k];
            acc = acc * 10 + ((d - 48) as i64);
            k = k + 1;
        }
        let v = if neg {
            -acc
        } else {
            acc
        };
        Some((JVal::VInt(v), e))
    } else {
        Some((JVal::VOther, end))
    }
}

/// Parse one value, as the grammar does.
fn parse_value(s: &[u8], i: usize, depth: usize) -> (r: Option<(JVal, usize)>)
    requires
        i as int <= s@.len(),
    ensures
        match r {
            Some((jv, n)) => spec_parse_value(s@, i as int, depth as int) == Some((jv, n as int))
                && n as int <= s@.len(),
            None => spec_parse_value(s@, i as int, depth as int) is None,
        },
    decreases depth, s@.len() - i as int, 0int,
{
    if depth == 0 {
        return None;
    }
    if i < s.len() && s[i] == 34 {
        match find_quote(s, i + 1) {
            Some(q) => Some((JVal::VStr(i + 1, q), q + 1)),
            None => None,
        }
    } else if i < s.len() && (s[i] == 45 || (48 <= s[i] && s[i] <= 57)) {
        parse_number(s, i)
    } else if s.len() - i >= 4 && s[i] == 116 && s[i + 1] == 114 && s[i + 2] == 117 && s[i + 3]
        == 101 {
        proof {
            assert(s@.subrange(i as int, i as int + 4) =~= seq![116u8, 114u8, 117u8, 101u8]);
        }
        Some((JVal::VOther, i + 4))
    } else if s.len() - i >= 4 && s[i] == 110 && s[i + 1] == 117 && s[i + 2] == 108 && s[i + 3]
        == 108 {
        proof {
            assert(s@.subrange(i as int, i as int + 4) =~= seq![110u8, 117u8, 108u8, 108u8]);
        }
        Some((JVal::VOther, i + 4))
    } else if s.len() - i >= 5 && s[i] == 102 && s[i + 1] == 97 && s[i + 2] == 108 && s[i + 3]
        == 115 && s[i + 4] == 101 {
        proof {
            assert(s@.subrange(i as int, i as int + 5) =~= seq![102u8, 97u8, 108u8, 115u8, 101u8]);
        }
        Some((JVal::VOther, i + 5))
    } else if i < s.len() && (s[i] == 91 || s[i] == 123) {
        proof {
            lemma_not_word_lits(s@, i as int);
        }
        let j = skip_ws(s, i + 1);
        if s[i] == 91 {
            if j < s.len() && s[j] == 93 {
                return Some((JVal::VOther, j + 1));
            }
            let j1 = if j < i + 1 {
                i + 1
            } else if j > s.len() {
                s.len()
            } else {
                j
            };
            match skip_array_items(s, j1, depth - 1) {
                Some(n) => Some((JVal::VOther, n)),
                None => None,
            }
        } else {
            if j < s.len() && s[j] == 125 {
                return Some((JVal::VOther, j + 1));
            }
            let j1 = if j < i + 1 {
                i + 1
            } else if j > s.len() {
                s.len()
            } else {
                j
            };
            match skip_object_items(s, j1, depth - 1) {
                Some(n) => Some((JVal::VOther, n)),
                None => None,
            }
        }
    } else {
        proof {
            lemma_not_word_lits(s@, i as int);
        }
        None
    }
}

/// Walk over the elements of an array being skipped.
fn skip_array_items(s: &[u8], i0: usize, depth: usize) -> (r: Option<usize>)
    requires
        i0 as int <= s@.len(),
    ensures
        match r {
            Some(n) => spec_skip_array_items(s@, i0 as int, depth as int) == Some(n as int) && n
                as int <= s@.len(),
            None => spec_skip_array_items(s@, i0 as int, depth as int) is None,
        },
    decreases depth, s@.len() - i0 as int, 1int,
{
    if i0 >= s.len() {
        return None;
    }
    let (_, n) = match parse_value(s, i0, depth) {
        Some(x) => x,
        None => {
            return None;
        },
    };
    let p = skip_ws(s, n);
    if p < s.len() && s[p] == 44 {
        let q = skip_ws(s, p + 1);
        let q1 = if q <= i0 {
            i0 + 1
        } else if q > s.len() {
            s.len()
        } else {
            q
        };
        skip_array_items(s, q1, depth)
    } else if p < s.len() && s[p] == 93 {
        Some(p + 1)
    } else {
        None
    }
}

/// Walk over the pairs of an object being skipped.
fn skip_object_items(s: &[u8], i0: usize, depth: usize) -> (r: Option<usize>)
    requires
        i0 as int <= s@.len(),
    ensures
        match r {
            Some(n) => spec_skip_object_items(s@, i0 as int, depth as int) == Some(n as int) && n
                as int <= s@.len(),
            None => spec_skip_object_items(s@, i0 as int, depth as int) is None,
        },
    decreases depth, s@.len() - i0 as int, 1int,
{
    if i0 >= s.len() {
        return None;
    }
    if s[i0] != 34 {
        return None;
    }
    let khi = match find_quote(s, i0 + 1) {
        Some(q) => q,
        None => {
            return None;
        },
    };
    let c = skip_ws(s, khi + 1);
    if !(c < s.len() && s[c] == 58) {
        return None;
    }
    let v = skip_ws(s, c + 1);
    let v1 = if v <= i0 {
        i0 + 1
    } else if v > s.len() {
        s.len()
    } else {
        v
    };
    let (_, n) = match parse_value(s, v1, depth) {
        Some(x) => x,
        None => {
            return None;
        },
    };
    let p = skip_ws(s, n);
    if p < s.len() && s[p] == 44 {
        let q = skip_ws(s, p + 1);
        let q1 = if q <= i0 {
            i0 + 1
        } else if q > s.len() {
            s.len()
        } else {
            q
        };
        skip_object_items(s, q1, depth)
    } else if p < s.len() && s[p] == 125 {
        Some(p + 1)
    } else {
        None
    }
}

/// A byte that opens a bracket or anything unrecognised is none of the
/// three literal words.
proof fn lemma_not_word_lits(s: Seq<u8>, i: int)
    requires
        0 <= i,
    ensures
        spec_lit_at(s, i, seq![116u8, 114u8, 117u8, 101u8]) ==> 0 <= i < s.len() && s[i] == 116,
        spec_lit_at(s, i, seq![110u8, 117u8, 108u8, 108u8]) ==> 0 <= i < s.len() && s[i] == 110,
        spec_lit_at(s, i, seq![102u8, 97u8, 108u8, 115u8, 101u8]) ==> 0 <= i < s.len() && s[i]
            == 102,
{
    if spec_lit_at(s, i, seq![116u8, 114u8, 117u8, 101u8]) {
        assert(s.subrange(i, i + 4)[0] == s[i]);
    }
    if spec_lit_at(s, i, seq![110u8, 117u8, 108u8, 108u8]) {
        assert(s.subrange(i, i + 4)[0] == s[i]);
    }
    if spec_lit_at(s, i, seq![102u8, 97u8, 108u8, 115u8, 101u8]) {
        assert(s.subrange(i, i + 5)[0] == s[i]);
    }
}

/// Whether the bytes `s[lo..hi]` are exactly the six-letter key given by
/// `c0..c5`.
fn span_is_key(
    s: &[u8],
    lo: usize,
    hi: usize,
    c0: u8,
    c1: u8,
    c2: u8,
    c3: u8,
    c4: u8,
    c5: u8,
) -> (r: bool)
    requires
        lo <= hi <= s@.len(),
    ensures
        r == (s@.subrange(lo as int, hi as int) == seq![c0, c1, c2, c3, c4, c5]),
{
    let ghost key = s@.subrange(lo as int, hi as int);
    if hi - lo != 6 {
        proof {
            assert(key.len() != 6);
        }
        return false;
    }
    proof {
        assert(key[0] == s@[lo as int]);
        assert(key[1] == s@[lo as int + 1]);
        assert(key[2] == s@[lo as int + 2]);
        assert(key[3] == s@[lo as int + 3]);
        assert(key[4] == s@[lo as int + 4]);
        assert(key[5] == s@[lo as int + 5]);
    }
    let r = s[lo] == c0 && s[lo + 1] == c1 && s[lo + 2] == c2 && s[lo + 3] == c3 && s[lo + 4] == c4
        && s[lo + 5] == c5;
    proof {
        if r {
            assert(key =~= seq![c0, c1, c2, c3, c4, c5]);
        }
    }
    r
}

/// Walk the pairs of the object, as the grammar does.
fn parse_pairs(s: &[u8], i0: usize) -> (r: Option<(Option<(usize, usize)>, Option<i64>, usize)>)
    requires
        i0 as int <= s@.len(),
    ensures
        match r {
            Some((act, amt, k)) => spec_parse_pairs(s@, i0 as int, None, None) == Some(
                (act, amt, k as int),
            ) && k as int <= s@.len(),
            None => spec_parse_pairs(s@, i0 as int, None, None) is None,
        },
{
    let mut i = i0;
    let mut act: Option<(usize, usize)> = None;
    let mut amt: Option<i64> = None;
    loop
        invariant
            i as int <= s@.len(),
            spec_parse_pairs(s@, i0 as int, None, None) == spec_parse_pairs(
                s@,
                i as int,
                act,
                amt,
            ),
        decreases s@.len() - i as int,
    {
        if i >= s.len() {
            return None;
        }
        if s[i] != 34 {
            return None;
        }
        let khi = match find_quote(s, i + 1) {
            Some(q) => q,
            None => {
                return None;
            },
        };
        let klo = i + 1;
        let c = skip_ws(s, khi + 1);
        if !(c < s.len() && s[c] == 58) {
            return None;
        }
        let v = skip_ws(s, c + 1);
        let (jv, n) = match parse_value(s, v, 128) {
            Some(x) => x,
            None => {
                return None;
            },
        };
        // the last occurrence of a key wins
        if span_is_key(s, klo, khi, 97, 99, 116, 105, 111, 110) {
            act = match jv {
                JVal::VStr(lo, hi) => Some((lo, hi)),
                _ => None,
            };
        } else if span_is_key(s, klo, khi, 97, 109, 111, 117, 110, 116) {
            amt = match jv {
                JVal::VInt(x) => Some(x),
                _ => None,
            };
        }
        let p = skip_ws(s, n);
        if p < s.len() && s[p] == 44 {
            let q = skip_ws(s, p + 1);
            let q1 = if q <= i {
                i + 1
            } else {
                q
            };
            i = q1;
        } else if p < s.len() && s[p] == 125 {
            return Some((act, amt, p + 1));
        } else {
            return None;
        }
    }
}

/// Lower-case one ASCII byte.
fn lower_byte(b: u8) -> (r: u8)
    ensures
        r == lower(b),
{
    if 65 <= b && b <= 90 {
        b + 32
    } else {
        b
    }
}

/// Decide the action from the gathered accumulators.
fn dispatch(s: &[u8], act: Option<(usize, usize)>, amt: Option<i64>) -> (r: Result<
    HandAction,
    ActionError,
>)
    requires
        match act {
            Some((lo, hi)) => lo <= hi && hi as int <= s@.len(),
            None => true,
        },
    ensures
        r == spec_dispatch(s@, act, amt),
{
    let (lo, hi) = match act {
        None => {
            return Err(ActionError::InvalidAction);
        },
        Some(x) => x,
    };
    let ghost t = s@.subrange(lo as int, hi as int).map_values(|b: u8| lower(b));
    proof {
        assert(t.len() == hi - lo);
        assert forall|k: int| 0 <= k < t.len() implies t[k] == lower(s@[lo + k]) by {
            assert(s@.subrange(lo as int, hi as int)[k] == s@[lo + k]);
        }
    }
    let n = hi - lo;
    if n == 4 {
        let b0 = lower_byte(s[lo]);
        let b1 = lower_byte(s[lo + 1]);
        let b2 = lower_byte(s[lo + 2]);
        let b3 = lower_byte(s[lo + 3]);
        if b0 == 102 && b1 == 111 && b2 == 108 && b3 == 100 {
            proof {
                assert(t =~= tag_fold());
            }
            return Ok(HandAction::Fold);
        }
        if b0 == 99 && b1 == 97 && b2 == 108 && b3 == 108 {
            proof {
                assert(t =~= tag_call());
            }
            return Ok(HandAction::Call);
        }
        proof {
            assert(t != tag_fold());
            assert(t != tag_check());
            assert(t != tag_call());
            assert(t != tag_raise());
        }
        return Err(ActionError::InvalidAction);
    }
    if n == 5 {
        let b0 = lower_byte(s[lo]);
        let b1 = lower_byte(s[lo + 1]);
        let b2 = lower_byte(s[lo + 2]);
        let b3 = lower_byte(s[lo + 3]);
        let b4 = lower_byte(s[lo + 4]);
        if b0 == 99 && b1 == 104 && b2 == 101 && b3 == 99 && b4 == 107 {
            proof {
                assert(t =~= tag_check());
            }
            return Ok(HandAction::Check);
        }
        if b0 == 114 && b1 == 97 && b2 == 105 && b3 == 115 && b4 == 101 {
            proof {
                assert(t =~= tag_raise());
            }
            return match amt {
                Some(v) => if 0 <= v && v <= 0x7fff_ffff {
                    Ok(HandAction::Raise(v as i32))
                } else {
                    Err(ActionError::InvalidAmount)
                },
                None => Err(ActionError::InvalidAmount),
            };
        }
        proof {
            assert(t != tag_fold());
            assert(t != tag_check());
            assert(t != tag_call());
            assert(t != tag_raise());
        }
        return Err(ActionError::InvalidAction);
    }
    proof {
        assert(t.len() != 4 && t.len() != 5);
    }
    Err(ActionError::InvalidAction)
}

impl HandAction {
    /// Parse an action message.  The result is exactly what the message
    /// grammar assigns to the bytes of `json`.
    pub fn parse_hand_action(json: &str) -> (r: Result<HandAction, ActionError>)
        ensures
            r == spec_parse_action(json.spec_bytes()),
    {
        let s: &[u8] = json.as_bytes();
        let n = s.len();
        proof {
            assert(s@.len() == n as int);
        }
        let i = skip_ws(s, 0);
        if !(i < s.len() && s[i] == 123) {
            return Err(ActionError::Malformed);
        }
        let j = skip_ws(s, i + 1);
        if j < s.len() && s[j] == 125 {
            if skip_ws(s, j + 1) == s.len() {
                return dispatch(s, None, None);
            } else {
                return Err(ActionError::Malformed);
            }
        }
        match parse_pairs(s, j) {
            None => Err(ActionError::Malformed),
            Some((act, amt, k)) => {
                if skip_ws(s, k) == s.len() {
                    proof {
                        lemma_pairs_act_bounds(s@, j as int, None, None);
                    }
                    dispatch(s, act, amt)
                } else {
                    Err(ActionError::Malformed)
                }
            },
        }
    }
}

/// The short human-readable form of an action.
pub open spec fn spec_simple(a: HandAction) -> Seq<char> {
    match a {
        HandAction::Fold => seq!['F', 'o', 'l', 'd'],
        HandAction::Check => seq!['C', 'h', 'e', 'c', 'k'],
        HandAction::Call => seq!['C', 'a', 'l', 'l'],
        HandAction::Raise(n) => seq!['R', 'a', 'i', 's', 'e', ' ', 'b', 'y', ' '] + dec_rep(
            n as int,
        ),
    }
}

/// The JSON wire form of an action.
pub open spec fn spec_emit(a: HandAction) -> Seq<char> {
    match a {
        HandAction::Fold => seq![
            '{', '"', 'a', 'c', 't', 'i', 'o', 'n', '"', ':', '"', 'f', 'o', 'l', 'd', '"', '}',
        ],
        HandAction::Check => seq![
            '{', '"', 'a', 'c', 't', 'i', 'o', 'n', '"', ':', '"', 'c', 'h', 'e', 'c', 'k', '"',
            '}',
        ],
        HandAction::Call => seq![
            '{', '"', 'a', 'c', 't', 'i', 'o', 'n', '"', ':', '"', 'c', 'a', 'l', 'l', '"', '}',
        ],
        HandAction::Raise(n) => raise_prefix() + dec_rep(n as int) + seq!['}'],
    }
}

/// The characters of the raise wire form up to the amount's digits.
pub open spec fn raise_prefix() -> Seq<char> {
    seq![
        '{', '"', 'a', 'c', 't', 'i', 'o', 'n', '"', ':', '"', 'r', 'a', 'i', 's', 'e', '"', ',',
        '"', 'a', 'm', 'o', 'u', 'n', 't', '"', ':',
    ]
}

impl HandAction {
    /// The short human-readable form, "Fold" or "Raise by 3".
    pub fn simple_string(&self) -> (r: String)
        requires
            self.wire_ok(),
        ensures
            r@ == spec_simple(*self),
    {
        proof {
            reveal_strlit("Fold");
            reveal_strlit("Check");
            reveal_strlit("Call");
            reveal_strlit("Raise by ");
        }
        match self {
            HandAction::Fold => {
                let r = String::from_str("Fold");
                proof {
                    assert(r@ =~= spec_simple(*self));
                }
                r
            },
            HandAction::Check => {
                let r = String::from_str("Check");
                proof {
                    assert(r@ =~= spec_simple(*self));
                }
                r
            },
            HandAction::Call => {
                let r = String::from_str("Call");
                proof {
                    assert(r@ =~= spec_simple(*self));
                }
                r
            },
            HandAction::Raise(n) => {
                let mut r = String::from_str("Raise by ");
                append_dec_i32(&mut r, *n);
                proof {
                    assert(r@ =~= spec_simple(*self));
                }
                r
            },
        }
    }

    /// The JSON wire form, `{"action":"fold"}` and its three siblings.
    pub fn to_json_string(&self) -> (r: String)
        requires
            self.wire_ok(),
        ensures
            r@ == spec_emit(*self),
    {
        proof {
            reveal_strlit("{\"action\":\"fold\"}");
            reveal_strlit("{\"action\":\"check\"}");
            reveal_strlit("{\"action\":\"call\"}");
            reveal_strlit("{\"action\":\"raise\",\"amount\":");
            reveal_strlit("}");
        }
        match self {
            HandAction::Fold => {
                let r = String::from_str("{\"action\":\"fold\"}");
                proof {
                    assert(r@ =~= spec_emit(*self));
                }
                r
            },
            HandAction::Check => {
                let r = String::from_str("{\"action\":\"check\"}");
                proof {
                    assert(r@ =~= spec_emit(*self));
                }
                r
            },
            HandAction::Call => {
                let r = String::from_str("{\"action\":\"call\"}");
                proof {
                    assert(r@ =~= spec_emit(*self));
                }
                r
            },
            HandAction::Raise(n) => {
                let mut r = String::from_str("{\"action\":\"raise\",\"amount\":");
                append_dec_i32(&mut r, *n);
                r.append("}");
                proof {
                    assert(r@ =~= spec_emit(*self));
                }
                r
            },
        }
    }
}

/// A gathered action span lies inside the sequence.
proof fn lemma_pairs_act_bounds(
    s: Seq<u8>,
    i: int,
    act: Option<(usize, usize)>,
    amt: Option<i64>,
)
    requires
        s.len() <= usize::MAX as int,
        match act {
            Some((lo, hi)) => lo <= hi && hi as int <= s.len(),
            None => true,
        },
    ensures
        match spec_parse_pairs(s, i, act, amt) {
            Some((act2, _, _)) => match act2 {
                Some((lo, hi)) => lo <= hi && hi as int <= s.len(),
                None => true,
            },
            None => true,
        },
    decreases s.len() - i,
{
    if i >= s.len() {
    } else {
        match spec_parse_qstring(s, i) {
            None => {},
            Some((klo, khi)) => {
                lemma_find_quote_bounds(s, i + 1);
                let c = spec_skip_ws(s, khi + 1);
                if c < s.len() && s[c] == 58 {
                    let v = spec_skip_ws(s, c + 1);
                    match spec_parse_value(s, v, spec_depth_limit()) {
                        None => {},
                        Some((jv, n)) => {
                            let accs = spec_update_accs(s, klo, khi, jv, act, amt);
                            assert(match accs.0 {
                                Some((lo, hi)) => lo <= hi && hi as int <= s.len(),
                                None => true,
                            }) by {
                                lemma_value_str_bounds(s, v);
                            }
                            let p = spec_skip_ws(s, n);
                            if p < s.len() && s[p] == 44 {
                                let q = spec_skip_ws(s, p + 1);
                                let q1 = if q <= i {
                                    i + 1
                                } else if q > s.len() {
                                    s.len() as int
                                } else {
                                    q
                                };
                                lemma_pairs_act_bounds(s, q1, accs.0, accs.1);
                            }
                        },
                    }
                }
            },
        }
    }
}

/// A found quote lies inside the sequence, past the start.
proof fn lemma_find_quote_bounds(s: Seq<u8>, i: int)
    ensures
        match spec_find_quote(s, i) {
            Some(q) => i <= q < s.len(),
            None => true,
        },
    decreases s.len() - i,
{
    if 0 <= i < s.len() {
        if s[i] == 34 {
        } else if s[i] == 92 {
            if i + 1 < s.len() {
                lemma_find_quote_bounds(s, i + 2);
            }
        } else {
            lemma_find_quote_bounds(s, i + 1);
        }
    }
}

/// A string value's span lies inside the sequence.
proof fn lemma_value_str_bounds(s: Seq<u8>, i: int)
    requires
        s.len() <= usize::MAX as int,
    ensures
        match spec_parse_value(s, i, spec_depth_limit()) {
            Some((jv, _)) => match jv {
                JVal::VStr(lo, hi) => lo <= hi && hi as int <= s.len(),
                _ => true,
            },
            None => true,
        },
{
    lemma_find_quote_bounds(s, i + 1);
}

/// A decimal digit character, which is ASCII.
pub open spec fn digit_char(c: char) -> bool {
    is_digit(c as u8) && (c as u32) < 128
}

/// A digit character lies in the ASCII range.
proof fn lemma_digit_char_bounds(c: char)
    requires
        digit_char(c),
    ensures
        48 <= c as u8 && c as u8 <= 57,
        '\0' <= c && c <= '\u{7f}',
{
}

/// The numeral of a non-negative integer is made of ASCII digits.
proof fn lemma_dec_rep_digits(n: int)
    requires
        n >= 0,
    ensures
        dec_rep(n).len() >= 1,
        forall|t: int| 0 <= t < dec_rep(n).len() ==> digit_char(#[trigger] dec_rep(n)[t]),
    decreases n,
{
    if n >= 10 {
        lemma_dec_rep_digits(n / 10);
        assert forall|t: int| 0 <= t < dec_rep(n).len() implies digit_char(
            #[trigger] dec_rep(n)[t],
        ) by {
            if t < dec_rep(n / 10).len() {
                assert(dec_rep(n)[t] == dec_rep(n / 10)[t]);
            } else {
                assert(dec_rep(n)[t] == dec_digit(n % 10));
            }
        }
    }
}

/// A numeral of a value below the k-th power of ten has at most k digits.
proof fn lemma_dec_rep_len(n: int, k: nat)
    requires
        0 <= n,
        n < pow10(k),
        1 <= k,
    ensures
        1 <= dec_rep(n).len() <= k,
    decreases k,
{
    if n < 10 {
    } else {
        lemma_pow10_mono(1nat, k);
        assert(pow10(k) == 10 * pow10((k - 1) as nat));
        lemma_dec_rep_len(n / 10, (k - 1) as nat);
    }
}

/// A digit run that stops exactly at `j`.
proof fn lemma_run_end_exact(s: Seq<u8>, i: int, j: int)
    requires
        0 <= i <= j <= s.len(),
        forall|t: int| i <= t < j ==> is_digit(#[trigger] s[t]),
        j == s.len() || !is_digit(s[j]),
    ensures
        spec_digit_run_end(s, i) == j,
    decreases j - i,
{
    if i < j {
        lemma_run_end_exact(s, i + 1, j);
    }
}

/// Reading back the bytes of a numeral yields the value.
proof fn lemma_digits_val_of_dec_rep(s: Seq<u8>, i: int, n: int)
    requires
        0 <= i,
        n >= 0,
        forall|t: int| 0 <= t < dec_rep(n).len() ==> s[i + t] == (#[trigger] dec_rep(n)[t]) as u8,
    ensures
        spec_digits_val(s, i, i + dec_rep(n).len()) == n,
    decreases n,
{
    if n < 10 {
        assert(dec_rep(n) =~= seq![dec_digit(n)]);
        assert(dec_rep(n)[0] == dec_digit(n));
        assert(s[i + 0] == dec_digit(n) as u8);
        assert(spec_digits_val(s, i, i) == 0);
        assert(spec_digits_val(s, i, i + 1) == s[i] - 48);
        assert(dec_digit(n) as u8 == 48 + n);
    } else {
        let l = dec_rep(n / 10).len() as int;
        assert forall|t: int| 0 <= t < dec_rep(n / 10).len() implies s[i + t] == (#[trigger] dec_rep(
            n / 10,
        )[t]) as u8 by {
            assert(dec_rep(n)[t] == dec_rep(n / 10)[t]);
        }
        lemma_digits_val_of_dec_rep(s, i, n / 10);
        assert(dec_rep(n)[l] == dec_digit(n % 10));
        assert(s[i + l] == dec_digit(n % 10) as u8);
        assert(spec_digits_val(s, i, i + l + 1) == spec_digits_val(s, i, i + l) * 10 + (s[i + l]
            - 48));
    }
}

proof fn lemma_raise_prefix_ascii()
    ensures
        raise_prefix().len() == 27,
        is_ascii_chars(raise_prefix()),
{
    let p = raise_prefix();
    assert forall|i: int| 0 <= i < p.len() implies '\0' <= #[trigger] p[i] <= '\u{7f}' by {
        if i == 0 {
            assert(p[0] == '{');
        } else if i == 1 {
            assert(p[1] == '"');
        } else if i == 2 {
            assert(p[2] == 'a');
        } else if i == 3 {
            assert(p[3] == 'c');
        } else if i == 4 {
            assert(p[4] == 't');
        } else if i == 5 {
            assert(p[5] == 'i');
        } else if i == 6 {
            assert(p[6] == 'o');
        } else if i == 7 {
            assert(p[7] == 'n');
        } else if i == 8 {
            assert(p[8] == '"');
        } else if i == 9 {
            assert(p[9] == ':');
        } else if i == 10 {
            assert(p[10] == '"');
        } else if i == 11 {
            assert(p[11] == 'r');
        } else if i == 12 {
            assert(p[12] == 'a');
        } else if i == 13 {
            assert(p[13] == 'i');
        } else if i == 14 {
            assert(p[14] == 's');
        } else if i == 15 {
            assert(p[15] == 'e');
        } else if i == 16 {
            assert(p[16] == '"');
        } else if i == 17 {
            assert(p[17] == ',');
        } else if i == 18 {
            assert(p[18] == '"');
        } else if i == 19 {
            assert(p[19] == 'a');
        } else if i == 20 {
            assert(p[20] == 'm');
        } else if i == 21 {
            assert(p[21] == 'o');
        } else if i == 22 {
            assert(p[22] == 'u');
        } else if i == 23 {
            assert(p[23] == 'n');
        } else if i == 24 {
            assert(p[24] == 't');
        } else if i == 25 {
            assert(p[25] == '"');
        } else if i == 26 {
            assert(p[26] == ':');
        } else {
        }
    }
}

proof fn lemma_emit_fold_ascii()
    ensures
        spec_emit(HandAction::Fold).len() == 17,
        is_ascii_chars(spec_emit(HandAction::Fold)),
{
    let p = spec_emit(HandAction::Fold);
    assert forall|i: int| 0 <= i < p.len() implies '\0' <= #[trigger] p[i] <= '\u{7f}' by {
        if i == 0 {
            assert(p[0] == '{');
        } else if i == 1 {
            assert(p[1] == '"');
        } else if i == 2 {
            assert(p[2] == 'a');
        } else if i == 3 {
            assert(p[3] == 'c');
        } else if i == 4 {
            assert(p[4] == 't');
        } else if i == 5 {
            assert(p[5] == 'i');
        } else if i == 6 {
            assert(p[6] == 'o');
        } else if i == 7 {
            assert(p[7] == 'n');
        } else if i == 8 {
            assert(p[8] == '"');
        } else if i == 9 {
            assert(p[9] == ':');
        } else if i == 10 {
            assert(p[10] == '"');
        } else if i == 11 {
            assert(p[11] == 'f');
        } else if i == 12 {
            assert(p[12] == 'o');
        } else if i == 13 {
            assert(p[13] == 'l');
        } else if i == 14 {
            assert(p[14] == 'd');
        } else if i == 15 {
            assert(p[15] == '"');
        } else if i == 16 {
            assert(p[16] == '}');
        } else {
        }
    }
}

proof fn lemma_emit_check_ascii()
    ensures
        spec_emit(HandAction::Check).len() == 18,
        is_ascii_chars(spec_emit(HandAction::Check)),
{
    let p = spec_emit(HandAction::Check);
    assert forall|i: int| 0 <= i < p.len() implies '\0' <= #[trigger] p[i] <= '\u{7f}' by {
        if i == 0 {
            assert(p[0] == '{');
        } else if i == 1 {
            assert(p[1] == '"');
        } else if i == 2 {
            assert(p[2] == 'a');
        } else if i == 3 {
            assert(p[3] == 'c');
        } else if i == 4 {
            assert(p[4] == 't');
        } else if i == 5 {
            assert(p[5] == 'i');
        } else if i == 6 {
            assert(p[6] == 'o');
        } else if i == 7 {
            assert(p[7] == 'n');
        } else if i == 8 {
            assert(p[8] == '"');
        } else if i == 9 {
            assert(p[9] == ':');
        } else if i == 10 {
            assert(p[10] == '"');
        } else if i == 11 {
            assert(p[11] == 'c');
        } else if i == 12 {
            assert(p[12] == 'h');
        } else if i == 13 {
            assert(p[13] == 'e');
        } else if i == 14 {
            assert(p[14] == 'c');
        } else if i == 15 {
            assert(p[15] == 'k');
        } else if i == 16 {
            assert(p[16] == '"');
        } else if i == 17 {
            assert(p[17] == '}');
        } else {
        }
    }
}

proof fn lemma_emit_call_ascii()
    ensures
        spec_emit(HandAction::Call).len() == 17,
        is_ascii_chars(spec_emit(HandAction::Call)),
{
    let p = spec_emit(HandAction::Call);
    assert forall|i: int| 0 <= i < p.len() implies '\0' <= #[trigger] p[i] <= '\u{7f}' by {
        if i == 0 {
            assert(p[0] == '{');
        } else if i == 1 {
            assert(p[1] == '"');
        } else if i == 2 {
            assert(p[2] == 'a');
        } else if i == 3 {
            assert(p[3] == 'c');
        } else if i == 4 {
            assert(p[4] == 't');
        } else if i == 5 {
            assert(p[5] == 'i');
        } else if i == 6 {
            assert(p[6] == 'o');
        } else if i == 7 {
            assert(p[7] == 'n');
        } else if i == 8 {
            assert(p[8] == '"');
        } else if i == 9 {
            assert(p[9] == ':');
        } else if i == 10 {
            assert(p[10] == '"');
        } else if i == 11 {
            assert(p[11] == 'c');
        } else if i == 12 {
            assert(p[12] == 'a');
        } else if i == 13 {
            assert(p[13] == 'l');
        } else if i == 14 {
            assert(p[14] == 'l');
        } else if i == 15 {
            assert(p[15] == '"');
        } else if i == 16 {
            assert(p[16] == '}');
        } else {
        }
    }
}

/// Parsing the wire form of an action yields that action back: the
/// message round trip is the identity.
pub proof fn lemma_parse_emit_round_trip(a: HandAction)
    requires
        a.wire_ok(),
    ensures
        spec_parse_action(vstd::utf8::encode_utf8(spec_emit(a))) == Ok::<
            HandAction,
            ActionError,
        >(a),
{
    match a {
        HandAction::Raise(_) => lemma_round_trip_raise(a),
        _ => lemma_round_trip_plain(a),
    }
}

/// The round trip for a raise message.
#[verifier::rlimit(100)]
proof fn lemma_round_trip_raise(a: HandAction)
    requires
        a.wire_ok(),
        a is Raise,
    ensures
        spec_parse_action(vstd::utf8::encode_utf8(spec_emit(a))) == Ok::<
            HandAction,
            ActionError,
        >(a),
{
    let cs = spec_emit(a);
    let b = vstd::utf8::encode_utf8(cs);
    match a {
        HandAction::Raise(n0) => {
            let n = n0 as int;
            lemma_dec_rep_digits(n);
            assert(n < pow10(10nat)) by {
                reveal_with_fuel(pow10, 12);
                assert(pow10(10nat) == 10_000_000_000);
            }
            lemma_dec_rep_len(n, 10nat);
            let k = dec_rep(n).len() as int;
            lemma_raise_prefix_ascii();
            assert(is_ascii_chars(cs)) by {
                assert forall|i: int| 0 <= i < cs.len() implies '\0' <= #[trigger] cs[i]
                    <= '\u{7f}' by {
                    if i < 27 {
                        assert(cs[i] == raise_prefix()[i]);
                    } else if i < 27 + k {
                        assert(cs[i] == dec_rep(n)[i - 27]);
                        assert(digit_char(dec_rep(n)[i - 27]));
                        lemma_digit_char_bounds(dec_rep(n)[i - 27]);
                    } else {
                        assert(cs[i] == '}');
                    }
                }
            }
            is_ascii_chars_encode_utf8(cs);
            assert(b.len() == 28 + k);
            assert(forall|i: int| 0 <= i < 27 ==> #[trigger] b[i] == (raise_prefix()[i]) as u8);
            assert(forall|t: int| 0 <= t < k ==> #[trigger] b[27 + t] == (dec_rep(n)[t]) as u8);
            assert(b[27 + k] == '}' as u8);
            assert(forall|t: int| 27 <= t < 27 + k ==> is_digit(#[trigger] b[t]));
            assert(spec_skip_ws(b, 0) == 0);
            assert(b[0] == 123);
            assert(spec_skip_ws(b, 1) == 1);
            assert(b[1] == 34);
            // the walk over the two pairs
            assert(spec_find_quote(b, 2) == Some(8int)) by {
                reveal_with_fuel(spec_find_quote, 9);
            }
            assert(spec_parse_qstring(b, 1) == Some((2int, 8int)));
            assert(spec_skip_ws(b, 9) == 9);
            assert(b[9] == 58);
            assert(spec_skip_ws(b, 10) == 10);
            assert(b[10] == 34);
            assert(spec_find_quote(b, 11) == Some(16int)) by {
                reveal_with_fuel(spec_find_quote, 8);
            }
            assert(spec_parse_qstring(b, 10) == Some((11int, 16int)));
            assert(spec_parse_value(b, 10, spec_depth_limit()) == Some((JVal::VStr(11, 16), 17int)));
            assert(b.subrange(2, 8) =~= seq![97u8, 99u8, 116u8, 105u8, 111u8, 110u8]);
            assert(spec_update_accs(b, 2, 8, JVal::VStr(11, 16), None, None) == (
                Some((11usize, 16usize)),
                None::<i64>,
            ));
            assert(spec_skip_ws(b, 17) == 17);
            assert(b[17] == 44);
            assert(spec_skip_ws(b, 18) == 18);
            // second pair: the amount
            assert(spec_find_quote(b, 19) == Some(25int)) by {
                reveal_with_fuel(spec_find_quote, 9);
            }
            assert(spec_parse_qstring(b, 18) == Some((19int, 25int)));
            assert(spec_skip_ws(b, 26) == 26);
            assert(b[26] == 58);
            assert(spec_skip_ws(b, 27) == 27);
            assert(is_digit(b[27]));
            lemma_run_end_exact(b, 27, 27 + k);
            assert(spec_digit_run_end(b, 27) == 27 + k);
            lemma_digits_val_of_dec_rep(b, 27, n);
            assert(spec_parse_number(b, 27) == Some((JVal::VInt(n0 as i64), 27 + k)));
            assert(spec_parse_value(b, 27, spec_depth_limit()) == Some(
                (JVal::VInt(n0 as i64), 27 + k),
            ));
            assert(b.subrange(19, 25) =~= seq![97u8, 109u8, 111u8, 117u8, 110u8, 116u8]);
            assert(b.subrange(19, 25) != seq![97u8, 99u8, 116u8, 105u8, 111u8, 110u8]) by {
                assert(b.subrange(19, 25)[1] == 109u8);
            }
            assert(spec_update_accs(b, 19, 25, JVal::VInt(n0 as i64), Some((11usize, 16usize)), None)
                == (Some((11usize, 16usize)), Some(n0 as i64)));
            assert(spec_skip_ws(b, 27 + k) == 27 + k);
            assert(b[27 + k] == 125);
            assert(spec_parse_pairs(b, 18, Some((11usize, 16usize)), None) == Some(
                (Some((11usize, 16usize)), Some(n0 as i64), 28 + k),
            )) by {
                reveal_with_fuel(spec_parse_pairs, 2);
            }
            assert(spec_parse_pairs(b, 1, None, None) == Some(
                (Some((11usize, 16usize)), Some(n0 as i64), 28 + k),
            )) by {
                reveal_with_fuel(spec_parse_pairs, 2);
            }
            assert(spec_skip_ws(b, 28 + k) == 28 + k);
            // dispatch on the lowered tag
            let t = b.subrange(11, 16).map_values(|x: u8| lower(x));
            assert(t =~= tag_raise()) by {
                assert(b.subrange(11, 16)[0] == 114u8);
                assert(b.subrange(11, 16)[1] == 97u8);
                assert(b.subrange(11, 16)[2] == 105u8);
                assert(b.subrange(11, 16)[3] == 115u8);
                assert(b.subrange(11, 16)[4] == 101u8);
            }
            assert(t != tag_fold());
            assert(t != tag_check()) by {
                assert(t[0] != tag_check()[0]);
            }
            assert(t != tag_call());
            assert(spec_dispatch(b, Some((11usize, 16usize)), Some(n0 as i64)) == Ok::<
                HandAction,
                ActionError,
            >(HandAction::Raise(n0)));
        },
        _ => {},
    }
}

/// The round trip for the three constant messages.
#[verifier::rlimit(100)]
proof fn lemma_round_trip_plain(a: HandAction)
    requires
        !(a is Raise),
    ensures
        spec_parse_action(vstd::utf8::encode_utf8(spec_emit(a))) == Ok::<
            HandAction,
            ActionError,
        >(a),
{
    let cs = spec_emit(a);
    let b = vstd::utf8::encode_utf8(cs);
    match a {
        HandAction::Raise(_) => {},
        _ => {
            let tag: Seq<u8> = match a {
                HandAction::Fold => tag_fold(),
                HandAction::Check => tag_check(),
                HandAction::Call => tag_call(),
                HandAction::Raise(_) => seq![],
            };
            let tl = tag.len() as int;
            match a {
                HandAction::Fold => lemma_emit_fold_ascii(),
                HandAction::Check => lemma_emit_check_ascii(),
                HandAction::Call => lemma_emit_call_ascii(),
                HandAction::Raise(_) => {},
            }
            assert(is_ascii_chars(cs));
            is_ascii_chars_encode_utf8(cs);
            assert(cs.len() == 13 + tl);
            assert(forall|i: int| 0 <= i < cs.len() ==> #[trigger] b[i] == (cs[i]) as u8);
            assert(spec_skip_ws(b, 0) == 0);
            assert(b[0] == 123);
            assert(spec_skip_ws(b, 1) == 1);
            assert(b[1] == 34);
            assert(spec_find_quote(b, 2) == Some(8int)) by {
                reveal_with_fuel(spec_find_quote, 9);
            }
            assert(spec_parse_qstring(b, 1) == Some((2int, 8int)));
            assert(spec_skip_ws(b, 9) == 9);
            assert(b[9] == 58);
            assert(spec_skip_ws(b, 10) == 10);
            assert(b[10] == 34);
            assert(spec_find_quote(b, 11) == Some(11 + tl)) by {
                reveal_with_fuel(spec_find_quote, 8);
            }
            assert(spec_parse_qstring(b, 10) == Some((11int, 11 + tl)));
            assert(spec_parse_value(b, 10, spec_depth_limit()) == Some(
                (JVal::VStr(11, (11 + tl) as usize), 12 + tl),
            ));
            assert(b.subrange(2, 8) =~= seq![97u8, 99u8, 116u8, 105u8, 111u8, 110u8]);
            assert(spec_skip_ws(b, 12 + tl) == 12 + tl);
            assert(b[12 + tl] == 125);
            assert(spec_parse_pairs(b, 1, None, None) == Some(
                (Some((11usize, (11 + tl) as usize)), None::<i64>, 13 + tl),
            )) by {
                reveal_with_fuel(spec_parse_pairs, 2);
            }
            assert(spec_skip_ws(b, 13 + tl) == 13 + tl);
            let t = b.subrange(11, 11 + tl).map_values(|x: u8| lower(x));
            assert(t =~= tag) by {
                assert(forall|j: int|
                    0 <= j < tl ==> #[trigger] b.subrange(11, 11 + tl)[j] == b[11 + j]);
            }
            match a {
                HandAction::Fold => {
                    assert(spec_dispatch(b, Some((11usize, 15usize)), None) == Ok::<
                        HandAction,
                        ActionError,
                    >(HandAction::Fold));
                },
                HandAction::Check => {
                    assert(t != tag_fold());
                    assert(spec_dispatch(b, Some((11usize, 16usize)), None) == Ok::<
                        HandAction,
                        ActionError,
                    >(HandAction::Check));
                },
                HandAction::Call => {
                    assert(t != tag_fold()) by {
                        assert(t[0] != tag_fold()[0]);
                    }
                    assert(spec_dispatch(b, Some((11usize, 15usize)), None) == Ok::<
                        HandAction,
                        ActionError,
                    >(HandAction::Call));
                },
                HandAction::Raise(_) => {},
            }
        },
    }
}

} // verus!
