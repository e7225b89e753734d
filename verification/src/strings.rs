//! Decimal rendering of non-negative integers, used by the wire-format
//! and log-string builders.

use vstd::prelude::*;
use vstd::string::StringExecFns;

verus! {

/// The character for a single decimal digit value.
pub open spec fn dec_digit(d: int) -> char {
    if d == 0 {
        '0'
    } else if d == 1 {
        '1'
    } else if d == 2 {
        '2'
    } else if d == 3 {
        '3'
    } else if d == 4 {
        '4'
    } else if d == 5 {
        '5'
    } else if d == 6 {
        '6'
    } else if d == 7 {
        '7'
    } else if d == 8 {
        '8'
    } else {
        '9'
    }
}

/// The usual decimal numeral of a non-negative integer, most significant
/// digit first and without leading zeros (zero itself is "0").
pub open spec fn dec_rep(n: int) -> Seq<char>
    decreases n,
{
    if n < 10 {
        seq![dec_digit(n)]
    } else {
        dec_rep(n / 10) + seq![dec_digit(n % 10)]
    }
}

/// Append the character of one decimal digit.
fn append_digit(s: &mut String, d: u64)
    requires
        d < 10,
    ensures
        final(s)@ == old(s)@ + seq![dec_digit(d as int)],
{
    proof {
        reveal_strlit("0");
        reveal_strlit("1");
        reveal_strlit("2");
        reveal_strlit("3");
        reveal_strlit("4");
        reveal_strlit("5");
        reveal_strlit("6");
        reveal_strlit("7");
        reveal_strlit("8");
        reveal_strlit("9");
    }
    if d == 0 {
        s.append("0");
    } else if d == 1 {
        s.append("1");
    } else if d == 2 {
        s.append("2");
    } else if d == 3 {
        s.append("3");
    } else if d == 4 {
        s.append("4");
    } else if d == 5 {
        s.append("5");
    } else if d == 6 {
        s.append("6");
    } else if d == 7 {
        s.append("7");
    } else if d == 8 {
        s.append("8");
    } else {
        s.append("9");
    }
    proof {
        assert(s@ =~= old(s)@ + seq![dec_digit(d as int)]);
    }
}

/// Append the decimal numeral of `n`.
pub fn append_dec_u64(s: &mut String, n: u64)
    ensures
        final(s)@ == old(s)@ + dec_rep(n as int),
    decreases n,
{
    if n < 10 {
        append_digit(s, n);
    } else {
        append_dec_u64(s, n / 10);
        append_digit(s, n % 10);
        proof {
            assert(s@ =~= old(s)@ + dec_rep(n as int));
        }
    }
}

/// The decimal numeral of `n` as a fresh string.
pub fn dec_string_u64(n: u64) -> (r: String)
    ensures
        r@ == dec_rep(n as int),
{
    let mut s = String::new();
    append_dec_u64(&mut s, n);
    proof {
        assert(s@ =~= dec_rep(n as int));
    }
    s
}

/// Append the decimal numeral of a non-negative `i32`.
pub fn append_dec_i32(s: &mut String, n: i32)
    requires
        n >= 0,
    ensures
        final(s)@ == old(s)@ + dec_rep(n as int),
{
    append_dec_u64(s, n as u64);
}

/// How one character appears inside a JSON string: quotes, backslashes
/// and the common control characters are escaped, everything else
/// stands for itself.
pub open spec fn esc_char(c: char) -> Seq<char> {
    if c == '"' {
        seq!['\\', '"']
    } else if c == '\\' {
        seq!['\\', '\\']
    } else if c == '\n' {
        seq!['\\', 'n']
    } else if c == '\r' {
        seq!['\\', 'r']
    } else if c == '\t' {
        seq!['\\', 't']
    } else {
        seq![c]
    }
}

/// A character sequence as it appears inside a JSON string.
pub open spec fn json_escaped(s: Seq<char>) -> Seq<char>
    decreases s.len(),
{
    if s.len() == 0 {
        Seq::empty()
    } else {
        json_escaped(s.drop_last()) + esc_char(s.last())
    }
}

/// Whether a character passes through the JSON escaping unchanged.
pub open spec fn esc_plain(c: char) -> bool {
    c != '"' && c != '\\' && c != '\n' && c != '\r' && c != '\t'
}

/// A run of plain characters passes through the escaping as it is.
proof fn lemma_json_escaped_chunk(s: Seq<char>, a: int, b: int)
    requires
        0 <= a <= b <= s.len(),
        forall|k: int| a <= k < b ==> esc_plain(#[trigger] s[k]),
    ensures
        json_escaped(s.take(b)) == json_escaped(s.take(a)) + s.subrange(a, b),
    decreases b - a,
{
    if a == b {
        assert(json_escaped(s.take(b)) =~= json_escaped(s.take(a)) + s.subrange(a, b));
    } else {
        lemma_json_escaped_chunk(s, a, b - 1);
        assert(s.take(b).drop_last() =~= s.take(b - 1));
        assert(esc_char(s[b - 1]) =~= seq![s[b - 1]]);
        assert(json_escaped(s.take(b)) =~= json_escaped(s.take(a)) + s.subrange(a, b));
    }
}

/// One escaped step extends the escaped prefix.
proof fn lemma_json_escaped_step(s: Seq<char>, i: int)
    requires
        0 <= i < s.len(),
    ensures
        json_escaped(s.take(i + 1)) == json_escaped(s.take(i)) + esc_char(s[i]),
{
    assert(s.take(i + 1).drop_last() =~= s.take(i));
    assert(json_escaped(s.take(i + 1)) =~= json_escaped(s.take(i)) + esc_char(s[i]));
}

/// Append a string with JSON escaping applied.
pub fn append_json_escaped(out: &mut String, s: &str)
    ensures
        final(out)@ == old(out)@ + json_escaped(s@),
{
    proof {
        reveal_strlit("\\\"");
        reveal_strlit("\\\\");
        reveal_strlit("\\n");
        reveal_strlit("\\r");
        reveal_strlit("\\t");
    }
    let n = s.unicode_len();
    let mut start: usize = 0;
    let mut i: usize = 0;
    while i < n
        invariant
            start <= i <= n,
            n == s@.len(),
            out@ == old(out)@ + json_escaped(s@.take(start as int)),
            forall|k: int| start <= k < i ==> esc_plain(#[trigger] s@[k]),
        decreases n - i,
    {
        let c = s.get_char(i);
        if c == '"' || c == '\\' || c == '\n' || c == '\r' || c == '\t' {
            let chunk = s.substring_char(start, i);
            out.append(chunk);
            if c == '"' {
                out.append("\\\"");
            } else if c == '\\' {
                out.append("\\\\");
            } else if c == '\n' {
                out.append("\\n");
            } else if c == '\r' {
                out.append("\\r");
            } else {
                out.append("\\t");
            }
            proof {
                reveal_strlit("\\\"");
                reveal_strlit("\\\\");
                reveal_strlit("\\n");
                reveal_strlit("\\r");
                reveal_strlit("\\t");
                lemma_json_escaped_chunk(s@, start as int, i as int);
                lemma_json_escaped_step(s@, i as int);
                assert(("\\\"")@ =~= seq!['\\', '"']);
                assert(("\\\\")@ =~= seq!['\\', '\\']);
                assert(("\\n")@ =~= seq!['\\', 'n']);
                assert(("\\r")@ =~= seq!['\\', 'r']);
                assert(("\\t")@ =~= seq!['\\', 't']);
                assert(out@ =~= old(out)@ + json_escaped(s@.take(i as int + 1)));
            }
            start = i + 1;
        }
        i = i + 1;
    }
    let chunk = s.substring_char(start, n);
    out.append(chunk);
    proof {
        lemma_json_escaped_chunk(s@, start as int, n as int);
        assert(s@.take(n as int) =~= s@);
        assert(out@ =~= old(out)@ + json_escaped(s@));
    }
}

/// Spaces to the left of a numeral, up to a field width.
pub open spec fn pad_left(s: Seq<char>, w: int) -> Seq<char> {
    if s.len() >= w {
        s
    } else {
        Seq::new((w - s.len()) as nat, |i: int| ' ') + s
    }
}

/// Append the decimal numeral of a non-negative number, right-aligned
/// in a field of the given width.
pub fn append_dec_padded(out: &mut String, n: i32, width: usize)
    requires
        n >= 0,
    ensures
        final(out)@ == old(out)@ + pad_left(dec_rep(n as int), width as int),
{
    proof {
        reveal_strlit(" ");
    }
    let digits = dec_string_u64(n as u64);
    let dl = digits.as_str().unicode_len();
    let mut pad: usize = 0;
    if dl < width {
        pad = width - dl;
    }
    let ghost out0 = out@;
    let mut k: usize = 0;
    while k < pad
        invariant
            k <= pad,
            out@ == out0 + Seq::new(k as nat, |i: int| ' '),
        decreases pad - k,
    {
        out.append(" ");
        k = k + 1;
        proof {
            reveal_strlit(" ");
            assert((" ")@ =~= seq![' ']);
            assert(out@ =~= out0 + Seq::new(k as nat, |i: int| ' '));
        }
    }
    out.append(digits.as_str());
    proof {
        assert(out@ =~= out0 + pad_left(dec_rep(n as int), width as int));
    }
}

} // verus!
