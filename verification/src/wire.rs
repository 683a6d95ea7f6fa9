//! The patch representation exchanged with the remote peer, the
//! construction of an outbound patch from a local keystroke, and the JSON
//! frame codec. A patch replaces the half-open flat character range
//! `[start, end)` by `text`: empty `text` is a one-character deletion,
//! non-empty `text` an insertion.

use vstd::prelude::*;

use crate::keys::Key;

verus! {

/// One text replacement instruction, keyed by flat character offsets.
#[derive(Debug, Clone)]
pub struct TextChange {
    pub text: String,
    pub start: usize,
    pub end: usize,
}

/// The decimal digit character of `d`.
pub open spec fn digit_char(d: int) -> char {
    ((48 + d) as u8) as char
}

/// The lowercase hexadecimal digit character of `d`.
pub open spec fn hex_char(d: int) -> char {
    if d < 10 {
        ((48 + d) as u8) as char
    } else {
        ((87 + d) as u8) as char
    }
}

/// The canonical decimal rendering of a nonnegative number, no leading
/// zeros.
pub open spec fn dec_digits(n: int) -> Seq<char>
    recommends
        n >= 0,
    decreases n,
{
    if n < 10 {
        seq![digit_char(if n < 0 {
            0
        } else {
            n
        })]
    } else {
        dec_digits(n / 10).push(digit_char(n % 10))
    }
}

/// The JSON escaping of one character: quote, backslash and the control
/// characters are escaped, the common controls by their short forms and
/// the rest as `\u00XX` with lowercase hex digits; everything else stands
/// for itself.
pub open spec fn escape_char(c: char) -> Seq<char> {
    if c == '"' {
        seq!['\\', '"']
    } else if c == '\\' {
        seq!['\\', '\\']
    } else if c == '\n' {
        seq!['\\', 'n']
    } else if c == '\r' {
        seq!['\\', 'r']
    } else if c == '\t' {
        seq!['\\', 't']
    } else if c as u32 == 8 {
        seq!['\\', 'b']
    } else if c as u32 == 12 {
        seq!['\\', 'f']
    } else if (c as u32) < 32 {
        seq!['\\', 'u', '0', '0', hex_char(c as u32 as int / 16), hex_char(c as u32 as int % 16)]
    } else {
        seq![c]
    }
}

/// The JSON escaping of a whole text.
pub open spec fn escape_str(s: Seq<char>) -> Seq<char>
    decreases s.len(),
{
    if s.len() == 0 {
        Seq::empty()
    } else {
        escape_char(s[0]) + escape_str(s.drop_first())
    }
}

/// The one frame format of the wire: a JSON object with exactly the three
/// fields `text`, `start` and `end`, in that order, without spacing.
pub open spec fn encode_spec(text: Seq<char>, start: int, end: int) -> Seq<char> {
    "{\"text\":\""@ + escape_str(text) + "\",\"start\":"@ + dec_digits(start) + ",\"end\":"@
        + dec_digits(end) + "}"@
}

/// Append the canonical decimal rendering of `n`.
fn push_decimal(out: &mut String, n: usize)
    ensures
        final(out)@ == old(out)@ + dec_digits(n as int),
    decreases n,
{
    let ghost mid = out@;
    if n >= 10 {
        push_decimal(out, n / 10);
        proof {
            assert(dec_digits(n as int) == dec_digits(n as int / 10).push(
                digit_char(n as int % 10),
            ));
        }
    }
    let d: u8 = (n % 10) as u8;
    let cs = crate::buffer::char_string((48 + d) as char);
    out.append(cs.as_str());
    proof {
        assert(final(out)@ =~= mid + dec_digits(n as int));
    }
}

/// Append the JSON escaping of one character.
fn push_escaped_char(out: &mut String, c: char)
    ensures
        final(out)@ == old(out)@ + escape_char(c),
{
    let code = c as u32;
    if c == '"' {
        proof {
            reveal_strlit("\\\"");
            assert("\\\""@ =~= seq!['\\', '"']);
        }
        out.append("\\\"");
    } else if c == '\\' {
        proof {
            reveal_strlit("\\\\");
            assert("\\\\"@ =~= seq!['\\', '\\']);
        }
        out.append("\\\\");
    } else if c == '\n' {
        proof {
            reveal_strlit("\\n");
            assert("\\n"@ =~= seq!['\\', 'n']);
        }
        out.append("\\n");
    } else if c == '\r' {
        proof {
            reveal_strlit("\\r");
            assert("\\r"@ =~= seq!['\\', 'r']);
        }
        out.append("\\r");
    } else if c == '\t' {
        proof {
            reveal_strlit("\\t");
            assert("\\t"@ =~= seq!['\\', 't']);
        }
        out.append("\\t");
    } else if code == 8 {
        proof {
            reveal_strlit("\\b");
            assert("\\b"@ =~= seq!['\\', 'b']);
        }
        out.append("\\b");
    } else if code == 12 {
        proof {
            reveal_strlit("\\f");
            assert("\\f"@ =~= seq!['\\', 'f']);
        }
        out.append("\\f");
    } else if code < 32 {
        proof {
            reveal_strlit("\\u00");
            assert("\\u00"@ =~= seq!['\\', 'u', '0', '0']);
        }
        out.append("\\u00");
        let ghost mid = out@;
        let hi: u8 = (code / 16) as u8;
        let lo: u8 = (code % 16) as u8;
        let hc: char = if hi < 10 {
            (48 + hi) as char
        } else {
            (87 + hi) as char
        };
        let lc: char = if lo < 10 {
            (48 + lo) as char
        } else {
            (87 + lo) as char
        };
        let hs = crate::buffer::char_string(hc);
        out.append(hs.as_str());
        let ls = crate::buffer::char_string(lc);
        out.append(ls.as_str());
        proof {
            assert(final(out)@ =~= old(out)@ + escape_char(c));
        }
    } else {
        let cs = crate::buffer::char_string(c);
        out.append(cs.as_str());
        proof {
            assert(final(out)@ =~= old(out)@ + escape_char(c));
        }
    }
}

/// `escape_str` distributes over appending one character.
proof fn lemma_escape_push(s: Seq<char>, c: char)
    ensures
        escape_str(s.push(c)) == escape_str(s) + escape_char(c),
    decreases s.len(),
{
    let grown = s.push(c);
    if s.len() == 0 {
        assert(grown.drop_first() =~= Seq::<char>::empty());
        assert(grown[0] == c);
        assert(escape_str(grown) == escape_char(c) + escape_str(Seq::<char>::empty()));
        assert(escape_str(Seq::<char>::empty()) =~= Seq::<char>::empty());
        assert(escape_str(grown) =~= escape_str(s) + escape_char(c));
    } else {
        assert(grown[0] == s[0]);
        assert(grown.drop_first() =~= s.drop_first().push(c));
        lemma_escape_push(s.drop_first(), c);
        assert(escape_str(grown) == escape_char(s[0]) + (escape_str(s.drop_first())
            + escape_char(c)));
        assert(escape_str(grown) =~= escape_str(s) + escape_char(c));
    }
}

/// Append the JSON escaping of a whole text.
fn push_escaped(out: &mut String, s: &str)
    ensures
        final(out)@ == old(out)@ + escape_str(s@),
{
    let n = s.unicode_len();
    let mut i: usize = 0;
    proof {
        assert(s@.take(0) =~= Seq::<char>::empty());
        assert(out@ =~= out@ + escape_str(s@.take(0)));
    }
    while i < n
        invariant
            i <= n,
            n == s@.len(),
            out@ == old(out)@ + escape_str(s@.take(i as int)),
        decreases n - i,
    {
        let c = s.get_char(i);
        push_escaped_char(out, c);
        proof {
            assert(s@.take(i + 1) =~= s@.take(i as int).push(c));
            lemma_escape_push(s@.take(i as int), c);
        }
        i = i + 1;
    }
    proof {
        assert(s@.take(n as int) =~= s@);
    }
}

/// Serialize a patch as its wire frame.
pub fn encode_change(c: &TextChange) -> (r: String)
    ensures
        r@ == encode_spec(c.text@, c.start as int, c.end as int),
{
    let mut out = String::from_str("{\"text\":\"");
    push_escaped(&mut out, c.text.as_str());
    out.append("\",\"start\":");
    push_decimal(&mut out, c.start);
    out.append(",\"end\":");
    push_decimal(&mut out, c.end);
    out.append("}");
    proof {
        assert(out@ =~= encode_spec(c.text@, c.start as int, c.end as int));
    }
    out
}

/// Whether a character is a decimal digit.
pub open spec fn is_digit(c: char) -> bool {
    48 <= c as u32 && c as u32 <= 57
}

/// The value of a decimal digit character.
pub open spec fn digit_val(c: char) -> int {
    c as u32 - 48
}

/// Whether a character is a lowercase hexadecimal digit.
pub open spec fn is_hex(c: char) -> bool {
    is_digit(c) || (97 <= c as u32 && c as u32 <= 102)
}

/// The value of a lowercase hexadecimal digit character.
pub open spec fn hex_val(c: char) -> int {
    if is_digit(c) {
        digit_val(c)
    } else {
        c as u32 - 87
    }
}

/// The character a simple JSON escape denotes, if the letter after the
/// backslash is one.
pub open spec fn simple_unescape(e: char) -> Option<char> {
    if e == '"' {
        Some('"')
    } else if e == '\\' {
        Some('\\')
    } else if e == '/' {
        Some('/')
    } else if e == 'n' {
        Some('\n')
    } else if e == 'r' {
        Some('\r')
    } else if e == 't' {
        Some('\t')
    } else if e == 'b' {
        Some((8u8) as char)
    } else if e == 'f' {
        Some((12u8) as char)
    } else {
        None
    }
}

/// The decoded body of a JSON string up to its closing quote, and the
/// remainder after that quote. Accepts the simple escapes and the ASCII
/// `\u00XX` form; rejects raw control characters, a lone backslash, and a
/// missing closing quote.
pub open spec fn parse_string_body(s: Seq<char>) -> Option<(Seq<char>, Seq<char>)>
    decreases s.len(),
{
    if s.len() == 0 {
        None
    } else if s[0] == '"' {
        Some((Seq::empty(), s.drop_first()))
    } else if s[0] == '\\' {
        if s.len() < 2 {
            None
        } else if s[1] == 'u' {
            if s.len() >= 6 && is_hex(s[2]) && is_hex(s[3]) && is_hex(s[4]) && is_hex(s[5])
                && hex_val(s[2]) == 0 && hex_val(s[3]) == 0 && 16 * hex_val(s[4]) + hex_val(s[5])
                < 128 {
                match parse_string_body(s.skip(6)) {
                    Some(p) => Some(
                        (seq![(((16 * hex_val(s[4]) + hex_val(s[5])) as u8) as char)] + p.0, p.1),
                    ),
                    None => None,
                }
            } else {
                None
            }
        } else {
            match simple_unescape(s[1]) {
                Some(d) => match parse_string_body(s.skip(2)) {
                    Some(p) => Some((seq![d] + p.0, p.1)),
                    None => None,
                },
                None => None,
            }
        }
    } else if (s[0] as u32) < 32 {
        None
    } else {
        match parse_string_body(s.drop_first()) {
            Some(p) => Some((seq![s[0]] + p.0, p.1)),
            None => None,
        }
    }
}

/// The length of the leading run of decimal digits.
pub open spec fn digit_run(s: Seq<char>) -> int
    decreases s.len(),
{
    if s.len() == 0 || !is_digit(s[0]) {
        0
    } else {
        1 + digit_run(s.drop_first())
    }
}

/// The value of the first `k` characters read as decimal digits.
pub open spec fn digits_val(s: Seq<char>, k: int) -> int
    decreases k,
{
    if k <= 0 {
        0
    } else {
        digits_val(s, k - 1) * 10 + digit_val(s[k - 1])
    }
}

/// A canonical number and the remainder after it: the leading digit run,
/// rejected when empty, padded with a leading zero, or too large for
/// `usize`.
pub open spec fn parse_number(s: Seq<char>) -> Option<(int, Seq<char>)> {
    let k = digit_run(s);
    if k == 0 {
        None
    } else if k > 1 && s[0] == '0' {
        None
    } else if digits_val(s, k) > usize::MAX {
        None
    } else {
        Some((digits_val(s, k), s.skip(k)))
    }
}

/// The patch a wire frame denotes, if it is one: the three fields in
/// order, a JSON string then two canonical numbers, with nothing around
/// them. `None` exactly for every other text.
pub open spec fn parse_patch_spec(s: Seq<char>) -> Option<(Seq<char>, int, int)> {
    if s.len() < 9 || s.take(9) != "{\"text\":\""@ {
        None
    } else {
        match parse_string_body(s.skip(9)) {
            None => None,
            Some(p1) => {
                if p1.1.len() < 9 || p1.1.take(9) != ",\"start\":"@ {
                    None
                } else {
                    match parse_number(p1.1.skip(9)) {
                        None => None,
                        Some(p2) => {
                            if p2.1.len() < 7 || p2.1.take(7) != ",\"end\":"@ {
                                None
                            } else {
                                match parse_number(p2.1.skip(7)) {
                                    None => None,
                                    Some(p3) => {
                                        if p3.1 == seq!['}'] {
                                            Some((p1.0, p2.0, p3.0))
                                        } else {
                                            None
                                        }
                                    },
                                }
                            }
                        },
                    }
                }
            },
        }
    }
}

/// Whether the characters of `lit` stand in `s` at position `i`.
fn match_at(s: &str, i: usize, lit: &str) -> (r: bool)
    ensures
        r == (i + lit@.len() <= s@.len() && s@.subrange(i as int, i + lit@.len()) == lit@),
{
    let n = s.unicode_len();
    let m = lit.unicode_len();
    if i > n || m > n - i {
        return false;
    }
    let mut k: usize = 0;
    while k < m
        invariant
            k <= m,
            i + m <= n,
            n == s@.len(),
            m == lit@.len(),
            forall|j: int| 0 <= j < k ==> s@[i + j] == lit@[j],
        decreases m - k,
    {
        if s.get_char(i + k) != lit.get_char(k) {
            proof {
                assert(s@.subrange(i as int, i + lit@.len())[k as int] == s@[i + k]);
            }
            return false;
        }
        k = k + 1;
    }
    proof {
        assert(s@.subrange(i as int, i + lit@.len()) =~= lit@);
    }
    true
}

/// The value of a lowercase hexadecimal digit character, if it is one.
fn hex_digit(c: char) -> (r: Option<u8>)
    ensures
        r matches Some(v) ==> is_hex(c) && v == hex_val(c),
        r is None ==> !is_hex(c),
{
    let u = c as u32;
    if 48 <= u && u <= 57 {
        Some((u - 48) as u8)
    } else if 97 <= u && u <= 102 {
        Some((u - 87) as u8)
    } else {
        None
    }
}

/// Decode a JSON string body starting at `i`, returning the decoded text
/// and the position after the closing quote.
fn parse_string_at(s: &str, i: usize) -> (r: Option<(String, usize)>)
    requires
        i <= s@.len(),
    ensures
        r matches Some(p) ==> p.1 <= s@.len() && parse_string_body(s@.skip(i as int)) == Some(
            (p.0@, s@.skip(p.1 as int)),
        ),
        r is None ==> parse_string_body(s@.skip(i as int)) is None,
{
    let n = s.unicode_len();
    let mut acc = String::new();
    let mut j = i;
    loop
        invariant
            i <= j <= n,
            n == s@.len(),
            ({
                match parse_string_body(s@.skip(j as int)) {
                    Some(p) => parse_string_body(s@.skip(i as int)) == Some((acc@ + p.0, p.1)),
                    None => parse_string_body(s@.skip(i as int)) is None,
                }
            }),
        decreases n - j,
    {
        if j == n {
            proof {
                assert(s@.skip(n as int).len() == 0);
            }
            return None;
        }
        let c = s.get_char(j);
        let ghost tail = s@.skip(j as int);
        let ghost acc0 = acc@;
        proof {
            assert(tail[0] == s@[j as int]);
        }
        if c == '"' {
            proof {
                assert(parse_string_body(tail) == Some(
                    (Seq::<char>::empty(), tail.drop_first()),
                ));
                assert(tail.drop_first() =~= s@.skip(j + 1));
                assert(acc@ + Seq::<char>::empty() =~= acc@);
            }
            return Some((acc, j + 1));
        }
        if c == '\\' {
            if j + 1 == n {
                proof {
                    assert(tail.len() < 2);
                }
                return None;
            }
            let e = s.get_char(j + 1);
            proof {
                assert(tail[1] == s@[j + 1]);
            }
            if e == 'u' {
                if n - j < 6 {
                    proof {
                        assert(tail.len() < 6);
                    }
                    return None;
                }
                proof {
                    assert(tail[2] == s@[j + 2]);
                    assert(tail[3] == s@[j + 3]);
                    assert(tail[4] == s@[j + 4]);
                    assert(tail[5] == s@[j + 5]);
                }
                let h2 = hex_digit(s.get_char(j + 2));
                let h3 = hex_digit(s.get_char(j + 3));
                let h4 = hex_digit(s.get_char(j + 4));
                let h5 = hex_digit(s.get_char(j + 5));
                match (h2, h3, h4, h5) {
                    (Some(v2), Some(v3), Some(v4), Some(v5)) => {
                        if v2 == 0 && v3 == 0 && 16 * (v4 as u32) + (v5 as u32) < 128 {
                            let d: char = ((16 * v4 + v5) as u8) as char;
                            let ds = crate::buffer::char_string(d);
                            acc.append(ds.as_str());
                            proof {
                                assert(tail.skip(6) =~= s@.skip(j + 6));
                                if parse_string_body(s@.skip(j + 6)) is Some {
                                    let p = parse_string_body(s@.skip(j + 6)).unwrap();
                                    assert(parse_string_body(tail) == Some(
                                        (seq![d] + p.0, p.1),
                                    ));
                                    assert(acc0 + (seq![d] + p.0) =~= acc@ + p.0);
                                } else {
                                    assert(parse_string_body(tail) is None);
                                }
                            }
                            j = j + 6;
                        } else {
                            return None;
                        }
                    },
                    _ => {
                        return None;
                    },
                }
            } else {
                let d_opt: Option<char> = if e == '"' {
                    Some('"')
                } else if e == '\\' {
                    Some('\\')
                } else if e == '/' {
                    Some('/')
                } else if e == 'n' {
                    Some('\n')
                } else if e == 'r' {
                    Some('\r')
                } else if e == 't' {
                    Some('\t')
                } else if e == 'b' {
                    Some((8u8) as char)
                } else if e == 'f' {
                    Some((12u8) as char)
                } else {
                    None
                };
                match d_opt {
                    None => {
                        return None;
                    },
                    Some(d) => {
                        let ds = crate::buffer::char_string(d);
                        acc.append(ds.as_str());
                        proof {
                            assert(tail.skip(2) =~= s@.skip(j + 2));
                            if parse_string_body(s@.skip(j + 2)) is Some {
                                let p = parse_string_body(s@.skip(j + 2)).unwrap();
                                assert(parse_string_body(tail) == Some((seq![d] + p.0, p.1)));
                                assert(acc0 + (seq![d] + p.0) =~= acc@ + p.0);
                            } else {
                                assert(parse_string_body(tail) is None);
                            }
                        }
                        j = j + 2;
                    },
                }
            }
        } else if (c as u32) < 32 {
            return None;
        } else {
            let cs = crate::buffer::char_string(c);
            acc.append(cs.as_str());
            proof {
                assert(tail.drop_first() =~= s@.skip(j + 1));
                if parse_string_body(s@.skip(j + 1)) is Some {
                    let p = parse_string_body(s@.skip(j + 1)).unwrap();
                    assert(parse_string_body(tail) == Some((seq![c] + p.0, p.1)));
                    assert(acc0 + (seq![c] + p.0) =~= acc@ + p.0);
                } else {
                    assert(parse_string_body(tail) is None);
                }
            }
            j = j + 1;
        }
    }
}

/// The leading digit run of `t` has exactly the scanned length.
proof fn lemma_digit_run_is(t: Seq<char>, k: int)
    requires
        0 <= k <= t.len(),
        forall|j: int| 0 <= j < k ==> is_digit(t[j]),
        k < t.len() ==> !is_digit(t[k]),
    ensures
        digit_run(t) == k,
    decreases k,
{
    if k == 0 {
    } else {
        assert(is_digit(t[0]));
        lemma_digit_run_is(t.drop_first(), k - 1);
    }
}

/// Digit values are nonnegative and grow with the number of digits read.
proof fn lemma_digits_val_grows(t: Seq<char>, m: int, k: int)
    requires
        0 <= m <= k,
        forall|j: int| 0 <= j < k ==> is_digit(t[j]),
    ensures
        0 <= digits_val(t, m) <= digits_val(t, k),
    decreases k - m,
{
    lemma_digits_val_nonneg(t, m);
    if m < k {
        lemma_digits_val_grows(t, m, k - 1);
        lemma_digits_val_nonneg(t, k - 1);
        assert(is_digit(t[k - 1]));
        assert(digit_val(t[k - 1]) >= 0);
        assert(digits_val(t, k) == digits_val(t, k - 1) * 10 + digit_val(t[k - 1]));
        assert(digits_val(t, k - 1) * 10 >= digits_val(t, k - 1));
    }
}

/// Digit values are nonnegative.
proof fn lemma_digits_val_nonneg(t: Seq<char>, m: int)
    requires
        forall|j: int| 0 <= j < m ==> is_digit(#[trigger] t[j]),
    ensures
        digits_val(t, m) >= 0,
    decreases m,
{
    if m > 0 {
        lemma_digits_val_nonneg(t, m - 1);
        assert(is_digit(t[m - 1]));
        assert(digits_val(t, m - 1) * 10 >= digits_val(t, m - 1));
    }
}

/// Parse a canonical decimal number starting at `i`, returning its value
/// and the position after it.
fn parse_number_at(s: &str, i: usize) -> (r: Option<(usize, usize)>)
    requires
        i <= s@.len(),
    ensures
        r matches Some(p) ==> p.1 <= s@.len() && parse_number(s@.skip(i as int)) == Some(
            (p.0 as int, s@.skip(p.1 as int)),
        ),
        r is None ==> parse_number(s@.skip(i as int)) is None,
{
    let n = s.unicode_len();
    let ghost tail = s@.skip(i as int);
    let mut k: usize = 0;
    loop
        invariant_except_break
            k <= n - i,
            i <= n,
            n == s@.len(),
            tail == s@.skip(i as int),
            forall|j: int| 0 <= j < k ==> is_digit(#[trigger] tail[j]),
        ensures
            k <= n - i,
            forall|j: int| 0 <= j < k ==> is_digit(#[trigger] tail[j]),
            k < n - i ==> !is_digit(tail[k as int]),
        decreases n - i - k,
    {
        if i + k == n {
            break;
        }
        let c = s.get_char(i + k);
        proof {
            assert(tail[k as int] == s@[i + k]);
        }
        let u = c as u32;
        if !(48 <= u && u <= 57) {
            break;
        }
        k = k + 1;
    }
    proof {
        lemma_digit_run_is(tail, k as int);
    }
    if k == 0 {
        return None;
    }
    if k > 1 && s.get_char(i) == '0' {
        proof {
            assert(tail[0] == s@[i as int]);
        }
        return None;
    }
    proof {
        assert(tail[0] == s@[i as int]);
    }
    let mut v: usize = 0;
    let mut m: usize = 0;
    while m < k
        invariant
            m <= k,
            1 <= k <= n - i,
            i <= n,
            n == s@.len(),
            tail == s@.skip(i as int),
            forall|j: int| 0 <= j < k ==> is_digit(#[trigger] tail[j]),
            v == digits_val(tail, m as int),
            digit_run(tail) == k,
            !(k > 1 && tail[0] == '0'),
        decreases k - m,
    {
        let c = s.get_char(i + m);
        proof {
            assert(tail[m as int] == s@[i + m]);
            assert(is_digit(tail[m as int]));
        }
        let d = ((c as u32) - 48) as usize;
        if v > (usize::MAX - d) / 10 {
            proof {
                let q = (usize::MAX - d) / 10;
                assert(q * 10 + ((usize::MAX - d) % 10) == usize::MAX - d);
                assert(v * 10 >= (q + 1) * 10) by (nonlinear_arith)
                    requires
                        v >= q + 1,
                ;
                assert(digit_val(tail[m as int]) == d);
                assert(digits_val(tail, m + 1) == digits_val(tail, m as int) * 10 + digit_val(
                    tail[m as int],
                ));
                assert(digits_val(tail, m + 1) > usize::MAX);
                lemma_digits_val_grows(tail, m + 1, k as int);
            }
            return None;
        }
        proof {
            let q = (usize::MAX - d) / 10;
            assert(q * 10 + ((usize::MAX - d) % 10) == usize::MAX - d);
            assert(v * 10 <= q * 10) by (nonlinear_arith)
                requires
                    v <= q,
            ;
        }
        v = v * 10 + d;
        m = m + 1;
    }
    proof {
        assert(tail.skip(k as int) =~= s@.skip(i + k));
        lemma_digits_val_grows(tail, 0, k as int);
    }
    Some((v, i + k))
}

/// Deserialize a wire frame into a patch. Returns the patch exactly when
/// the frame is one of the wire format; every other text yields `None`
/// and is ignored by the caller.
pub fn parse_change(s: &str) -> (r: Option<TextChange>)
    ensures
        r matches Some(c) ==> parse_patch_spec(s@) == Some(
            (c.text@, c.start as int, c.end as int),
        ),
        r is None ==> parse_patch_spec(s@) is None,
{
    let n = s.unicode_len();
    proof {
        reveal_strlit("{\"text\":\"");
        reveal_strlit(",\"start\":");
        reveal_strlit(",\"end\":");
    }
    if !match_at(s, 0, "{\"text\":\"") {
        proof {
            if s@.len() >= 9 {
                assert(s@.subrange(0, 9) =~= s@.take(9));
            }
        }
        return None;
    }
    proof {
        assert(s@.subrange(0, 9) =~= s@.take(9));
    }
    let body = parse_string_at(s, 9);
    let (text, i1) = match body {
        Some(p) => p,
        None => {
            return None;
        },
    };
    let ghost r1 = s@.skip(i1 as int);
    if !match_at(s, i1, ",\"start\":") {
        proof {
            if r1.len() >= 9 {
                assert(s@.subrange(i1 as int, i1 + 9) =~= r1.take(9));
            }
        }
        return None;
    }
    proof {
        assert(s@.subrange(i1 as int, i1 + 9) =~= r1.take(9));
        assert(r1.skip(9) =~= s@.skip(i1 + 9));
    }
    let num1 = parse_number_at(s, i1 + 9);
    let (start, i2) = match num1 {
        Some(p) => p,
        None => {
            return None;
        },
    };
    let ghost r2 = s@.skip(i2 as int);
    if !match_at(s, i2, ",\"end\":") {
        proof {
            if r2.len() >= 7 {
                assert(s@.subrange(i2 as int, i2 + 7) =~= r2.take(7));
            }
        }
        return None;
    }
    proof {
        assert(s@.subrange(i2 as int, i2 + 7) =~= r2.take(7));
        assert(r2.skip(7) =~= s@.skip(i2 + 7));
    }
    let num2 = parse_number_at(s, i2 + 7);
    let (end, i3) = match num2 {
        Some(p) => p,
        None => {
            return None;
        },
    };
    let ghost r3 = s@.skip(i3 as int);
    if i3 < n && n - i3 == 1 && s.get_char(i3) == '}' {
        proof {
            assert(r3 =~= seq!['}']);
        }
        Some(TextChange { text, start, end })
    } else {
        proof {
            if r3 == seq!['}'] {
                assert(r3.len() == 1);
                assert(r3[0] == s@[i3 as int]);
            }
        }
        None
    }
}

/// Every character of a decimal rendering is a digit, and there is at
/// least one.
proof fn lemma_dec_digits_are_digits(n: int)
    requires
        n >= 0,
    ensures
        dec_digits(n).len() >= 1,
        forall|j: int| 0 <= j < dec_digits(n).len() ==> is_digit(#[trigger] dec_digits(n)[j]),
    decreases n,
{
    if n < 10 {
        assert(is_digit(digit_char(n)));
    } else {
        lemma_dec_digits_are_digits(n / 10);
        let d = dec_digits(n);
        assert forall|j: int| 0 <= j < d.len() implies is_digit(#[trigger] d[j]) by {
            if j < d.len() - 1 {
                assert(d[j] == dec_digits(n / 10)[j]);
            } else {
                assert(d[j] == digit_char(n % 10));
            }
        }
    }
}

/// A decimal rendering of more than one digit never starts with zero.
proof fn lemma_dec_digits_no_leading_zero(n: int)
    requires
        n >= 0,
    ensures
        n < 10 ==> dec_digits(n).len() == 1,
        n >= 1 ==> dec_digits(n)[0] != '0',
    decreases n,
{
    if n < 10 {
        if n >= 1 {
            assert(dec_digits(n)[0] == digit_char(n));
            assert(digit_char(n) as u32 == 48 + n);
            assert('0' as u32 == 48);
        }
    } else {
        lemma_dec_digits_no_leading_zero(n / 10);
        assert(dec_digits(n)[0] == dec_digits(n / 10)[0]);
        assert(n / 10 >= 1);
    }
}

/// Reading digits only looks at the first `k` characters.
proof fn lemma_digits_val_prefix(t: Seq<char>, u: Seq<char>, k: int)
    requires
        forall|j: int| 0 <= j < k ==> t[j] == u[j],
    ensures
        digits_val(t, k) == digits_val(u, k),
    decreases k,
{
    if k > 0 {
        lemma_digits_val_prefix(t, u, k - 1);
    }
}

/// Reading back a decimal rendering yields the rendered number.
proof fn lemma_dec_digits_val(n: int)
    requires
        n >= 0,
    ensures
        digits_val(dec_digits(n), dec_digits(n).len() as int) == n,
    decreases n,
{
    let d = dec_digits(n);
    if n < 10 {
        assert(digits_val(d, 1) == digits_val(d, 0) * 10 + digit_val(d[0]));
        assert(digit_val(digit_char(n)) == n);
    } else {
        lemma_dec_digits_val(n / 10);
        lemma_dec_digits_are_digits(n / 10);
        let prev = dec_digits(n / 10);
        let l = prev.len() as int;
        assert(d.len() == l + 1);
        assert(digits_val(d, l + 1) == digits_val(d, l) * 10 + digit_val(d[l]));
        assert forall|j: int| 0 <= j < l implies d[j] == prev[j] by {}
        lemma_digits_val_prefix(d, prev, l);
        assert(d[l] == digit_char(n % 10));
        assert(digit_val(digit_char(n % 10)) == n % 10);
    }
}

/// A decimal rendering followed by a non-digit parses back to the number.
proof fn lemma_parse_number_of_dec(n: int, rest: Seq<char>)
    requires
        0 <= n <= usize::MAX,
        rest.len() == 0 || !is_digit(rest[0]),
    ensures
        parse_number(dec_digits(n) + rest) == Some((n, rest)),
{
    let d = dec_digits(n);
    let s = d + rest;
    let l = d.len() as int;
    lemma_dec_digits_are_digits(n);
    assert forall|j: int| 0 <= j < l implies is_digit(#[trigger] s[j]) by {
        assert(s[j] == d[j]);
    }
    if l < s.len() {
        assert(s[l] == rest[0]);
    }
    lemma_digit_run_is(s, l);
    lemma_dec_digits_no_leading_zero(n);
    assert(s[0] == d[0]);
    if l > 1 {
        assert(s[0] != '0');
    }
    lemma_digits_val_prefix(s, d, l);
    lemma_dec_digits_val(n);
    assert(s.skip(l) =~= rest);
}

/// The value of a hexadecimal digit character round-trips.
proof fn lemma_hex_char_val(d: int)
    requires
        0 <= d < 16,
    ensures
        is_hex(hex_char(d)),
        hex_val(hex_char(d)) == d,
{
}

/// A character equals the character of its own code.
proof fn lemma_char_code_id(c: char)
    ensures
        ((c as u32) as char) == c,
{
}

/// An escaped text followed by a closing quote parses back to the text.
#[verifier::rlimit(50)]
proof fn lemma_parse_string_of_escape(t: Seq<char>, rest: Seq<char>)
    ensures
        parse_string_body(escape_str(t) + seq!['"'] + rest) == Some((t, rest)),
    decreases t.len(),
{
    let s = escape_str(t) + seq!['"'] + rest;
    if t.len() == 0 {
        assert(s[0] == '"');
        assert(s.drop_first() =~= rest);
        assert(t =~= Seq::<char>::empty());
        assert(parse_string_body(s) == Some((Seq::<char>::empty(), s.drop_first())));
    } else {
        let c = t[0];
        lemma_char_code_id(c);
        let e = escape_char(c);
        lemma_parse_string_of_escape(t.drop_first(), rest);
        let srest = escape_str(t.drop_first()) + seq!['"'] + rest;
        assert(escape_str(t) == e + escape_str(t.drop_first()));
        assert forall|j: int| 0 <= j < e.len() implies s[j] == e[j] by {}
        if c == '"' || c == '\\' || c == '\n' || c == '\r' || c == '\t' || c as u32 == 8
            || c as u32 == 12 {
            assert(e.len() == 2);
            assert(s[0] == '\\');
            assert(s[1] == e[1]);
            if c == '"' {
                assert(simple_unescape(s[1]) == Some(c));
            } else if c == '\\' {
                assert(simple_unescape(s[1]) == Some(c));
            } else if c == '\n' {
                assert(simple_unescape(s[1]) == Some(c));
            } else if c == '\r' {
                assert(simple_unescape(s[1]) == Some(c));
            } else if c == '\t' {
                assert(simple_unescape(s[1]) == Some(c));
            } else if c as u32 == 8 {
                assert(e[1] == 'b');
                assert(c == (8u8) as char);
                assert(simple_unescape(s[1]) == Some(c));
            } else {
                assert(e[1] == 'f');
                assert(c == (12u8) as char);
                assert(simple_unescape(s[1]) == Some(c));
            }
            assert(s.skip(2) =~= srest);
            assert(seq![c] + t.drop_first() =~= t);
        } else if (c as u32) < 32 {
            let code = c as u32 as int;
            assert(e == seq!['\\', 'u', '0', '0', hex_char(code / 16), hex_char(code % 16)]);
            assert(s[0] == '\\' && s[1] == 'u');
            assert(s[2] == e[2] && s[3] == e[3] && s[4] == e[4] && s[5] == e[5]);
            assert(s[2] == '0' && s[3] == '0');
            assert(is_hex('0') && hex_val('0') == 0);
            assert(0 <= code < 32);
            assert(code == 16 * (code / 16) + (code % 16));
            lemma_hex_char_val(code / 16);
            lemma_hex_char_val(code % 16);
            assert(s[4] == hex_char(code / 16) && s[5] == hex_char(code % 16));
            assert(16 * hex_val(s[4]) + hex_val(s[5]) == code);
            assert(((code as u8) as char) == c);
            assert(s.skip(6) =~= srest);
            assert(seq![c] + t.drop_first() =~= t);
        } else {
            assert(e == seq![c]);
            assert(s[0] == c);
            assert(s[0] != '"' && s[0] != '\\' && !((s[0] as u32) < 32));
            assert(s.drop_first() =~= srest);
            assert(seq![c] + t.drop_first() =~= t);
        }
    }
}

/// The wire round trip: a frame encoded from any patch parses back to
/// exactly that patch.
pub proof fn lemma_wire_roundtrip(text: Seq<char>, start: int, end: int)
    requires
        0 <= start <= usize::MAX,
        0 <= end <= usize::MAX,
    ensures
        parse_patch_spec(encode_spec(text, start, end)) == Some((text, start, end)),
{
    reveal_strlit("{\"text\":\"");
    reveal_strlit("\",\"start\":");
    reveal_strlit(",\"start\":");
    reveal_strlit(",\"end\":");
    reveal_strlit("}");
    let s = encode_spec(text, start, end);
    let pre = "{\"text\":\""@;
    let tail1 = ",\"start\":"@ + dec_digits(start) + ",\"end\":"@ + dec_digits(end) + "}"@;
    assert("\",\"start\":"@ =~= seq!['"'] + ",\"start\":"@);
    assert(s =~= pre + (escape_str(text) + seq!['"'] + tail1));
    assert(s.len() >= 9);
    assert(s.take(9) =~= pre);
    assert(s.skip(9) =~= escape_str(text) + seq!['"'] + tail1);
    lemma_parse_string_of_escape(text, tail1);
    assert(parse_string_body(s.skip(9)) == Some((text, tail1)));
    lemma_dec_digits_are_digits(start);
    lemma_dec_digits_are_digits(end);
    assert(tail1.len() >= 9);
    assert(tail1.take(9) =~= ",\"start\":"@);
    let tail2 = ",\"end\":"@ + dec_digits(end) + "}"@;
    assert(tail1.skip(9) =~= dec_digits(start) + tail2);
    assert(tail2[0] == ',');
    assert(!is_digit(','));
    lemma_parse_number_of_dec(start, tail2);
    assert(parse_number(tail1.skip(9)) == Some((start, tail2)));
    assert(tail2.take(7) =~= ",\"end\":"@);
    let tail3 = "}"@;
    assert(tail2.skip(7) =~= dec_digits(end) + tail3);
    assert(tail3[0] == '}');
    assert(!is_digit('}'));
    lemma_parse_number_of_dec(end, tail3);
    assert(parse_number(tail2.skip(7)) == Some((end, tail3)));
    assert(tail3 =~= seq!['}']);
}

/// The text an outbound patch carries for a keystroke: the inserted
/// character, a line break for Enter, and the empty text for deletions.
pub open spec fn outbound_text(key: Key) -> Seq<char> {
    match key {
        Key::Char(c) => seq![c],
        Key::Enter => seq!['\n'],
        _ => Seq::empty(),
    }
}

/// Build the outbound patch for the key that just changed the document,
/// given the flat cursor offset after applying it. For an insertion the
/// replaced range starts one before the new cursor; for a deletion it
/// starts at the cursor itself.
pub fn outbound_change(key: &Key, post_offset: usize) -> (r: TextChange)
    requires
        (key matches Key::Char(_) || key matches Key::Enter) ==> post_offset >= 1,
        post_offset < usize::MAX,
    ensures
        r.text@ == outbound_text(*key),
        (key matches Key::Char(_) || key matches Key::Enter) ==> r.start == post_offset - 1,
        !(key matches Key::Char(_) || key matches Key::Enter) ==> r.start == post_offset,
        r.end == r.start + 1,
{
    let text: String = match key {
        Key::Char(c) => crate::buffer::char_string(*c),
        Key::Enter => {
            proof {
                reveal_strlit("\n");
                assert("\n"@ =~= seq!['\n']);
            }
            String::from_str("\n")
        },
        _ => String::new(),
    };
    let start = if text.as_str().unicode_len() > 0 {
        post_offset - 1
    } else {
        post_offset
    };
    TextChange { text, start, end: start + 1 }
}

} // verus!
