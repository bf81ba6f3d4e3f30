//! JSON literals, as written inside `const(...)`.
use vstd::prelude::*;
use crate::path::{is_digit, all_digits, digits_value, lemma_digits_value_mono};
use crate::text::{push_char, string_of};
use crate::value::{JNum, Json, Number, Value, view_seq, view_entries, lemma_view_seq};
use crate::setter::put;

verus! {

/// Relies on `char::from_u32`: the character with code `u`, where `u` is a Unicode scalar value.
#[verifier::external_body]
fn char_from_u32(u: u32) -> (r: Option<char>)
    ensures
        r is Some <==> (u < 0xd800 || (0xe000 <= u && u <= 0x10ffff)),
        r matches Some(c) ==> c as u32 == u && c == char_of(u as nat),
{
    char::from_u32(u)
}

/// The character with code `u`.
pub open spec fn char_of(u: nat) -> char {
    choose|c: char| #[trigger] (c as u32) == u
}

pub open spec fn is_ws(c: char) -> bool {
    c == ' ' || c == '\t' || c == '\n' || c == '\r'
}

/// First position at or after `i` that is not JSON whitespace.
pub open spec fn skip_ws(s: Seq<char>, i: int) -> int
    decreases s.len() - i,
{
    if 0 <= i < s.len() && is_ws(s[i]) { skip_ws(s, i + 1) } else { i }
}

/// First position at or after `i` that is not a decimal digit.
pub open spec fn digits_end(s: Seq<char>, i: int) -> int
    decreases s.len() - i,
{
    if 0 <= i < s.len() && is_digit(s[i]) { digits_end(s, i + 1) } else { i }
}

pub open spec fn hex_val(c: char) -> Option<nat> {
    if '0' <= c && c <= '9' {
        Some((c as nat - '0' as nat) as nat)
    } else if 'a' <= c && c <= 'f' {
        Some((c as nat - 'a' as nat + 10) as nat)
    } else if 'A' <= c && c <= 'F' {
        Some((c as nat - 'A' as nat + 10) as nat)
    } else {
        None
    }
}

/// Four hex digits at `j`.
pub open spec fn hex4(s: Seq<char>, j: int) -> Option<nat> {
    if 0 <= j && j + 4 <= s.len() && hex_val(s[j]) is Some && hex_val(s[j + 1]) is Some
        && hex_val(s[j + 2]) is Some && hex_val(s[j + 3]) is Some {
        Some(hex_val(s[j])->0 * 4096 + hex_val(s[j + 1])->0 * 256 + hex_val(s[j + 2])->0 * 16
            + hex_val(s[j + 3])->0)
    } else {
        None
    }
}

pub open spec fn simple_escape(e: char) -> Option<char> {
    if e == '"' { Some('"') }
    else if e == '\\' { Some('\\') }
    else if e == '/' { Some('/') }
    else if e == 'b' { Some('\x08') }
    else if e == 'f' { Some('\x0c') }
    else if e == 'n' { Some('\n') }
    else if e == 'r' { Some('\r') }
    else if e == 't' { Some('\t') }
    else { None }
}

/// The rest of a string literal from `j` (after its opening quote), with the
/// characters `acc` read so far: the characters and the position after the closing quote.
pub open spec fn str_body(s: Seq<char>, j: int, acc: Seq<char>) -> Option<(Seq<char>, int)>
    decreases s.len() - j,
{
    if j < 0 || j >= s.len() {
        None
    } else if s[j] == '"' {
        Some((acc, j + 1))
    } else if s[j] == '\\' {
        if j + 1 >= s.len() {
            None
        } else if s[j + 1] == 'u' {
            match hex4(s, j + 2) {
                None => None,
                Some(u) => if 0xd800 <= u && u < 0xdc00 {
                    if j + 7 < s.len() && s[j + 6] == '\\' && s[j + 7] == 'u' {
                        match hex4(s, j + 8) {
                            Some(l) => if 0xdc00 <= l && l < 0xe000 {
                                str_body(s, j + 12, acc.push(char_of((0x10000 + (u - 0xd800) * 1024 + (l - 0xdc00)) as nat)))
                            } else {
                                None
                            },
                            None => None,
                        }
                    } else {
                        None
                    }
                } else if 0xdc00 <= u && u < 0xe000 {
                    None
                } else {
                    str_body(s, j + 6, acc.push(char_of(u)))
                },
            }
        } else {
            match simple_escape(s[j + 1]) {
                Some(x) => str_body(s, j + 2, acc.push(x)),
                None => None,
            }
        }
    } else if (s[j] as u32) < 0x20 {
        None
    } else {
        str_body(s, j + 1, acc.push(s[j]))
    }
}

/// The canonical text that serde_json gives the number written `t`, or
/// nothing where serde_json refuses it (out of range).
pub uninterp spec fn float_text(t: Seq<char>) -> Option<Seq<char>>;

/// Relies on `serde_json::from_str::<serde_json::Number>` and the number's
/// `Display`: the canonical text of a number literal that is not an `i64` or
/// a `u64`, or nothing where serde_json refuses the literal.
#[verifier::external_body]
fn canonical_number(text: &str) -> (r: Option<String>)
    ensures
        match r {
            Some(c) => float_text(text@) == Some(c@),
            None => float_text(text@) is None,
        },
{
    match serde_json::from_str::<serde_json::Number>(text) {
        Ok(n) => Some(n.to_string()),
        Err(_) => None,
    }
}

/// A floating number written `t` and ending at `end`, in canonical text.
pub open spec fn float_at(t: Seq<char>, end: int) -> Option<(Json, int)> {
    match float_text(t) {
        Some(c) => Some((Json::Number(JNum::Float(c)), end)),
        None => None,
    }
}

fn float_exec(s: &Vec<char>, i: usize, e: usize) -> (r: Option<(Value, usize)>)
    requires
        i <= e <= s@.len(),
    ensures
        match r {
            Some((v, k)) => float_at(s@.subrange(i as int, e as int), e as int) == Some((v@, k as int)),
            None => float_at(s@.subrange(i as int, e as int), e as int) is None,
        },
{
    let t = string_of(s, i, e);
    match canonical_number(t.as_str()) {
        Some(c) => Some((Value::Number(Number::Float(c)), e)),
        None => None,
    }
}

/// An integer literal: its value where it fits an `i64` (negative) or a `u64`.
pub open spec fn int_at(s: Seq<char>, i: int, j0: int, e1: int) -> Option<(Json, int)> {
    let m = digits_value(s.subrange(j0, e1));
    let neg = s[i] == '-';
    if neg && 0 < m && m <= 0x8000_0000_0000_0000 {
        Some((Json::Number(JNum::NegInt((-m) as i64)), e1))
    } else if !neg && m <= u64::MAX {
        Some((Json::Number(JNum::PosInt(m as u64)), e1))
    } else {
        float_at(s.subrange(i, e1), e1)
    }
}

/// A number literal at `i`: integers that fit keep their value, every other
/// number takes the canonical text of a float.
pub open spec fn number_at(s: Seq<char>, i: int) -> Option<(Json, int)> {
    let neg = 0 <= i < s.len() && s[i] == '-';
    let j0 = if neg { i + 1 } else { i };
    if j0 < 0 || j0 >= s.len() || !is_digit(s[j0]) {
        None
    } else {
        let e1 = if s[j0] == '0' { j0 + 1 } else { digits_end(s, j0) };
        let frac = e1 < s.len() && s[e1] == '.';
        let e2 = if frac { digits_end(s, e1 + 1) } else { e1 };
        let expo = e2 < s.len() && (s[e2] == 'e' || s[e2] == 'E');
        let k = if expo && e2 + 1 < s.len() && (s[e2 + 1] == '+' || s[e2 + 1] == '-') { e2 + 2 } else { e2 + 1 };
        let e3 = if expo { digits_end(s, k) } else { e2 };
        if (frac && e2 == e1 + 1) || (expo && e3 == k) {
            None
        } else if !frac && !expo {
            int_at(s, i, j0, e1)
        } else {
            float_at(s.subrange(i, e3), e3)
        }
    }
}

pub open spec fn word_at(s: Seq<char>, i: int, w: Seq<char>) -> bool {
    0 <= i && i + w.len() <= s.len() && s.subrange(i, i + w.len()) == w
}

/// A JSON value starting at `i` (no leading whitespace), and the position after it.
pub open spec fn value_at(s: Seq<char>, i: int) -> Option<(Json, int)>
    decreases s.len() - i, 0int,
{
    if i < 0 || i >= s.len() {
        None
    } else if s[i] == 'n' {
        if word_at(s, i, seq!['n', 'u', 'l', 'l']) { Some((Json::Null, i + 4)) } else { None }
    } else if s[i] == 't' {
        if word_at(s, i, seq!['t', 'r', 'u', 'e']) { Some((Json::Bool(true), i + 4)) } else { None }
    } else if s[i] == 'f' {
        if word_at(s, i, seq!['f', 'a', 'l', 's', 'e']) { Some((Json::Bool(false), i + 5)) } else { None }
    } else if s[i] == '"' {
        match str_body(s, i + 1, seq![]) {
            Some((t, k)) => Some((Json::Str(t), k)),
            None => None,
        }
    } else if s[i] == '[' {
        let j = skip_ws(s, i + 1);
        if j < i + 1 || j > s.len() {
            None
        } else if j < s.len() && s[j] == ']' {
            Some((Json::Array(seq![]), j + 1))
        } else {
            match items_at(s, j, seq![]) {
                Some((a, k)) => Some((Json::Array(a), k)),
                None => None,
            }
        }
    } else if s[i] == '{' {
        let j = skip_ws(s, i + 1);
        if j < i + 1 || j > s.len() {
            None
        } else if j < s.len() && s[j] == '}' {
            Some((Json::Object(seq![]), j + 1))
        } else {
            match members_at(s, j, seq![]) {
                Some((e, k)) => Some((Json::Object(e), k)),
                None => None,
            }
        }
    } else {
        number_at(s, i)
    }
}

/// Array elements from `j`, after the elements `acc`: the elements and the position after `]`.
pub open spec fn items_at(s: Seq<char>, j: int, acc: Seq<Json>) -> Option<(Seq<Json>, int)>
    decreases s.len() - j, 1int,
{
    if j < 0 || j >= s.len() {
        None
    } else {
        match value_at(s, j) {
            None => None,
            Some((v, k)) => if k <= j {
                None
            } else {
                let m = skip_ws(s, k);
                if m < k || m >= s.len() {
                    None
                } else if s[m] == ']' {
                    Some((acc.push(v), m + 1))
                } else if s[m] == ',' {
                    let n = skip_ws(s, m + 1);
                    if n <= m || n > s.len() { None } else { items_at(s, n, acc.push(v)) }
                } else {
                    None
                }
            },
        }
    }
}

/// Object members from `j`, after the entries `acc`: the entries and the position
/// after `}`. A repeated key keeps its first place and takes the later value.
pub open spec fn members_at(s: Seq<char>, j: int, acc: Seq<(Seq<char>, Json)>) -> Option<(Seq<(Seq<char>, Json)>, int)>
    decreases s.len() - j, 1int,
{
    if j < 0 || j >= s.len() || s[j] != '"' {
        None
    } else {
        match str_body(s, j + 1, seq![]) {
            None => None,
            Some((key, k1)) => {
                let c = skip_ws(s, k1);
                if c <= j || c >= s.len() || s[c] != ':' {
                    None
                } else {
                    let vpos = skip_ws(s, c + 1);
                    if vpos <= j || vpos > s.len() {
                        None
                    } else {
                        match value_at(s, vpos) {
                            None => None,
                            Some((v, k)) => if k <= j {
                                None
                            } else {
                                let m = skip_ws(s, k);
                                if m < k || m >= s.len() {
                                    None
                                } else if s[m] == '}' {
                                    Some((put(acc, key, v), m + 1))
                                } else if s[m] == ',' {
                                    let n = skip_ws(s, m + 1);
                                    if n <= m || n > s.len() { None } else { members_at(s, n, put(acc, key, v)) }
                                } else {
                                    None
                                }
                            },
                        }
                    }
                }
            },
        }
    }
}

/// The value that the whole of `s` writes, surrounded by optional whitespace.
pub open spec fn literal(s: Seq<char>) -> Option<Json> {
    let i = skip_ws(s, 0);
    match value_at(s, i) {
        Some((v, k)) => if skip_ws(s, k) == s.len() { Some(v) } else { None },
        None => None,
    }
}

fn skip_ws_exec(s: &Vec<char>, i: usize) -> (r: usize)
    requires
        i <= s@.len(),
    ensures
        r as int == skip_ws(s@, i as int),
        i <= r <= s@.len(),
{
    let mut j = i;
    while j < s.len() && (s[j] == ' ' || s[j] == '\t' || s[j] == '\n' || s[j] == '\r')
        invariant
            i <= j <= s@.len(),
            skip_ws(s@, i as int) == skip_ws(s@, j as int),
        decreases s.len() - j,
    {
        j = j + 1;
    }
    j
}

fn digits_end_exec(s: &Vec<char>, i: usize) -> (r: usize)
    requires
        i <= s@.len(),
    ensures
        r as int == digits_end(s@, i as int),
        i <= r <= s@.len(),
        forall|x: int| i <= x < r ==> is_digit(#[trigger] s@[x]),
        (i < s@.len() && is_digit(s@[i as int])) ==> r > i,
{
    let mut j = i;
    while j < s.len() && '0' <= s[j] && s[j] <= '9'
        invariant
            i <= j <= s@.len(),
            digits_end(s@, i as int) == digits_end(s@, j as int),
            forall|x: int| i <= x < j ==> is_digit(#[trigger] s@[x]),
        decreases s.len() - j,
    {
        j = j + 1;
    }
    j
}

fn hex_val_exec(c: char) -> (r: Option<u32>)
    ensures
        match r {
            Some(v) => hex_val(c) == Some(v as nat) && v < 16,
            None => hex_val(c) is None,
        },
{
    if '0' <= c && c <= '9' {
        Some(c as u32 - '0' as u32)
    } else if 'a' <= c && c <= 'f' {
        Some(c as u32 - 'a' as u32 + 10)
    } else if 'A' <= c && c <= 'F' {
        Some(c as u32 - 'A' as u32 + 10)
    } else {
        None
    }
}

fn hex4_exec(s: &Vec<char>, j: usize) -> (r: Option<u32>)
    ensures
        match r {
            Some(u) => hex4(s@, j as int) == Some(u as nat) && u < 0x10000,
            None => hex4(s@, j as int) is None,
        },
{
    if j > s.len() || s.len() - j < 4 {
        return None;
    }
    let a = match hex_val_exec(s[j]) { Some(v) => v, None => { return None; } };
    let b = match hex_val_exec(s[j + 1]) { Some(v) => v, None => { return None; } };
    let c = match hex_val_exec(s[j + 2]) { Some(v) => v, None => { return None; } };
    let d = match hex_val_exec(s[j + 3]) { Some(v) => v, None => { return None; } };
    Some(a * 4096 + b * 256 + c * 16 + d)
}

fn simple_escape_exec(e: char) -> (r: Option<char>)
    ensures
        r == simple_escape(e),
{
    if e == '"' { Some('"') }
    else if e == '\\' { Some('\\') }
    else if e == '/' { Some('/') }
    else if e == 'b' { Some('\x08') }
    else if e == 'f' { Some('\x0c') }
    else if e == 'n' { Some('\n') }
    else if e == 'r' { Some('\r') }
    else if e == 't' { Some('\t') }
    else { None }
}

fn str_body_exec(s: &Vec<char>, j0: usize) -> (r: Option<(String, usize)>)
    requires
        j0 <= s@.len(),
    ensures
        match r {
            Some((t, k)) => str_body(s@, j0 as int, seq![]) == Some((t@, k as int)) && j0 < k <= s@.len(),
            None => str_body(s@, j0 as int, seq![]) is None,
        },
{
    let mut acc = String::new();
    let mut j = j0;
    let n = s.len();
    while j < n
        invariant
            j0 <= j <= n == s@.len(),
            str_body(s@, j0 as int, seq![]) == str_body(s@, j as int, acc@),
        decreases n - j,
    {
        let c = s[j];
        if c == '"' {
            return Some((acc, j + 1));
        } else if c == '\\' {
            if j + 1 >= n {
                return None;
            }
            if s[j + 1] == 'u' {
                let u = match hex4_exec(s, j + 2) { Some(u) => u, None => { return None; } };
                if 0xd800 <= u && u < 0xdc00 {
                    if n - j > 7 && s[j + 6] == '\\' && s[j + 7] == 'u' {
                        let l = match hex4_exec(s, j + 8) { Some(l) => l, None => { return None; } };
                        if 0xdc00 <= l && l < 0xe000 {
                            let code: u32 = 0x10000 + (u - 0xd800) * 1024 + (l - 0xdc00);
                            match char_from_u32(code) {
                                Some(ch) => {
                                    push_char(&mut acc, ch);
                                    assert(ch as u32 == code);
                                    assert(char_of(code as nat) == ch);
                                },
                                None => {
                                    return None;
                                },
                            }
                            j = j + 12;
                        } else {
                            return None;
                        }
                    } else {
                        return None;
                    }
                } else if 0xdc00 <= u && u < 0xe000 {
                    return None;
                } else {
                    match char_from_u32(u) {
                        Some(ch) => {
                            push_char(&mut acc, ch);
                            assert(ch as u32 == u);
                            assert(char_of(u as nat) == ch);
                        },
                        None => {
                            return None;
                        },
                    }
                    j = j + 6;
                }
            } else {
                match simple_escape_exec(s[j + 1]) {
                    Some(x) => {
                        push_char(&mut acc, x);
                        j = j + 2;
                    },
                    None => {
                        return None;
                    },
                }
            }
        } else if (c as u32) < 0x20 {
            return None;
        } else {
            push_char(&mut acc, c);
            j = j + 1;
        }
    }
    None
}

/// The value of the digits `s[a..b]`, or nothing where it exceeds `u64::MAX`.
fn magnitude(s: &Vec<char>, a: usize, b: usize) -> (r: Option<u64>)
    requires
        a <= b <= s@.len(),
        all_digits(s@.subrange(a as int, b as int)),
    ensures
        match r {
            Some(m) => m as nat == digits_value(s@.subrange(a as int, b as int)),
            None => digits_value(s@.subrange(a as int, b as int)) > u64::MAX,
        },
{
    let ghost d = s@.subrange(a as int, b as int);
    let mut m: u64 = 0;
    let mut x = a;
    assert(s@.subrange(a as int, a as int) =~= seq![]);
    while x < b
        invariant
            a <= x <= b <= s@.len(),
            d == s@.subrange(a as int, b as int),
            all_digits(d),
            m as nat == digits_value(s@.subrange(a as int, x as int)),
        decreases b - x,
    {
        let ghost p = s@.subrange(a as int, x + 1);
        assert(p.drop_last() =~= s@.subrange(a as int, x as int));
        assert(is_digit(d[x - a]));
        assert(d[x - a] == s@[x as int]);
        let dv = (s[x] as u32 - '0' as u32) as u64;
        if m > (u64::MAX - dv) / 10 {
            proof {
                assert(m * 10 + dv > u64::MAX) by (nonlinear_arith)
                    requires m > (u64::MAX - dv) / 10, dv <= 9;
                lemma_digits_value_mono(d, (x + 1 - a) as int);
                assert(d.subrange(0, x + 1 - a) =~= p);
            }
            return None;
        }
        assert(m * 10 + dv <= u64::MAX) by (nonlinear_arith)
            requires m <= (u64::MAX - dv) / 10, dv <= 9;
        m = m * 10 + dv;
        x = x + 1;
    }
    assert(s@.subrange(a as int, x as int) =~= d);
    Some(m)
}

/// An integer literal `s[i..e1]` whose digits are `s[j0..e1]`.
fn int_literal(s: &Vec<char>, i: usize, j0: usize, e1: usize, neg: bool) -> (r: Option<(Value, usize)>)
    requires
        i <= j0 < e1 <= s@.len(),
        neg == (s@[i as int] == '-'),
        j0 == (if neg { i + 1 } else { i as int }),
        all_digits(s@.subrange(j0 as int, e1 as int)),
    ensures
        match r {
            Some((v, k)) => int_at(s@, i as int, j0 as int, e1 as int) == Some((v@, k as int)),
            None => int_at(s@, i as int, j0 as int, e1 as int) is None,
        },
{
    let big_m = magnitude(s, j0, e1);
    match big_m {
        Some(m) => {
            if neg && 0 < m && m <= 0x8000_0000_0000_0000 {
                let v: i64 = if m == 0x8000_0000_0000_0000 { i64::MIN } else { 0 - (m as i64) };
                Some((Value::Number(Number::NegInt(v)), e1))
            } else if !neg {
                Some((Value::Number(Number::PosInt(m)), e1))
            } else {
                float_exec(s, i, e1)
            }
        },
        None => float_exec(s, i, e1),
    }
}

#[verifier::rlimit(60)]
fn number_exec(s: &Vec<char>, i: usize) -> (r: Option<(Value, usize)>)
    requires
        i < s@.len(),
    ensures
        match r {
            Some((v, k)) => number_at(s@, i as int) == Some((v@, k as int)) && i < k <= s@.len(),
            None => number_at(s@, i as int) is None,
        },
{
    let n = s.len();
    let neg = s[i] == '-';
    let j0 = if neg { i + 1 } else { i };
    if j0 >= n || !('0' <= s[j0] && s[j0] <= '9') {
        return None;
    }
    let e1 = if s[j0] == '0' { j0 + 1 } else { digits_end_exec(s, j0) };
    let frac = e1 < n && s[e1] == '.';
    let e2 = if frac { digits_end_exec(s, e1 + 1) } else { e1 };
    let expo = e2 < n && (s[e2] == 'e' || s[e2] == 'E');
    let k = if expo && n - e2 > 1 && (s[e2 + 1] == '+' || s[e2 + 1] == '-') { e2 + 2 } else if expo { e2 + 1 } else { e2 };
    let e3 = if expo { digits_end_exec(s, k) } else { e2 };
    if (frac && e2 == e1 + 1) || (expo && e3 == k) {
        return None;
    }
    if !frac && !expo {
        let ghost d = s@.subrange(j0 as int, e1 as int);
        assert(all_digits(d)) by {
            assert forall|x: int| 0 <= x < d.len() implies is_digit(#[trigger] d[x]) by {
                assert(d[x] == s@[j0 + x]);
            }
        }
        return int_literal(s, i, j0, e1, neg);
    }
    float_exec(s, i, e3)
}

fn word_exec(s: &Vec<char>, i: usize, w: &str) -> (r: bool)
    ensures
        r == word_at(s@, i as int, w@),
{
    let wc = crate::text::chars_of(w);
    let n = s.len();
    if i > n || n - i < wc.len() {
        return false;
    }
    let mut x: usize = 0;
    while x < wc.len()
        invariant
            x <= wc@.len(),
            wc@ == w@,
            n == s@.len(),
            i + wc@.len() <= n,
            forall|y: int| 0 <= y < x ==> s@[i + y] == wc@[y],
        decreases wc.len() - x,
    {
        if s[i + x] != wc[x] {
            assert(s@.subrange(i as int, i + w@.len())[x as int] != w@[x as int]);
            return false;
        }
        x = x + 1;
    }
    assert(s@.subrange(i as int, i + w@.len()) =~= w@);
    true
}

fn value_exec(s: &Vec<char>, i: usize) -> (r: Option<(Value, usize)>)
    requires
        i <= s@.len(),
    ensures
        match r {
            Some((v, k)) => value_at(s@, i as int) == Some((v@, k as int)) && i < k <= s@.len(),
            None => value_at(s@, i as int) is None,
        },
    decreases s@.len() - i,
{
    let n = s.len();
    if i >= n {
        return None;
    }
    let c = s[i];
    if c == 'n' {
        let ok = word_exec(s, i, "null");
        proof { reveal_strlit("null"); }
        assert("null"@ =~= seq!['n', 'u', 'l', 'l']);
        if ok { Some((Value::Null, i + 4)) } else { None }
    } else if c == 't' {
        let ok = word_exec(s, i, "true");
        proof { reveal_strlit("true"); }
        assert("true"@ =~= seq!['t', 'r', 'u', 'e']);
        if ok { Some((Value::Bool(true), i + 4)) } else { None }
    } else if c == 'f' {
        let ok = word_exec(s, i, "false");
        proof { reveal_strlit("false"); }
        assert("false"@ =~= seq!['f', 'a', 'l', 's', 'e']);
        if ok { Some((Value::Bool(false), i + 5)) } else { None }
    } else if c == '"' {
        match str_body_exec(s, i + 1) {
            Some((t, k)) => Some((Value::String(t), k)),
            None => None,
        }
    } else if c == '[' {
        let j0 = skip_ws_exec(s, i + 1);
        if j0 < n && s[j0] == ']' {
            assert(view_seq(Seq::<Value>::empty()) =~= seq![]);
            return Some((Value::Array(Vec::new()), j0 + 1));
        }
        let mut acc: Vec<Value> = Vec::new();
        let mut j = j0;
        assert(view_seq(acc@) =~= seq![]);
        loop
            invariant
                i < j0 <= j <= n == s@.len(),
                !(j0 < n && s@[j0 as int] == ']'),
                value_at(s@, i as int) == (match items_at(s@, j0 as int, seq![]) {
                    Some((a, k)) => Some((Json::Array(a), k)),
                    None => None,
                }),
                items_at(s@, j0 as int, seq![]) == items_at(s@, j as int, view_seq(acc@)),
            decreases n - j,
        {
            if j >= n {
                return None;
            }
            let (v, k) = match value_exec(s, j) {
                Some(x) => x,
                None => {
                    return None;
                },
            };
            let m = skip_ws_exec(s, k);
            if m >= n {
                return None;
            }
            proof { lemma_view_seq(acc@); lemma_view_seq(acc@.push(v)); }
            let ghost av = view_seq(acc@);
            if s[m] == ']' {
                acc.push(v);
                assert(view_seq(acc@) =~= av.push(v@));
                return Some((Value::Array(acc), m + 1));
            } else if s[m] == ',' {
                let nx = skip_ws_exec(s, m + 1);
                acc.push(v);
                assert(view_seq(acc@) =~= av.push(v@));
                j = nx;
            } else {
                return None;
            }
        }
    } else if c == '{' {
        let j0 = skip_ws_exec(s, i + 1);
        if j0 < n && s[j0] == '}' {
            assert(view_entries(Seq::<(String, Value)>::empty()) =~= seq![]);
            return Some((Value::Object(Vec::new()), j0 + 1));
        }
        let mut acc: Vec<(String, Value)> = Vec::new();
        let mut j = j0;
        assert(view_entries(acc@) =~= seq![]);
        loop
            invariant
                i < j0 <= j <= n == s@.len(),
                !(j0 < n && s@[j0 as int] == '}'),
                value_at(s@, i as int) == (match members_at(s@, j0 as int, seq![]) {
                    Some((e, k)) => Some((Json::Object(e), k)),
                    None => None,
                }),
                members_at(s@, j0 as int, seq![]) == members_at(s@, j as int, view_entries(acc@)),
            decreases n - j,
        {
            if j >= n || s[j] != '"' {
                return None;
            }
            let (key, k1) = match str_body_exec(s, j + 1) {
                Some(x) => x,
                None => {
                    return None;
                },
            };
            let cpos = skip_ws_exec(s, k1);
            if cpos >= n || s[cpos] != ':' {
                return None;
            }
            let vpos = skip_ws_exec(s, cpos + 1);
            let (v, k) = match value_exec(s, vpos) {
                Some(x) => x,
                None => {
                    return None;
                },
            };
            let m = skip_ws_exec(s, k);
            if m >= n {
                return None;
            }
            if s[m] == '}' {
                crate::setter::put_entry(&mut acc, key, v);
                return Some((Value::Object(acc), m + 1));
            } else if s[m] == ',' {
                let nx = skip_ws_exec(s, m + 1);
                crate::setter::put_entry(&mut acc, key, v);
                j = nx;
            } else {
                return None;
            }
        }
    } else {
        number_exec(s, i)
    }
}

/// Decodes a JSON literal: one value, with optional whitespace around it.
pub fn parse_literal(text: &str) -> (r: Option<Value>)
    ensures
        match r {
            Some(v) => literal(text@) == Some(v@),
            None => literal(text@) is None,
        },
{
    let s = crate::text::chars_of(text);
    let i = skip_ws_exec(&s, 0);
    match value_exec(&s, i) {
        Some((v, k)) => {
            if skip_ws_exec(&s, k) == s.len() { Some(v) } else { None }
        },
        None => None,
    }
}

} // verus!
