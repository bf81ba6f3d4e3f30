//! Compiling rule text into actions: the expression grammar and the action registry.
use vstd::prelude::*;
use crate::actions::{Action, Constant, Count, Custom, Expr, Join, Len, Strip, Sum, Trim, strip, trim};
use crate::getter::Getter;
use crate::getter::namespace::Namespace as GetterNamespace;
use crate::literal::{literal, parse_literal};
use crate::path::{Fault, Seg, scan};
use crate::setter::Setter;
use crate::setter::namespace::Namespace as SetterNamespace;
use crate::text::{chars_of, is_white, is_white_exec, string_of, trim_bounds};

verus! {

/// How the registry builds an action from its argument text.
#[derive(Debug, Clone, Copy, PartialEq, Eq)]
pub enum Routine {
    Const,
    Join,
    Len,
    Sum,
    Trim,
    TrimStart,
    TrimEnd,
    StripPrefix,
    StripSuffix,
    Count,
    /// An action registered by the caller: the caller's routine compiles its
    /// argument, or, without one, the argument is one expression.
    Custom,
}

/// What is wrong with rule text.
#[derive(Debug, PartialEq)]
pub enum Error {
    /// `(...)` with no action name before it.
    MissingActionName,
    /// A call of a name that is not registered, or a registration under a name
    /// outside `[A-Za-z0-9_]+`.
    InvalidActionName(String),
    /// An action that needs an argument got none; holds the action name.
    MissingActionValue(String),
    /// The argument of `const` is not a JSON literal; holds the argument.
    ValueParseError(String),
    /// An action got no arguments where it needs some; holds the action name.
    InvalidNumberOfProperties(String),
    /// An action needs a leading `"literal",` argument; holds the call, `name(value)`.
    InvalidQuotedValue(String),
    /// A read path is malformed.
    GetterNamespace(crate::getter::namespace::Error),
    /// A write path is malformed.
    SetterNamespace(crate::setter::namespace::Error),
}

/// The mathematical form of a parse error.
pub enum Fail {
    MissingActionName,
    InvalidActionName(Seq<char>),
    MissingActionValue(Seq<char>),
    ValueParseError(Seq<char>),
    InvalidNumberOfProperties(Seq<char>),
    InvalidQuotedValue(Seq<char>),
    ReadPath(Fault, Seq<char>),
    WritePath(Fault, Seq<char>),
    /// A log of routine answers that does not fit the calls made; no parse returns it.
    Unanswered,
}

impl View for Error {
    type V = Fail;

    open spec fn view(&self) -> Fail {
        match self {
            Error::MissingActionName => Fail::MissingActionName,
            Error::InvalidActionName(n) => Fail::InvalidActionName(n@),
            Error::MissingActionValue(n) => Fail::MissingActionValue(n@),
            Error::ValueParseError(t) => Fail::ValueParseError(t@),
            Error::InvalidNumberOfProperties(n) => Fail::InvalidNumberOfProperties(n@),
            Error::InvalidQuotedValue(n) => Fail::InvalidQuotedValue(n@),
            Error::GetterNamespace(e) => Fail::ReadPath(e.fault(), e.path()),
            Error::SetterNamespace(e) => Fail::WritePath(e.fault(), e.path()),
        }
    }
}

pub open spec fn name_char(c: char) -> bool {
    ('a' <= c && c <= 'z') || ('A' <= c && c <= 'Z') || ('0' <= c && c <= '9') || c == '_'
}

/// A name that an action may be registered under: `[A-Za-z0-9_]+`.
pub open spec fn valid_name(n: Seq<char>) -> bool {
    n.len() > 0 && forall|i: int| 0 <= i < n.len() ==> name_char(#[trigger] n[i])
}

/// The routine registered last under `name`.
pub open spec fn routine_of(reg: Seq<(Seq<char>, Routine)>, name: Seq<char>) -> Option<Routine>
    decreases reg.len(),
{
    if reg.len() == 0 {
        None
    } else if reg.last().0 == name {
        Some(reg.last().1)
    } else {
        routine_of(reg.drop_last(), name)
    }
}

/// The names that a fresh registry holds.
pub open spec fn builtins() -> Seq<(Seq<char>, Routine)> {
    seq![
        (seq!['j', 'o', 'i', 'n'], Routine::Join),
        (seq!['c', 'o', 'n', 's', 't'], Routine::Const),
        (seq!['l', 'e', 'n'], Routine::Len),
        (seq!['s', 'u', 'm'], Routine::Sum),
        (seq!['t', 'r', 'i', 'm'], Routine::Trim),
        (seq!['t', 'r', 'i', 'm', '_', 's', 't', 'a', 'r', 't'], Routine::TrimStart),
        (seq!['t', 'r', 'i', 'm', '_', 'e', 'n', 'd'], Routine::TrimEnd),
        (seq!['s', 't', 'r', 'i', 'p', '_', 'p', 'r', 'e', 'f', 'i', 'x'], Routine::StripPrefix),
        (seq!['s', 't', 'r', 'i', 'p', '_', 's', 'u', 'f', 'f', 'i', 'x'], Routine::StripSuffix),
        (seq!['c', 'o', 'u', 'n', 't'], Routine::Count),
    ]
}

/// End of the match of a quoted literal whose closing quote is at `e`: the
/// quote, optional whitespace, then a comma; -1 where there is no comma.
pub open spec fn comma_after(s: Seq<char>, k: int) -> int
    decreases s.len() - k,
{
    if k < 0 || k >= s.len() {
        -1
    } else if s[k] == ',' {
        k + 1
    } else if is_white(s[k]) {
        comma_after(s, k + 1)
    } else {
        -1
    }
}

/// The shortest leading `"text",` of `s` whose closing quote is at `e` or later:
/// the text holds at least one character, no line break before its last
/// character, does not end with a backslash, and whitespace may precede the
/// comma. Gives the position of the closing quote and the end of the match.
pub open spec fn quoted_from(s: Seq<char>, e: int) -> Option<(int, int)>
    decreases s.len() - e,
{
    if e < 2 || e >= s.len() {
        None
    } else if s[e] == '"' && s[e - 1] != '\\' && comma_after(s, e + 1) >= 0 {
        Some((e, comma_after(s, e + 1)))
    } else if s[e - 1] == '\n' {
        None
    } else {
        quoted_from(s, e + 1)
    }
}

pub open spec fn quoted(s: Seq<char>) -> Option<(int, int)> {
    if s.len() > 0 && s[0] == '"' { quoted_from(s, 2) } else { None }
}

/// The top-level arguments of `s[i..]`: split at commas outside parentheses,
/// each piece with its surrounding whitespace cut; `start` begins the current piece.
pub open spec fn split_from(s: Seq<char>, i: int, depth: nat, start: int) -> Seq<Seq<char>>
    decreases s.len() - i,
{
    if i < start || i >= s.len() {
        seq![crate::text::trim(s.subrange(start, s.len() as int))]
    } else if s[i] == '(' {
        split_from(s, i + 1, depth + 1, start)
    } else if s[i] == ')' {
        split_from(s, i + 1, if depth > 0 { (depth - 1) as nat } else { 0 }, start)
    } else if s[i] == ',' && depth == 0 {
        seq![crate::text::trim(s.subrange(start, i))] + split_from(s, i + 1, 0, i + 1)
    } else {
        split_from(s, i + 1, depth, start)
    }
}

pub open spec fn split_args(s: Seq<char>) -> Seq<Seq<char>> {
    split_from(s, 0, 0, 0)
}

/// Position of the first `(`, or -1.
pub open spec fn first_paren(s: Seq<char>, i: int) -> int
    decreases s.len() - i,
{
    if i < 0 || i >= s.len() { -1 } else if s[i] == '(' { i } else { first_paren(s, i + 1) }
}

/// A call `name(value)`: the text ends with `)` and its first `(` follows a
/// name of `[A-Za-z0-9_]`; `Some(None)` where nothing precedes the `(`.
pub open spec fn call_form(s: Seq<char>) -> Option<Option<(Seq<char>, Seq<char>)>> {
    let k = first_paren(s, 0);
    if s.len() < 2 || s.last() != ')' || k < 0 || k >= s.len() - 1 {
        None
    } else if k == 0 {
        Some(None)
    } else if valid_name(s.subrange(0, k)) {
        Some(Some((s.subrange(0, k), s.subrange(k + 1, s.len() - 1))))
    } else {
        None
    }
}

/// The text of a call: `name(value)`.
pub open spec fn call_text(name: Seq<char>, value: Seq<char>) -> Seq<char> {
    name + seq!['('] + value + seq![')']
}

fn call_text_exec(name: &String, v: &Vec<char>) -> (r: String)
    ensures
        r@ == call_text(name@, v@),
{
    let mut r = String::new();
    crate::text::push_str(&mut r, name.as_str());
    crate::text::push_char(&mut r, '(');
    let inner = string_of(v, 0, v.len());
    assert(v@.subrange(0, v@.len() as int) =~= v@);
    crate::text::push_str(&mut r, inner.as_str());
    crate::text::push_char(&mut r, ')');
    assert(r@ =~= call_text(name@, v@));
    r
}

pub open spec fn read_path_expr(s: Seq<char>) -> Result<Expr, Fail> {
    match scan(s, false) {
        Ok(p) => Ok(Expr::Getter(p)),
        Err(f) => Err(Fail::ReadPath(f, s)),
    }
}

pub open spec fn is_explicit_key_start(s: Seq<char>) -> bool {
    s.len() >= 2 && s[0] == '[' && s[1] == '"'
}

/// What a caller's parsing routine returned for the call `name(value)`.
pub struct ParseAnswer {
    pub name: Seq<char>,
    pub value: Seq<char>,
    pub output: Result<Expr, Fail>,
}

pub open spec fn map_ok(r: (Result<Expr, Fail>, Seq<ParseAnswer>), f: spec_fn(Expr) -> Expr) -> (Result<Expr, Fail>, Seq<ParseAnswer>) {
    (match r.0 {
        Ok(c) => Ok(f(c)),
        Err(x) => Err(x),
    }, r.1)
}

/// The caller's routine for `name(value)`, as the next answer of `ans` gives it.
pub open spec fn custom_parse(name: Seq<char>, value: Seq<char>, ans: Seq<ParseAnswer>) -> (Result<Expr, Fail>, Seq<ParseAnswer>) {
    if ans.len() > 0 && ans[0].name == name && ans[0].value == value {
        (ans[0].output, ans.drop_first())
    } else {
        (Err(Fail::Unanswered), ans)
    }
}

/// Compiles source-expression text: a bare read path, or a call of a
/// registered action whose routine reads the argument text. With `ext`, calls
/// of custom actions go to the caller's routine, whose answers come from `ans`
/// in order; without it a custom action takes one expression. Also the answers
/// left over.
pub open spec fn parse_expr(reg: Seq<(Seq<char>, Routine)>, s: Seq<char>, ans: Seq<ParseAnswer>, ext: bool) -> (Result<Expr, Fail>, Seq<ParseAnswer>)
    decreases s.len(), 0int, 0int,
{
    if is_explicit_key_start(s) {
        (read_path_expr(s), ans)
    } else {
        match call_form(s) {
            None => (read_path_expr(s), ans),
            Some(None) => (Err(Fail::MissingActionName), ans),
            Some(Some((name, value))) => match routine_of(reg, name) {
                None => (Err(Fail::InvalidActionName(name)), ans),
                Some(r) => if value.len() + 1 < s.len() {
                    routine_expr(reg, r, name, value, value.len() + 1int, ans, ext)
                } else {
                    (Err(Fail::MissingActionName), ans)
                },
            },
        }
    }
}

/// What routine `r` makes of the argument text `value` of a call of `name`;
/// `bound` exceeds the length of `value`.
pub open spec fn routine_expr(reg: Seq<(Seq<char>, Routine)>, r: Routine, name: Seq<char>, value: Seq<char>, bound: int, ans: Seq<ParseAnswer>, ext: bool) -> (Result<Expr, Fail>, Seq<ParseAnswer>)
    decreases bound, 1int, 0int,
{
    if value.len() >= bound {
        (Err(Fail::MissingActionName), ans)
    } else {
        match r {
            Routine::Const => (if value.len() == 0 {
                Err(Fail::MissingActionValue(name))
            } else {
                match literal(value) {
                    Some(v) => Ok(Expr::Constant(v)),
                    None => Err(Fail::ValueParseError(value)),
                }
            }, ans),
            Routine::Join => match quoted(value) {
                None => (Err(Fail::InvalidQuotedValue(call_text(name, value))), ans),
                Some((e, end)) => {
                    let (l, rest) = parse_list(reg, split_args(value.subrange(end, value.len() as int)), value.len() as int, ans, ext);
                    (match l {
                        Ok(cs) => if cs.len() == 0 {
                            Err(Fail::InvalidNumberOfProperties(name))
                        } else {
                            Ok(Expr::Join(value.subrange(1, e), cs))
                        },
                        Err(x) => Err(x),
                    }, rest)
                },
            },
            Routine::Sum => {
                let (l, rest) = parse_list(reg, split_args(value), value.len() as int, ans, ext);
                (match l {
                    Ok(cs) => if cs.len() == 0 {
                        Err(Fail::InvalidNumberOfProperties(name))
                    } else {
                        Ok(Expr::Sum(cs))
                    },
                    Err(x) => Err(x),
                }, rest)
            },
            Routine::Len => map_ok(parse_expr(reg, value, ans, ext), |c: Expr| Expr::Len(Box::new(c))),
            Routine::Count => {
                let t = crate::text::trim(value);
                if t.len() > value.len() {
                    (Err(Fail::MissingActionName), ans)
                } else {
                    map_ok(parse_expr(reg, t, ans, ext), |c: Expr| Expr::Count(Box::new(c)))
                }
            },
            Routine::Trim => map_ok(parse_expr(reg, value, ans, ext), |c: Expr| Expr::Trim(trim::Type::Trim, Box::new(c))),
            Routine::TrimStart => map_ok(parse_expr(reg, value, ans, ext), |c: Expr| Expr::Trim(trim::Type::TrimStart, Box::new(c))),
            Routine::TrimEnd => map_ok(parse_expr(reg, value, ans, ext), |c: Expr| Expr::Trim(trim::Type::TrimEnd, Box::new(c))),
            Routine::StripPrefix => strip_expr(reg, strip::Type::StripPrefix, name, value, bound, ans, ext),
            Routine::StripSuffix => strip_expr(reg, strip::Type::StripSuffix, name, value, bound, ans, ext),
            Routine::Custom => if ext {
                custom_parse(name, value, ans)
            } else if value.len() == 0 {
                (Err(Fail::MissingActionValue(name)), ans)
            } else {
                map_ok(parse_expr(reg, value, ans, ext), |c: Expr| Expr::Custom(name, Box::new(c)))
            },
        }
    }
}

pub open spec fn strip_expr(reg: Seq<(Seq<char>, Routine)>, t: strip::Type, name: Seq<char>, value: Seq<char>, bound: int, ans: Seq<ParseAnswer>, ext: bool) -> (Result<Expr, Fail>, Seq<ParseAnswer>)
    decreases bound, 0int, 0int,
{
    if value.len() >= bound {
        (Err(Fail::MissingActionName), ans)
    } else {
        match quoted(value) {
            None => (Err(Fail::InvalidQuotedValue(call_text(name, value))), ans),
            Some((e, end)) => {
                let rest = crate::text::trim(value.subrange(end, value.len() as int));
                if rest.len() > value.len() {
                    (Err(Fail::MissingActionName), ans)
                } else {
                    map_ok(parse_expr(reg, rest, ans, ext), |c: Expr| Expr::Strip(t, value.subrange(1, e), Box::new(c)))
                }
            },
        }
    }
}

/// Compiles each piece in turn; the first failure ends the list.
pub open spec fn parse_list(reg: Seq<(Seq<char>, Routine)>, pieces: Seq<Seq<char>>, bound: int, ans: Seq<ParseAnswer>, ext: bool) -> (Result<Seq<Expr>, Fail>, Seq<ParseAnswer>)
    decreases bound, 0int, pieces.len(),
{
    if pieces.len() == 0 {
        (Ok(seq![]), ans)
    } else {
        let (l, rest) = parse_list(reg, pieces.drop_last(), bound, ans, ext);
        match l {
            Ok(cs) => if pieces.last().len() > bound {
                (Err(Fail::MissingActionName), rest)
            } else {
                let (c, rest2) = parse_expr(reg, pieces.last(), rest, ext);
                (match c {
                    Ok(c) => Ok(cs.push(c)),
                    Err(x) => Err(x),
                }, rest2)
            },
            Err(x) => (Err(x), rest),
        }
    }
}

pub open spec fn strings_view(v: Seq<String>) -> Seq<Seq<char>> {
    v.map_values(|x: String| x@)
}

fn comma_after_exec(s: &Vec<char>, k: usize) -> (r: Option<usize>)
    requires
        k <= s@.len(),
    ensures
        match r {
            Some(m) => comma_after(s@, k as int) == m as int && m <= s@.len(),
            None => comma_after(s@, k as int) < 0,
        },
{
    let mut j = k;
    while j < s.len() && s[j] != ',' && is_white_exec(s[j])
        invariant
            k <= j <= s@.len(),
            comma_after(s@, k as int) == comma_after(s@, j as int),
        decreases s.len() - j,
    {
        j = j + 1;
    }
    if j < s.len() && s[j] == ',' { Some(j + 1) } else { None }
}

fn quoted_exec(s: &Vec<char>) -> (r: Option<(usize, usize)>)
    ensures
        match r {
            Some((e, end)) => quoted(s@) == Some((e as int, end as int)) && 1 <= e < s@.len() && end <= s@.len(),
            None => quoted(s@) is None,
        },
{
    let n = s.len();
    if n == 0 || s[0] != '"' {
        return None;
    }
    let mut e: usize = 2;
    while e < n
        invariant
            2 <= e,
            n == s@.len(),
            quoted(s@) == quoted_from(s@, e as int),
        decreases n - e,
    {
        if s[e] == '"' && s[e - 1] != '\\' {
            match comma_after_exec(s, e + 1) {
                Some(end) => {
                    return Some((e, end));
                },
                None => {},
            }
        }
        if s[e - 1] == '\n' {
            return None;
        }
        e = e + 1;
    }
    None
}

/// Splits `text` at its commas that stand outside parentheses; each argument
/// comes without the whitespace around it.
pub fn split_arguments(text: &str) -> (r: Vec<String>)
    ensures
        strings_view(r@) == split_args(text@),
{
    let s = chars_of(text);
    let n = s.len();
    let mut pieces: Vec<String> = Vec::new();
    let mut i: usize = 0;
    let mut depth: usize = 0;
    let mut start: usize = 0;
    assert(strings_view(pieces@) =~= seq![]);
    while i < n
        invariant
            start <= i <= n == s@.len(),
            depth <= i,
            s@ == text@,
            split_args(s@) == strings_view(pieces@) + split_from(s@, i as int, depth as nat, start as int),
        decreases n - i,
    {
        let c = s[i];
        if c == '(' {
            depth = depth + 1;
        } else if c == ')' {
            if depth > 0 {
                depth = depth - 1;
            }
        } else if c == ',' && depth == 0 {
            let (a, b) = trim_bounds_range(&s, start, i);
            let piece = string_of(&s, a, b);
            let ghost before = strings_view(pieces@);
            pieces.push(piece);
            assert(strings_view(pieces@) =~= before.push(piece@));
            assert(before + split_from(s@, i as int, depth as nat, start as int) =~= strings_view(pieces@) + split_from(s@, i + 1, 0, i + 1));
            start = i + 1;
        }
        i = i + 1;
    }
    let (a, b) = trim_bounds_range(&s, start, n);
    let piece = string_of(&s, a, b);
    let ghost before = strings_view(pieces@);
    pieces.push(piece);
    assert(strings_view(pieces@) =~= before.push(piece@));
    pieces
}

/// Bounds within `s` of `s[a..b]` with its surrounding whitespace cut.
fn trim_bounds_range(s: &Vec<char>, a: usize, b: usize) -> (r: (usize, usize))
    requires
        a <= b <= s@.len(),
    ensures
        a <= r.0 <= r.1 <= b,
        s@.subrange(r.0 as int, r.1 as int) == crate::text::trim(s@.subrange(a as int, b as int)),
{
    let sub = slice_chars(s, a, b);
    let (x, y) = trim_bounds(&sub, true, true);
    assert(s@.subrange(a + x, a + y) =~= sub@.subrange(x as int, y as int));
    (a + x, a + y)
}

fn slice_chars(s: &Vec<char>, a: usize, b: usize) -> (r: Vec<char>)
    requires
        a <= b <= s@.len(),
    ensures
        r@ == s@.subrange(a as int, b as int),
{
    let mut r: Vec<char> = Vec::new();
    let mut i = a;
    while i < b
        invariant
            a <= i <= b <= s@.len(),
            r@ == s@.subrange(a as int, i as int),
        decreases b - i,
    {
        r.push(s[i]);
        i = i + 1;
        assert(r@ =~= s@.subrange(a as int, i as int));
    }
    r
}

fn valid_name_exec(s: &Vec<char>, a: usize, b: usize) -> (r: bool)
    requires
        a <= b <= s@.len(),
    ensures
        r == valid_name(s@.subrange(a as int, b as int)),
{
    if a == b {
        return false;
    }
    let mut i = a;
    while i < b
        invariant
            a <= i <= b <= s@.len(),
            forall|x: int| a <= x < i ==> name_char(#[trigger] s@[x]),
        decreases b - i,
    {
        let c = s[i];
        if !(('a' <= c && c <= 'z') || ('A' <= c && c <= 'Z') || ('0' <= c && c <= '9') || c == '_') {
            assert(s@.subrange(a as int, b as int)[i - a] == c);
            return false;
        }
        i = i + 1;
    }
    assert forall|x: int| 0 <= x < b - a implies name_char(#[trigger] s@.subrange(a as int, b as int)[x]) by {
        assert(s@.subrange(a as int, b as int)[x] == s@[a + x]);
    }
    true
}

/// Where the call syntax `name(value)` finds its `(`: `Some(None)` for a call
/// without a name, `Some(Some(k))` for one whose `(` stands at `k`.
fn call_form_exec(s: &Vec<char>) -> (r: Option<Option<usize>>)
    ensures
        match r {
            None => call_form(s@) is None,
            Some(None) => call_form(s@) == Some(None::<(Seq<char>, Seq<char>)>),
            Some(Some(k)) => 1 <= k < s@.len() - 1 && call_form(s@) == Some(Some(
                (s@.subrange(0, k as int), s@.subrange(k + 1, s@.len() - 1)),
            )),
        },
{
    let n = s.len();
    let mut k: usize = 0;
    while k < n && s[k] != '('
        invariant
            k <= n == s@.len(),
            first_paren(s@, 0) == first_paren(s@, k as int),
        decreases n - k,
    {
        k = k + 1;
    }
    if n < 2 || s[n - 1] != ')' || k >= n - 1 {
        return None;
    }
    if k == 0 {
        return Some(None);
    }
    if valid_name_exec(s, 0, k) {
        Some(Some(k))
    } else {
        None
    }
}

fn find_routine(reg: &Vec<(String, Routine)>, name: &String) -> (r: Option<Routine>)
    ensures
        r == routine_of(registry_view(reg@), name@),
{
    let mut i = reg.len();
    assert(reg@.subrange(0, i as int) =~= reg@);
    while i > 0
        invariant
            i <= reg@.len(),
            routine_of(registry_view(reg@), name@) == routine_of(registry_view(reg@.subrange(0, i as int)), name@),
        decreases i,
    {
        let ghost sub = registry_view(reg@.subrange(0, i as int));
        assert(sub.drop_last() =~= registry_view(reg@.subrange(0, i - 1)));
        if reg[i - 1].0 == *name {
            return Some(reg[i - 1].1);
        }
        i = i - 1;
    }
    assert(registry_view(reg@.subrange(0, 0)) =~= seq![]);
    None
}

pub open spec fn registry_view(reg: Seq<(String, Routine)>) -> Seq<(Seq<char>, Routine)> {
    reg.map_values(|e: (String, Routine)| (e.0@, e.1))
}

/// The registry of action names and the parser that uses it.
#[derive(Debug)]
pub struct Parser {
    actions: Vec<(String, Routine)>,
}

/// Builds a [`Parser`] with a chosen registry.
#[derive(Debug)]
pub struct ParserBuilder {
    actions: Vec<(String, Routine)>,
}

/// Compiles the argument of `count`.
#[derive(Debug)]
pub struct ParsableCount;

/// One rule as text: a source expression and a destination path.
#[derive(Debug, PartialEq)]
pub struct Parsable {
    source: String,
    destination: String,
}

impl Parsable {
    pub fn new(source: &str, destination: &str) -> (r: Self)
        ensures
            r.source() == source@,
            r.destination() == destination@,
    {
        Parsable { source: source.to_owned(), destination: destination.to_owned() }
    }

    pub closed spec fn source(&self) -> Seq<char> {
        self.source@
    }

    pub closed spec fn destination(&self) -> Seq<char> {
        self.destination@
    }

    pub fn source_text(&self) -> (r: &String)
        ensures
            r@ == self.source(),
    {
        &self.source
    }

    pub fn destination_text(&self) -> (r: &String)
        ensures
            r@ == self.destination(),
    {
        &self.destination
    }
}

/// Compiles rule `(src, dst)`: the write path first, then the source expression.
pub open spec fn parse_rule(reg: Seq<(Seq<char>, Routine)>, src: Seq<char>, dst: Seq<char>, ans: Seq<ParseAnswer>, ext: bool) -> (Result<(Seq<Seg>, Expr), Fail>, Seq<ParseAnswer>) {
    match scan(dst, true) {
        Err(f) => (Err(Fail::WritePath(f, dst)), ans),
        Ok(p) => {
            let (e, rest) = parse_expr(reg, src, ans, ext);
            (match e {
                Ok(e) => Ok((p, e)),
                Err(x) => Err(x),
            }, rest)
        },
    }
}

/// Compiles rules in order; the first failure ends the run.
pub open spec fn parse_rules(reg: Seq<(Seq<char>, Routine)>, rules: Seq<(Seq<char>, Seq<char>)>, ans: Seq<ParseAnswer>, ext: bool) -> (Result<Seq<(Seq<Seg>, Expr)>, Fail>, Seq<ParseAnswer>)
    decreases rules.len(),
{
    if rules.len() == 0 {
        (Ok(seq![]), ans)
    } else {
        let (d, rest) = parse_rules(reg, rules.drop_last(), ans, ext);
        match d {
            Ok(done) => {
                let (x, rest2) = parse_rule(reg, rules.last().0, rules.last().1, rest, ext);
                (match x {
                    Ok(x) => Ok(done.push(x)),
                    Err(f) => Err(f),
                }, rest2)
            },
            Err(f) => (Err(f), rest),
        }
    }
}

pub open spec fn pres_view(r: Result<Action, Error>) -> Result<Expr, Fail> {
    match r {
        Ok(a) => Ok(a@),
        Err(e) => Err(e@),
    }
}

pub open spec fn rule_res_view(r: Result<Setter, Error>) -> Result<(Seq<Seg>, Expr), Fail> {
    match r {
        Ok(st) => Ok((st.path(), st.child())),
        Err(e) => Err(e@),
    }
}

pub open spec fn rules_res_view(r: Result<Vec<Setter>, Error>) -> Result<Seq<(Seq<Seg>, Expr)>, Fail> {
    match r {
        Ok(v) => Ok(crate::transformer::rules_view(v@)),
        Err(e) => Err(e@),
    }
}

/// A caller's parsing routines for the custom actions it registers.
pub trait ParsableAction {
    /// Builds the action for a call `name(value)` of a registered custom
    /// action; it may compile sub-expressions with [`Parser::parse_action_with`].
    fn parse(&self, parser: &Parser, name: &str, value: &str) -> Result<Action, Error>;
}

/// The routine of a parser without caller routines, which never consults it:
/// there a custom action takes its argument as one expression.
pub struct NoRoutines;

impl ParsableAction for NoRoutines {
    fn parse(&self, _parser: &Parser, name: &str, _value: &str) -> Result<Action, Error> {
        Err(Error::InvalidActionName(name.to_owned()))
    }
}

pub open spec fn parsables_view(v: Seq<Parsable>) -> Seq<(Seq<char>, Seq<char>)> {
    v.map_values(|p: Parsable| (p.source(), p.destination()))
}

fn builtin_registry() -> (r: Vec<(String, Routine)>)
    ensures
        registry_view(r@) == builtins(),
{
    let mut v: Vec<(String, Routine)> = Vec::new();
    let ghost b = builtins();
    v.push(("join".to_owned(), Routine::Join));
    proof { reveal_strlit("join"); assert("join"@ =~= b[0].0); }
    v.push(("const".to_owned(), Routine::Const));
    proof { reveal_strlit("const"); assert("const"@ =~= b[1].0); }
    v.push(("len".to_owned(), Routine::Len));
    proof { reveal_strlit("len"); assert("len"@ =~= b[2].0); }
    v.push(("sum".to_owned(), Routine::Sum));
    proof { reveal_strlit("sum"); assert("sum"@ =~= b[3].0); }
    v.push(("trim".to_owned(), Routine::Trim));
    proof { reveal_strlit("trim"); assert("trim"@ =~= b[4].0); }
    v.push(("trim_start".to_owned(), Routine::TrimStart));
    proof { reveal_strlit("trim_start"); assert("trim_start"@ =~= b[5].0); }
    v.push(("trim_end".to_owned(), Routine::TrimEnd));
    proof { reveal_strlit("trim_end"); assert("trim_end"@ =~= b[6].0); }
    v.push(("strip_prefix".to_owned(), Routine::StripPrefix));
    proof { reveal_strlit("strip_prefix"); assert("strip_prefix"@ =~= b[7].0); }
    v.push(("strip_suffix".to_owned(), Routine::StripSuffix));
    proof { reveal_strlit("strip_suffix"); assert("strip_suffix"@ =~= b[8].0); }
    v.push(("count".to_owned(), Routine::Count));
    proof { reveal_strlit("count"); assert("count"@ =~= b[9].0); }
    assert(registry_view(v@) =~= builtins());
    v
}

/// Registers `name` as a custom action in `reg`, where the name is valid.
fn register(reg: &mut Vec<(String, Routine)>, name: &str) -> (r: Result<(), Error>)
    ensures
        valid_name(name@) ==> r is Ok && registry_view(final(reg)@) == registry_view(old(reg)@).push((name@, Routine::Custom)),
        !valid_name(name@) ==> r is Err && r->Err_0@ == Fail::InvalidActionName(name@) && final(reg)@ == old(reg)@,
{
    let cs = chars_of(name);
    assert(cs@.subrange(0, cs@.len() as int) =~= cs@);
    if !valid_name_exec(&cs, 0, cs.len()) {
        return Err(Error::InvalidActionName(name.to_owned()));
    }
    let ghost before = registry_view(reg@);
    let n = name.to_owned();
    reg.push((n, Routine::Custom));
    assert(registry_view(reg@) =~= before.push((name@, Routine::Custom)));
    Ok(())
}

impl Default for ParserBuilder {
    /// A builder whose registry holds the built-in actions.
    fn default() -> (r: Self)
        ensures
            r.registry() == builtins(),
    {
        ParserBuilder { actions: builtin_registry() }
    }
}

impl ParserBuilder {
    /// A builder with an empty registry.
    pub fn new() -> (r: Self)
        ensures
            r.registry().len() == 0,
    {
        ParserBuilder { actions: Vec::new() }
    }

    pub closed spec fn registry(&self) -> Seq<(Seq<char>, Routine)> {
        registry_view(self.actions@)
    }

    /// Registers a custom action under `name`, replacing an earlier action of that name.
    pub fn add_action(self, name: &str) -> (r: Result<Self, Error>)
        ensures
            valid_name(name@) ==> r is Ok && r->Ok_0.registry() == self.registry().push((name@, Routine::Custom)),
            !valid_name(name@) ==> r is Err && r->Err_0@ == Fail::InvalidActionName(name@),
    {
        let mut actions = self.actions;
        match register(&mut actions, name) {
            Ok(()) => Ok(ParserBuilder { actions }),
            Err(e) => Err(e),
        }
    }

    pub fn build(self) -> (r: Parser)
        ensures
            r.registry() == self.registry(),
    {
        Parser { actions: self.actions }
    }
}

impl ParsableCount {
    /// `count(value)`: the argument, trimmed, is one expression.
    pub fn parse(&self, parser: &Parser, value: &str) -> (r: Result<Action, Error>)
        ensures
            match r {
                Ok(a) => parse_expr(parser.registry(), crate::text::trim(value@), seq![], false).0 is Ok
                    && a@ == Expr::Count(Box::new(parse_expr(parser.registry(), crate::text::trim(value@), seq![], false).0->Ok_0)),
                Err(e) => parse_expr(parser.registry(), crate::text::trim(value@), seq![], false).0 == Err::<Expr, Fail>(e@),
            },
    {
        let v = chars_of(value);
        let (a, b) = trim_bounds(&v, true, true);
        let t = string_of(&v, a, b);
        match parser.parse_action(t.as_str()) {
            Ok(c) => Ok(Action::Count(Count::new(c))),
            Err(e) => Err(e),
        }
    }
}

impl Default for Parser {
    /// A parser whose registry holds the built-in actions.
    fn default() -> (r: Self)
        ensures
            r.registry() == builtins(),
    {
        Parser { actions: builtin_registry() }
    }
}

impl Parser {
    pub closed spec fn registry(&self) -> Seq<(Seq<char>, Routine)> {
        registry_view(self.actions@)
    }

    /// Registers a custom action under `name`, which must match `[A-Za-z0-9_]+`;
    /// a later registration of a name replaces the earlier one. An invalid name
    /// leaves the registry as it was.
    pub fn add_action_parser(&mut self, name: &str) -> (r: Result<(), Error>)
        ensures
            valid_name(name@) ==> r is Ok && final(self).registry() == old(self).registry().push((name@, Routine::Custom)),
            !valid_name(name@) ==> r is Err && r->Err_0@ == Fail::InvalidActionName(name@)
                && final(self).registry() == old(self).registry(),
    {
        register(&mut self.actions, name)
    }

    fn read_getter(source: &str) -> (r: Result<Action, Error>)
        ensures
            match r {
                Ok(a) => read_path_expr(source@) == Ok::<Expr, Fail>(a@),
                Err(e) => read_path_expr(source@) == Err::<Expr, Fail>(e@),
            },
    {
        match GetterNamespace::parse(source) {
            Ok(ns) => {
                let g = Getter::new(ns);
                proof { crate::actions::lemma_getter_view(g); }
                Ok(Action::Getter(g))
            },
            Err(e) => Err(Error::GetterNamespace(e)),
        }
    }

    /// Compiles source-expression text into an action; a custom action takes
    /// its argument as one expression.
    pub fn parse_action(&self, source: &str) -> (r: Result<Action, Error>)
        ensures
            parse_expr(self.registry(), source@, seq![], false) == (pres_view(r), Seq::<ParseAnswer>::empty()),
    {
        let (r, Ghost(log)) = self.parse_core(None::<&NoRoutines>, source);
        assert(log + Seq::<ParseAnswer>::empty() =~= Seq::<ParseAnswer>::empty());
        r
    }

    /// Compiles source-expression text into an action; the same as [`Parser::parse_action`].
    pub fn get_action(&self, source: &str) -> (r: Result<Action, Error>)
        ensures
            parse_expr(self.registry(), source@, seq![], false) == (pres_view(r), Seq::<ParseAnswer>::empty()),
    {
        self.parse_action(source)
    }

    /// Compiles source-expression text into an action, handing each call of a
    /// custom action to `routines`. The result is `parse_expr` for what the
    /// routines returned, in order.
    pub fn parse_action_with<P: ParsableAction>(&self, routines: &P, source: &str) -> (r: Result<Action, Error>)
        ensures
            exists|log: Seq<ParseAnswer>| parse_expr(self.registry(), source@, log, true) == (pres_view(r), Seq::<ParseAnswer>::empty()),
    {
        let (r, Ghost(log)) = self.parse_core(Some(routines), source);
        assert(log + Seq::<ParseAnswer>::empty() =~= log);
        assert(parse_expr(self.registry(), source@, log + Seq::<ParseAnswer>::empty(), true) == (pres_view(r), Seq::<ParseAnswer>::empty()));
        r
    }

    fn parse_core<P: ParsableAction>(&self, routines: Option<&P>, source: &str) -> (res: (Result<Action, Error>, Ghost<Seq<ParseAnswer>>))
        ensures
            forall|k: Seq<ParseAnswer>| #![trigger res.1@ + k]
                parse_expr(self.registry(), source@, res.1@ + k, routines is Some) == (pres_view(res.0), k),
            routines is None ==> res.1@ == Seq::<ParseAnswer>::empty(),
        decreases source@.len(), 0int, 0int,
    {
        let ghost ext = routines is Some;
        let ghost e0 = Seq::<ParseAnswer>::empty();
        let s = chars_of(source);
        let n = s.len();
        if n >= 2 && s[0] == '[' && s[1] == '"' {
            let r = Self::read_getter(source);
            assert forall|k: Seq<ParseAnswer>| #![trigger e0 + k] parse_expr(self.registry(), source@, e0 + k, ext) == (pres_view(r), k) by {
                assert(e0 + k =~= k);
            }
            return (r, Ghost(e0));
        }
        match call_form_exec(&s) {
            None => {
                let r = Self::read_getter(source);
                assert forall|k: Seq<ParseAnswer>| #![trigger e0 + k] parse_expr(self.registry(), source@, e0 + k, ext) == (pres_view(r), k) by {
                    assert(e0 + k =~= k);
                }
                (r, Ghost(e0))
            },
            Some(None) => {
                let r = Err(Error::MissingActionName);
                assert forall|k: Seq<ParseAnswer>| #![trigger e0 + k] parse_expr(self.registry(), source@, e0 + k, ext) == (pres_view(r), k) by {
                    assert(e0 + k =~= k);
                }
                (r, Ghost(e0))
            },
            Some(Some(k)) => {
                let name = string_of(&s, 0, k);
                let value = string_of(&s, k + 1, n - 1);
                match find_routine(&self.actions, &name) {
                    None => {
                        let r = Err(Error::InvalidActionName(name));
                        assert forall|k: Seq<ParseAnswer>| #![trigger e0 + k] parse_expr(self.registry(), source@, e0 + k, ext) == (pres_view(r), k) by {
                            assert(e0 + k =~= k);
                        }
                        (r, Ghost(e0))
                    },
                    Some(r) => self.parse_routine(routines, r, name, value),
                }
            },
        }
    }

    fn parse_routine<P: ParsableAction>(&self, routines: Option<&P>, r: Routine, name: String, value: String) -> (res: (Result<Action, Error>, Ghost<Seq<ParseAnswer>>))
        ensures
            forall|k: Seq<ParseAnswer>| #![trigger res.1@ + k]
                routine_expr(self.registry(), r, name@, value@, value@.len() + 1int, res.1@ + k, routines is Some) == (pres_view(res.0), k),
            routines is None ==> res.1@ == Seq::<ParseAnswer>::empty(),
        decreases value@.len() + 1int, 1int, 0int,
    {
        let ghost ext = routines is Some;
        let ghost reg = self.registry();
        let ghost e0 = Seq::<ParseAnswer>::empty();
        let v = chars_of(value.as_str());
        match r {
            Routine::Const => {
                let res = if v.len() == 0 {
                    Err(Error::MissingActionValue(name))
                } else {
                    match parse_literal(value.as_str()) {
                        Some(x) => Ok(Action::Constant(Constant::new(x))),
                        None => Err(Error::ValueParseError(value)),
                    }
                };
                assert forall|k: Seq<ParseAnswer>| #![trigger e0 + k]
                    routine_expr(reg, r, name@, value@, value@.len() + 1int, e0 + k, ext) == (pres_view(res), k) by {
                    assert(e0 + k =~= k);
                }
                (res, Ghost(e0))
            },
            Routine::Join | Routine::Sum => {
                let is_join = match r { Routine::Join => true, _ => false };
                let (sep, rest) = if is_join {
                    match quoted_exec(&v) {
                        None => {
                            let res = Err(Error::InvalidQuotedValue(call_text_exec(&name, &v)));
                            assert forall|k: Seq<ParseAnswer>| #![trigger e0 + k]
                                routine_expr(reg, r, name@, value@, value@.len() + 1int, e0 + k, ext) == (pres_view(res), k) by {
                                assert(e0 + k =~= k);
                            }
                            return (res, Ghost(e0));
                        },
                        Some((e, end)) => (string_of(&v, 1, e), string_of(&v, end, v.len())),
                    }
                } else {
                    (String::new(), string_of(&v, 0, v.len()))
                };
                assert(v@.subrange(0, v@.len() as int) =~= v@);
                let pieces = split_arguments(rest.as_str());
                let (l, Ghost(log)) = self.parse_pieces(routines, &pieces, v.len());
                let res = match l {
                    Ok(cs) => {
                        if cs.len() == 0 {
                            Err(Error::InvalidNumberOfProperties(name))
                        } else if is_join {
                            Ok(Action::Join(Join::new(sep, cs)))
                        } else {
                            Ok(Action::Sum(Sum::new(cs)))
                        }
                    },
                    Err(x) => Err(x),
                };
                assert forall|k: Seq<ParseAnswer>| #![trigger log + k]
                    routine_expr(reg, r, name@, value@, value@.len() + 1int, log + k, ext) == (pres_view(res), k) by {
                }
                (res, Ghost(log))
            },
            Routine::Len | Routine::Trim | Routine::TrimStart | Routine::TrimEnd | Routine::Count => {
                let is_count = match r { Routine::Count => true, _ => false };
                let arg = if is_count {
                    let (a, b) = trim_bounds(&v, true, true);
                    string_of(&v, a, b)
                } else {
                    string_of(&v, 0, v.len())
                };
                assert(v@.subrange(0, v@.len() as int) =~= v@);
                let (c, Ghost(log)) = self.parse_core(routines, arg.as_str());
                let res = match c {
                    Ok(a) => Ok(match r {
                        Routine::Len => Action::Len(Len::new(a)),
                        Routine::Trim => Action::Trim(Trim::new(trim::Type::Trim, a)),
                        Routine::TrimStart => Action::Trim(Trim::new(trim::Type::TrimStart, a)),
                        Routine::TrimEnd => Action::Trim(Trim::new(trim::Type::TrimEnd, a)),
                        _ => Action::Count(Count::new(a)),
                    }),
                    Err(x) => Err(x),
                };
                assert forall|k: Seq<ParseAnswer>| #![trigger log + k]
                    routine_expr(reg, r, name@, value@, value@.len() + 1int, log + k, ext) == (pres_view(res), k) by {
                    assert(parse_expr(reg, arg@, log + k, ext) == (pres_view(c), k));
                }
                (res, Ghost(log))
            },
            Routine::StripPrefix => self.parse_strip(routines, strip::Type::StripPrefix, name, &v),
            Routine::StripSuffix => self.parse_strip(routines, strip::Type::StripSuffix, name, &v),
            Routine::Custom => {
                match routines {
                    Some(p) => {
                        let out = p.parse(self, name.as_str(), value.as_str());
                        let ghost a = ParseAnswer { name: name@, value: value@, output: pres_view(out) };
                        let ghost log = seq![a];
                        assert forall|k: Seq<ParseAnswer>| #![trigger log + k]
                            routine_expr(reg, r, name@, value@, value@.len() + 1int, log + k, ext) == (pres_view(out), k) by {
                            assert((log + k)[0] == a);
                            assert((log + k).drop_first() =~= k);
                        }
                        (out, Ghost(log))
                    },
                    None => {
                        if v.len() == 0 {
                            let res = Err(Error::MissingActionValue(name));
                            assert forall|k: Seq<ParseAnswer>| #![trigger e0 + k]
                                routine_expr(reg, r, name@, value@, value@.len() + 1int, e0 + k, ext) == (pres_view(res), k) by {
                                assert(e0 + k =~= k);
                            }
                            return (res, Ghost(e0));
                        }
                        let (c, Ghost(log)) = self.parse_core(routines, value.as_str());
                        let res = match c {
                            Ok(a) => Ok(Action::Custom(Custom::new(name, a))),
                            Err(x) => Err(x),
                        };
                        assert forall|k: Seq<ParseAnswer>| #![trigger log + k]
                            routine_expr(reg, r, name@, value@, value@.len() + 1int, log + k, ext) == (pres_view(res), k) by {
                            assert(parse_expr(reg, value@, log + k, ext) == (pres_view(c), k));
                        }
                        (res, Ghost(log))
                    },
                }
            },
        }
    }

    fn parse_strip<P: ParsableAction>(&self, routines: Option<&P>, t: strip::Type, name: String, v: &Vec<char>) -> (res: (Result<Action, Error>, Ghost<Seq<ParseAnswer>>))
        ensures
            forall|k: Seq<ParseAnswer>| #![trigger res.1@ + k]
                strip_expr(self.registry(), t, name@, v@, v@.len() + 1int, res.1@ + k, routines is Some) == (pres_view(res.0), k),
            routines is None ==> res.1@ == Seq::<ParseAnswer>::empty(),
        decreases v@.len() + 1int, 0int, 0int,
    {
        let ghost ext = routines is Some;
        let ghost e0 = Seq::<ParseAnswer>::empty();
        match quoted_exec(v) {
            None => {
                let res = Err(Error::InvalidQuotedValue(call_text_exec(&name, v)));
                assert forall|k: Seq<ParseAnswer>| #![trigger e0 + k]
                    strip_expr(self.registry(), t, name@, v@, v@.len() + 1int, e0 + k, ext) == (pres_view(res), k) by {
                    assert(e0 + k =~= k);
                }
                (res, Ghost(e0))
            },
            Some((e, end)) => {
                let lit = string_of(v, 1, e);
                let (a, b) = trim_bounds_range(v, end, v.len());
                let rest = string_of(v, a, b);
                let (c, Ghost(log)) = self.parse_core(routines, rest.as_str());
                let res = match c {
                    Ok(x) => Ok(Action::Strip(Strip::new(t, lit, x))),
                    Err(x) => Err(x),
                };
                assert forall|k: Seq<ParseAnswer>| #![trigger log + k]
                    strip_expr(self.registry(), t, name@, v@, v@.len() + 1int, log + k, ext) == (pres_view(res), k) by {
                    assert(parse_expr(self.registry(), rest@, log + k, ext) == (pres_view(c), k));
                }
                (res, Ghost(log))
            },
        }
    }

    fn parse_pieces<P: ParsableAction>(&self, routines: Option<&P>, pieces: &Vec<String>, bound: usize) -> (res: (Result<Vec<Action>, Error>, Ghost<Seq<ParseAnswer>>))
        ensures
            forall|k: Seq<ParseAnswer>| #![trigger res.1@ + k]
                parse_list(self.registry(), strings_view(pieces@), bound as int, res.1@ + k, routines is Some) == (match res.0 {
                    Ok(cs) => Ok::<Seq<Expr>, Fail>(crate::actions::actions_view(cs@)),
                    Err(e) => Err(e@),
                }, k),
            routines is None ==> res.1@ == Seq::<ParseAnswer>::empty(),
        decreases bound as int, 0int, pieces@.len(),
    {
        let ghost ext = routines is Some;
        let ghost reg = self.registry();
        let ghost pv = strings_view(pieces@);
        let mut out: Vec<Action> = Vec::new();
        let ghost mut log: Seq<ParseAnswer> = seq![];
        let mut i: usize = 0;
        assert forall|k: Seq<ParseAnswer>| #![trigger log + k]
            parse_list(reg, pv.subrange(0, 0), bound as int, log + k, ext) == (Ok::<Seq<Expr>, Fail>(crate::actions::actions_view(out@)), k) by {
            assert(pv.subrange(0, 0) =~= seq![]);
            assert(log + k =~= k);
            assert(crate::actions::actions_view(out@) =~= seq![]);
        }
        while i < pieces.len()
            invariant
                i <= pieces@.len(),
                pv == strings_view(pieces@),
                reg == self.registry(),
                ext == (routines is Some),
                !ext ==> log == Seq::<ParseAnswer>::empty(),
                forall|k: Seq<ParseAnswer>| #![trigger log + k]
                    parse_list(reg, pv.subrange(0, i as int), bound as int, log + k, ext) == (Ok::<Seq<Expr>, Fail>(crate::actions::actions_view(out@)), k),
            decreases pieces.len() - i,
        {
            let ghost sub = pv.subrange(0, i + 1);
            assert(sub.drop_last() =~= pv.subrange(0, i as int));
            assert(sub.last() == pieces@[i as int]@);
            let ghost before = crate::actions::actions_view(out@);
            let cs = chars_of(pieces[i].as_str());
            if cs.len() > bound {
                let res: Result<Vec<Action>, Error> = Err(Error::MissingActionName);
                assert forall|k: Seq<ParseAnswer>| #![trigger log + k]
                    parse_list(reg, pv, bound as int, log + k, ext) == (match res {
                        Ok(cs) => Ok::<Seq<Expr>, Fail>(crate::actions::actions_view(cs@)),
                        Err(e) => Err(e@),
                    }, k) by {
                    assert(parse_list(reg, sub, bound as int, log + k, ext) == (Err::<Seq<Expr>, Fail>(Fail::MissingActionName), k));
                    lemma_parse_list_stuck(reg, pv, i + 1, bound as int, log + k, ext);
                }
                return (res, Ghost(log));
            }
            let (c, Ghost(cl)) = self.parse_core(routines, pieces[i].as_str());
            let ghost nlog = log + cl;
            assert forall|k: Seq<ParseAnswer>| #![trigger nlog + k]
                parse_list(reg, sub, bound as int, nlog + k, ext) == (match pres_view(c) {
                    Ok(x) => Ok::<Seq<Expr>, Fail>(before.push(x)),
                    Err(f) => Err(f),
                }, k) by {
                assert(nlog + k =~= log + (cl + k));
                assert(parse_list(reg, pv.subrange(0, i as int), bound as int, log + (cl + k), ext) == (Ok::<Seq<Expr>, Fail>(before), cl + k));
                assert(parse_expr(reg, pieces@[i as int]@, cl + k, ext) == (pres_view(c), k));
            }
            match c {
                Ok(a) => {
                    out.push(a);
                    assert(crate::actions::actions_view(out@) =~= before.push(a@));
                    proof {
                        if !ext {
                            assert(nlog =~= Seq::<ParseAnswer>::empty());
                        }
                        log = nlog;
                    }
                },
                Err(x) => {
                    let res: Result<Vec<Action>, Error> = Err(x);
                    assert forall|k: Seq<ParseAnswer>| #![trigger nlog + k]
                        parse_list(reg, pv, bound as int, nlog + k, ext) == (match res {
                            Ok(cs) => Ok::<Seq<Expr>, Fail>(crate::actions::actions_view(cs@)),
                            Err(e) => Err(e@),
                        }, k) by {
                        lemma_parse_list_stuck(reg, pv, i + 1, bound as int, nlog + k, ext);
                    }
                    proof {
                        if !ext {
                            assert(nlog =~= Seq::<ParseAnswer>::empty());
                        }
                    }
                    return (res, Ghost(nlog));
                },
            }
            i = i + 1;
        }
        assert(pv.subrange(0, i as int) =~= pv);
        (Ok(out), Ghost(log))
    }

    fn parse_rule_core<P: ParsableAction>(&self, routines: Option<&P>, source: &str, destination: &str) -> (res: (Result<Setter, Error>, Ghost<Seq<ParseAnswer>>))
        ensures
            forall|k: Seq<ParseAnswer>| #![trigger res.1@ + k]
                parse_rule(self.registry(), source@, destination@, res.1@ + k, routines is Some) == (rule_res_view(res.0), k),
            routines is None ==> res.1@ == Seq::<ParseAnswer>::empty(),
            res.0 is Ok ==> crate::path::wf_write(res.0->Ok_0.path()),
    {
        let ghost ext = routines is Some;
        let ghost e0 = Seq::<ParseAnswer>::empty();
        let set = match SetterNamespace::parse(destination) {
            Ok(ns) => ns,
            Err(e) => {
                let r = Err(Error::SetterNamespace(e));
                assert forall|k: Seq<ParseAnswer>| #![trigger e0 + k]
                    parse_rule(self.registry(), source@, destination@, e0 + k, ext) == (rule_res_view(r), k) by {
                    assert(e0 + k =~= k);
                }
                return (r, Ghost(e0));
            },
        };
        proof { crate::path::lemma_write_scan_wf(destination@); }
        let (c, Ghost(log)) = self.parse_core(routines, source);
        let r = match c {
            Ok(action) => Ok(Setter::new(set, action)),
            Err(e) => Err(e),
        };
        assert forall|k: Seq<ParseAnswer>| #![trigger log + k]
            parse_rule(self.registry(), source@, destination@, log + k, ext) == (rule_res_view(r), k) by {
            assert(parse_expr(self.registry(), source@, log + k, ext) == (pres_view(c), k));
        }
        (r, Ghost(log))
    }

    /// Compiles one rule: source-expression text and destination-path text.
    pub fn parse(&self, source: &str, destination: &str) -> (r: Result<Setter, Error>)
        ensures
            parse_rule(self.registry(), source@, destination@, seq![], false) == (rule_res_view(r), Seq::<ParseAnswer>::empty()),
            r is Ok ==> crate::path::wf_write(r->Ok_0.path()),
    {
        let (r, Ghost(log)) = self.parse_rule_core(None::<&NoRoutines>, source, destination);
        assert(log + Seq::<ParseAnswer>::empty() =~= Seq::<ParseAnswer>::empty());
        r
    }

    /// Compiles one rule, handing each call of a custom action to `routines`.
    pub fn parse_with<P: ParsableAction>(&self, routines: &P, source: &str, destination: &str) -> (r: Result<Setter, Error>)
        ensures
            exists|log: Seq<ParseAnswer>| parse_rule(self.registry(), source@, destination@, log, true) == (rule_res_view(r), Seq::<ParseAnswer>::empty()),
            r is Ok ==> crate::path::wf_write(r->Ok_0.path()),
    {
        let (r, Ghost(log)) = self.parse_rule_core(Some(routines), source, destination);
        assert(log + Seq::<ParseAnswer>::empty() =~= log);
        assert(parse_rule(self.registry(), source@, destination@, log + Seq::<ParseAnswer>::empty(), true) == (rule_res_view(r), Seq::<ParseAnswer>::empty()));
        r
    }

    fn parse_multi_core<P: ParsableAction>(&self, routines: Option<&P>, parsables: &Vec<Parsable>) -> (res: (Result<Vec<Setter>, Error>, Ghost<Seq<ParseAnswer>>))
        ensures
            forall|k: Seq<ParseAnswer>| #![trigger res.1@ + k]
                parse_rules(self.registry(), parsables_view(parsables@), res.1@ + k, routines is Some) == (rules_res_view(res.0), k),
            routines is None ==> res.1@ == Seq::<ParseAnswer>::empty(),
            res.0 is Ok ==> crate::transformer::wf_paths(crate::transformer::rules_view(res.0->Ok_0@)),
    {
        let ghost ext = routines is Some;
        let ghost reg = self.registry();
        let ghost pv = parsables_view(parsables@);
        let mut out: Vec<Setter> = Vec::new();
        let ghost mut log: Seq<ParseAnswer> = seq![];
        let mut i: usize = 0;
        assert forall|k: Seq<ParseAnswer>| #![trigger log + k]
            parse_rules(reg, pv.subrange(0, 0), log + k, ext) == (Ok::<Seq<(Seq<Seg>, Expr)>, Fail>(crate::transformer::rules_view(out@)), k) by {
            assert(pv.subrange(0, 0) =~= seq![]);
            assert(log + k =~= k);
            assert(crate::transformer::rules_view(out@) =~= seq![]);
        }
        while i < parsables.len()
            invariant
                i <= parsables@.len(),
                pv == parsables_view(parsables@),
                reg == self.registry(),
                ext == (routines is Some),
                !ext ==> log == Seq::<ParseAnswer>::empty(),
                forall|k: Seq<ParseAnswer>| #![trigger log + k]
                    parse_rules(reg, pv.subrange(0, i as int), log + k, ext) == (Ok::<Seq<(Seq<Seg>, Expr)>, Fail>(crate::transformer::rules_view(out@)), k),
                crate::transformer::wf_paths(crate::transformer::rules_view(out@)),
            decreases parsables.len() - i,
        {
            let ghost sub = pv.subrange(0, i + 1);
            assert(sub.drop_last() =~= pv.subrange(0, i as int));
            let ghost before = crate::transformer::rules_view(out@);
            let p = &parsables[i];
            let (c, Ghost(cl)) = self.parse_rule_core(routines, p.source.as_str(), p.destination.as_str());
            let ghost nlog = log + cl;
            assert forall|k: Seq<ParseAnswer>| #![trigger nlog + k]
                parse_rules(reg, sub, nlog + k, ext) == (match rule_res_view(c) {
                    Ok(x) => Ok::<Seq<(Seq<Seg>, Expr)>, Fail>(before.push(x)),
                    Err(f) => Err(f),
                }, k) by {
                assert(nlog + k =~= log + (cl + k));
                assert(parse_rules(reg, pv.subrange(0, i as int), log + (cl + k), ext) == (Ok::<Seq<(Seq<Seg>, Expr)>, Fail>(before), cl + k));
            }
            proof {
                if !ext {
                    assert(nlog =~= Seq::<ParseAnswer>::empty());
                }
            }
            match c {
                Ok(st) => {
                    out.push(st);
                    assert(crate::transformer::rules_view(out@) =~= before.push((st.path(), st.child())));
                    assert(crate::transformer::wf_paths(crate::transformer::rules_view(out@))) by {
                        let rv = crate::transformer::rules_view(out@);
                        assert forall|x: int| 0 <= x < rv.len() implies crate::path::wf_write(#[trigger] rv[x].0) by {
                            if x < before.len() {
                                assert(rv[x] == before[x]);
                            }
                        }
                    }
                    proof { log = nlog; }
                },
                Err(e) => {
                    let res: Result<Vec<Setter>, Error> = Err(e);
                    assert forall|k: Seq<ParseAnswer>| #![trigger nlog + k]
                        parse_rules(reg, pv, nlog + k, ext) == (rules_res_view(res), k) by {
                        lemma_parse_rules_stuck(reg, pv, i + 1, nlog + k, ext);
                    }
                    return (res, Ghost(nlog));
                },
            }
            i = i + 1;
        }
        assert(pv.subrange(0, i as int) =~= pv);
        (Ok(out), Ghost(log))
    }

    /// Compiles rules in order.
    pub fn parse_multi(&self, parsables: &Vec<Parsable>) -> (r: Result<Vec<Setter>, Error>)
        ensures
            parse_rules(self.registry(), parsables_view(parsables@), seq![], false) == (rules_res_view(r), Seq::<ParseAnswer>::empty()),
            r is Ok ==> crate::transformer::wf_paths(crate::transformer::rules_view(r->Ok_0@)),
    {
        let (r, Ghost(log)) = self.parse_multi_core(None::<&NoRoutines>, parsables);
        assert(log + Seq::<ParseAnswer>::empty() =~= Seq::<ParseAnswer>::empty());
        r
    }

    /// Compiles rules in order, handing each call of a custom action to `routines`.
    pub fn parse_multi_with<P: ParsableAction>(&self, routines: &P, parsables: &Vec<Parsable>) -> (r: Result<Vec<Setter>, Error>)
        ensures
            exists|log: Seq<ParseAnswer>| parse_rules(self.registry(), parsables_view(parsables@), log, true) == (rules_res_view(r), Seq::<ParseAnswer>::empty()),
            r is Ok ==> crate::transformer::wf_paths(crate::transformer::rules_view(r->Ok_0@)),
    {
        let (r, Ghost(log)) = self.parse_multi_core(Some(routines), parsables);
        assert(log + Seq::<ParseAnswer>::empty() =~= log);
        assert(parse_rules(self.registry(), parsables_view(parsables@), log + Seq::<ParseAnswer>::empty(), true) == (rules_res_view(r), Seq::<ParseAnswer>::empty()));
        r
    }
}

proof fn lemma_parse_list_stuck(reg: Seq<(Seq<char>, Routine)>, pv: Seq<Seq<char>>, m: int, bound: int, ans: Seq<ParseAnswer>, ext: bool)
    requires
        0 <= m <= pv.len(),
        parse_list(reg, pv.subrange(0, m), bound, ans, ext).0 is Err,
    ensures
        parse_list(reg, pv, bound, ans, ext) == parse_list(reg, pv.subrange(0, m), bound, ans, ext),
    decreases pv.len() - m,
{
    if m < pv.len() {
        let sub = pv.subrange(0, m + 1);
        assert(sub.drop_last() =~= pv.subrange(0, m));
        lemma_parse_list_stuck(reg, pv, m + 1, bound, ans, ext);
    } else {
        assert(pv.subrange(0, m) =~= pv);
    }
}

proof fn lemma_parse_rules_stuck(reg: Seq<(Seq<char>, Routine)>, pv: Seq<(Seq<char>, Seq<char>)>, m: int, ans: Seq<ParseAnswer>, ext: bool)
    requires
        0 <= m <= pv.len(),
        parse_rules(reg, pv.subrange(0, m), ans, ext).0 is Err,
    ensures
        parse_rules(reg, pv, ans, ext) == parse_rules(reg, pv.subrange(0, m), ans, ext),
    decreases pv.len() - m,
{
    if m < pv.len() {
        let sub = pv.subrange(0, m + 1);
        assert(sub.drop_last() =~= pv.subrange(0, m));
        lemma_parse_rules_stuck(reg, pv, m + 1, ans, ext);
    } else {
        assert(pv.subrange(0, m) =~= pv);
    }
}

} // verus!
