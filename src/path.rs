//! The path grammar shared by read paths and write paths.
use vstd::prelude::*;
use crate::text::{chars_of, string_of};

verus! {

/// One step of a path, in mathematical form.
pub enum Seg {
    Key(Seq<char>),
    Index(usize),
    Append,
    MergeObject,
    MergeArray,
    CombineArray,
}

/// What is wrong with a path.
#[derive(Debug, Clone, Copy, PartialEq, Eq)]
pub enum Fault {
    /// A `.` at the start or at the end of the path, with nothing before it.
    DotNotation,
    /// The text between `[` and `]` is not an unsigned integer.
    ArrayIndex,
    /// A `[` without its `]`.
    MissingBracket,
    /// A `["` without its closing `"]`.
    ExplicitKey,
    /// `{}` not exactly so, or not at the end.
    MergeObject,
    /// `[-]` not exactly so, or not at the end.
    MergeArray,
    /// `[+]` not exactly so, or not at the end.
    CombineArray,
    /// `[]` not at the end.
    AppendArray,
}

pub open spec fn is_digit(c: char) -> bool {
    '0' <= c && c <= '9'
}

pub open spec fn all_digits(t: Seq<char>) -> bool {
    forall|i: int| 0 <= i < t.len() ==> is_digit(#[trigger] t[i])
}

/// The value of a run of decimal digits.
pub open spec fn digits_value(t: Seq<char>) -> nat
    decreases t.len(),
{
    if t.len() == 0 {
        0
    } else {
        digits_value(t.drop_last()) * 10 + (t.last() as nat - '0' as nat) as nat
    }
}

/// An unsigned integer in decimal, with an optional leading `+`, that fits a `usize`.
pub open spec fn parse_index(t: Seq<char>) -> Option<usize> {
    let d = if t.len() > 0 && t[0] == '+' { t.drop_first() } else { t };
    if d.len() > 0 && all_digits(d) && digits_value(d) <= usize::MAX {
        Some(digits_value(d) as usize)
    } else {
        None
    }
}

/// `t` with every backslash removed.
pub open spec fn unescape(t: Seq<char>) -> Seq<char>
    decreases t.len(),
{
    if t.len() == 0 {
        t
    } else if t.last() == '\\' {
        unescape(t.drop_last())
    } else {
        unescape(t.drop_last()).push(t.last())
    }
}

/// First index `k >= from` that holds `c`, or -1.
pub open spec fn find_char(s: Seq<char>, from: int, c: char) -> int
    decreases s.len() - from,
{
    if from < 0 || from >= s.len() {
        -1
    } else if s[from] == c {
        from
    } else {
        find_char(s, from + 1, c)
    }
}

/// First index `k >= from` (with `from >= 1`) of a `"` not preceded by a backslash, or -1.
pub open spec fn find_close_quote(s: Seq<char>, from: int) -> int
    decreases s.len() - from,
{
    if from < 1 || from >= s.len() {
        -1
    } else if s[from] == '"' && s[from - 1] != '\\' {
        from
    } else {
        find_close_quote(s, from + 1)
    }
}

pub open spec fn flush(acc: Seq<Seg>, buf: Seq<char>) -> Seq<Seg> {
    if buf.len() > 0 { acc.push(Seg::Key(buf)) } else { acc }
}

/// A terminal directive `open`, `close` at `i`, `i + 1`: it must end the path.
pub open spec fn directive(s: Seq<char>, i: int, close: char, acc: Seq<Seg>, seg: Seg, fault: Fault) -> Result<Seq<Seg>, Fault> {
    if i + 2 == s.len() && s[i + 1] == close {
        Ok(acc.push(seg))
    } else {
        Err(fault)
    }
}

/// The path grammar, scanned left to right from position `i`, with the pending
/// identifier `buf` and the segments `acc` found so far. In a write path
/// (`write`), `{}`, `[]`, `[-]` and `[+]` are directives that end the path.
pub open spec fn scan_from(s: Seq<char>, i: int, buf: Seq<char>, acc: Seq<Seg>, write: bool) -> Result<Seq<Seg>, Fault>
    decreases s.len() - i,
{
    if i < 0 || i >= s.len() {
        Ok(flush(acc, buf))
    } else {
        let c = s[i];
        if c == '.' {
            if buf.len() == 0 {
                if i == 0 || i + 1 == s.len() {
                    Err(Fault::DotNotation)
                } else {
                    scan_from(s, i + 1, buf, acc, write)
                }
            } else {
                scan_from(s, i + 1, seq![], acc.push(Seg::Key(buf)), write)
            }
        } else if c == '{' && write {
            directive(s, i, '}', flush(acc, buf), Seg::MergeObject, Fault::MergeObject)
        } else if c == '[' {
            let acc1 = flush(acc, buf);
            let j = i + 1;
            if j >= s.len() {
                Err(Fault::MissingBracket)
            } else if s[j] == '"' {
                let q = find_close_quote(s, j + 1);
                if q < j + 1 || q + 1 >= s.len() || s[q + 1] != ']' {
                    Err(Fault::ExplicitKey)
                } else {
                    scan_from(s, q + 2, seq![], acc1.push(Seg::Key(unescape(s.subrange(j + 1, q)))), write)
                }
            } else if write && s[j] == ']' {
                if j + 1 == s.len() { Ok(acc1.push(Seg::Append)) } else { Err(Fault::AppendArray) }
            } else if write && s[j] == '-' {
                directive(s, j, ']', acc1, Seg::MergeArray, Fault::MergeArray)
            } else if write && s[j] == '+' {
                directive(s, j, ']', acc1, Seg::CombineArray, Fault::CombineArray)
            } else {
                let k = find_char(s, j, ']');
                if k < j || k >= s.len() {
                    Err(Fault::MissingBracket)
                } else {
                    match parse_index(s.subrange(j, k)) {
                        Some(n) => scan_from(s, k + 1, seq![], acc1.push(Seg::Index(n)), write),
                        None => Err(Fault::ArrayIndex),
                    }
                }
            }
        } else {
            scan_from(s, i + 1, buf.push(c), acc, write)
        }
    }
}

/// The segments of path `s`, or what is wrong with it.
pub open spec fn scan(s: Seq<char>, write: bool) -> Result<Seq<Seg>, Fault> {
    scan_from(s, 0, seq![], seq![], write)
}

/// A write path whose directives, if any, stand only at its end.
pub open spec fn wf_write(p: Seq<Seg>) -> bool {
    forall|i: int| 0 <= i < p.len() - 1 ==> (#[trigger] p[i] is Key || p[i] is Index)
}

pub open spec fn all_plain(p: Seq<Seg>) -> bool {
    forall|i: int| 0 <= i < p.len() ==> (#[trigger] p[i] is Key || p[i] is Index)
}

proof fn lemma_scan_from_wf(s: Seq<char>, i: int, buf: Seq<char>, acc: Seq<Seg>)
    requires
        all_plain(acc),
    ensures
        scan_from(s, i, buf, acc, true) is Ok ==> wf_write(scan_from(s, i, buf, acc, true)->Ok_0),
    decreases s.len() - i,
{
    let acc1 = flush(acc, buf);
    assert(all_plain(acc1));
    assert forall|x: Seg| #![auto] all_plain(acc1) implies wf_write(acc1.push(x)) by {
        assert forall|k: int| 0 <= k < acc1.push(x).len() - 1 implies (#[trigger] acc1.push(x)[k] is Key || acc1.push(x)[k] is Index) by {
            assert(acc1.push(x)[k] == acc1[k]);
        }
    }
    if i < 0 || i >= s.len() {
    } else {
        let c = s[i];
        if c == '.' {
            if buf.len() == 0 {
                if !(i == 0 || i + 1 == s.len()) {
                    lemma_scan_from_wf(s, i + 1, buf, acc);
                }
            } else {
                let a2 = acc.push(Seg::Key(buf));
                assert(all_plain(a2)) by {
                    assert forall|k: int| 0 <= k < a2.len() implies (#[trigger] a2[k] is Key || a2[k] is Index) by {
                        if k < acc.len() { assert(a2[k] == acc[k]); }
                    }
                }
                lemma_scan_from_wf(s, i + 1, seq![], a2);
            }
        } else if c == '{' {
        } else if c == '[' {
            let j = i + 1;
            if j < s.len() {
                if s[j] == '"' {
                    let q = find_close_quote(s, j + 1);
                    if !(q < j + 1 || q + 1 >= s.len() || s[q + 1] != ']') {
                        let a2 = acc1.push(Seg::Key(unescape(s.subrange(j + 1, q))));
                        assert(all_plain(a2)) by {
                            assert forall|k: int| 0 <= k < a2.len() implies (#[trigger] a2[k] is Key || a2[k] is Index) by {
                                if k < acc1.len() { assert(a2[k] == acc1[k]); }
                            }
                        }
                        lemma_scan_from_wf(s, q + 2, seq![], a2);
                    }
                } else if s[j] == ']' || s[j] == '-' || s[j] == '+' {
                } else {
                    let k = find_char(s, j, ']');
                    if !(k < j || k >= s.len()) {
                        match parse_index(s.subrange(j, k)) {
                            Some(n) => {
                                let a2 = acc1.push(Seg::Index(n));
                                assert(all_plain(a2)) by {
                                    assert forall|x: int| 0 <= x < a2.len() implies (#[trigger] a2[x] is Key || a2[x] is Index) by {
                                        if x < acc1.len() { assert(a2[x] == acc1[x]); }
                                    }
                                }
                                lemma_scan_from_wf(s, k + 1, seq![], a2);
                            },
                            None => {},
                        }
                    }
                }
            }
        } else {
            lemma_scan_from_wf(s, i + 1, buf.push(c), acc);
        }
    }
}

/// A write path that parses has its directives, if any, only at its end.
pub proof fn lemma_write_scan_wf(s: Seq<char>)
    ensures
        scan(s, true) is Ok ==> wf_write(scan(s, true)->Ok_0),
{
    lemma_scan_from_wf(s, 0, seq![], seq![]);
}

/// A path is of keys and indexes only where its directives stand only at its
/// end and its last step is a key or an index.
pub proof fn lemma_plain_of_wf(p: Seq<Seg>)
    requires
        wf_write(p),
        p.len() == 0 || p.last() is Key || p.last() is Index,
    ensures
        all_plain(p),
{
}

/// A path segment as the scanner produces it.
#[derive(Debug, PartialEq)]
pub enum Segment {
    Key(String),
    Index(usize),
    Append,
    MergeObject,
    MergeArray,
    CombineArray,
}

impl View for Segment {
    type V = Seg;

    open spec fn view(&self) -> Seg {
        match self {
            Segment::Key(k) => Seg::Key(k@),
            Segment::Index(n) => Seg::Index(*n),
            Segment::Append => Seg::Append,
            Segment::MergeObject => Seg::MergeObject,
            Segment::MergeArray => Seg::MergeArray,
            Segment::CombineArray => Seg::CombineArray,
        }
    }
}

pub open spec fn segs_view(v: Seq<Segment>) -> Seq<Seg> {
    v.map_values(|x: Segment| x@)
}

fn parse_index_exec(s: &Vec<char>, start: usize, end: usize) -> (r: Option<usize>)
    requires
        start <= end <= s@.len(),
    ensures
        r == parse_index(s@.subrange(start as int, end as int)),
{
    let ghost t = s@.subrange(start as int, end as int);
    let mut k = start;
    if start < end && s[start] == '+' {
        k = start + 1;
    }
    let ghost d = s@.subrange(k as int, end as int);
    if start < end && s[start] == '+' {
        assert(d =~= t.drop_first());
    } else {
        assert(d =~= t);
    }
    if k == end {
        assert(d.len() == 0);
        return None;
    }
    let mut v: usize = 0;
    let mut i = k;
    while i < end
        invariant
            k <= i <= end <= s@.len(),
            k < end,
            d == s@.subrange(k as int, end as int),
            t == s@.subrange(start as int, end as int),
            d == (if t.len() > 0 && t[0] == '+' { t.drop_first() } else { t }),
            all_digits(s@.subrange(k as int, i as int)),
            v as nat == digits_value(s@.subrange(k as int, i as int)),
        decreases end - i,
    {
        let c = s[i];
        assert(s@.subrange(k as int, i as int + 1).drop_last() =~= s@.subrange(k as int, i as int));
        if !('0' <= c && c <= '9') {
            assert(d[i - k] == c);
            assert(!is_digit(d[i - k]));
            assert(!all_digits(d));
            return None;
        }
        let dv = (c as u32 - '0' as u32) as usize;
        if v > (usize::MAX - dv) / 10 {
            proof {
                let p = s@.subrange(k as int, i as int + 1);
                assert(p.drop_last() =~= s@.subrange(k as int, i as int));
                assert(p.last() == c);
                assert(digits_value(p) == v * 10 + dv);
                assert(v * 10 + dv > usize::MAX) by (nonlinear_arith)
                    requires v > (usize::MAX - dv) / 10, dv <= 9;
                if all_digits(d) {
                    lemma_digits_value_mono(d, (i - k + 1) as int);
                    assert(d.subrange(0, i - k + 1) =~= p);
                }
            }
            return None;
        }
        assert(v * 10 + dv <= usize::MAX) by (nonlinear_arith)
            requires v <= (usize::MAX - dv) / 10, dv <= 9;
        v = v * 10 + dv;
        proof {
            let p = s@.subrange(k as int, i as int + 1);
            assert(p.drop_last() =~= s@.subrange(k as int, i as int));
            assert(p.last() == c);
            assert(all_digits(p)) by {
                assert forall|x: int| 0 <= x < p.len() implies is_digit(#[trigger] p[x]) by {
                    if x < p.len() - 1 {
                        assert(p[x] == s@.subrange(k as int, i as int)[x]);
                    }
                }
            }
        }
        i = i + 1;
    }
    assert(d =~= s@.subrange(k as int, i as int));
    Some(v)
}

/// A prefix of a digit run never has a larger value than the run.
pub proof fn lemma_digits_value_mono(d: Seq<char>, n: int)
    requires
        0 <= n <= d.len(),
        all_digits(d),
    ensures
        digits_value(d.subrange(0, n)) <= digits_value(d),
    decreases d.len() - n,
{
    if n < d.len() {
        lemma_digits_value_mono(d, n + 1);
        assert(d.subrange(0, n + 1).drop_last() =~= d.subrange(0, n));
    } else {
        assert(d.subrange(0, n) =~= d);
    }
}

/// The characters `s[a..b]` without their backslashes.
fn unescaped_string(s: &Vec<char>, a: usize, b: usize) -> (r: String)
    requires
        a <= b <= s@.len(),
    ensures
        r@ == unescape(s@.subrange(a as int, b as int)),
{
    let mut r = String::new();
    let mut x = a;
    assert(s@.subrange(a as int, a as int).len() == 0);
    while x < b
        invariant
            a <= x <= b <= s@.len(),
            r@ == unescape(s@.subrange(a as int, x as int)),
        decreases b - x,
    {
        let c = s[x];
        assert(s@.subrange(a as int, x as int + 1).drop_last() =~= s@.subrange(a as int, x as int));
        if c != '\\' {
            crate::text::push_char(&mut r, c);
        }
        x = x + 1;
    }
    r
}

fn push_segment(acc: &mut Vec<Segment>, seg: Segment)
    ensures
        segs_view(final(acc)@) == segs_view(old(acc)@).push(seg@),
{
    acc.push(seg);
    assert(segs_view(acc@) =~= segs_view(old(acc)@).push(seg@));
}

/// Pushes the pending identifier `s[start..i]` as a key, if it is not empty.
fn flush_key(acc: &mut Vec<Segment>, s: &Vec<char>, start: usize, i: usize)
    requires
        start <= i <= s@.len(),
    ensures
        segs_view(final(acc)@) == flush(segs_view(old(acc)@), s@.subrange(start as int, i as int)),
{
    if start < i {
        let key = string_of(s, start, i);
        push_segment(acc, Segment::Key(key));
    }
}

/// Splits a path into its segments. In a write path (`write`) the directives
/// `{}`, `[]`, `[-]` and `[+]` are recognised; each must end the path.
pub fn scan_path(input: &str, write: bool) -> (r: Result<Vec<Segment>, Fault>)
    ensures
        match r {
            Ok(v) => scan(input@, write) == Ok::<Seq<Seg>, Fault>(segs_view(v@)),
            Err(f) => scan(input@, write) == Err::<Seq<Seg>, Fault>(f),
        },
{
    let s = chars_of(input);
    let n = s.len();
    let mut acc: Vec<Segment> = Vec::new();
    let mut i: usize = 0;
    let mut start: usize = 0;
    assert(segs_view(acc@) =~= seq![]);
    assert(s@.subrange(0, 0) =~= seq![]);
    while i < n
        invariant
            start <= i <= n == s@.len(),
            s@ == input@,
            scan(s@, write) == scan_from(s@, i as int, s@.subrange(start as int, i as int), segs_view(acc@), write),
        decreases n - i,
    {
        let c = s[i];
        let ghost buf = s@.subrange(start as int, i as int);
        let ghost av = segs_view(acc@);
        if c == '.' {
            if start == i {
                if i == 0 || i + 1 == n {
                    return Err(Fault::DotNotation);
                }
                i = i + 1;
                start = i;
                assert(s@.subrange(start as int, i as int) =~= buf);
            } else {
                flush_key(&mut acc, &s, start, i);
                i = i + 1;
                start = i;
                assert(s@.subrange(start as int, i as int) =~= seq![]);
            }
        } else if c == '{' && write {
            flush_key(&mut acc, &s, start, i);
            if n - i == 2 && s[i + 1] == '}' {
                push_segment(&mut acc, Segment::MergeObject);
                return Ok(acc);
            }
            return Err(Fault::MergeObject);
        } else if c == '[' {
            flush_key(&mut acc, &s, start, i);
            let j = i + 1;
            if j >= n {
                return Err(Fault::MissingBracket);
            }
            if s[j] == '"' {
                let mut q = j + 1;
                while q < n && !(s[q] == '"' && s[q - 1] != '\\')
                    invariant
                        j + 1 <= q <= n == s@.len(),
                        find_close_quote(s@, j as int + 1) == find_close_quote(s@, q as int),
                    decreases n - q,
                {
                    q = q + 1;
                }
                if q >= n || q + 1 >= n || s[q + 1] != ']' {
                    return Err(Fault::ExplicitKey);
                }
                let key = unescaped_string(&s, j + 1, q);
                push_segment(&mut acc, Segment::Key(key));
                i = q + 2;
                start = i;
                assert(s@.subrange(start as int, i as int) =~= seq![]);
            } else if write && s[j] == ']' {
                if j + 1 == n {
                    push_segment(&mut acc, Segment::Append);
                    return Ok(acc);
                }
                return Err(Fault::AppendArray);
            } else if write && s[j] == '-' {
                if n - j == 2 && s[j + 1] == ']' {
                    push_segment(&mut acc, Segment::MergeArray);
                    return Ok(acc);
                }
                return Err(Fault::MergeArray);
            } else if write && s[j] == '+' {
                if n - j == 2 && s[j + 1] == ']' {
                    push_segment(&mut acc, Segment::CombineArray);
                    return Ok(acc);
                }
                return Err(Fault::CombineArray);
            } else {
                let mut k = j;
                while k < n && s[k] != ']'
                    invariant
                        j <= k <= n == s@.len(),
                        find_char(s@, j as int, ']') == find_char(s@, k as int, ']'),
                    decreases n - k,
                {
                    k = k + 1;
                }
                if k >= n {
                    return Err(Fault::MissingBracket);
                }
                match parse_index_exec(&s, j, k) {
                    Some(v) => {
                        push_segment(&mut acc, Segment::Index(v));
                        i = k + 1;
                        start = i;
                        assert(s@.subrange(start as int, i as int) =~= seq![]);
                    },
                    None => {
                        return Err(Fault::ArrayIndex);
                    },
                }
            }
        } else {
            i = i + 1;
            assert(s@.subrange(start as int, i as int) =~= buf.push(c));
        }
    }
    flush_key(&mut acc, &s, start, i);
    Ok(acc)
}

} // verus!
