use vstd::prelude::*;
use crate::text::{push_char, push_nat, push_str, nat_text};

verus! {

broadcast use vstd::std_specs::vec::group_vec_axioms;

/// A JSON number. Integers keep their exact value (`NegInt` holds negative
/// values only); a floating value is kept as its canonical decimal text.
#[derive(Debug, PartialEq)]
pub enum Number {
    PosInt(u64),
    NegInt(i64),
    Float(String),
}

/// A tree-structured document: null, boolean, number, string, array, or an
/// object whose entries keep their order of insertion.
#[derive(Debug, PartialEq)]
pub enum Value {
    Null,
    Bool(bool),
    Number(Number),
    String(String),
    Array(Vec<Value>),
    Object(Vec<(String, Value)>),
}

/// The kind of a value, as reported by type errors.
#[derive(Debug, Clone, Copy, PartialEq, Eq)]
pub enum Kind {
    Null,
    Bool,
    Number,
    String,
    Array,
    Object,
}


/// The mathematical form of a number.
pub enum JNum {
    PosInt(u64),
    NegInt(i64),
    Float(Seq<char>),
}

/// The mathematical form of a document: strings are character sequences,
/// arrays are sequences, objects are sequences of (key, value) entries.
pub enum Json {
    Null,
    Bool(bool),
    Number(JNum),
    Str(Seq<char>),
    Array(Seq<Json>),
    Object(Seq<(Seq<char>, Json)>),
}

impl View for Number {
    type V = JNum;

    open spec fn view(&self) -> JNum {
        match self {
            Number::PosInt(n) => JNum::PosInt(*n),
            Number::NegInt(n) => JNum::NegInt(*n),
            Number::Float(s) => JNum::Float(s@),
        }
    }
}

pub open spec fn view_seq(s: Seq<Value>) -> Seq<Json>
    decreases s,
{
    if s.len() == 0 {
        seq![]
    } else {
        view_seq(s.subrange(0, s.len() - 1)).push(view_of(s[s.len() - 1]))
    }
}

pub open spec fn view_entries(s: Seq<(String, Value)>) -> Seq<(Seq<char>, Json)>
    decreases s,
{
    if s.len() == 0 {
        seq![]
    } else {
        view_entries(s.subrange(0, s.len() - 1)).push(
            (s[s.len() - 1].0@, view_of(s[s.len() - 1].1)),
        )
    }
}

pub open spec fn view_of(v: Value) -> Json
    decreases v,
{
    match v {
        Value::Null => Json::Null,
        Value::Bool(b) => Json::Bool(b),
        Value::Number(n) => Json::Number(n@),
        Value::String(s) => Json::Str(s@),
        Value::Array(a) => Json::Array(view_seq(a@)),
        Value::Object(o) => Json::Object(view_entries(o@)),
    }
}

impl View for Value {
    type V = Json;

    open spec fn view(&self) -> Json {
        view_of(*self)
    }
}

pub proof fn lemma_view_seq(s: Seq<Value>)
    ensures
        view_seq(s).len() == s.len(),
        forall|i: int| 0 <= i < s.len() ==> #[trigger] view_seq(s)[i] == view_of(s[i]),
    decreases s.len(),
{
    if s.len() > 0 {
        lemma_view_seq(s.subrange(0, s.len() - 1));
    }
}

pub proof fn lemma_view_entries(s: Seq<(String, Value)>)
    ensures
        view_entries(s).len() == s.len(),
        forall|i: int| 0 <= i < s.len() ==> #[trigger] view_entries(s)[i] == (s[i].0@, view_of(s[i].1)),
    decreases s.len(),
{
    if s.len() > 0 {
        lemma_view_entries(s.subrange(0, s.len() - 1));
    }
}

pub open spec fn kind_of(v: Json) -> Kind {
    match v {
        Json::Null => Kind::Null,
        Json::Bool(_) => Kind::Bool,
        Json::Number(_) => Kind::Number,
        Json::Str(_) => Kind::String,
        Json::Array(_) => Kind::Array,
        Json::Object(_) => Kind::Object,
    }
}

/// Index of the first entry whose key is `k`, or -1.
pub open spec fn find_key(entries: Seq<(Seq<char>, Json)>, k: Seq<char>) -> int
    decreases entries.len(),
{
    if entries.len() == 0 {
        -1
    } else if entries[0].0 == k {
        0
    } else {
        let i = find_key(entries.drop_first(), k);
        if i >= 0 { i + 1 } else { -1 }
    }
}

pub proof fn lemma_find_key(entries: Seq<(Seq<char>, Json)>, k: Seq<char>)
    ensures
        -1 <= find_key(entries, k) < entries.len(),
        find_key(entries, k) >= 0 ==> entries[find_key(entries, k)].0 == k,
        find_key(entries, k) >= 0 ==> forall|j: int|
            0 <= j < find_key(entries, k) ==> entries[j].0 != k,
        find_key(entries, k) < 0 ==> forall|j: int| 0 <= j < entries.len() ==> entries[j].0 != k,
    decreases entries.len(),
{
    if entries.len() > 0 {
        lemma_find_key(entries.drop_first(), k);
        assert(forall|j: int| 0 < j < entries.len() ==> entries.drop_first()[j - 1] == entries[j]);
    }
}

/// The value stored under `k` in an object's entries.
pub open spec fn lookup(entries: Seq<(Seq<char>, Json)>, k: Seq<char>) -> Option<Json> {
    let i = find_key(entries, k);
    if i >= 0 { Some(entries[i].1) } else { None }
}

/// Finds the first entry whose key is `k`.
pub fn position_of_key(entries: &Vec<(String, Value)>, k: &String) -> (r: Option<usize>)
    ensures
        match r {
            Some(i) => find_key(view_entries(entries@), k@) == i as int,
            None => find_key(view_entries(entries@), k@) == -1,
        },
{
    let ghost ve = view_entries(entries@);
    proof {
        lemma_find_key(ve, k@);
        lemma_view_entries(entries@);
    }
    let mut i: usize = 0;
    while i < entries.len()
        invariant
            i <= entries@.len(),
            ve == view_entries(entries@),
            ve.len() == entries@.len(),
            forall|j: int| 0 <= j < entries@.len() ==> #[trigger] ve[j] == (entries@[j].0@, view_of(entries@[j].1)),
            forall|j: int| 0 <= j < i ==> ve[j].0 != k@,
            -1 <= find_key(ve, k@) < ve.len(),
            find_key(ve, k@) >= 0 ==> ve[find_key(ve, k@)].0 == k@,
            find_key(ve, k@) >= 0 ==> forall|j: int| 0 <= j < find_key(ve, k@) ==> ve[j].0 != k@,
            find_key(ve, k@) < 0 ==> forall|j: int| 0 <= j < ve.len() ==> ve[j].0 != k@,
        decreases entries.len() - i,
    {
        if entries[i].0 == *k {
            assert(ve[i as int].0 == k@);
            return Some(i);
        }
        assert(ve[i as int].0 != k@);
        i = i + 1;
    }
    None
}

impl Number {
    /// A copy of this number.
    pub fn copy(&self) -> (r: Number)
        ensures
            r == *self,
    {
        match self {
            Number::PosInt(n) => Number::PosInt(*n),
            Number::NegInt(n) => Number::NegInt(*n),
            Number::Float(s) => Number::Float(s.clone()),
        }
    }
}

impl Clone for Number {
    fn clone(&self) -> (r: Number)
        ensures
            r == *self,
    {
        self.copy()
    }
}

impl Value {
    /// The kind of this value.
    pub fn kind(&self) -> (r: Kind)
        ensures
            r == kind_of(self@),
    {
        match self {
            Value::Null => Kind::Null,
            Value::Bool(_) => Kind::Bool,
            Value::Number(_) => Kind::Number,
            Value::String(_) => Kind::String,
            Value::Array(_) => Kind::Array,
            Value::Object(_) => Kind::Object,
        }
    }

    /// A deep copy of this value.
    pub fn copy(&self) -> (r: Value)
        ensures
            r@ == self@,
        decreases *self,
    {
        match self {
            Value::Null => Value::Null,
            Value::Bool(b) => Value::Bool(*b),
            Value::Number(n) => Value::Number(n.copy()),
            Value::String(s) => Value::String(s.clone()),
            Value::Array(a) => {
                let mut out: Vec<Value> = Vec::new();
                let mut i: usize = 0;
                while i < a.len()
                    invariant
                        i <= a@.len(),
                        *self == Value::Array(*a),
                        out@.len() == i,
                        forall|j: int| 0 <= j < i ==> view_of(#[trigger] out@[j]) == view_of(a@[j]),
                    decreases a.len() - i,
                {
                    proof {
                        assert(decreases_to!(*self => self->Array_0));
                        assert(decreases_to!(*a => a[i as int]));
                    }
                    let c = a[i].copy();
                    out.push(c);
                    i = i + 1;
                }
                proof {
                    lemma_view_seq(out@);
                    lemma_view_seq(a@);
                    assert(view_seq(out@) =~= view_seq(a@));
                }
                Value::Array(out)
            },
            Value::Object(o) => {
                let mut out: Vec<(String, Value)> = Vec::new();
                let mut i: usize = 0;
                while i < o.len()
                    invariant
                        i <= o@.len(),
                        *self == Value::Object(*o),
                        out@.len() == i,
                        forall|j: int| 0 <= j < i ==> (#[trigger] out@[j]).0 == o@[j].0 && view_of(out@[j].1) == view_of(o@[j].1),
                    decreases o.len() - i,
                {
                    proof {
                        assert(decreases_to!(*self => self->Object_0));
                        assert(decreases_to!(*o => o[i as int]));
                        assert(decreases_to!(o[i as int] => o[i as int].1));
                    }
                    let e = (o[i].0.clone(), o[i].1.copy());
                    out.push(e);
                    i = i + 1;
                }
                proof {
                    lemma_view_entries(out@);
                    lemma_view_entries(o@);
                    assert(view_entries(out@) =~= view_entries(o@));
                }
                Value::Object(out)
            },
        }
    }
}

impl Clone for Value {
    fn clone(&self) -> (r: Value)
        ensures
            r@ == self@,
    {
        self.copy()
    }
}

pub open spec fn hex_char(d: nat) -> char {
    if d < 10 { ((d + '0' as nat) as u32) as char } else { ((d - 10 + 'a' as nat) as u32) as char }
}

/// How one character of a string is written inside JSON quotes.
pub open spec fn escape_char(c: char) -> Seq<char> {
    if c == '"' {
        seq!['\\', '"']
    } else if c == '\\' {
        seq!['\\', '\\']
    } else if c == '\n' {
        seq!['\\', 'n']
    } else if c == '\r' {
        seq!['\\', 'r']
    } else if c == '\t' {
        seq!['\\', 't']
    } else if c == '\x08' {
        seq!['\\', 'b']
    } else if c == '\x0c' {
        seq!['\\', 'f']
    } else if (c as u32) < 0x20 {
        seq!['\\', 'u', '0', '0', hex_char((c as u32 / 16) as nat), hex_char((c as u32 % 16) as nat)]
    } else {
        seq![c]
    }
}

pub open spec fn escaped(s: Seq<char>) -> Seq<char>
    decreases s.len(),
{
    if s.len() == 0 {
        seq![]
    } else {
        escaped(s.drop_last()) + escape_char(s.last())
    }
}

pub open spec fn quoted(s: Seq<char>) -> Seq<char> {
    seq!['"'] + escaped(s) + seq!['"']
}

pub open spec fn number_text(n: JNum) -> Seq<char> {
    match n {
        JNum::PosInt(u) => nat_text(u as nat),
        JNum::NegInt(i) => if i < 0 { seq!['-'] + nat_text((-i) as nat) } else { nat_text(i as nat) },
        JNum::Float(t) => t,
    }
}

/// The compact JSON text of a value, with object entries in their order.
pub open spec fn json_text(v: Json) -> Seq<char>
    decreases v,
{
    match v {
        Json::Null => seq!['n', 'u', 'l', 'l'],
        Json::Bool(b) => if b { seq!['t', 'r', 'u', 'e'] } else { seq!['f', 'a', 'l', 's', 'e'] },
        Json::Number(n) => number_text(n),
        Json::Str(s) => quoted(s),
        Json::Array(a) => seq!['['] + items_text(a) + seq![']'],
        Json::Object(e) => seq!['{'] + entries_text(e) + seq!['}'],
    }
}

pub open spec fn items_text(a: Seq<Json>) -> Seq<char>
    decreases a,
{
    if a.len() == 0 {
        seq![]
    } else if a.len() == 1 {
        json_text(a[0])
    } else {
        items_text(a.subrange(0, a.len() - 1)) + seq![','] + json_text(a[a.len() - 1])
    }
}

pub open spec fn entries_text(e: Seq<(Seq<char>, Json)>) -> Seq<char>
    decreases e,
{
    if e.len() == 0 {
        seq![]
    } else if e.len() == 1 {
        quoted(e[0].0) + seq![':'] + json_text(e[0].1)
    } else {
        entries_text(e.subrange(0, e.len() - 1)) + seq![','] + quoted(e[e.len() - 1].0) + seq![':']
            + json_text(e[e.len() - 1].1)
    }
}

fn hex_char_exec(d: u32) -> (c: char)
    requires
        d < 16,
    ensures
        c == hex_char(d as nat),
{
    if d < 10 {
        crate::text::char_of_digit(d)
    } else if d == 10 { 'a' }
    else if d == 11 { 'b' }
    else if d == 12 { 'c' }
    else if d == 13 { 'd' }
    else if d == 14 { 'e' }
    else { 'f' }
}

/// Appends `s` in JSON quotes, escaped.
pub fn push_quoted(out: &mut String, s: &String)
    ensures
        final(out)@ == old(out)@ + quoted(s@),
{
    let cs = crate::text::chars_of(s.as_str());
    push_char(out, '"');
    let ghost base = out@;
    let mut i: usize = 0;
    assert(cs@.subrange(0, 0) =~= seq![]);
    while i < cs.len()
        invariant
            i <= cs@.len(),
            cs@ == s@,
            out@ == base + escaped(cs@.subrange(0, i as int)),
        decreases cs.len() - i,
    {
        let c = cs[i];
        assert(cs@.subrange(0, i + 1).drop_last() =~= cs@.subrange(0, i as int));
        let u = c as u32;
        if c == '"' {
            push_str(out, "\\\"");
        } else if c == '\\' {
            push_str(out, "\\\\");
        } else if c == '\n' {
            push_str(out, "\\n");
        } else if c == '\r' {
            push_str(out, "\\r");
        } else if c == '\t' {
            push_str(out, "\\t");
        } else if c == '\x08' {
            push_str(out, "\\b");
        } else if c == '\x0c' {
            push_str(out, "\\f");
        } else if u < 0x20 {
            push_str(out, "\\u00");
            push_char(out, hex_char_exec(u / 16));
            push_char(out, hex_char_exec(u % 16));
        } else {
            push_char(out, c);
        }
        proof { reveal_strlit("\\\""); reveal_strlit("\\\\"); reveal_strlit("\\n"); reveal_strlit("\\r");
            reveal_strlit("\\t"); reveal_strlit("\\b"); reveal_strlit("\\f"); reveal_strlit("\\u00"); }
        assert(out@ =~= base + escaped(cs@.subrange(0, i + 1)));
        i = i + 1;
    }
    assert(cs@.subrange(0, i as int) =~= s@);
    push_char(out, '"');
    assert(out@ =~= old(out)@ + quoted(s@));
}

/// Appends the text of a number.
pub fn push_number(out: &mut String, n: &Number)
    ensures
        final(out)@ == old(out)@ + number_text(n@),
{
    match n {
        Number::PosInt(u) => push_nat(out, *u),
        Number::NegInt(i) => {
            if *i < 0 {
                push_char(out, '-');
                let m = (0 - (*i as i128)) as u64;
                push_nat(out, m);
                assert(out@ =~= old(out)@ + number_text(n@));
            } else {
                push_nat(out, *i as u64);
            }
        },
        Number::Float(t) => {
            push_str(out, t.as_str());
        },
    }
}

impl Value {
    /// The compact JSON text of this value, object entries in their order.
    pub fn to_text(&self) -> (r: String)
        ensures
            r@ == json_text(self@),
    {
        let mut out = String::new();
        self.write_text(&mut out);
        assert(out@ =~= json_text(self@));
        out
    }

    /// Appends the compact JSON text of this value.
    pub fn write_text(&self, out: &mut String)
        ensures
            final(out)@ == old(out)@ + json_text(self@),
        decreases *self,
    {
        match self {
            Value::Null => {
                push_str(out, "null");
                proof { reveal_strlit("null"); }
            },
            Value::Bool(b) => {
                if *b {
                    push_str(out, "true");
                    proof { reveal_strlit("true"); }
                } else {
                    push_str(out, "false");
                    proof { reveal_strlit("false"); }
                }
            },
            Value::Number(n) => push_number(out, n),
            Value::String(s) => push_quoted(out, s),
            Value::Array(a) => {
                push_char(out, '[');
                let ghost base = out@;
                let ghost av = view_seq(a@);
                proof { lemma_view_seq(a@); }
                let mut i: usize = 0;
                assert(av.subrange(0, 0) =~= seq![]);
                while i < a.len()
                    invariant
                        i <= a@.len(),
                        *self == Value::Array(*a),
                        av == view_seq(a@),
                        av.len() == a@.len(),
                        forall|j: int| 0 <= j < a@.len() ==> #[trigger] av[j] == view_of(a@[j]),
                        out@ == base + items_text(av.subrange(0, i as int)),
                    decreases a.len() - i,
                {
                    proof {
                        assert(decreases_to!(*self => self->Array_0));
                        assert(decreases_to!(*a => a[i as int]));
                    }
                    let ghost sub = av.subrange(0, i + 1);
                    assert(sub.subrange(0, sub.len() - 1) =~= av.subrange(0, i as int));
                    if i > 0 {
                        push_char(out, ',');
                    }
                    a[i].write_text(out);
                    assert(out@ =~= base + items_text(sub));
                    i = i + 1;
                }
                assert(av.subrange(0, i as int) =~= av);
                push_char(out, ']');
                assert(out@ =~= old(out)@ + json_text(self@));
            },
            Value::Object(o) => {
                push_char(out, '{');
                let ghost base = out@;
                let ghost ov = view_entries(o@);
                proof { lemma_view_entries(o@); }
                let mut i: usize = 0;
                assert(ov.subrange(0, 0) =~= seq![]);
                while i < o.len()
                    invariant
                        i <= o@.len(),
                        *self == Value::Object(*o),
                        ov == view_entries(o@),
                        ov.len() == o@.len(),
                        forall|j: int| 0 <= j < o@.len() ==> #[trigger] ov[j] == (o@[j].0@, view_of(o@[j].1)),
                        out@ == base + entries_text(ov.subrange(0, i as int)),
                    decreases o.len() - i,
                {
                    proof {
                        assert(decreases_to!(*self => self->Object_0));
                        assert(decreases_to!(*o => o[i as int]));
                        assert(decreases_to!(o[i as int] => o[i as int].1));
                    }
                    let ghost sub = ov.subrange(0, i + 1);
                    assert(sub.subrange(0, sub.len() - 1) =~= ov.subrange(0, i as int));
                    if i > 0 {
                        push_char(out, ',');
                    }
                    push_quoted(out, &o[i].0);
                    push_char(out, ':');
                    o[i].1.write_text(out);
                    assert(out@ =~= base + entries_text(sub));
                    i = i + 1;
                }
                assert(ov.subrange(0, i as int) =~= ov);
                push_char(out, '}');
                assert(out@ =~= old(out)@ + json_text(self@));
            },
        }
    }
}

} // verus!
