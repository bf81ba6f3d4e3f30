//! The action nodes that rules compile to, and their evaluation.
use vstd::prelude::*;
use crate::errors::Error;
use crate::encode::{record_value, field, fields2};
use vstd::string::StringSliceAdditionalSpecFns;
use crate::getter::{Getter, get_path};
use crate::path::Seg;
use crate::setter::{Error as SetterError, Operation};
use crate::text::{trim, trim_start, trim_end, chars_of, string_of, trim_bounds, push_str};
use crate::value::{JNum, Json, Number, Value, json_text, kind_of, view_seq, lemma_view_seq};

pub mod strip;
pub mod trim;

verus! {

/// Evaluation of what the library cannot compute itself: custom actions,
/// registered by the caller, and sums that involve floating-point numbers.
pub trait Host {
    /// Evaluates the custom action `name` on what its argument produced, with
    /// the whole source document at hand.
    fn apply_custom(&self, name: &String, input: Option<Value>, source: &Value) -> Result<Option<Value>, String>;

    /// The canonical decimal text of the 64-bit floating-point sum of `terms`, added in order.
    fn float_sum(&self, terms: &Vec<Number>) -> String;

    /// The 64-bit floating-point sum of the integer `terms`, added in order,
    /// converted to `i64` as `as` converts (saturating).
    fn int_sum(&self, terms: &Vec<Number>) -> i64;
}

/// Returns a fixed value.
#[derive(Debug, PartialEq)]
pub struct Constant {
    value: Value,
}

/// Concatenates the text of its children's results, with a separator between them.
#[derive(Debug, PartialEq)]
pub struct Join {
    sep: String,
    values: Vec<Action>,
}

/// Adds the numbers its children produce.
#[derive(Debug, PartialEq)]
pub struct Sum {
    values: Vec<Action>,
}

/// The length of a string (in UTF-8 bytes), an array or an object.
#[derive(Debug, PartialEq)]
pub struct Len {
    action: Box<Action>,
}

/// The number of elements of an array.
#[derive(Debug, PartialEq)]
pub struct Count {
    value: Box<Action>,
}

/// Cuts whitespace from a string.
#[derive(Debug, PartialEq)]
pub struct Trim {
    kind: trim::Type,
    action: Box<Action>,
}

/// Removes a literal prefix or suffix from a string.
#[derive(Debug, PartialEq)]
pub struct Strip {
    kind: strip::Type,
    trim: String,
    action: Box<Action>,
}

/// An action registered by the caller under a name; its host evaluates it.
#[derive(Debug, PartialEq)]
pub struct Custom {
    name: String,
    action: Box<Action>,
}

/// A compiled source expression.
#[derive(Debug, PartialEq)]
pub enum Action {
    Constant(Constant),
    Getter(Getter),
    Join(Join),
    Sum(Sum),
    Len(Len),
    Count(Count),
    Trim(Trim),
    Strip(Strip),
    Custom(Custom),
}

/// The mathematical form of an action.
pub enum Expr {
    Constant(Json),
    Getter(Seq<Seg>),
    Join(Seq<char>, Seq<Expr>),
    Sum(Seq<Expr>),
    Len(Box<Expr>),
    Count(Box<Expr>),
    Trim(trim::Type, Box<Expr>),
    Strip(strip::Type, Seq<char>, Box<Expr>),
    Custom(Seq<char>, Box<Expr>),
}

pub closed spec fn expr_of(a: Action) -> Expr
    decreases a,
{
    match a {
        Action::Constant(c) => Expr::Constant(c.value@),
        Action::Getter(g) => Expr::Getter(g.path()),
        Action::Join(j) => Expr::Join(j.sep@, exprs_of(j.values@)),
        Action::Sum(s) => Expr::Sum(exprs_of(s.values@)),
        Action::Len(l) => Expr::Len(Box::new(expr_of(*l.action))),
        Action::Count(c) => Expr::Count(Box::new(expr_of(*c.value))),
        Action::Trim(t) => Expr::Trim(t.kind, Box::new(expr_of(*t.action))),
        Action::Strip(s) => Expr::Strip(s.kind, s.trim@, Box::new(expr_of(*s.action))),
        Action::Custom(c) => Expr::Custom(c.name@, Box::new(expr_of(*c.action))),
    }
}

pub closed spec fn exprs_of(s: Seq<Action>) -> Seq<Expr>
    decreases s,
{
    if s.len() == 0 {
        seq![]
    } else {
        exprs_of(s.subrange(0, s.len() - 1)).push(expr_of(s[s.len() - 1]))
    }
}

impl View for Action {
    type V = Expr;

    open spec fn view(&self) -> Expr {
        expr_of(*self)
    }
}

pub proof fn lemma_exprs_of(s: Seq<Action>)
    ensures
        exprs_of(s).len() == s.len(),
        forall|i: int| 0 <= i < s.len() ==> #[trigger] exprs_of(s)[i] == s[i]@,
    decreases s.len(),
{
    reveal_with_fuel(exprs_of, 1);
    if s.len() > 0 {
        lemma_exprs_of(s.subrange(0, s.len() - 1));
    }
}

pub open spec fn actions_view(s: Seq<Action>) -> Seq<Expr> {
    s.map_values(|a: Action| a@)
}

/// A getter never fails: it yields what its read path addresses in the
/// source, or nothing.
pub proof fn lemma_getter_never_fails(p: Seq<Seg>, src: Json, ans: Seq<Answer>)
    ensures
        eval(Expr::Getter(p), src, ans) == (Ok::<Option<Json>, Failure>(get_path(src, p)), ans),
{
}

pub proof fn lemma_getter_view(g: Getter)
    ensures
        Action::Getter(g)@ == Expr::Getter(g.path()),
{
}

pub proof fn lemma_exprs_of_view(s: Seq<Action>)
    ensures
        exprs_of(s) == actions_view(s),
{
    lemma_exprs_of(s);
    assert(exprs_of(s) =~= actions_view(s));
}

/// What a child contributes to a join: the string itself, or the JSON text of
/// any other value; nothing and empty strings contribute nothing.
pub open spec fn contribution(v: Option<Json>) -> Seq<Seq<char>> {
    match v {
        None => seq![],
        Some(Json::Str(s)) => if s.len() == 0 { seq![] } else { seq![s] },
        Some(other) => seq![json_text(other)],
    }
}

/// `parts` with `sep` between each two.
pub open spec fn join_with(parts: Seq<Seq<char>>, sep: Seq<char>) -> Seq<char>
    decreases parts.len(),
{
    if parts.len() == 0 {
        seq![]
    } else if parts.len() == 1 {
        parts[0]
    } else {
        join_with(parts.drop_last(), sep) + sep + parts.last()
    }
}

/// The numbers a value contributes to a sum: itself, or the numbers directly inside an array.
pub open spec fn numbers_of(v: Option<Json>) -> Seq<JNum> {
    match v {
        Some(Json::Number(n)) => seq![n],
        Some(Json::Array(a)) => numbers_in(a),
        _ => seq![],
    }
}

pub open spec fn numbers_in(a: Seq<Json>) -> Seq<JNum>
    decreases a.len(),
{
    if a.len() == 0 {
        seq![]
    } else {
        numbers_in(a.drop_last()) + match a.last() {
            Json::Number(n) => seq![n],
            _ => seq![],
        }
    }
}

pub open spec fn has_float(ts: Seq<JNum>) -> bool {
    exists|i: int| 0 <= i < ts.len() && ts[i] is Float
}

pub open spec fn int_of(n: JNum) -> int {
    match n {
        JNum::PosInt(u) => u as int,
        JNum::NegInt(i) => i as int,
        JNum::Float(_) => 0,
    }
}

/// The running sum of `ts`, added in order.
pub open spec fn int_total(ts: Seq<JNum>) -> int
    decreases ts.len(),
{
    if ts.len() == 0 { 0 } else { int_total(ts.drop_last()) + int_of(ts.last()) }
}

/// Within `±2^53`, where every integer is exact as a 64-bit float.
pub open spec fn exact_range(x: int) -> bool {
    -0x20_0000_0000_0000 <= x && x <= 0x20_0000_0000_0000
}

/// Every term and every running sum of `ts` lies within `±2^53`: adding the
/// terms in order as 64-bit floats then gives the exact integer sum.
pub open spec fn fits_exactly(ts: Seq<JNum>) -> bool
    decreases ts.len(),
{
    ts.len() == 0 || (fits_exactly(ts.drop_last()) && exact_range(int_of(ts.last())) && exact_range(int_total(ts)))
}

pub open spec fn int_number(x: int) -> JNum {
    if x >= 0 { JNum::PosInt(x as u64) } else { JNum::NegInt(x as i64) }
}

pub open spec fn len_of(v: Json) -> Option<Json> {
    match v {
        Json::Str(s) => Some(Json::Number(JNum::PosInt((vstd::utf8::encode_utf8(s).len() as usize) as u64))),
        Json::Array(a) => Some(Json::Number(JNum::PosInt(a.len() as u64))),
        Json::Object(e) => Some(Json::Number(JNum::PosInt(e.len() as u64))),
        _ => None,
    }
}

pub open spec fn trimmed(t: trim::Type, s: Seq<char>) -> Seq<char> {
    match t {
        trim::Type::Trim => trim(s),
        trim::Type::TrimStart => trim_start(s),
        trim::Type::TrimEnd => trim_end(s),
    }
}

/// `s` without `lit` at the chosen end, or `s` itself where `lit` is not there.
pub open spec fn stripped(t: strip::Type, lit: Seq<char>, s: Seq<char>) -> Seq<char> {
    match t {
        strip::Type::StripPrefix => if lit.len() <= s.len() && s.subrange(0, lit.len() as int) == lit {
            s.subrange(lit.len() as int, s.len() as int)
        } else {
            s
        },
        strip::Type::StripSuffix => if lit.len() <= s.len() && s.subrange(s.len() - lit.len(), s.len() as int) == lit {
            s.subrange(0, s.len() - lit.len())
        } else {
            s
        },
    }
}

/// What the host answered to one question, with the question.
pub enum Answer {
    /// The custom action `name` was evaluated on `input`.
    Custom { name: Seq<char>, input: Option<Json>, output: Result<Option<Json>, Seq<char>> },
    /// The float text of the 64-bit floating-point sum of `terms`.
    FloatSum { terms: Seq<JNum>, output: Seq<char> },
    /// The 64-bit floating-point sum of the integer `terms`, as an `i64`.
    IntSum { terms: Seq<JNum>, output: i64 },
}

/// Why an evaluation failed; `Unanswered` marks a log of answers that does not
/// fit the questions asked, which no evaluation returns.
pub enum Failure {
    Setter(SetterError),
    Custom(Seq<char>),
    Unanswered,
}

pub open spec fn len_step(v: Option<Json>) -> Option<Json> {
    match v {
        Some(x) => len_of(x),
        None => None,
    }
}

/// `count`: the length of an array, 0 for nothing, a type error for anything else.
pub open spec fn count_step(v: Option<Json>) -> Result<Option<Json>, Failure> {
    match v {
        None => Ok(Some(Json::Number(JNum::PosInt(0)))),
        Some(Json::Array(a)) => Ok(Some(Json::Number(JNum::PosInt(a.len() as u64)))),
        Some(x) => Err(Failure::Setter(SetterError::InvalidDestinationType { found: kind_of(x), operation: Operation::Count })),
    }
}

pub open spec fn trim_step(t: trim::Type, v: Option<Json>) -> Option<Json> {
    match v {
        Some(Json::Str(s)) => Some(Json::Str(trimmed(t, s))),
        _ => None,
    }
}

pub open spec fn strip_step(t: strip::Type, lit: Seq<char>, v: Option<Json>) -> Option<Json> {
    match v {
        Some(Json::Str(s)) => Some(Json::Str(stripped(t, lit, s))),
        _ => None,
    }
}

/// The value of a sum of the terms `ts`; the host adds floats, and integers
/// whose running sum leaves `±2^53`. Answers are taken from `ans` in order.
pub open spec fn sum_outcome(ts: Seq<JNum>, ans: Seq<Answer>) -> (Result<Option<Json>, Failure>, Seq<Answer>) {
    if has_float(ts) {
        if ans.len() > 0 && ans[0] is FloatSum && ans[0]->FloatSum_terms == ts {
            (Ok(Some(Json::Number(JNum::Float(ans[0]->FloatSum_output)))), ans.drop_first())
        } else {
            (Err(Failure::Unanswered), ans)
        }
    } else if fits_exactly(ts) {
        (Ok(Some(Json::Number(int_number(int_total(ts))))), ans)
    } else if ans.len() > 0 && ans[0] is IntSum && ans[0]->IntSum_terms == ts {
        (Ok(Some(Json::Number(int_number(ans[0]->IntSum_output as int)))), ans.drop_first())
    } else {
        (Err(Failure::Unanswered), ans)
    }
}

/// The custom action `name` on `v`, as the next answer of `ans` gives it.
pub open spec fn custom_outcome(name: Seq<char>, v: Option<Json>, ans: Seq<Answer>) -> (Result<Option<Json>, Failure>, Seq<Answer>) {
    if ans.len() > 0 && ans[0] is Custom && ans[0]->Custom_name == name && ans[0]->Custom_input == v {
        (match ans[0]->Custom_output {
            Ok(y) => Ok(y),
            Err(m) => Err(Failure::Custom(m)),
        }, ans.drop_first())
    } else {
        (Err(Failure::Unanswered), ans)
    }
}

/// Evaluating `e` against `src`, children in order, where the host's answers
/// are taken from `ans` in the order the questions are asked; also the answers
/// left over. `Ok(None)` is "nothing".
pub open spec fn eval(e: Expr, src: Json, ans: Seq<Answer>) -> (Result<Option<Json>, Failure>, Seq<Answer>)
    decreases e,
{
    match e {
        Expr::Constant(v) => (Ok(Some(v)), ans),
        Expr::Getter(p) => (Ok(get_path(src, p)), ans),
        Expr::Join(sep, cs) => {
            let (r, rest) = join_parts(cs, src, ans);
            (match r {
                Ok(ps) => Ok(if ps.len() == 0 { None } else { Some(Json::Str(join_with(ps, sep))) }),
                Err(f) => Err(f),
            }, rest)
        },
        Expr::Sum(cs) => {
            let (r, rest) = sum_terms(cs, src, ans);
            match r {
                Ok(ts) => sum_outcome(ts, rest),
                Err(f) => (Err(f), rest),
            }
        },
        Expr::Len(c) => {
            let (r, rest) = eval(*c, src, ans);
            (match r { Ok(v) => Ok(len_step(v)), Err(f) => Err(f) }, rest)
        },
        Expr::Count(c) => {
            let (r, rest) = eval(*c, src, ans);
            (match r { Ok(v) => count_step(v), Err(f) => Err(f) }, rest)
        },
        Expr::Trim(t, c) => {
            let (r, rest) = eval(*c, src, ans);
            (match r { Ok(v) => Ok(trim_step(t, v)), Err(f) => Err(f) }, rest)
        },
        Expr::Strip(t, lit, c) => {
            let (r, rest) = eval(*c, src, ans);
            (match r { Ok(v) => Ok(strip_step(t, lit, v)), Err(f) => Err(f) }, rest)
        },
        Expr::Custom(n, c) => {
            let (r, rest) = eval(*c, src, ans);
            match r {
                Ok(v) => custom_outcome(n, v, rest),
                Err(f) => (Err(f), rest),
            }
        },
    }
}

/// The contributions of the children `cs` of a join, evaluated in order.
pub open spec fn join_parts(cs: Seq<Expr>, src: Json, ans: Seq<Answer>) -> (Result<Seq<Seq<char>>, Failure>, Seq<Answer>)
    decreases cs,
{
    if cs.len() == 0 {
        (Ok(seq![]), ans)
    } else {
        let (r, rest) = join_parts(cs.subrange(0, cs.len() - 1), src, ans);
        match r {
            Ok(ps) => {
                let (v, rest2) = eval(cs[cs.len() - 1], src, rest);
                (match v { Ok(x) => Ok(ps + contribution(x)), Err(f) => Err(f) }, rest2)
            },
            Err(f) => (Err(f), rest),
        }
    }
}

/// The numeric terms of the children `cs` of a sum, evaluated in order.
pub open spec fn sum_terms(cs: Seq<Expr>, src: Json, ans: Seq<Answer>) -> (Result<Seq<JNum>, Failure>, Seq<Answer>)
    decreases cs,
{
    if cs.len() == 0 {
        (Ok(seq![]), ans)
    } else {
        let (r, rest) = sum_terms(cs.subrange(0, cs.len() - 1), src, ans);
        match r {
            Ok(ts) => {
                let (v, rest2) = eval(cs[cs.len() - 1], src, rest);
                (match v { Ok(x) => Ok(ts + numbers_of(x)), Err(f) => Err(f) }, rest2)
            },
            Err(f) => (Err(f), rest),
        }
    }
}

pub open spec fn opt_view(v: Option<Value>) -> Option<Json> {
    match v {
        Some(x) => Some(x@),
        None => None,
    }
}

pub open spec fn host_output(r: Result<Option<Value>, String>) -> Result<Option<Json>, Seq<char>> {
    match r {
        Ok(y) => Ok(opt_view(y)),
        Err(m) => Err(m@),
    }
}

pub open spec fn failure_of(e: Error) -> Failure {
    match e {
        Error::Setter(x) => Failure::Setter(x),
        Error::Custom(m) => Failure::Custom(m@),
    }
}

pub open spec fn res_view(r: Result<Option<Value>, Error>) -> Result<Option<Json>, Failure> {
    match r {
        Ok(v) => Ok(opt_view(v)),
        Err(e) => Err(failure_of(e)),
    }
}

pub open spec fn nums_view(s: Seq<Number>) -> Seq<JNum> {
    s.map_values(|n: Number| n@)
}

proof fn lemma_join_parts_stuck(cs: Seq<Expr>, m: int, src: Json, ans: Seq<Answer>)
    requires
        0 <= m <= cs.len(),
        join_parts(cs.subrange(0, m), src, ans).0 is Err,
    ensures
        join_parts(cs, src, ans) == join_parts(cs.subrange(0, m), src, ans),
    decreases cs.len() - m,
{
    if m < cs.len() {
        let sub = cs.subrange(0, m + 1);
        assert(sub.subrange(0, m) =~= cs.subrange(0, m));
        lemma_join_parts_stuck(cs, m + 1, src, ans);
    } else {
        assert(cs.subrange(0, m) =~= cs);
    }
}

proof fn lemma_sum_terms_stuck(cs: Seq<Expr>, m: int, src: Json, ans: Seq<Answer>)
    requires
        0 <= m <= cs.len(),
        sum_terms(cs.subrange(0, m), src, ans).0 is Err,
    ensures
        sum_terms(cs, src, ans) == sum_terms(cs.subrange(0, m), src, ans),
    decreases cs.len() - m,
{
    if m < cs.len() {
        let sub = cs.subrange(0, m + 1);
        assert(sub.subrange(0, m) =~= cs.subrange(0, m));
        lemma_sum_terms_stuck(cs, m + 1, src, ans);
    } else {
        assert(cs.subrange(0, m) =~= cs);
    }
}

impl Constant {
    pub fn new(value: Value) -> (r: Self)
        ensures
            Action::Constant(r)@ == Expr::Constant(value@),
    {
        Self { value }
    }
}

impl Join {
    pub fn new(sep: String, values: Vec<Action>) -> (r: Self)
        ensures
            Action::Join(r)@ == Expr::Join(sep@, actions_view(values@)),
    {
        proof { lemma_exprs_of_view(values@); }
        Self { sep, values }
    }
}

impl Sum {
    pub fn new(values: Vec<Action>) -> (r: Self)
        ensures
            Action::Sum(r)@ == Expr::Sum(actions_view(values@)),
    {
        proof { lemma_exprs_of_view(values@); }
        Self { values }
    }
}

impl Len {
    pub fn new(action: Action) -> (r: Self)
        ensures
            Action::Len(r)@ == Expr::Len(Box::new(action@)),
    {
        Len { action: Box::new(action) }
    }
}

impl Count {
    pub fn new(value: Action) -> (r: Self)
        ensures
            Action::Count(r)@ == Expr::Count(Box::new(value@)),
    {
        Self { value: Box::new(value) }
    }
}

impl Trim {
    pub fn new(kind: trim::Type, action: Action) -> (r: Self)
        ensures
            Action::Trim(r)@ == Expr::Trim(kind, Box::new(action@)),
    {
        Self { kind, action: Box::new(action) }
    }
}

impl Strip {
    pub fn new(kind: strip::Type, trim: String, action: Action) -> (r: Self)
        ensures
            Action::Strip(r)@ == Expr::Strip(kind, trim@, Box::new(action@)),
    {
        Self { kind, trim, action: Box::new(action) }
    }
}

impl Custom {
    pub fn new(name: String, action: Action) -> (r: Self)
        ensures
            Action::Custom(r)@ == Expr::Custom(name@, Box::new(action@)),
    {
        Self { name, action: Box::new(action) }
    }
}

/// Whether `lit` begins (`prefix`) or ends `s`.
fn has_affix(s: &Vec<char>, lit: &Vec<char>, prefix: bool) -> (r: bool)
    ensures
        r == (lit@.len() <= s@.len() && (if prefix {
            s@.subrange(0, lit@.len() as int) == lit@
        } else {
            s@.subrange(s@.len() - lit@.len(), s@.len() as int) == lit@
        })),
{
    if lit.len() > s.len() {
        return false;
    }
    let n = s.len();
    let off: usize = if prefix { 0 } else { n - lit.len() };
    let ghost want = s@.subrange(off as int, off + lit@.len());
    let mut i: usize = 0;
    while i < lit.len()
        invariant
            i <= lit@.len(),
            off as int + lit@.len() as int <= n,
            n == s@.len(),
            want == s@.subrange(off as int, off + lit@.len()),
            prefix ==> off == 0,
            !prefix ==> off == s@.len() - lit@.len(),
            forall|k: int| 0 <= k < i ==> want[k] == lit@[k],
        decreases lit.len() - i,
    {
        if s[off + i] != lit[i] {
            assert(want[i as int] != lit@[i as int]);
            assert(want != lit@);
            return false;
        }
        i = i + 1;
    }
    assert(want =~= lit@);
    true
}

/// Every compiled action reads along keys and indexes only.
pub proof fn lemma_action_wf(a: Action)
    ensures
        crate::encode::wf_expr(a@),
    decreases a,
{
    match a {
        Action::Getter(g) => {
            g.lemma_read_only();
        },
        Action::Join(j) => {
            lemma_actions_wf(j.values@);
        },
        Action::Sum(s) => {
            lemma_actions_wf(s.values@);
        },
        Action::Len(l) => lemma_action_wf(*l.action),
        Action::Count(c) => lemma_action_wf(*c.value),
        Action::Trim(t) => lemma_action_wf(*t.action),
        Action::Strip(s) => lemma_action_wf(*s.action),
        Action::Custom(c) => lemma_action_wf(*c.action),
        Action::Constant(_) => {},
    }
}

proof fn lemma_actions_wf(s: Seq<Action>)
    ensures
        crate::encode::wf_exprs(exprs_of(s)),
    decreases s,
{
    if s.len() > 0 {
        let init = s.subrange(0, s.len() - 1);
        lemma_actions_wf(init);
        lemma_action_wf(s[s.len() - 1]);
        lemma_exprs_of(s);
        lemma_exprs_of(init);
        let es = exprs_of(s);
        assert(es.subrange(0, es.len() - 1) =~= exprs_of(init));
    }
}

impl Action {
    /// The tree form of this action: a record tagged with its kind.
    pub fn to_tree(&self) -> (r: Value)
        ensures
            r@ == crate::encode::expr_tree(self@),
        decreases self,
    {
        match self {
            Action::Constant(c) => record_value("Constant", field("value", c.value.copy())),
            Action::Getter(g) => record_value("Getter", field("namespace", crate::encode::read_path_value(g.namespace()))),
            Action::Join(j) => {
                proof {
                    assert(decreases_to!(*self => self->Join_0));
                    assert(decreases_to!(*j => j.values));
                }
                let vs = Self::list_tree(&j.values);
                record_value("Join", fields2("sep", Value::String(j.sep.clone()), "values", Value::Array(vs)))
            },
            Action::Sum(sm) => {
                proof {
                    assert(decreases_to!(*self => self->Sum_0));
                    assert(decreases_to!(*sm => sm.values));
                }
                let vs = Self::list_tree(&sm.values);
                record_value("Sum", field("values", Value::Array(vs)))
            },
            Action::Len(l) => {
                proof {
                    assert(decreases_to!(*self => self->Len_0));
                    assert(decreases_to!(*l => l.action));
                }
                record_value("Len", field("action", l.action.to_tree()))
            },
            Action::Count(c) => {
                proof {
                    assert(decreases_to!(*self => self->Count_0));
                    assert(decreases_to!(*c => c.value));
                }
                record_value("Count", field("value", c.value.to_tree()))
            },
            Action::Trim(t) => {
                proof {
                    assert(decreases_to!(*self => self->Trim_0));
                    assert(decreases_to!(*t => t.action));
                }
                let word = match t.kind {
                    trim::Type::Trim => "Trim",
                    trim::Type::TrimStart => "TrimStart",
                    trim::Type::TrimEnd => "TrimEnd",
                };
                let c = t.action.to_tree();
                record_value("Trim", fields2("type", Value::String(word.to_owned()), "action", c))
            },
            Action::Strip(st) => {
                proof {
                    assert(decreases_to!(*self => self->Strip_0));
                    assert(decreases_to!(*st => st.action));
                }
                let word = match st.kind {
                    strip::Type::StripPrefix => "StripPrefix",
                    strip::Type::StripSuffix => "StripSuffix",
                };
                let c = st.action.to_tree();
                record_value("Strip", crate::encode::fields3(
                    "type", Value::String(word.to_owned()),
                    "trim", Value::String(st.trim.clone()),
                    "action", c,
                ))
            },
            Action::Custom(c) => {
                proof {
                    assert(decreases_to!(*self => self->Custom_0));
                    assert(decreases_to!(*c => c.action));
                }
                let t = c.action.to_tree();
                record_value("Custom", fields2("name", Value::String(c.name.clone()), "action", t))
            },
        }
    }

    fn list_tree(values: &Vec<Action>) -> (r: Vec<Value>)
        ensures
            view_seq(r@) == crate::encode::exprs_tree(exprs_of(values@)),
        decreases values,
    {
        let ghost cs = exprs_of(values@);
        proof { lemma_exprs_of(values@); }
        let mut out: Vec<Value> = Vec::new();
        let mut i: usize = 0;
        assert(cs.subrange(0, 0) =~= seq![]);
        assert(view_seq(out@) =~= seq![]);
        while i < values.len()
            invariant
                i <= values@.len(),
                cs == exprs_of(values@),
                cs.len() == values@.len(),
                forall|k: int| 0 <= k < cs.len() ==> #[trigger] cs[k] == values@[k]@,
                view_seq(out@) == crate::encode::exprs_tree(cs.subrange(0, i as int)),
            decreases values.len() - i,
        {
            proof {
                assert(decreases_to!(*values => values[i as int]));
            }
            let t = values[i].to_tree();
            let ghost sub = cs.subrange(0, i + 1);
            assert(sub.subrange(0, sub.len() - 1) =~= cs.subrange(0, i as int));
            proof { lemma_view_seq(out@); lemma_view_seq(out@.push(t)); }
            let ghost before = view_seq(out@);
            out.push(t);
            assert(view_seq(out@) =~= before.push(t@));
            i = i + 1;
        }
        assert(cs.subrange(0, i as int) =~= cs);
        out
    }
}

/// What a value contributes to a join (see `contribution`).
pub fn contribution_of(v: &Option<Value>) -> (r: Option<String>)
    ensures
        match r {
            Some(t) => contribution(opt_view(*v)) == seq![t@],
            None => contribution(opt_view(*v)) == Seq::<Seq<char>>::empty(),
        },
{
    match v {
        None => None,
        Some(Value::String(s)) => {
            if s.as_str().is_empty() {
                None
            } else {
                Some(s.clone())
            }
        },
        Some(x) => Some(x.to_text()),
    }
}

/// Appends the numbers that `v` contributes to a sum.
pub fn collect_terms(v: &Option<Value>, terms: &mut Vec<Number>)
    ensures
        nums_view(final(terms)@) == nums_view(old(terms)@) + numbers_of(opt_view(*v)),
{
    let ghost before = nums_view(terms@);
    match v {
        Some(Value::Number(n)) => {
            terms.push(n.copy());
            assert(nums_view(terms@) =~= before + numbers_of(opt_view(*v)));
        },
        Some(Value::Array(a)) => {
            let ghost av = view_seq(a@);
            proof { lemma_view_seq(a@); }
            let mut k: usize = 0;
            assert(av.subrange(0, 0) =~= seq![]);
            assert(before + numbers_in(av.subrange(0, 0)) =~= before);
            while k < a.len()
                invariant
                    k <= a@.len(),
                    av == view_seq(a@),
                    av.len() == a@.len(),
                    forall|x: int| 0 <= x < a@.len() ==> #[trigger] av[x] == a@[x]@,
                    nums_view(terms@) == before + numbers_in(av.subrange(0, k as int)),
                decreases a.len() - k,
            {
                let ghost pre = nums_view(terms@);
                let ghost sk = av.subrange(0, k + 1);
                assert(sk.drop_last() =~= av.subrange(0, k as int));
                match &a[k] {
                    Value::Number(n) => {
                        terms.push(n.copy());
                        assert(nums_view(terms@) =~= pre.push(n@));
                    },
                    _ => {},
                }
                assert(nums_view(terms@) =~= before + numbers_in(sk));
                k = k + 1;
            }
            assert(av.subrange(0, k as int) =~= av);
        },
        _ => {
            assert(nums_view(terms@) =~= before + numbers_of(opt_view(*v)));
        },
    }
}

/// `len` of a value: bytes of a string, elements of an array, entries of an object.
pub fn len_result(v: &Option<Value>) -> (r: Option<Value>)
    ensures
        opt_view(r) == len_step(opt_view(*v)),
{
    match v {
        Some(Value::String(s)) => {
            let t = s.as_str();
            let n = t.len();
            assert(t.spec_bytes() == vstd::utf8::encode_utf8(s@));
            Some(Value::Number(Number::PosInt(n as u64)))
        },
        Some(Value::Array(a)) => {
            proof { lemma_view_seq(a@); }
            Some(Value::Number(Number::PosInt(a.len() as u64)))
        },
        Some(Value::Object(o)) => {
            proof { crate::value::lemma_view_entries(o@); }
            Some(Value::Number(Number::PosInt(o.len() as u64)))
        },
        _ => None,
    }
}

/// `count` of a value: the elements of an array, 0 for nothing, else a type error.
pub fn count_result(v: &Option<Value>) -> (r: Result<Option<Value>, Error>)
    ensures
        res_view(r) == count_step(opt_view(*v)),
{
    match v {
        None => Ok(Some(Value::Number(Number::PosInt(0)))),
        Some(Value::Array(a)) => {
            proof { lemma_view_seq(a@); }
            Ok(Some(Value::Number(Number::PosInt(a.len() as u64))))
        },
        Some(x) => Err(Error::Setter(SetterError::InvalidDestinationType { found: x.kind(), operation: Operation::Count })),
    }
}

/// A trimmed string, or nothing for anything but a string.
pub fn trim_result(kind: trim::Type, v: &Option<Value>) -> (r: Option<Value>)
    ensures
        opt_view(r) == trim_step(kind, opt_view(*v)),
{
    match v {
        Some(Value::String(s)) => {
            let cs = chars_of(s.as_str());
            let (start, end) = match kind {
                trim::Type::Trim => (true, true),
                trim::Type::TrimStart => (true, false),
                trim::Type::TrimEnd => (false, true),
            };
            let (a, b) = trim_bounds(&cs, start, end);
            Some(Value::String(string_of(&cs, a, b)))
        },
        _ => None,
    }
}

/// A string without the literal at the chosen end (unchanged where it is not
/// there), or nothing for anything but a string.
pub fn strip_result(kind: strip::Type, lit: &String, v: Option<Value>) -> (r: Option<Value>)
    ensures
        opt_view(r) == strip_step(kind, lit@, opt_view(v)),
{
    match v {
        Some(Value::String(s)) => {
            let cs = chars_of(s.as_str());
            let lc = chars_of(lit.as_str());
            match kind {
                strip::Type::StripPrefix => {
                    if has_affix(&cs, &lc, true) {
                        Some(Value::String(string_of(&cs, lc.len(), cs.len())))
                    } else {
                        Some(Value::String(s))
                    }
                },
                strip::Type::StripSuffix => {
                    if has_affix(&cs, &lc, false) {
                        Some(Value::String(string_of(&cs, 0, cs.len() - lc.len())))
                    } else {
                        Some(Value::String(s))
                    }
                },
            }
        },
        _ => None,
    }
}

fn int_value(x: i64) -> (r: Value)
    ensures
        r@ == Json::Number(int_number(x as int)),
{
    if x >= 0 { Value::Number(Number::PosInt(x as u64)) } else { Value::Number(Number::NegInt(x)) }
}

/// The sum of `terms`: exact where it is exact in 64-bit floats, else the host's.
/// Returns the value and the answers the host gave.
pub fn sum_value<H: Host>(host: &H, terms: &Vec<Number>) -> (res: (Value, Ghost<Seq<Answer>>))
    ensures
        forall|k: Seq<Answer>| #![trigger res.1@ + k]
            sum_outcome(nums_view(terms@), res.1@ + k) == (Ok::<Option<Json>, Failure>(Some(res.0@)), k),
{
    let ghost ts = nums_view(terms@);
    let mut has_f = false;
    let mut k: usize = 0;
    while k < terms.len()
        invariant
            k <= terms@.len(),
            ts == nums_view(terms@),
            has_f == exists|x: int| 0 <= x < k && ts[x] is Float,
        decreases terms.len() - k,
    {
        match &terms[k] {
            Number::Float(_) => {
                assert(ts[k as int] is Float);
                has_f = true;
            },
            _ => {
                assert(!(ts[k as int] is Float));
            },
        }
        k = k + 1;
    }
    if has_f {
        let t = host.float_sum(terms);
        let ghost a = Answer::FloatSum { terms: ts, output: t@ };
        let ghost log = seq![a];
        assert forall|k: Seq<Answer>| #![trigger log + k]
            sum_outcome(ts, log + k) == (Ok::<Option<Json>, Failure>(Some(Json::Number(JNum::Float(t@)))), k) by {
            assert((log + k)[0] == a);
            assert((log + k).drop_first() =~= k);
        }
        return (Value::Number(Number::Float(t)), Ghost(log));
    }
    let mut acc: i128 = 0;
    let mut fits = true;
    let mut k: usize = 0;
    assert(ts.subrange(0, 0) =~= seq![]);
    while k < terms.len()
        invariant
            k <= terms@.len(),
            ts == nums_view(terms@),
            !has_float(ts),
            fits == fits_exactly(ts.subrange(0, k as int)),
            fits ==> acc as int == int_total(ts.subrange(0, k as int)) && exact_range(acc as int),
        decreases terms.len() - k,
    {
        let ghost sk = ts.subrange(0, k + 1);
        assert(sk.drop_last() =~= ts.subrange(0, k as int));
        if fits {
            let t: i128 = match &terms[k] {
                Number::PosInt(u) => *u as i128,
                Number::NegInt(n) => *n as i128,
                Number::Float(_) => {
                    assert(ts[k as int] is Float);
                    0
                },
            };
            let x: i128 = acc + t;
            if -0x20_0000_0000_0000 <= t && t <= 0x20_0000_0000_0000 && -0x20_0000_0000_0000 <= x && x <= 0x20_0000_0000_0000 {
                acc = x;
            } else {
                fits = false;
            }
        } else {
            assert(!fits_exactly(sk));
        }
        k = k + 1;
    }
    assert(ts.subrange(0, k as int) =~= ts);
    if fits {
        let v = int_value(acc as i64);
        assert forall|k: Seq<Answer>| #![trigger Seq::<Answer>::empty() + k]
            sum_outcome(ts, Seq::<Answer>::empty() + k) == (Ok::<Option<Json>, Failure>(Some(v@)), k) by {
            assert(Seq::<Answer>::empty() + k =~= k);
        }
        return (v, Ghost(Seq::<Answer>::empty()));
    }
    let x = host.int_sum(terms);
    let ghost a = Answer::IntSum { terms: ts, output: x };
    let ghost log = seq![a];
    let v = int_value(x);
    assert forall|k: Seq<Answer>| #![trigger log + k]
        sum_outcome(ts, log + k) == (Ok::<Option<Json>, Failure>(Some(v@)), k) by {
        assert((log + k)[0] == a);
        assert((log + k).drop_first() =~= k);
    }
    (v, Ghost(log))
}

impl Action {
    /// Evaluates this action against `source`; nothing found is `Ok(None)`.
    /// The result is what `eval` gives for the answers that the host gave to
    /// the questions this evaluation put to it, in order.
    pub fn apply<H: Host>(&self, host: &H, source: &Value) -> (r: Result<Option<Value>, Error>)
        ensures
            exists|log: Seq<Answer>| eval(self@, source@, log) == (res_view(r), Seq::<Answer>::empty()),
    {
        let (r, Ghost(log)) = self.eval_logged(host, source);
        assert(log + Seq::<Answer>::empty() =~= log);
        assert(eval(self@, source@, log + Seq::<Answer>::empty()) == (res_view(r), Seq::<Answer>::empty()));
        r
    }

    /// Evaluates this action and also returns the host's answers, in order:
    /// for any answers `k` after them, `eval` gives the result and leaves `k`.
    pub fn eval_logged<H: Host>(&self, host: &H, source: &Value) -> (res: (Result<Option<Value>, Error>, Ghost<Seq<Answer>>))
        ensures
            forall|k: Seq<Answer>| #![trigger res.1@ + k]
                eval(self@, source@, res.1@ + k) == (res_view(res.0), k),
        decreases self,
    {
        let ghost e = self@;
        match self {
            Action::Constant(c) => {
                let r = Ok(Some(c.value.copy()));
                assert forall|k: Seq<Answer>| #![trigger Seq::<Answer>::empty() + k]
                    eval(e, source@, Seq::<Answer>::empty() + k) == (res_view(r), k) by {
                    assert(Seq::<Answer>::empty() + k =~= k);
                }
                (r, Ghost(Seq::<Answer>::empty()))
            },
            Action::Getter(g) => {
                let r = Ok(g.apply(source));
                assert forall|k: Seq<Answer>| #![trigger Seq::<Answer>::empty() + k]
                    eval(e, source@, Seq::<Answer>::empty() + k) == (res_view(r), k) by {
                    assert(Seq::<Answer>::empty() + k =~= k);
                }
                (r, Ghost(Seq::<Answer>::empty()))
            },
            Action::Len(l) => {
                proof {
                    assert(decreases_to!(*self => self->Len_0));
                    assert(decreases_to!(*l => l.action));
                }
                let (cr, Ghost(cl)) = l.action.eval_logged(host, source);
                let r = match cr {
                    Err(x) => Err(x),
                    Ok(v) => Ok(len_result(&v)),
                };
                assert forall|k: Seq<Answer>| #![trigger cl + k] eval(e, source@, cl + k) == (res_view(r), k) by {
                    assert(eval(l.action@, source@, cl + k) == (res_view(cr), k));
                }
                (r, Ghost(cl))
            },
            Action::Count(c) => {
                proof {
                    assert(decreases_to!(*self => self->Count_0));
                    assert(decreases_to!(*c => c.value));
                }
                let (cr, Ghost(cl)) = c.value.eval_logged(host, source);
                let r = match cr {
                    Err(x) => Err(x),
                    Ok(v) => count_result(&v),
                };
                assert forall|k: Seq<Answer>| #![trigger cl + k] eval(e, source@, cl + k) == (res_view(r), k) by {
                    assert(eval(c.value@, source@, cl + k) == (res_view(cr), k));
                }
                (r, Ghost(cl))
            },
            Action::Trim(t) => {
                proof {
                    assert(decreases_to!(*self => self->Trim_0));
                    assert(decreases_to!(*t => t.action));
                }
                let (cr, Ghost(cl)) = t.action.eval_logged(host, source);
                let r = match cr {
                    Err(x) => Err(x),
                    Ok(v) => Ok(trim_result(t.kind, &v)),
                };
                assert forall|k: Seq<Answer>| #![trigger cl + k] eval(e, source@, cl + k) == (res_view(r), k) by {
                    assert(eval(t.action@, source@, cl + k) == (res_view(cr), k));
                }
                (r, Ghost(cl))
            },
            Action::Strip(st) => {
                proof {
                    assert(decreases_to!(*self => self->Strip_0));
                    assert(decreases_to!(*st => st.action));
                }
                let (cr, Ghost(cl)) = st.action.eval_logged(host, source);
                let ghost crv = res_view(cr);
                let r = match cr {
                    Err(x) => Err(x),
                    Ok(v) => Ok(strip_result(st.kind, &st.trim, v)),
                };
                assert forall|k: Seq<Answer>| #![trigger cl + k] eval(e, source@, cl + k) == (res_view(r), k) by {
                    assert(eval(st.action@, source@, cl + k) == (crv, k));
                }
                (r, Ghost(cl))
            },
            Action::Custom(c) => {
                proof {
                    assert(decreases_to!(*self => self->Custom_0));
                    assert(decreases_to!(*c => c.action));
                }
                let (cr, Ghost(cl)) = c.action.eval_logged(host, source);
                match cr {
                    Err(x) => {
                        let r = Err(x);
                        assert forall|k: Seq<Answer>| #![trigger cl + k] eval(e, source@, cl + k) == (res_view(r), k) by {
                            assert(eval(c.action@, source@, cl + k) == (res_view(cr), k));
                        }
                        (r, Ghost(cl))
                    },
                    Ok(v) => {
                        let ghost input = opt_view(v);
                        let hr = host.apply_custom(&c.name, v, source);
                        let ghost a = Answer::Custom {
                            name: c.name@,
                            input: input,
                            output: host_output(hr),
                        };
                        let r = match hr {
                            Ok(y) => Ok(y),
                            Err(m) => Err(Error::Custom(m)),
                        };
                        let ghost log = cl.push(a);
                        assert forall|k: Seq<Answer>| #![trigger log + k] eval(e, source@, log + k) == (res_view(r), k) by {
                            assert(log + k =~= cl + (seq![a] + k));
                            assert(eval(c.action@, source@, cl + (seq![a] + k)) == (res_view(cr), seq![a] + k));
                            assert((seq![a] + k)[0] == a);
                            assert((seq![a] + k).drop_first() =~= k);
                        }
                        (r, Ghost(log))
                    },
                }
            },
            Action::Join(j) => {
                let ghost cs = exprs_of(j.values@);
                proof { lemma_exprs_of(j.values@); }
                let mut out = String::new();
                let mut retained = false;
                let ghost mut ps: Seq<Seq<char>> = seq![];
                let ghost mut log: Seq<Answer> = seq![];
                let mut i: usize = 0;
                assert forall|k: Seq<Answer>| #![trigger log + k]
                    join_parts(cs.subrange(0, 0), source@, log + k) == (Ok::<Seq<Seq<char>>, Failure>(ps), k) by {
                    assert(cs.subrange(0, 0) =~= seq![]);
                    assert(log + k =~= k);
                }
                while i < j.values.len()
                    invariant
                        i <= j.values@.len(),
                        *self == Action::Join(*j),
                        e == self@,
                        e == Expr::Join(j.sep@, cs),
                        cs == exprs_of(j.values@),
                        cs.len() == j.values@.len(),
                        forall|x: int| 0 <= x < cs.len() ==> #[trigger] cs[x] == j.values@[x]@,
                        forall|k: Seq<Answer>| #![trigger log + k]
                            join_parts(cs.subrange(0, i as int), source@, log + k) == (Ok::<Seq<Seq<char>>, Failure>(ps), k),
                        out@ == join_with(ps, j.sep@),
                        retained == (ps.len() > 0),
                    decreases j.values.len() - i,
                {
                    proof {
                        assert(decreases_to!(*self => self->Join_0));
                        assert(decreases_to!(*j => j.values));
                        assert(decreases_to!(j.values => j.values[i as int]));
                    }
                    let (cr, Ghost(cl)) = j.values[i].eval_logged(host, source);
                    let ghost sub = cs.subrange(0, i + 1);
                    assert(sub.subrange(0, i as int) =~= cs.subrange(0, i as int));
                    assert(sub[i as int] == cs[i as int]);
                    let ghost nlog = log + cl;
                    assert forall|k: Seq<Answer>| #![trigger nlog + k]
                        join_parts(sub, source@, nlog + k) == (match res_view(cr) {
                            Ok(x) => Ok::<Seq<Seq<char>>, Failure>(ps + contribution(x)),
                            Err(f) => Err(f),
                        }, k) by {
                        assert(nlog + k =~= log + (cl + k));
                        assert(join_parts(cs.subrange(0, i as int), source@, log + (cl + k)) == (Ok::<Seq<Seq<char>>, Failure>(ps), cl + k));
                        assert(eval(j.values@[i as int]@, source@, cl + k) == (res_view(cr), k));
                    }
                    match cr {
                        Err(x) => {
                            let r: Result<Option<Value>, Error> = Err(x);
                            assert forall|k: Seq<Answer>| #![trigger nlog + k] eval(e, source@, nlog + k) == (res_view(r), k) by {
                                lemma_join_parts_stuck(cs, i + 1, source@, nlog + k);
                            }
                            return (r, Ghost(nlog));
                        },
                        Ok(v) => {
                            let ghost c = contribution(opt_view(v));
                            match contribution_of(&v) {
                                Some(t) => {
                                    if retained {
                                        push_str(&mut out, j.sep.as_str());
                                    }
                                    push_str(&mut out, t.as_str());
                                    retained = true;
                                    assert((ps + c).drop_last() =~= ps);
                                },
                                None => {
                                    assert(ps + c =~= ps);
                                },
                            }
                            proof {
                                ps = ps + c;
                                log = nlog;
                            }
                        },
                    }
                    i = i + 1;
                }
                assert(cs.subrange(0, i as int) =~= cs);
                let r = if retained { Ok(Some(Value::String(out))) } else { Ok(None) };
                (r, Ghost(log))
            },
            Action::Sum(sm) => {
                let ghost cs = exprs_of(sm.values@);
                proof { lemma_exprs_of(sm.values@); }
                let mut terms: Vec<Number> = Vec::new();
                let ghost mut log: Seq<Answer> = seq![];
                let mut i: usize = 0;
                assert forall|k: Seq<Answer>| #![trigger log + k]
                    sum_terms(cs.subrange(0, 0), source@, log + k) == (Ok::<Seq<JNum>, Failure>(nums_view(terms@)), k) by {
                    assert(cs.subrange(0, 0) =~= seq![]);
                    assert(log + k =~= k);
                    assert(nums_view(terms@) =~= seq![]);
                }
                while i < sm.values.len()
                    invariant
                        i <= sm.values@.len(),
                        *self == Action::Sum(*sm),
                        e == self@,
                        e == Expr::Sum(cs),
                        cs == exprs_of(sm.values@),
                        cs.len() == sm.values@.len(),
                        forall|x: int| 0 <= x < cs.len() ==> #[trigger] cs[x] == sm.values@[x]@,
                        forall|k: Seq<Answer>| #![trigger log + k]
                            sum_terms(cs.subrange(0, i as int), source@, log + k) == (Ok::<Seq<JNum>, Failure>(nums_view(terms@)), k),
                    decreases sm.values.len() - i,
                {
                    proof {
                        assert(decreases_to!(*self => self->Sum_0));
                        assert(decreases_to!(*sm => sm.values));
                        assert(decreases_to!(sm.values => sm.values[i as int]));
                    }
                    let (cr, Ghost(cl)) = sm.values[i].eval_logged(host, source);
                    let ghost sub = cs.subrange(0, i + 1);
                    assert(sub.subrange(0, i as int) =~= cs.subrange(0, i as int));
                    assert(sub[i as int] == cs[i as int]);
                    let ghost nlog = log + cl;
                    let ghost before = nums_view(terms@);
                    assert forall|k: Seq<Answer>| #![trigger nlog + k]
                        sum_terms(sub, source@, nlog + k) == (match res_view(cr) {
                            Ok(x) => Ok::<Seq<JNum>, Failure>(before + numbers_of(x)),
                            Err(f) => Err(f),
                        }, k) by {
                        assert(nlog + k =~= log + (cl + k));
                        assert(sum_terms(cs.subrange(0, i as int), source@, log + (cl + k)) == (Ok::<Seq<JNum>, Failure>(before), cl + k));
                        assert(eval(sm.values@[i as int]@, source@, cl + k) == (res_view(cr), k));
                    }
                    match cr {
                        Err(x) => {
                            let r: Result<Option<Value>, Error> = Err(x);
                            assert forall|k: Seq<Answer>| #![trigger nlog + k] eval(e, source@, nlog + k) == (res_view(r), k) by {
                                lemma_sum_terms_stuck(cs, i + 1, source@, nlog + k);
                            }
                            return (r, Ghost(nlog));
                        },
                        Ok(v) => {
                            collect_terms(&v, &mut terms);
                            proof { log = nlog; }
                        },
                    }
                    i = i + 1;
                }
                assert(cs.subrange(0, i as int) =~= cs);
                let (v, Ghost(sl)) = sum_value(host, &terms);
                let r = Ok(Some(v));
                let ghost flog = log + sl;
                assert forall|k: Seq<Answer>| #![trigger flog + k] eval(e, source@, flog + k) == (res_view(r), k) by {
                    assert(flog + k =~= log + (sl + k));
                    assert(sum_terms(cs, source@, log + (sl + k)) == (Ok::<Seq<JNum>, Failure>(nums_view(terms@)), sl + k));
                    assert(sum_outcome(nums_view(terms@), sl + k) == (Ok::<Option<Json>, Failure>(Some(v@)), k));
                }
                (r, Ghost(flog))
            },
        }
    }
}

} // verus!
