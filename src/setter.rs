//! The setter, which writes a produced value into the destination document.
use vstd::prelude::*;
use crate::path::Seg;
use crate::value::{Json, Kind, Value, find_key, kind_of, lemma_find_key, lookup, lemma_view_entries,
    lemma_view_seq, position_of_key, view_entries, view_of, view_seq};

pub mod namespace;

use namespace::{Namespace, path_view};
use crate::actions::{Action, Answer, Expr, Failure, Host, eval, failure_of, res_view};

verus! {

/// The operation that met a value of the wrong kind.
#[derive(Debug, Clone, Copy, PartialEq, Eq)]
pub enum Operation {
    SetKey,
    SetIndex,
    AppendArray,
    MergeObject,
    MergeArray,
    CombineArray,
    Count,
}

/// A failure while applying a rule.
#[derive(Debug, Clone, Copy, PartialEq, Eq)]
pub enum Error {
    /// A value of kind `found` met `operation`, which needs another kind: the
    /// destination at a step of the write path, or the value to merge or count.
    InvalidDestinationType { found: Kind, operation: Operation },
}

/// `a` grown with nulls to at least `len` elements.
pub open spec fn padded(a: Seq<Json>, len: int) -> Seq<Json> {
    if a.len() >= len {
        a
    } else {
        a + Seq::new((len - a.len()) as nat, |i: int| Json::Null)
    }
}

/// `e` with `(k, v)` stored: replacing the first entry under `k`, or appended.
pub open spec fn put(e: Seq<(Seq<char>, Json)>, k: Seq<char>, v: Json) -> Seq<(Seq<char>, Json)> {
    let i = find_key(e, k);
    if i >= 0 { e.update(i, (k, v)) } else { e.push((k, v)) }
}

/// The entries `e` with each entry of `f` stored in turn; a key of `f` overwrites.
pub open spec fn merge(e: Seq<(Seq<char>, Json)>, f: Seq<(Seq<char>, Json)>) -> Seq<(Seq<char>, Json)>
    decreases f.len(),
{
    if f.len() == 0 {
        e
    } else {
        put(merge(e, f.drop_last()), f.last().0, f.last().1)
    }
}

/// `e` with its first elements replaced by those of `f` (`f` not longer than `e`).
pub open spec fn overlay(e: Seq<Json>, f: Seq<Json>) -> Seq<Json> {
    Seq::new(e.len(), |i: int| if i < f.len() { f[i] } else { e[i] })
}

pub open spec fn dest_error(cur: Json, op: Operation) -> Error {
    Error::InvalidDestinationType { found: kind_of(cur), operation: op }
}

pub open spec fn source_error(v: Json, op: Operation) -> Error {
    Error::InvalidDestinationType { found: kind_of(v), operation: op }
}

/// Writing `field` along write path `p` into `cur`. Keys and indexes walk into
/// objects and arrays, creating them from null and growing arrays with nulls;
/// `[]` appends a slot and walks into it; `{}`, `[-]` and `[+]` merge, overlay
/// or concatenate and end the walk. At the end of the path the value is replaced.
pub open spec fn write_path(cur: Json, p: Seq<Seg>, field: Json) -> Result<Json, Error>
    decreases p.len(),
{
    if p.len() == 0 {
        Ok(field)
    } else {
        let rest = p.drop_first();
        match p[0] {
            Seg::Key(k) => {
                let e = match cur {
                    Json::Object(e) => e,
                    _ => seq![],
                };
                if !(cur is Object || cur is Null) {
                    Err(dest_error(cur, Operation::SetKey))
                } else {
                    let i = find_key(e, k);
                    let child = if i >= 0 { e[i].1 } else { Json::Null };
                    match write_path(child, rest, field) {
                        Ok(c) => Ok(Json::Object(if i >= 0 { e.update(i, (k, c)) } else { e.push((k, c)) })),
                        Err(x) => Err(x),
                    }
                }
            },
            Seg::Index(n) => {
                let a = match cur {
                    Json::Array(a) => a,
                    _ => seq![],
                };
                if !(cur is Array || cur is Null) {
                    Err(dest_error(cur, Operation::SetIndex))
                } else {
                    let a2 = padded(a, n + 1);
                    match write_path(a2[n as int], rest, field) {
                        Ok(c) => Ok(Json::Array(a2.update(n as int, c))),
                        Err(x) => Err(x),
                    }
                }
            },
            Seg::Append => {
                let a = match cur {
                    Json::Array(a) => a,
                    _ => seq![],
                };
                if !(cur is Array || cur is Null) {
                    Err(dest_error(cur, Operation::AppendArray))
                } else {
                    match write_path(Json::Null, rest, field) {
                        Ok(c) => Ok(Json::Array(a.push(c))),
                        Err(x) => Err(x),
                    }
                }
            },
            Seg::MergeObject => match field {
                Json::Object(f) => match cur {
                    Json::Object(e) => Ok(Json::Object(merge(e, f))),
                    Json::Null => Ok(Json::Object(merge(seq![], f))),
                    _ => Err(dest_error(cur, Operation::MergeObject)),
                },
                _ => Err(source_error(field, Operation::MergeObject)),
            },
            Seg::MergeArray => match field {
                Json::Array(f) => match cur {
                    Json::Array(e) => Ok(Json::Array(if f.len() > e.len() { f } else { overlay(e, f) })),
                    Json::Null => Ok(Json::Array(f)),
                    _ => Err(dest_error(cur, Operation::MergeArray)),
                },
                _ => Err(source_error(field, Operation::MergeArray)),
            },
            Seg::CombineArray => match field {
                Json::Array(f) => match cur {
                    Json::Array(e) => Ok(Json::Array(e + f)),
                    Json::Null => Ok(Json::Array(f)),
                    _ => Err(dest_error(cur, Operation::CombineArray)),
                },
                _ => Err(source_error(field, Operation::CombineArray)),
            },
        }
    }
}

proof fn lemma_view_entries_update(s: Seq<(String, Value)>, j: int, x: (String, Value))
    requires
        0 <= j < s.len(),
    ensures
        view_entries(s.update(j, x)) == view_entries(s).update(j, (x.0@, view_of(x.1))),
{
    lemma_view_entries(s);
    lemma_view_entries(s.update(j, x));
    assert(view_entries(s.update(j, x)) =~= view_entries(s).update(j, (x.0@, view_of(x.1))));
}

proof fn lemma_view_entries_push(s: Seq<(String, Value)>, x: (String, Value))
    ensures
        view_entries(s.push(x)) == view_entries(s).push((x.0@, view_of(x.1))),
{
    lemma_view_entries(s);
    lemma_view_entries(s.push(x));
    assert(view_entries(s.push(x)) =~= view_entries(s).push((x.0@, view_of(x.1))));
}

proof fn lemma_view_seq_update(s: Seq<Value>, j: int, x: Value)
    requires
        0 <= j < s.len(),
    ensures
        view_seq(s.update(j, x)) == view_seq(s).update(j, view_of(x)),
{
    lemma_view_seq(s);
    lemma_view_seq(s.update(j, x));
    assert(view_seq(s.update(j, x)) =~= view_seq(s).update(j, view_of(x)));
}

proof fn lemma_view_seq_push(s: Seq<Value>, x: Value)
    ensures
        view_seq(s.push(x)) == view_seq(s).push(view_of(x)),
{
    lemma_view_seq(s);
    lemma_view_seq(s.push(x));
    assert(view_seq(s.push(x)) =~= view_seq(s).push(view_of(x)));
}

/// Grows `a` with nulls until it has more than `n` elements.
fn pad_past(a: &mut Vec<Value>, n: usize)
    ensures
        view_seq(final(a)@) == padded(view_seq(old(a)@), n + 1),
        final(a)@.len() > n,
{
    proof { lemma_view_seq(a@); }
    let ghost orig = view_seq(a@);
    while a.len() <= n
        invariant
            orig.len() <= a@.len(),
            a@.len() <= n + 1 || a@.len() == orig.len(),
            view_seq(a@).len() == a@.len(),
            forall|i: int| 0 <= i < orig.len() ==> view_seq(a@)[i] == orig[i],
            forall|i: int| orig.len() <= i < a@.len() ==> view_seq(a@)[i] == Json::Null,
        decreases n + 1 - a@.len(),
    {
        proof { lemma_view_seq_push(a@, Value::Null); }
        a.push(Value::Null);
    }
    assert(view_seq(a@) =~= padded(orig, n + 1));
}

/// Stores `(k, v)` in `e`: replacing the first entry under `k`, or appended.
pub(crate) fn put_entry(e: &mut Vec<(String, Value)>, k: String, v: Value)
    ensures
        view_entries(final(e)@) == put(view_entries(old(e)@), k@, v@),
{
    proof {
        lemma_view_entries(e@);
        lemma_find_key(view_entries(e@), k@);
    }
    match position_of_key(e, &k) {
        Some(j) => {
            proof { lemma_view_entries_update(e@, j as int, (k, v)); }
            e.set(j, (k, v));
        },
        None => {
            proof { lemma_view_entries_push(e@, (k, v)); }
            e.push((k, v));
        },
    }
}

/// Stores each entry of `f` in `e`, in order.
fn merge_entries(e: &mut Vec<(String, Value)>, f: &Vec<(String, Value)>)
    ensures
        view_entries(final(e)@) == merge(view_entries(old(e)@), view_entries(f@)),
{
    let ghost start = view_entries(e@);
    let ghost fv = view_entries(f@);
    proof { lemma_view_entries(f@); }
    let mut x: usize = 0;
    assert(fv.subrange(0, 0) =~= seq![]);
    while x < f.len()
        invariant
            x <= f@.len(),
            fv == view_entries(f@),
            fv.len() == f@.len(),
            forall|j: int| 0 <= j < f@.len() ==> #[trigger] fv[j] == (f@[j].0@, view_of(f@[j].1)),
            view_entries(e@) == merge(start, fv.subrange(0, x as int)),
        decreases f.len() - x,
    {
        let k = f[x].0.clone();
        let v = f[x].1.copy();
        put_entry(e, k, v);
        assert(fv.subrange(0, x + 1).drop_last() =~= fv.subrange(0, x as int));
        x = x + 1;
    }
    assert(fv.subrange(0, x as int) =~= fv);
}

/// Writes `field` into `cur` along the steps `p[i..]`; returns the new value.
fn write_at(cur: Value, p: &Vec<Namespace>, i: usize, field: Value) -> (res: (Value, Result<(), Error>))
    requires
        i <= p@.len(),
    ensures
        match write_path(cur@, path_view(p@).subrange(i as int, p@.len() as int), field@) {
            Ok(v) => res.1 is Ok && res.0@ == v,
            Err(x) => res.1 == Err::<(), Error>(x),
        },
    decreases p@.len() - i,
{
    let ghost rest = path_view(p@).subrange(i as int, p@.len() as int);
    if i == p.len() {
        return (field, Ok(()));
    }
    assert(rest[0] == p@[i as int]@);
    assert(rest.drop_first() =~= path_view(p@).subrange(i + 1, p@.len() as int));
    let found = cur.kind();
    match &p[i] {
        Namespace::Object { id } => {
            let mut entries = match cur {
                Value::Object(e) => e,
                Value::Null => Vec::new(),
                other => {
                    return (other, Err(Error::InvalidDestinationType { found, operation: Operation::SetKey }));
                },
            };
            proof {
                assert(view_entries(Seq::<(String, Value)>::empty()) =~= seq![]);
                lemma_view_entries(entries@);
                lemma_find_key(view_entries(entries@), id@);
            }
            let j = match position_of_key(&entries, id) {
                Some(j) => j,
                None => {
                    let key = id.clone();
                    proof { lemma_view_entries_push(entries@, (key, Value::Null)); }
                    entries.push((key, Value::Null));
                    entries.len() - 1
                },
            };
            proof { lemma_view_entries(entries@); }
            let ghost e1 = view_entries(entries@);
            let ghost e0 = if cur@ is Object { cur@->Object_0 } else { Seq::<(Seq<char>, Json)>::empty() };
            let ghost i0 = find_key(e0, id@);
            assert(i0 >= 0 ==> e1 == e0 && i0 == j);
            assert(i0 < 0 ==> e1 == e0.push((id@, Json::Null)) && j == e0.len());
            let ghost pre = entries@;
            let mut slot = (String::new(), Value::Null);
            entries.set_and_swap(j, &mut slot);
            let (key, child) = slot;
            assert(key@ == id@);
            assert(child@ == (if i0 >= 0 { e0[i0].1 } else { Json::Null }));
            let (c2, r) = write_at(child, p, i + 1, field);
            proof { lemma_view_entries_update(pre, j as int, (key, c2)); }
            entries.set(j, (key, c2));
            assert(entries@ =~= pre.update(j as int, (key, c2)));
            assert(view_entries(entries@) == e1.update(j as int, (id@, c2@)));
            assert(i0 < 0 ==> e0.push((id@, Json::Null)).update(j as int, (id@, c2@)) =~= e0.push((id@, c2@)));
            (Value::Object(entries), r)
        },
        Namespace::Array { index } => {
            let n = *index;
            let mut a = match cur {
                Value::Array(a) => a,
                Value::Null => Vec::new(),
                other => {
                    return (other, Err(Error::InvalidDestinationType { found, operation: Operation::SetIndex }));
                },
            };
            assert(view_seq(Seq::<Value>::empty()) =~= seq![]);
            pad_past(&mut a, n);
            proof { lemma_view_seq(a@); }
            let ghost pre = a@;
            let mut child = Value::Null;
            a.set_and_swap(n, &mut child);
            let (c2, r) = write_at(child, p, i + 1, field);
            proof { lemma_view_seq_update(pre, n as int, c2); }
            a.set(n, c2);
            assert(a@ =~= pre.update(n as int, c2));
            (Value::Array(a), r)
        },
        Namespace::AppendArray => {
            let mut a = match cur {
                Value::Array(a) => a,
                Value::Null => Vec::new(),
                other => {
                    return (other, Err(Error::InvalidDestinationType { found, operation: Operation::AppendArray }));
                },
            };
            assert(view_seq(Seq::<Value>::empty()) =~= seq![]);
            let (c2, r) = write_at(Value::Null, p, i + 1, field);
            proof { lemma_view_seq_push(a@, c2); }
            a.push(c2);
            (Value::Array(a), r)
        },
        Namespace::MergeObject => {
            match &field {
                Value::Object(f) => {
                    let mut e = match cur {
                        Value::Object(e) => e,
                        Value::Null => Vec::new(),
                        other => {
                            return (other, Err(Error::InvalidDestinationType { found, operation: Operation::MergeObject }));
                        },
                    };
                    assert(view_entries(Seq::<(String, Value)>::empty()) =~= seq![]);
                    merge_entries(&mut e, f);
                    (Value::Object(e), Ok(()))
                },
                _ => {
                    let fk = field.kind();
                    (cur, Err(Error::InvalidDestinationType { found: fk, operation: Operation::MergeObject }))
                },
            }
        },
        Namespace::MergeArray => {
            let fk = field.kind();
            match field {
                Value::Array(f) => {
                    match cur {
                        Value::Array(e) => {
                            let mut e = e;
                            proof {
                                lemma_view_seq(e@);
                                lemma_view_seq(f@);
                            }
                            if f.len() > e.len() {
                                return (Value::Array(f), Ok(()));
                            }
                            let mut x: usize = 0;
                            let ghost orig = view_seq(e@);
                            while x < f.len()
                                invariant
                                    x <= f@.len() <= orig.len(),
                                    e@.len() == orig.len(),
                                    view_seq(f@).len() == f@.len(),
                                    forall|j: int| 0 <= j < f@.len() ==> #[trigger] view_seq(f@)[j] == view_of(f@[j]),
                                    forall|j: int| 0 <= j < x ==> view_of(#[trigger] e@[j]) == view_of(f@[j]),
                                    forall|j: int| x <= j < e@.len() ==> view_of(#[trigger] e@[j]) == orig[j],
                                decreases f.len() - x,
                            {
                                let v = f[x].copy();
                                e.set(x, v);
                                x = x + 1;
                            }
                            proof { lemma_view_seq(e@); }
                            assert(view_seq(e@) =~= overlay(orig, view_seq(f@)));
                            (Value::Array(e), Ok(()))
                        },
                        Value::Null => (Value::Array(f), Ok(())),
                        other => (other, Err(Error::InvalidDestinationType { found, operation: Operation::MergeArray })),
                    }
                },
                _ => (cur, Err(Error::InvalidDestinationType { found: fk, operation: Operation::MergeArray })),
            }
        },
        Namespace::CombineArray => {
            let fk = field.kind();
            match field {
                Value::Array(f) => {
                    match cur {
                        Value::Array(e) => {
                            let mut e = e;
                            let mut f = f;
                            proof {
                                lemma_view_seq(e@);
                                lemma_view_seq(f@);
                                lemma_view_seq(e@ + f@);
                                assert(view_seq(e@ + f@) =~= view_seq(e@) + view_seq(f@));
                            }
                            e.append(&mut f);
                            (Value::Array(e), Ok(()))
                        },
                        Value::Null => (Value::Array(f), Ok(())),
                        other => (other, Err(Error::InvalidDestinationType { found, operation: Operation::CombineArray })),
                    }
                },
                _ => (cur, Err(Error::InvalidDestinationType { found: fk, operation: Operation::CombineArray })),
            }
        },
    }
}

/// Writes `field` into `destination` along write path `path`. On failure the
/// destination may hold part of the write.
pub fn write_value(destination: &mut Value, path: &Vec<Namespace>, field: Value) -> (r: Result<(), Error>)
    ensures
        match write_path(old(destination)@, path_view(path@), field@) {
            Ok(v) => r is Ok && final(destination)@ == v,
            Err(x) => r == Err::<(), Error>(x),
        },
{
    assert(path_view(path@).subrange(0, path@.len() as int) =~= path_view(path@));
    let mut owned = Value::Null;
    std::mem::swap(destination, &mut owned);
    let (v, r) = write_at(owned, path, 0, field);
    *destination = v;
    r
}

/// The outcome of one rule on destination `dst`: the child expression is
/// evaluated against `src` (host answers from `ans`); nothing leaves `dst` as
/// it is; a value is written along `path`. Also the answers left over.
pub open spec fn rule_outcome(path: Seq<Seg>, child: Expr, src: Json, dst: Json, ans: Seq<Answer>) -> (Result<Json, Failure>, Seq<Answer>) {
    let (r, rest) = eval(child, src, ans);
    (match r {
        Ok(None) => Ok(dst),
        Ok(Some(v)) => match write_path(dst, path, v) {
            Ok(d) => Ok(d),
            Err(x) => Err(Failure::Setter(x)),
        },
        Err(f) => Err(f),
    }, rest)
}

/// A unit result with the destination it left, in mathematical form.
pub open spec fn unit_view(r: Result<(), crate::errors::Error>, d: Json) -> Result<Json, Failure> {
    match r {
        Ok(()) => Ok(d),
        Err(e) => Err(failure_of(e)),
    }
}

pub open spec fn plain_path(p: Seq<Seg>) -> bool {
    forall|i: int| 0 <= i < p.len() ==> (#[trigger] p[i] is Key || p[i] is Index)
}

proof fn lemma_find_key_update(e: Seq<(Seq<char>, Json)>, i: int, k: Seq<char>, c: Json)
    requires
        0 <= i < e.len(),
        find_key(e, k) == i,
    ensures
        find_key(e.update(i, (k, c)), k) == i,
{
    lemma_find_key(e, k);
    lemma_find_key(e.update(i, (k, c)), k);
    let e2 = e.update(i, (k, c));
    let f = find_key(e2, k);
    assert(e2[i].0 == k);
    if f >= 0 && f < i {
        assert(e2[f] == e[f]);
    }
}

proof fn lemma_find_key_push(e: Seq<(Seq<char>, Json)>, k: Seq<char>, c: Json)
    requires
        find_key(e, k) < 0,
    ensures
        find_key(e.push((k, c)), k) == e.len(),
{
    lemma_find_key(e, k);
    lemma_find_key(e.push((k, c)), k);
    let e2 = e.push((k, c));
    let f = find_key(e2, k);
    assert(e2[e.len() as int].0 == k);
    if f >= 0 && f < e.len() {
        assert(e2[f] == e[f]);
    }
}

/// Writing the same value twice along a path of keys and indexes leaves the
/// destination as the first write left it.
pub proof fn lemma_write_idempotent(d: Json, p: Seq<Seg>, v: Json)
    requires
        plain_path(p),
    ensures
        write_path(d, p, v) matches Ok(d1) ==> write_path(d1, p, v) == Ok::<Json, Error>(d1),
    decreases p.len(),
{
    if p.len() > 0 {
        let rest = p.drop_first();
        assert(plain_path(rest)) by {
            assert forall|i: int| 0 <= i < rest.len() implies (#[trigger] rest[i] is Key || rest[i] is Index) by {
                assert(rest[i] == p[i + 1]);
            }
        }
        assert(p[0] is Key || p[0] is Index);
        match write_path(d, p, v) {
            Ok(d1) => {
                match p[0] {
                    Seg::Key(k) => {
                        let e = match d { Json::Object(e) => e, _ => seq![] };
                        let i = find_key(e, k);
                        lemma_find_key(e, k);
                        let child = if i >= 0 { e[i].1 } else { Json::Null };
                        lemma_write_idempotent(child, rest, v);
                        let c = write_path(child, rest, v)->Ok_0;
                        if i >= 0 {
                            lemma_find_key_update(e, i, k, c);
                            assert(e.update(i, (k, c)).update(i, (k, c)) =~= e.update(i, (k, c)));
                        } else {
                            lemma_find_key_push(e, k, c);
                            assert(e.push((k, c)).update(e.len() as int, (k, c)) =~= e.push((k, c)));
                        }
                    },
                    Seg::Index(n) => {
                        let a = match d { Json::Array(a) => a, _ => seq![] };
                        let a2 = padded(a, n + 1);
                        lemma_write_idempotent(a2[n as int], rest, v);
                        let c = write_path(a2[n as int], rest, v)->Ok_0;
                        let a3 = a2.update(n as int, c);
                        assert(padded(a3, n + 1) =~= a3);
                        assert(a3.update(n as int, c) =~= a3);
                    },
                    _ => {},
                }
            },
            Err(_) => {},
        }
    }
}

/// Applying a rule whose source is a constant a second time, along a write
/// path that ends in a plain key or index (or is empty), leaves the
/// destination as the first application left it.
pub proof fn lemma_constant_rule_idempotent(p: Seq<Seg>, v: Json, src: Json, d: Json, ans: Seq<Answer>)
    requires
        crate::path::wf_write(p),
        p.len() == 0 || p.last() is Key || p.last() is Index,
    ensures
        rule_outcome(p, Expr::Constant(v), src, d, ans).0 matches Ok(d1) ==>
            rule_outcome(p, Expr::Constant(v), src, d1, ans) == (Ok::<Json, Failure>(d1), ans),
{
    crate::path::lemma_plain_of_wf(p);
    assert(plain_path(p));
    lemma_write_idempotent(d, p, v);
}

/// The value that a write along keys and indexes `p` finds in `d` before
/// writing: what is there, or null where nothing is yet.
pub open spec fn walk(d: Json, p: Seq<Seg>) -> Json
    decreases p.len(),
{
    if p.len() == 0 {
        d
    } else {
        let child = match p[0] {
            Seg::Key(k) => match d {
                Json::Object(e) => match lookup(e, k) {
                    Some(c) => c,
                    None => Json::Null,
                },
                _ => Json::Null,
            },
            Seg::Index(n) => match d {
                Json::Array(a) => if n < a.len() { a[n as int] } else { Json::Null },
                _ => Json::Null,
            },
            _ => Json::Null,
        };
        walk(child, p.drop_first())
    }
}

/// A write along `p + q` that succeeds leaves at `p` what writing along `q`
/// into the value found at `p` gives.
pub proof fn lemma_write_prefix(d: Json, p: Seq<Seg>, q: Seq<Seg>, v: Json)
    requires
        plain_path(p),
        write_path(d, p + q, v) is Ok,
    ensures
        write_path(walk(d, p), q, v) is Ok,
        crate::getter::get_path(write_path(d, p + q, v)->Ok_0, p) == Some(write_path(walk(d, p), q, v)->Ok_0),
    decreases p.len(),
{
    if p.len() == 0 {
        assert(p + q =~= q);
    } else {
        let pq = p + q;
        let rest = p.drop_first();
        assert(pq[0] == p[0]);
        assert(pq.drop_first() =~= rest + q);
        assert(plain_path(rest)) by {
            assert forall|i: int| 0 <= i < rest.len() implies (#[trigger] rest[i] is Key || rest[i] is Index) by {
                assert(rest[i] == p[i + 1]);
            }
        }
        assert(p[0] is Key || p[0] is Index);
        match p[0] {
            Seg::Key(k) => {
                let e = match d { Json::Object(e) => e, _ => seq![] };
                let i = find_key(e, k);
                lemma_find_key(e, k);
                let child = if i >= 0 { e[i].1 } else { Json::Null };
                lemma_write_prefix(child, rest, q, v);
                let c = write_path(child, rest + q, v)->Ok_0;
                if i >= 0 {
                    lemma_find_key_update(e, i, k, c);
                } else {
                    lemma_find_key_push(e, k, c);
                }
            },
            Seg::Index(n) => {
                let a = match d { Json::Array(a) => a, _ => seq![] };
                let a2 = padded(a, n + 1);
                assert(a2[n as int] == (if n < a.len() { a[n as int] } else { Json::Null }));
                lemma_write_prefix(a2[n as int], rest, q, v);
            },
            _ => {},
        }
    }
}

/// Merging an array at the end of a path of keys and indexes: where the array
/// found there is shorter than the produced one, it is replaced outright;
/// otherwise the produced elements overwrite the first ones and the rest stay.
pub proof fn lemma_merge_array_at(d: Json, p: Seq<Seg>, a: Seq<Json>, e: Seq<Json>)
    requires
        plain_path(p),
        walk(d, p) == Json::Array(e),
        write_path(d, p + seq![Seg::MergeArray], Json::Array(a)) is Ok,
    ensures
        crate::getter::get_path(write_path(d, p + seq![Seg::MergeArray], Json::Array(a))->Ok_0, p)
            == Some(Json::Array(if a.len() > e.len() { a } else { overlay(e, a) })),
{
    lemma_write_prefix(d, p, seq![Seg::MergeArray], Json::Array(a));
}

/// A compiled rule: evaluates its child and writes the result into the destination.
#[derive(Debug, PartialEq)]
pub struct Setter {
    namespace: Vec<Namespace>,
    child: Action,
}

impl Setter {
    /// A rule writing along `namespace`, whose directives may only end it.
    pub fn new(namespace: Vec<Namespace>, child: Action) -> (r: Self)
        requires
            crate::path::wf_write(path_view(namespace@)),
        ensures
            r.path() == path_view(namespace@),
            r.child() == child@,
            crate::path::wf_write(r.path()),
    {
        Self { namespace, child }
    }

    /// The write path.
    pub closed spec fn path(&self) -> Seq<Seg> {
        path_view(self.namespace@)
    }

    /// The source expression.
    pub closed spec fn child(&self) -> Expr {
        self.child@
    }

    /// Every compiled rule's source reads along keys and indexes only.
    pub proof fn lemma_child_wf(&self)
        ensures
            crate::encode::wf_expr(self.child()),
    {
        crate::actions::lemma_action_wf(self.child);
    }

    /// The steps of the write path.
    pub fn namespace(&self) -> (r: &Vec<Namespace>)
        ensures
            path_view(r@) == self.path(),
    {
        &self.namespace
    }

    /// The compiled source expression.
    pub fn action(&self) -> (r: &Action)
        ensures
            r@ == self.child(),
    {
        &self.child
    }

    /// Evaluates the child against `source` and writes what it yields into
    /// `destination`; where it yields nothing the destination is left alone.
    /// The outcome is `rule_outcome` for the answers the host gave.
    pub fn apply<H: Host>(&self, host: &H, source: &Value, destination: &mut Value) -> (r: Result<(), crate::errors::Error>)
        ensures
            exists|log: Seq<Answer>| rule_outcome(self.path(), self.child(), source@, old(destination)@, log)
                == (unit_view(r, final(destination)@), Seq::<Answer>::empty()),
    {
        let (r, Ghost(log)) = self.apply_logged(host, source, destination);
        assert(log + Seq::<Answer>::empty() =~= log);
        assert(rule_outcome(self.path(), self.child(), source@, old(destination)@, log + Seq::<Answer>::empty())
            == (unit_view(r, destination@), Seq::<Answer>::empty()));
        r
    }

    /// As `apply`, also returning the host's answers, in order.
    pub fn apply_logged<H: Host>(&self, host: &H, source: &Value, destination: &mut Value) -> (res: (Result<(), crate::errors::Error>, Ghost<Seq<Answer>>))
        ensures
            forall|k: Seq<Answer>| #![trigger res.1@ + k]
                rule_outcome(self.path(), self.child(), source@, old(destination)@, res.1@ + k)
                    == (unit_view(res.0, final(destination)@), k),
    {
        let (cr, Ghost(cl)) = self.child.eval_logged(host, source);
        let ghost crv = res_view(cr);
        let r = match cr {
            Err(e) => Err(e),
            Ok(None) => Ok(()),
            Ok(Some(v)) => match write_value(destination, &self.namespace, v) {
                Ok(()) => Ok(()),
                Err(x) => Err(crate::errors::Error::Setter(x)),
            },
        };
        assert forall|k: Seq<Answer>| #![trigger cl + k]
            rule_outcome(self.path(), self.child(), source@, old(destination)@, cl + k)
                == (unit_view(r, destination@), k) by {
            assert(eval(self.child@, source@, cl + k) == (crv, k));
        }
        (r, Ghost(cl))
    }
}

} // verus!
