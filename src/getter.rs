//! The getter, which projects a value out of a source document.
use vstd::prelude::*;
use crate::path::Seg;
use crate::value::{Json, Value, lookup, lemma_view_entries, lemma_view_seq, position_of_key, view_of};

pub mod namespace;

use namespace::{Namespace, path_view};

verus! {

/// One step of a read path applied to `v`: a key of an object or a position
/// of an array; anything else finds nothing.
pub open spec fn step(v: Json, s: Seg) -> Option<Json> {
    match s {
        Seg::Key(k) => match v {
            Json::Object(e) => lookup(e, k),
            _ => None,
        },
        Seg::Index(n) => match v {
            Json::Array(a) => if n < a.len() { Some(a[n as int]) } else { None },
            _ => None,
        },
        _ => None,
    }
}

/// The value that read path `p` addresses in `v`, if it is present.
pub open spec fn get_path(v: Json, p: Seq<Seg>) -> Option<Json>
    decreases p.len(),
{
    if p.len() == 0 {
        Some(v)
    } else {
        match step(v, p[0]) {
            Some(c) => get_path(c, p.drop_first()),
            None => None,
        }
    }
}

/// Reading along `front` and then along `back` is reading along `front + back`; where
/// `front` finds nothing, so does `front + back`.
pub proof fn lemma_get_path_concat(v: Json, front: Seq<Seg>, back: Seq<Seg>)
    ensures
        get_path(v, front + back) == match get_path(v, front) {
            Some(w) => get_path(w, back),
            None => None,
        },
    decreases front.len(),
{
    if front.len() == 0 {
        assert(front + back =~= back);
    } else {
        assert((front + back)[0] == front[0]);
        assert((front + back).drop_first() =~= front.drop_first() + back);
        match step(v, front[0]) {
            Some(c) => lemma_get_path_concat(c, front.drop_first(), back),
            None => {},
        }
    }
}

/// A read path whose steps all find something addresses the value that the
/// last step finds; where one step finds no key, no position, or a value of
/// another kind, the path addresses nothing.
pub proof fn lemma_read_path(d: Json, p: Seq<Seg>, k: int)
    requires
        0 <= k < p.len(),
    ensures
        get_path(d, p.take(k + 1)) == match get_path(d, p.take(k)) {
            Some(w) => step(w, p[k]),
            None => None,
        },
        get_path(d, p.take(k)) is None ==> get_path(d, p) is None,
        (get_path(d, p.take(k)) matches Some(w) && step(w, p[k]) is None) ==> get_path(d, p) is None,
{
    lemma_get_path_concat(d, p.take(k), seq![p[k]]);
    assert(p.take(k) + seq![p[k]] =~= p.take(k + 1));
    match get_path(d, p.take(k)) {
        Some(w) => {
            let one = seq![p[k]];
            assert(one[0] == p[k]);
            assert(one.drop_first() =~= Seq::<Seg>::empty());
            match step(w, p[k]) {
                Some(c) => {
                    assert(get_path(c, one.drop_first()) == Some(c));
                },
                None => {},
            }
            assert(get_path(w, one) == step(w, p[k]));
        },
        None => {},
    }
    lemma_get_path_concat(d, p.take(k + 1), p.skip(k + 1));
    assert(p.take(k + 1) + p.skip(k + 1) =~= p);
}

/// Extracts data from the source document.
#[derive(Debug, PartialEq)]
pub struct Getter {
    namespace: Vec<Namespace>,
}

impl Getter {
    pub fn new(namespace: Vec<Namespace>) -> (r: Self)
        ensures
            r.path() == path_view(namespace@),
    {
        Self { namespace }
    }

    /// The read path of this getter.
    pub closed spec fn path(&self) -> Seq<Seg> {
        path_view(self.namespace@)
    }

    /// The steps of the read path.
    pub fn namespace(&self) -> (r: &Vec<Namespace>)
        ensures
            path_view(r@) == self.path(),
    {
        &self.namespace
    }

    /// A getter's path holds keys and indexes only.
    pub proof fn lemma_read_only(&self)
        ensures
            crate::encode::read_only(self.path()),
    {
        assert forall|i: int| 0 <= i < self.path().len() implies (#[trigger] self.path()[i] is Key || self.path()[i] is Index) by {
            assert(self.path()[i] == self.namespace@[i]@);
        }
    }

    /// A copy of the value that the path addresses in `source`, or nothing
    /// where a step finds no key, no position, or a value of another kind.
    pub fn apply(&self, source: &Value) -> (r: Option<Value>)
        ensures
            match r {
                Some(v) => get_path(source@, self.path()) == Some(v@),
                None => get_path(source@, self.path()) is None,
            },
    {
        let ghost p = self.path();
        let n = self.namespace.len();
        let mut current: &Value = source;
        let mut i: usize = 0;
        assert(p.subrange(0, n as int) =~= p);
        while i < n
            invariant
                i <= n == self.namespace@.len(),
                p == path_view(self.namespace@),
                get_path(source@, p) == get_path(current@, p.subrange(i as int, n as int)),
            decreases n - i,
        {
            let ghost rest = p.subrange(i as int, n as int);
            assert(rest[0] == self.namespace@[i as int]@);
            assert(rest.drop_first() =~= p.subrange(i + 1, n as int));
            match (&self.namespace[i], current) {
                (Namespace::Object { id }, Value::Object(o)) => {
                    proof {
                        lemma_view_entries(o@);
                        crate::value::lemma_find_key(crate::value::view_entries(o@), id@);
                    }
                    match position_of_key(o, id) {
                        Some(j) => {
                            assert(step(current@, rest[0]) == Some(view_of(o@[j as int].1)));
                            current = &o[j].1;
                        },
                        None => {
                            return None;
                        },
                    }
                },
                (Namespace::Array { index }, Value::Array(a)) => {
                    proof { lemma_view_seq(a@); }
                    if *index < a.len() {
                        assert(step(current@, rest[0]) == Some(view_of(a@[*index as int])));
                        current = &a[*index];
                    } else {
                        return None;
                    }
                },
                _ => {
                    return None;
                },
            }
            i = i + 1;
        }
        Some(current.copy())
    }
}

} // verus!
