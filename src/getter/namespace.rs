//! Read paths: the steps that lead from a document to one of its values.
use vstd::prelude::*;
use crate::path::{scan, scan_from, scan_path, Fault, Seg, Segment, segs_view, flush};

verus! {

/// One step of a read path.
#[derive(Debug, PartialEq)]
pub enum Namespace {
    /// A key of an object.
    Object { id: String },
    /// A position in an array.
    Array { index: usize },
}

impl View for Namespace {
    type V = Seg;

    open spec fn view(&self) -> Seg {
        match self {
            Namespace::Object { id } => Seg::Key(id@),
            Namespace::Array { index } => Seg::Index(*index),
        }
    }
}

pub open spec fn path_view(v: Seq<Namespace>) -> Seq<Seg> {
    v.map_values(|x: Namespace| x@)
}

/// What is wrong with a read path; each holds the path.
#[derive(Debug, PartialEq)]
pub enum Error {
    InvalidDotNotation { ns: String },
    InvalidNamespaceArrayIndex(String),
    MissingArrayIndexBracket(String),
    InvalidExplicitKeySyntax(String),
}

impl Error {
    pub open spec fn fault(&self) -> Fault {
        match self {
            Error::InvalidDotNotation { .. } => Fault::DotNotation,
            Error::InvalidNamespaceArrayIndex(_) => Fault::ArrayIndex,
            Error::MissingArrayIndexBracket(_) => Fault::MissingBracket,
            Error::InvalidExplicitKeySyntax(_) => Fault::ExplicitKey,
        }
    }

    pub open spec fn path(&self) -> Seq<char> {
        match self {
            Error::InvalidDotNotation { ns } => ns@,
            Error::InvalidNamespaceArrayIndex(p) => p@,
            Error::MissingArrayIndexBracket(p) => p@,
            Error::InvalidExplicitKeySyntax(p) => p@,
        }
    }
}

/// Only keys and indexes occur in a read path.
pub open spec fn is_read_seg(s: Seg) -> bool {
    s is Key || s is Index
}

pub open spec fn is_read_fault(f: Fault) -> bool {
    f == Fault::DotNotation || f == Fault::ArrayIndex || f == Fault::MissingBracket
        || f == Fault::ExplicitKey
}

proof fn lemma_read_scan(s: Seq<char>, i: int, buf: Seq<char>, acc: Seq<Seg>)
    requires
        forall|k: int| 0 <= k < acc.len() ==> is_read_seg(#[trigger] acc[k]),
    ensures
        scan_from(s, i, buf, acc, false) is Ok ==> forall|k: int|
            0 <= k < scan_from(s, i, buf, acc, false)->Ok_0.len() ==> is_read_seg(
                #[trigger] scan_from(s, i, buf, acc, false)->Ok_0[k],
            ),
        scan_from(s, i, buf, acc, false) is Err ==> is_read_fault(scan_from(s, i, buf, acc, false)->Err_0),
    decreases s.len() - i,
{
    if i < 0 || i >= s.len() {
    } else {
        let c = s[i];
        let acc1 = flush(acc, buf);
        assert(forall|k: int| 0 <= k < acc1.len() ==> is_read_seg(#[trigger] acc1[k]));
        if c == '.' {
            if buf.len() == 0 {
                if !(i == 0 || i + 1 == s.len()) {
                    lemma_read_scan(s, i + 1, buf, acc);
                }
            } else {
                lemma_read_scan(s, i + 1, seq![], acc.push(Seg::Key(buf)));
            }
        } else if c == '[' {
            let j = i + 1;
            if j < s.len() {
                if s[j] == '"' {
                    let q = crate::path::find_close_quote(s, j + 1);
                    if !(q < j + 1 || q + 1 >= s.len() || s[q + 1] != ']') {
                        let key = crate::path::unescape(s.subrange(j + 1, q));
                        let acc2 = acc1.push(Seg::Key(key));
                        assert(forall|k: int| 0 <= k < acc2.len() ==> is_read_seg(#[trigger] acc2[k]));
                        lemma_read_scan(s, q + 2, seq![], acc2);
                    }
                } else {
                    let k = crate::path::find_char(s, j, ']');
                    if !(k < j || k >= s.len()) {
                        match crate::path::parse_index(s.subrange(j, k)) {
                            Some(n) => {
                                let acc2 = acc1.push(Seg::Index(n));
                                assert(forall|x: int| 0 <= x < acc2.len() ==> is_read_seg(#[trigger] acc2[x]));
                                lemma_read_scan(s, k + 1, seq![], acc2);
                            },
                            None => {},
                        }
                    }
                }
            }
        } else {
            lemma_read_scan(s, i + 1, buf.push(c), acc);
        }
    }
}

impl Namespace {
    /// Parses a read path such as `a.b[0]["x.y"]` into its steps.
    pub fn parse(input: &str) -> (r: Result<Vec<Namespace>, Error>)
        ensures
            match r {
                Ok(v) => scan(input@, false) == Ok::<Seq<Seg>, Fault>(path_view(v@)),
                Err(e) => scan(input@, false) == Err::<Seq<Seg>, Fault>(e.fault()) && e.path() == input@,
            },
    {
        proof {
            lemma_read_scan(input@, 0, Seq::<char>::empty(), Seq::<Seg>::empty());
            assert(scan(input@, false) == scan_from(input@, 0, Seq::<char>::empty(), Seq::<Seg>::empty(), false));
        }
        match scan_path(input, false) {
            Ok(segs) => {
                let ghost all = segs_view(segs@);
                assert(scan(input@, false) == Ok::<Seq<Seg>, Fault>(all));
                proof {
                    let r = scan_from(input@, 0, Seq::<char>::empty(), Seq::<Seg>::empty(), false);
                    lemma_read_scan(input@, 0, Seq::<char>::empty(), Seq::<Seg>::empty());
                    assert(r == Ok::<Seq<Seg>, Fault>(all));
                    assert(r->Ok_0 == all);
                    assert forall|k: int| 0 <= k < all.len() implies is_read_seg(#[trigger] all[k]) by {
                        assert(is_read_seg(r->Ok_0[k]));
                    }
                }
                assert(forall|k: int| 0 <= k < all.len() ==> is_read_seg(#[trigger] all[k]));
                let mut out: Vec<Namespace> = Vec::new();
                let mut i: usize = 0;
                while i < segs.len()
                    invariant
                        i <= segs@.len(),
                        all == segs_view(segs@),
                        forall|k: int| 0 <= k < all.len() ==> is_read_seg(#[trigger] all[k]),
                        path_view(out@) =~= all.subrange(0, i as int),
                    decreases segs.len() - i,
                {
                    assert(all[i as int] == segs@[i as int]@);
                    let ns = match &segs[i] {
                        Segment::Key(id) => Namespace::Object { id: id.clone() },
                        Segment::Index(index) => Namespace::Array { index: *index },
                        _ => {
                            assert(false);
                            Namespace::Array { index: 0 }
                        },
                    };
                    assert(ns@ == all[i as int]);
                    let ghost prev = out@;
                    out.push(ns);
                    assert(path_view(out@) =~= path_view(prev).push(ns@));
                    i = i + 1;
                    assert(path_view(out@) =~= all.subrange(0, i as int));
                }
                assert(all.subrange(0, i as int) =~= all);
                Ok(out)
            },
            Err(f) => {
                let p = input.to_owned();
                match f {
                    Fault::DotNotation => Err(Error::InvalidDotNotation { ns: p }),
                    Fault::ArrayIndex => Err(Error::InvalidNamespaceArrayIndex(p)),
                    Fault::MissingBracket => Err(Error::MissingArrayIndexBracket(p)),
                    _ => Err(Error::InvalidExplicitKeySyntax(p)),
                }
            },
        }
    }
}

} // verus!
