//! Write paths: where, and how, a value is written into a destination.
use vstd::prelude::*;
use crate::path::{scan, scan_path, Fault, Seg, Segment, segs_view};

verus! {

/// One step of a write path. The four directives may only end a path.
#[derive(Debug, PartialEq)]
pub enum Namespace {
    /// A key of an object.
    Object { id: String },
    /// Merge the produced object into the object here (`{}`).
    MergeObject,
    /// A position in an array.
    Array { index: usize },
    /// Append one new slot to the array here and write into it (`[]`).
    AppendArray,
    /// Overlay the produced array onto the array here (`[-]`).
    MergeArray,
    /// Append all elements of the produced array to the array here (`[+]`).
    CombineArray,
}

impl View for Namespace {
    type V = Seg;

    open spec fn view(&self) -> Seg {
        match self {
            Namespace::Object { id } => Seg::Key(id@),
            Namespace::MergeObject => Seg::MergeObject,
            Namespace::Array { index } => Seg::Index(*index),
            Namespace::AppendArray => Seg::Append,
            Namespace::MergeArray => Seg::MergeArray,
            Namespace::CombineArray => Seg::CombineArray,
        }
    }
}

pub open spec fn path_view(v: Seq<Namespace>) -> Seq<Seg> {
    v.map_values(|x: Namespace| x@)
}

/// What is wrong with a write path; each holds the path.
#[derive(Debug, PartialEq)]
pub enum Error {
    InvalidDotNotation { ns: String },
    InvalidNamespaceArrayIndex(String),
    MissingArrayIndexBracket(String),
    InvalidMergeObjectSyntax(String),
    InvalidMergeArraySyntax(String),
    InvalidCombineArraySyntax(String),
    InvalidAppendArraySyntax(String),
    InvalidExplicitKeySyntax(String),
}

impl Error {
    pub open spec fn fault(&self) -> Fault {
        match self {
            Error::InvalidDotNotation { .. } => Fault::DotNotation,
            Error::InvalidNamespaceArrayIndex(_) => Fault::ArrayIndex,
            Error::MissingArrayIndexBracket(_) => Fault::MissingBracket,
            Error::InvalidMergeObjectSyntax(_) => Fault::MergeObject,
            Error::InvalidMergeArraySyntax(_) => Fault::MergeArray,
            Error::InvalidCombineArraySyntax(_) => Fault::CombineArray,
            Error::InvalidAppendArraySyntax(_) => Fault::AppendArray,
            Error::InvalidExplicitKeySyntax(_) => Fault::ExplicitKey,
        }
    }

    pub open spec fn path(&self) -> Seq<char> {
        match self {
            Error::InvalidDotNotation { ns } => ns@,
            Error::InvalidNamespaceArrayIndex(p) => p@,
            Error::MissingArrayIndexBracket(p) => p@,
            Error::InvalidMergeObjectSyntax(p) => p@,
            Error::InvalidMergeArraySyntax(p) => p@,
            Error::InvalidCombineArraySyntax(p) => p@,
            Error::InvalidAppendArraySyntax(p) => p@,
            Error::InvalidExplicitKeySyntax(p) => p@,
        }
    }
}

impl Namespace {
    /// Parses a write path such as `a.b[0]`, `person{}` or `list[]` into its steps.
    pub fn parse(input: &str) -> (r: Result<Vec<Namespace>, Error>)
        ensures
            match r {
                Ok(v) => scan(input@, true) == Ok::<Seq<Seg>, Fault>(path_view(v@)),
                Err(e) => scan(input@, true) == Err::<Seq<Seg>, Fault>(e.fault()) && e.path() == input@,
            },
    {
        match scan_path(input, true) {
            Ok(segs) => {
                let ghost all = segs_view(segs@);
                let mut out: Vec<Namespace> = Vec::new();
                let mut i: usize = 0;
                while i < segs.len()
                    invariant
                        i <= segs@.len(),
                        all == segs_view(segs@),
                        path_view(out@) =~= all.subrange(0, i as int),
                    decreases segs.len() - i,
                {
                    assert(all[i as int] == segs@[i as int]@);
                    let ns = match &segs[i] {
                        Segment::Key(id) => Namespace::Object { id: id.clone() },
                        Segment::Index(index) => Namespace::Array { index: *index },
                        Segment::Append => Namespace::AppendArray,
                        Segment::MergeObject => Namespace::MergeObject,
                        Segment::MergeArray => Namespace::MergeArray,
                        Segment::CombineArray => Namespace::CombineArray,
                    };
                    assert(ns@ == all[i as int]);
                    let ghost prev = out@;
                    out.push(ns);
                    assert(path_view(out@) =~= path_view(prev).push(ns@));
                    i = i + 1;
                    assert(path_view(out@) =~= all.subrange(0, i as int));
                }
                assert(all.subrange(0, i as int) =~= all);
                Ok(out)
            },
            Err(f) => {
                let p = input.to_owned();
                match f {
                    Fault::DotNotation => Err(Error::InvalidDotNotation { ns: p }),
                    Fault::ArrayIndex => Err(Error::InvalidNamespaceArrayIndex(p)),
                    Fault::MissingBracket => Err(Error::MissingArrayIndexBracket(p)),
                    Fault::ExplicitKey => Err(Error::InvalidExplicitKeySyntax(p)),
                    Fault::MergeObject => Err(Error::InvalidMergeObjectSyntax(p)),
                    Fault::MergeArray => Err(Error::InvalidMergeArraySyntax(p)),
                    Fault::CombineArray => Err(Error::InvalidCombineArraySyntax(p)),
                    Fault::AppendArray => Err(Error::InvalidAppendArraySyntax(p)),
                }
            },
        }
    }
}

} // verus!
