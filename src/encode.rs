//! The tree form of a compiled pipeline: every node is a record tagged with
//! its kind, so a pipeline can be stored and loaded without its rule text.
use vstd::prelude::*;
use crate::actions::{Action, Constant, Count, Custom, Expr, Join, Len, Strip, Sum, Trim, strip, trim, actions_view};
use crate::getter::Getter;
use crate::getter::namespace::{Namespace as GetterNamespace, path_view as getter_path_view};
use crate::path::Seg;
use crate::setter::Setter;
use crate::setter::namespace::{Namespace as SetterNamespace, path_view as setter_path_view};
use crate::transformer::{Transformer, rules_view, run};
use crate::value::{JNum, Json, Number, Value, find_key, lookup, lemma_find_key, view_seq, view_entries,
    lemma_view_seq, lemma_view_entries, position_of_key};

verus! {

/// `{name: {fields}}`.
pub open spec fn tagged(name: Seq<char>, fields: Seq<(Seq<char>, Json)>) -> Json {
    Json::Object(seq![(name, Json::Object(fields))])
}

pub open spec fn seg_tree(s: Seg) -> Json {
    match s {
        Seg::Key(k) => tagged("Object"@, seq![("id"@, Json::Str(k))]),
        Seg::Index(n) => tagged("Array"@, seq![("index"@, Json::Number(JNum::PosInt(n as u64)))]),
        Seg::Append => Json::Str("AppendArray"@),
        Seg::MergeObject => Json::Str("MergeObject"@),
        Seg::MergeArray => Json::Str("MergeArray"@),
        Seg::CombineArray => Json::Str("CombineArray"@),
    }
}

pub open spec fn path_tree(p: Seq<Seg>) -> Json {
    Json::Array(p.map_values(|s: Seg| seg_tree(s)))
}

pub open spec fn trim_word(t: trim::Type) -> Seq<char> {
    match t {
        trim::Type::Trim => "Trim"@,
        trim::Type::TrimStart => "TrimStart"@,
        trim::Type::TrimEnd => "TrimEnd"@,
    }
}

pub open spec fn strip_word(t: strip::Type) -> Seq<char> {
    match t {
        strip::Type::StripPrefix => "StripPrefix"@,
        strip::Type::StripSuffix => "StripSuffix"@,
    }
}

pub open spec fn expr_tree(e: Expr) -> Json
    decreases e,
{
    match e {
        Expr::Constant(v) => tagged("Constant"@, seq![("value"@, v)]),
        Expr::Getter(p) => tagged("Getter"@, seq![("namespace"@, path_tree(p))]),
        Expr::Join(sep, cs) => tagged("Join"@, seq![("sep"@, Json::Str(sep)), ("values"@, Json::Array(exprs_tree(cs)))]),
        Expr::Sum(cs) => tagged("Sum"@, seq![("values"@, Json::Array(exprs_tree(cs)))]),
        Expr::Len(c) => tagged("Len"@, seq![("action"@, expr_tree(*c))]),
        Expr::Count(c) => tagged("Count"@, seq![("value"@, expr_tree(*c))]),
        Expr::Trim(t, c) => tagged("Trim"@, seq![("type"@, Json::Str(trim_word(t))), ("action"@, expr_tree(*c))]),
        Expr::Strip(t, lit, c) => tagged("Strip"@, seq![("type"@, Json::Str(strip_word(t))), ("trim"@, Json::Str(lit)), ("action"@, expr_tree(*c))]),
        Expr::Custom(n, c) => tagged("Custom"@, seq![("name"@, Json::Str(n)), ("action"@, expr_tree(*c))]),
    }
}

pub open spec fn exprs_tree(cs: Seq<Expr>) -> Seq<Json>
    decreases cs,
{
    if cs.len() == 0 {
        seq![]
    } else {
        exprs_tree(cs.subrange(0, cs.len() - 1)).push(expr_tree(cs[cs.len() - 1]))
    }
}

pub open spec fn rule_tree(r: (Seq<Seg>, Expr)) -> Json {
    tagged("Setter"@, seq![("namespace"@, path_tree(r.0)), ("child"@, expr_tree(r.1))])
}

/// The tree form of a pipeline's rules: `{"actions": [rule, ...]}`.
pub open spec fn pipeline_tree(rules: Seq<(Seq<Seg>, Expr)>) -> Json {
    Json::Object(seq![("actions"@, Json::Array(rules.map_values(|r: (Seq<Seg>, Expr)| rule_tree(r))))])
}

/// The single tag and the fields of a record `{name: {fields}}`.
pub open spec fn record(j: Json) -> Option<(Seq<char>, Seq<(Seq<char>, Json)>)> {
    match j {
        Json::Object(e) => if e.len() == 1 {
            match e[0].1 {
                Json::Object(f) => Some((e[0].0, f)),
                _ => None,
            }
        } else {
            None
        },
        _ => None,
    }
}

pub open spec fn decode_seg(j: Json) -> Option<Seg> {
    match j {
        Json::Str(t) => if t == "AppendArray"@ {
            Some(Seg::Append)
        } else if t == "MergeObject"@ {
            Some(Seg::MergeObject)
        } else if t == "MergeArray"@ {
            Some(Seg::MergeArray)
        } else if t == "CombineArray"@ {
            Some(Seg::CombineArray)
        } else {
            None
        },
        _ => match record(j) {
            Some((name, f)) => if name == "Object"@ {
                match lookup(f, "id"@) {
                    Some(Json::Str(k)) => Some(Seg::Key(k)),
                    _ => None,
                }
            } else if name == "Array"@ {
                match lookup(f, "index"@) {
                    Some(Json::Number(JNum::PosInt(n))) => if n <= usize::MAX { Some(Seg::Index(n as usize)) } else { None },
                    _ => None,
                }
            } else {
                None
            },
            None => None,
        },
    }
}

pub open spec fn decode_segs(a: Seq<Json>) -> Option<Seq<Seg>>
    decreases a.len(),
{
    if a.len() == 0 {
        Some(seq![])
    } else {
        match (decode_segs(a.drop_last()), decode_seg(a.last())) {
            (Some(p), Some(s)) => Some(p.push(s)),
            _ => None,
        }
    }
}

pub open spec fn decode_path(j: Json) -> Option<Seq<Seg>> {
    match j {
        Json::Array(a) => decode_segs(a),
        _ => None,
    }
}

/// A read path holds keys and indexes only.
pub open spec fn read_only(p: Seq<Seg>) -> bool {
    forall|i: int| 0 <= i < p.len() ==> (#[trigger] p[i] is Key || p[i] is Index)
}

pub open spec fn decode_trim(t: Json) -> Option<trim::Type> {
    if t == Json::Str("Trim"@) {
        Some(trim::Type::Trim)
    } else if t == Json::Str("TrimStart"@) {
        Some(trim::Type::TrimStart)
    } else if t == Json::Str("TrimEnd"@) {
        Some(trim::Type::TrimEnd)
    } else {
        None
    }
}

pub open spec fn decode_strip(t: Json) -> Option<strip::Type> {
    if t == Json::Str("StripPrefix"@) {
        Some(strip::Type::StripPrefix)
    } else if t == Json::Str("StripSuffix"@) {
        Some(strip::Type::StripSuffix)
    } else {
        None
    }
}

pub open spec fn decode_expr(j: Json) -> Option<Expr>
    decreases j,
{
    match j {
        Json::Object(e) => if e.len() == 1 {
            match e[0].1 {
                Json::Object(f) => {
                    let name = e[0].0;
                    if name == "Constant"@ {
                        let i = find_key(f, "value"@);
                        if 0 <= i < f.len() { Some(Expr::Constant(f[i].1)) } else { None }
                    } else if name == "Getter"@ {
                        let i = find_key(f, "namespace"@);
                        if 0 <= i < f.len() {
                            match decode_path(f[i].1) {
                                Some(p) => if read_only(p) { Some(Expr::Getter(p)) } else { None },
                                None => None,
                            }
                        } else {
                            None
                        }
                    } else if name == "Join"@ || name == "Sum"@ {
                        let i = find_key(f, "values"@);
                        if 0 <= i < f.len() {
                            match f[i].1 {
                                Json::Array(a) => match decode_exprs(a) {
                                    Some(cs) => if name == "Sum"@ {
                                        Some(Expr::Sum(cs))
                                    } else {
                                        match lookup(f, "sep"@) {
                                            Some(Json::Str(sep)) => Some(Expr::Join(sep, cs)),
                                            _ => None,
                                        }
                                    },
                                    None => None,
                                },
                                _ => None,
                            }
                        } else {
                            None
                        }
                    } else {
                        let ck = if name == "Count"@ { "value"@ } else { "action"@ };
                        let i = find_key(f, ck);
                        if 0 <= i < f.len() {
                            match decode_expr(f[i].1) {
                                Some(c) => if name == "Len"@ {
                                    Some(Expr::Len(Box::new(c)))
                                } else if name == "Count"@ {
                                    Some(Expr::Count(Box::new(c)))
                                } else if name == "Trim"@ {
                                    match lookup(f, "type"@) {
                                        Some(t) => match decode_trim(t) {
                                            Some(t) => Some(Expr::Trim(t, Box::new(c))),
                                            None => None,
                                        },
                                        None => None,
                                    }
                                } else if name == "Strip"@ {
                                    match (lookup(f, "type"@), lookup(f, "trim"@)) {
                                        (Some(t), Some(Json::Str(lit))) => match decode_strip(t) {
                                            Some(t) => Some(Expr::Strip(t, lit, Box::new(c))),
                                            None => None,
                                        },
                                        _ => None,
                                    }
                                } else if name == "Custom"@ {
                                    match lookup(f, "name"@) {
                                        Some(Json::Str(n)) => Some(Expr::Custom(n, Box::new(c))),
                                        _ => None,
                                    }
                                } else {
                                    None
                                },
                                None => None,
                            }
                        } else {
                            None
                        }
                    }
                },
                _ => None,
            }
        } else {
            None
        },
        _ => None,
    }
}

pub open spec fn decode_exprs(a: Seq<Json>) -> Option<Seq<Expr>>
    decreases a,
{
    if a.len() == 0 {
        Some(seq![])
    } else {
        match decode_exprs(a.subrange(0, a.len() - 1)) {
            Some(cs) => match decode_expr(a[a.len() - 1]) {
                Some(c) => Some(cs.push(c)),
                None => None,
            },
            None => None,
        }
    }
}

/// Every getter inside `e` reads along keys and indexes only.
pub open spec fn wf_expr(e: Expr) -> bool
    decreases e,
{
    match e {
        Expr::Constant(_) => true,
        Expr::Getter(p) => read_only(p),
        Expr::Join(_, cs) => wf_exprs(cs),
        Expr::Sum(cs) => wf_exprs(cs),
        Expr::Len(c) => wf_expr(*c),
        Expr::Count(c) => wf_expr(*c),
        Expr::Trim(_, c) => wf_expr(*c),
        Expr::Strip(_, _, c) => wf_expr(*c),
        Expr::Custom(_, c) => wf_expr(*c),
    }
}

pub open spec fn wf_exprs(cs: Seq<Expr>) -> bool
    decreases cs,
{
    if cs.len() == 0 { true } else { wf_exprs(cs.subrange(0, cs.len() - 1)) && wf_expr(cs[cs.len() - 1]) }
}

proof fn lemma_tags_differ()
    ensures
        "Constant"@ != "Getter"@, "Constant"@ != "Join"@, "Constant"@ != "Sum"@,
        "Getter"@ != "Join"@, "Getter"@ != "Sum"@, "Join"@ != "Sum"@,
        "Len"@ != "Count"@, "Len"@ != "Trim"@, "Len"@ != "Strip"@, "Len"@ != "Custom"@,
        "Count"@ != "Trim"@, "Count"@ != "Strip"@, "Count"@ != "Custom"@,
        "Trim"@ != "Strip"@, "Trim"@ != "Custom"@, "Strip"@ != "Custom"@,
        "Len"@ != "Constant"@, "Len"@ != "Getter"@, "Len"@ != "Join"@, "Len"@ != "Sum"@,
        "Count"@ != "Constant"@, "Count"@ != "Getter"@, "Count"@ != "Join"@, "Count"@ != "Sum"@,
        "Trim"@ != "Constant"@, "Trim"@ != "Getter"@, "Trim"@ != "Join"@, "Trim"@ != "Sum"@,
        "Strip"@ != "Constant"@, "Strip"@ != "Getter"@, "Strip"@ != "Join"@, "Strip"@ != "Sum"@,
        "Custom"@ != "Constant"@, "Custom"@ != "Getter"@, "Custom"@ != "Join"@, "Custom"@ != "Sum"@,
        "value"@ != "action"@, "type"@ != "action"@, "trim"@ != "action"@, "name"@ != "action"@,
        "type"@ != "trim"@, "sep"@ != "values"@,
        "Object"@ != "Array"@, "namespace"@ != "child"@,
        "Trim"@ != "TrimStart"@, "Trim"@ != "TrimEnd"@, "TrimStart"@ != "TrimEnd"@,
        "StripPrefix"@ != "StripSuffix"@,
        "AppendArray"@ != "MergeObject"@, "AppendArray"@ != "MergeArray"@, "AppendArray"@ != "CombineArray"@,
        "MergeObject"@ != "MergeArray"@, "MergeObject"@ != "CombineArray"@, "MergeArray"@ != "CombineArray"@,
{
    reveal_strlit("Constant"); reveal_strlit("Getter"); reveal_strlit("Join"); reveal_strlit("Sum");
    reveal_strlit("Len"); reveal_strlit("Count"); reveal_strlit("Trim"); reveal_strlit("Strip");
    reveal_strlit("Custom"); reveal_strlit("value"); reveal_strlit("action"); reveal_strlit("type");
    reveal_strlit("trim"); reveal_strlit("name"); reveal_strlit("sep"); reveal_strlit("values");
    reveal_strlit("Object"); reveal_strlit("Array"); reveal_strlit("namespace"); reveal_strlit("child");
    reveal_strlit("TrimStart"); reveal_strlit("TrimEnd"); reveal_strlit("StripPrefix"); reveal_strlit("StripSuffix");
    reveal_strlit("AppendArray"); reveal_strlit("MergeObject"); reveal_strlit("MergeArray"); reveal_strlit("CombineArray");
    assert("Getter"@[0] != "Custom"@[0]);
    assert("Join"@[0] != "Trim"@[0]);
    assert("Sum"@[0] != "Len"@[0]);
    assert("Count"@[0] != "Strip"@[0]);
    assert("value"@[0] != "child"@[0]);
    assert("type"@[1] != "trim"@[1]);
    assert("name"@[0] != "sep"@[0]);
    assert("MergeObject"@[5] != "MergeArray"@[5]);
    assert("StripPrefix"@[5] != "StripSuffix"@[5]);
    assert("TrimStart"@[4] != "TrimEnd"@[4]);
    assert("AppendArray"@[0] != "MergeArray"@[0]);
    assert("MergeObject"@[0] != "CombineArray"@[0]);
    assert("Constant"@[0] != "Getter"@[0]);
    assert("namespace"@[0] != "child"@[0]);
    assert("Count"@[1] != "Custom"@[1]);
    assert("Count"@[2] != "Constant"@[2]);
    assert("Strip"@[1] != "Sum"@[1]);
    assert("Custom"@[1] != "Constant"@[1]);
    assert("Object"@[0] != "Array"@[0]);
    assert("Trim"@.len() != "TrimStart"@.len());
    assert("Trim"@.len() != "TrimEnd"@.len());
}

proof fn lemma_seg_round_trip(s: Seg)
    ensures
        decode_seg(seg_tree(s)) == Some(s),
{
    lemma_tags_differ();
    match s {
        Seg::Key(k) => {
            assert(lookup(seq![("id"@, Json::Str(k))], "id"@) == Some(Json::Str(k)));
        },
        Seg::Index(n) => {
            assert(lookup(seq![("index"@, Json::Number(JNum::PosInt(n as u64)))], "index"@) == Some(Json::Number(JNum::PosInt(n as u64))));
        },
        _ => {},
    }
}

pub proof fn lemma_path_round_trip(p: Seq<Seg>)
    ensures
        decode_path(path_tree(p)) == Some(p),
    decreases p.len(),
{
    let a = p.map_values(|s: Seg| seg_tree(s));
    if p.len() > 0 {
        lemma_path_round_trip(p.drop_last());
        assert(a.drop_last() =~= p.drop_last().map_values(|s: Seg| seg_tree(s)));
        lemma_seg_round_trip(p.last());
        assert(p.drop_last().push(p.last()) =~= p);
    } else {
        assert(p =~= seq![]);
    }
}

pub proof fn lemma_expr_round_trip(e: Expr)
    requires
        wf_expr(e),
    ensures
        decode_expr(expr_tree(e)) == Some(e),
    decreases e,
{
    lemma_tags_differ();
    match e {
        Expr::Constant(v) => {
            assert(find_key(seq![("value"@, v)], "value"@) == 0);
        },
        Expr::Getter(p) => {
            lemma_path_round_trip(p);
            assert(find_key(seq![("namespace"@, path_tree(p))], "namespace"@) == 0);
        },
        Expr::Join(sep, cs) => {
            lemma_exprs_round_trip(cs);
            let f = seq![("sep"@, Json::Str(sep)), ("values"@, Json::Array(exprs_tree(cs)))];
            assert(f.drop_first() =~= seq![("values"@, Json::Array(exprs_tree(cs)))]);
            assert(find_key(f.drop_first(), "values"@) == 0);
            assert(find_key(f, "values"@) == 1);
            assert(find_key(f, "sep"@) == 0);
        },
        Expr::Sum(cs) => {
            lemma_exprs_round_trip(cs);
            assert(find_key(seq![("values"@, Json::Array(exprs_tree(cs)))], "values"@) == 0);
        },
        Expr::Len(c) => {
            lemma_expr_round_trip(*c);
            assert(find_key(seq![("action"@, expr_tree(*c))], "action"@) == 0);
        },
        Expr::Count(c) => {
            lemma_expr_round_trip(*c);
            assert(find_key(seq![("value"@, expr_tree(*c))], "value"@) == 0);
        },
        Expr::Trim(t, c) => {
            lemma_expr_round_trip(*c);
            let f = seq![("type"@, Json::Str(trim_word(t))), ("action"@, expr_tree(*c))];
            assert(f.drop_first() =~= seq![("action"@, expr_tree(*c))]);
            assert(find_key(f.drop_first(), "action"@) == 0);
            assert(find_key(f, "action"@) == 1);
            assert(find_key(f, "type"@) == 0);
        },
        Expr::Strip(t, lit, c) => {
            lemma_expr_round_trip(*c);
            let f = seq![("type"@, Json::Str(strip_word(t))), ("trim"@, Json::Str(lit)), ("action"@, expr_tree(*c))];
            assert(f.drop_first() =~= seq![("trim"@, Json::Str(lit)), ("action"@, expr_tree(*c))]);
            assert(f.drop_first().drop_first() =~= seq![("action"@, expr_tree(*c))]);
            assert(find_key(f.drop_first().drop_first(), "action"@) == 0);
            assert(find_key(f.drop_first(), "action"@) == 1);
            assert(find_key(f, "action"@) == 2);
            assert(find_key(f.drop_first(), "trim"@) == 0);
            assert(find_key(f, "trim"@) == 1);
            assert(find_key(f, "type"@) == 0);
        },
        Expr::Custom(n, c) => {
            lemma_expr_round_trip(*c);
            let f = seq![("name"@, Json::Str(n)), ("action"@, expr_tree(*c))];
            assert(f.drop_first() =~= seq![("action"@, expr_tree(*c))]);
            assert(find_key(f.drop_first(), "action"@) == 0);
            assert(find_key(f, "action"@) == 1);
            assert(find_key(f, "name"@) == 0);
        },
    }
}

pub proof fn lemma_exprs_round_trip(cs: Seq<Expr>)
    requires
        wf_exprs(cs),
    ensures
        decode_exprs(exprs_tree(cs)) == Some(cs),
    decreases cs,
{
    if cs.len() > 0 {
        let init = cs.subrange(0, cs.len() - 1);
        lemma_exprs_round_trip(init);
        lemma_expr_round_trip(cs[cs.len() - 1]);
        lemma_exprs_tree_len(init);
        let t = exprs_tree(cs);
        assert(t.subrange(0, t.len() - 1) =~= exprs_tree(init));
        assert(init.push(cs[cs.len() - 1]) =~= cs);
    }
}

proof fn lemma_exprs_tree_len(cs: Seq<Expr>)
    ensures
        exprs_tree(cs).len() == cs.len(),
    decreases cs.len(),
{
    if cs.len() > 0 {
        lemma_exprs_tree_len(cs.subrange(0, cs.len() - 1));
    }
}

pub open spec fn decode_rule(j: Json) -> Option<(Seq<Seg>, Expr)> {
    match record(j) {
        Some((name, f)) => if name == "Setter"@ {
            match (lookup(f, "namespace"@), lookup(f, "child"@)) {
                (Some(n), Some(c)) => match (decode_path(n), decode_expr(c)) {
                    (Some(p), Some(e)) => if crate::path::wf_write(p) { Some((p, e)) } else { None },
                    _ => None,
                },
                _ => None,
            }
        } else {
            None
        },
        None => None,
    }
}

pub open spec fn decode_rules(a: Seq<Json>) -> Option<Seq<(Seq<Seg>, Expr)>>
    decreases a.len(),
{
    if a.len() == 0 {
        Some(seq![])
    } else {
        match (decode_rules(a.drop_last()), decode_rule(a.last())) {
            (Some(rs), Some(r)) => Some(rs.push(r)),
            _ => None,
        }
    }
}

/// The rules that a tree holds, where it is the tree form of a pipeline.
pub open spec fn decode_pipeline(j: Json) -> Option<Seq<(Seq<Seg>, Expr)>> {
    match j {
        Json::Object(e) => match lookup(e, "actions"@) {
            Some(Json::Array(a)) => decode_rules(a),
            _ => None,
        },
        _ => None,
    }
}

pub open spec fn wf_rules(rules: Seq<(Seq<Seg>, Expr)>) -> bool {
    forall|i: int| 0 <= i < rules.len() ==> wf_expr(#[trigger] rules[i].1) && crate::path::wf_write(rules[i].0)
}

proof fn lemma_rules_round_trip(rules: Seq<(Seq<Seg>, Expr)>)
    requires
        wf_rules(rules),
    ensures
        decode_rules(rules.map_values(|r: (Seq<Seg>, Expr)| rule_tree(r))) == Some(rules),
    decreases rules.len(),
{
    lemma_tags_differ();
    if rules.len() > 0 {
        let init = rules.drop_last();
        assert(wf_rules(init)) by {
            assert forall|i: int| 0 <= i < init.len() implies wf_expr(#[trigger] init[i].1) && crate::path::wf_write(init[i].0) by {
                assert(init[i] == rules[i]);
            }
        }
        lemma_rules_round_trip(init);
        let a = rules.map_values(|r: (Seq<Seg>, Expr)| rule_tree(r));
        assert(a.drop_last() =~= init.map_values(|r: (Seq<Seg>, Expr)| rule_tree(r)));
        let r = rules.last();
        assert(wf_expr(r.1) && crate::path::wf_write(r.0)) by {
            assert(r == rules[rules.len() - 1]);
        }
        lemma_path_round_trip(r.0);
        lemma_expr_round_trip(r.1);
        let f = seq![("namespace"@, path_tree(r.0)), ("child"@, expr_tree(r.1))];
        assert(f.drop_first() =~= seq![("child"@, expr_tree(r.1))]);
        assert(find_key(f.drop_first(), "child"@) == 0);
        assert(find_key(f, "child"@) == 1);
        assert(find_key(f, "namespace"@) == 0);
        assert(decode_rule(a.last()) == Some(r));
        assert(init.push(r) =~= rules);
    } else {
        assert(rules =~= seq![]);
    }
}

/// Storing a pipeline in its tree form and loading it back gives the same
/// rules, so both apply to any source and destination alike.
pub proof fn lemma_pipeline_round_trip(rules: Seq<(Seq<Seg>, Expr)>, src: Json, dst: Json, ans: Seq<crate::actions::Answer>)
    requires
        wf_rules(rules),
    ensures
        decode_pipeline(pipeline_tree(rules)) == Some(rules),
        run(decode_pipeline(pipeline_tree(rules))->0, src, dst, ans) == run(rules, src, dst, ans),
{
    reveal_strlit("actions");
    lemma_rules_round_trip(rules);
    assert(find_key(seq![("actions"@, Json::Array(rules.map_values(|r: (Seq<Seg>, Expr)| rule_tree(r))))], "actions"@) == 0);
}

impl Transformer {
    /// Storing a transformer in its tree form and loading it back gives a
    /// transformer with the same rules, which applies to every source and
    /// destination as the stored one does.
    pub proof fn lemma_store_load(&self, src: Json, dst: Json, ans: Seq<crate::actions::Answer>)
        requires
            crate::transformer::wf_paths(self.rules()),
        ensures
            decode_pipeline(pipeline_tree(self.rules())) == Some(self.rules()),
            run(decode_pipeline(pipeline_tree(self.rules()))->0, src, dst, ans) == run(self.rules(), src, dst, ans),
    {
        self.lemma_wf();
        lemma_pipeline_round_trip(self.rules(), src, dst, ans);
    }

    /// The rules of every transformer hold well-formed sources.
    pub proof fn lemma_wf(&self)
        requires
            crate::transformer::wf_paths(self.rules()),
        ensures
            wf_rules(self.rules()),
    {
        let rs = self.rules();
        self.lemma_rules();
        assert forall|i: int| 0 <= i < rs.len() implies wf_expr(#[trigger] rs[i].1) && crate::path::wf_write(rs[i].0) by {
            assert(crate::path::wf_write(rs[i].0));
            let st = self.actions_seq()[i];
            st.lemma_child_wf();
        }
    }
}

fn is_word(s: &String, w: &str) -> (r: bool)
    ensures
        r == (s@ == w@),
{
    let t = w.to_owned();
    *s == t
}

/// The index of field `k` in `f`.
fn field_index(f: &Vec<(String, Value)>, k: &str) -> (r: Option<usize>)
    ensures
        match r {
            Some(i) => find_key(view_entries(f@), k@) == i as int && i < f@.len(),
            None => find_key(view_entries(f@), k@) < 0,
        },
{
    proof {
        lemma_view_entries(f@);
        lemma_find_key(view_entries(f@), k@);
    }
    let key = k.to_owned();
    position_of_key(f, &key)
}

fn decode_write_path(v: &Value) -> (r: Option<Vec<SetterNamespace>>)
    ensures
        match r {
            Some(ns) => decode_path(v@) == Some(setter_path_view(ns@)),
            None => decode_path(v@) is None,
        },
{
    proof { reveal_strlit("Object"); reveal_strlit("Array"); reveal_strlit("id"); reveal_strlit("index"); }
    let a = match v {
        Value::Array(a) => a,
        _ => {
            return None;
        },
    };
    let ghost av = view_seq(a@);
    proof { lemma_view_seq(a@); }
    let mut out: Vec<SetterNamespace> = Vec::new();
    let mut i: usize = 0;
    assert(av.subrange(0, 0) =~= seq![]);
    assert(setter_path_view(out@) =~= seq![]);
    while i < a.len()
        invariant
            i <= a@.len(),
            av == view_seq(a@),
            v@ == Json::Array(av),
            av.len() == a@.len(),
            forall|k: int| 0 <= k < a@.len() ==> #[trigger] av[k] == a@[k]@,
            decode_segs(av.subrange(0, i as int)) == Some(setter_path_view(out@)),
        decreases a.len() - i,
    {
        let ghost sub = av.subrange(0, i + 1);
        assert(sub.drop_last() =~= av.subrange(0, i as int));
        let ghost j = av[i as int];
        let seg = match &a[i] {
            Value::String(t) => {
                if is_word(t, "AppendArray") {
                    SetterNamespace::AppendArray
                } else if is_word(t, "MergeObject") {
                    SetterNamespace::MergeObject
                } else if is_word(t, "MergeArray") {
                    SetterNamespace::MergeArray
                } else if is_word(t, "CombineArray") {
                    SetterNamespace::CombineArray
                } else {
                    proof { lemma_decode_segs_stuck(av, i as int); }
                    return None;
                }
            },
            Value::Object(e) => {
                proof { lemma_view_entries(e@); }
                if e.len() != 1 {
                    proof { lemma_decode_segs_stuck(av, i as int); }
                    return None;
                }
                let f = match &e[0].1 {
                    Value::Object(f) => f,
                    _ => {
                        proof { lemma_decode_segs_stuck(av, i as int); }
                        return None;
                    },
                };
                proof { lemma_view_entries(f@); }
                if is_word(&e[0].0, "Object") {
                    match field_index(f, "id") {
                        Some(x) => match &f[x].1 {
                            Value::String(k) => SetterNamespace::Object { id: k.clone() },
                            _ => {
                                proof { lemma_decode_segs_stuck(av, i as int); }
                                return None;
                            },
                        },
                        None => {
                            proof { lemma_decode_segs_stuck(av, i as int); }
                            return None;
                        },
                    }
                } else if is_word(&e[0].0, "Array") {
                    match field_index(f, "index") {
                        Some(x) => match &f[x].1 {
                            Value::Number(Number::PosInt(n)) => {
                                if *n > usize::MAX as u64 {
                                    proof { lemma_decode_segs_stuck(av, i as int); }
                                    return None;
                                }
                                SetterNamespace::Array { index: *n as usize }
                            },
                            _ => {
                                proof { lemma_decode_segs_stuck(av, i as int); }
                                return None;
                            },
                        },
                        None => {
                            proof { lemma_decode_segs_stuck(av, i as int); }
                            return None;
                        },
                    }
                } else {
                    proof { lemma_decode_segs_stuck(av, i as int); }
                    return None;
                }
            },
            _ => {
                proof { lemma_decode_segs_stuck(av, i as int); }
                return None;
            },
        };
        assert(decode_seg(j) == Some(seg@));
        let ghost before = setter_path_view(out@);
        out.push(seg);
        assert(setter_path_view(out@) =~= before.push(seg@));
        i = i + 1;
    }
    assert(av.subrange(0, i as int) =~= av);
    Some(out)
}

proof fn lemma_decode_segs_stuck(av: Seq<Json>, i: int)
    requires
        0 <= i < av.len(),
        decode_seg(av[i]) is None,
    ensures
        decode_segs(av) is None,
    decreases av.len(),
{
    if i < av.len() - 1 {
        assert(av.drop_last()[i] == av[i]);
        lemma_decode_segs_stuck(av.drop_last(), i);
    }
}

fn decode_read_path(v: &Value) -> (r: Option<Vec<GetterNamespace>>)
    ensures
        match r {
            Some(ns) => decode_path(v@) == Some(getter_path_view(ns@)),
            None => decode_path(v@) is None || !read_only(decode_path(v@)->0),
        },
{
    let ws = match decode_write_path(v) {
        Some(ws) => ws,
        None => {
            return None;
        },
    };
    let ghost p = setter_path_view(ws@);
    assert(decode_path(v@) == Some(p));
    let mut out: Vec<GetterNamespace> = Vec::new();
    let mut i: usize = 0;
    while i < ws.len()
        invariant
            i <= ws@.len(),
            p == setter_path_view(ws@),
            decode_path(v@) == Some(p),
            getter_path_view(out@) =~= p.subrange(0, i as int),
        decreases ws.len() - i,
    {
        let n = match &ws[i] {
            SetterNamespace::Object { id } => GetterNamespace::Object { id: id.clone() },
            SetterNamespace::Array { index } => GetterNamespace::Array { index: *index },
            _ => {
                assert(!read_only(p)) by {
                    assert(!(p[i as int] is Key || p[i as int] is Index));
                }
                return None;
            },
        };
        let ghost before = getter_path_view(out@);
        out.push(n);
        assert(getter_path_view(out@) =~= before.push(n@));
        i = i + 1;
    }
    assert(p.subrange(0, i as int) =~= p);
    Some(out)
}

proof fn lemma_decode_exprs_stuck(av: Seq<Json>, k: int)
    requires
        0 <= k <= av.len(),
        decode_exprs(av.subrange(0, k)) is None,
    ensures
        decode_exprs(av) is None,
    decreases av.len() - k,
{
    if k < av.len() {
        let sub = av.subrange(0, k + 1);
        assert(sub.subrange(0, k) =~= av.subrange(0, k));
        lemma_decode_exprs_stuck(av, k + 1);
    } else {
        assert(av.subrange(0, k) =~= av);
    }
}

fn decode_trim_exec(v: &Value) -> (r: Option<trim::Type>)
    ensures
        r == decode_trim(v@),
{
    proof { lemma_tags_differ(); }
    match v {
        Value::String(t) => {
            if is_word(t, "Trim") {
                Some(trim::Type::Trim)
            } else if is_word(t, "TrimStart") {
                Some(trim::Type::TrimStart)
            } else if is_word(t, "TrimEnd") {
                Some(trim::Type::TrimEnd)
            } else {
                None
            }
        },
        _ => None,
    }
}

fn decode_strip_exec(v: &Value) -> (r: Option<strip::Type>)
    ensures
        r == decode_strip(v@),
{
    proof { lemma_tags_differ(); }
    match v {
        Value::String(t) => {
            if is_word(t, "StripPrefix") {
                Some(strip::Type::StripPrefix)
            } else if is_word(t, "StripSuffix") {
                Some(strip::Type::StripSuffix)
            } else {
                None
            }
        },
        _ => None,
    }
}

/// Loads an action from its tree form.
pub fn decode_action(v: &Value) -> (r: Option<Action>)
    ensures
        match r {
            Some(a) => decode_expr(v@) == Some(a@),
            None => decode_expr(v@) is None,
        },
    decreases v,
{
    proof { lemma_tags_differ(); }
    let e = match v {
        Value::Object(e) => e,
        _ => {
            return None;
        },
    };
    if e.len() != 1 {
        proof { lemma_view_entries(e@); }
        return None;
    }
    proof { lemma_view_entries(e@); }
    let f = match &e[0].1 {
        Value::Object(f) => f,
        _ => {
            return None;
        },
    };
    proof {
        lemma_view_entries(f@);
        assert(decreases_to!(*v => v->Object_0));
        assert(decreases_to!(*e => e[0]));
        assert(decreases_to!(e[0] => e[0].1));
        assert(decreases_to!(e[0].1 => e[0].1->Object_0));
    }
    let ghost fv = view_entries(f@);
    let name = &e[0].0;
    if is_word(name, "Constant") {
        match field_index(f, "value") {
            Some(i) => Some(Action::Constant(Constant::new(f[i].1.copy()))),
            None => None,
        }
    } else if is_word(name, "Getter") {
        match field_index(f, "namespace") {
            Some(i) => match decode_read_path(&f[i].1) {
                Some(ns) => {
                    let g = Getter::new(ns);
                    proof { crate::actions::lemma_getter_view(g); }
                    Some(Action::Getter(g))
                },
                None => None,
            },
            None => None,
        }
    } else if is_word(name, "Join") || is_word(name, "Sum") {
        let i = match field_index(f, "values") {
            Some(i) => i,
            None => {
                return None;
            },
        };
        let a = match &f[i].1 {
            Value::Array(a) => a,
            _ => {
                return None;
            },
        };
        proof {
            assert(decreases_to!(*f => f[i as int]));
            assert(decreases_to!(f[i as int] => f[i as int].1));
            assert(decreases_to!(f[i as int].1 => f[i as int].1->Array_0));
        }
        let ghost av = view_seq(a@);
        proof { lemma_view_seq(a@); }
        let mut cs: Vec<Action> = Vec::new();
        let mut k: usize = 0;
        assert(av.subrange(0, 0) =~= seq![]);
        assert(actions_view(cs@) =~= seq![]);
        assert(decode_exprs(av) is None ==> decode_expr(v@) is None);
        while k < a.len()
            invariant
                k <= a@.len(),
                decode_exprs(av) is None ==> decode_expr(v@) is None,
                av == view_seq(a@),
                av.len() == a@.len(),
                forall|x: int| 0 <= x < a@.len() ==> #[trigger] av[x] == a@[x]@,
                decreases_to!(*v => *a),
                decode_exprs(av.subrange(0, k as int)) == Some(actions_view(cs@)),
            decreases a.len() - k,
        {
            proof { assert(decreases_to!(*a => a[k as int])); }
            let ghost sub = av.subrange(0, k + 1);
            assert(sub.subrange(0, k as int) =~= av.subrange(0, k as int));
            assert(sub[k as int] == av[k as int]);
            match decode_action(&a[k]) {
                Some(c) => {
                    let ghost before = actions_view(cs@);
                    cs.push(c);
                    assert(actions_view(cs@) =~= before.push(c@));
                },
                None => {
                    proof { lemma_decode_exprs_stuck(av, k + 1); }
                    return None;
                },
            }
            k = k + 1;
        }
        assert(av.subrange(0, k as int) =~= av);
        if is_word(name, "Sum") {
            Some(Action::Sum(Sum::new(cs)))
        } else {
            match field_index(f, "sep") {
                Some(j) => match &f[j].1 {
                    Value::String(sep) => Some(Action::Join(Join::new(sep.clone(), cs))),
                    _ => None,
                },
                None => None,
            }
        }
    } else {
        let is_count = is_word(name, "Count");
        let ck = if is_count { "value" } else { "action" };
        let i = match field_index(f, ck) {
            Some(i) => i,
            None => {
                return None;
            },
        };
        proof {
            assert(decreases_to!(*f => f[i as int]));
            assert(decreases_to!(f[i as int] => f[i as int].1));
        }
        let c = match decode_action(&f[i].1) {
            Some(c) => c,
            None => {
                return None;
            },
        };
        if is_word(name, "Len") {
            Some(Action::Len(Len::new(c)))
        } else if is_count {
            Some(Action::Count(Count::new(c)))
        } else if is_word(name, "Trim") {
            match field_index(f, "type") {
                Some(j) => match decode_trim_exec(&f[j].1) {
                    Some(t) => Some(Action::Trim(Trim::new(t, c))),
                    None => None,
                },
                None => None,
            }
        } else if is_word(name, "Strip") {
            match (field_index(f, "type"), field_index(f, "trim")) {
                (Some(j), Some(m)) => match &f[m].1 {
                    Value::String(lit) => match decode_strip_exec(&f[j].1) {
                        Some(t) => Some(Action::Strip(Strip::new(t, lit.clone(), c))),
                        None => None,
                    },
                    _ => None,
                },
                _ => None,
            }
        } else if is_word(name, "Custom") {
            match field_index(f, "name") {
                Some(j) => match &f[j].1 {
                    Value::String(n) => Some(Action::Custom(Custom::new(n.clone(), c))),
                    _ => None,
                },
                None => None,
            }
        } else {
            None
        }
    }
}

fn wf_write_exec(ns: &Vec<SetterNamespace>) -> (r: bool)
    ensures
        r == crate::path::wf_write(setter_path_view(ns@)),
{
    let ghost p = setter_path_view(ns@);
    let n = ns.len();
    if n == 0 {
        return true;
    }
    let mut i: usize = 0;
    while i < n - 1
        invariant
            n == ns@.len(),
            n > 0,
            i <= n - 1,
            p == setter_path_view(ns@),
            forall|x: int| 0 <= x < i ==> (#[trigger] p[x] is Key || p[x] is Index),
        decreases n - 1 - i,
    {
        match &ns[i] {
            SetterNamespace::Object { .. } => {},
            SetterNamespace::Array { .. } => {},
            _ => {
                assert(!(p[i as int] is Key || p[i as int] is Index));
                return false;
            },
        }
        i = i + 1;
    }
    true
}

fn decode_rule_value(v: &Value) -> (r: Option<Setter>)
    ensures
        match r {
            Some(st) => decode_rule(v@) == Some((st.path(), st.child())),
            None => decode_rule(v@) is None,
        },
{
    proof { lemma_tags_differ(); }
    let e = match v {
        Value::Object(e) => e,
        _ => {
            return None;
        },
    };
    proof { lemma_view_entries(e@); }
    if e.len() != 1 {
        return None;
    }
    let f = match &e[0].1 {
        Value::Object(f) => f,
        _ => {
            return None;
        },
    };
    proof { lemma_view_entries(f@); }
    if !is_word(&e[0].0, "Setter") {
        return None;
    }
    match (field_index(f, "namespace"), field_index(f, "child")) {
        (Some(i), Some(j)) => match (decode_write_path(&f[i].1), decode_action(&f[j].1)) {
            (Some(ns), Some(c)) => {
                if wf_write_exec(&ns) {
                    Some(Setter::new(ns, c))
                } else {
                    None
                }
            },
            _ => None,
        },
        _ => None,
    }
}

impl Transformer {
    /// Loads a pipeline from its tree form; nothing where the tree is not one.
    pub fn from_tree(v: &Value) -> (r: Option<Transformer>)
        ensures
            match r {
                Some(t) => decode_pipeline(v@) == Some(t.rules()) && crate::transformer::wf_paths(t.rules()),
                None => decode_pipeline(v@) is None,
            },
    {
        let e = match v {
            Value::Object(e) => e,
            _ => {
                return None;
            },
        };
        proof { lemma_view_entries(e@); }
        let i = match field_index(e, "actions") {
            Some(i) => i,
            None => {
                return None;
            },
        };
        let a = match &e[i].1 {
            Value::Array(a) => a,
            _ => {
                return None;
            },
        };
        let ghost av = view_seq(a@);
        proof { lemma_view_seq(a@); }
        assert(decode_pipeline(v@) == decode_rules(av));
        let mut out: Vec<Setter> = Vec::new();
        let mut k: usize = 0;
        assert(av.subrange(0, 0) =~= seq![]);
        assert(rules_view(out@) =~= seq![]);
        while k < a.len()
            invariant
                k <= a@.len(),
                av == view_seq(a@),
                av.len() == a@.len(),
                forall|x: int| 0 <= x < a@.len() ==> #[trigger] av[x] == a@[x]@,
                decode_pipeline(v@) == decode_rules(av),
                decode_rules(av.subrange(0, k as int)) == Some(rules_view(out@)),
                crate::transformer::wf_paths(rules_view(out@)),
            decreases a.len() - k,
        {
            let ghost sub = av.subrange(0, k + 1);
            assert(sub.drop_last() =~= av.subrange(0, k as int));
            match decode_rule_value(&a[k]) {
                Some(st) => {
                    let ghost before = rules_view(out@);
                    out.push(st);
                    assert(rules_view(out@) =~= before.push((st.path(), st.child())));
                    assert(crate::transformer::wf_paths(rules_view(out@))) by {
                        assert forall|x: int| 0 <= x < rules_view(out@).len() implies crate::path::wf_write(#[trigger] rules_view(out@)[x].0) by {
                            if x < before.len() {
                                assert(rules_view(out@)[x] == before[x]);
                            }
                        }
                    }
                },
                None => {
                    proof { lemma_decode_rules_stuck(av, k as int); }
                    return None;
                },
            }
            k = k + 1;
        }
        assert(av.subrange(0, k as int) =~= av);
        Some(Transformer::new(out))
    }
}

proof fn lemma_decode_rules_stuck(av: Seq<Json>, i: int)
    requires
        0 <= i < av.len(),
        decode_rule(av[i]) is None,
    ensures
        decode_rules(av) is None,
    decreases av.len(),
{
    if i < av.len() - 1 {
        assert(av.drop_last()[i] == av[i]);
        lemma_decode_rules_stuck(av.drop_last(), i);
    }
}

pub(crate) fn field(k: &str, v: Value) -> (r: Vec<(String, Value)>)
    ensures
        view_entries(r@) == seq![(k@, v@)],
{
    let mut r: Vec<(String, Value)> = Vec::new();
    r.push((k.to_owned(), v));
    proof { lemma_view_entries(r@); }
    assert(view_entries(r@) =~= seq![(k@, v@)]);
    r
}

pub(crate) fn fields2(k1: &str, v1: Value, k2: &str, v2: Value) -> (r: Vec<(String, Value)>)
    ensures
        view_entries(r@) == seq![(k1@, v1@), (k2@, v2@)],
{
    let mut r: Vec<(String, Value)> = Vec::new();
    r.push((k1.to_owned(), v1));
    r.push((k2.to_owned(), v2));
    proof { lemma_view_entries(r@); }
    assert(view_entries(r@) =~= seq![(k1@, v1@), (k2@, v2@)]);
    r
}

pub(crate) fn fields3(k1: &str, v1: Value, k2: &str, v2: Value, k3: &str, v3: Value) -> (r: Vec<(String, Value)>)
    ensures
        view_entries(r@) == seq![(k1@, v1@), (k2@, v2@), (k3@, v3@)],
{
    let mut r: Vec<(String, Value)> = Vec::new();
    r.push((k1.to_owned(), v1));
    r.push((k2.to_owned(), v2));
    r.push((k3.to_owned(), v3));
    proof { lemma_view_entries(r@); }
    assert(view_entries(r@) =~= seq![(k1@, v1@), (k2@, v2@), (k3@, v3@)]);
    r
}

/// `{name: {fields}}`.
pub(crate) fn record_value(name: &str, fields: Vec<(String, Value)>) -> (r: Value)
    ensures
        r@ == tagged(name@, view_entries(fields@)),
{
    let ghost fv = view_entries(fields@);
    let inner = Value::Object(fields);
    let outer = field(name, inner);
    Value::Object(outer)
}

fn key_value(k: &String) -> (r: Value)
    ensures
        r@ == seg_tree(Seg::Key(k@)),
{
    record_value("Object", field("id", Value::String(k.clone())))
}

fn index_value(n: usize) -> (r: Value)
    ensures
        r@ == seg_tree(Seg::Index(n)),
{
    record_value("Array", field("index", Value::Number(Number::PosInt(n as u64))))
}

/// The tree form of a read path.
pub(crate) fn read_path_value(ns: &Vec<GetterNamespace>) -> (r: Value)
    ensures
        r@ == path_tree(getter_path_view(ns@)),
{
    let ghost p = getter_path_view(ns@);
    let mut out: Vec<Value> = Vec::new();
    let mut i: usize = 0;
    while i < ns.len()
        invariant
            i <= ns@.len(),
            p == getter_path_view(ns@),
            out@.len() == i,
            forall|k: int| 0 <= k < i ==> crate::value::view_of(#[trigger] out@[k]) == seg_tree(p[k]),
        decreases ns.len() - i,
    {
        let v = match &ns[i] {
            GetterNamespace::Object { id } => key_value(id),
            GetterNamespace::Array { index } => index_value(*index),
        };
        assert(v@ == seg_tree(p[i as int]));
        out.push(v);
        i = i + 1;
    }
    proof { lemma_view_seq(out@); }
    assert(view_seq(out@) =~= p.map_values(|s: Seg| seg_tree(s)));
    Value::Array(out)
}

/// The tree form of a write path.
pub(crate) fn write_path_value(ns: &Vec<SetterNamespace>) -> (r: Value)
    ensures
        r@ == path_tree(setter_path_view(ns@)),
{
    let ghost p = setter_path_view(ns@);
    let mut out: Vec<Value> = Vec::new();
    let mut i: usize = 0;
    while i < ns.len()
        invariant
            i <= ns@.len(),
            p == setter_path_view(ns@),
            out@.len() == i,
            forall|k: int| 0 <= k < i ==> crate::value::view_of(#[trigger] out@[k]) == seg_tree(p[k]),
        decreases ns.len() - i,
    {
        let v = match &ns[i] {
            SetterNamespace::Object { id } => key_value(id),
            SetterNamespace::Array { index } => index_value(*index),
            SetterNamespace::AppendArray => Value::String("AppendArray".to_owned()),
            SetterNamespace::MergeObject => Value::String("MergeObject".to_owned()),
            SetterNamespace::MergeArray => Value::String("MergeArray".to_owned()),
            SetterNamespace::CombineArray => Value::String("CombineArray".to_owned()),
        };
        assert(v@ == seg_tree(p[i as int]));
        out.push(v);
        i = i + 1;
    }
    proof { lemma_view_seq(out@); }
    assert(view_seq(out@) =~= p.map_values(|s: Seg| seg_tree(s)));
    Value::Array(out)
}

/// The tree form of one rule.
pub fn rule_value(st: &Setter) -> (r: Value)
    ensures
        r@ == rule_tree((st.path(), st.child())),
{
    let ns = write_path_value(st.namespace());
    let c = st.action().to_tree();
    record_value("Setter", fields2("namespace", ns, "child", c))
}

impl Transformer {
    /// The tree form of this pipeline: `{"actions": [...]}`, one tagged record per node.
    pub fn to_tree(&self) -> (r: Value)
        ensures
            r@ == pipeline_tree(self.rules()),
    {
        let rs = self.actions();
        let ghost rv = rules_view(rs@);
        let mut out: Vec<Value> = Vec::new();
        let mut i: usize = 0;
        while i < rs.len()
            invariant
                i <= rs@.len(),
                rv == rules_view(rs@),
                out@.len() == i,
                forall|k: int| 0 <= k < i ==> crate::value::view_of(#[trigger] out@[k]) == rule_tree(rv[k]),
            decreases rs.len() - i,
        {
            let v = rule_value(&rs[i]);
            assert(rv[i as int] == (rs@[i as int].path(), rs@[i as int].child()));
            out.push(v);
            i = i + 1;
        }
        proof { lemma_view_seq(out@); }
        assert(view_seq(out@) =~= rv.map_values(|r: (Seq<Seg>, Expr)| rule_tree(r)));
        Value::Object(field("actions", Value::Array(out)))
    }
}

} // verus!
