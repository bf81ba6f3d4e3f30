use proteus::actions::Host;
use proteus::parser::Error as ParseError;
use proteus::setter::{Error as SetterError, Operation};
use proteus::value::Kind;
use proteus::{Error, Number, Parsable, Parser, TransformBuilder, Value};

struct Plain;

impl Host for Plain {
    fn apply_custom(&self, name: &String, input: Option<Value>, _source: &Value) -> Result<Option<Value>, String> {
        match (name.as_str(), input) {
            ("shout", Some(Value::String(s))) => Ok(Some(Value::String(s.to_uppercase()))),
            ("shout", _) => Ok(None),
            _ => Err(format!("no custom action {}", name)),
        }
    }

    fn float_sum(&self, terms: &Vec<Number>) -> String {
        let mut t = 0.0f64;
        for n in terms {
            t += match n {
                Number::PosInt(u) => *u as f64,
                Number::NegInt(i) => *i as f64,
                Number::Float(s) => s.parse::<f64>().unwrap(),
            };
        }
        format!("{:?}", t)
    }

    fn int_sum(&self, terms: &Vec<Number>) -> i64 {
        let mut t = 0.0f64;
        for n in terms {
            t += match n {
                Number::PosInt(u) => *u as f64,
                Number::NegInt(i) => *i as f64,
                Number::Float(s) => s.parse::<f64>().unwrap(),
            };
        }
        t as i64
    }
}

fn s(x: &str) -> Value {
    Value::String(x.to_string())
}

fn num(n: u64) -> Value {
    Value::Number(Number::PosInt(n))
}

fn float(t: &str) -> Value {
    Value::Number(Number::Float(t.to_string()))
}

fn obj(entries: Vec<(&str, Value)>) -> Value {
    Value::Object(entries.into_iter().map(|(k, v)| (k.to_string(), v)).collect())
}

fn arr(v: Vec<Value>) -> Value {
    Value::Array(v)
}

fn eval(parser: &Parser, expr: &str, source: &Value) -> Result<Option<Value>, Error> {
    parser.parse_action(expr).unwrap().apply(&Plain, source)
}

fn run(pairs: &[(&str, &str)], source: &Value, destination: Value) -> (Result<(), Error>, Value) {
    let parsables: Vec<Parsable> = pairs.iter().map(|(a, b)| Parsable::new(a, b)).collect();
    let actions = Parser::default().parse_multi(&parsables).unwrap();
    let trans = TransformBuilder::default().add_actions(actions).build().unwrap();
    let mut d = destination;
    let r = trans.apply_to_destination(&Plain, source, &mut d);
    (r, d)
}

#[test]
fn join_skips_missing_field() {
    let p = Parser::default();
    let source = obj(vec![("first_name", s("Dean")), ("last_name", s("Karn"))]);
    let r = eval(&p, r#"join(" ", const("Mr."), first_name, middle_name, last_name)"#, &source);
    assert_eq!(r, Ok(Some(s("Mr. Dean Karn"))));
}

#[test]
fn join_skips_empty_and_writes_text() {
    let p = Parser::default();
    let source = obj(vec![("a", s("")), ("b", s("x"))]);
    assert_eq!(eval(&p, r#"join("-", a, b, a)"#, &source), Ok(Some(s("x"))));
    assert_eq!(eval(&p, r#"join("-", a, missing)"#, &source), Ok(None));
    let r = eval(&p, r#"join(",", const(1), const(true), const(null), const([1,"a\"b"]), const({"k":-2}))"#, &source);
    assert_eq!(r, Ok(Some(s(r#"1,true,null,[1,"a\"b"],{"k":-2}"#))));
}

#[test]
fn sum_float_and_integer() {
    let p = Parser::default();
    let source = Value::Null;
    assert_eq!(eval(&p, "sum(const(1), const(2.5))", &source), Ok(Some(float("3.5"))));
    assert_eq!(eval(&p, "sum(const(1), const(2))", &source), Ok(Some(num(3))));
}

#[test]
fn sum_flattens_one_level_and_skips_others() {
    let p = Parser::default();
    let source = obj(vec![("xs", arr(vec![num(4), s("no"), Value::Number(Number::NegInt(-10)), arr(vec![num(100)])]))]);
    assert_eq!(eval(&p, r#"sum(xs, const("7"), missing, const(3))"#, &source), Ok(Some(Value::Number(Number::NegInt(-3)))));
    assert_eq!(eval(&p, "sum(missing)", &source), Ok(Some(num(0))));
}

#[test]
fn len_and_count() {
    let p = Parser::default();
    let source = obj(vec![("name", s("héllo")), ("xs", arr(vec![num(1), num(2), num(3)])), ("o", obj(vec![("a", num(1))]))]);
    assert_eq!(eval(&p, "len(name)", &source), Ok(Some(num(6))));
    assert_eq!(eval(&p, "len(xs)", &source), Ok(Some(num(3))));
    assert_eq!(eval(&p, "len(o)", &source), Ok(Some(num(1))));
    assert_eq!(eval(&p, "len(const(5))", &source), Ok(None));
    assert_eq!(eval(&p, "len(missing)", &source), Ok(None));
    assert_eq!(eval(&p, "count(xs)", &source), Ok(Some(num(3))));
    assert_eq!(eval(&p, "count( missing )", &source), Ok(Some(num(0))));
    assert_eq!(
        eval(&p, "count(o)", &source),
        Err(Error::Setter(SetterError::InvalidDestinationType { found: Kind::Object, operation: Operation::Count }))
    );
}

#[test]
fn trim_and_strip() {
    let p = Parser::default();
    let source = obj(vec![("t", s("  hi there \n")), ("n", num(3))]);
    assert_eq!(eval(&p, "trim(t)", &source), Ok(Some(s("hi there"))));
    assert_eq!(eval(&p, "trim_start(t)", &source), Ok(Some(s("hi there \n"))));
    assert_eq!(eval(&p, "trim_end(t)", &source), Ok(Some(s("  hi there"))));
    assert_eq!(eval(&p, "trim(n)", &source), Ok(None));
    assert_eq!(eval(&p, r#"strip_prefix("Mr. ", const("Mr. Karn"))"#, &source), Ok(Some(s("Karn"))));
    assert_eq!(eval(&p, r#"strip_prefix("Dr. ", const("Mr. Karn"))"#, &source), Ok(Some(s("Mr. Karn"))));
    assert_eq!(eval(&p, r#"strip_suffix(".txt", const("a.txt"))"#, &source), Ok(Some(s("a"))));
    assert_eq!(eval(&p, r#"strip_suffix(".txt", n)"#, &source), Ok(None));
}

#[test]
fn merge_object_into_existing() {
    let source = obj(vec![("person", obj(vec![("metadata", obj(vec![("age", num(1))]))]))]);
    let dest = obj(vec![("person", obj(vec![("full_name", s("Dean Karn"))]))]);
    let (r, d) = run(&[("person.metadata", "person{}")], &source, dest);
    assert!(r.is_ok());
    assert_eq!(d, obj(vec![("person", obj(vec![("full_name", s("Dean Karn")), ("age", num(1))]))]));
}

#[test]
fn merge_object_overwrites_on_collision() {
    let source = obj(vec![("m", obj(vec![("a", num(2)), ("b", num(3))]))]);
    let dest = obj(vec![("a", num(1)), ("c", num(9))]);
    let (r, d) = run(&[("m", "{}")], &source, dest);
    assert!(r.is_ok());
    assert_eq!(d, obj(vec![("a", num(2)), ("c", num(9)), ("b", num(3))]));
}

#[test]
fn merge_array_shorter_and_longer() {
    let dest = obj(vec![("person", arr(vec![num(1), s("blah"), float("45.6")]))]);
    let source = obj(vec![("metadata", arr(vec![s("Dean Karn")]))]);
    let (r, d) = run(&[("metadata", "person[-]")], &source, dest.clone());
    assert!(r.is_ok());
    assert_eq!(d, obj(vec![("person", arr(vec![s("Dean Karn"), s("blah"), float("45.6")]))]));

    let source = obj(vec![("metadata", arr(vec![num(7), num(8), num(9), num(10)]))]);
    let (r, d) = run(&[("metadata", "person[-]")], &source, dest);
    assert!(r.is_ok());
    assert_eq!(d, obj(vec![("person", arr(vec![num(7), num(8), num(9), num(10)]))]));
}

#[test]
fn invalid_destination_types() {
    let source = obj(vec![("v", num(1)), ("o", obj(vec![]))]);
    let (r, _) = run(&[("v", "a"), ("v", "a.b")], &source, Value::Null);
    assert_eq!(r, Err(Error::Setter(SetterError::InvalidDestinationType { found: Kind::Number, operation: Operation::SetKey })));
    let (r, _) = run(&[("v", "a[0]")], &source, obj(vec![("a", s("x"))]));
    assert_eq!(r, Err(Error::Setter(SetterError::InvalidDestinationType { found: Kind::String, operation: Operation::SetIndex })));
    let (r, _) = run(&[("v", "a[]")], &source, obj(vec![("a", obj(vec![]))]));
    assert_eq!(r, Err(Error::Setter(SetterError::InvalidDestinationType { found: Kind::Object, operation: Operation::AppendArray })));
    let (r, _) = run(&[("v", "a{}")], &source, Value::Null);
    assert_eq!(r, Err(Error::Setter(SetterError::InvalidDestinationType { found: Kind::Number, operation: Operation::MergeObject })));
    let (r, _) = run(&[("o", "a[+]")], &source, Value::Null);
    assert_eq!(r, Err(Error::Setter(SetterError::InvalidDestinationType { found: Kind::Object, operation: Operation::CombineArray })));
    let (r, _) = run(&[("o", "a{}")], &source, obj(vec![("a", arr(vec![]))]));
    assert_eq!(r, Err(Error::Setter(SetterError::InvalidDestinationType { found: Kind::Array, operation: Operation::MergeObject })));
}

#[test]
fn missing_source_leaves_destination_absent() {
    let (r, d) = run(&[("missing", "a"), ("present", "b")], &obj(vec![("present", num(1))]), Value::Null);
    assert!(r.is_ok());
    assert_eq!(d, obj(vec![("b", num(1))]));
}

#[test]
fn setting_a_constant_twice_is_idempotent() {
    let action = Parser::default().parse(r#"const({"x":[1,2]})"#, "a.b[3]").unwrap();
    let trans = TransformBuilder::default().add_action(action).build().unwrap();
    let mut d = obj(vec![("a", obj(vec![("c", num(1))]))]);
    trans.apply_to_destination(&Plain, &Value::Null, &mut d).unwrap();
    let once = d.clone();
    trans.apply_to_destination(&Plain, &Value::Null, &mut d).unwrap();
    assert_eq!(d, once);
}

#[test]
fn invalid_custom_name_is_refused() {
    let mut p = Parser::default();
    assert_eq!(p.add_action_parser("bad name"), Err(ParseError::InvalidActionName("bad name".to_string())));
    assert_eq!(p.add_action_parser("bad("), Err(ParseError::InvalidActionName("bad(".to_string())));
    assert_eq!(p.add_action_parser(""), Err(ParseError::InvalidActionName("".to_string())));
    assert_eq!(p.parse_action("shout(name)").err(), Some(ParseError::InvalidActionName("shout".to_string())));
    assert_eq!(p.add_action_parser("shout"), Ok(()));
    let source = obj(vec![("name", s("dean"))]);
    assert_eq!(eval(&p, "shout(name)", &source), Ok(Some(s("DEAN"))));
    assert_eq!(eval(&p, r#"join(" ", shout(name), const("k"))"#, &source), Ok(Some(s("DEAN k"))));
    assert_eq!(p.parse_action("shout()").err(), Some(ParseError::MissingActionValue("shout".to_string())));
}

#[test]
fn custom_failure_is_reported() {
    let mut p = Parser::default();
    p.add_action_parser("other").unwrap();
    assert_eq!(eval(&p, "other(x)", &Value::Null), Err(Error::Custom("no custom action other".to_string())));
}

#[test]
fn grammar_errors() {
    let p = Parser::default();
    assert_eq!(p.parse_action("nope(x)").err(), Some(ParseError::InvalidActionName("nope".to_string())));
    assert_eq!(p.parse_action("(x)").err(), Some(ParseError::MissingActionName));
    assert_eq!(p.parse_action("const()").err(), Some(ParseError::MissingActionValue("const".to_string())));
    assert_eq!(p.parse_action("const(nul)").err(), Some(ParseError::ValueParseError("nul".to_string())));
    assert_eq!(p.parse_action("join(a, b)").err(), Some(ParseError::InvalidQuotedValue("join(a, b)".to_string())));
    assert_eq!(p.parse_action(r#"strip_prefix(x)"#).err(), Some(ParseError::InvalidQuotedValue("strip_prefix(x)".to_string())));
    assert!(matches!(p.parse_action(".a"), Err(ParseError::GetterNamespace(_))));
    assert!(matches!(p.parse("a", "b{}c"), Err(ParseError::SetterNamespace(_))));
    let empty = proteus::ParserBuilder::new().build();
    assert_eq!(empty.parse_action("const(1)").err(), Some(ParseError::InvalidActionName("const".to_string())));
}

#[test]
fn nested_calls_and_literals() {
    let p = Parser::default();
    let source = obj(vec![("a", s(" x ")), ("b", s("y"))]);
    assert_eq!(eval(&p, r#"join("+", trim(a), join("-", b, b), len(const("abc")))"#, &source), Ok(Some(s("x+y-y+3"))));
    assert_eq!(eval(&p, r#"const("é\n")"#, &source), Ok(Some(s("é\n"))));
    assert_eq!(eval(&p, r#"const(-9223372036854775808)"#, &source), Ok(Some(Value::Number(Number::NegInt(i64::MIN)))));
    assert_eq!(eval(&p, r#"const(18446744073709551616)"#, &source), Ok(Some(float("1.8446744073709552e+19"))));
    assert_eq!(eval(&p, r#"const({"a":1,"a":2})"#, &source), Ok(Some(obj(vec![("a", num(2))]))));
    assert_eq!(eval(&p, r#"["const()"]"#, &obj(vec![("const()", num(5))])), Ok(Some(num(5))));
}

#[test]
fn unicode_escapes_in_literals() {
    let p = Parser::default();
    assert_eq!(eval(&p, r#"const("é😀")"#, &Value::Null), Ok(Some(s("é😀"))));
    assert_eq!(p.parse_action(r#"const("\ud83d")"#).err(), Some(ParseError::ValueParseError(r#""\ud83d""#.to_string())));
    assert_eq!(eval(&p, r#"len(const("é"))"#, &Value::Null), Ok(Some(num(2))));
}

#[test]
fn large_integer_sums_add_as_floats() {
    let p = Parser::default();
    let source = obj(vec![(
        "xs",
        arr(vec![Value::Number(Number::NegInt(-1)), num(1)]),
    )]);
    let big = format!("sum(const({}), const(1), const(-1))", i64::MAX);
    assert_eq!(eval(&p, &big, &source), Ok(Some(num(i64::MAX as u64))));
    assert_eq!(eval(&p, "sum(const(9007199254740992), const(1))", &source), Ok(Some(num(9007199254740992))));
    assert_eq!(eval(&p, "sum(const(9007199254740991), const(1), xs)", &source), Ok(Some(num(9007199254740992))));
}

struct Repeat;

impl proteus::ParsableAction for Repeat {
    fn parse(&self, parser: &Parser, name: &str, value: &str) -> Result<proteus::Action, ParseError> {
        let args = proteus::parser::split_arguments(value);
        if args.len() != 2 {
            return Err(ParseError::InvalidNumberOfProperties(name.to_string()));
        }
        let n: usize = args[0].parse().map_err(|_| ParseError::ValueParseError(args[0].clone()))?;
        let mut parts = Vec::new();
        for _ in 0..n {
            parts.push(parser.parse_action_with(self, &args[1])?);
        }
        Ok(proteus::Action::Join(proteus::actions::Join::new(String::new(), parts)))
    }
}

#[test]
fn caller_routines_parse_custom_calls() {
    let mut p = Parser::default();
    p.add_action_parser("rep").unwrap();
    let source = obj(vec![("a", s("ab"))]);
    let action = p.parse_action_with(&Repeat, "rep(3, a)").unwrap();
    assert_eq!(action.apply(&Plain, &source), Ok(Some(s("ababab"))));
    let nested = p.parse_action_with(&Repeat, r#"join("-", rep(2, rep(2, a)), const("x"))"#).unwrap();
    assert_eq!(nested.apply(&Plain, &source), Ok(Some(s("abababab-x"))));
    assert_eq!(p.parse_action_with(&Repeat, "rep(a)").err(), Some(ParseError::InvalidNumberOfProperties("rep".to_string())));
    let rule = p.parse_with(&Repeat, "rep(2, a)", "out").unwrap();
    let t = TransformBuilder::default().add_action(rule).build().unwrap();
    assert_eq!(t.apply(&Plain, &source).unwrap(), obj(vec![("out", s("abab"))]));
    let rules = p.parse_multi_with(&Repeat, &vec![Parsable::new("rep(1, a)", "x")]).unwrap();
    assert_eq!(rules.len(), 1);
}

#[test]
fn float_literals_take_canonical_text() {
    let p = Parser::default();
    assert_eq!(eval(&p, r#"join(",", const(2.50), const(1E2), const(-0.0))"#, &Value::Null), Ok(Some(s("2.5,100.0,-0.0"))));
    assert_eq!(eval(&p, "const(2.50)", &Value::Null), Ok(Some(float("2.5"))));
    assert_eq!(p.parse_action("const(1e400)").err(), Some(ParseError::ValueParseError("1e400".to_string())));
    assert_eq!(p.parse_action("const([1, 1e400])").err(), Some(ParseError::ValueParseError("[1, 1e400]".to_string())));
}
