use proteus::actions::{Action, Constant, Host, Join};
use proteus::getter::namespace::Namespace as GetterNamespace;
use proteus::getter::Getter;
use proteus::setter::namespace::Namespace as SetterNamespace;
use proteus::setter::Setter;
use proteus::{Number, Parsable, Parser, ParserBuilder, TransformBuilder, Value};

struct Plain;

impl Host for Plain {
    fn apply_custom(&self, name: &String, _input: Option<Value>, _source: &Value) -> Result<Option<Value>, String> {
        Err(format!("no custom action {}", name))
    }

    fn float_sum(&self, terms: &Vec<Number>) -> String {
        let mut t = 0.0f64;
        for n in terms {
            t += match n {
                Number::PosInt(u) => *u as f64,
                Number::NegInt(i) => *i as f64,
                Number::Float(s) => s.parse::<f64>().unwrap(),
            };
        }
        format!("{:?}", t)
    }

    fn int_sum(&self, terms: &Vec<Number>) -> i64 {
        let mut t = 0.0f64;
        for n in terms {
            t += match n {
                Number::PosInt(u) => *u as f64,
                Number::NegInt(i) => *i as f64,
                Number::Float(s) => s.parse::<f64>().unwrap(),
            };
        }
        t as i64
    }
}

fn s(x: &str) -> Value {
    Value::String(x.to_string())
}

fn num(n: u64) -> Value {
    Value::Number(Number::PosInt(n))
}

fn float(t: &str) -> Value {
    Value::Number(Number::Float(t.to_string()))
}

fn obj(entries: Vec<(&str, Value)>) -> Value {
    Value::Object(entries.into_iter().map(|(k, v)| (k.to_string(), v)).collect())
}

fn arr(v: Vec<Value>) -> Value {
    Value::Array(v)
}

fn rule(src: &str, dst: &str) -> Setter {
    Parser::default().parse(src, dst).unwrap()
}

fn rules(pairs: &[(&str, &str)]) -> Vec<Setter> {
    let parsables: Vec<Parsable> = pairs.iter().map(|(a, b)| Parsable::new(a, b)).collect();
    Parser::default().parse_multi(&parsables).unwrap()
}

#[test]
fn mod_direct_getter() {
    let action = ParserBuilder::default().build().parse("key", "new").unwrap();
    let expected = Setter::new(
        SetterNamespace::parse("new").unwrap(),
        Action::Getter(Getter::new(GetterNamespace::parse("key").unwrap())),
    );
    assert_eq!(action, expected);
}

#[test]
fn mod_constant() {
    let action = ParserBuilder::default().build().parse(r#"const("value")"#, "new").unwrap();
    let expected = Setter::new(SetterNamespace::parse("new").unwrap(), Action::Constant(Constant::new(s("value"))));
    assert_eq!(action, expected);
}

#[test]
fn mod_join() {
    let action = ParserBuilder::default()
        .build()
        .parse(r#"join(",_" , first_name, last_name, const("Dean Karn"))"#, "full_name")
        .unwrap();
    let expected = Setter::new(
        vec![SetterNamespace::Object { id: "full_name".to_string() }],
        Action::Join(Join::new(
            ",_".to_string(),
            vec![
                Action::Getter(Getter::new(vec![GetterNamespace::Object { id: "first_name".to_string() }])),
                Action::Getter(Getter::new(vec![GetterNamespace::Object { id: "last_name".to_string() }])),
                Action::Constant(Constant::new(s("Dean Karn"))),
            ],
        )),
    );
    assert_eq!(action, expected);
}

#[test]
fn parser_direct_getter() {
    let action = Parser::default().parse("key", "new").unwrap();
    let expected = Setter::new(
        SetterNamespace::parse("new").unwrap(),
        Action::Getter(Getter::new(GetterNamespace::parse("key").unwrap())),
    );
    assert_eq!(action, expected);
}

#[test]
fn parser_constant() {
    let action = Parser::default().parse(r#"const("value")"#, "new").unwrap();
    let expected = Setter::new(SetterNamespace::parse("new").unwrap(), Action::Constant(Constant::new(s("value"))));
    assert_eq!(action, expected);
}

#[test]
fn parser_join() {
    let action = Parser::default()
        .parse(r#"join(",_" , first_name, last_name, const("Dean Karn"))"#, "full_name")
        .unwrap();
    let expected = Setter::new(
        vec![SetterNamespace::Object { id: "full_name".to_string() }],
        Action::Join(Join::new(
            ",_".to_string(),
            vec![
                Action::Getter(Getter::new(vec![GetterNamespace::Object { id: "first_name".to_string() }])),
                Action::Getter(Getter::new(vec![GetterNamespace::Object { id: "last_name".to_string() }])),
                Action::Constant(Constant::new(s("Dean Karn"))),
            ],
        )),
    );
    assert_eq!(action, expected);
}

#[test]
fn transformer_constant() {
    let trans = TransformBuilder::default().add_action(rule(r#"const("Dean Karn")"#, "full_name")).build().unwrap();
    let destination = trans.apply(&Plain, &s("")).unwrap();
    assert_eq!(destination, obj(vec![("full_name", s("Dean Karn"))]));
}

#[test]
fn array_of_array_to_array() {
    let trans = TransformBuilder::default().add_action(rule(r#"const("Dean Karn")"#, "[2][1]")).build().unwrap();
    let destination = trans.apply(&Plain, &s("")).unwrap();
    assert!(matches!(destination, Value::Array(_)));
    assert_eq!(destination, arr(vec![Value::Null, Value::Null, arr(vec![Value::Null, s("Dean Karn")])]));

    let trans = TransformBuilder::default().add_action(rule(r#"const("Dean Karn")"#, "[2][1].name")).build().unwrap();
    let destination = trans.apply(&Plain, &s("")).unwrap();
    assert!(matches!(destination, Value::Array(_)));
    assert_eq!(
        destination,
        arr(vec![Value::Null, Value::Null, arr(vec![Value::Null, obj(vec![("name", s("Dean Karn"))])])])
    );
}

#[test]
fn push_array() {
    let trans = TransformBuilder::default().add_action(rule(r#"const("Dean Karn")"#, "[2][]")).build().unwrap();
    let destination = trans.apply(&Plain, &s("")).unwrap();
    assert!(matches!(destination, Value::Array(_)));
    assert_eq!(destination, arr(vec![Value::Null, Value::Null, arr(vec![s("Dean Karn")])]));

    let trans = TransformBuilder::default().add_action(rule(r#"const("Dean Karn")"#, "[2][]")).build().unwrap();
    let mut destination = arr(vec![Value::Null, Value::Null, arr(vec![Value::Null])]);
    let res = trans.apply_to_destination(&Plain, &s(""), &mut destination);
    assert!(!res.is_err());
    assert!(matches!(destination, Value::Array(_)));
    assert_eq!(destination, arr(vec![Value::Null, Value::Null, arr(vec![Value::Null, s("Dean Karn")])]));

    let trans = TransformBuilder::default().add_action(rule(r#"const("Dean Karn")"#, "[2]")).build().unwrap();
    let destination = trans.apply(&Plain, &s("")).unwrap();
    assert!(matches!(destination, Value::Array(_)));
    assert_eq!(destination, arr(vec![Value::Null, Value::Null, s("Dean Karn")]));

    // testing replace
    let trans = TransformBuilder::default().add_action(rule(r#"const("Dean Karn")"#, "[2]")).build().unwrap();
    let mut destination = arr(vec![Value::Null, Value::Null, obj(vec![("id", s("id"))])]);
    let res = trans.apply_to_destination(&Plain, &s(""), &mut destination);
    assert!(!res.is_err());
    assert!(matches!(destination, Value::Array(_)));
    assert_eq!(destination, arr(vec![Value::Null, Value::Null, s("Dean Karn")]));

    let trans = TransformBuilder::default().add_action(rule(r#"const("Dean Karn")"#, "[1].key.key2")).build().unwrap();
    let destination = trans.apply(&Plain, &s("")).unwrap();
    assert!(matches!(destination, Value::Array(_)));
    assert_eq!(destination, arr(vec![Value::Null, obj(vec![("key", obj(vec![("key2", s("Dean Karn"))]))])]));
}

#[test]
fn append_array_top_level() {
    let trans = TransformBuilder::default().add_action(rule(r#"const([null,"Dean Karn"])"#, "[]")).build().unwrap();
    let mut destination = arr(vec![s("test")]);
    let res = trans.apply_to_destination(&Plain, &s(""), &mut destination);
    assert!(!res.is_err());
    assert!(matches!(destination, Value::Array(_)));
    assert_eq!(destination, arr(vec![s("test"), arr(vec![Value::Null, s("Dean Karn")])]));
}

#[test]
fn test_top_level() {
    let actions = rules(&[
        ("existing_key", "rename_from_existing_key"),
        ("my_array[0]", "used_to_be_array"),
        (r#"const("consant_value")"#, "const"),
    ]);
    let trans = TransformBuilder::default().add_actions(actions).build().unwrap();
    let input = obj(vec![("existing_key", s("my_val1")), ("my_array", arr(vec![s("idx_0_value")]))]);
    let expected = obj(vec![
        ("rename_from_existing_key", s("my_val1")),
        ("used_to_be_array", s("idx_0_value")),
        ("const", s("consant_value")),
    ]);
    assert_eq!(trans.apply(&Plain, &input).unwrap(), expected);
}

#[test]
fn test_10_top_level() {
    let pairs: Vec<(String, String)> = (1..=10).map(|i| (format!("top{}", i), format!("new{}", i))).collect();
    let parsables: Vec<Parsable> = pairs.iter().map(|(a, b)| Parsable::new(a, b)).collect();
    let actions = Parser::default().parse_multi(&parsables).unwrap();
    let trans = TransformBuilder::default().add_actions(actions).build().unwrap();
    let input = Value::Object((1..=10).map(|i| (format!("top{}", i), s("value"))).collect());
    let expected = Value::Object((1..=10).map(|i| (format!("new{}", i), s("value"))).collect());
    assert_eq!(trans.apply(&Plain, &input).unwrap(), expected);
}

#[test]
fn test_join() {
    let action = rule(r#"join(" ", const("Mr."), first_name, meta.middle_name, last_name)"#, "full_name");
    let trans = TransformBuilder::default().add_action(action).build().unwrap();
    let input = obj(vec![
        ("first_name", s("Dean")),
        ("last_name", s("Karn")),
        ("meta", obj(vec![("middle_name", s("Peter"))])),
    ]);
    assert_eq!(trans.apply(&Plain, &input).unwrap(), obj(vec![("full_name", s("Mr. Dean Peter Karn"))]));
}

#[test]
fn transformer_test_explicit_key() {
    let action = rule(r#"["name(1)"]"#, r#"["my name is ([2][])"]"#);
    let trans = TransformBuilder::default().add_action(action).build().unwrap();
    let source = obj(vec![("name(1)", s("Dean Karn"))]);
    let destination = trans.apply(&Plain, &source).unwrap();
    assert!(matches!(destination, Value::Object(_)));
    assert_eq!(destination, obj(vec![("my name is ([2][])", s("Dean Karn"))]));

    let action = rule(r#"["name(1)"].name"#, r#"["my name is ([2][])"]"#);
    let trans = TransformBuilder::default().add_action(action).build().unwrap();
    let source = obj(vec![("name(1)", obj(vec![("name", s("Dean Karn"))]))]);
    let destination = trans.apply(&Plain, &source).unwrap();
    assert!(matches!(destination, Value::Object(_)));
    assert_eq!(destination, obj(vec![("my name is ([2][])", s("Dean Karn"))]));
}

#[test]
fn merge_object() {
    let actions = rules(&[("person.name", "person.full_name"), ("person.metadata", "person{}")]);
    let trans = TransformBuilder::default().add_actions(actions).build().unwrap();
    let source = obj(vec![("person", obj(vec![("name", s("Dean Karn")), ("metadata", obj(vec![("age", num(1))]))]))]);
    let expected = obj(vec![("person", obj(vec![("full_name", s("Dean Karn")), ("age", num(1))]))]);
    assert_eq!(trans.apply(&Plain, &source).unwrap(), expected);
}

#[test]
fn combine_array() {
    let actions = rules(&[("person.name", "person[0]"), ("person.metadata", "person[+]")]);
    let trans = TransformBuilder::default().add_actions(actions).build().unwrap();
    let source = obj(vec![("person", obj(vec![("name", s("Dean Karn")), ("metadata", arr(vec![num(1)]))]))]);
    assert_eq!(trans.apply(&Plain, &source).unwrap(), obj(vec![("person", arr(vec![s("Dean Karn"), num(1)]))]));

    let actions = rules(&[("person.name", "[0]"), ("person.metadata", "[+]")]);
    let trans = TransformBuilder::default().add_actions(actions).build().unwrap();
    let mut destination = arr(vec![num(1)]);
    let _ = trans.apply_to_destination(&Plain, &source, &mut destination);
    assert_eq!(destination, arr(vec![s("Dean Karn"), num(1)]));
}

#[test]
fn replace_array() {
    let actions = rules(&[("person.name", "person[0]"), ("person.metadata", "person[0]")]);
    let trans = TransformBuilder::default().add_actions(actions).build().unwrap();
    let source = obj(vec![("person", obj(vec![("name", s("Dean Karn")), ("metadata", arr(vec![num(1)]))]))]);
    assert_eq!(trans.apply(&Plain, &source).unwrap(), obj(vec![("person", arr(vec![arr(vec![num(1)])]))]));
}

#[test]
fn merge_array() {
    let actions = rules(&[("person.name", "person[0]"), ("person.metadata", "person[-]")]);
    let trans = TransformBuilder::default().add_actions(actions).build().unwrap();
    let source = obj(vec![("person", obj(vec![("name", s("Dean Karn")), ("metadata", arr(vec![num(1)]))]))]);
    assert_eq!(trans.apply(&Plain, &source).unwrap(), obj(vec![("person", arr(vec![num(1)]))]));

    // source longer than the existing array
    let actions = rules(&[("person.name", "person[0]"), ("person.metadata", "person[-]")]);
    let trans = TransformBuilder::default().add_actions(actions).build().unwrap();
    let meta = arr(vec![num(1), s("blah"), float("45.6")]);
    let source = obj(vec![("person", obj(vec![("name", s("Dean Karn")), ("metadata", meta.clone())]))]);
    assert_eq!(trans.apply(&Plain, &source).unwrap(), obj(vec![("person", meta.clone())]));

    // source shorter than the existing array
    let actions = rules(&[("person.name", "person[5]"), ("person.metadata", "person[-]")]);
    let trans = TransformBuilder::default().add_actions(actions).build().unwrap();
    let expected = obj(vec![(
        "person",
        arr(vec![num(1), s("blah"), float("45.6"), Value::Null, Value::Null, s("Dean Karn")]),
    )]);
    assert_eq!(trans.apply(&Plain, &source).unwrap(), expected);
}

#[test]
fn get_action_compiles_like_parse_action() {
    let p = Parser::default();
    assert_eq!(p.get_action(r#"const("v")"#), p.parse_action(r#"const("v")"#));
    assert_eq!(p.get_action("a.b"), Ok(Action::Getter(Getter::new(GetterNamespace::parse("a.b").unwrap()))));
}
