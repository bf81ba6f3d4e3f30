use proteus::actions::Host;
use proteus::{Number, Parsable, Parser, TransformBuilder, Transformer, Value};

struct Plain;

impl Host for Plain {
    fn apply_custom(&self, name: &String, input: Option<Value>, _source: &Value) -> Result<Option<Value>, String> {
        match input {
            Some(Value::String(s)) if name == "shout" => Ok(Some(Value::String(s.to_uppercase()))),
            _ => Ok(None),
        }
    }

    fn float_sum(&self, terms: &Vec<Number>) -> String {
        let mut t = 0.0f64;
        for n in terms {
            t += match n {
                Number::PosInt(u) => *u as f64,
                Number::NegInt(i) => *i as f64,
                Number::Float(s) => s.parse::<f64>().unwrap(),
            };
        }
        format!("{:?}", t)
    }

    fn int_sum(&self, terms: &Vec<Number>) -> i64 {
        let mut t = 0.0f64;
        for n in terms {
            t += match n {
                Number::PosInt(u) => *u as f64,
                Number::NegInt(i) => *i as f64,
                Number::Float(s) => s.parse::<f64>().unwrap(),
            };
        }
        t as i64
    }
}

fn s(x: &str) -> Value {
    Value::String(x.to_string())
}

fn obj(entries: Vec<(&str, Value)>) -> Value {
    Value::Object(entries.into_iter().map(|(k, v)| (k.to_string(), v)).collect())
}

fn build(parser: &Parser, pairs: &[(&str, &str)]) -> Transformer {
    let parsables: Vec<Parsable> = pairs.iter().map(|(a, b)| Parsable::new(a, b)).collect();
    TransformBuilder::default().add_actions(parser.parse_multi(&parsables).unwrap()).build().unwrap()
}

#[test]
fn transformer_serialization() {
    let trans = build(&Parser::default(), &[("person.name", "person[0]"), ("person.metadata", "person[0]")]);
    let res = trans.to_tree().to_text();
    assert_eq!(res, "{\"actions\":[{\"Setter\":{\"namespace\":[{\"Object\":{\"id\":\"person\"}},{\"Array\":{\"index\":0}}],\"child\":{\"Getter\":{\"namespace\":[{\"Object\":{\"id\":\"person\"}},{\"Object\":{\"id\":\"name\"}}]}}}},{\"Setter\":{\"namespace\":[{\"Object\":{\"id\":\"person\"}},{\"Array\":{\"index\":0}}],\"child\":{\"Getter\":{\"namespace\":[{\"Object\":{\"id\":\"person\"}},{\"Object\":{\"id\":\"metadata\"}}]}}}}]}");
}

#[test]
fn stored_pipeline_applies_alike() {
    let mut parser = Parser::default();
    parser.add_action_parser("shout").unwrap();
    let trans = build(
        &parser,
        &[
            (r#"join(" ", const("Mr."), first, missing, last)"#, "name"),
            ("sum(const(1), nums, const(2.5))", "total"),
            (r#"strip_prefix("x-", trim(code))"#, "code"),
            ("count(nums)", "n"),
            ("len(first)", "lens[]"),
            ("shout(first)", "loud"),
            ("meta", "{}"),
            ("nums", "all[+]"),
            ("nums", "all[-]"),
            (r#"trim_end(const(" a "))"#, "t"),
        ],
    );
    let tree = trans.to_tree();
    let loaded = Transformer::from_tree(&tree).unwrap();
    assert_eq!(loaded.to_tree(), tree);
    let source = obj(vec![
        ("first", s("Dean")),
        ("last", s("Karn")),
        ("code", s("  x-42 ")),
        ("nums", Value::Array(vec![Value::Number(Number::PosInt(3)), Value::Number(Number::NegInt(-1))])),
        ("meta", obj(vec![("k", s("v"))])),
    ]);
    let a = trans.apply(&Plain, &source).unwrap();
    let b = loaded.apply(&Plain, &source).unwrap();
    assert_eq!(a, b);
    assert_eq!(
        a,
        obj(vec![
            ("name", s("Mr. Dean Karn")),
            ("total", Value::Number(Number::Float("5.5".to_string()))),
            ("code", s("42")),
            ("n", Value::Number(Number::PosInt(2))),
            ("lens", Value::Array(vec![Value::Number(Number::PosInt(4))])),
            ("loud", s("DEAN")),
            ("k", s("v")),
            ("all", Value::Array(vec![Value::Number(Number::PosInt(3)), Value::Number(Number::NegInt(-1))])),
            ("t", s(" a")),
        ])
    );
}

#[test]
fn loading_accepts_any_field_order_and_refuses_others() {
    let tree = obj(vec![(
        "actions",
        Value::Array(vec![obj(vec![(
            "Setter",
            obj(vec![
                ("child", obj(vec![("Constant", obj(vec![("value", s("v"))]))])),
                ("namespace", Value::Array(vec![obj(vec![("Object", obj(vec![("id", s("k"))]))])])),
            ]),
        )])]),
    )]);
    let t = Transformer::from_tree(&tree).unwrap();
    assert_eq!(t.apply(&Plain, &Value::Null).unwrap(), obj(vec![("k", s("v"))]));

    let bad_getter = obj(vec![(
        "actions",
        Value::Array(vec![obj(vec![(
            "Setter",
            obj(vec![
                ("namespace", Value::Array(vec![])),
                ("child", obj(vec![("Getter", obj(vec![("namespace", Value::Array(vec![s("AppendArray")]))]))])),
            ]),
        )])]),
    )]);
    assert!(Transformer::from_tree(&bad_getter).is_none());
    assert!(Transformer::from_tree(&obj(vec![("actions", s("x"))])).is_none());
    assert!(Transformer::from_tree(&Value::Null).is_none());
}

#[test]
fn value_text() {
    let v = obj(vec![
        ("a", Value::Array(vec![Value::Null, Value::Bool(true), Value::Number(Number::NegInt(-12))])),
        ("q", s("x\"y\\z\n\u{1}")),
    ]);
    assert_eq!(v.to_text(), "{\"a\":[null,true,-12],\"q\":\"x\\\"y\\\\z\\n\\u0001\"}");
}

fn parsables_value(ps: &[Parsable]) -> Value {
    Value::Array(
        ps.iter()
            .map(|p| obj(vec![("source", Value::String(p.source_text().clone())), ("destination", Value::String(p.destination_text().clone()))]))
            .collect(),
    )
}

fn parsables_from_str(text: &str) -> Vec<Parsable> {
    let v: serde_json::Value = serde_json::from_str(text).unwrap();
    v.as_array()
        .unwrap()
        .iter()
        .map(|p| Parsable::new(p["source"].as_str().unwrap(), p["destination"].as_str().unwrap()))
        .collect()
}

const PARSABLES_TEXT: &str = "[{\"source\":\"const(\\\"value\\\")\",\"destination\":\"new\"},{\"source\":\"const(\\\"value2\\\")\",\"destination\":\"new2\"}]";

#[test]
fn mod_parser_serialize_deserialize() {
    let parsables = vec![Parsable::new(r#"const("value")"#, "new"), Parsable::new(r#"const("value2")"#, "new2")];
    let serialized = parsables_value(&parsables).to_text();
    assert_eq!(PARSABLES_TEXT, serialized);
    let deserialized = parsables_from_str(&serialized);
    assert_eq!(parsables, deserialized);
}

#[test]
fn parser_parser_serialize_deserialize() {
    let parsables = vec![Parsable::new(r#"const("value")"#, "new"), Parsable::new(r#"const("value2")"#, "new2")];
    let serialized = parsables_value(&parsables).to_text();
    assert_eq!(PARSABLES_TEXT, serialized);
    let deserialized = parsables_from_str(&serialized);
    assert_eq!(parsables, deserialized);
}

#[test]
fn mod_parser_from_str() {
    let parsables = vec![Parsable::new(r#"const("value")"#, "new"), Parsable::new(r#"const("value2")"#, "new2")];
    let expected = Parser::default().parse_multi(&parsables).unwrap();
    let deserialized = Parser::default().parse_multi(&parsables_from_str(PARSABLES_TEXT)).unwrap();
    assert_eq!(expected, deserialized);
}

#[test]
fn parser_parser_from_str() {
    let parsables = vec![Parsable::new(r#"const("value")"#, "new"), Parsable::new(r#"const("value2")"#, "new2")];
    let expected = proteus::ParserBuilder::default().build().parse_multi(&parsables).unwrap();
    let deserialized = proteus::ParserBuilder::default().build().parse_multi(&parsables_from_str(PARSABLES_TEXT)).unwrap();
    assert_eq!(expected, deserialized);
}

#[test]
fn stored_float_literal_is_canonical() {
    let trans = build(&Parser::default(), &[(r#"join(",", const(2.50), const(1E2))"#, "x")]);
    let text = trans.to_tree().to_text();
    assert!(text.contains("{\"Constant\":{\"value\":2.5}}"));
    assert!(text.contains("{\"Constant\":{\"value\":100.0}}"));
    assert_eq!(trans.apply(&Plain, &Value::Null).unwrap(), obj(vec![("x", s("2.5,100.0"))]));
}
