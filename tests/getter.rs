use proteus::actions::{Action, Count, Host};
use proteus::getter::namespace::Namespace;
use proteus::getter::Getter;
use proteus::{Number, Value};

struct Plain;

impl Host for Plain {
    fn apply_custom(&self, name: &String, _input: Option<Value>, _source: &Value) -> Result<Option<Value>, String> {
        Err(format!("no custom action {}", name))
    }

    fn float_sum(&self, terms: &Vec<Number>) -> String {
        let mut t = 0.0f64;
        for n in terms {
            t += match n {
                Number::PosInt(u) => *u as f64,
                Number::NegInt(i) => *i as f64,
                Number::Float(s) => s.parse::<f64>().unwrap(),
            };
        }
        format!("{:?}", t)
    }

    fn int_sum(&self, terms: &Vec<Number>) -> i64 {
        let mut t = 0.0f64;
        for n in terms {
            t += match n {
                Number::PosInt(u) => *u as f64,
                Number::NegInt(i) => *i as f64,
                Number::Float(s) => s.parse::<f64>().unwrap(),
            };
        }
        t as i64
    }
}

fn s(x: &str) -> Value {
    Value::String(x.to_string())
}

fn obj(entries: Vec<(&str, Value)>) -> Value {
    Value::Object(entries.into_iter().map(|(k, v)| (k.to_string(), v)).collect())
}

fn get(path: &str, input: &Value) -> Option<Value> {
    Getter::new(Namespace::parse(path).unwrap()).apply(input)
}

#[test]
fn getter_key_value() {
    let input = obj(vec![("key", s("value"))]);
    assert_eq!(get("key", &input), Some(s("value")));
}

#[test]
fn getter_array_value_in_object() {
    let input = obj(vec![("existing_key", s("my_val1")), ("my_array", Value::Array(vec![s("value")]))]);
    assert_eq!(get("my_array[0]", &input), Some(s("value")));
}

#[test]
fn getter_array_value_in_array() {
    let input = Value::Array(vec![Value::Array(vec![s("value")])]);
    assert_eq!(get("[0][0]", &input), Some(s("value")));
}

#[test]
fn getter_array_in_array() {
    let input = Value::Array(vec![Value::Array(vec![s("value")])]);
    assert_eq!(get("[0]", &input), Some(Value::Array(vec![s("value")])));
}

#[test]
fn getter_object_value_in_array() {
    let input = Value::Array(vec![obj(vec![("key", s("value"))])]);
    assert_eq!(get("[0].key", &input), Some(s("value")));
}

#[test]
fn getter_array_value_in_object_in_array() {
    let input = Value::Array(vec![obj(vec![("key", Value::Array(vec![Value::Null, s("value")]))])]);
    assert_eq!(get("[0].key[1]", &input), Some(s("value")));
}

#[test]
fn mod_key_value() {
    let input = obj(vec![("key", s("value"))]);
    let getter = Action::Getter(Getter::new(Namespace::parse("key").unwrap()));
    assert_eq!(getter.apply(&Plain, &input), Ok(Some(s("value"))));
}

#[test]
fn mod_array_value_in_object() {
    let input = obj(vec![("existing_key", s("my_val1")), ("my_array", Value::Array(vec![s("value")]))]);
    let getter = Action::Getter(Getter::new(Namespace::parse("my_array[0]").unwrap()));
    assert_eq!(getter.apply(&Plain, &input), Ok(Some(s("value"))));
}

#[test]
fn mod_array_value_in_array() {
    let input = Value::Array(vec![Value::Array(vec![s("value")])]);
    let getter = Action::Getter(Getter::new(Namespace::parse("[0][0]").unwrap()));
    assert_eq!(getter.apply(&Plain, &input), Ok(Some(s("value"))));
}

#[test]
fn mod_array_in_array() {
    let input = Value::Array(vec![Value::Array(vec![s("value")])]);
    let getter = Action::Getter(Getter::new(Namespace::parse("[0]").unwrap()));
    assert_eq!(getter.apply(&Plain, &input), Ok(Some(Value::Array(vec![s("value")]))));
}

#[test]
fn mod_object_value_in_array() {
    let input = Value::Array(vec![obj(vec![("key", s("value"))])]);
    let getter = Action::Getter(Getter::new(Namespace::parse("[0].key").unwrap()));
    assert_eq!(getter.apply(&Plain, &input), Ok(Some(s("value"))));
}

#[test]
fn mod_array_value_in_object_in_array() {
    let input = Value::Array(vec![obj(vec![("key", Value::Array(vec![Value::Null, s("value")]))])]);
    let getter = Action::Getter(Getter::new(Namespace::parse("[0].key[1]").unwrap()));
    assert_eq!(getter.apply(&Plain, &input), Ok(Some(s("value"))));
}

#[test]
fn getter_absent_or_mismatched_is_nothing() {
    let input = obj(vec![("key", Value::Array(vec![s("a")]))]);
    assert_eq!(get("missing", &input), None);
    assert_eq!(get("key[5]", &input), None);
    assert_eq!(get("key.inner", &input), None);
    assert_eq!(get("[0]", &input), None);
    assert_eq!(get("", &input), Some(input.clone()));
}

#[test]
fn count_array_in_namespace() {
    let input = obj(vec![("key", Value::Array(vec![s("value1"), s("value2")]))]);
    let counter = Action::Count(Count::new(Action::Getter(Getter::new(Namespace::parse("key").unwrap()))));
    let res = counter.apply(&Plain, &input).unwrap();
    assert_eq!(res.unwrap(), Value::Number(Number::PosInt(2)));
}

#[test]
fn count_raw_array() {
    let input = Value::Array(vec![s("value1"), s("value2")]);
    let counter = Action::Count(Count::new(Action::Getter(Getter::new(Namespace::parse("").unwrap()))));
    let res = counter.apply(&Plain, &input).unwrap();
    assert_eq!(res.unwrap(), Value::Number(Number::PosInt(2)));
}

#[test]
#[should_panic(expected = "expected array")]
fn count_string_error() {
    let input = s("value1");
    let counter = Action::Count(Count::new(Action::Getter(Getter::new(Namespace::parse("").unwrap()))));
    let res = counter.apply(&Plain, &input);
    if let Err(e) = res {
        panic!("{}", e.message());
    }
}
