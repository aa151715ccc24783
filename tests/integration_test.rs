use validator::register::FieldName;
use validator::rule::{Check, NoCheck, Rule};
use validator::value::Value;
use validator::Validator;

struct AgeLimit;

impl Check for AgeLimit {
    fn check(&self, v: &Value) -> Result<(), String> {
        if let Value::Uint8(n) = v {
            if *n >= 25 && *n <= 45 {
                return Ok(());
            }
        }
        Err("age should be between 25 and 45".to_owned())
    }
}

fn person(name: &str, age: u8) -> Value {
    Value::Object(vec![
        ("name".to_string(), Value::Str(name.to_string())),
        ("age".to_string(), Value::Uint8(age)),
    ])
}

#[test]
fn test_validator() {
    let validator = Validator::<AgeLimit>::new()
        .rule("name", Rule::Required.and(Rule::StartWith("hello".to_string())))
        .unwrap()
        .rule("age", Rule::custom(AgeLimit).into_list())
        .unwrap()
        .message(&[
            ("name.required", "name is required"),
            ("name.start_with", "name should be starts with `hello`"),
        ])
        .unwrap();

    let res = validator.validate(person("li", 18)).unwrap_err();

    assert!(res.len() == 2);
    assert!(res.contains(&(
        vec![FieldName::Literal("age".into())].into(),
        vec!["age should be between 25 and 45".to_string()],
    )));
    assert!(res.contains(&(
        vec![FieldName::Literal("name".into())].into(),
        vec!["name should be starts with `hello`".to_string()],
    )));
}

#[test]
fn test_has_tuple() {
    let validator = Validator::<NoCheck>::new()
        .rule_tuple(0, Rule::StartWith("hello".to_string()).into_list())
        .message(&[("0.start_with", "first item should be start with `hello`")])
        .unwrap();

    let data = Value::Tuple(vec![
        Value::Str("heoo".to_string()),
        Value::Str("bar".to_string()),
    ]);
    let res = validator.validate(data).unwrap_err();
    assert!(res.len() == 1);

    assert!(res.contains(&(
        vec![FieldName::Tuple(0)].into(),
        vec!["first item should be start with `hello`".to_string()],
    )));
}

#[test]
fn test_has_array() {
    let validator = Validator::<NoCheck>::new()
        .rule_array(1, Rule::StartWith("hello".to_string()).into_list());

    let data = Value::Array(vec![
        Value::Str("foo".to_string()),
        Value::Str("bar".to_string()),
    ]);
    let res = validator.validate(data).unwrap_err();

    assert!(res.len() == 1);
    assert!(res.contains(&(
        vec![FieldName::Array(1)].into(),
        vec!["this field must be start with {}".to_string()],
    )));
}
