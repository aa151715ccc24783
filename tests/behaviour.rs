use validator::field_name::{parse, parse_message, FieldName, ParseError};
use validator::register::ConfigError;
use validator::rule::{Check, NoCheck, Rule, RuleList};
use validator::value::{locate, NavError, Value};
use validator::Validator;

fn lit(s: &str) -> FieldName {
    FieldName::Literal(s.to_string())
}

fn text(s: &str) -> Value {
    Value::Str(s.to_string())
}

struct Never;

impl Check for Never {
    fn check(&self, _v: &Value) -> Result<(), String> {
        Err("never".to_string())
    }
}

#[test]
fn parse_literal_path_splits_on_dots() {
    assert_eq!(parse("a.bc.d"), Ok(vec![lit("a"), lit("bc"), lit("d")]));
    assert_eq!(parse("name"), Ok(vec![lit("name")]));
}

#[test]
fn parse_positional_segments() {
    assert_eq!(parse("0"), Ok(vec![FieldName::Tuple(0)]));
    assert_eq!(parse("items.[12].x"), Ok(vec![lit("items"), FieldName::Array(12), lit("x")]));
    assert_eq!(parse("a1.2b"), Ok(vec![lit("a1"), lit("2b")]));
}

#[test]
fn parse_rejects_empty_segments() {
    assert_eq!(parse(""), Err(ParseError::EmptySegment));
    assert_eq!(parse(".a"), Err(ParseError::EmptySegment));
    assert_eq!(parse("a."), Err(ParseError::EmptySegment));
    assert_eq!(parse("a..b"), Err(ParseError::EmptySegment));
}

#[test]
fn parse_rejects_bad_indices() {
    assert_eq!(parse("[-1]"), Err(ParseError::BadIndex));
    assert_eq!(parse("[x]"), Err(ParseError::BadIndex));
    assert_eq!(parse("[]"), Err(ParseError::BadIndex));
    assert_eq!(parse("[3"), Err(ParseError::BadIndex));
    assert_eq!(parse("99999999999999999999999"), Err(ParseError::BadIndex));
}

#[test]
fn parse_message_splits_at_last_dot() {
    assert_eq!(
        parse_message("a.b.required"),
        Ok((vec![lit("a"), lit("b")], "required".to_string()))
    );
    assert_eq!(parse_message("name"), Err(ParseError::MissingRuleName));
    assert_eq!(parse_message(".required"), Err(ParseError::EmptySegment));
}

#[test]
fn locate_walks_maps_and_sequences() {
    let data = Value::Object(vec![(
        "list".to_string(),
        Value::Array(vec![text("x"), Value::Tuple(vec![Value::Bool(true)])]),
    )]);
    let path = vec![lit("list"), FieldName::Array(1), FieldName::Tuple(0)];
    assert_eq!(locate(&data, &path), Ok(&Value::Bool(true)));
    assert_eq!(locate(&data, &vec![lit("other")]), Err(NavError::FieldNotFound));
    assert_eq!(
        locate(&data, &vec![lit("list"), FieldName::Array(2)]),
        Err(NavError::IndexOutOfRange)
    );
    assert_eq!(locate(&text("x"), &vec![FieldName::Tuple(0)]), Err(NavError::IndexOutOfRange));
}

#[test]
fn rule_list_reports_each_failure_in_order() {
    let list = RuleList::<Never>::new()
        .and(Rule::Required)
        .and(Rule::custom(Never))
        .and(Rule::StartWith("ab".to_string()));
    let got = list.call(&text("xy"));
    assert_eq!(
        got,
        vec![
            ("custom".to_string(), "never".to_string()),
            ("start_with".to_string(), "this field must be start with {}".to_string()),
        ]
    );
    assert_eq!(list.call(&text("")).len(), 3);
    assert_eq!(
        list.get_rules_name(),
        vec!["required".to_string(), "custom".to_string(), "start_with".to_string()]
    );
}

#[test]
fn required_rule_fails_on_unit_and_empty_text() {
    let list = Rule::<NoCheck>::Required.into_list();
    assert_eq!(
        list.call(&Value::Unit),
        vec![("required".to_string(), "this field is required".to_string())]
    );
    assert_eq!(list.call(&text("")).len(), 1);
    assert!(list.call(&text("x")).is_empty());
    assert!(list.call(&Value::Uint8(0)).is_empty());
}

#[test]
fn start_with_needs_text_with_the_prefix() {
    let list = Rule::<NoCheck>::StartWith("hello".to_string()).into_list();
    assert!(list.call(&text("hello world")).is_empty());
    assert!(list.call(&text("hello")).is_empty());
    assert_eq!(list.call(&text("he")).len(), 1);
    assert_eq!(list.call(&Value::Int32(5)).len(), 1);
}

#[test]
fn no_rules_validates_anything() {
    assert_eq!(Validator::<NoCheck>::new().validate(Value::Unit), Ok(()));
    assert_eq!(Validator::<NoCheck>::new().validate(text("x")), Ok(()));
}

#[test]
fn passing_paths_are_omitted() {
    let v = Validator::<NoCheck>::new()
        .rule("name", Rule::Required.into_list())
        .unwrap();
    let data = Value::Object(vec![("name".to_string(), text("li"))]);
    assert_eq!(v.validate(data), Ok(()));
}

#[test]
fn missing_field_is_reported() {
    let v = Validator::<NoCheck>::new()
        .rule("name", Rule::Required.into_list())
        .unwrap()
        .rule_tuple(3, Rule::Required.into_list());
    let data = Value::Object(vec![]);
    let res = v.validate(data).unwrap_err();
    assert_eq!(
        res,
        vec![
            (vec![lit("name")], vec!["field not found".to_string()]),
            (vec![FieldName::Tuple(3)], vec!["index out of range".to_string()]),
        ]
    );
}

#[test]
fn later_rule_replaces_earlier_for_same_path() {
    let v = Validator::<NoCheck>::new()
        .rule("name", Rule::StartWith("zz".to_string()).into_list())
        .unwrap()
        .rule("name", Rule::Required.into_list())
        .unwrap();
    let data = Value::Object(vec![("name".to_string(), text("li"))]);
    assert_eq!(v.validate(data), Ok(()));
}

#[test]
fn bad_rule_path_is_refused() {
    let r = Validator::<NoCheck>::new().rule("a..b", Rule::Required.into_list());
    assert!(matches!(r, Err(ParseError::EmptySegment)));
}

#[test]
fn message_for_unknown_rule_is_refused() {
    let v = Validator::<NoCheck>::new()
        .rule("name", Rule::Required.into_list())
        .unwrap();
    let r = v.message(&[("name.start_with", "x")]);
    assert!(matches!(r, Err(ConfigError::UnknownRule)));
}

#[test]
fn message_for_unknown_path_is_refused() {
    let v = Validator::<NoCheck>::new()
        .rule("name", Rule::Required.into_list())
        .unwrap();
    let r = v.message(&[("age.required", "x")]);
    assert!(matches!(r, Err(ConfigError::UnknownPath)));
}

#[test]
fn message_key_without_dot_is_refused() {
    let v = Validator::<NoCheck>::new()
        .rule("name", Rule::Required.into_list())
        .unwrap();
    let r = v.message(&[("name", "x")]);
    assert!(matches!(r, Err(ConfigError::Parse(ParseError::MissingRuleName))));
}

#[test]
fn override_replaces_default_message() {
    let v = Validator::<NoCheck>::new()
        .rule("name", Rule::Required.into_list())
        .unwrap()
        .message(&[("name.required", "first"), ("name.required", "give a name")])
        .unwrap();
    let data = Value::Object(vec![("name".to_string(), Value::Unit)]);
    assert_eq!(
        v.validate(data),
        Err(vec![(vec![lit("name")], vec!["give a name".to_string()])])
    );
}

#[test]
fn message_call_replaces_earlier_overrides() {
    let v = Validator::<NoCheck>::new()
        .rule("name", Rule::Required.into_list())
        .unwrap()
        .message(&[("name.required", "first")])
        .unwrap()
        .message(&[])
        .unwrap();
    let data = Value::Object(vec![("name".to_string(), text(""))]);
    assert_eq!(
        v.validate(data),
        Err(vec![(vec![lit("name")], vec!["this field is required".to_string()])])
    );
}

#[test]
fn scenario_tuple_default_message() {
    let v = Validator::<NoCheck>::new()
        .rule_tuple(0, Rule::StartWith("hello".to_string()).into_list());
    let data = Value::Tuple(vec![text("heoo"), text("bar")]);
    assert_eq!(
        v.validate(data),
        Err(vec![(
            vec![FieldName::Tuple(0)],
            vec!["this field must be start with {}".to_string()]
        )])
    );
}

#[test]
fn scenario_record_with_override() {
    let v = Validator::<NoCheck>::new()
        .rule("name", Rule::Required.and(Rule::StartWith("hello".to_string())))
        .unwrap()
        .message(&[("name.start_with", "name should be starts with `hello`")])
        .unwrap();
    let data = Value::Object(vec![
        ("name".to_string(), text("li")),
        ("age".to_string(), Value::Uint8(18)),
    ]);
    assert_eq!(
        v.validate(data),
        Err(vec![(
            vec![lit("name")],
            vec!["name should be starts with `hello`".to_string()]
        )])
    );
}

#[test]
fn nested_path_with_override_on_array_item() {
    let v = Validator::<NoCheck>::new()
        .rule("users.[1].name", Rule::StartWith("a".to_string()).into_list())
        .unwrap()
        .message(&[("users.[1].name.start_with", "bad name")])
        .unwrap();
    let user = |n: &str| Value::Object(vec![("name".to_string(), text(n))]);
    let data = Value::Object(vec![(
        "users".to_string(),
        Value::Array(vec![user("ann"), user("bob")]),
    )]);
    assert_eq!(
        v.validate(data),
        Err(vec![(
            vec![lit("users"), FieldName::Array(1), lit("name")],
            vec!["bad name".to_string()]
        )])
    );
}
