use testlang::runner::{
    run_assignment, run_ref, Expression, FetchOutcome, Primitive, RunResult, Scope, EVAL_FUEL,
};
use testlang::types::Location;

#[test]
fn test_ref() {
    let location = Location("file".to_string(), 4, 3);
    let mut scope = Scope::new();
    scope.set_var(&"bool".to_string(), &Primitive::Boolean(true));
    let loc = Location("file".to_string(), 1, 1);
    let map: Vec<(String, Expression)> = vec![(
        "hello".to_string(),
        Expression::Primitive(loc, Primitive::String("world".to_string())),
    )];

    let responses: Vec<FetchOutcome> = Vec::new();
    let mut used: usize = 0;
    match run_ref(
        location.clone(),
        "bool".to_string(),
        &mut scope,
        &responses,
        &mut used,
        EVAL_FUEL,
    ) {
        RunResult::Done(Primitive::Boolean(value)) => assert!(value, "expected bool value"),
        _ => assert!(false, "expected bool"),
    }

    scope.set_var(&"obj".to_string(), &Primitive::Object(map));

    match run_ref(
        location.clone(),
        "obj.hello".to_string(),
        &mut scope,
        &responses,
        &mut used,
        EVAL_FUEL,
    ) {
        RunResult::Done(Primitive::String(string)) => {
            assert_eq!(string, "world", "expected string value")
        }
        _ => assert!(false, "expected string"),
    }
}

#[test]
fn test_assignment() {
    let file = "file".to_string();
    let row = 4;
    let col = 7;
    let loc = Location(file.to_owned(), row, col);
    let left = Expression::Ref(loc.clone(), "hello".to_string());
    let right = Expression::Primitive(loc.clone(), Primitive::String("world".to_string()));
    let mut scope = Scope::new();
    let responses: Vec<FetchOutcome> = Vec::new();
    let mut used: usize = 0;
    match run_assignment(loc, &left, &right, &mut scope, &responses, &mut used, EVAL_FUEL) {
        RunResult::Fault(..) => assert!(false, "expected run_assignment to return Ok"),
        RunResult::Fetch(..) => assert!(false, "expected run_assignment to return Ok"),
        RunResult::Done(..) => match scope.get(&"hello".to_string()) {
            Some(Primitive::String(value)) => {
                assert_eq!(
                    value.to_owned(),
                    "world".to_string(),
                    "expected value of variable"
                )
            }
            _ => assert!(false, "expected variable in scope"),
        },
    }
}

#[test]
fn assert_records_one_outcome() {
    let file = "file".to_string();
    let loc = Location(file.to_owned(), 3, 5);
    let number = Primitive::Number(testlang::runner::NumberValue {
        whole: "2".to_string(),
        frac: "3".to_string(),
    });
    let primitive = Expression::Primitive(loc.clone(), number);
    let equality = Expression::Equality(
        loc.clone(),
        Box::new(testlang::runner::clone_expression(&primitive)),
        Box::new(primitive),
    );
    let mut scope = Scope::new();
    let responses: Vec<FetchOutcome> = Vec::new();
    let mut used: usize = 0;
    match testlang::runner::run_assert(
        Location(file.clone(), 3, 5),
        &equality,
        &mut scope,
        &responses,
        &mut used,
        EVAL_FUEL,
    ) {
        RunResult::Done(..) => {
            assert_eq!(scope.asserts.len(), 1, "expected 1 run assert");
            assert_eq!(
                scope.asserts.get(0).unwrap().1,
                true,
                "expected assert to have succeeded"
            );
        }
        _ => assert!(false, "expected run_assert to return Ok"),
    }
}

#[test]
fn nested_assert_records_both_outcomes() {
    // An assert whose inner expression is itself an assert records twice:
    // once for the inner assert, once for the outer one.
    let file = "file".to_string();
    let loc = Location(file.to_owned(), 3, 5);
    let number = Primitive::Number(testlang::runner::NumberValue {
        whole: "2".to_string(),
        frac: "3".to_string(),
    });
    let primitive = Expression::Primitive(loc.clone(), number);
    let equality = Expression::Equality(
        loc.clone(),
        Box::new(testlang::runner::clone_expression(&primitive)),
        Box::new(primitive),
    );
    let assert = Expression::Assert(loc.clone(), Box::new(equality));
    let mut scope = Scope::new();
    let responses: Vec<FetchOutcome> = Vec::new();
    let mut used: usize = 0;
    match testlang::runner::run_assert(
        Location(file.clone(), 3, 5),
        &assert,
        &mut scope,
        &responses,
        &mut used,
        EVAL_FUEL,
    ) {
        RunResult::Done(..) => {
            assert_eq!(scope.asserts.len(), 2);
            assert!(scope.asserts.get(0).unwrap().1);
            assert!(scope.asserts.get(1).unwrap().1);
        }
        _ => assert!(false, "expected run_assert to return Ok"),
    }
}

#[test]
fn cross_kind_equality_is_false_not_an_error() {
    let loc = Location("file".to_string(), 1, 1);
    let left = Expression::Primitive(loc.clone(), Primitive::Boolean(true));
    let right = Expression::Primitive(
        loc.clone(),
        Primitive::Number(testlang::runner::NumberValue {
            whole: "1".to_string(),
            frac: String::new(),
        }),
    );
    let mut scope = Scope::new();
    let responses: Vec<FetchOutcome> = Vec::new();
    let mut used: usize = 0;
    match testlang::runner::run_equality(
        loc,
        &left,
        &right,
        &mut scope,
        &responses,
        &mut used,
        EVAL_FUEL,
    ) {
        RunResult::Done(Primitive::Boolean(value)) => assert!(!value),
        _ => assert!(false, "expected a boolean result"),
    }
}

#[test]
fn scope_lookup_is_shadowed_by_later_binding() {
    let mut scope = Scope::new();
    scope.set_var(&"x".to_string(), &Primitive::Boolean(false));
    scope.set_var(&"x".to_string(), &Primitive::Boolean(true));
    match scope.get(&"x".to_string()) {
        Some(Primitive::Boolean(b)) => assert!(b),
        _ => assert!(false, "expected the later binding"),
    }
    assert!(scope.get(&"y".to_string()).is_none());
}

#[test]
fn location_renders_as_file_row_col() {
    let loc = Location("file".to_string(), 12, 34);
    assert_eq!(loc.to_string(), "file:12:34");
}

#[test]
fn feedback_renders_pass_and_fail_lines() {
    let mut feedback = testlang::runner::Feedback::new();
    feedback.add_test_pass("good".to_string());
    feedback.add_test_fail(
        "bad".to_string(),
        vec![
            Location("file".to_string(), 2, 1),
            Location("file".to_string(), 3, 1),
        ],
    );
    assert_eq!(
        feedback.to_string(),
        "\t✓\tgood\n\t❌\tbad\n\t\t- assert file:2:1\n\t\t- assert file:3:1"
    );
}
