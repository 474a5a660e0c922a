use testlang::lexer::lex_file;
use testlang::parser::{parse, ParseResult};
use testlang::runner::{run, FetchOutcome, Program, RunResult};
use testlang::types::Location;

fn parse_source(source: &str) -> Program {
    let mut tokens = lex_file("file".to_string(), source.to_string()).unwrap();
    match parse(&mut tokens) {
        ParseResult::Done(p) => p,
        ParseResult::Fault(loc, msg) => panic!("parse failed at {}: {msg}", loc.to_string()),
    }
}

#[test]
fn passing_assert_yields_one_pass_line() {
    let program = parse_source("test \"NAME\" {\nassert: true\n}");
    let responses: Vec<FetchOutcome> = Vec::new();
    match run(&program, &responses) {
        RunResult::Done(feedback) => {
            assert_eq!(feedback.0.len(), 1);
            assert_eq!(feedback.0[0], "\t✓\tNAME");
        }
        _ => panic!("expected a finished run"),
    }
}

#[test]
fn failing_assert_names_its_location() {
    let program = parse_source("test \"fail\" {\nassert: false\n}");
    let responses: Vec<FetchOutcome> = Vec::new();
    match run(&program, &responses) {
        RunResult::Done(feedback) => {
            assert_eq!(feedback.0.len(), 1);
            assert_eq!(feedback.0[0], "\t❌\tfail\n\t\t- assert file:2:1");
        }
        _ => panic!("expected a finished run"),
    }
}

#[test]
fn number_equality_is_reflexive() {
    let program = parse_source("test \"eq\" {\na = 5\nassert: a == 5\n}");
    let responses: Vec<FetchOutcome> = Vec::new();
    match run(&program, &responses) {
        RunResult::Done(feedback) => assert_eq!(feedback.0[0], "\t✓\teq"),
        _ => panic!("expected a finished run"),
    }
}

#[test]
fn object_field_resolves_lazily() {
    let program = parse_source("test \"obj\" {\no = {x: 1}\nassert: o.x == 1\n}");
    let responses: Vec<FetchOutcome> = Vec::new();
    match run(&program, &responses) {
        RunResult::Done(feedback) => assert_eq!(feedback.0[0], "\t✓\tobj"),
        _ => panic!("expected a finished run"),
    }
}

#[test]
fn array_index_resolves() {
    let program = parse_source("test \"arr\" {\na = [10, 20]\nassert: a.1 == 20\n}");
    let responses: Vec<FetchOutcome> = Vec::new();
    match run(&program, &responses) {
        RunResult::Done(feedback) => assert_eq!(feedback.0[0], "\t✓\tarr"),
        _ => panic!("expected a finished run"),
    }
}

#[test]
fn rerunning_a_program_yields_identical_feedback() {
    let program = parse_source(
        "test \"one\" {\na = 5\nassert: a == 5\n}\ntest \"two\" {\nassert: false\n}",
    );
    let responses: Vec<FetchOutcome> = Vec::new();
    let first = match run(&program, &responses) {
        RunResult::Done(f) => f.to_string(),
        _ => panic!("expected a finished run"),
    };
    let second = match run(&program, &responses) {
        RunResult::Done(f) => f.to_string(),
        _ => panic!("expected a finished run"),
    };
    assert_eq!(first, second);
    assert_eq!(first, "\t✓\tone\n\t❌\ttwo\n\t\t- assert file:6:1");
}

#[test]
fn cross_tag_equality_evaluates_to_false() {
    let program = parse_source("test \"x\" {\nassert: true == 1\n}");
    let responses: Vec<FetchOutcome> = Vec::new();
    match run(&program, &responses) {
        RunResult::Done(feedback) => {
            assert_eq!(feedback.0[0], "\t❌\tx\n\t\t- assert file:2:1");
        }
        _ => panic!("expected a finished run, not a type error"),
    }
}

#[test]
fn non_boolean_assert_is_a_type_mismatch() {
    let program = parse_source("test \"t\" {\nassert: 5\n}");
    let responses: Vec<FetchOutcome> = Vec::new();
    match run(&program, &responses) {
        RunResult::Fault(Location(_, row, _), msg) => {
            assert_eq!(row, 2);
            assert_eq!(msg, "Expected bool value as expression result for assert");
        }
        _ => panic!("expected a fatal type mismatch"),
    }
}

#[test]
fn unresolved_name_is_fatal() {
    let program = parse_source("test \"t\" {\nassert: nope\n}");
    let responses: Vec<FetchOutcome> = Vec::new();
    match run(&program, &responses) {
        RunResult::Fault(_, msg) => assert_eq!(msg, "Unresolved path: nope"),
        _ => panic!("expected a fatal unresolved path"),
    }
}

#[test]
fn assignment_to_non_reference_is_fatal() {
    let program = parse_source("test \"t\" {\n5 = 3\n}");
    let responses: Vec<FetchOutcome> = Vec::new();
    match run(&program, &responses) {
        RunResult::Fault(_, msg) => assert_eq!(msg, "Invalid assignment"),
        _ => panic!("expected a fatal invalid assignment"),
    }
}

#[test]
fn get_suspends_then_consumes_the_fetched_body() {
    let program = parse_source("test \"g\" {\nb = get: \"http://x\"\nassert: b == \"ok\"\n}");
    let mut responses: Vec<FetchOutcome> = Vec::new();
    match run(&program, &responses) {
        RunResult::Fetch(Location(_, row, _), url) => {
            assert_eq!(row, 2);
            assert_eq!(url, "http://x");
        }
        _ => panic!("expected a fetch request"),
    }
    responses.push(FetchOutcome::Success("ok".to_string()));
    match run(&program, &responses) {
        RunResult::Done(feedback) => assert_eq!(feedback.0[0], "\t✓\tg"),
        _ => panic!("expected a finished run"),
    }
}

#[test]
fn failed_fetch_surfaces_as_io_error() {
    let program = parse_source("test \"g\" {\nb = get: \"http://x\"\nassert: b == \"ok\"\n}");
    let responses = vec![FetchOutcome::Failure("connection refused".to_string())];
    match run(&program, &responses) {
        RunResult::Fault(Location(_, row, _), msg) => {
            assert_eq!(row, 2);
            assert_eq!(msg, "connection refused");
        }
        _ => panic!("expected the transport failure to surface"),
    }
}

#[test]
fn get_demands_a_string_url() {
    let program = parse_source("test \"g\" {\nget: true\n}");
    let responses: Vec<FetchOutcome> = Vec::new();
    match run(&program, &responses) {
        RunResult::Fault(_, msg) => {
            assert_eq!(msg, "Expected string value as expression result for get");
        }
        _ => panic!("expected a fatal type mismatch"),
    }
}

#[test]
fn run_halts_at_first_fatal_error() {
    let program = parse_source(
        "test \"a\" {\nassert: nope\n}\ntest \"b\" {\nassert: true\n}",
    );
    let responses: Vec<FetchOutcome> = Vec::new();
    match run(&program, &responses) {
        RunResult::Fault(Location(_, row, _), _) => assert_eq!(row, 2),
        _ => panic!("expected the run to halt on the first error"),
    }
}

#[test]
fn numbers_compare_by_canonical_value() {
    let program = parse_source(
        "test \"n\" {\na = 5.50\nassert: a == 5.5\nb = 007\nassert: b == 7\nc = 1_000_000\nassert: c == 1000000\n}",
    );
    let responses: Vec<FetchOutcome> = Vec::new();
    match run(&program, &responses) {
        RunResult::Done(feedback) => assert_eq!(feedback.0[0], "\t✓\tn"),
        _ => panic!("expected a finished run"),
    }
}

#[test]
fn object_comparison_is_always_false() {
    let program = parse_source("test \"o\" {\no = {x: 1}\nassert: o == o\n}");
    let responses: Vec<FetchOutcome> = Vec::new();
    match run(&program, &responses) {
        RunResult::Done(feedback) => {
            assert_eq!(feedback.0[0], "\t❌\to\n\t\t- assert file:3:1");
        }
        _ => panic!("expected a finished run"),
    }
}

#[test]
fn empty_source_runs_to_an_empty_report() {
    let program = parse_source("");
    let responses: Vec<FetchOutcome> = Vec::new();
    match run(&program, &responses) {
        RunResult::Done(feedback) => {
            assert_eq!(feedback.0.len(), 0);
            assert_eq!(feedback.to_string(), "");
        }
        _ => panic!("expected a finished run"),
    }
}

#[test]
fn empty_object_literal_closes() {
    let program = parse_source("test \"e\" {\no = {}\nassert: true\n}");
    let responses: Vec<FetchOutcome> = Vec::new();
    match run(&program, &responses) {
        RunResult::Done(feedback) => assert_eq!(feedback.0[0], "\t✓\te"),
        _ => panic!("expected a finished run"),
    }
}

#[test]
fn later_object_entry_replaces_earlier_key() {
    let program = parse_source("test \"o\" {\no = {x: 1, x: 2}\nassert: o.x == 2\n}");
    let responses: Vec<FetchOutcome> = Vec::new();
    match run(&program, &responses) {
        RunResult::Done(feedback) => assert_eq!(feedback.0[0], "\t✓\to"),
        _ => panic!("expected a finished run"),
    }
}

#[test]
fn string_equality_compares_values() {
    let program = parse_source("test \"s\" {\ns = \"hi\"\nassert: s == \"hi\"\n}");
    let responses: Vec<FetchOutcome> = Vec::new();
    match run(&program, &responses) {
        RunResult::Done(feedback) => assert_eq!(feedback.0[0], "\t✓\ts"),
        _ => panic!("expected a finished run"),
    }
}
