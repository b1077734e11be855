//! The variable store: one binding per name, overwrite returns the old
//! value.

use biryani::state::{State, Value};

#[test]
fn a_fresh_store_holds_nothing() {
    let state = State::new();
    assert!(state.get_variable(&"x".to_string()).is_none());
}

#[test]
fn writing_an_unbound_name_returns_no_previous_value() {
    let mut state = State::new();
    let previous = state.add_variable(&"x".to_string(), Value::Number(1));
    assert!(previous.is_none());
}

#[test]
fn overwriting_returns_the_previous_value_and_keeps_one_binding() {
    let mut state = State::new();
    state.add_variable(&"x".to_string(), Value::Number(1));
    let previous = state.add_variable(&"x".to_string(), Value::Number(2));
    match previous {
        Some(Value::Number(n)) => assert_eq!(n, 1),
        _ => panic!("expected the earlier number"),
    }
    match state.get_variable(&"x".to_string()) {
        Some(Value::Number(n)) => assert_eq!(*n, 2),
        _ => panic!("expected the later number"),
    }
    assert_eq!(state.variables.len(), 1);
}

#[test]
fn distinct_names_hold_distinct_values() {
    let mut state = State::new();
    state.add_variable(&"x".to_string(), Value::Number(1));
    state.add_variable(&"y".to_string(), Value::String("s".to_string()));
    match state.get_variable(&"x".to_string()) {
        Some(Value::Number(n)) => assert_eq!(*n, 1),
        _ => panic!("expected a number"),
    }
    match state.get_variable(&"y".to_string()) {
        Some(Value::String(s)) => assert_eq!(s, "s"),
        _ => panic!("expected a string"),
    }
}
