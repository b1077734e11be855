//! End-to-end runs of the pipeline: source text in, output lines out.

use biryani::errors::Error;
use biryani::interpreter::run_program;

const FUEL: u64 = 1000;

#[test]
fn bind_array_then_plate_emits_literal_rendering() {
    let out = run_program("ingredient tray is [1,2,3] plate tray", FUEL).unwrap();
    assert_eq!(out, vec!["[1, 2, 3]".to_string()]);
}

#[test]
fn arithmetic_is_left_to_right_with_zero_seed() {
    let out = run_program("ingredient x is 5 - 2 - 1 plate x", FUEL).unwrap();
    assert_eq!(out, vec!["-8".to_string()]);
}

#[test]
fn arithmetic_reads_variables() {
    let out = run_program(
        "ingredient a is 0 + 7 ingredient b is a + 6 plate b",
        FUEL,
    )
    .unwrap();
    assert_eq!(out, vec!["13".to_string()]);
}

#[test]
fn a_later_operator_governs_the_operands_after_it() {
    let out = run_program("ingredient x is 5 - 2 + 3 plate x", FUEL).unwrap();
    assert_eq!(out, vec!["-4".to_string()]);
}

#[test]
fn the_zero_seed_reaches_multiplication_too() {
    let out = run_program("ingredient x is 5 * 3 plate x", FUEL).unwrap();
    assert_eq!(out, vec!["0".to_string()]);
}

#[test]
fn simmer_emits_one_line_per_element_in_order() {
    let out = run_program(
        "ingredient arr is [10,20,30] simmer n in arr { plate n }",
        FUEL,
    )
    .unwrap();
    assert_eq!(
        out,
        vec!["10".to_string(), "20".to_string(), "30".to_string()]
    );
}

#[test]
fn simmer_loop_variable_keeps_its_last_value() {
    let out = run_program(
        "ingredient arr is [10,20,30] simmer n in arr { plate n } plate n",
        FUEL,
    )
    .unwrap();
    assert_eq!(
        out,
        vec![
            "10".to_string(),
            "20".to_string(),
            "30".to_string(),
            "30".to_string()
        ]
    );
}

#[test]
fn simmer_over_string_array() {
    let out = run_program(
        "ingredient xs is [\"ab\",\"cd\"] simmer s in xs { plate s }",
        FUEL,
    )
    .unwrap();
    assert_eq!(out, vec!["ab".to_string(), "cd".to_string()]);
}

#[test]
fn layer_terminates_when_the_body_converges() {
    let out = run_program(
        "ingredient a is 0 layer a cooler 3 \"{ plate a ingredient a is a + 1 }\"",
        FUEL,
    )
    .unwrap();
    assert_eq!(out, vec!["0".to_string(), "1".to_string(), "2".to_string()]);
}

#[test]
fn layer_without_progress_exhausts_any_bound() {
    let r = run_program("ingredient a is 0 layer a cooler 3 \"{ plate a }\"", 50);
    assert_eq!(r, Err(Error::OutOfFuel));
}

#[test]
fn simmer_over_a_number_is_a_type_mismatch() {
    let r = run_program("ingredient x is 7 simmer n in x { }", FUEL);
    assert_eq!(r, Err(Error::TypeMismatch));
}

#[test]
fn overwriting_a_binding_keeps_only_the_later_value() {
    let out = run_program("ingredient x is 1 ingredient x is 2 plate x", FUEL).unwrap();
    assert_eq!(out, vec!["2".to_string()]);
}

#[test]
fn plating_an_unbound_name_is_fatal() {
    let r = run_program("plate nothing", FUEL);
    assert_eq!(r, Err(Error::UnboundVariable));
}

#[test]
fn plate_emits_string_and_number_literals() {
    let out = run_program("plate \"hello\" plate 12 plate [4,5]", FUEL).unwrap();
    assert_eq!(
        out,
        vec!["hello".to_string(), "12".to_string(), "[4, 5]".to_string()]
    );
}

#[test]
fn string_arrays_render_with_quotes() {
    let out = run_program("ingredient names is [\"ab\",\"cd\"] plate names", FUEL).unwrap();
    assert_eq!(out, vec!["[\"ab\", \"cd\"]".to_string()]);
}

#[test]
fn negative_elements_in_number_arrays() {
    let out = run_program("ingredient xs is [-4,7] plate xs", FUEL).unwrap();
    assert_eq!(out, vec!["[-4, 7]".to_string()]);
}

#[test]
fn division_by_zero_is_fatal() {
    let r = run_program("ingredient x is 8 / 0", FUEL);
    assert_eq!(r, Err(Error::DivisionByZero));
}

#[test]
fn oversized_number_literals_are_fatal() {
    let r = run_program("ingredient x is 99999999999999999999", FUEL);
    assert_eq!(r, Err(Error::Overflow));
}

#[test]
fn recipe_binds_a_function_value() {
    let out = run_program("recipe fry [\"a\",\"b\"] \"plate a\" plate fry", FUEL).unwrap();
    assert_eq!(out, vec!["recipe [\"a\", \"b\"]".to_string()]);
}

#[test]
fn reserved_commands_fail_fast() {
    let r = run_program("ingredient x is 1 serve x", FUEL);
    assert_eq!(r, Err(Error::ReservedCommand));
}

#[test]
fn a_missing_expected_piece_fails_the_parse() {
    let r = run_program("ingredient is", FUEL);
    assert_eq!(r, Err(Error::UnexpectedToken));
}

#[test]
fn an_unterminated_array_fails_the_scan() {
    let r = run_program("ingredient xs is [1,2", FUEL);
    assert_eq!(r, Err(Error::UnterminatedArray));
}

#[test]
fn an_unterminated_string_fails_the_scan() {
    let r = run_program("plate \"abc", FUEL);
    assert_eq!(r, Err(Error::UnterminatedString));
}

#[test]
fn a_leading_minus_makes_a_negative_binding() {
    let out = run_program("ingredient x is - 5 plate x", FUEL).unwrap();
    assert_eq!(out, vec!["-5".to_string()]);
}

#[test]
fn the_smallest_number_renders_with_its_sign() {
    let out = run_program(
        "ingredient xs is [-9223372036854775808] plate xs",
        FUEL,
    )
    .unwrap();
    assert_eq!(out, vec!["[-9223372036854775808]".to_string()]);
}

#[test]
fn plating_a_bare_keyword_is_an_invalid_value() {
    let r = run_program("plate is", FUEL);
    assert_eq!(r, Err(Error::InvalidValue));
}

#[test]
fn an_empty_program_emits_nothing() {
    let out = run_program("", FUEL).unwrap();
    assert!(out.is_empty());
}
