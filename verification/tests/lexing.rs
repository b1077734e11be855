//! The lexer on its own: token shapes, keyword boundaries, whitespace.

use biryani::lexer::Lexer;
use biryani::tokens::{MathsOperations, Token};

#[test]
fn keywords_names_and_numbers() {
    let tokens = Lexer::new("ingredient x is 42").lex().unwrap();
    assert_eq!(
        tokens,
        vec![
            Token::Ingredient,
            Token::Identifier("x".to_string()),
            Token::Is,
            Token::Number(42)
        ]
    );
}

#[test]
fn lexing_ignores_the_amount_of_whitespace() {
    let spread = Lexer::new("ingredient   foo  is   [1,2]").lex().unwrap();
    let canonical = Lexer::new("ingredient foo is [1,2]").lex().unwrap();
    assert_eq!(spread, canonical);
}

#[test]
fn relexing_the_literal_forms_reproduces_the_tokens() {
    let first = Lexer::new("plate  12   plate   \"hi\"").lex().unwrap();
    let rendered = "plate 12 plate \"hi\"";
    let second = Lexer::new(rendered).lex().unwrap();
    assert_eq!(first, second);
}

#[test]
fn keywords_sharing_a_prefix_stay_distinct() {
    let tokens = Lexer::new("tasteless taste taste_again tastes")
        .lex()
        .unwrap();
    assert_eq!(
        tokens,
        vec![
            Token::Tasteless,
            Token::Taste,
            Token::TasteAgain,
            Token::Identifier("tastes".to_string())
        ]
    );
}

#[test]
fn every_keyword_of_the_table() {
    let tokens = Lexer::new("ingredient taste taste_again tasteless layer simmer cook burnt serve plate recipe open close mix separate is in hotter cooler same notsame hotorsame coolorsame")
        .lex()
        .unwrap();
    assert_eq!(
        tokens,
        vec![
            Token::Ingredient,
            Token::Taste,
            Token::TasteAgain,
            Token::Tasteless,
            Token::Layer,
            Token::Simmer,
            Token::Cook,
            Token::Burnt,
            Token::Serve,
            Token::Plate,
            Token::Recipe,
            Token::Fresh,
            Token::Spoiled,
            Token::Mix,
            Token::Separate,
            Token::Is,
            Token::In,
            Token::Hotter,
            Token::Cooler,
            Token::Same,
            Token::NotSame,
            Token::HotOrSame,
            Token::CoolOrSame,
        ]
    );
}

#[test]
fn comparisons_and_operators() {
    let tokens = Lexer::new("5 + 3 * 2").lex().unwrap();
    assert_eq!(
        tokens,
        vec![
            Token::Number(5),
            Token::Maths(MathsOperations::Plus),
            Token::Number(3),
            Token::Maths(MathsOperations::Multiply),
            Token::Number(2)
        ]
    );
}

#[test]
fn a_block_holds_its_inner_tokens() {
    let tokens = Lexer::new("{ plate 1 }").lex().unwrap();
    assert_eq!(
        tokens,
        vec![Token::Block(vec![Token::Plate, Token::Number(1)])]
    );
}

#[test]
fn number_arrays_with_signs_and_spaces() {
    let tokens = Lexer::new("[1, -2, 3]").lex().unwrap();
    assert_eq!(tokens, vec![Token::ArrayNumber(vec![1, -2, 3])]);
}

#[test]
fn string_arrays_collect_quoted_elements() {
    let tokens = Lexer::new("[\"ab\",\"cd\"]").lex().unwrap();
    assert_eq!(
        tokens,
        vec![Token::ArrayString(vec!["ab".to_string(), "cd".to_string()])]
    );
}

#[test]
fn the_scan_ends_at_an_unrecognized_character() {
    let tokens = Lexer::new("plate 1 ; plate 2").lex().unwrap();
    assert_eq!(tokens, vec![Token::Plate, Token::Number(1)]);
}

#[test]
fn parameter_lists_hold_comma_separated_names() {
    let mut lexer = Lexer::new("a,b]");
    let token = lexer.parse_params().unwrap();
    assert_eq!(
        token,
        Token::ArrayString(vec!["a".to_string(), "b".to_string()])
    );
}

#[test]
fn a_trailing_comma_adds_no_empty_name() {
    let mut lexer = Lexer::new("a,b,]");
    let token = lexer.parse_params().unwrap();
    assert_eq!(
        token,
        Token::ArrayString(vec!["a".to_string(), "b".to_string()])
    );
}

#[test]
fn a_blank_inside_a_parameter_list_is_a_fault() {
    let mut lexer = Lexer::new("a, b]");
    assert_eq!(
        lexer.parse_params(),
        Err(biryani::errors::Error::SpaceInParams)
    );
}

#[test]
fn an_unterminated_parameter_list_is_a_fault() {
    let mut lexer = Lexer::new("a,b");
    assert_eq!(
        lexer.parse_params(),
        Err(biryani::errors::Error::UnterminatedArray)
    );
}

#[test]
fn an_unterminated_number_array_is_a_fault() {
    assert_eq!(
        Lexer::new("[1,2").lex(),
        Err(biryani::errors::Error::UnterminatedArray)
    );
}

#[test]
fn an_unterminated_string_array_is_a_fault() {
    assert_eq!(
        Lexer::new("[\"ab\",\"cd\"").lex(),
        Err(biryani::errors::Error::UnterminatedArray)
    );
}

#[test]
fn a_lone_opening_bracket_is_a_fault() {
    assert_eq!(
        Lexer::new("plate [").lex(),
        Err(biryani::errors::Error::UnterminatedArray)
    );
}

#[test]
fn an_unterminated_block_is_a_fault() {
    assert_eq!(
        Lexer::new("{ plate 1").lex(),
        Err(biryani::errors::Error::UnterminatedBlock)
    );
}

#[test]
fn string_literals_keep_their_contents() {
    let tokens = Lexer::new("\"a b c\"").lex().unwrap();
    assert_eq!(tokens, vec![Token::StringLiteral("a b c".to_string())]);
}
