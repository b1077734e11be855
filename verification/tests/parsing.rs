//! The parser on its own: one command per construct, bodies parsed eagerly.

use biryani::commands::Command;
use biryani::errors::Error;
use biryani::lexer::Lexer;
use biryani::parser::Parser;
use biryani::tokens::Token;

fn parse(source: &str) -> Result<Vec<Command>, Error> {
    let tokens = Lexer::new(source).lex()?;
    Parser::new(tokens).parse()
}

#[test]
fn a_single_value_binding() {
    let commands = parse("ingredient x is 5").unwrap();
    assert_eq!(
        commands,
        vec![Command::Ingredient {
            identifier: "x".to_string(),
            values: vec![Token::Number(5)]
        }]
    );
}

#[test]
fn an_arithmetic_chain_binding() {
    let commands = parse("ingredient x is 5 - 2 - 1").unwrap();
    assert_eq!(
        commands,
        vec![Command::Ingredient {
            identifier: "x".to_string(),
            values: vec![
                Token::Number(5),
                Token::Maths(biryani::tokens::MathsOperations::Minus),
                Token::Number(2),
                Token::Maths(biryani::tokens::MathsOperations::Minus),
                Token::Number(1)
            ]
        }]
    );
}

#[test]
fn a_layer_body_is_parsed_once_at_parse_time() {
    let commands = parse("layer a cooler 3 \"{ plate a }\"").unwrap();
    assert_eq!(
        commands,
        vec![Command::Layer {
            left_value: Token::Identifier("a".to_string()),
            comparison: Token::Cooler,
            right_value: Token::Number(3),
            commands: vec![Command::Plate {
                value: Token::Identifier("a".to_string())
            }]
        }]
    );
}

#[test]
fn a_simmer_body_comes_from_its_brace_block() {
    let commands = parse("simmer n in arr { plate n }").unwrap();
    assert_eq!(
        commands,
        vec![Command::Simmer {
            identifier: "n".to_string(),
            array_identifier: "arr".to_string(),
            commands: vec![Command::Plate {
                value: Token::Identifier("n".to_string())
            }]
        }]
    );
}

#[test]
fn a_recipe_keeps_its_name_parameters_and_body() {
    let commands = parse("recipe fry [\"a\",\"b\"] \"plate a\"").unwrap();
    assert_eq!(
        commands,
        vec![Command::Recipe {
            identifier: "fry".to_string(),
            params: vec!["a".to_string(), "b".to_string()],
            commands: vec![Command::Plate {
                value: Token::Identifier("a".to_string())
            }]
        }]
    );
}

#[test]
fn serve_and_plate_take_one_piece_each() {
    let commands = parse("serve x plate 3").unwrap();
    assert_eq!(
        commands,
        vec![
            Command::Serve {
                identifier: "x".to_string()
            },
            Command::Plate {
                value: Token::Number(3)
            }
        ]
    );
}

#[test]
fn a_taste_body_stays_as_tokens() {
    let commands = parse("taste a same b \"plate a\"").unwrap();
    assert_eq!(
        commands,
        vec![Command::Taste {
            left_value: Token::Identifier("a".to_string()),
            comparison: Token::Same,
            right_value: Token::Identifier("b".to_string()),
            tokens: vec![Token::Plate, Token::Identifier("a".to_string())]
        }]
    );
}

#[test]
fn an_empty_token_sequence_parses_to_no_commands() {
    let commands = parse("").unwrap();
    assert!(commands.is_empty());
}

#[test]
fn a_leading_token_that_selects_no_production_is_a_fault() {
    assert_eq!(parse("is"), Err(Error::UnexpectedToken));
}

#[test]
fn a_layer_without_its_body_is_a_fault() {
    assert_eq!(parse("layer a cooler 3"), Err(Error::UnexpectedToken));
}
