use bf_interpreter::lexer::{tokenize, LexError, Lexer};
use bf_interpreter::token::{is_blank, Token};

#[test]
fn tokenize_reads_three_increments_and_an_output() {
    assert_eq!(
        tokenize("+++."),
        Ok(vec![Token::Increment, Token::Increment, Token::Increment, Token::Output])
    );
}

#[test]
fn tokenize_maps_each_of_the_eight_characters() {
    assert_eq!(
        tokenize("><+-.,[]"),
        Ok(vec![
            Token::IncPointer,
            Token::DecPointer,
            Token::Increment,
            Token::Decrement,
            Token::Output,
            Token::Input,
            Token::SquareOpen,
            Token::SquareClose,
        ])
    );
}

#[test]
fn tokenize_keeps_the_order_of_the_text() {
    assert_eq!(
        tokenize("]-[+"),
        Ok(vec![Token::SquareClose, Token::Decrement, Token::SquareOpen, Token::Increment])
    );
}

#[test]
fn tokenize_of_empty_text_is_empty() {
    assert_eq!(tokenize(""), Ok(vec![]));
}

#[test]
fn tokenize_passes_over_spaces() {
    assert_eq!(tokenize(" + +  . "), Ok(vec![Token::Increment, Token::Increment, Token::Output]));
}

#[test]
fn tokenize_passes_over_line_ends() {
    assert_eq!(tokenize("+\r\n-\n\r."), Ok(vec![Token::Increment, Token::Decrement, Token::Output]));
}

#[test]
fn tokenize_passes_over_tabs_and_other_white_space() {
    assert_eq!(
        tokenize("\t+\u{0B}\u{0C}-\u{85}\u{A0}.\u{2003}\u{3000}"),
        Ok(vec![Token::Increment, Token::Decrement, Token::Output])
    );
}

#[test]
fn tokenize_of_white_space_alone_is_empty() {
    assert_eq!(tokenize(" \t\r\n"), Ok(vec![]));
}

#[test]
fn tokenize_fails_on_a_letter() {
    assert_eq!(tokenize("+a+"), Err(LexError::UnknownCharacter('a')));
}

#[test]
fn tokenize_fails_on_a_digit_or_a_sign() {
    assert_eq!(tokenize("1"), Err(LexError::UnknownCharacter('1')));
    assert_eq!(tokenize("++#"), Err(LexError::UnknownCharacter('#')));
    assert_eq!(tokenize("(+)"), Err(LexError::UnknownCharacter('(')));
}

#[test]
fn tokenize_fails_on_a_character_beyond_ascii() {
    assert_eq!(tokenize("+\u{e9}"), Err(LexError::UnknownCharacter('\u{e9}')));
    assert_eq!(tokenize("\u{200B}"), Err(LexError::UnknownCharacter('\u{200B}')));
}

#[test]
fn tokenize_reports_the_first_unknown_character() {
    assert_eq!(tokenize("+ x y"), Err(LexError::UnknownCharacter('x')));
    assert_eq!(tokenize("zyx"), Err(LexError::UnknownCharacter('z')));
}

#[test]
fn tokenize_fails_for_every_other_ascii_character() {
    for code in 0u8..128 {
        let c = code as char;
        let text = format!("+{}-", c);
        let result = tokenize(&text);
        if "><+-.,[]".contains(c) {
            assert_eq!(result.map(|tokens| tokens.len()), Ok(3));
        } else if c.is_whitespace() {
            assert_eq!(result, Ok(vec![Token::Increment, Token::Decrement]));
        } else {
            assert_eq!(result, Err(LexError::UnknownCharacter(c)));
        }
    }
}

#[test]
fn blank_agrees_with_the_white_space_of_the_standard_library() {
    for code in 0u32..=0x10FFFF {
        if let Some(c) = char::from_u32(code) {
            assert_eq!(is_blank(c), c.is_whitespace());
        }
    }
}

#[test]
fn from_char_knows_the_eight_characters_only() {
    let mut known = 0;
    for code in 0u32..=0x10FFFF {
        if let Some(c) = char::from_u32(code) {
            if Token::from_char(c).is_some() {
                known += 1;
                assert!("><+-.,[]".contains(c));
            }
        }
    }
    assert_eq!(known, 8);
    assert_eq!(Token::from_char('>'), Some(Token::IncPointer));
    assert_eq!(Token::from_char('<'), Some(Token::DecPointer));
    assert_eq!(Token::from_char('+'), Some(Token::Increment));
    assert_eq!(Token::from_char('-'), Some(Token::Decrement));
    assert_eq!(Token::from_char('.'), Some(Token::Output));
    assert_eq!(Token::from_char(','), Some(Token::Input));
    assert_eq!(Token::from_char('['), Some(Token::SquareOpen));
    assert_eq!(Token::from_char(']'), Some(Token::SquareClose));
    assert_eq!(Token::from_char(' '), None);
}

#[test]
fn lexer_holds_no_tokens_at_first() {
    let lexer = Lexer::new("+-");
    assert_eq!(lexer.get_tokens(), vec![]);
}

#[test]
fn lexer_generates_the_tokens_of_its_text() {
    let mut lexer = Lexer::new("+ [ - ]\n");
    assert_eq!(lexer.generate_tokens(), Ok(()));
    assert_eq!(
        lexer.get_tokens(),
        vec![Token::Increment, Token::SquareOpen, Token::Decrement, Token::SquareClose]
    );
}

#[test]
fn lexer_appends_when_it_generates_again() {
    let mut lexer = Lexer::new("+.");
    assert_eq!(lexer.generate_tokens(), Ok(()));
    assert_eq!(lexer.generate_tokens(), Ok(()));
    assert_eq!(
        lexer.get_tokens(),
        vec![Token::Increment, Token::Output, Token::Increment, Token::Output]
    );
}

#[test]
fn lexer_keeps_the_tokens_before_an_unknown_character() {
    let mut lexer = Lexer::new("+-?.");
    assert_eq!(lexer.generate_tokens(), Err(LexError::UnknownCharacter('?')));
    assert_eq!(lexer.get_tokens(), vec![Token::Increment, Token::Decrement]);
}
