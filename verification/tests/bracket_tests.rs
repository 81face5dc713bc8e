use bf_interpreter::brackets::resolve_brackets;
use bf_interpreter::lexer::{tokenize, LexError};
use bf_interpreter::token::Token;

fn tokens(text: &str) -> Vec<Token> {
    tokenize(text).unwrap()
}

fn table(text: &str) -> Vec<usize> {
    let program = tokens(text);
    let map = resolve_brackets(&program).unwrap();
    assert_eq!(map.len(), program.len());
    (0..program.len()).map(|i| map.get(i).unwrap()).collect()
}

/// The partner of every bracket, found by counting depth from each bracket on.
fn partners_by_counting(program: &[Token]) -> Vec<usize> {
    let mut partners = Vec::new();
    for (i, token) in program.iter().enumerate() {
        let mut partner = i;
        if *token == Token::SquareOpen {
            let mut depth = 0usize;
            for j in i..program.len() {
                if program[j] == Token::SquareOpen {
                    depth += 1;
                }
                if program[j] == Token::SquareClose {
                    depth -= 1;
                    if depth == 0 {
                        partner = j;
                        break;
                    }
                }
            }
        }
        if *token == Token::SquareClose {
            let mut depth = 0usize;
            for j in (0..=i).rev() {
                if program[j] == Token::SquareClose {
                    depth += 1;
                }
                if program[j] == Token::SquareOpen {
                    depth -= 1;
                    if depth == 0 {
                        partner = j;
                        break;
                    }
                }
            }
        }
        partners.push(partner);
    }
    partners
}

/// A well-nested text from a seed: brackets and other instructions mixed.
fn well_nested_text(seed: &mut u64, budget: usize) -> String {
    let mut text = String::new();
    let mut open = 0usize;
    let others = ['+', '-', '>', '<', '.', ','];
    for _ in 0..budget {
        *seed = seed.wrapping_mul(6364136223846793005).wrapping_add(1442695040888963407);
        let choice = (*seed >> 33) % 4;
        if choice == 0 {
            text.push('[');
            open += 1;
        } else if choice == 1 && open > 0 {
            text.push(']');
            open -= 1;
        } else {
            text.push(others[((*seed >> 40) % 6) as usize]);
        }
    }
    for _ in 0..open {
        text.push(']');
    }
    text
}

#[test]
fn a_lone_close_is_unmatched() {
    assert_eq!(
        resolve_brackets(&tokens("]")).unwrap_err(),
        LexError::UnmatchedCloseBracket(0)
    );
}

#[test]
fn a_lone_open_is_unmatched() {
    assert_eq!(
        resolve_brackets(&tokens("[")).unwrap_err(),
        LexError::UnmatchedOpenBracket(0)
    );
}

#[test]
fn the_first_stray_close_is_named() {
    assert_eq!(
        resolve_brackets(&tokens("[]]")).unwrap_err(),
        LexError::UnmatchedCloseBracket(2)
    );
    assert_eq!(
        resolve_brackets(&tokens("+[-]+]+]")).unwrap_err(),
        LexError::UnmatchedCloseBracket(5)
    );
    assert_eq!(
        resolve_brackets(&tokens("][")).unwrap_err(),
        LexError::UnmatchedCloseBracket(0)
    );
}

#[test]
fn a_stray_close_comes_before_an_unclosed_open() {
    assert_eq!(
        resolve_brackets(&tokens("[[]]][")).unwrap_err(),
        LexError::UnmatchedCloseBracket(4)
    );
}

#[test]
fn the_lowest_unclosed_open_is_named() {
    assert_eq!(
        resolve_brackets(&tokens("[[]")).unwrap_err(),
        LexError::UnmatchedOpenBracket(0)
    );
    assert_eq!(
        resolve_brackets(&tokens("[][")).unwrap_err(),
        LexError::UnmatchedOpenBracket(2)
    );
    assert_eq!(
        resolve_brackets(&tokens("+[-]+[+[")).unwrap_err(),
        LexError::UnmatchedOpenBracket(5)
    );
    assert_eq!(
        resolve_brackets(&tokens("[[[[")).unwrap_err(),
        LexError::UnmatchedOpenBracket(0)
    );
}

#[test]
fn a_program_without_brackets_has_no_pairs() {
    assert_eq!(table(""), Vec::<usize>::new());
    assert_eq!(table("+-><.,"), vec![0, 1, 2, 3, 4, 5]);
}

#[test]
fn a_single_pair_is_mapped_both_ways() {
    assert_eq!(table("[]"), vec![1, 0]);
    assert_eq!(table("+[-]"), vec![0, 3, 2, 1]);
}

#[test]
fn nested_pairs_are_mapped_by_depth() {
    assert_eq!(table("[[]]"), vec![3, 2, 1, 0]);
    assert_eq!(table("[[][]]"), vec![5, 2, 1, 4, 3, 0]);
    assert_eq!(table("[+[-[>]<]+]"), vec![10, 1, 8, 3, 6, 5, 4, 7, 2, 9, 0]);
}

#[test]
fn pairs_side_by_side_are_kept_apart() {
    assert_eq!(table("[][]"), vec![1, 0, 3, 2]);
    assert_eq!(table("[]+[[]]"), vec![1, 0, 2, 6, 5, 4, 3]);
}

#[test]
fn get_is_none_behind_the_last_token() {
    let program = tokens("[+]");
    let map = resolve_brackets(&program).unwrap();
    assert_eq!(map.len(), 3);
    assert_eq!(map.get(0), Some(2));
    assert_eq!(map.get(1), Some(1));
    assert_eq!(map.get(2), Some(0));
    assert_eq!(map.get(3), None);
    assert_eq!(map.get(usize::MAX), None);
}

#[test]
fn generated_well_nested_programs_are_paired_as_by_counting() {
    let mut seed = 0x2545F4914F6CDD1Du64;
    for round in 0..300 {
        let text = well_nested_text(&mut seed, round % 60);
        let program = tokens(&text);
        let map = resolve_brackets(&program).unwrap();
        let expected = partners_by_counting(&program);
        assert_eq!(map.len(), program.len());
        for i in 0..program.len() {
            assert_eq!(map.get(i), Some(expected[i]));
        }
    }
}

#[test]
fn pairing_is_its_own_inverse() {
    let mut seed = 7u64;
    for round in 0..100 {
        let text = well_nested_text(&mut seed, 10 + round % 40);
        let program = tokens(&text);
        let map = resolve_brackets(&program).unwrap();
        for i in 0..program.len() {
            let partner = map.get(i).unwrap();
            assert_eq!(map.get(partner), Some(i));
            match program[i] {
                Token::SquareOpen => {
                    assert!(partner > i);
                    assert_eq!(program[partner], Token::SquareClose);
                }
                Token::SquareClose => {
                    assert!(partner < i);
                    assert_eq!(program[partner], Token::SquareOpen);
                }
                _ => assert_eq!(partner, i),
            }
        }
    }
}

#[test]
fn a_generated_program_with_one_bracket_removed_is_refused() {
    let mut seed = 99u64;
    let mut refused = 0;
    for round in 0..100 {
        let text = well_nested_text(&mut seed, 5 + round % 30);
        if let Some(at) = text.find('[') {
            let mut broken = text.clone();
            broken.remove(at);
            let result = resolve_brackets(&tokens(&broken));
            assert!(matches!(result, Err(LexError::UnmatchedCloseBracket(_))));
            refused += 1;
        }
        if let Some(at) = text.rfind(']') {
            let mut broken = text.clone();
            broken.remove(at);
            let result = resolve_brackets(&tokens(&broken));
            assert!(matches!(result, Err(LexError::UnmatchedOpenBracket(_))));
            refused += 1;
        }
    }
    assert!(refused > 0);
}
