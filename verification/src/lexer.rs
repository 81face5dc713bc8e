//! From program text to tokens.

use crate::token::{blank, is_blank, recognized, token_of, Token};
use vstd::prelude::*;

verus! {

/// Why a program text is not a program.
#[derive(Clone, Copy, Debug, PartialEq, Eq, Structural)]
pub enum LexError {
    /// The text holds this character, which neither denotes an instruction nor
    /// is white space.
    UnknownCharacter(char),
    /// The `[` at this token index is never closed.
    UnmatchedOpenBracket(usize),
    /// The `]` at this token index closes nothing.
    UnmatchedCloseBracket(usize),
}

/// The tokens that a text denotes: one for each character that denotes an
/// instruction, in the order of the text. Every other character is passed over.
pub open spec fn tokens_of(source: Seq<char>) -> Seq<Token> {
    source.filter_map(|c: char| token_of(c))
}

/// Whether every character of the text may stand in a program.
pub open spec fn all_recognized(source: Seq<char>) -> bool {
    forall|i: int| 0 <= i < source.len() ==> recognized(#[trigger] source[i])
}

/// Whether `i` is the place of the first character of the text that may not
/// stand in a program.
pub open spec fn first_unknown(source: Seq<char>, i: int) -> bool {
    &&& 0 <= i < source.len()
    &&& !recognized(source[i])
    &&& all_recognized(source.take(i))
}

/// White space changes nothing: a text denotes the same tokens as the text
/// that is left when all its white space is taken out.
pub proof fn lemma_whitespace_is_passed_over(source: Seq<char>)
    ensures
        tokens_of(source.filter(|c: char| !blank(c))) == tokens_of(source),
    decreases source.len(),
{
    let visible = |c: char| !blank(c);
    reveal(Seq::filter);
    if source.len() > 0 {
        let front = source.drop_last();
        lemma_whitespace_is_passed_over(front);
        if !blank(source.last()) {
            assert(source.filter(visible) == front.filter(visible).push(source.last()));
            assert(front.filter(visible).push(source.last()).drop_last() == front.filter(
                visible,
            ));
        }
    }
}

/// Whether `error` is what is wrong with the characters of `source`: it holds
/// the first character that may not stand in a program.
pub open spec fn character_fault(source: Seq<char>, error: LexError) -> bool {
    match error {
        LexError::UnknownCharacter(c) => exists|i: int| #[trigger]
            first_unknown(source, i) && source[i] == c,
        _ => false,
    }
}

/// A program text together with the tokens read from it so far.
#[derive(Debug)]
pub struct Lexer {
    input: String,
    token_vec: Vec<Token>,
}

impl Lexer {
    /// The text that this lexer reads.
    pub closed spec fn source(&self) -> Seq<char> {
        self.input@
    }

    /// The tokens that this lexer holds.
    pub closed spec fn tokens(&self) -> Seq<Token> {
        self.token_vec@
    }

    /// A lexer over `source` that holds no tokens yet.
    pub fn new(source: &str) -> (lexer: Lexer)
        ensures
            lexer.source() == source@,
            lexer.tokens() == Seq::<Token>::empty(),
    {
        Lexer { input: source.to_owned(), token_vec: Vec::new() }
    }

    /// Reads the whole text and appends its tokens to those already held.
    ///
    /// White space is passed over. At the first character that neither denotes
    /// an instruction nor is white space, reading stops with
    /// [`LexError::UnknownCharacter`]; the tokens of the text before that
    /// character have then been appended.
    pub fn generate_tokens(&mut self) -> (res: Result<(), LexError>)
        ensures
            final(self).source() == old(self).source(),
            res is Ok <==> all_recognized(old(self).source()),
            match res {
                Ok(()) => final(self).tokens() == old(self).tokens() + tokens_of(
                    old(self).source(),
                ),
                Err(LexError::UnknownCharacter(c)) => exists|i: int|
                    {
                        &&& #[trigger] first_unknown(old(self).source(), i)
                        &&& old(self).source()[i] == c
                        &&& final(self).tokens() == old(self).tokens() + tokens_of(
                            old(self).source().take(i),
                        )
                    },
                Err(_) => false,
            },
    {
        let ghost source = self.input@;
        let ghost held = self.token_vec@;
        for c in it: self.input.chars()
            invariant
                source == old(self).source(),
                held == old(self).tokens(),
                self.input@ == source,
                it.seq() == source,
                all_recognized(source.take(it.index() as int)),
                self.token_vec@ == held + tokens_of(source.take(it.index() as int)),
        {
            let ghost i = it.index() as int;
            proof {
                source.lemma_filter_map_take_succ(|c: char| token_of(c), i);
            }
            match Token::from_char(c) {
                Some(token) => {
                    self.token_vec.push(token);
                },
                None => {
                    if !is_blank(c) {
                        proof {
                            assert(first_unknown(source, i));
                        }
                        return Err(LexError::UnknownCharacter(c));
                    }
                },
            }
            proof {
                assert forall|k: int| 0 <= k < i + 1 implies recognized(
                    #[trigger] source.take(i + 1)[k],
                ) by {
                    if k < i {
                        assert(source.take(i)[k] == source[k]);
                    }
                }
                assert(self.token_vec@ =~= held + tokens_of(source.take(i + 1)));
            }
        }
        proof {
            assert(source.take(source.len() as int) =~= source);
        }
        Ok(())
    }

    /// Gives up the lexer for the tokens it holds.
    pub fn get_tokens(self) -> (tokens: Vec<Token>)
        ensures
            tokens@ == self.tokens(),
    {
        self.token_vec
    }
}

/// Turns a program text into its tokens.
///
/// Succeeds exactly when every character of `source` denotes an instruction or
/// is white space; otherwise fails with the first character that does
/// neither.
pub fn tokenize(source: &str) -> (res: Result<Vec<Token>, LexError>)
    ensures
        res is Ok <==> all_recognized(source@),
        match res {
            Ok(tokens) => tokens@ == tokens_of(source@),
            Err(error) => character_fault(source@, error),
        },
{
    let mut lexer = Lexer::new(source);
    match lexer.generate_tokens() {
        Ok(()) => {
            Ok(lexer.get_tokens())
        },
        Err(e) => {
            Err(e)
        },
    }
}

} // verus!
