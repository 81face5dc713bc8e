//! Pairing every `[` with its `]`.

use crate::lexer::LexError;
use crate::token::Token;
use vstd::prelude::*;

verus! {

/// What a token adds to the nesting depth: one for `[`, minus one for `]`.
pub open spec fn nesting(token: Token) -> int {
    match token {
        Token::SquareOpen => 1,
        Token::SquareClose => -1,
        _ => 0,
    }
}

/// The nesting depth in front of token `k`: the number of `[` less the number
/// of `]` among the first `k` tokens.
pub open spec fn depth(program: Seq<Token>, k: int) -> int
    decreases k,
{
    if k <= 0 {
        0
    } else {
        depth(program, k - 1) + nesting(program[k - 1])
    }
}

/// Whether no `]` of the program comes before a `[` that it could close: the
/// depth in front of every token, and behind the last, is at least zero.
pub open spec fn never_negative(program: Seq<Token>) -> bool {
    forall|k: int| 0 <= k <= program.len() ==> #[trigger] depth(program, k) >= 0
}

/// Whether the brackets of the program are well nested: no `]` comes too
/// early, and as many `]` as `[` occur.
pub open spec fn well_nested(program: Seq<Token>) -> bool {
    &&& never_negative(program)
    &&& depth(program, program.len() as int) == 0
}

/// Whether the `[` at `open` and the `]` at `close` belong together: behind
/// `close` the depth is back to what it was in front of `open`, for the first
/// time since `open`.
pub open spec fn matched(program: Seq<Token>, open: int, close: int) -> bool {
    &&& 0 <= open < close < program.len()
    &&& program[open] == Token::SquareOpen
    &&& program[close] == Token::SquareClose
    &&& depth(program, close + 1) == depth(program, open)
    &&& forall|k: int| open < k <= close ==> #[trigger] depth(program, k) > depth(program, open)
}

/// Whether token `i` is a `[` that no `]` closes.
pub open spec fn unclosed(program: Seq<Token>, i: int) -> bool {
    &&& 0 <= i < program.len()
    &&& program[i] == Token::SquareOpen
    &&& forall|j: int| !matched(program, i, j)
}

/// Whether token `j` is a `]` that closes no `[`.
pub open spec fn unopened(program: Seq<Token>, j: int) -> bool {
    &&& 0 <= j < program.len()
    &&& program[j] == Token::SquareClose
    &&& forall|i: int| !matched(program, i, j)
}

/// The place of the `]` that closes the `[` at `open`.
pub open spec fn matching_close(program: Seq<Token>, open: int) -> int {
    choose|close: int| matched(program, open, close)
}

/// The place of the `[` that the `]` at `close` closes.
pub open spec fn matching_open(program: Seq<Token>, close: int) -> int {
    choose|open: int| matched(program, open, close)
}

/// A `[` has at most one `]` that closes it.
pub proof fn lemma_close_is_unique(program: Seq<Token>, open: int, close1: int, close2: int)
    requires
        matched(program, open, close1),
        matched(program, open, close2),
    ensures
        close1 == close2,
{
    if close1 < close2 {
        assert(depth(program, close1 + 1) > depth(program, open));
    } else if close2 < close1 {
        assert(depth(program, close2 + 1) > depth(program, open));
    }
}

/// A `]` closes at most one `[`.
pub proof fn lemma_open_is_unique(program: Seq<Token>, open1: int, open2: int, close: int)
    requires
        matched(program, open1, close),
        matched(program, open2, close),
    ensures
        open1 == open2,
{
    if open1 < open2 {
        assert(depth(program, open2) > depth(program, open1));
    } else if open2 < open1 {
        assert(depth(program, open1) > depth(program, open2));
    }
}

/// Two pairs of brackets never cross: a pair that opens inside another one
/// also closes inside it.
pub proof fn lemma_pairs_do_not_cross(
    program: Seq<Token>,
    outer_open: int,
    outer_close: int,
    inner_open: int,
    inner_close: int,
)
    requires
        matched(program, outer_open, outer_close),
        matched(program, inner_open, inner_close),
        outer_open < inner_open < outer_close,
    ensures
        inner_close < outer_close,
{
    if inner_close > outer_close {
        // the depth behind the outer `]` lies below the depth in front of the inner `[`
        assert(depth(program, inner_open) > depth(program, outer_open));
        assert(depth(program, outer_close + 1) > depth(program, inner_open));
    }
}

/// Whether every bracket of the program has its partner.
pub open spec fn all_paired(program: Seq<Token>) -> bool {
    &&& forall|i: int| !unclosed(program, i)
    &&& forall|j: int| !unopened(program, j)
}

/// Finds the `]` that closes the `[` at `open`, given that the depth stays
/// above that in front of `open` up to `upto` and falls back to it later.
proof fn lemma_find_close(program: Seq<Token>, open: int, upto: int) -> (close: int)
    requires
        0 <= open < upto <= program.len(),
        program[open] == Token::SquareOpen,
        forall|k: int| open < k <= upto ==> #[trigger] depth(program, k) > depth(program, open),
        depth(program, program.len() as int) <= depth(program, open),
    ensures
        matched(program, open, close),
    decreases program.len() - upto,
{
    assert(depth(program, upto) > depth(program, open));
    if depth(program, upto + 1) > depth(program, open) {
        lemma_find_close(program, open, upto + 1)
    } else {
        upto
    }
}

/// Finds the `[` that the `]` at `close` closes, given that the depth stays
/// above that behind `close` from `from` on and is not above it at the start.
proof fn lemma_find_open(program: Seq<Token>, close: int, from: int) -> (open: int)
    requires
        0 <= from <= close < program.len(),
        program[close] == Token::SquareClose,
        forall|k: int|
            from < k <= close ==> #[trigger] depth(program, k) > depth(program, close + 1),
        0 <= depth(program, close + 1),
    ensures
        matched(program, open, close),
    decreases from,
{
    if depth(program, from) > depth(program, close + 1) {
        assert(depth(program, 0) == 0);
        lemma_find_open(program, close, from - 1)
    } else {
        assert(depth(program, from + 1) > depth(program, close + 1));
        from
    }
}

/// In a program whose brackets are well nested, every `[` is closed: its
/// partner is the `]` at [`matching_close`].
pub proof fn lemma_open_is_closed(program: Seq<Token>, open: int)
    requires
        well_nested(program),
        0 <= open < program.len(),
        program[open] == Token::SquareOpen,
    ensures
        matched(program, open, matching_close(program, open)),
{
    assert(depth(program, open) >= 0);
    assert(depth(program, open + 1) > depth(program, open));
    let close = lemma_find_close(program, open, open + 1);
}

/// In a program whose brackets are well nested, every `]` closes a `[`: its
/// partner is the `[` at [`matching_open`].
pub proof fn lemma_close_is_opened(program: Seq<Token>, close: int)
    requires
        well_nested(program),
        0 <= close < program.len(),
        program[close] == Token::SquareClose,
    ensures
        matched(program, matching_open(program, close), close),
{
    assert(depth(program, close + 1) >= 0);
    let open = lemma_find_open(program, close, close);
}

/// Where every `]` closes something, the depth in front of the first `upto`
/// tokens, and behind them, is at least zero.
proof fn lemma_opened_is_never_negative(program: Seq<Token>, upto: int)
    requires
        0 <= upto <= program.len(),
        forall|j: int| !unopened(program, j),
    ensures
        forall|k: int| 0 <= k <= upto ==> #[trigger] depth(program, k) >= 0,
    decreases upto,
{
    if upto > 0 {
        lemma_opened_is_never_negative(program, upto - 1);
        if depth(program, upto) < 0 {
            assert(depth(program, upto - 1) >= 0);
            let close = upto - 1;
            assert(!unopened(program, close));
            let open = choose|open: int| matched(program, open, close);
            assert(depth(program, open) >= 0);
        }
    }
}

/// Finds a `[` that is never closed, given that the depth is above zero
/// behind `from` and to the end.
proof fn lemma_find_unclosed(program: Seq<Token>, from: int) -> (open: int)
    requires
        never_negative(program),
        0 <= from <= program.len(),
        depth(program, program.len() as int) > 0,
        forall|k: int| from < k <= program.len() ==> #[trigger] depth(program, k) > 0,
    ensures
        unclosed(program, open),
    decreases from,
{
    if depth(program, from) > 0 {
        assert(depth(program, 0) == 0);
        lemma_find_unclosed(program, from - 1)
    } else {
        assert(depth(program, from) >= 0);
        assert(depth(program, from + 1) > 0);
        assert forall|j: int| !matched(program, from, j) by {
            if matched(program, from, j) {
                assert(depth(program, j + 1) > 0);
            }
        }
        from
    }
}

/// The brackets of a program are well nested exactly when every bracket has
/// its partner.
pub proof fn lemma_well_nested_iff_all_paired(program: Seq<Token>)
    ensures
        well_nested(program) <==> all_paired(program),
{
    if well_nested(program) {
        assert forall|i: int| !unclosed(program, i) by {
            if 0 <= i < program.len() && program[i] == Token::SquareOpen {
                lemma_open_is_closed(program, i);
            }
        }
        assert forall|j: int| !unopened(program, j) by {
            if 0 <= j < program.len() && program[j] == Token::SquareClose {
                lemma_close_is_opened(program, j);
            }
        }
    }
    if all_paired(program) {
        lemma_opened_is_never_negative(program, program.len() as int);
        assert(never_negative(program));
        if depth(program, program.len() as int) != 0 {
            assert(depth(program, program.len() as int) >= 0);
            let open = lemma_find_unclosed(program, program.len() as int);
            assert(!unclosed(program, open));
        }
    }
}

/// For every bracket of a program the place of its partner.
#[derive(Debug)]
pub struct BracketMap {
    partner: Vec<usize>,
}

impl View for BracketMap {
    type V = Seq<usize>;

    /// One entry for each token: the place of the partner where the token is a
    /// bracket, the token's own place where it is not.
    closed spec fn view(&self) -> Seq<usize> {
        self.partner@
    }
}

impl BracketMap {
    /// Whether this map holds the pairs of `program`: it sends every `[` to
    /// the `]` that closes it and every `]` to the `[` that it closes.
    pub open spec fn pairs(&self, program: Seq<Token>) -> bool {
        &&& self@.len() == program.len()
        &&& forall|i: int|
            0 <= i < program.len() ==> match program[i] {
                Token::SquareOpen => matched(program, i, #[trigger] self@[i] as int),
                Token::SquareClose => matched(program, self@[i] as int, i),
                _ => self@[i] == i,
            }
    }

    /// The map goes both ways: the partner of the partner of a token is the
    /// token itself.
    pub proof fn lemma_partner_of_partner(&self, program: Seq<Token>, i: int)
        requires
            self.pairs(program),
            0 <= i < program.len(),
        ensures
            0 <= self@[i] < program.len(),
            self@[self@[i] as int] == i,
    {
        let partner = self@[i] as int;
        match program[i] {
            Token::SquareOpen => {
                assert(matched(program, self@[partner] as int, partner));
                lemma_open_is_unique(program, i, self@[partner] as int, partner);
            },
            Token::SquareClose => {
                assert(matched(program, partner, self@[partner] as int));
                lemma_close_is_unique(program, partner, i, self@[partner] as int);
            },
            _ => {},
        }
    }

    /// The number of tokens that the map was made for.
    pub fn len(&self) -> (n: usize)
        ensures
            n == self@.len(),
    {
        self.partner.len()
    }

    /// The entry for token `i`, or `None` where there is no such token.
    pub fn get(&self, i: usize) -> (p: Option<usize>)
        ensures
            p == if i < self@.len() {
                Some(self@[i as int])
            } else {
                None
            },
    {
        if i < self.partner.len() {
            Some(self.partner[i])
        } else {
            None
        }
    }
}

/// Whether `error` is what is wrong with the brackets of `program`: it names
/// the first `]` that closes nothing or, where every `]` closes something, the
/// first `[` that is never closed.
pub open spec fn bracket_fault(program: Seq<Token>, error: LexError) -> bool {
    match error {
        LexError::UnmatchedCloseBracket(j) => {
            &&& unopened(program, j as int)
            &&& forall|k: int| 0 <= k < j ==> !unopened(program, k)
        },
        LexError::UnmatchedOpenBracket(i) => {
            &&& forall|k: int| !unopened(program, k)
            &&& unclosed(program, i as int)
            &&& forall|k: int| 0 <= k < i ==> !unclosed(program, k)
        },
        LexError::UnknownCharacter(_) => false,
    }
}

/// What the scan keeps of the brackets that are open in front of token
/// `upto`: their places from the outermost to the innermost, the `k`-th at
/// depth `k`, with the depth above `k` ever since.
spec fn open_so_far(program: Seq<Token>, pending: Seq<usize>, upto: int) -> bool {
    &&& pending.len() == depth(program, upto)
    &&& forall|k: int|
        0 <= k < pending.len() ==> {
            &&& (#[trigger] pending[k]) < upto
            &&& program[pending[k] as int] == Token::SquareOpen
            &&& depth(program, pending[k] as int) == k
        }
    &&& forall|k: int, p: int|
        #![trigger pending[k], depth(program, p)]
        0 <= k < pending.len() && pending[k] < p <= upto ==> depth(program, p) > k
    &&& forall|a: int, b: int|
        0 <= a < b < pending.len() ==> (#[trigger] pending[a]) < (#[trigger] pending[b])
}

/// What the scan has settled of token `p` once it has passed it: the entry
/// of a `]` is its partner, that of a `[` is its partner unless the bracket is
/// still open, and that of any other token is its own place.
spec fn settled(program: Seq<Token>, pending: Seq<usize>, table: Seq<usize>, p: int) -> bool {
    match program[p] {
        Token::SquareOpen => pending.contains(p as usize) || matched(program, p, table[p] as int),
        Token::SquareClose => matched(program, table[p] as int, p),
        _ => table[p] == p,
    }
}

/// Pairs the brackets of a program.
///
/// Succeeds exactly when the brackets are well nested, with the map of all
/// pairs. Otherwise the error names the first `]` that closes nothing or,
/// where every `]` closes something, the first `[` that is never closed.
pub fn resolve_brackets(program: &[Token]) -> (res: Result<BracketMap, LexError>)
    ensures
        res is Ok <==> well_nested(program@),
        match res {
            Ok(map) => map.pairs(program@),
            Err(error) => bracket_fault(program@, error),
        },
{
    let ghost s = program@;
    let n = program.len();
    let mut partner: Vec<usize> = Vec::new();
    let mut stack: Vec<usize> = Vec::new();
    let mut i: usize = 0;
    while i < n
        invariant
            s == program@,
            n == s.len(),
            i <= n,
            partner@.len() == i,
            forall|k: int| 0 <= k <= i ==> #[trigger] depth(s, k) >= 0,
            open_so_far(s, stack@, i as int),
            forall|p: int| 0 <= p < i ==> #[trigger] settled(s, stack@, partner@, p),
        decreases n - i,
    {
        let ghost stack0 = stack@;
        let ghost partner0 = partner@;
        match program[i] {
            Token::SquareOpen => {
                stack.push(i);
                partner.push(i);
                proof {
                    assert(stack@[stack0.len() as int] == i);
                    assert forall|p: int| 0 <= p < i + 1 implies #[trigger] settled(
                        s,
                        stack@,
                        partner@,
                        p,
                    ) by {
                        if p < i {
                            assert(settled(s, stack0, partner0, p));
                            if stack0.contains(p as usize) {
                                let k = choose|k: int| 0 <= k < stack0.len() && stack0[k] == p;
                                assert(stack@[k] == p);
                            }
                        }
                    }
                }
            },
            Token::SquareClose => {
                match stack.pop() {
                    None => {
                        proof {
                            assert(depth(s, i + 1) == -1);
                            assert forall|open: int| !matched(s, open, i as int) by {
                                if matched(s, open, i as int) {
                                    assert(depth(s, open) >= 0);
                                }
                            }
                            assert forall|k: int| 0 <= k < i implies !unopened(s, k) by {
                                assert(settled(s, stack0, partner0, k));
                            }
                        }
                        return Err(LexError::UnmatchedCloseBracket(i));
                    },
                    Some(open) => {
                        partner.set(open, i);
                        partner.push(open);
                        proof {
                            let top = stack0.len() - 1;
                            assert(stack0[top] == open);
                            assert(stack@ =~= stack0.take(top));
                            assert(matched(s, open as int, i as int)) by {
                                assert forall|k: int| open < k <= i implies #[trigger] depth(s, k)
                                    > depth(s, open as int) by {
                                    assert(stack0[top] < k);
                                }
                            }
                            assert forall|p: int| 0 <= p < i + 1 implies #[trigger] settled(
                                s,
                                stack@,
                                partner@,
                                p,
                            ) by {
                                if p < i && p != open {
                                    assert(settled(s, stack0, partner0, p));
                                    if stack0.contains(p as usize) {
                                        let k = choose|k: int|
                                            0 <= k < stack0.len() && stack0[k] == p;
                                        assert(stack@[k] == p);
                                    }
                                }
                            }
                        }
                    },
                }
            },
            _ => {
                partner.push(i);
                proof {
                    assert forall|p: int| 0 <= p < i + 1 implies #[trigger] settled(
                        s,
                        stack@,
                        partner@,
                        p,
                    ) by {
                        if p < i {
                            assert(settled(s, stack0, partner0, p));
                        }
                    }
                }
            },
        }
        i += 1;
    }
    if stack.len() > 0 {
        let lowest = stack[0];
        proof {
            assert forall|j: int| !matched(s, lowest as int, j) by {
                if matched(s, lowest as int, j) {
                    assert(stack@[0] < j + 1);
                    assert(depth(s, j + 1) > 0);
                }
            }
            assert forall|k: int| !unopened(s, k) by {
                if 0 <= k < n {
                    assert(settled(s, stack@, partner@, k));
                }
            }
            assert forall|k: int| 0 <= k < lowest implies !unclosed(s, k) by {
                assert(settled(s, stack@, partner@, k));
                if stack@.contains(k as usize) {
                    let a = choose|a: int| 0 <= a < stack@.len() && stack@[a] == k;
                    assert(stack@[0] <= stack@[a]);
                }
            }
        }
        return Err(LexError::UnmatchedOpenBracket(lowest));
    }
    let map = BracketMap { partner };
    proof {
        assert forall|p: int| 0 <= p < s.len() implies match s[p] {
            Token::SquareOpen => matched(s, p, #[trigger] map@[p] as int),
            Token::SquareClose => matched(s, map@[p] as int, p),
            _ => map@[p] == p,
        } by {
            assert(settled(s, stack@, partner@, p));
            assert(!stack@.contains(p as usize));
        }
    }
    Ok(map)
}

} // verus!
