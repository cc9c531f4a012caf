//! Parsing: pattern string -> postfix token order.
//!
//! Parsing happens in two steps.  Tokenization maps each character of the
//! pattern to a token, then inserts an explicit `Concat` operator between any
//! two adjacent tokens that are juxtaposed without an operator.  A
//! shunting-yard pass then reorders the infix token sequence into postfix
//! order, using the precedences `Star` (3) > `Concat` (2) > `Alt` (1).
//!
//! An unmatched parenthesis of either kind is rejected with
//! `SyntaxError::UnmatchedParenthesis`: a `)` with no `(` open on the
//! operator stack, and a `(` still on the stack when the input ends.

use vstd::prelude::*;
use vstd::string::StrSliceExecFns;

verus! {

/// One lexical unit of a pattern: a literal character, a parenthesis, or one
/// of the three operators (explicit alternation and star, and the inserted
/// concatenation).
#[derive(Debug, Clone, Copy, PartialEq, Eq, Structural)]
pub enum Token {
    Literal(char),
    LParen,
    RParen,
    Concat,
    Alt,
    Star,
}

/// The one way parsing can fail: a parenthesis with no partner.
#[derive(Debug, Clone, Copy, PartialEq, Eq, Structural)]
pub enum SyntaxError {
    UnmatchedParenthesis,
}

/// The token a single pattern character stands for: the four reserved
/// characters map to their structural tokens, every other character is a
/// literal.
pub open spec fn char_token(c: char) -> Token {
    if c == '(' {
        Token::LParen
    } else if c == ')' {
        Token::RParen
    } else if c == '|' {
        Token::Alt
    } else if c == '*' {
        Token::Star
    } else {
        Token::Literal(c)
    }
}

/// The pattern's characters mapped to tokens, before concatenation
/// insertion.
pub open spec fn base_tokens(s: Seq<char>) -> Seq<Token> {
    s.map_values(|c: char| char_token(c))
}

/// Whether an implicit `Concat` belongs between the adjacent tokens `left`
/// and `right`: the left one ends an operand (literal, `)`, or `*`) and the
/// right one begins an operand (literal or `(`).
pub open spec fn needs_concat(left: Token, right: Token) -> bool {
    (left is Literal || left is RParen || left is Star) && (right is Literal || right is LParen)
}

/// The token sequence with an explicit `Concat` inserted between each
/// adjacent pair that `needs_concat` says is juxtaposed.
pub open spec fn insert_concat(ts: Seq<Token>) -> Seq<Token>
    decreases ts.len(),
{
    if ts.len() <= 1 {
        ts
    } else if needs_concat(ts[0], ts[1]) {
        seq![ts[0], Token::Concat] + insert_concat(ts.drop_first())
    } else {
        seq![ts[0]] + insert_concat(ts.drop_first())
    }
}

/// The infix token sequence of a pattern: per-character tokens with implicit
/// concatenation made explicit.
pub open spec fn infix_tokens(s: Seq<char>) -> Seq<Token> {
    insert_concat(base_tokens(s))
}

/// Operator binding strength: `Star` binds tightest, then `Concat`, then
/// `Alt`; non-operators have no binding strength.
pub open spec fn spec_precedence(t: Token) -> int {
    match t {
        Token::Star => 3int,
        Token::Concat => 2int,
        Token::Alt => 1int,
        _ => 0int,
    }
}

/// Operators popped off the stack (top first) while the top's precedence is
/// at least `p`, stopping at a `(`: the emitted sequence and the stack left
/// behind.
pub open spec fn pop_ge(stack: Seq<Token>, p: int) -> (Seq<Token>, Seq<Token>)
    decreases stack.len(),
{
    if stack.len() == 0 {
        (seq![], stack)
    } else if stack.last() is LParen || spec_precedence(stack.last()) < p {
        (seq![], stack)
    } else {
        let r = pop_ge(stack.drop_last(), p);
        (seq![stack.last()] + r.0, r.1)
    }
}

/// Operators popped off the stack (top first) until a `(` is found and
/// discarded: the emitted sequence and the stack left behind, or `None` when
/// no `(` is open.
pub open spec fn pop_until_lparen(stack: Seq<Token>) -> Option<(Seq<Token>, Seq<Token>)>
    decreases stack.len(),
{
    if stack.len() == 0 {
        None
    } else if stack.last() is LParen {
        Some((seq![], stack.drop_last()))
    } else {
        match pop_until_lparen(stack.drop_last()) {
            None => None,
            Some(r) => Some((seq![stack.last()] + r.0, r.1)),
        }
    }
}

/// The stack emptied (top first) at the end of the input.  A `(` still on
/// the stack at this point has no matching `)`, so it is rejected.
pub open spec fn drain_stack(stack: Seq<Token>) -> Result<Seq<Token>, SyntaxError>
    decreases stack.len(),
{
    if stack.len() == 0 {
        Ok(seq![])
    } else if stack.last() is LParen {
        Err(SyntaxError::UnmatchedParenthesis)
    } else {
        match drain_stack(stack.drop_last()) {
            Ok(rest) => Ok(seq![stack.last()] + rest),
            Err(e) => Err(e),
        }
    }
}

/// The shunting-yard reduction: consume the infix `input` token by token,
/// with `out` the postfix emitted so far and `stack` the pending operators
/// and open parentheses.  Literals are emitted at once; `(` is pushed; `)`
/// pops to the matching `(`; an operator first pops every stacked operator
/// of precedence at least its own, then is pushed.  At the end of the input
/// the stack is drained to the output.
pub open spec fn shunt(input: Seq<Token>, out: Seq<Token>, stack: Seq<Token>) -> Result<
    Seq<Token>,
    SyntaxError,
>
    decreases input.len(),
{
    if input.len() == 0 {
        match drain_stack(stack) {
            Ok(em) => Ok(out + em),
            Err(e) => Err(e),
        }
    } else {
        let t = input[0];
        let rest = input.drop_first();
        match t {
            Token::Literal(_) => shunt(rest, out.push(t), stack),
            Token::LParen => shunt(rest, out, stack.push(t)),
            Token::RParen => match pop_until_lparen(stack) {
                None => Err(SyntaxError::UnmatchedParenthesis),
                Some(r) => shunt(rest, out + r.0, r.1),
            },
            _ => {
                let r = pop_ge(stack, spec_precedence(t));
                shunt(rest, (out + r.0), r.1.push(t))
            },
        }
    }
}

/// What `parse` returns on a pattern: the postfix token order of its infix
/// token sequence, or the error rejecting it.
pub open spec fn spec_parse(s: Seq<char>) -> Result<Seq<Token>, SyntaxError> {
    shunt(infix_tokens(s), seq![], seq![])
}

/// Operator binding strength as an executable value.
pub fn operator_precedence(token: &Token) -> (p: u8)
    ensures
        p as int == spec_precedence(*token),
{
    match token {
        Token::Star => 3,
        Token::Concat => 2,
        Token::Alt => 1,
        _ => 0,
    }
}

/// Whether an implicit `Concat` belongs between `left` and `right`.
fn concat_needed(left: &Token, right: &Token) -> (b: bool)
    ensures
        b == needs_concat(*left, *right),
{
    (matches!(left, Token::Literal(_) | Token::RParen | Token::Star)) && (matches!(
        right,
        Token::Literal(_) | Token::LParen,
    ))
}

/// The characters of a string collected into a vector, one per character.
pub fn str_chars(s: &str) -> (r: Vec<char>)
    ensures
        r@ == s@,
{
    let n = s.unicode_len();
    let mut r: Vec<char> = Vec::new();
    let mut i: usize = 0;
    while i < n
        invariant
            i <= n,
            n == s@.len(),
            r@ == s@.take(i as int),
        decreases n - i,
    {
        let c = s.get_char(i);
        r.push(c);
        proof {
            assert(s@.take(i + 1) =~= s@.take(i as int).push(s@[i as int]));
        }
        i = i + 1;
    }
    proof {
        assert(s@.take(n as int) =~= s@);
    }
    r
}

/// Tokenization: each character mapped to its token, then implicit
/// concatenation made explicit between juxtaposed tokens.
fn tokenize(pattern: &Vec<char>) -> (r: Vec<Token>)
    ensures
        r@ == infix_tokens(pattern@),
{
    let n = pattern.len();
    let mut infix: Vec<Token> = Vec::new();
    let mut i: usize = 0;
    while i < n
        invariant
            i <= n,
            n == pattern@.len(),
            infix@ == base_tokens(pattern@).take(i as int),
        decreases n - i,
    {
        let c = pattern[i];
        let t = if c == '(' {
            Token::LParen
        } else if c == ')' {
            Token::RParen
        } else if c == '|' {
            Token::Alt
        } else if c == '*' {
            Token::Star
        } else {
            Token::Literal(c)
        };
        infix.push(t);
        proof {
            assert(base_tokens(pattern@).take(i + 1) =~= base_tokens(pattern@).take(
                i as int,
            ).push(char_token(pattern@[i as int])));
        }
        i = i + 1;
    }
    proof {
        assert(base_tokens(pattern@).take(n as int) =~= base_tokens(pattern@));
    }
    let m = infix.len();
    let mut out: Vec<Token> = Vec::new();
    let mut i: usize = 0;
    while i < m
        invariant
            i <= m,
            m == infix@.len(),
            infix@ == base_tokens(pattern@),
            out@ + insert_concat(infix@.skip(i as int)) == insert_concat(infix@),
        decreases m - i,
    {
        let ghost pre = out@;
        let ghost suffix = infix@.skip(i as int);
        let t = infix[i];
        out.push(t);
        if i + 1 < m {
            let next = infix[i + 1];
            if concat_needed(&t, &next) {
                out.push(Token::Concat);
            }
        }
        proof {
            assert(suffix[0] == infix@[i as int]);
            if i + 1 < m {
                assert(suffix.drop_first() =~= infix@.skip(i + 1));
                assert(suffix[1] == infix@[i + 1]);
                if needs_concat(infix@[i as int], infix@[i + 1]) {
                    assert(insert_concat(suffix) == seq![suffix[0], Token::Concat]
                        + insert_concat(suffix.drop_first()));
                    assert(out@ + insert_concat(infix@.skip(i + 1)) =~= pre + insert_concat(
                        suffix,
                    ));
                } else {
                    assert(insert_concat(suffix) == seq![suffix[0]] + insert_concat(
                        suffix.drop_first(),
                    ));
                    assert(out@ + insert_concat(infix@.skip(i + 1)) =~= pre + insert_concat(
                        suffix,
                    ));
                }
            } else {
                assert(suffix.len() == 1);
                assert(insert_concat(suffix) == suffix);
                assert(infix@.skip(i + 1) =~= Seq::<Token>::empty());
                assert(insert_concat(infix@.skip(i + 1)) == Seq::<Token>::empty());
                assert(out@ + insert_concat(infix@.skip(i + 1)) =~= pre + insert_concat(suffix));
            }
        }
        i = i + 1;
    }
    proof {
        assert(infix@.skip(m as int) =~= Seq::<Token>::empty());
        assert(out@ + Seq::<Token>::empty() =~= out@);
    }
    out
}

/// Parsing: the pattern's infix token sequence reordered into postfix by the
/// shunting-yard reduction.  Returns `SyntaxError::UnmatchedParenthesis`
/// exactly when a parenthesis of either kind has no partner.
#[verifier::loop_isolation(false)]
pub fn parse(pattern: &str) -> (r: Result<Vec<Token>, SyntaxError>)
    ensures
        r is Ok <==> spec_parse(pattern@) is Ok,
        r is Ok ==> (r->Ok_0)@ == spec_parse(pattern@)->Ok_0,
        r is Err ==> r->Err_0 == spec_parse(pattern@)->Err_0,
{
    let chars = str_chars(pattern);
    let infix = tokenize(&chars);
    let mut postfix: Vec<Token> = Vec::new();
    let mut stack: Vec<Token> = Vec::new();
    let n = infix.len();
    let mut idx: usize = 0;
    proof {
        assert(infix@.skip(0) =~= infix@);
    }
    while idx < n
        invariant
            idx <= n,
            n == infix@.len(),
            infix@ == infix_tokens(pattern@),
            spec_parse(pattern@) == shunt(infix@.skip(idx as int), postfix@, stack@),
        decreases n - idx,
    {
        let ghost suffix = infix@.skip(idx as int);
        proof {
            assert(suffix[0] == infix@[idx as int]);
            assert(suffix.drop_first() =~= infix@.skip(idx + 1));
        }
        let t = infix[idx];
        match t {
            Token::Literal(_) => {
                postfix.push(t);
            },
            Token::LParen => {
                stack.push(t);
            },
            Token::RParen => {
                let ghost stack0 = stack@;
                let ghost out0 = postfix@;
                loop
                    invariant
                        out0.len() <= postfix@.len(),
                        postfix@.take(out0.len() as int) == out0,
                        ({
                            let em = postfix@.skip(out0.len() as int);
                            pop_until_lparen(stack0) == match pop_until_lparen(stack@) {
                                None => None::<(Seq<Token>, Seq<Token>)>,
                                Some(r) => Some((em + r.0, r.1)),
                            }
                        }),
                    decreases stack@.len(),
                {
                    let ghost stack_pre = stack@;
                    let ghost em_pre = postfix@.skip(out0.len() as int);
                    match stack.pop() {
                        Some(Token::LParen) => {
                            proof {
                                assert(stack_pre.last() is LParen);
                                assert(pop_until_lparen(stack_pre) == Some(
                                    (Seq::<Token>::empty(), stack_pre.drop_last()),
                                ));
                                assert(em_pre + Seq::<Token>::empty() =~= em_pre);
                            }
                            break ;
                        },
                        Some(other) => {
                            postfix.push(other);
                            proof {
                                assert(!(stack_pre.last() is LParen));
                                assert(stack_pre.last() == other);
                                assert(stack@ =~= stack_pre.drop_last());
                                assert(postfix@.take(out0.len() as int) =~= out0);
                                let em = postfix@.skip(out0.len() as int);
                                assert(em =~= em_pre.push(other));
                                if pop_until_lparen(stack@) is Some {
                                    let r = pop_until_lparen(stack@)->Some_0;
                                    assert(pop_until_lparen(stack_pre) == Some(
                                        (seq![other] + r.0, r.1),
                                    ));
                                    assert(em_pre + (seq![other] + r.0) =~= em + r.0);
                                }
                            }
                        },
                        None => {
                            proof {
                                assert(stack_pre.len() == 0);
                                assert(pop_until_lparen(stack_pre) is None);
                                assert(pop_until_lparen(stack0) is None);
                                assert(shunt(suffix, out0, stack0) == Err::<
                                    Seq<Token>,
                                    SyntaxError,
                                >(SyntaxError::UnmatchedParenthesis));
                            }
                            return Err(SyntaxError::UnmatchedParenthesis);
                        },
                    }
                }
                proof {
                    let em = postfix@.skip(out0.len() as int);
                    assert(pop_until_lparen(stack0) == Some((em, stack@)));
                    assert(out0 + em =~= postfix@);
                    assert(shunt(suffix, out0, stack0) == shunt(
                        infix@.skip(idx + 1),
                        postfix@,
                        stack@,
                    ));
                }
            },
            _ => {
                let ghost stack0 = stack@;
                let ghost out0 = postfix@;
                let ghost p: int = spec_precedence(t);
                let prec_t = operator_precedence(&t);
                loop
                    invariant
                        out0.len() <= postfix@.len(),
                        postfix@.take(out0.len() as int) == out0,
                        prec_t as int == p,
                        ({
                            let em = postfix@.skip(out0.len() as int);
                            pop_ge(stack0, p) == (em + pop_ge(stack@, p).0, pop_ge(stack@, p).1)
                        }),
                    decreases stack@.len(),
                {
                    let ghost stack_pre = stack@;
                    let ghost em_pre = postfix@.skip(out0.len() as int);
                    if stack.len() == 0 {
                        proof {
                            assert(pop_ge(stack_pre, p) == (Seq::<Token>::empty(), stack_pre));
                            assert(em_pre + Seq::<Token>::empty() =~= em_pre);
                        }
                        break ;
                    }
                    let top = stack[stack.len() - 1];
                    proof {
                        assert(stack_pre.last() == top);
                    }
                    if matches!(top, Token::LParen) {
                        proof {
                            assert(em_pre + Seq::<Token>::empty() =~= em_pre);
                        }
                        break ;
                    }
                    let prec_top = operator_precedence(&top);
                    if prec_top >= prec_t {
                        stack.pop();
                        postfix.push(top);
                        proof {
                            assert(stack@ =~= stack_pre.drop_last());
                            assert(postfix@.take(out0.len() as int) =~= out0);
                            let em = postfix@.skip(out0.len() as int);
                            assert(em =~= em_pre.push(top));
                            let r = pop_ge(stack@, p);
                            assert(pop_ge(stack_pre, p) == (seq![top] + r.0, r.1));
                            assert(em_pre + (seq![top] + r.0) =~= em + r.0);
                        }
                    } else {
                        proof {
                            assert(pop_ge(stack_pre, p) == (Seq::<Token>::empty(), stack_pre));
                            assert(em_pre + Seq::<Token>::empty() =~= em_pre);
                        }
                        break ;
                    }
                }
                stack.push(t);
                proof {
                    let em = postfix@.skip(out0.len() as int);
                    assert(pop_ge(stack0, p).0 == em);
                    assert(out0 + em =~= postfix@);
                    assert(stack@ =~= pop_ge(stack0, p).1.push(t));
                    assert(shunt(suffix, out0, stack0) == shunt(
                        infix@.skip(idx + 1),
                        postfix@,
                        stack@,
                    ));
                }
            },
        }
        idx = idx + 1;
    }
    proof {
        assert(infix@.skip(n as int) =~= Seq::<Token>::empty());
    }
    let ghost stack_mid = stack@;
    let ghost out_mid = postfix@;
    while stack.len() > 0
        invariant
            out_mid.len() <= postfix@.len(),
            postfix@.take(out_mid.len() as int) == out_mid,
            spec_parse(pattern@) == shunt(Seq::<Token>::empty(), out_mid, stack_mid),
            ({
                let em = postfix@.skip(out_mid.len() as int);
                drain_stack(stack_mid) == match drain_stack(stack@) {
                    Ok(rest) => Ok::<Seq<Token>, SyntaxError>(em + rest),
                    Err(e) => Err(e),
                }
            }),
        decreases stack@.len(),
    {
        let ghost stack_pre = stack@;
        let ghost em_pre = postfix@.skip(out_mid.len() as int);
        let top = stack[stack.len() - 1];
        proof {
            assert(stack_pre.last() == top);
        }
        stack.pop();
        if matches!(top, Token::LParen) {
            proof {
                assert(drain_stack(stack_pre) == Err::<Seq<Token>, SyntaxError>(
                    SyntaxError::UnmatchedParenthesis,
                ));
            }
            return Err(SyntaxError::UnmatchedParenthesis);
        }
        postfix.push(top);
        proof {
            assert(stack@ =~= stack_pre.drop_last());
            assert(postfix@.take(out_mid.len() as int) =~= out_mid);
            let em = postfix@.skip(out_mid.len() as int);
            assert(em =~= em_pre.push(top));
            if drain_stack(stack@) is Ok {
                let rest = drain_stack(stack@)->Ok_0;
                assert(drain_stack(stack_pre) == Ok::<Seq<Token>, SyntaxError>(
                    seq![top] + rest,
                ));
                assert(em_pre + (seq![top] + rest) =~= em + rest);
            }
        }
    }
    proof {
        assert(stack@.len() == 0);
        assert(drain_stack(stack@) == Ok::<Seq<Token>, SyntaxError>(Seq::<Token>::empty()));
        let em = postfix@.skip(out_mid.len() as int);
        assert(em + Seq::<Token>::empty() =~= em);
        assert(drain_stack(stack_mid) == Ok::<Seq<Token>, SyntaxError>(em));
        assert(out_mid + em =~= postfix@);
    }
    Ok(postfix)
}

} // verus!
