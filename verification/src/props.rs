//! Laws relating the three stages.
//!
//! The central one is compilation totality: the postfix order that parsing
//! produces for a syntactically valid pattern always compiles.  It is proved
//! by counting fragments: a postfix sequence compiles exactly when every
//! operator in it finds its operands on the build stack and exactly one
//! fragment remains at the end, and the shunting-yard reduction preserves
//! that property for every valid infix token sequence.  The matcher's law
//! says a returned match is leftmost and, at its offset, shortest.

use vstd::prelude::*;

use crate::matcher::first_hit_from;
use crate::matcher::first_match_from;
use crate::matcher::hit_at;
use crate::matcher::match_end_at;
use crate::matcher::spec_find;
use crate::nfa::CompileError;
use crate::nfa::Fragment;
use crate::nfa::NFA;
use crate::nfa::State;
use crate::nfa::compile_step;
use crate::nfa::compile_tokens;
use crate::nfa::spec_compile;
use crate::parse::Token;
use crate::parse::drain_stack;
use crate::parse::infix_tokens;
use crate::parse::pop_ge;
use crate::parse::pop_until_lparen;
use crate::parse::shunt;
use crate::parse::spec_parse;
use crate::parse::spec_precedence;

verus! {

/// One token's effect on the number of fragments on the build stack:
/// a literal adds one, a binary operator replaces two by one, a star
/// rewires one in place, and parentheses are ignored.
pub open spec fn frag_effect(t: Token) -> int {
    match t {
        Token::Literal(_) => 1int,
        Token::Concat => -1int,
        Token::Alt => -1int,
        _ => 0int,
    }
}

/// How many fragments a token needs on the stack before it applies.
pub open spec fn frag_need(t: Token) -> int {
    match t {
        Token::Concat => 2int,
        Token::Alt => 2int,
        Token::Star => 1int,
        _ => 0int,
    }
}

/// The net fragment count a postfix sequence leaves behind.
pub open spec fn frag_delta(ts: Seq<Token>) -> int
    decreases ts.len(),
{
    if ts.len() == 0 {
        0
    } else {
        frag_effect(ts[0]) + frag_delta(ts.drop_first())
    }
}

/// Whether a postfix sequence, run against a stack that already holds `c`
/// fragments, never asks for a fragment that is not there.
pub open spec fn ops_feasible(ts: Seq<Token>, c: int) -> bool
    decreases ts.len(),
{
    if ts.len() == 0 {
        true
    } else {
        c >= frag_need(ts[0]) && ops_feasible(ts.drop_first(), c + frag_effect(ts[0]))
    }
}

/// A well-formed postfix sequence: every operator finds its operands, and
/// exactly one fragment remains at the end.
pub open spec fn valid_postfix(ts: Seq<Token>) -> bool {
    ops_feasible(ts, 0) && frag_delta(ts) == 1
}

/// Compilation succeeds on a sequence and a stack exactly when the sequence
/// is feasible from the stack's height, and then leaves `height + delta`
/// fragments.
proof fn lemma_compile_tokens_ok(ts: Seq<Token>, states: Seq<State>, stack: Seq<Fragment>)
    ensures
        compile_tokens(ts, states, stack) is Ok <==> ops_feasible(ts, stack.len() as int),
        compile_tokens(ts, states, stack) matches Ok(r) ==> r.1.len() == stack.len() + frag_delta(
            ts,
        ),
        compile_tokens(ts, states, stack) matches Err(e) ==> e == CompileError::MissingOperand,
    decreases ts.len(),
{
    if ts.len() > 0 {
        match compile_step(states, stack, ts[0]) {
            Err(_) => {
                assert(stack.len() < frag_need(ts[0]));
            },
            Ok(r) => {
                assert(stack.len() >= frag_need(ts[0]));
                assert(r.1.len() == stack.len() + frag_effect(ts[0]));
                lemma_compile_tokens_ok(ts.drop_first(), r.0, r.1);
            },
        }
    }
}

/// A postfix sequence compiles exactly when it is well formed; an operator
/// that finds too few fragments is `MissingOperand`, a final stack count
/// other than one is `MalformedExpression`.
pub proof fn lemma_compile_ok_iff(ts: Seq<Token>)
    ensures
        spec_compile(ts) is Ok <==> valid_postfix(ts),
        spec_compile(ts) == Err::<(Seq<State>, Fragment), CompileError>(
            CompileError::MissingOperand,
        ) <==> !ops_feasible(ts, 0),
        spec_compile(ts) == Err::<(Seq<State>, Fragment), CompileError>(
            CompileError::MalformedExpression,
        ) <==> (ops_feasible(ts, 0) && frag_delta(ts) != 1),
{
    lemma_compile_tokens_ok(ts, seq![], seq![]);
}

/// Validity of an infix token sequence, scanned left to right: `after` says
/// whether an operand has just been completed, `depth` counts the open
/// parentheses.  A literal or a group may come only where an operand is
/// expected; a binary operator, a star, or a closing parenthesis only after
/// an operand; the sequence must end after an operand with every group
/// closed.
pub open spec fn valid_infix_from(ts: Seq<Token>, after: bool, depth: int) -> bool
    decreases ts.len(),
{
    if ts.len() == 0 {
        after && depth == 0
    } else {
        match ts[0] {
            Token::Literal(_) => !after && valid_infix_from(ts.drop_first(), true, depth),
            Token::LParen => !after && valid_infix_from(ts.drop_first(), false, depth + 1),
            Token::RParen => after && depth > 0 && valid_infix_from(ts.drop_first(), true, depth
                - 1),
            Token::Star => after && valid_infix_from(ts.drop_first(), true, depth),
            _ => after && valid_infix_from(ts.drop_first(), false, depth),
        }
    }
}

/// A syntactically valid pattern: its infix token sequence (with implicit
/// concatenation made explicit) is a well-formed expression.
pub open spec fn valid_pattern(s: Seq<char>) -> bool {
    valid_infix_from(infix_tokens(s), false, 0)
}

/// Binary operators on the shunting-yard stack.
pub open spec fn num_binary(stack: Seq<Token>) -> int
    decreases stack.len(),
{
    if stack.len() == 0 {
        0
    } else {
        num_binary(stack.drop_last()) + if stack.last() is Concat || stack.last() is Alt {
            1int
        } else {
            0int
        }
    }
}

/// Open parentheses on the shunting-yard stack.
pub open spec fn num_lparen(stack: Seq<Token>) -> int
    decreases stack.len(),
{
    if stack.len() == 0 {
        0
    } else {
        num_lparen(stack.drop_last()) + if stack.last() is LParen {
            1int
        } else {
            0int
        }
    }
}

proof fn lemma_num_binary_nonneg(stack: Seq<Token>)
    ensures
        num_binary(stack) >= 0,
    decreases stack.len(),
{
    if stack.len() > 0 {
        lemma_num_binary_nonneg(stack.drop_last());
    }
}

proof fn lemma_num_lparen_nonneg(stack: Seq<Token>)
    ensures
        num_lparen(stack) >= 0,
    decreases stack.len(),
{
    if stack.len() > 0 {
        lemma_num_lparen_nonneg(stack.drop_last());
    }
}

/// What the shunting-yard stack may hold: open parentheses and operators,
/// never a literal or a closing parenthesis.
pub open spec fn stack_tokens_ok(stack: Seq<Token>) -> bool {
    forall|k: int|
        0 <= k < stack.len() ==> !((#[trigger] stack[k]) is Literal) && !(stack[k] is RParen)
}

/// Appending one token to a feasible sequence keeps it feasible, provided
/// enough fragments remain for the new token; the net count shifts by the
/// token's effect.
proof fn lemma_feasible_push(ts: Seq<Token>, c: int, t: Token)
    requires
        ops_feasible(ts, c),
        c + frag_delta(ts) >= frag_need(t),
    ensures
        ops_feasible(ts.push(t), c),
        frag_delta(ts.push(t)) == frag_delta(ts) + frag_effect(t),
    decreases ts.len(),
{
    if ts.len() == 0 {
        assert(ts.push(t)[0] == t);
        assert(ts.push(t).drop_first() =~= Seq::<Token>::empty());
        assert(ops_feasible(Seq::<Token>::empty(), c + frag_effect(t)));
        assert(frag_delta(Seq::<Token>::empty()) == 0);
        assert(ops_feasible(ts.push(t), c));
        assert(frag_delta(ts.push(t)) == frag_delta(ts) + frag_effect(t));
    } else {
        assert(ts.push(t)[0] == ts[0]);
        assert(ts.push(t).drop_first() =~= ts.drop_first().push(t));
        lemma_feasible_push(ts.drop_first(), c + frag_effect(ts[0]), t);
    }
}

/// Draining a stack that holds no open parenthesis succeeds and emits its
/// operators onto a feasible output, leaving exactly one fragment when the
/// bookkeeping says so.
proof fn lemma_drain_ok(stack: Seq<Token>, out: Seq<Token>)
    requires
        stack_tokens_ok(stack),
        num_lparen(stack) == 0,
        ops_feasible(out, 0),
        frag_delta(out) == num_binary(stack) + 1,
    ensures
        drain_stack(stack) matches Ok(em) && {
            let em = drain_stack(stack)->Ok_0;
            ops_feasible(out + em, 0) && frag_delta(out + em) == 1
        },
    decreases stack.len(),
{
    if stack.len() == 0 {
        assert(out + drain_stack(stack)->Ok_0 =~= out);
    } else {
        let t = stack.last();
        assert(!(t is Literal) && !(t is RParen));
        lemma_num_lparen_nonneg(stack.drop_last());
        assert(!(t is LParen));
        lemma_num_binary_nonneg(stack.drop_last());
        lemma_feasible_push(out, 0, t);
        assert(stack_tokens_ok(stack.drop_last()));
        lemma_drain_ok(stack.drop_last(), out.push(t));
        let rest = drain_stack(stack.drop_last())->Ok_0;
        assert(out + (seq![t] + rest) =~= out.push(t) + rest);
    }
}

/// Popping to the matching parenthesis succeeds when one is open, emits
/// operators onto a feasible output, and discards the parenthesis.
proof fn lemma_pop_until_ok(stack: Seq<Token>, out: Seq<Token>)
    requires
        stack_tokens_ok(stack),
        num_lparen(stack) > 0,
        ops_feasible(out, 0),
        frag_delta(out) == num_binary(stack) + 1,
    ensures
        pop_until_lparen(stack) matches Some(r) && {
            let r = pop_until_lparen(stack)->Some_0;
            ops_feasible(out + r.0, 0) && frag_delta(out + r.0) == num_binary(r.1) + 1
                && num_lparen(r.1) == num_lparen(stack) - 1 && stack_tokens_ok(r.1)
        },
    decreases stack.len(),
{
    lemma_num_lparen_nonneg(stack.drop_last());
    assert(stack_tokens_ok(stack.drop_last()));
    let t = stack.last();
    if t is LParen {
        assert(out + pop_until_lparen(stack)->Some_0.0 =~= out);
    } else {
        assert(!(t is Literal) && !(t is RParen));
        lemma_num_binary_nonneg(stack.drop_last());
        lemma_feasible_push(out, 0, t);
        lemma_pop_until_ok(stack.drop_last(), out.push(t));
        let r = pop_until_lparen(stack.drop_last())->Some_0;
        assert(out + (seq![t] + r.0) =~= out.push(t) + r.0);
    }
}

/// Popping the operators of precedence at least `p` (at least 1) emits them
/// onto a feasible output and leaves the parenthesis count alone.
proof fn lemma_pop_ge_ok(stack: Seq<Token>, out: Seq<Token>, p: int)
    requires
        stack_tokens_ok(stack),
        ops_feasible(out, 0),
        frag_delta(out) == num_binary(stack) + 1,
    ensures
        ({
            let r = pop_ge(stack, p);
            ops_feasible(out + r.0, 0) && frag_delta(out + r.0) == num_binary(r.1) + 1
                && num_lparen(r.1) == num_lparen(stack) && stack_tokens_ok(r.1)
        }),
    decreases stack.len(),
{
    if stack.len() == 0 {
        assert(out + pop_ge(stack, p).0 =~= out);
    } else {
        assert(stack_tokens_ok(stack.drop_last()));
        let t = stack.last();
        if t is LParen || spec_precedence(t) < p {
            assert(out + pop_ge(stack, p).0 =~= out);
        } else {
            assert(!(t is Literal) && !(t is RParen));
            lemma_num_binary_nonneg(stack.drop_last());
            lemma_feasible_push(out, 0, t);
            lemma_pop_ge_ok(stack.drop_last(), out.push(t), p);
            let r = pop_ge(stack.drop_last(), p);
            assert(out + (seq![t] + r.0) =~= out.push(t) + r.0);
        }
    }
}

/// The shunting-yard reduction of a valid infix sequence succeeds and
/// produces a well-formed postfix sequence, whenever the output so far is
/// feasible and the stack's bookkeeping matches the scanner's state.
proof fn lemma_shunt_valid(
    input: Seq<Token>,
    out: Seq<Token>,
    stack: Seq<Token>,
    after: bool,
    depth: int,
)
    requires
        valid_infix_from(input, after, depth),
        stack_tokens_ok(stack),
        ops_feasible(out, 0),
        frag_delta(out) == num_binary(stack) + if after {
            1int
        } else {
            0int
        },
        num_lparen(stack) == depth,
    ensures
        shunt(input, out, stack) matches Ok(post) && valid_postfix(shunt(input, out, stack)->Ok_0),
    decreases input.len(),
{
    if input.len() == 0 {
        lemma_drain_ok(stack, out);
    } else {
        let t = input[0];
        let rest = input.drop_first();
        match t {
            Token::Literal(_) => {
                lemma_num_binary_nonneg(stack);
                lemma_feasible_push(out, 0, t);
                lemma_shunt_valid(rest, out.push(t), stack, true, depth);
            },
            Token::LParen => {
                assert(stack.push(t).drop_last() =~= stack);
                assert forall|k: int|
                    0 <= k < stack.push(t).len() implies !((#[trigger] stack.push(
                    t,
                )[k]) is Literal) && !(stack.push(t)[k] is RParen) by {
                    if k < stack.len() {
                        assert(!(stack[k] is Literal) && !(stack[k] is RParen));
                    }
                }
                lemma_shunt_valid(rest, out, stack.push(t), false, depth + 1);
            },
            Token::RParen => {
                lemma_pop_until_ok(stack, out);
                let r = pop_until_lparen(stack)->Some_0;
                lemma_shunt_valid(rest, out + r.0, r.1, true, depth - 1);
            },
            _ => {
                lemma_pop_ge_ok(stack, out, spec_precedence(t));
                let r = pop_ge(stack, spec_precedence(t));
                assert(r.1.push(t).drop_last() =~= r.1);
                assert forall|k: int|
                    0 <= k < r.1.push(t).len() implies !((#[trigger] r.1.push(
                    t,
                )[k]) is Literal) && !(r.1.push(t)[k] is RParen) by {
                    if k < r.1.len() {
                        assert(!(r.1[k] is Literal) && !(r.1[k] is RParen));
                    }
                }
                if t is Star {
                    lemma_shunt_valid(rest, out + r.0, r.1.push(t), true, depth);
                } else {
                    lemma_shunt_valid(rest, out + r.0, r.1.push(t), false, depth);
                }
            },
        }
    }
}

/// Compilation totality: parsing a syntactically valid pattern succeeds,
/// its postfix order is well formed, and compiling it succeeds.
pub proof fn lemma_valid_pattern_compiles(s: Seq<char>)
    requires
        valid_pattern(s),
    ensures
        spec_parse(s) is Ok,
        valid_postfix(spec_parse(s)->Ok_0),
        spec_compile(spec_parse(s)->Ok_0) is Ok,
{
    lemma_shunt_valid(infix_tokens(s), seq![], seq![], false, 0);
    lemma_compile_ok_iff(spec_parse(s)->Ok_0);
}

/// Compiling the same postfix sequence twice yields structurally identical
/// automata: compilation is a function of the token sequence alone.
pub proof fn lemma_compile_deterministic(a: Seq<Token>, b: Seq<Token>)
    requires
        a == b,
    ensures
        spec_compile(a) == spec_compile(b),
{
}

/// What a first hit means: it is a hit, it lies in range, and nothing
/// before it (from `j0` on) hits.
proof fn lemma_first_hit_props(nfa: NFA, hay: Seq<char>, i: int, j0: int)
    requires
        i < j0,
    ensures
        first_hit_from(nfa, hay, i, j0) matches Some(e) ==> {
            let e = first_hit_from(nfa, hay, i, j0)->Some_0;
            j0 <= e <= hay.len() && hit_at(nfa, hay, i, e) && (forall|j: int|
                j0 <= j < e ==> !hit_at(nfa, hay, i, j))
        },
        first_hit_from(nfa, hay, i, j0) is None ==> forall|j: int|
            j0 <= j <= hay.len() ==> !hit_at(nfa, hay, i, j),
    decreases hay.len() + 1 - j0,
{
    if j0 <= hay.len() && !hit_at(nfa, hay, i, j0) {
        lemma_first_hit_props(nfa, hay, i, j0 + 1);
    }
}

/// What a first match means: its offset admits a completion, and no
/// earlier offset (from `i0` on) admits any.
proof fn lemma_first_match_props(nfa: NFA, hay: Seq<char>, i0: int)
    requires
        0 <= i0,
    ensures
        first_match_from(nfa, hay, i0) matches Some(m) ==> {
            let m = first_match_from(nfa, hay, i0)->Some_0;
            i0 <= m.0 < hay.len() && match_end_at(nfa, hay, m.0) == Some(m.1) && (forall|i: int|
                i0 <= i < m.0 ==> match_end_at(nfa, hay, i) is None)
        },
        first_match_from(nfa, hay, i0) is None ==> forall|i: int|
            i0 <= i < hay.len() ==> match_end_at(nfa, hay, i) is None,
    decreases hay.len() - i0,
{
    if 0 <= i0 < hay.len() && match_end_at(nfa, hay, i0) is None {
        lemma_first_match_props(nfa, hay, i0 + 1);
    }
}

/// Leftmost-shortest: a found match is a hit; no shorter completion exists
/// at its offset; and no completion of any length exists at any earlier
/// offset.
pub proof fn lemma_leftmost_shortest(nfa: NFA, hay: Seq<char>, s: int, e: int)
    requires
        spec_find(nfa, hay) == Some((s, e)),
    ensures
        0 <= s < hay.len(),
        s < e <= hay.len(),
        hit_at(nfa, hay, s, e),
        forall|j: int| s < j < e ==> !hit_at(nfa, hay, s, j),
        forall|i: int, j: int| 0 <= i < s && i < j <= hay.len() ==> !hit_at(nfa, hay, i, j),
{
    lemma_first_match_props(nfa, hay, 0);
    lemma_first_hit_props(nfa, hay, s, s + 1);
    assert forall|i: int, j: int| 0 <= i < s && i < j <= hay.len() implies !hit_at(
        nfa,
        hay,
        i,
        j,
    ) by {
        assert(match_end_at(nfa, hay, i) is None);
        lemma_first_hit_props(nfa, hay, i, i + 1);
    }
}


/// Whether every `)` of the sequence closes an open `(`, and every `(` is
/// closed by the end, starting from `depth` groups already open.  Only the
/// parentheses matter.
pub open spec fn parens_balanced_from(ts: Seq<Token>, depth: int) -> bool
    decreases ts.len(),
{
    if ts.len() == 0 {
        depth == 0
    } else {
        match ts[0] {
            Token::LParen => parens_balanced_from(ts.drop_first(), depth + 1),
            Token::RParen => depth > 0 && parens_balanced_from(ts.drop_first(), depth - 1),
            _ => parens_balanced_from(ts.drop_first(), depth),
        }
    }
}

/// Popping to a parenthesis succeeds exactly when one is open, and closes
/// it.
proof fn lemma_pop_until_lparen_count(stack: Seq<Token>)
    ensures
        pop_until_lparen(stack) is Some <==> num_lparen(stack) > 0,
        pop_until_lparen(stack) matches Some(r) ==> num_lparen(r.1) == num_lparen(stack) - 1,
    decreases stack.len(),
{
    if stack.len() > 0 {
        lemma_num_lparen_nonneg(stack.drop_last());
        if !(stack.last() is LParen) {
            lemma_pop_until_lparen_count(stack.drop_last());
        }
    }
}

/// Popping operators never touches an open parenthesis.
proof fn lemma_pop_ge_count(stack: Seq<Token>, p: int)
    ensures
        num_lparen(pop_ge(stack, p).1) == num_lparen(stack),
    decreases stack.len(),
{
    if stack.len() > 0 && !(stack.last() is LParen) && spec_precedence(stack.last()) >= p {
        lemma_pop_ge_count(stack.drop_last(), p);
    }
}

/// Draining the stack succeeds exactly when no parenthesis is still open.
proof fn lemma_drain_count(stack: Seq<Token>)
    ensures
        drain_stack(stack) is Ok <==> num_lparen(stack) == 0,
    decreases stack.len(),
{
    if stack.len() > 0 {
        lemma_num_lparen_nonneg(stack.drop_last());
        if !(stack.last() is LParen) {
            lemma_drain_count(stack.drop_last());
        }
    }
}

/// The shunting-yard reduction succeeds exactly when the input's
/// parentheses balance against the parentheses already open on the stack.
proof fn lemma_shunt_ok_iff(input: Seq<Token>, out: Seq<Token>, stack: Seq<Token>)
    ensures
        shunt(input, out, stack) is Ok <==> parens_balanced_from(input, num_lparen(stack)),
    decreases input.len(),
{
    if input.len() == 0 {
        lemma_drain_count(stack);
    } else {
        let t = input[0];
        let rest = input.drop_first();
        match t {
            Token::Literal(_) => {
                lemma_shunt_ok_iff(rest, out.push(t), stack);
            },
            Token::LParen => {
                assert(stack.push(t).drop_last() =~= stack);
                lemma_shunt_ok_iff(rest, out, stack.push(t));
            },
            Token::RParen => {
                lemma_pop_until_lparen_count(stack);
                match pop_until_lparen(stack) {
                    None => {
                        lemma_num_lparen_nonneg(stack);
                    },
                    Some(r) => {
                        lemma_shunt_ok_iff(rest, out + r.0, r.1);
                    },
                }
            },
            _ => {
                lemma_pop_ge_count(stack, spec_precedence(t));
                let r = pop_ge(stack, spec_precedence(t));
                assert(r.1.push(t).drop_last() =~= r.1);
                lemma_shunt_ok_iff(rest, out + r.0, r.1.push(t));
            },
        }
    }
}

/// Parsing succeeds exactly when the pattern's parentheses balance: the
/// one error, `UnmatchedParenthesis`, comes precisely on a `)` with no
/// open `(` or a `(` never closed.
pub proof fn lemma_parse_ok_iff(s: Seq<char>)
    ensures
        spec_parse(s) is Ok <==> parens_balanced_from(infix_tokens(s), 0),
{
    lemma_shunt_ok_iff(infix_tokens(s), seq![], seq![]);
}

} // verus!
