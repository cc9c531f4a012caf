//! Compilation: postfix token order -> nondeterministic finite automaton.
//!
//! Thompson's construction over a growable arena of states and a stack of
//! partially built fragments.  Each literal appends a character state and an
//! epsilon stub; each operator pops fragments, wires their exit states, and
//! pushes the combined fragment.  After the last token exactly one fragment
//! must remain; its entry and exit become the automaton's start and accept
//! states.  Parenthesis tokens never appear in well-formed postfix input and
//! are ignored.

use vstd::prelude::*;

use crate::parse::Token;

verus! {

/// How a state is left: by consuming exactly one input character equal to
/// the labelled one, or for free.
#[derive(Debug, Clone, Copy, PartialEq, Eq, Structural)]
pub enum Transition {
    Character(char),
    Epsilon,
}

/// One automaton node: its transition, and up to two outgoing edges, each an
/// index into the automaton's state arena.  A character state uses only
/// `out1` (reached after consuming the matching character); an epsilon state
/// may have zero, one, or two outgoing edges.
#[derive(Debug, Clone, Copy, PartialEq, Eq)]
pub struct State {
    pub transition: Transition,
    pub out1: Option<usize>,
    pub out2: Option<usize>,
}

/// A transient build artifact: a sub-automaton with one entry state and one
/// designated exit ("accept") state, the exit guaranteed free of outgoing
/// edges at the time the fragment is made.
#[derive(Debug, Clone, Copy, PartialEq, Eq)]
pub struct Fragment {
    pub start: usize,
    pub accept: usize,
}

/// The compiled automaton: the state arena plus its start and accept
/// indices.
#[derive(Debug, Clone)]
pub struct NFA {
    pub states: Vec<State>,
    pub start: usize,
    pub accept: usize,
}

/// The two ways compilation can fail: an operator token with too few
/// fragments on the build stack (a binary operator with fewer than two, a
/// star with none), or a stack that does not hold exactly one fragment after
/// the last token.
#[derive(Debug, Clone, Copy, PartialEq, Eq, Structural)]
pub enum CompileError {
    MissingOperand,
    MalformedExpression,
}

/// The state `s` with its first outgoing edge replaced by `t`.
pub open spec fn with_out1(s: State, t: Option<usize>) -> State {
    State { transition: s.transition, out1: t, out2: s.out2 }
}

/// Whether the state at index `i` is a pure epsilon sentinel: no outgoing
/// edges at all.
pub open spec fn no_outgoing(states: Seq<State>, i: int) -> bool {
    &&& states[i].transition is Epsilon
    &&& states[i].out1 is None
    &&& states[i].out2 is None
}

/// Every edge of the arena stays inside the arena, and every character
/// state has exactly its single outgoing edge.
pub open spec fn arena_wf(states: Seq<State>) -> bool {
    forall|i: int|
        0 <= i < states.len() ==> {
            &&& (#[trigger] states[i].out1 matches Some(t) ==> (t as int) < states.len())
            &&& (states[i].out2 matches Some(t) ==> (t as int) < states.len())
            &&& (states[i].transition is Character ==> states[i].out1 is Some && states[i].out2
                is None)
        }
}

/// A fragment's indices are in bounds and its exit state still has no
/// outgoing edges, ready to be wired into a larger fragment.
pub open spec fn frag_wf(states: Seq<State>, f: Fragment) -> bool {
    &&& (f.start as int) < states.len()
    &&& (f.accept as int) < states.len()
    &&& no_outgoing(states, f.accept as int)
}

/// Every fragment on the build stack is well formed and no two share an
/// exit state, so wiring one exit never disturbs another fragment.
pub open spec fn stack_wf(states: Seq<State>, stack: Seq<Fragment>) -> bool {
    &&& forall|k: int| 0 <= k < stack.len() ==> frag_wf(states, #[trigger] stack[k])
    &&& forall|k1: int, k2: int|
        0 <= k1 < k2 < stack.len() ==> (#[trigger] stack[k1]).accept != (
        #[trigger] stack[k2]).accept
}

/// The whole build state is well formed.
pub open spec fn build_wf(states: Seq<State>, stack: Seq<Fragment>) -> bool {
    arena_wf(states) && stack_wf(states, stack)
}

impl NFA {
    /// Well-formedness of a compiled automaton: the arena's edges are in
    /// bounds, character states are wired, start and accept are in bounds,
    /// and the accept state is a pure epsilon sentinel.
    pub open spec fn wf(self) -> bool {
        &&& arena_wf(self.states@)
        &&& (self.start as int) < self.states@.len()
        &&& (self.accept as int) < self.states@.len()
        &&& no_outgoing(self.states@, self.accept as int)
    }
}

/// One token's effect on the build state: the new arena and fragment stack,
/// or the error.
pub open spec fn compile_step(states: Seq<State>, stack: Seq<Fragment>, t: Token) -> Result<
    (Seq<State>, Seq<Fragment>),
    CompileError,
> {
    match t {
        Token::Literal(c) => {
            let n = states.len();
            let head = State {
                transition: Transition::Character(c),
                out1: Some((n + 1) as usize),
                out2: None,
            };
            let stub = State { transition: Transition::Epsilon, out1: None, out2: None };
            Ok(
                (
                    states.push(head).push(stub),
                    stack.push(Fragment { start: n as usize, accept: (n + 1) as usize }),
                ),
            )
        },
        Token::Concat => {
            if stack.len() < 2 {
                Err(CompileError::MissingOperand)
            } else {
                let f2 = stack.last();
                let f1 = stack[stack.len() - 2];
                let wired = states.update(
                    f1.accept as int,
                    with_out1(states[f1.accept as int], Some(f2.start)),
                );
                Ok(
                    (
                        wired,
                        stack.drop_last().drop_last().push(
                            Fragment { start: f1.start, accept: f2.accept },
                        ),
                    ),
                )
            }
        },
        Token::Alt => {
            if stack.len() < 2 {
                Err(CompileError::MissingOperand)
            } else {
                let f2 = stack.last();
                let f1 = stack[stack.len() - 2];
                let n = states.len();
                let split = State {
                    transition: Transition::Epsilon,
                    out1: Some(f1.start),
                    out2: Some(f2.start),
                };
                let join = State { transition: Transition::Epsilon, out1: None, out2: None };
                let wired = states.update(
                    f1.accept as int,
                    with_out1(states[f1.accept as int], Some((n + 1) as usize)),
                ).update(
                    f2.accept as int,
                    with_out1(states[f2.accept as int], Some((n + 1) as usize)),
                ).push(split).push(join);
                Ok(
                    (
                        wired,
                        stack.drop_last().drop_last().push(
                            Fragment { start: n as usize, accept: (n + 1) as usize },
                        ),
                    ),
                )
            }
        },
        Token::Star => {
            if stack.len() < 1 {
                Err(CompileError::MissingOperand)
            } else {
                let f1 = stack.last();
                let n = states.len();
                let split = State {
                    transition: Transition::Epsilon,
                    out1: Some(f1.start),
                    out2: Some((n + 1) as usize),
                };
                let exit = State { transition: Transition::Epsilon, out1: None, out2: None };
                let wired = states.update(
                    f1.accept as int,
                    with_out1(states[f1.accept as int], Some(n as usize)),
                ).push(split).push(exit);
                Ok(
                    (
                        wired,
                        stack.drop_last().push(
                            Fragment { start: n as usize, accept: (n + 1) as usize },
                        ),
                    ),
                )
            }
        },
        _ => Ok((states, stack)),
    }
}

/// The build state after consuming a whole postfix token sequence, or the
/// first error.
pub open spec fn compile_tokens(ts: Seq<Token>, states: Seq<State>, stack: Seq<Fragment>) -> Result<
    (Seq<State>, Seq<Fragment>),
    CompileError,
>
    decreases ts.len(),
{
    if ts.len() == 0 {
        Ok((states, stack))
    } else {
        match compile_step(states, stack, ts[0]) {
            Err(e) => Err(e),
            Ok(r) => compile_tokens(ts.drop_first(), r.0, r.1),
        }
    }
}

/// What `compile` returns on a postfix token sequence: the finished arena
/// and the one remaining fragment, whose entry and exit are the automaton's
/// start and accept, or the error rejecting the sequence.
pub open spec fn spec_compile(ts: Seq<Token>) -> Result<(Seq<State>, Fragment), CompileError> {
    match compile_tokens(ts, seq![], seq![]) {
        Err(e) => Err(e),
        Ok(r) => if r.1.len() == 1 {
            Ok((r.0, r.1[0]))
        } else {
            Err(CompileError::MalformedExpression)
        },
    }
}

/// One compilation step keeps the build state well formed, grows the arena
/// by at most two states, and never shrinks it.
pub proof fn lemma_step_preserves_wf(states: Seq<State>, stack: Seq<Fragment>, t: Token)
    requires
        build_wf(states, stack),
        states.len() + 2 <= usize::MAX,
    ensures
        compile_step(states, stack, t) matches Ok(r) ==> build_wf(r.0, r.1) && states.len()
            <= r.0.len() <= states.len() + 2,
{
    match t {
        Token::Literal(c) => {
            let r = compile_step(states, stack, t)->Ok_0;
            assert forall|k: int| 0 <= k < r.1.len() implies frag_wf(r.0, #[trigger] r.1[k]) by {
                if k < stack.len() {
                    assert(frag_wf(states, stack[k]));
                }
            }
        },
        Token::Concat => {
            if stack.len() >= 2 {
                let f2 = stack.last();
                let f1 = stack[stack.len() - 2];
                assert(frag_wf(states, f1));
                assert(frag_wf(states, f2));
                assert(f1.accept != f2.accept);
                let r = compile_step(states, stack, t)->Ok_0;
                assert forall|k: int| 0 <= k < r.1.len() implies frag_wf(
                    r.0,
                    #[trigger] r.1[k],
                ) by {
                    if k < stack.len() - 2 {
                        assert(frag_wf(states, stack[k]));
                        assert(stack[k].accept != f1.accept);
                    }
                }
            }
        },
        Token::Alt => {
            if stack.len() >= 2 {
                let f2 = stack.last();
                let f1 = stack[stack.len() - 2];
                assert(frag_wf(states, f1));
                assert(frag_wf(states, f2));
                assert(f1.accept != f2.accept);
                let r = compile_step(states, stack, t)->Ok_0;
                assert forall|k: int| 0 <= k < r.1.len() implies frag_wf(
                    r.0,
                    #[trigger] r.1[k],
                ) by {
                    if k < stack.len() - 2 {
                        assert(frag_wf(states, stack[k]));
                        assert(stack[k].accept != f1.accept);
                        assert(stack[k].accept != f2.accept);
                    }
                }
            }
        },
        Token::Star => {
            if stack.len() >= 1 {
                let f1 = stack.last();
                assert(frag_wf(states, f1));
                let r = compile_step(states, stack, t)->Ok_0;
                assert forall|k: int| 0 <= k < r.1.len() implies frag_wf(
                    r.0,
                    #[trigger] r.1[k],
                ) by {
                    if k < stack.len() - 1 {
                        assert(frag_wf(states, stack[k]));
                        assert(stack[k].accept != f1.accept);
                    }
                }
            }
        },
        _ => {},
    }
}

/// Consuming a postfix sequence keeps the build state well formed and adds
/// at most two states per token.
pub proof fn lemma_compile_tokens_wf(ts: Seq<Token>, states: Seq<State>, stack: Seq<Fragment>)
    requires
        build_wf(states, stack),
        states.len() + 2 * ts.len() <= usize::MAX,
    ensures
        compile_tokens(ts, states, stack) matches Ok(r) ==> build_wf(r.0, r.1) && states.len()
            <= r.0.len() <= states.len() + 2 * ts.len(),
    decreases ts.len(),
{
    if ts.len() > 0 {
        lemma_step_preserves_wf(states, stack, ts[0]);
        match compile_step(states, stack, ts[0]) {
            Err(_) => {},
            Ok(r) => {
                lemma_compile_tokens_wf(ts.drop_first(), r.0, r.1);
            },
        }
    }
}

/// A successfully compiled postfix sequence yields a well-formed automaton;
/// in particular its accept state has no outgoing edges.
pub proof fn lemma_spec_compile_wf(ts: Seq<Token>)
    requires
        2 * ts.len() <= usize::MAX,
    ensures
        spec_compile(ts) matches Ok(ok) ==> {
            &&& arena_wf(ok.0)
            &&& (ok.1.start as int) < ok.0.len()
            &&& (ok.1.accept as int) < ok.0.len()
            &&& no_outgoing(ok.0, ok.1.accept as int)
            &&& ok.0.len() <= 2 * ts.len()
        },
{
    lemma_compile_tokens_wf(ts, seq![], seq![]);
}

/// Thompson's construction.  Processes the postfix tokens left to right over
/// a state arena and a fragment stack; exactly one fragment must remain at
/// the end, and its entry and exit indices become the automaton's start and
/// accept.  The arena length bound keeps every state index representable.
#[verifier::loop_isolation(false)]
pub fn compile(postfix: &Vec<Token>) -> (r: Result<NFA, CompileError>)
    requires
        2 * postfix@.len() + 2 <= usize::MAX,
    ensures
        r is Ok <==> spec_compile(postfix@) is Ok,
        r matches Ok(nfa) ==> ({
            let ok = spec_compile(postfix@)->Ok_0;
            &&& nfa.states@ == ok.0
            &&& nfa.start == ok.1.start
            &&& nfa.accept == ok.1.accept
            &&& nfa.wf()
        }),
        r matches Err(e) ==> e == spec_compile(postfix@)->Err_0,
{
    let mut states: Vec<State> = Vec::new();
    let mut stack: Vec<Fragment> = Vec::new();
    let n = postfix.len();
    let mut i: usize = 0;
    proof {
        assert(postfix@.skip(0) =~= postfix@);
    }
    while i < n
        invariant
            i <= n,
            compile_tokens(postfix@, seq![], seq![]) == compile_tokens(
                postfix@.skip(i as int),
                states@,
                stack@,
            ),
            build_wf(states@, stack@),
            states@.len() <= 2 * i,
        decreases n - i,
    {
        let ghost suffix = postfix@.skip(i as int);
        let ghost st0 = states@;
        let ghost sk0 = stack@;
        proof {
            assert(suffix[0] == postfix@[i as int]);
            assert(suffix.drop_first() =~= postfix@.skip(i + 1));
            lemma_step_preserves_wf(st0, sk0, postfix@[i as int]);
        }
        let t = postfix[i];
        match t {
            Token::Literal(c) => {
                let base = states.len();
                let head = State {
                    transition: Transition::Character(c),
                    out1: Some(base + 1),
                    out2: None,
                };
                let stub = State { transition: Transition::Epsilon, out1: None, out2: None };
                states.push(head);
                states.push(stub);
                stack.push(Fragment { start: base, accept: base + 1 });
            },
            Token::Concat => {
                if stack.len() < 2 {
                    return Err(CompileError::MissingOperand);
                }
                let f2 = stack[stack.len() - 1];
                let f1 = stack[stack.len() - 2];
                stack.pop();
                stack.pop();
                states[f1.accept].out1 = Some(f2.start);
                stack.push(Fragment { start: f1.start, accept: f2.accept });
            },
            Token::Alt => {
                if stack.len() < 2 {
                    return Err(CompileError::MissingOperand);
                }
                let f2 = stack[stack.len() - 1];
                let f1 = stack[stack.len() - 2];
                stack.pop();
                stack.pop();
                let base = states.len();
                states[f1.accept].out1 = Some(base + 1);
                states[f2.accept].out1 = Some(base + 1);
                let split = State {
                    transition: Transition::Epsilon,
                    out1: Some(f1.start),
                    out2: Some(f2.start),
                };
                let join = State { transition: Transition::Epsilon, out1: None, out2: None };
                states.push(split);
                states.push(join);
                stack.push(Fragment { start: base, accept: base + 1 });
            },
            Token::Star => {
                if stack.len() < 1 {
                    return Err(CompileError::MissingOperand);
                }
                let f1 = stack[stack.len() - 1];
                stack.pop();
                let base = states.len();
                states[f1.accept].out1 = Some(base);
                let split = State {
                    transition: Transition::Epsilon,
                    out1: Some(f1.start),
                    out2: Some(base + 1),
                };
                let exit = State { transition: Transition::Epsilon, out1: None, out2: None };
                states.push(split);
                states.push(exit);
                stack.push(Fragment { start: base, accept: base + 1 });
            },
            _ => {},
        }
        proof {
            let r = compile_step(st0, sk0, suffix[0])->Ok_0;
            assert(states@ =~= r.0);
            assert(stack@ =~= r.1);
        }
        i = i + 1;
    }
    proof {
        assert(postfix@.skip(n as int) =~= Seq::<Token>::empty());
    }
    if stack.len() != 1 {
        return Err(CompileError::MalformedExpression);
    }
    let frag = stack[0];
    Ok(NFA { states, start: frag.start, accept: frag.accept })
}

} // verus!
