//! Matching: unanchored substring search by automaton simulation.
//!
//! For each starting offset of the haystack in ascending order, the matcher
//! simulates the automaton without backtracking: it keeps a set of active
//! character states, computed as the epsilon-closure of the start state, and
//! for each haystack character advances every active state whose label
//! matches, expanding the targets through epsilon-closure again.  The
//! instant any path reaches the accept state the match is returned, so the
//! result is the leftmost starting offset that admits a completion, with
//! the shortest completion from that offset.  A reported match consumes at
//! least one character: zero-length completions are never reported (so a
//! pattern that also accepts the empty string still yields the shortest
//! nonempty match at the leftmost viable offset).
//!
//! Epsilon-closures are computed iteratively with an explicit worklist and
//! a visited set keyed by state index, so the cyclic epsilon graphs that
//! `Star` builds (for instance from nested stars) terminate.

use vstd::prelude::*;
use vstd::string::StrSliceExecFns;

use crate::nfa::NFA;
use crate::nfa::Transition;
use crate::parse::str_chars;

verus! {

/// A successful match: the starting and ending character offsets into the
/// haystack (the match is the half-open range between them) and the matched
/// substring itself.
#[derive(Debug, Clone)]
pub struct Match {
    pub start: usize,
    pub end: usize,
    pub text: String,
}

/// An epsilon edge of the automaton: state `a` is an epsilon state with an
/// outgoing edge to `b`.
pub open spec fn eps_edge(nfa: NFA, a: usize, b: usize) -> bool {
    &&& (a as int) < nfa.states@.len()
    &&& nfa.states@[a as int].transition is Epsilon
    &&& (nfa.states@[a as int].out1 == Some(b) || nfa.states@[a as int].out2 == Some(b))
}

/// A path through epsilon edges only: nonempty, and each step is an epsilon
/// edge.
pub open spec fn is_eps_path(nfa: NFA, p: Seq<usize>) -> bool {
    &&& p.len() >= 1
    &&& forall|k: int| 0 <= k < p.len() - 1 ==> eps_edge(nfa, #[trigger] p[k], p[k + 1])
}

/// State `b` is in the epsilon-closure of state `a`: reachable without
/// consuming input (reflexively so).
pub open spec fn eps_reaches(nfa: NFA, a: usize, b: usize) -> bool {
    exists|p: Seq<usize>| is_eps_path(nfa, p) && p.first() == a && p.last() == b
}

/// State `b` is in the epsilon-closure of some state of `init`.
pub open spec fn reaches_from(nfa: NFA, init: Seq<usize>, b: usize) -> bool {
    exists|s: usize| init.contains(s) && eps_reaches(nfa, s, b)
}

/// The elements of a vector of state indices, as a set.
pub open spec fn seq_set(s: Seq<usize>) -> Set<usize> {
    Set::new(|x: usize| s.contains(x))
}

/// The character states in the epsilon-closure of a set of states: the
/// active set the simulation keeps between characters.
pub open spec fn char_closure(nfa: NFA, from: Set<usize>) -> Set<usize> {
    Set::new(
        |x: usize|
            (x as int) < nfa.states@.len() && nfa.states@[x as int].transition is Character
                && exists|s: usize| from.contains(s) && eps_reaches(nfa, s, x),
    )
}

/// Whether the accept state lies in the epsilon-closure of the set.
pub open spec fn sees_accept(nfa: NFA, from: Set<usize>) -> bool {
    exists|s: usize| from.contains(s) && eps_reaches(nfa, s, nfa.accept)
}

/// Active state `s` consumes `ch` and moves to `x`: `s` is a character
/// state labelled `ch` whose single outgoing edge leads to `x`.
pub open spec fn step_match(nfa: NFA, s: usize, ch: char, x: usize) -> bool {
    &&& (s as int) < nfa.states@.len()
    &&& nfa.states@[s as int].transition == Transition::Character(ch)
    &&& nfa.states@[s as int].out1 == Some(x)
}

/// Every state reached from the active set by consuming `ch`, before
/// epsilon expansion.
pub open spec fn step_targets(nfa: NFA, active: Set<usize>, ch: char) -> Set<usize> {
    Set::new(|x: usize| exists|s: usize| active.contains(s) && step_match(nfa, s, ch, x))
}

/// The active set of the simulation started at offset `i` after consuming
/// the haystack characters at positions `i..j`.
pub open spec fn active_at(nfa: NFA, hay: Seq<char>, i: int, j: int) -> Set<usize>
    decreases j - i,
{
    if j <= i {
        char_closure(nfa, seq_set(seq![nfa.start]))
    } else {
        char_closure(nfa, step_targets(nfa, active_at(nfa, hay, i, j - 1), hay[j - 1]))
    }
}

/// Consuming the haystack character at position `j - 1` (the `j - i`-th of
/// the attempt started at offset `i`) lands some path on the accept state:
/// the attempt matches the range `i..j`.
pub open spec fn hit_at(nfa: NFA, hay: Seq<char>, i: int, j: int) -> bool {
    sees_accept(nfa, step_targets(nfa, active_at(nfa, hay, i, j - 1), hay[j - 1]))
}

/// The least ending position `j` at or after `j0` where the attempt started
/// at offset `i` matches, if any.
pub open spec fn first_hit_from(nfa: NFA, hay: Seq<char>, i: int, j0: int) -> Option<int>
    decreases hay.len() + 1 - j0,
{
    if j0 <= i || j0 > hay.len() {
        None
    } else if hit_at(nfa, hay, i, j0) {
        Some(j0)
    } else {
        first_hit_from(nfa, hay, i, j0 + 1)
    }
}

/// The ending position of the shortest (nonempty) match of the attempt
/// started at offset `i`, if any.
pub open spec fn match_end_at(nfa: NFA, hay: Seq<char>, i: int) -> Option<int> {
    first_hit_from(nfa, hay, i, i + 1)
}

/// The first matching attempt at or after offset `i`: the least starting
/// offset that admits a completion, with the shortest completion's ending
/// position.
pub open spec fn first_match_from(nfa: NFA, hay: Seq<char>, i: int) -> Option<(int, int)>
    decreases hay.len() - i,
{
    if i < 0 || i >= hay.len() {
        None
    } else {
        match match_end_at(nfa, hay, i) {
            Some(e) => Some((i, e)),
            None => first_match_from(nfa, hay, i + 1),
        }
    }
}

/// What `match_pattern` returns: the leftmost starting offset with a
/// completion and the shortest completion from it, as character offsets.
pub open spec fn spec_find(nfa: NFA, hay: Seq<char>) -> Option<(int, int)> {
    first_match_from(nfa, hay, 0)
}

/// Epsilon-reachability is reflexive: the one-state path.
proof fn lemma_reach_refl(nfa: NFA, a: usize)
    ensures
        eps_reaches(nfa, a, a),
{
    let p = seq![a];
    assert(is_eps_path(nfa, p));
    assert(p.first() == a && p.last() == a);
}

/// Epsilon-reachability extends along one more epsilon edge.
proof fn lemma_reach_extend(nfa: NFA, a: usize, b: usize, c: usize)
    requires
        eps_reaches(nfa, a, b),
        eps_edge(nfa, b, c),
    ensures
        eps_reaches(nfa, a, c),
{
    let p = choose|p: Seq<usize>| is_eps_path(nfa, p) && p.first() == a && p.last() == b;
    let q = p.push(c);
    assert forall|k: int| 0 <= k < q.len() - 1 implies eps_edge(nfa, #[trigger] q[k], q[k + 1]) by {
        if k < p.len() - 1 {
            assert(eps_edge(nfa, p[k], p[k + 1]));
        } else {
            assert(q[k] == b && q[k + 1] == c);
        }
    }
    assert(is_eps_path(nfa, q) && q.first() == a && q.last() == c);
}

/// In a visited set that contains the head of an epsilon path and is closed
/// under epsilon edges, the path's end is visited too.
proof fn lemma_closed_under_eps(nfa: NFA, visited: Seq<bool>, p: Seq<usize>)
    requires
        nfa.wf(),
        visited.len() == nfa.states@.len(),
        is_eps_path(nfa, p),
        (p.first() as int) < visited.len(),
        visited[p.first() as int],
        forall|a: usize, b: usize|
            (a as int) < visited.len() && visited[a as int] && #[trigger] eps_edge(nfa, a, b)
                ==> (b as int) < visited.len() && visited[b as int],
    ensures
        (p.last() as int) < visited.len() && visited[p.last() as int],
    decreases p.len(),
{
    if p.len() > 1 {
        assert(eps_edge(nfa, p[0], p[1]));
        let q = p.drop_first();
        assert(is_eps_path(nfa, q));
        assert(q.first() == p[1] && q.last() == p.last());
        lemma_closed_under_eps(nfa, visited, q);
    }
}

/// How many states a visited set still lacks, among the first `k`.
pub open spec fn count_unvisited(v: Seq<bool>, k: int) -> int
    decreases k,
{
    if k <= 0 {
        0
    } else {
        count_unvisited(v, k - 1) + if v[k - 1] {
            0int
        } else {
            1int
        }
    }
}

proof fn lemma_count_unvisited_nonneg(v: Seq<bool>, k: int)
    ensures
        count_unvisited(v, k) >= 0,
    decreases k,
{
    if k > 0 {
        lemma_count_unvisited_nonneg(v, k - 1);
    }
}

/// Marking one unvisited state visited lowers the count by one.
proof fn lemma_count_unvisited_update(v: Seq<bool>, idx: int, k: int)
    requires
        0 <= idx < v.len(),
        k <= v.len(),
        !v[idx],
    ensures
        idx < k ==> count_unvisited(v.update(idx, true), k) == count_unvisited(v, k) - 1,
        idx >= k ==> count_unvisited(v.update(idx, true), k) == count_unvisited(v, k),
    decreases k,
{
    if k > 0 {
        lemma_count_unvisited_update(v, idx, k - 1);
    }
}

/// After marking the popped state `s` visited, the visited set stays closed
/// under epsilon edges, provided the new worklist still holds the rest of
/// the old one and every epsilon successor of `s`.
proof fn lemma_closed_after_visit(
    nfa: NFA,
    visited0: Seq<bool>,
    work0: Seq<usize>,
    work1: Seq<usize>,
    s: usize,
)
    requires
        nfa.wf(),
        visited0.len() == nfa.states@.len(),
        (s as int) < nfa.states@.len(),
        work0.len() > 0,
        work0.last() == s,
        forall|a: usize, b: usize|
            (a as int) < visited0.len() && visited0[a as int] && #[trigger] eps_edge(nfa, a, b)
                ==> ((b as int) < visited0.len() && (visited0[b as int] || work0.contains(b))),
        forall|idx: int| 0 <= idx < work0.len() - 1 ==> work1.contains(#[trigger] work0[idx]),
        forall|b: usize| #[trigger] eps_edge(nfa, s, b) ==> work1.contains(b),
    ensures
        forall|a: usize, b: usize|
            (a as int) < visited0.len() && visited0.update(s as int, true)[a as int]
                && #[trigger] eps_edge(nfa, a, b) ==> ((b as int) < visited0.len() && (
            visited0.update(s as int, true)[b as int] || work1.contains(b))),
{
    let visited1 = visited0.update(s as int, true);
    assert forall|a: usize, b: usize|
        (a as int) < visited0.len() && visited1[a as int] && #[trigger] eps_edge(
        nfa,
        a,
        b,
    ) implies ((b as int) < visited0.len() && (visited1[b as int] || work1.contains(b))) by {
        if a == s {
            assert(eps_edge(nfa, s, b));
            assert(nfa.states@[s as int].out1 == Some(b) || nfa.states@[s as int].out2 == Some(
                b,
            ));
            assert((b as int) < nfa.states@.len());
            assert(work1.contains(b));
        } else {
            assert(visited0[a as int]);
            assert((b as int) < visited0.len() && (visited0[b as int] || work0.contains(b)));
            if !visited0[b as int] && b != s {
                let idx = choose|idx: int| 0 <= idx < work0.len() && work0[idx] == b;
                assert(idx < work0.len() - 1);
                assert(work1.contains(work0[idx]));
            }
        }
    }
}

/// After a pop that leaves the popped state visited, every state of `init`
/// is still visited or pending.
proof fn lemma_coverage_after_pop(
    init: Seq<usize>,
    visited0: Seq<bool>,
    visited1: Seq<bool>,
    work0: Seq<usize>,
    work1: Seq<usize>,
    s: usize,
)
    requires
        work0.len() > 0,
        work0.last() == s,
        visited1.len() == visited0.len(),
        forall|x: int| 0 <= x < visited0.len() && visited0[x] ==> visited1[x],
        (s as int) < visited1.len(),
        visited1[s as int],
        forall|idx: int| 0 <= idx < work0.len() - 1 ==> work1.contains(#[trigger] work0[idx]),
        forall|idx: int|
            0 <= idx < init.len() ==> ((#[trigger] init[idx] as int) < visited0.len() && (
            visited0[init[idx] as int] || work0.contains(init[idx]))),
    ensures
        forall|idx: int|
            0 <= idx < init.len() ==> ((#[trigger] init[idx] as int) < visited1.len() && (
            visited1[init[idx] as int] || work1.contains(init[idx]))),
{
    assert forall|idx: int|
        0 <= idx < init.len() implies ((#[trigger] init[idx] as int) < visited1.len() && (
    visited1[init[idx] as int] || work1.contains(init[idx]))) by {
        let x = init[idx];
        if !visited0[x as int] {
            let widx = choose|widx: int| 0 <= widx < work0.len() && work0[widx] == x;
            if widx == work0.len() - 1 {
                assert(x == s);
            } else {
                assert(work1.contains(work0[widx]));
            }
        }
    }
}

/// What the closure computation maintains: the pending and the visited
/// states are reachable from `init`; `saw` records whether the accept state
/// was visited; the visited set is closed under epsilon edges up to the
/// pending `work`; and every state of `init` is visited or pending.
pub open spec fn closure_inv(
    nfa: NFA,
    init: Seq<usize>,
    visited: Seq<bool>,
    work: Seq<usize>,
    saw: bool,
) -> bool {
    let n = nfa.states@.len();
    &&& visited.len() == n
    &&& (forall|idx: int|
        0 <= idx < work.len() ==> (#[trigger] work[idx] as int) < n && reaches_from(
            nfa,
            init,
            work[idx],
        ))
    &&& (forall|x: usize|
        (x as int) < n && #[trigger] visited[x as int] ==> reaches_from(nfa, init, x))
    &&& (saw <==> ((nfa.accept as int) < n && visited[nfa.accept as int]))
    &&& (forall|a: usize, b: usize|
        (a as int) < n && visited[a as int] && #[trigger] eps_edge(nfa, a, b) ==> ((b as int) < n
            && (visited[b as int] || work.contains(b))))
    &&& (forall|idx: int|
        0 <= idx < init.len() ==> ((#[trigger] init[idx] as int) < n && (visited[init[idx] as int]
            || work.contains(init[idx]))))
}

/// One worklist step of the closure computation: pop a pending state and,
/// if it has not been processed yet, mark it visited and queue its epsilon
/// successors.  Keeps `closure_inv` and shrinks the pair (count of
/// unvisited states, worklist length) lexicographically.
#[verifier::rlimit(100)]
fn closure_step(
    nfa: &NFA,
    Ghost(init): Ghost<Seq<usize>>,
    visited: &mut Vec<bool>,
    work: &mut Vec<usize>,
    saw_accept: &mut bool,
)
    requires
        nfa.wf(),
        old(work)@.len() > 0,
        closure_inv(*nfa, init, old(visited)@, old(work)@, *old(saw_accept)),
    ensures
        closure_inv(*nfa, init, final(visited)@, final(work)@, *final(saw_accept)),
        count_unvisited(final(visited)@, nfa.states@.len() as int) <= count_unvisited(
            old(visited)@,
            nfa.states@.len() as int,
        ),
        count_unvisited(final(visited)@, nfa.states@.len() as int) == count_unvisited(
            old(visited)@,
            nfa.states@.len() as int,
        ) ==> final(work)@.len() < old(work)@.len(),
{
    let ghost n: int = nfa.states@.len() as int;
    let ghost work0 = work@;
    let ghost visited0 = visited@;
    let s = work[work.len() - 1];
    work.pop();
    proof {
        assert(work0.last() == s);
        assert(work@ =~= work0.drop_last());
        assert forall|idx: int| 0 <= idx < work0.len() - 1 implies work@.contains(
            #[trigger] work0[idx],
        ) by {
            assert(work@[idx] == work0[idx]);
        }
    }
    if !visited[s] {
        visited[s] = true;
        proof {
            lemma_count_unvisited_update(visited0, s as int, n);
            assert forall|x: usize|
                (x as int) < n && #[trigger] visited@[x as int] implies reaches_from(
                *nfa,
                init,
                x,
            ) by {
                if x != s {
                    assert(visited0[x as int]);
                }
            }
        }
        if s == nfa.accept {
            *saw_accept = true;
        }
        let is_eps = matches!(nfa.states[s].transition, Transition::Epsilon);
        if is_eps {
            let st = nfa.states[s];
            let ghost work_mid = work@;
            match st.out1 {
                Some(t) => {
                    work.push(t);
                    proof {
                        assert(eps_edge(*nfa, s, t));
                        let w = choose|w: usize| init.contains(w) && eps_reaches(*nfa, w, s);
                        lemma_reach_extend(*nfa, w, s, t);
                    }
                },
                None => {},
            }
            match st.out2 {
                Some(t) => {
                    work.push(t);
                    proof {
                        assert(eps_edge(*nfa, s, t));
                        let w = choose|w: usize| init.contains(w) && eps_reaches(*nfa, w, s);
                        lemma_reach_extend(*nfa, w, s, t);
                    }
                },
                None => {},
            }
            proof {
                assert forall|idx: int| 0 <= idx < work0.len() - 1 implies work@.contains(
                    #[trigger] work0[idx],
                ) by {
                    assert(work@[idx] == work0[idx]);
                }
                assert forall|b: usize| #[trigger]
                    eps_edge(*nfa, s, b) implies work@.contains(b) by {
                    let m: int = work_mid.len() as int;
                    if st.out1 == Some(b) {
                        assert(work@[m] == b);
                    } else {
                        assert(st.out2 == Some(b));
                        if st.out1 is Some {
                            assert(work@[m + 1] == b);
                        } else {
                            assert(work@[m] == b);
                        }
                    }
                }
            }
        } else {
            proof {
                assert forall|b: usize| #[trigger]
                    eps_edge(*nfa, s, b) implies work@.contains(b) by {
                    assert(nfa.states@[s as int].transition is Epsilon);
                }
            }
        }
        proof {
            lemma_closed_after_visit(*nfa, visited0, work0, work@, s);
            assert(visited@ == visited0.update(s as int, true));
            lemma_coverage_after_pop(init, visited0, visited@, work0, work@, s);
        }
    } else {
        proof {
            lemma_count_unvisited_nonneg(visited@, n);
            lemma_coverage_after_pop(init, visited0, visited@, work0, work@, s);
            assert forall|a: usize, b: usize|
                (a as int) < n && visited@[a as int] && #[trigger] eps_edge(
                *nfa,
                a,
                b,
            ) implies ((b as int) < n && (visited@[b as int] || work@.contains(b))) by {
                assert(visited0[b as int] || work0.contains(b));
                if !visited0[b as int] {
                    let idx = choose|idx: int| 0 <= idx < work0.len() && work0[idx] == b;
                    if idx == work0.len() - 1 {
                        assert(b == s);
                    } else {
                        assert(work@.contains(work0[idx]));
                    }
                }
            }
        }
    }
}

/// Iterative epsilon-closure with an explicit worklist and a visited set
/// keyed by state index, so each state is processed at most once even on
/// the cyclic epsilon graphs that `Star` builds.  Collects every character
/// state reachable from the given states without consuming input, and
/// reports whether the accept state is so reachable.
#[verifier::rlimit(100)]
pub fn follow_epsilons(nfa: &NFA, init: &Vec<usize>) -> (r: (Vec<usize>, bool))
    requires
        nfa.wf(),
        forall|k: int| 0 <= k < init@.len() ==> (#[trigger] init@[k] as int) < nfa.states@.len(),
    ensures
        forall|x: usize|
            #[trigger] r.0@.contains(x) <==> ((x as int) < nfa.states@.len()
                && nfa.states@[x as int].transition is Character && reaches_from(*nfa, init@, x)),
        r.1 <==> reaches_from(*nfa, init@, nfa.accept),
{
    let n = nfa.states.len();
    let mut visited: Vec<bool> = Vec::new();
    while visited.len() < n
        invariant
            visited@.len() <= n,
            forall|x: int| 0 <= x < visited@.len() ==> !visited@[x],
        decreases n - visited@.len(),
    {
        visited.push(false);
    }
    let mut saw_accept = false;
    let mut work: Vec<usize> = Vec::new();
    let mut k: usize = 0;
    while k < init.len()
        invariant
            k <= init@.len(),
            work@ == init@.take(k as int),
        decreases init@.len() - k,
    {
        work.push(init[k]);
        proof {
            assert(init@.take(k + 1) =~= init@.take(k as int).push(init@[k as int]));
        }
        k = k + 1;
    }
    proof {
        assert(init@.take(init@.len() as int) =~= init@);
        assert forall|idx: int| 0 <= idx < work@.len() implies ((#[trigger] work@[idx] as int) < n
            && reaches_from(*nfa, init@, work@[idx])) by {
            lemma_reach_refl(*nfa, work@[idx]);
            assert(init@[idx] == work@[idx]);
            assert(init@.contains(work@[idx]));
        }
        assert forall|idx: int| 0 <= idx < init@.len() implies work@.contains(
            #[trigger] init@[idx],
        ) by {
            assert(work@[idx] == init@[idx]);
        }
    }
    while work.len() > 0
        invariant
            nfa.wf(),
            n == nfa.states@.len(),
            closure_inv(*nfa, init@, visited@, work@, saw_accept),
        decreases count_unvisited(visited@, n as int), work@.len(),
    {
        proof {
            lemma_count_unvisited_nonneg(visited@, n as int);
        }
        closure_step(nfa, Ghost(init@), &mut visited, &mut work, &mut saw_accept);
        proof {
            lemma_count_unvisited_nonneg(visited@, n as int);
        }
    }
    let mut out: Vec<usize> = Vec::new();
    let mut x: usize = 0;
    while x < n
        invariant
            x <= n,
            n == nfa.states@.len(),
            visited@.len() == n,
            forall|y: usize|
                #[trigger] out@.contains(y) <==> ((y as int) < x && visited@[y as int]
                    && nfa.states@[y as int].transition is Character),
        decreases n - x,
    {
        let ghost out0 = out@;
        let mut take = false;
        if visited[x] {
            take = matches!(nfa.states[x].transition, Transition::Character(_));
        }
        if take {
            out.push(x);
        }
        proof {
            assert forall|y: usize|
                #[trigger] out@.contains(y) implies ((y as int) < x + 1 && visited@[y as int]
                && nfa.states@[y as int].transition is Character) by {
                let idx = choose|idx: int| 0 <= idx < out@.len() && out@[idx] == y;
                if idx < out0.len() {
                    assert(out0.contains(y));
                }
            }
            assert forall|y: usize|
                ((y as int) < x + 1 && visited@[y as int]
                    && nfa.states@[y as int].transition is Character) implies #[trigger]
            out@.contains(y) by {
                if (y as int) < x {
                    assert(out0.contains(y));
                    let idx = choose|idx: int| 0 <= idx < out0.len() && out0[idx] == y;
                    assert(out@[idx] == y);
                } else {
                    assert(y as int == x);
                    assert(out@.last() == y);
                }
            }
        }
        x = x + 1;
    }
    proof {
        assert forall|y: usize|
            reaches_from(*nfa, init@, y) && (y as int) < n implies visited@[y as int] by {
            let s = choose|s: usize| init@.contains(s) && eps_reaches(*nfa, s, y);
            let idx = choose|idx: int| 0 <= idx < init@.len() && init@[idx] == s;
            assert(visited@[s as int]);
            let p = choose|p: Seq<usize>| is_eps_path(*nfa, p) && p.first() == s && p.last() == y;
            lemma_closed_under_eps(*nfa, visited@, p);
        }
        assert forall|y: usize| reaches_from(*nfa, init@, y) implies (y as int) < n by {
            let s = choose|s: usize| init@.contains(s) && eps_reaches(*nfa, s, y);
            let p = choose|p: Seq<usize>| is_eps_path(*nfa, p) && p.first() == s && p.last() == y;
            let idx = choose|idx: int| 0 <= idx < init@.len() && init@[idx] == s;
            if p.len() == 1 {
                assert(y == s);
            } else {
                assert(eps_edge(*nfa, p[p.len() - 2], p[p.len() - 1]));
            }
        }
    }
    (out, saw_accept)
}


/// Stepping an empty active set yields an empty active set and no hit, for
/// every later position.
proof fn lemma_empty_forward(nfa: NFA, hay: Seq<char>, i: int, j: int, j2: int)
    requires
        i <= j < j2,
        active_at(nfa, hay, i, j) == Set::<usize>::empty(),
    ensures
        active_at(nfa, hay, i, j2) == Set::<usize>::empty(),
        !hit_at(nfa, hay, i, j2),
    decreases j2 - j,
{
    if j2 == j + 1 {
        assert(step_targets(nfa, active_at(nfa, hay, i, j), hay[j]) =~= Set::<usize>::empty());
        assert(active_at(nfa, hay, i, j2) =~= Set::<usize>::empty());
    } else {
        lemma_empty_forward(nfa, hay, i, j, j2 - 1);
        assert(step_targets(nfa, active_at(nfa, hay, i, j2 - 1), hay[j2 - 1])
            =~= Set::<usize>::empty());
        assert(active_at(nfa, hay, i, j2) =~= Set::<usize>::empty());
    }
}

/// A hit at `j` with no hit before it (from `j0` on) is the first hit.
proof fn lemma_first_hit_found(nfa: NFA, hay: Seq<char>, i: int, j0: int, j: int)
    requires
        i < j0 <= j <= hay.len(),
        hit_at(nfa, hay, i, j),
        forall|j2: int| j0 <= j2 < j ==> !hit_at(nfa, hay, i, j2),
    ensures
        first_hit_from(nfa, hay, i, j0) == Some(j),
    decreases j - j0,
{
    if j0 < j {
        lemma_first_hit_found(nfa, hay, i, j0 + 1, j);
    }
}

/// No hit anywhere from `j0` to the end of the haystack means no first hit.
proof fn lemma_no_hit(nfa: NFA, hay: Seq<char>, i: int, j0: int)
    requires
        i < j0,
        forall|j2: int| j0 <= j2 <= hay.len() ==> !hit_at(nfa, hay, i, j2),
    ensures
        first_hit_from(nfa, hay, i, j0) is None,
    decreases hay.len() + 1 - j0,
{
    if j0 <= hay.len() {
        lemma_no_hit(nfa, hay, i, j0 + 1);
    }
}

/// A vector whose element membership matches `exists an index of curr whose
/// state consumes ch towards x` holds, as a set, exactly the step targets
/// of curr's element set.
proof fn lemma_step_set(nfa: NFA, curr: Seq<usize>, ch: char, next: Seq<usize>)
    requires
        forall|x: usize|
            #[trigger] next.contains(x) <==> (exists|idx: int|
                0 <= idx < curr.len() && step_match(nfa, curr[idx], ch, x)),
    ensures
        seq_set(next) == step_targets(nfa, seq_set(curr), ch),
{
    assert forall|x: usize|
        seq_set(next).contains(x) <==> step_targets(nfa, seq_set(curr), ch).contains(x) by {
        if seq_set(next).contains(x) {
            let idx = choose|idx: int| 0 <= idx < curr.len() && step_match(nfa, curr[idx], ch, x);
            assert(curr.contains(curr[idx]));
            assert(seq_set(curr).contains(curr[idx]));
        }
        if step_targets(nfa, seq_set(curr), ch).contains(x) {
            let s = choose|s: usize| seq_set(curr).contains(s) && step_match(nfa, s, ch, x);
            let idx = choose|idx: int| 0 <= idx < curr.len() && curr[idx] == s;
            assert(step_match(nfa, curr[idx], ch, x));
        }
    }
    assert(seq_set(next) =~= step_targets(nfa, seq_set(curr), ch));
}

/// What `follow_epsilons` returns, read at the set level: its vector holds
/// exactly the character closure of the given states, and its flag says
/// whether their closure sees the accept state.
proof fn lemma_closure_bridge(nfa: NFA, init: Seq<usize>, outseq: Seq<usize>, saw: bool)
    requires
        forall|x: usize|
            #[trigger] outseq.contains(x) <==> ((x as int) < nfa.states@.len()
                && nfa.states@[x as int].transition is Character && reaches_from(nfa, init, x)),
        saw <==> reaches_from(nfa, init, nfa.accept),
    ensures
        seq_set(outseq) == char_closure(nfa, seq_set(init)),
        saw <==> sees_accept(nfa, seq_set(init)),
{
    assert forall|x: usize|
        seq_set(outseq).contains(x) <==> char_closure(nfa, seq_set(init)).contains(x) by {
        if seq_set(outseq).contains(x) {
            let s = choose|s: usize| init.contains(s) && eps_reaches(nfa, s, x);
            assert(seq_set(init).contains(s));
        }
        if char_closure(nfa, seq_set(init)).contains(x) {
            let s = choose|s: usize| seq_set(init).contains(s) && eps_reaches(nfa, s, x);
            assert(init.contains(s));
            assert(reaches_from(nfa, init, x));
        }
    }
    assert(seq_set(outseq) =~= char_closure(nfa, seq_set(init)));
    if saw {
        let s = choose|s: usize| init.contains(s) && eps_reaches(nfa, s, nfa.accept);
        assert(seq_set(init).contains(s));
    }
    if sees_accept(nfa, seq_set(init)) {
        let s = choose|s: usize| seq_set(init).contains(s) && eps_reaches(nfa, s, nfa.accept);
        assert(init.contains(s));
        assert(reaches_from(nfa, init, nfa.accept));
    }
}

/// One consuming step of the simulation: every active state whose label is
/// `ch` contributes its outgoing edge's target.
fn step_once(nfa: &NFA, curr: &Vec<usize>, ch: char) -> (next: Vec<usize>)
    requires
        nfa.wf(),
        forall|idx: int|
            0 <= idx < curr@.len() ==> (#[trigger] curr@[idx] as int) < nfa.states@.len(),
    ensures
        forall|x: usize|
            #[trigger] next@.contains(x) <==> (exists|idx: int|
                0 <= idx < curr@.len() && step_match(*nfa, curr@[idx], ch, x)),
        forall|idx: int|
            0 <= idx < next@.len() ==> (#[trigger] next@[idx] as int) < nfa.states@.len(),
{
    let mut next: Vec<usize> = Vec::new();
    let mut k: usize = 0;
    while k < curr.len()
        invariant
            nfa.wf(),
            k <= curr@.len(),
            forall|idx: int|
                0 <= idx < curr@.len() ==> (#[trigger] curr@[idx] as int) < nfa.states@.len(),
            forall|x: usize|
                #[trigger] next@.contains(x) <==> (exists|idx: int|
                    0 <= idx < k && step_match(*nfa, curr@[idx], ch, x)),
            forall|idx: int|
                0 <= idx < next@.len() ==> (#[trigger] next@[idx] as int) < nfa.states@.len(),
        decreases curr@.len() - k,
    {
        let ghost next0 = next@;
        let s = curr[k];
        let matched = match nfa.states[s].transition {
            Transition::Character(c) => c == ch,
            Transition::Epsilon => false,
        };
        if matched {
            match nfa.states[s].out1 {
                Some(t) => {
                    next.push(t);
                    proof {
                        assert(step_match(*nfa, s, ch, t));
                    }
                },
                None => {},
            }
        }
        proof {
            assert forall|x: usize| #[trigger]
                next@.contains(x) implies (exists|idx: int|
                0 <= idx < k + 1 && step_match(*nfa, curr@[idx], ch, x)) by {
                let w = choose|w: int| 0 <= w < next@.len() && next@[w] == x;
                if w < next0.len() {
                    assert(next0.contains(x));
                } else {
                    assert(x == next@.last());
                    assert(step_match(*nfa, curr@[k as int], ch, x));
                }
            }
            assert forall|x: usize|
                (exists|idx: int| 0 <= idx < k + 1 && step_match(*nfa, curr@[idx], ch, x))
                    implies #[trigger] next@.contains(x) by {
                let idx = choose|idx: int| 0 <= idx < k + 1 && step_match(*nfa, curr@[idx], ch, x);
                if idx < k {
                    assert(next0.contains(x));
                    let w = choose|w: int| 0 <= w < next0.len() && next0[w] == x;
                    assert(next@[w] == x);
                } else {
                    assert(step_match(*nfa, s, ch, x));
                    assert(next@.last() == x);
                }
            }
        }
        k = k + 1;
    }
    next
}

/// Unanchored search: try each starting offset in ascending order, and for
/// each, simulate the automaton over the rest of the haystack, returning
/// the instant any path reaches the accept state.  The result is the
/// leftmost starting offset that admits a completion, and the shortest
/// completion from that offset; offsets are character positions.  A match
/// consumes at least one character: zero-length completions are never
/// reported.
#[verifier::rlimit(100)]
pub fn match_pattern(haystack: &str, nfa: &NFA) -> (r: Option<Match>)
    requires
        nfa.wf(),
    ensures
        r matches Some(m) ==> spec_find(*nfa, haystack@) == Some((m.start as int, m.end as int))
            && m.text@ == haystack@.subrange(m.start as int, m.end as int),
        r is None ==> spec_find(*nfa, haystack@) is None,
{
    let hay = str_chars(haystack);
    let n = hay.len();
    let mut i: usize = 0;
    while i < n
        invariant
            nfa.wf(),
            i <= n,
            n == haystack@.len(),
            hay@ == haystack@,
            spec_find(*nfa, haystack@) == first_match_from(*nfa, haystack@, i as int),
        decreases n - i,
    {
        let mut init: Vec<usize> = Vec::new();
        init.push(nfa.start);
        let r0 = follow_epsilons(nfa, &init);
        let mut curr = r0.0;
        proof {
            lemma_closure_bridge(*nfa, init@, curr@, r0.1);
            assert forall|idx: int| 0 <= idx < curr@.len() implies ((#[trigger] curr@[idx] as int)
                < nfa.states@.len()) by {
                assert(curr@.contains(curr@[idx]));
            }
            assert(init@ =~= seq![nfa.start]);
            assert(seq_set(curr@) == active_at(*nfa, haystack@, i as int, i as int));
        }
        let mut j = i;
        while j < n && curr.len() > 0
            invariant
                nfa.wf(),
                n == haystack@.len(),
                hay@ == haystack@,
                i <= j <= n,
                i < n,
                seq_set(curr@) == active_at(*nfa, haystack@, i as int, j as int),
                forall|idx: int|
                    0 <= idx < curr@.len() ==> (#[trigger] curr@[idx] as int)
                        < nfa.states@.len(),
                forall|j2: int| i < j2 <= j ==> !hit_at(*nfa, haystack@, i as int, j2),
                spec_find(*nfa, haystack@) == first_match_from(*nfa, haystack@, i as int),
            decreases n - j,
        {
            let ch = hay[j];
            let next = step_once(nfa, &curr, ch);
            proof {
                lemma_step_set(*nfa, curr@, ch, next@);
            }
            let r1 = follow_epsilons(nfa, &next);
            curr = r1.0;
            proof {
                lemma_closure_bridge(*nfa, next@, curr@, r1.1);
                assert forall|idx: int| 0 <= idx < curr@.len() implies ((
                #[trigger] curr@[idx] as int) < nfa.states@.len()) by {
                    assert(curr@.contains(curr@[idx]));
                }
                assert(seq_set(curr@) == active_at(*nfa, haystack@, i as int, j + 1));
                assert(r1.1 == hit_at(*nfa, haystack@, i as int, j + 1));
            }
            if r1.1 {
                proof {
                    lemma_first_hit_found(*nfa, haystack@, i as int, i + 1, j + 1);
                    assert(match_end_at(*nfa, haystack@, i as int) == Some(j + 1));
                    assert(first_match_from(*nfa, haystack@, i as int) == Some((i as int, j + 1)));
                }
                let text_slice = haystack.substring_char(i, j + 1);
                let text = text_slice.to_owned();
                return Some(Match { start: i, end: j + 1, text });
            }
            j = j + 1;
        }
        proof {
            if j < n {
                assert(curr@.len() == 0);
                assert(seq_set(curr@) =~= Set::<usize>::empty());
                assert forall|j2: int| j < j2 <= n implies !hit_at(
                    *nfa,
                    haystack@,
                    i as int,
                    j2,
                ) by {
                    lemma_empty_forward(*nfa, haystack@, i as int, j as int, j2);
                }
            }
            lemma_no_hit(*nfa, haystack@, i as int, i + 1);
            assert(match_end_at(*nfa, haystack@, i as int) is None);
            assert(first_match_from(*nfa, haystack@, i as int) == first_match_from(
                *nfa,
                haystack@,
                i + 1,
            ));
        }
        i = i + 1;
    }
    proof {
        assert(first_match_from(*nfa, haystack@, n as int) is None);
    }
    None
}


} // verus!
