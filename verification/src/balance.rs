//! What it means for a sequence of characters to be correctly bracketed.
//!
//! The model is a stack machine: scanning left to right, an opening bracket
//! is pushed, a closing bracket must match the top of the stack and pops it,
//! and every other character is neutral. A sequence is balanced when the
//! machine runs through it from the empty stack without a mismatch and ends
//! on the empty stack again.

use vstd::prelude::*;

verus! {

/// One of the three opening bracket characters.
pub open spec fn is_open_bracket(c: char) -> bool {
    c == '(' || c == '[' || c == '{'
}

/// One of the three closing bracket characters.
pub open spec fn is_close_bracket(c: char) -> bool {
    c == ')' || c == ']' || c == '}'
}

/// Any character that is not one of the six bracket characters. Neutral
/// characters contribute length but no balance constraint.
pub open spec fn is_neutral(c: char) -> bool {
    !is_open_bracket(c) && !is_close_bracket(c)
}

/// The opening bracket of the same kind as a closing bracket.
pub open spec fn matching_open(c: char) -> char
    recommends
        is_close_bracket(c),
{
    if c == ')' {
        '('
    } else if c == ']' {
        '['
    } else {
        '{'
    }
}

/// Tells whether a character is an opening bracket.
pub fn open_bracket(c: char) -> (r: bool)
    ensures
        r == is_open_bracket(c),
{
    c == '(' || c == '[' || c == '{'
}

/// Tells whether a character is a closing bracket.
pub fn close_bracket(c: char) -> (r: bool)
    ensures
        r == is_close_bracket(c),
{
    c == ')' || c == ']' || c == '}'
}

/// The opening bracket of the same kind as a closing bracket.
pub fn opening_of(c: char) -> (r: char)
    requires
        is_close_bracket(c),
    ensures
        r == matching_open(c),
{
    if c == ')' {
        '('
    } else if c == ']' {
        '['
    } else {
        '{'
    }
}

/// Runs the stack machine one character: push an opening bracket, pop a
/// matching closing bracket, ignore a neutral character. `None` marks a
/// mismatch: a closing bracket against an empty stack or against an opening
/// bracket of another kind.
pub open spec fn step_stack(st: Seq<char>, c: char) -> Option<Seq<char>> {
    if is_open_bracket(c) {
        Some(st.push(c))
    } else if is_close_bracket(c) {
        if st.len() > 0 && st.last() == matching_open(c) {
            Some(st.drop_last())
        } else {
            None
        }
    } else {
        Some(st)
    }
}

/// Runs the stack machine over a whole sequence, starting from stack `st`.
pub open spec fn run_stack(t: Seq<char>, st: Seq<char>) -> Option<Seq<char>>
    decreases t.len(),
{
    if t.len() == 0 {
        Some(st)
    } else {
        match step_stack(st, t.first()) {
            Some(st2) => run_stack(t.drop_first(), st2),
            None => None,
        }
    }
}

/// A sequence is balanced when every closing bracket matches the most
/// recently unmatched opening bracket of the same kind and no opening
/// bracket is left unmatched.
pub open spec fn is_balanced(t: Seq<char>) -> bool {
    run_stack(t, Seq::empty()) == Some(Seq::<char>::empty())
}

/// Running the machine over a concatenation runs it over the parts in turn.
pub proof fn lemma_run_stack_append(a: Seq<char>, b: Seq<char>, st: Seq<char>)
    ensures
        run_stack(a + b, st) == (match run_stack(a, st) {
            Some(mid) => run_stack(b, mid),
            None => None,
        }),
    decreases a.len(),
{
    if a.len() == 0 {
        assert(a + b =~= b);
    } else {
        assert((a + b).first() == a.first());
        assert((a + b).drop_first() =~= a.drop_first() + b);
        match step_stack(st, a.first()) {
            Some(st2) => {
                lemma_run_stack_append(a.drop_first(), b, st2);
            },
            None => {},
        }
    }
}

/// A run over a single character is one step of the machine.
pub proof fn lemma_run_stack_single(c: char, st: Seq<char>)
    ensures
        run_stack(seq![c], st) == step_stack(st, c),
{
    assert(seq![c].first() == c);
    assert(seq![c].drop_first() =~= Seq::<char>::empty());
    match step_stack(st, c) {
        Some(m) => {
            assert(run_stack(Seq::<char>::empty(), m) == Some(m));
        },
        None => {},
    }
}

/// A run that succeeds never pops below its starting stack, so the same run
/// succeeds from any deeper stack and leaves the extra part untouched.
pub proof fn lemma_run_stack_frame(t: Seq<char>, st0: Seq<char>, st1: Seq<char>, st2: Seq<char>)
    requires
        run_stack(t, st1) == Some(st2),
    ensures
        run_stack(t, st0 + st1) == Some(st0 + st2),
    decreases t.len(),
{
    if t.len() == 0 {
        assert(st1 == st2);
    } else {
        let c = t.first();
        if is_open_bracket(c) {
            assert(st0 + st1.push(c) =~= (st0 + st1).push(c));
            lemma_run_stack_frame(t.drop_first(), st0, st1.push(c), st2);
        } else if is_close_bracket(c) {
            assert(st1.len() > 0 && st1.last() == matching_open(c));
            assert((st0 + st1).last() == st1.last());
            assert((st0 + st1).drop_last() =~= st0 + st1.drop_last());
            lemma_run_stack_frame(t.drop_first(), st0, st1.drop_last(), st2);
        } else {
            lemma_run_stack_frame(t.drop_first(), st0, st1, st2);
        }
    }
}

/// The empty sequence is balanced.
pub proof fn lemma_balanced_empty()
    ensures
        is_balanced(Seq::<char>::empty()),
{
}

/// Two balanced sequences side by side are balanced.
pub proof fn lemma_balanced_concat(a: Seq<char>, b: Seq<char>)
    requires
        is_balanced(a),
        is_balanced(b),
    ensures
        is_balanced(a + b),
{
    lemma_run_stack_append(a, b, Seq::empty());
}

/// A single neutral character is balanced.
pub proof fn lemma_balanced_neutral(c: char)
    requires
        is_neutral(c),
    ensures
        is_balanced(seq![c]),
{
    lemma_run_stack_single(c, Seq::empty());
}

/// Dropping a final neutral character keeps a balanced sequence balanced.
pub proof fn lemma_balanced_drop_neutral(t: Seq<char>)
    requires
        is_balanced(t),
        t.len() > 0,
        is_neutral(t.last()),
    ensures
        is_balanced(t.drop_last()),
{
    let e = Seq::<char>::empty();
    let c = t.last();
    assert(t =~= t.drop_last() + seq![c]);
    lemma_run_stack_append(t.drop_last(), seq![c], e);
    match run_stack(t.drop_last(), e) {
        Some(mid) => {
            lemma_run_stack_single(c, mid);
            assert(run_stack(seq![c], mid) == Some(mid));
        },
        None => {},
    }
}

/// A balanced nonempty sequence never ends in an opening bracket: the final
/// step would leave that bracket unmatched on the stack.
pub proof fn lemma_balanced_not_end_open(t: Seq<char>)
    requires
        is_balanced(t),
        t.len() > 0,
    ensures
        !is_open_bracket(t.last()),
{
    let e = Seq::<char>::empty();
    let c = t.last();
    if is_open_bracket(c) {
        assert(t =~= t.drop_last() + seq![c]);
        lemma_run_stack_append(t.drop_last(), seq![c], e);
        match run_stack(t.drop_last(), e) {
            Some(mid) => {
                lemma_run_stack_single(c, mid);
                assert(run_stack(seq![c], mid) == Some(mid.push(c)));
                assert(mid.push(c).len() > 0);
            },
            None => {},
        }
    }
}

/// Where a run from the empty stack ends on a nonempty stack, the bottom of
/// that stack was pushed at some position `q`: the part before `q` is
/// balanced, and the part after `q` runs from the empty stack to the rest of
/// the stack.
pub proof fn lemma_run_stack_bottom_split(u: Seq<char>, st: Seq<char>) -> (q: int)
    requires
        run_stack(u, Seq::empty()) == Some(st),
        st.len() >= 1,
    ensures
        0 <= q < u.len(),
        u[q] == st[0],
        is_open_bracket(st[0]),
        is_balanced(u.subrange(0, q)),
        run_stack(u.subrange(q + 1, u.len() as int), Seq::empty()) == Some(st.drop_first()),
    decreases u.len(),
{
    let e = Seq::<char>::empty();
    if u.len() == 0 {
        assert(run_stack(u, e) == Some(e));
        0
    } else {
        let c = u.last();
        let w = u.drop_last();
        assert(u =~= w + seq![c]);
        lemma_run_stack_append(w, seq![c], e);
        assert(run_stack(w, e) is Some);
        let st0 = run_stack(w, e).unwrap();
        lemma_run_stack_single(c, st0);
        assert(run_stack(seq![c], st0) == Some(st));
        if is_open_bracket(c) && st0.len() == 0 {
            let q = u.len() - 1;
            assert(st =~= e.push(c));
            assert(st0 =~= e);
            assert(u.subrange(0, q) =~= w);
            assert(u.subrange(q + 1, u.len() as int) =~= e);
            assert(st.drop_first() =~= e);
            q
        } else {
            // the bottom of the stack was already in place before `c`
            let st1 = if is_open_bracket(c) {
                st0.push(c)
            } else if is_close_bracket(c) {
                st0.drop_last()
            } else {
                st0
            };
            assert(st == st1);
            assert(st0.len() >= 1);
            assert(st0[0] == st[0]);
            let q = lemma_run_stack_bottom_split(w, st0);
            assert(u.subrange(0, q) =~= w.subrange(0, q));
            assert(u[q] == w[q]);
            let tail = w.subrange(q + 1, w.len() as int);
            assert(u.subrange(q + 1, u.len() as int) =~= tail + seq![c]);
            lemma_run_stack_append(tail, seq![c], e);
            let mid = st0.drop_first();
            assert(run_stack(tail, e) == Some(mid));
            lemma_run_stack_single(c, mid);
            if is_open_bracket(c) {
                assert(run_stack(seq![c], mid) == Some(mid.push(c)));
                assert(mid.push(c) =~= st.drop_first());
            } else if is_close_bracket(c) {
                assert(st0.len() >= 2);
                assert(mid.len() >= 1 && mid.last() == st0.last());
                assert(run_stack(seq![c], mid) == Some(mid.drop_last()));
                assert(mid.drop_last() =~= st.drop_first());
            } else {
                assert(run_stack(seq![c], mid) == Some(mid));
                assert(mid =~= st.drop_first());
            }
            q
        }
    }
}

/// A balanced sequence wrapped in a matched pair of brackets is balanced.
pub proof fn lemma_balanced_wrap(t: Seq<char>, o: char, c: char)
    requires
        is_balanced(t),
        is_close_bracket(c),
        o == matching_open(c),
    ensures
        is_balanced(seq![o] + t + seq![c]),
{
    let e = Seq::<char>::empty();
    assert(is_open_bracket(o));
    lemma_run_stack_single(o, e);
    assert(e.push(o) =~= seq![o]);
    assert(run_stack(seq![o], e) == Some(seq![o]));
    lemma_run_stack_frame(t, seq![o], e, e);
    assert(seq![o] + e =~= seq![o]);
    assert(run_stack(t, seq![o]) == Some(seq![o]));
    lemma_run_stack_single(c, seq![o]);
    assert(seq![o].last() == o);
    assert(seq![o].drop_last() =~= e);
    assert(run_stack(seq![c], seq![o]) == Some(e));
    lemma_run_stack_append(seq![o], t, e);
    lemma_run_stack_append(seq![o] + t, seq![c], e);
}

} // verus!
