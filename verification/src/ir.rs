//! The intermediate instruction set shared by the optimizer and the
//! interpreter, together with the predicates that say when a program of it is
//! well formed and the specification of the jump-resolution pass.

use vstd::prelude::*;

verus! {

/// One instruction of the intermediate form.
///
/// Offsets are relative to the current head position; `rel` fields of the two
/// loop instructions are relative instruction counts, applied in place of the
/// normal advance by one.
#[derive(Debug, Copy, Clone, PartialEq, Eq, Structural)]
pub enum Token {
    /// `tape[p + offset] += delta`, wrapping modulo 256.
    Add(i16, i32),
    /// `tape[p + dst] += factor * tape[p + src]`, wrapping modulo 256.
    Mul(i16, i32, i32),
    /// `tape[p + dst] += tape[p + src]`, wrapping modulo 256.
    AddTo(i32, i32),
    /// `tape[p + offset] = 0`.
    Clear(i32),
    /// `p += delta`.
    Shift(i32),
    /// If `tape[p] == 0`, advance the instruction index by `rel` instead of 1.
    LoopBegin(i32),
    /// If `tape[p] != 0`, advance the instruction index by `rel` instead of 1.
    LoopEnd(i32),
    /// Read one input byte into `tape[p + offset]`.
    Input(i32),
    /// Write `tape[p + offset]` to the output.
    Output(i32),
    /// Halt.
    End,
}

/// The bracket-nesting contribution of one instruction.
pub open spec fn loop_delta(t: Token) -> int {
    match t {
        Token::LoopBegin(_) => 1,
        Token::LoopEnd(_) => -1,
        _ => 0,
    }
}

/// Net bracket depth of a whole instruction sequence.
pub open spec fn loop_depth(p: Seq<Token>) -> int
    decreases p.len(),
{
    if p.len() == 0 {
        0
    } else {
        loop_depth(p.drop_last()) + loop_delta(p.last())
    }
}

/// No prefix closes more loops than it has opened.
pub open spec fn prefix_ok(p: Seq<Token>) -> bool {
    forall|i: int| 0 <= i <= p.len() ==> loop_depth(#[trigger] p.take(i)) >= 0
}

/// Every `LoopEnd` has an earlier partner and every `LoopBegin` a later one.
pub open spec fn loop_balanced(p: Seq<Token>) -> bool {
    prefix_ok(p) && loop_depth(p) == 0
}

/// The two loop instructions keep their kind; every other instruction is kept
/// verbatim. This is exactly what the jump-resolution pass preserves.
pub open spec fn same_shape(p: Seq<Token>, q: Seq<Token>) -> bool {
    &&& p.len() == q.len()
    &&& forall|i: int|
        0 <= i < p.len() ==> match #[trigger] p[i] {
            Token::LoopBegin(_) => q[i] is LoopBegin,
            Token::LoopEnd(_) => q[i] is LoopEnd,
            _ => q[i] == p[i],
        }
}

/// State of the jump-resolution pass after its first `n` instructions: the
/// rewritten output so far and the indices of the still-open `LoopBegin`s.
///
/// At a `LoopEnd` at index `j` whose partner sits at index `i`, the pass sets
/// the partner's field to `(j - i) + 1` and the `LoopEnd`'s own to
/// `1 - (j - i)`, so that advancing by the field from either lands one past
/// the other. A `LoopEnd` with no open partner is left as a placeholder; the
/// pass is only ever run on balanced sequences, where that does not occur.
pub open spec fn resolve_prefix(p: Seq<Token>, n: int) -> (Seq<Token>, Seq<int>)
    decreases n,
{
    if n <= 0 {
        (Seq::empty(), Seq::empty())
    } else {
        let (out, stack) = resolve_prefix(p, n - 1);
        match p[n - 1] {
            Token::LoopBegin(_) => (out.push(Token::LoopBegin(0)), stack.push(n - 1)),
            Token::LoopEnd(_) => {
                if stack.len() == 0 {
                    (out.push(Token::LoopEnd(0)), stack)
                } else {
                    let i = stack.last();
                    let d = (n - 1) - i;
                    (
                        out.update(i, Token::LoopBegin((d + 1) as i32)).push(
                            Token::LoopEnd((1 - d) as i32),
                        ),
                        stack.drop_last(),
                    )
                }
            },
            t => (out.push(t), stack),
        }
    }
}

/// The jump-resolution pass over a whole instruction sequence.
pub open spec fn resolve(p: Seq<Token>) -> Seq<Token> {
    resolve_prefix(p, p.len() as int).0
}

/// Jump fields are final: each loop instruction points just past a partner of
/// the opposite kind, and the two fields of a pair sum to 2.
pub open spec fn resolved(p: Seq<Token>) -> bool {
    forall|i: int| 0 <= i < p.len() ==> resolved_at(p, i)
}

/// The jump field at index `i`, if any, is consistent with its partner.
pub open spec fn resolved_at(p: Seq<Token>, i: int) -> bool {
    &&& (p[i] matches Token::LoopBegin(rel) ==> {
        &&& 2 <= rel
        &&& i + rel <= p.len()
        &&& (p[i + rel - 1] matches Token::LoopEnd(back) && rel + back == 2)
    })
    &&& (p[i] matches Token::LoopEnd(rel) ==> {
        &&& rel <= 0
        &&& 0 <= i + rel - 1
        &&& (p[i + rel - 1] matches Token::LoopBegin(fwd) && rel + fwd == 2)
    })
}

/// Appending one instruction adds its bracket contribution to the depth.
pub proof fn lemma_loop_depth_push(p: Seq<Token>, t: Token)
    ensures
        loop_depth(p.push(t)) == loop_depth(p) + loop_delta(t),
{
    assert(p.push(t).drop_last() =~= p);
}

/// Depth of one more instruction of a prefix.
pub proof fn lemma_loop_depth_take_succ(p: Seq<Token>, i: int)
    requires
        0 <= i < p.len(),
    ensures
        loop_depth(p.take(i + 1)) == loop_depth(p.take(i)) + loop_delta(p[i]),
{
    assert(p.take(i + 1).drop_last() =~= p.take(i));
    assert(p.take(i + 1).last() == p[i]);
}

/// Appending keeps all prefixes non-negative if the new depth is.
pub proof fn lemma_prefix_ok_push(p: Seq<Token>, t: Token)
    requires
        prefix_ok(p),
        loop_depth(p) + loop_delta(t) >= 0,
    ensures
        prefix_ok(p.push(t)),
{
    lemma_loop_depth_push(p, t);
    assert forall|i: int| 0 <= i <= p.push(t).len() implies loop_depth(
        #[trigger] p.push(t).take(i),
    ) >= 0 by {
        if i <= p.len() {
            assert(p.push(t).take(i) =~= p.take(i));
        } else {
            assert(p.push(t).take(i) =~= p.push(t));
        }
    }
}

/// Removing the last instruction keeps all prefixes non-negative.
pub proof fn lemma_prefix_ok_drop_last(p: Seq<Token>)
    requires
        prefix_ok(p),
        p.len() > 0,
    ensures
        prefix_ok(p.drop_last()),
        loop_depth(p.drop_last()) == loop_depth(p) - loop_delta(p.last()),
{
    assert forall|i: int| 0 <= i <= p.drop_last().len() implies loop_depth(
        #[trigger] p.drop_last().take(i),
    ) >= 0 by {
        assert(p.drop_last().take(i) =~= p.take(i));
    }
}

/// Appending instructions that open and close no loop leaves the depth alone
/// and keeps all prefixes non-negative.
pub proof fn lemma_append_flat(p: Seq<Token>, q: Seq<Token>)
    requires
        prefix_ok(p),
        forall|i: int| 0 <= i < q.len() ==> loop_delta(#[trigger] q[i]) == 0,
    ensures
        prefix_ok(p + q),
        loop_depth(p + q) == loop_depth(p),
    decreases q.len(),
{
    if q.len() == 0 {
        assert(p + q =~= p);
    } else {
        lemma_append_flat(p, q.drop_last());
        assert(p.take(p.len() as int) =~= p);
        assert(loop_depth(p) >= 0);
        assert(loop_delta(q[q.len() - 1]) == 0);
        lemma_loop_depth_push(p + q.drop_last(), q.last());
        lemma_prefix_ok_push(p + q.drop_last(), q.last());
        assert((p + q.drop_last()).push(q.last()) =~= p + q);
    }
}

/// What the jump-resolution pass has established after its first `n`
/// instructions: the output keeps every instruction's kind, the stack holds
/// the still-open `LoopBegin` positions in increasing order, and every
/// position off the stack already has its final, mutually consistent jump
/// field.
pub proof fn lemma_resolve_prefix_props(p: Seq<Token>, n: int)
    requires
        0 <= n <= p.len(),
        p.len() <= 0x7fff_ffff,
        forall|i: int| 0 <= i <= n ==> loop_depth(#[trigger] p.take(i)) >= 0,
    ensures
        ({
            let (out, stack) = resolve_prefix(p, n);
            &&& out.len() == n
            &&& stack.len() == loop_depth(p.take(n))
            &&& forall|a: int, b: int| 0 <= a < b < stack.len() ==> stack[a] < stack[b]
            &&& forall|q: int|
                0 <= q < stack.len() ==> 0 <= #[trigger] stack[q] < n && p[stack[q]] is LoopBegin
                    && out[stack[q]] == Token::LoopBegin(0)
            &&& forall|i: int|
                0 <= i < n ==> match #[trigger] p[i] {
                    Token::LoopBegin(_) => out[i] is LoopBegin,
                    Token::LoopEnd(_) => out[i] is LoopEnd,
                    _ => out[i] == p[i],
                }
            &&& forall|i: int| 0 <= i < n && !stack.contains(i) ==> resolved_at(out, i)
        }),
    decreases n,
{
    if n > 0 {
        lemma_resolve_prefix_props(p, n - 1);
        lemma_loop_depth_take_succ(p, n - 1);
        let (out0, stack0) = resolve_prefix(p, n - 1);
        let (out, stack) = resolve_prefix(p, n);
        match p[n - 1] {
            Token::LoopBegin(_) => {
                assert forall|i: int| 0 <= i < n && !stack.contains(i) implies resolved_at(
                    out,
                    i,
                ) by {
                    if i < n - 1 {
                        assert(!stack0.contains(i)) by {
                            if stack0.contains(i) {
                                let j = choose|j: int|
                                    0 <= j < stack0.len() && stack0[j] == i;
                                assert(stack[j] == i);
                            }
                        }
                        assert(resolved_at(out0, i));
                        assert(resolved_at(out, i));
                    } else {
                        assert(stack[stack.len() - 1] == i);
                    }
                }
            },
            Token::LoopEnd(_) => {
                // The depth of the prefix through this instruction is still
                // non-negative, so a partner is open.
                assert(loop_depth(p.take(n)) >= 0);
                assert(stack0.len() >= 1);
                let i0 = stack0.last();
                let d = (n - 1) - i0;
                assert(out0[i0] == Token::LoopBegin(0));
                assert(1 <= d < 0x7fff_ffff);
                assert(out == out0.update(i0, Token::LoopBegin((d + 1) as i32)).push(
                    Token::LoopEnd((1 - d) as i32),
                ));
                assert(stack == stack0.drop_last());
                // Entries still on the stack are all below the popped one.
                assert forall|q: int| 0 <= q < stack.len() implies 0 <= #[trigger] stack[q] < n
                    && p[stack[q]] is LoopBegin && out[stack[q]] == Token::LoopBegin(0) by {
                    assert(stack[q] == stack0[q]);
                    assert(stack0[q] < stack0[stack0.len() - 1]);
                }
                assert forall|i: int| 0 <= i < n && !stack.contains(i) implies resolved_at(
                    out,
                    i,
                ) by {
                    if i == i0 {
                        // The freshly closed pair.
                        assert(out[i0] == Token::LoopBegin((d + 1) as i32));
                        assert(out[i0 + (d + 1) - 1] == Token::LoopEnd((1 - d) as i32));
                    } else if i == n - 1 {
                        assert(out[n - 1] == Token::LoopEnd((1 - d) as i32));
                        assert(out[(n - 1) + (1 - d) - 1] == Token::LoopBegin((d + 1) as i32));
                    } else {
                        assert(!stack0.contains(i)) by {
                            if stack0.contains(i) {
                                let j = choose|j: int|
                                    0 <= j < stack0.len() && stack0[j] == i;
                                assert(j < stack0.len() - 1);
                                assert(stack[j] == i);
                            }
                        }
                        assert(resolved_at(out0, i));
                        // A settled field never points at the popped
                        // placeholder, which is a `LoopBegin(0)`, so the
                        // update leaves it consistent.
                        assert(resolved_at(out, i)) by {
                            match out0[i] {
                                Token::LoopBegin(rel) => {
                                    assert(out0[i + rel - 1] is LoopEnd);
                                    assert(i + rel - 1 != i0);
                                    assert(out[i] == out0[i]);
                                    assert(out[i + rel - 1] == out0[i + rel - 1]);
                                },
                                Token::LoopEnd(rel) => {
                                    assert(out0[i + rel - 1] matches Token::LoopBegin(fwd)
                                        && rel + fwd == 2);
                                    assert(i + rel - 1 != i0);
                                    assert(out[i] == out0[i]);
                                    assert(out[i + rel - 1] == out0[i + rel - 1]);
                                },
                                _ => {},
                            }
                        }
                    }
                }
            },
            _ => {
                assert forall|i: int| 0 <= i < n && !stack.contains(i) implies resolved_at(
                    out,
                    i,
                ) by {
                    if i < n - 1 {
                        assert(!stack0.contains(i)) by {
                            if stack0.contains(i) {
                                let j = choose|j: int|
                                    0 <= j < stack0.len() && stack0[j] == i;
                                assert(stack[j] == i);
                            }
                        }
                        assert(resolved_at(out0, i));
                        assert(resolved_at(out, i));
                    }
                }
            },
        }
    }
}

/// On a balanced sequence the pass yields final jump fields and keeps every
/// instruction's kind (and every non-loop instruction verbatim).
pub proof fn lemma_resolve_resolved(p: Seq<Token>)
    requires
        loop_balanced(p),
        p.len() <= 0x7fff_ffff,
    ensures
        resolve(p).len() == p.len(),
        resolved(resolve(p)),
        same_shape(p, resolve(p)),
{
    lemma_resolve_prefix_props(p, p.len() as int);
    let (out, stack) = resolve_prefix(p, p.len() as int);
    assert(p.take(p.len() as int) =~= p);
    assert(stack.len() == 0);
    assert forall|i: int| 0 <= i < out.len() implies resolved_at(out, i) by {
        assert(!stack.contains(i));
    }
}

/// The pass looks only at instruction kinds: on two sequences of the same
/// shape it does the same thing.
pub proof fn lemma_resolve_congruence(p: Seq<Token>, q: Seq<Token>, n: int)
    requires
        same_shape(p, q),
        0 <= n <= p.len(),
    ensures
        resolve_prefix(p, n) == resolve_prefix(q, n),
    decreases n,
{
    if n > 0 {
        lemma_resolve_congruence(p, q, n - 1);
    }
}

/// A complete program: it ends in its only `End`, is short enough for every
/// jump field to be representable, and has final jump fields.
pub open spec fn prog_wf(p: Seq<Token>) -> bool {
    &&& 1 <= p.len() <= 0x7fff_ffff
    &&& p.last() == Token::End
    &&& forall|i: int| 0 <= i < p.len() - 1 ==> #[trigger] p[i] != Token::End
    &&& resolved(p)
}

} // verus!
