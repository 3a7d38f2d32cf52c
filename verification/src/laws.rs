//! The quantified guarantees of the pipeline, each proved once and for all:
//! how partnered jump fields relate, idempotence of jump resolution, what a
//! source without commands compiles to, what running the empty program does,
//! and the shape of the code the optimizer emits for straight-line sources.

use crate::ir::{
    loop_balanced, loop_depth, prefix_ok, resolve, resolved, resolved_at, same_shape,
    lemma_append_flat, lemma_loop_depth_push, lemma_prefix_ok_drop_last, lemma_prefix_ok_push,
    lemma_resolve_congruence, lemma_resolve_resolved, Token,
};
use crate::machine::{init_mstate, run_spec, step, StepOutcome};
use crate::optimize::{
    compile_spec, flush_adds, idiom_tokens, init_state, opt_fold, src_balanced, src_depth,
    src_prefixes_ok, lemma_flush_adds_props, lemma_idiom_tokens_props, lemma_src_depth_take_succ,
};
use crate::pending::{lemma_bump_len, lemma_remove_len};
use vstd::prelude::*;

verus! {

/// Law: in a resolved program the two fields of a partnered
/// `LoopBegin`/`LoopEnd` pair sum to 2, and advancing by the field from
/// either partner lands one past the other.
pub proof fn lemma_partner_jumps(p: Seq<Token>, i: int)
    requires
        resolved(p),
        0 <= i < p.len(),
    ensures
        p[i] matches Token::LoopBegin(rel) ==> i + rel - 1 < p.len() && (p[i + rel - 1]
            matches Token::LoopEnd(back) && rel + back == 2 && (i + rel - 1) + back == i + 1),
        p[i] matches Token::LoopEnd(rel) ==> 0 <= i + rel - 1 && (p[i + rel - 1]
            matches Token::LoopBegin(fwd) && rel + fwd == 2 && (i + rel - 1) + fwd == i + 1),
{
    assert(resolved_at(p, i));
}

/// Law: the jump-resolution pass is idempotent: applied to its own output it
/// changes nothing.
pub proof fn lemma_resolve_idempotent(p: Seq<Token>)
    requires
        loop_balanced(p),
        p.len() <= 0x7fff_ffff,
    ensures
        resolve(resolve(p)) == resolve(p),
{
    lemma_resolve_resolved(p);
    lemma_resolve_congruence(p, resolve(p), p.len() as int);
}

/// One of the eight command characters.
pub open spec fn is_command(c: char) -> bool {
    c == '+' || c == '-' || c == '>' || c == '<' || c == '.' || c == ',' || c == '[' || c == ']'
}

proof fn lemma_fold_inert(s: Seq<char>)
    requires
        forall|i: int| 0 <= i < s.len() ==> !is_command(#[trigger] s[i]),
    ensures
        opt_fold(s) == init_state(),
        src_depth(s) == 0,
    decreases s.len(),
{
    if s.len() > 0 {
        assert(forall|i: int|
            0 <= i < s.drop_last().len() ==> !is_command(#[trigger] s.drop_last()[i]));
        lemma_fold_inert(s.drop_last());
        assert(!is_command(s[s.len() - 1]));
    }
}

/// Law: a source without command characters is accepted and compiles to the
/// one-instruction program `End`.
pub proof fn lemma_non_command_source(s: Seq<char>)
    requires
        forall|i: int| 0 <= i < s.len() ==> !is_command(#[trigger] s[i]),
    ensures
        src_balanced(s),
        compile_spec(s) == seq![Token::End],
{
    lemma_fold_inert(s);
    assert forall|i: int| 0 <= i <= s.len() implies src_depth(#[trigger] s.take(i)) >= 0 by {
        assert(forall|j: int| 0 <= j < s.take(i).len() ==> !is_command(#[trigger] s.take(i)[j]));
        lemma_fold_inert(s.take(i));
    }
    let q = seq![Token::End];
    assert(compile_spec(s) == resolve(q)) by {
        assert(init_state().out.push(Token::End) =~= q);
    }
    assert(resolve(q) =~= q) by {
        reveal_with_fuel(crate::ir::resolve_prefix, 3);
    }
}

/// One of the straight-line command characters: everything but I/O.
pub open spec fn simple_char(c: char) -> bool {
    c == '+' || c == '-' || c == '>' || c == '<' || c == '[' || c == ']'
}

/// No `Add` whose delta is zero.
pub open spec fn no_dead_add(p: Seq<Token>) -> bool {
    forall|i: int| 0 <= i < p.len() ==> !((#[trigger] p[i]) matches Token::Add(d, _) && d == 0)
}

/// No two `Shift` instructions side by side.
pub open spec fn no_shift_pair(p: Seq<Token>) -> bool {
    forall|i: int| 0 <= i && i + 1 < p.len() ==> !((#[trigger] p[i]) is Shift && p[i + 1] is Shift)
}

proof fn lemma_clean_push(a: Seq<Token>, t: Token)
    requires
        no_dead_add(a),
        no_shift_pair(a),
        !(t matches Token::Add(d, _) && d == 0),
        t is Shift ==> a.len() == 0 || !(a.last() is Shift),
    ensures
        no_dead_add(a.push(t)),
        no_shift_pair(a.push(t)),
{
}

proof fn lemma_clean_append(a: Seq<Token>, b: Seq<Token>)
    requires
        no_dead_add(a),
        no_shift_pair(a),
        forall|i: int|
            0 <= i < b.len() ==> (!((#[trigger] b[i]) is Shift) && !(b[i] matches Token::Add(
                d,
                _,
            ) && d == 0)),
    ensures
        no_dead_add(a + b),
        no_shift_pair(a + b),
        (a + b).len() > 0 && !(a.len() > 0 && a.last() is Shift) ==> !((a + b).last() is Shift),
{
    assert forall|i: int| 0 <= i && i + 1 < (a + b).len() implies !((#[trigger] (a + b)[i])
        is Shift && (a + b)[i + 1] is Shift) by {
        if i + 1 < a.len() {
            assert((a + b)[i] == a[i] && (a + b)[i + 1] == a[i + 1]);
        } else if i < a.len() {
            assert((a + b)[i + 1] == b[i + 1 - a.len()]);
        } else {
            assert((a + b)[i] == b[i - a.len()]);
        }
    }
}

proof fn lemma_clean_drop_last(a: Seq<Token>)
    requires
        no_dead_add(a),
        no_shift_pair(a),
        a.len() > 0,
    ensures
        no_dead_add(a.drop_last()),
        no_shift_pair(a.drop_last()),
{
}

/// The fold invariant behind the straight-line law: on a source of
/// `+ - > < [ ]` whose prefixes never close more than they opened, the sweep
/// never fails, tracks the source's bracket depth, keeps its output
/// bracket-consistent, emits no dead `Add`, never leaves two `Shift`s side by
/// side, and never ends on a `Shift`.
proof fn lemma_fold_clean(s: Seq<char>)
    requires
        forall|i: int| 0 <= i < s.len() ==> simple_char(#[trigger] s[i]),
        src_prefixes_ok(s),
    ensures
        ({
            let f = opt_fold(s);
            &&& !f.failed
            &&& f.depth == src_depth(s)
            &&& 0 <= f.begin <= f.out.len()
            &&& (f.depth > 0 && f.begin == f.out.len() ==> f.out.len() >= 1 && f.out.last()
                == Token::LoopBegin(0))
            &&& loop_depth(f.out) == f.depth
            &&& prefix_ok(f.out)
            &&& no_dead_add(f.out)
            &&& no_shift_pair(f.out)
            &&& (f.out.len() > 0 ==> !(f.out.last() is Shift))
            &&& f.out.len() + f.pending.len() <= 2 * s.len()
        }),
    decreases s.len(),
{
    if s.len() > 0 {
        let s0 = s.drop_last();
        let c = s.last();
        assert(forall|i: int| 0 <= i < s0.len() ==> simple_char(#[trigger] s0[i]));
        assert forall|i: int| 0 <= i <= s0.len() implies src_depth(#[trigger] s0.take(i)) >= 0 by {
            assert(s0.take(i) =~= s.take(i));
        }
        lemma_fold_clean(s0);
        lemma_src_depth_take_succ(s, s.len() - 1);
        assert(s.take(s.len() - 1) =~= s0);
        assert(s.take(s.len() as int) =~= s);
        let f0 = opt_fold(s0);
        let f = opt_fold(s);
        assert(simple_char(s[s.len() - 1]));
        if c == '+' || c == '-' {
            lemma_bump_len(f0.pending, f0.shift, if c == '+' { 1i16 } else { -1i16 });
        } else if c == '>' || c == '<' {
        } else if c == '[' {
            lemma_flush_adds_props(f0.pending);
            lemma_append_flat(f0.out, flush_adds(f0.pending));
            lemma_clean_append(f0.out, flush_adds(f0.pending));
            let out1 = f0.out + flush_adds(f0.pending);
            let out2 = if f0.shift != 0 {
                lemma_loop_depth_push(out1, Token::Shift(f0.shift));
                lemma_prefix_ok_push(out1, Token::Shift(f0.shift));
                lemma_clean_push(out1, Token::Shift(f0.shift));
                out1.push(Token::Shift(f0.shift))
            } else {
                out1
            };
            lemma_loop_depth_push(out2, Token::LoopBegin(0));
            lemma_prefix_ok_push(out2, Token::LoopBegin(0));
            lemma_clean_push(out2, Token::LoopBegin(0));
        } else {
            // `]`: the prefix through it stays non-negative, so a loop is
            // open and the sweep cannot fail here.
            assert(c == ']');
            assert(src_depth(s) >= 0);
            assert(f0.depth >= 1);
            if f0.out.len() == f0.begin && f0.shift == 0 && crate::pending::spec_get(
                f0.pending,
                0,
            ) == Some(-1i16) {
                // The idiom rewrite.
                assert(f0.out.len() >= 1 && f0.out.last() == Token::LoopBegin(0));
                lemma_prefix_ok_drop_last(f0.out);
                lemma_clean_drop_last(f0.out);
                let out1 = f0.out.drop_last();
                let popped = if out1.len() > 0 {
                    match out1.last() {
                        Token::Shift(v) => (out1.drop_last(), v),
                        _ => (out1, 0i32),
                    }
                } else {
                    (out1, 0i32)
                };
                if out1.len() > 0 && out1.last() is Shift {
                    lemma_prefix_ok_drop_last(out1);
                    lemma_clean_drop_last(out1);
                    if popped.0.len() > 0 && popped.0.last() is Shift {
                        // Two `Shift`s would have stood side by side.
                        assert(out1[out1.len() - 2] is Shift && out1[out1.len() - 1] is Shift);
                        assert(false);
                    }
                }
                let pend = crate::pending::spec_remove(f0.pending, 0);
                lemma_remove_len(f0.pending, 0);
                lemma_idiom_tokens_props(pend, popped.1);
                lemma_append_flat(popped.0, idiom_tokens(pend, popped.1));
                lemma_clean_append(popped.0, idiom_tokens(pend, popped.1));
                let out2 = popped.0 + idiom_tokens(pend, popped.1);
                lemma_loop_depth_push(out2, Token::Clear(popped.1));
                lemma_prefix_ok_push(out2, Token::Clear(popped.1));
                lemma_clean_push(out2, Token::Clear(popped.1));
                assert(out2.push(Token::Clear(popped.1)) =~= f.out);
            } else {
                lemma_flush_adds_props(f0.pending);
                lemma_append_flat(f0.out, flush_adds(f0.pending));
                lemma_clean_append(f0.out, flush_adds(f0.pending));
                let out1 = f0.out + flush_adds(f0.pending);
                let out2 = if f0.shift != 0 {
                    lemma_loop_depth_push(out1, Token::Shift(f0.shift));
                    lemma_prefix_ok_push(out1, Token::Shift(f0.shift));
                    lemma_clean_push(out1, Token::Shift(f0.shift));
                    out1.push(Token::Shift(f0.shift))
                } else {
                    out1
                };
                lemma_loop_depth_push(out2, Token::LoopEnd(0));
                lemma_prefix_ok_push(out2, Token::LoopEnd(0));
                lemma_clean_push(out2, Token::LoopEnd(0));
            }
        }
    }
}

/// Law: a balanced source of `+ - > < [ ]` alone compiles to a program with
/// no `Add` of zero and no two adjacent `Shift` instructions. (With `.` in
/// play this can fail: a write flushes its cell's pending delta even when
/// that delta is zero.)
pub proof fn lemma_simple_source_ir(s: Seq<char>)
    requires
        forall|i: int| 0 <= i < s.len() ==> simple_char(#[trigger] s[i]),
        src_balanced(s),
        s.len() <= 0x3fff_ffff,
    ensures
        no_dead_add(compile_spec(s)),
        no_shift_pair(compile_spec(s)),
{
    lemma_fold_clean(s);
    let f = opt_fold(s);
    let flat = f.out.push(Token::End);
    lemma_loop_depth_push(f.out, Token::End);
    lemma_prefix_ok_push(f.out, Token::End);
    lemma_clean_push(f.out, Token::End);
    lemma_resolve_resolved(flat);
    let q = compile_spec(s);
    assert(same_shape(flat, q));
    assert forall|i: int| 0 <= i < q.len() implies !((#[trigger] q[i]) matches Token::Add(d, _)
        && d == 0) by {
        match flat[i] {
            Token::LoopBegin(_) => assert(q[i] is LoopBegin),
            Token::LoopEnd(_) => assert(q[i] is LoopEnd),
            _ => assert(q[i] == flat[i]),
        }
    }
    assert forall|i: int| 0 <= i && i + 1 < q.len() implies !((#[trigger] q[i]) is Shift && q[i
        + 1] is Shift) by {
        assert(q[i] is Shift ==> flat[i] is Shift);
        assert(q[i + 1] is Shift ==> flat[i + 1] is Shift);
    }
}

/// Law: the empty program halts at once, on any input and any positive step
/// budget: no output, no input consumed, and a tape still all zero.
pub proof fn lemma_empty_program_run(input: Seq<u8>, fuel: nat)
    requires
        fuel >= 1,
    ensures
        run_spec(seq![Token::End], input, fuel) matches StepOutcome::Halted(m) && m
            == init_mstate(),
        init_mstate().out.len() == 0,
        init_mstate().read == 0,
        forall|i: int| 0 <= i < 65536 ==> init_mstate().tape[i] == 0u8,
{
    let p = seq![Token::End];
    assert(step(p, input, init_mstate()) == StepOutcome::Halted(init_mstate()));
}

} // verus!
