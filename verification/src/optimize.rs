//! The front-end optimizer: one left-to-right sweep over the source
//! characters that coalesces runs of `+ - > <`, recognizes the
//! clear / move / multiply-add loop idiom, and rejects unbalanced brackets,
//! followed by the jump-resolution pass of [`crate::ir`].
//!
//! The sweep is specified by [`opt_fold`], a fold of [`opt_step`] over the
//! source; [`Interpreter::new`] returns exactly the program that
//! [`compile_spec`] names.

use crate::ir::{
    loop_balanced, loop_depth, prefix_ok, prog_wf, resolve, resolve_prefix, lemma_append_flat,
    lemma_loop_depth_push, lemma_loop_depth_take_succ, lemma_prefix_ok_drop_last,
    lemma_prefix_ok_push, lemma_resolve_prefix_props, lemma_resolve_resolved, Token,
};
use crate::pending::{spec_bump, spec_get, spec_remove, Entries, PendingMap};
use vstd::prelude::*;

verus! {

/// Why a source was rejected.
#[derive(Debug, Copy, Clone, PartialEq, Eq, Structural)]
pub enum CompileError {
    /// A `]` appeared with every earlier `[` already matched.
    UnmatchedOpeningBracket,
    /// The source ended with at least one `[` still open.
    UnmatchedClosingBracket,
}

/// The bracket contribution of one source character.
pub open spec fn char_delta(c: char) -> int {
    if c == '[' {
        1
    } else if c == ']' {
        -1
    } else {
        0
    }
}

/// Net bracket depth of a source fragment.
pub open spec fn src_depth(s: Seq<char>) -> int
    decreases s.len(),
{
    if s.len() == 0 {
        0
    } else {
        src_depth(s.drop_last()) + char_delta(s.last())
    }
}

/// No prefix of the source closes more brackets than it has opened.
pub open spec fn src_prefixes_ok(s: Seq<char>) -> bool {
    forall|i: int| 0 <= i <= s.len() ==> src_depth(#[trigger] s.take(i)) >= 0
}

/// The brackets of the source match up exactly.
pub open spec fn src_balanced(s: Seq<char>) -> bool {
    src_prefixes_ok(s) && src_depth(s) == 0
}

/// Depth of one more character of a prefix.
pub proof fn lemma_src_depth_take_succ(s: Seq<char>, i: int)
    requires
        0 <= i < s.len(),
    ensures
        src_depth(s.take(i + 1)) == src_depth(s.take(i)) + char_delta(s[i]),
{
    assert(s.take(i + 1).drop_last() =~= s.take(i));
    assert(s.take(i + 1).last() == s[i]);
}

/// The sweep's state after some prefix of the source.
pub struct OptState {
    /// Instructions committed so far.
    pub out: Seq<Token>,
    /// Count of still-open `[`.
    pub depth: int,
    /// Head movement not yet committed as a `Shift`.
    pub shift: i32,
    /// Accumulated cell deltas, keyed by offset from the committed head.
    pub pending: Entries,
    /// One past the index of the last committed `LoopBegin`, or 0 when the
    /// idiom detector is not armed.
    pub begin: int,
    /// A `]` closed more than was open.
    pub failed: bool,
}

/// The state in which the sweep starts.
pub open spec fn init_state() -> OptState {
    OptState {
        out: Seq::empty(),
        depth: 0,
        shift: 0,
        pending: Seq::empty(),
        begin: 0,
        failed: false,
    }
}

/// The pending deltas committed as `Add` instructions, zero deltas skipped,
/// in first-insertion order.
pub open spec fn flush_adds(p: Entries) -> Seq<Token>
    decreases p.len(),
{
    if p.len() == 0 {
        Seq::empty()
    } else {
        flush_adds(p.drop_last()) + (if p.last().1 == 0 {
            Seq::empty()
        } else {
            seq![Token::Add(p.last().1, p.last().0)]
        })
    }
}

/// The per-iteration deltas of a recognized multiply-add loop, committed as
/// scaled additions from the anchor cell at offset `sh`.
pub open spec fn idiom_tokens(p: Entries, sh: i32) -> Seq<Token>
    decreases p.len(),
{
    if p.len() == 0 {
        Seq::empty()
    } else {
        idiom_tokens(p.drop_last(), sh) + (if p.last().1 == 0 {
            Seq::empty()
        } else if p.last().1 == 1 {
            seq![Token::AddTo(p.last().0.wrapping_add(sh), sh)]
        } else {
            seq![Token::Mul(p.last().1, p.last().0.wrapping_add(sh), sh)]
        })
    }
}

/// One source character applied to the sweep's state.
pub open spec fn opt_step(st: OptState, c: char) -> OptState {
    if st.failed {
        st
    } else if c == '+' {
        OptState { pending: spec_bump(st.pending, st.shift, 1), ..st }
    } else if c == '-' {
        OptState { pending: spec_bump(st.pending, st.shift, -1i16), ..st }
    } else if c == '>' {
        OptState { shift: st.shift.wrapping_add(1), ..st }
    } else if c == '<' {
        OptState { shift: st.shift.wrapping_add(-1i32), ..st }
    } else if c == '.' {
        // The written cell must be up to date: flush its one pending delta.
        let out1 = match spec_get(st.pending, st.shift) {
            Some(d) => st.out.push(Token::Add(d, st.shift)),
            None => st.out,
        };
        OptState {
            out: out1.push(Token::Output(st.shift)),
            pending: spec_remove(st.pending, st.shift),
            ..st
        }
    } else if c == ',' {
        // The cell is about to be overwritten: its pending delta is dead.
        OptState {
            out: st.out.push(Token::Input(st.shift)),
            pending: spec_remove(st.pending, st.shift),
            ..st
        }
    } else if c == '[' {
        let out1 = st.out + flush_adds(st.pending);
        let out2 = if st.shift != 0 {
            out1.push(Token::Shift(st.shift))
        } else {
            out1
        };
        OptState {
            out: out2.push(Token::LoopBegin(0)),
            depth: st.depth + 1,
            shift: 0,
            pending: Seq::empty(),
            begin: out2.len() as int + 1,
            failed: false,
        }
    } else if c == ']' {
        if st.depth == 0 {
            OptState { failed: true, ..st }
        } else if st.out.len() == st.begin && st.shift == 0 && spec_get(st.pending, 0)
            == Some(-1i16) {
            // The loop body is a pure decrement-and-accumulate: rewrite it.
            // Pop the placeholder `LoopBegin`, and the `Shift` that recorded
            // the pre-loop residual movement, if one was committed.
            let out1 = st.out.drop_last();
            let popped = if out1.len() > 0 {
                match out1.last() {
                    Token::Shift(v) => (out1.drop_last(), v),
                    _ => (out1, 0i32),
                }
            } else {
                (out1, 0i32)
            };
            let pend = spec_remove(st.pending, 0);
            OptState {
                out: popped.0 + idiom_tokens(pend, popped.1) + seq![Token::Clear(popped.1)],
                depth: st.depth - 1,
                shift: popped.1,
                pending: Seq::empty(),
                begin: 0,
                failed: false,
            }
        } else {
            let out1 = st.out + flush_adds(st.pending);
            let out2 = if st.shift != 0 {
                out1.push(Token::Shift(st.shift))
            } else {
                out1
            };
            OptState {
                out: out2.push(Token::LoopEnd(0)),
                depth: st.depth - 1,
                shift: 0,
                pending: Seq::empty(),
                begin: st.begin,
                failed: false,
            }
        }
    } else {
        st
    }
}

/// The sweep over a whole source.
pub open spec fn opt_fold(s: Seq<char>) -> OptState
    decreases s.len(),
{
    if s.len() == 0 {
        init_state()
    } else {
        opt_step(opt_fold(s.drop_last()), s.last())
    }
}

/// A flush commits at most one instruction per pending entry, every one a
/// non-zero `Add`.
pub proof fn lemma_flush_adds_props(p: Entries)
    ensures
        flush_adds(p).len() <= p.len(),
        forall|i: int|
            0 <= i < flush_adds(p).len() ==> (#[trigger] flush_adds(p)[i] matches Token::Add(
                d,
                _,
            ) && d != 0),
    decreases p.len(),
{
    if p.len() > 0 {
        lemma_flush_adds_props(p.drop_last());
    }
}

/// An idiom rewrite commits at most one instruction per pending entry, every
/// one an `AddTo` or a `Mul` with a factor that is neither 0 nor 1.
pub proof fn lemma_idiom_tokens_props(p: Entries, sh: i32)
    ensures
        idiom_tokens(p, sh).len() <= p.len(),
        forall|i: int|
            0 <= i < idiom_tokens(p, sh).len() ==> ((#[trigger] idiom_tokens(p, sh)[i])
                is AddTo || (idiom_tokens(p, sh)[i] matches Token::Mul(d, _, _) && d != 0 && d
                != 1)),
    decreases p.len(),
{
    if p.len() > 0 {
        lemma_idiom_tokens_props(p.drop_last(), sh);
    }
}

/// Commit the pending deltas, in insertion order, as `Add` instructions.
fn flush_pending(inst: &mut Vec<Token>, pm: &PendingMap)
    ensures
        final(inst)@ == old(inst)@ + flush_adds(pm@),
{
    let m = pm.len();
    let mut idx: usize = 0;
    while idx < m
        invariant
            idx <= m,
            m == pm@.len(),
            inst@ == old(inst)@ + flush_adds(pm@.take(idx as int)),
        decreases m - idx,
    {
        let e = pm.entry(idx);
        proof {
            assert(pm@.take(idx as int + 1).drop_last() =~= pm@.take(idx as int));
            assert(pm@.take(idx as int + 1).last() == pm@[idx as int]);
        }
        if e.1 != 0 {
            inst.push(Token::Add(e.1, e.0));
        }
        proof {
            assert(inst@ =~= old(inst)@ + flush_adds(pm@.take(idx as int + 1)));
        }
        idx += 1;
    }
    proof {
        assert(pm@.take(m as int) =~= pm@);
    }
}

/// Commit the per-iteration deltas of a recognized multiply-add loop as
/// scaled additions from the anchor cell at offset `sh`.
fn emit_idiom(inst: &mut Vec<Token>, pm: &PendingMap, sh: i32)
    ensures
        final(inst)@ == old(inst)@ + idiom_tokens(pm@, sh),
{
    let m = pm.len();
    let mut idx: usize = 0;
    while idx < m
        invariant
            idx <= m,
            m == pm@.len(),
            inst@ == old(inst)@ + idiom_tokens(pm@.take(idx as int), sh),
        decreases m - idx,
    {
        let e = pm.entry(idx);
        proof {
            assert(pm@.take(idx as int + 1).drop_last() =~= pm@.take(idx as int));
            assert(pm@.take(idx as int + 1).last() == pm@[idx as int]);
        }
        if e.1 == 1 {
            inst.push(Token::AddTo(e.0.wrapping_add(sh), sh));
        } else if e.1 != 0 {
            inst.push(Token::Mul(e.1, e.0.wrapping_add(sh), sh));
        }
        proof {
            assert(inst@ =~= old(inst)@ + idiom_tokens(pm@.take(idx as int + 1), sh));
        }
        idx += 1;
    }
    proof {
        assert(pm@.take(m as int) =~= pm@);
    }
}

/// The program an accepted source compiles to: the sweep's output, closed by
/// `End`, with jumps resolved.
pub open spec fn compile_spec(s: Seq<char>) -> Seq<Token> {
    resolve(opt_fold(s).out.push(Token::End))
}

/// The sweep's state after the first `k` source characters.
pub open spec fn fold_at(s: Seq<char>, k: int) -> OptState {
    opt_fold(s.take(k))
}

/// A compiled program: an optimized, jump-resolved instruction sequence.
#[derive(Debug)]
pub struct Interpreter {
    inst: Vec<Token>,
}

impl View for Interpreter {
    type V = Seq<Token>;

    closed spec fn view(&self) -> Seq<Token> {
        self.inst@
    }
}

impl Interpreter {
    /// The program is complete: terminated by its only `End`, with final
    /// jump fields.
    pub open spec fn wf(&self) -> bool {
        prog_wf(self@)
    }

    /// Compile a source: one sweep of [`opt_step`] over the characters, the
    /// closing `End`, and the jump-resolution pass. Everything but the eight
    /// command characters is ignored. The result is exactly
    /// [`compile_spec`]`(stream@)`; a source whose brackets do not match up
    /// is rejected whole, with the error naming the missing bracket.
    ///
    /// The length bound keeps every relative jump representable in its
    /// signed 32-bit field.
    #[verifier::loop_isolation(false)]
    #[verifier::rlimit(100)]
    pub fn new(stream: &Vec<char>) -> (r: Result<Interpreter, CompileError>)
        requires
            stream@.len() <= 0x3fff_ffff,
        ensures
            r is Ok <==> src_balanced(stream@),
            match r {
                Ok(prog) => prog@ == compile_spec(stream@) && prog.wf(),
                Err(e) => e == (if !src_prefixes_ok(stream@) {
                    CompileError::UnmatchedOpeningBracket
                } else {
                    CompileError::UnmatchedClosingBracket
                }),
            },
    {
        let ghost s = stream@;
        let mut inst: Vec<Token> = Vec::new();
        let mut depth: usize = 0;
        let mut shift: i32 = 0;
        let mut begin: usize = 0;
        let mut pm = PendingMap::new();
        let mut k: usize = 0;
        while k < stream.len()
            invariant
                k <= s.len(),
                !fold_at(s, k as int).failed,
                inst@ == fold_at(s, k as int).out,
                depth as int == fold_at(s, k as int).depth,
                shift == fold_at(s, k as int).shift,
                pm@ == fold_at(s, k as int).pending,
                begin as int == fold_at(s, k as int).begin,
                begin <= inst@.len(),
                depth > 0 && begin == inst@.len() ==> inst@.len() >= 1 && inst@.last()
                    == Token::LoopBegin(0),
                loop_depth(inst@) == depth as int,
                prefix_ok(inst@),
                forall|i: int| 0 <= i < inst@.len() ==> #[trigger] inst@[i] != Token::End,
                inst@.len() + pm@.len() <= 2 * k,
                depth <= k,
                src_depth(s.take(k as int)) == depth as int,
                forall|i: int| 0 <= i <= k ==> src_depth(#[trigger] s.take(i)) >= 0,
            decreases s.len() - k,
        {
            let ghost fs = fold_at(s, k as int);
            proof {
                assert(s.take(k as int + 1).drop_last() =~= s.take(k as int));
                assert(s.take(k as int + 1).last() == s[k as int]);
                lemma_src_depth_take_succ(s, k as int);
            }
            let c = stream[k];
            if c == '+' {
                proof {
                    crate::pending::lemma_bump_len(fs.pending, shift, 1);
                }
                pm.bump(shift, 1);
            } else if c == '-' {
                proof {
                    crate::pending::lemma_bump_len(fs.pending, shift, -1i16);
                }
                pm.bump(shift, -1);
            } else if c == '>' {
                shift = shift.wrapping_add(1);
            } else if c == '<' {
                shift = shift.wrapping_add(-1);
            } else if c == '.' {
                match pm.get(shift) {
                    Some(d) => {
                        inst.push(Token::Add(d, shift));
                        proof {
                            lemma_loop_depth_push(fs.out, Token::Add(d, shift));
                            lemma_prefix_ok_push(fs.out, Token::Add(d, shift));
                        }
                    },
                    None => {},
                }
                pm.remove(shift);
                proof {
                    crate::pending::lemma_remove_len(fs.pending, shift);
                    lemma_loop_depth_push(inst@, Token::Output(shift));
                    lemma_prefix_ok_push(inst@, Token::Output(shift));
                }
                inst.push(Token::Output(shift));
            } else if c == ',' {
                pm.remove(shift);
                proof {
                    crate::pending::lemma_remove_len(fs.pending, shift);
                    lemma_loop_depth_push(inst@, Token::Input(shift));
                    lemma_prefix_ok_push(inst@, Token::Input(shift));
                }
                inst.push(Token::Input(shift));
            } else if c == '[' {
                flush_pending(&mut inst, &pm);
                pm.clear();
                proof {
                    lemma_flush_adds_props(fs.pending);
                    lemma_append_flat(fs.out, flush_adds(fs.pending));
                }
                if shift != 0 {
                    proof {
                        lemma_loop_depth_push(inst@, Token::Shift(shift));
                        lemma_prefix_ok_push(inst@, Token::Shift(shift));
                    }
                    inst.push(Token::Shift(shift));
                    shift = 0;
                }
                proof {
                    lemma_loop_depth_push(inst@, Token::LoopBegin(0));
                    lemma_prefix_ok_push(inst@, Token::LoopBegin(0));
                }
                inst.push(Token::LoopBegin(0));
                depth += 1;
                begin = inst.len();
            } else if c == ']' {
                if depth == 0 {
                    proof {
                        assert(src_depth(s.take(k as int + 1)) == -1);
                        assert(!src_prefixes_ok(s));
                    }
                    return Err(CompileError::UnmatchedOpeningBracket);
                }
                depth -= 1;
                let mut idiom = false;
                if inst.len() == begin && shift == 0 {
                    match pm.get(0) {
                        Some(d) => {
                            if d == -1 {
                                idiom = true;
                            }
                        },
                        None => {},
                    }
                }
                if idiom {
                    proof {
                        assert(inst@.len() >= 1 && inst@.last() == Token::LoopBegin(0));
                        lemma_prefix_ok_drop_last(inst@);
                    }
                    inst.pop();
                    let mut sh2: i32 = 0;
                    if inst.len() > 0 {
                        let last_t = inst[inst.len() - 1];
                        if let Token::Shift(v) = last_t {
                            sh2 = v;
                            proof {
                                lemma_prefix_ok_drop_last(inst@);
                            }
                            inst.pop();
                        }
                    }
                    pm.remove(0);
                    proof {
                        crate::pending::lemma_remove_len(fs.pending, 0);
                        lemma_idiom_tokens_props(pm@, sh2);
                        lemma_append_flat(inst@, idiom_tokens(pm@, sh2));
                    }
                    emit_idiom(&mut inst, &pm, sh2);
                    proof {
                        lemma_loop_depth_push(inst@, Token::Clear(sh2));
                        lemma_prefix_ok_push(inst@, Token::Clear(sh2));
                    }
                    inst.push(Token::Clear(sh2));
                    pm.clear();
                    shift = sh2;
                    begin = 0;
                    proof {
                        assert(inst@ =~= fold_at(s, k as int + 1).out);
                    }
                } else {
                    flush_pending(&mut inst, &pm);
                    pm.clear();
                    proof {
                        lemma_flush_adds_props(fs.pending);
                        lemma_append_flat(fs.out, flush_adds(fs.pending));
                    }
                    if shift != 0 {
                        proof {
                            lemma_loop_depth_push(inst@, Token::Shift(shift));
                            lemma_prefix_ok_push(inst@, Token::Shift(shift));
                        }
                        inst.push(Token::Shift(shift));
                        shift = 0;
                    }
                    proof {
                        lemma_loop_depth_push(inst@, Token::LoopEnd(0));
                        lemma_prefix_ok_push(inst@, Token::LoopEnd(0));
                    }
                    inst.push(Token::LoopEnd(0));
                }
            }
            k += 1;
        }
        proof {
            assert(s.take(s.len() as int) =~= s);
        }
        if depth > 0 {
            return Err(CompileError::UnmatchedClosingBracket);
        }
        proof {
            lemma_loop_depth_push(inst@, Token::End);
            lemma_prefix_ok_push(inst@, Token::End);
        }
        let ghost flat = inst@.push(Token::End);
        inst.push(Token::End);
        let prog = Interpreter { inst };
        proof {
            lemma_resolve_resolved(flat);
        }
        let prog = prog.build_jump_addr();
        proof {
            // The pass keeps every instruction's kind, so the single `End`
            // stays the single `End`.
            assert(prog@.len() == flat.len());
            assert(prog@.last() == Token::End);
            assert forall|i: int| 0 <= i < prog@.len() - 1 implies #[trigger] prog@[i]
                != Token::End by {
                assert(flat[i] != Token::End);
                match flat[i] {
                    Token::LoopBegin(_) => assert(prog@[i] is LoopBegin),
                    Token::LoopEnd(_) => assert(prog@[i] is LoopEnd),
                    _ => assert(prog@[i] == flat[i]),
                }
            }
        }
        Ok(prog)
    }

    /// The compiled instructions.
    pub fn instructions(&self) -> (r: &Vec<Token>)
        ensures
            r@ == self@,
    {
        &self.inst
    }

    /// The jump-resolution pass: walk the instructions with a stack of open
    /// `LoopBegin` positions and write the final relative jump fields.
    #[verifier::loop_isolation(false)]
    fn build_jump_addr(self) -> (r: Self)
        requires
            loop_balanced(self.inst@),
            self.inst@.len() <= 0x7fff_ffff,
        ensures
            r@ == resolve(self.inst@),
    {
        let ghost p = self.inst@;
        let n = self.inst.len();
        let mut opt: Vec<Token> = Vec::new();
        let mut stack: Vec<usize> = Vec::new();
        let mut i: usize = 0;
        while i < n
            invariant
                i <= n,
                opt@ == resolve_prefix(p, i as int).0,
                stack@.len() == resolve_prefix(p, i as int).1.len(),
                forall|q: int|
                    0 <= q < stack@.len() ==> stack@[q] as int == resolve_prefix(p, i as int).1[q],
            decreases n - i,
        {
            proof {
                lemma_resolve_prefix_props(p, i as int);
                lemma_loop_depth_take_succ(p, i as int);
            }
            let t = self.inst[i];
            match t {
                Token::LoopBegin(_) => {
                    stack.push(i);
                    opt.push(Token::LoopBegin(0));
                },
                Token::LoopEnd(_) => {
                    proof {
                        // The prefix through this instruction still has
                        // non-negative depth, so a partner is open.
                        assert(loop_depth(p.take(i as int + 1)) >= 0);
                        assert(stack@.len() >= 1);
                    }
                    let pos = stack.pop().unwrap();
                    proof {
                        assert(pos as int == resolve_prefix(p, i as int).1.last());
                        assert(pos < i);
                    }
                    let d = i - pos;
                    proof {
                        assert(d + 1 <= 0x7fff_ffff);
                    }
                    opt[pos] = Token::LoopBegin((d + 1) as i32);
                    let back = (1i64 - d as i64) as i32;
                    opt.push(Token::LoopEnd(back));
                },
                _ => {
                    opt.push(t);
                },
            }
            i += 1;
        }
        proof {
            assert(p.take(n as int) =~= p);
        }
        Interpreter { inst: opt }
    }
}

} // verus!
