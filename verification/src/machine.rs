//! The reference semantics of the intermediate form and the interpreter that
//! implements it.
//!
//! A machine state is an instruction index, a head position, the 65,536-cell
//! byte tape, a count of input bytes consumed, and the output written so far.
//! [`step`] gives the deterministic small-step semantics; [`run_spec`] iterates
//! it from the initial state under a step budget. [`Interpreter::run`] returns
//! exactly what [`run_spec`] names.
//!
//! A step that would touch a cell outside the tape — or move the head off it;
//! every committed `Shift` of the optimizer is followed at once by a bracket's
//! cell test, so the two coincide on its output — is a fault: such programs
//! are malformed at the source level, and the interpreter reports them
//! instead of going on. Reading exhausted input yields zero bytes.

use crate::ir::Token;
use crate::optimize::Interpreter;
use vstd::arithmetic::div_mod::lemma_mod_multiples_vanish;
use vstd::prelude::*;

verus! {

/// Number of cells on the tape.
pub const TAPE_LEN: usize = 65536;

/// One machine state of the reference semantics.
pub struct MState {
    /// Index of the next instruction.
    pub ip: int,
    /// Head position on the tape.
    pub pos: int,
    /// The tape cells.
    pub tape: Seq<u8>,
    /// Input bytes consumed so far.
    pub read: int,
    /// Output bytes written so far.
    pub out: Seq<u8>,
}

/// What one step yields.
pub enum StepOutcome {
    /// The machine goes on in this state.
    Next(MState),
    /// The machine reached `End` in this state.
    Halted(MState),
    /// The step touched a cell off the tape or an instruction out of range.
    Fault,
}

/// The cell index lies on the tape.
pub open spec fn in_tape(i: int) -> bool {
    0 <= i < 65536
}

/// A cell write: everything is taken modulo 256.
pub open spec fn wrap_byte(x: int) -> u8 {
    (x % 256) as u8
}

/// The next input byte: zero once the input is exhausted.
pub open spec fn byte_at(input: Seq<u8>, i: int) -> u8 {
    if 0 <= i < input.len() {
        input[i]
    } else {
        0
    }
}

/// The state in which every execution starts: a zeroed tape, everything else
/// at zero.
pub open spec fn init_mstate() -> MState {
    MState { ip: 0, pos: 0, tape: Seq::new(65536, |i: int| 0u8), read: 0, out: Seq::empty() }
}

/// The small-step semantics of one instruction, exactly as the data model
/// fixes it: cell arithmetic wraps modulo 256, the loop instructions replace
/// the normal advance by one with an advance by their `rel` field when their
/// cell test holds.
pub open spec fn step(p: Seq<Token>, input: Seq<u8>, s: MState) -> StepOutcome {
    if !(0 <= s.ip < p.len()) {
        StepOutcome::Fault
    } else {
        match p[s.ip] {
            Token::Add(n, off) => if in_tape(s.pos + off) {
                StepOutcome::Next(
                    MState {
                        ip: s.ip + 1,
                        tape: s.tape.update(s.pos + off, wrap_byte(s.tape[s.pos + off] + n)),
                        ..s
                    },
                )
            } else {
                StepOutcome::Fault
            },
            Token::Mul(n, dst, src) => if in_tape(s.pos + dst) && in_tape(s.pos + src) {
                StepOutcome::Next(
                    MState {
                        ip: s.ip + 1,
                        tape: s.tape.update(
                            s.pos + dst,
                            wrap_byte(s.tape[s.pos + dst] + n * s.tape[s.pos + src]),
                        ),
                        ..s
                    },
                )
            } else {
                StepOutcome::Fault
            },
            Token::AddTo(dst, src) => if in_tape(s.pos + dst) && in_tape(s.pos + src) {
                StepOutcome::Next(
                    MState {
                        ip: s.ip + 1,
                        tape: s.tape.update(
                            s.pos + dst,
                            wrap_byte(s.tape[s.pos + dst] + s.tape[s.pos + src]),
                        ),
                        ..s
                    },
                )
            } else {
                StepOutcome::Fault
            },
            Token::Clear(off) => if in_tape(s.pos + off) {
                StepOutcome::Next(
                    MState { ip: s.ip + 1, tape: s.tape.update(s.pos + off, 0u8), ..s },
                )
            } else {
                StepOutcome::Fault
            },
            Token::Shift(d) => if in_tape(s.pos + d) {
                StepOutcome::Next(MState { ip: s.ip + 1, pos: s.pos + d, ..s })
            } else {
                StepOutcome::Fault
            },
            Token::LoopBegin(rel) => if !in_tape(s.pos) {
                StepOutcome::Fault
            } else if s.tape[s.pos] == 0 {
                StepOutcome::Next(MState { ip: s.ip + rel, ..s })
            } else {
                StepOutcome::Next(MState { ip: s.ip + 1, ..s })
            },
            Token::LoopEnd(rel) => if !in_tape(s.pos) {
                StepOutcome::Fault
            } else if s.tape[s.pos] != 0 {
                StepOutcome::Next(MState { ip: s.ip + rel, ..s })
            } else {
                StepOutcome::Next(MState { ip: s.ip + 1, ..s })
            },
            Token::Input(off) => if in_tape(s.pos + off) {
                StepOutcome::Next(
                    MState {
                        ip: s.ip + 1,
                        tape: s.tape.update(s.pos + off, byte_at(input, s.read)),
                        read: s.read + 1,
                        ..s
                    },
                )
            } else {
                StepOutcome::Fault
            },
            Token::Output(off) => if in_tape(s.pos + off) {
                StepOutcome::Next(
                    MState { ip: s.ip + 1, out: s.out.push(s.tape[s.pos + off]), ..s },
                )
            } else {
                StepOutcome::Fault
            },
            Token::End => StepOutcome::Halted(s),
        }
    }
}

/// At most `fuel` steps from `s`: the halt or fault reached within the
/// budget, or `Next` with the state the budget ran out in.
pub open spec fn run_limit(p: Seq<Token>, input: Seq<u8>, s: MState, fuel: nat) -> StepOutcome
    decreases fuel,
{
    if fuel == 0 {
        StepOutcome::Next(s)
    } else {
        match step(p, input, s) {
            StepOutcome::Next(s2) => run_limit(p, input, s2, (fuel - 1) as nat),
            o => o,
        }
    }
}

/// At most `fuel` steps from the initial state.
pub open spec fn run_spec(p: Seq<Token>, input: Seq<u8>, fuel: nat) -> StepOutcome {
    run_limit(p, input, init_mstate(), fuel)
}

/// How a bounded execution ended.
pub enum RunOutcome {
    /// The program halted: its output and its final tape.
    Done {
        /// The bytes written, in program order.
        output: Vec<u8>,
        /// The tape as the program left it.
        tape: Vec<u8>,
    },
    /// The program touched a cell off the tape.
    Fault,
    /// The step budget ran out first.
    OutOfFuel,
}

impl Interpreter {
    /// Execute the program against `input` on a freshly zeroed tape, for at
    /// most `fuel` steps: the byte-code interpreter, the reference back end.
    /// The outcome is exactly what the small-step semantics names, case by
    /// case.
    #[verifier::loop_isolation(false)]
    #[verifier::rlimit(100)]
    pub fn run(&self, input: &Vec<u8>, fuel: u64) -> (r: RunOutcome)
        requires
            self.wf(),
        ensures
            match r {
                RunOutcome::Done { output, tape } => (run_spec(self@, input@, fuel as nat)
                    matches StepOutcome::Halted(m) && output@ == m.out && tape@ == m.tape),
                RunOutcome::Fault => run_spec(self@, input@, fuel as nat) is Fault,
                RunOutcome::OutOfFuel => run_spec(self@, input@, fuel as nat) is Next,
            },
    {
        let ghost p = self@;
        let insts = self.instructions();
        let mut tape: Vec<u8> = Vec::new();
        while tape.len() < TAPE_LEN
            invariant
                tape@.len() <= 65536,
                forall|i: int| 0 <= i < tape@.len() ==> tape@[i] == 0u8,
            decreases 65536 - tape@.len(),
        {
            tape.push(0);
        }
        proof {
            assert(tape@ =~= init_mstate().tape);
        }
        let mut out: Vec<u8> = Vec::new();
        let mut ip: usize = 0;
        let mut pos: usize = 0;
        let mut inp: usize = 0;
        let mut used: u64 = 0;
        let ghost mut reads: int = 0;
        while used < fuel
            invariant
                used <= fuel,
                ip < p.len(),
                pos < 65536,
                tape@.len() == 65536,
                0 <= reads,
                inp as int == (if reads <= input@.len() {
                    reads
                } else {
                    input@.len() as int
                }),
                run_spec(p, input@, fuel as nat) == run_limit(
                    p,
                    input@,
                    (MState {
                        ip: ip as int,
                        pos: pos as int,
                        tape: tape@,
                        read: reads,
                        out: out@,
                    }),
                    (fuel - used) as nat,
                ),
            decreases fuel - used,
        {
            let ghost pre = MState {
                ip: ip as int,
                pos: pos as int,
                tape: tape@,
                read: reads,
                out: out@,
            };
            let t = insts[ip];
            proof {
                // Every instruction but the final `End` has a successor, and
                // the program is short enough for 64-bit index arithmetic.
                assert(p.len() <= 0x7fff_ffff);
                if p[ip as int] != Token::End {
                    assert(ip < p.len() - 1);
                }
            }
            match t {
                Token::Add(n, off) => {
                    let idx_i = pos as i64 + off as i64;
                    if idx_i < 0 || idx_i >= 65536 {
                        proof {
                            assert(step(p, input@, pre) is Fault);
                        }
                        return RunOutcome::Fault;
                    }
                    let idx = idx_i as usize;
                    let c = tape[idx];
                    let v = ((c as i32) + (n as i32) + 32768) % 256;
                    proof {
                        lemma_mod_multiples_vanish(128, c + n, 256);
                    }
                    tape[idx] = v as u8;
                    ip += 1;
                },
                Token::Mul(n, dst, src) => {
                    let di = pos as i64 + dst as i64;
                    let si = pos as i64 + src as i64;
                    if di < 0 || di >= 65536 || si < 0 || si >= 65536 {
                        proof {
                            assert(step(p, input@, pre) is Fault);
                        }
                        return RunOutcome::Fault;
                    }
                    let cd = tape[di as usize];
                    let cs = tape[si as usize];
                    proof {
                        assert(-32768 * 255 <= (n as int) * (cs as int) <= 32767 * 255)
                            by (nonlinear_arith)
                            requires
                                -32768 <= n as int <= 32767,
                                0 <= cs as int <= 255,
                        ;
                    }
                    let v = ((cd as i32) + (n as i32) * (cs as i32) + 0x80_0000) % 256;
                    proof {
                        lemma_mod_multiples_vanish(32768, cd + n * cs, 256);
                    }
                    tape[di as usize] = v as u8;
                    ip += 1;
                },
                Token::AddTo(dst, src) => {
                    let di = pos as i64 + dst as i64;
                    let si = pos as i64 + src as i64;
                    if di < 0 || di >= 65536 || si < 0 || si >= 65536 {
                        proof {
                            assert(step(p, input@, pre) is Fault);
                        }
                        return RunOutcome::Fault;
                    }
                    let cd = tape[di as usize];
                    let cs = tape[si as usize];
                    let v = ((cd as i32) + (cs as i32)) % 256;
                    tape[di as usize] = v as u8;
                    ip += 1;
                },
                Token::Clear(off) => {
                    let idx_i = pos as i64 + off as i64;
                    if idx_i < 0 || idx_i >= 65536 {
                        proof {
                            assert(step(p, input@, pre) is Fault);
                        }
                        return RunOutcome::Fault;
                    }
                    tape[idx_i as usize] = 0;
                    ip += 1;
                },
                Token::Shift(d) => {
                    let ni = pos as i64 + d as i64;
                    if ni < 0 || ni >= 65536 {
                        proof {
                            assert(step(p, input@, pre) is Fault);
                        }
                        return RunOutcome::Fault;
                    }
                    pos = ni as usize;
                    ip += 1;
                },
                Token::LoopBegin(rel) => {
                    proof {
                        assert(crate::ir::resolved_at(p, ip as int));
                        assert(p[ip as int + rel - 1] is LoopEnd);
                        assert(ip as int + rel - 1 != p.len() - 1);
                    }
                    if tape[pos] == 0 {
                        ip = (ip as i64 + rel as i64) as usize;
                    } else {
                        ip += 1;
                    }
                },
                Token::LoopEnd(rel) => {
                    proof {
                        assert(crate::ir::resolved_at(p, ip as int));
                    }
                    if tape[pos] != 0 {
                        ip = (ip as i64 + rel as i64) as usize;
                    } else {
                        ip += 1;
                    }
                },
                Token::Input(off) => {
                    let idx_i = pos as i64 + off as i64;
                    if idx_i < 0 || idx_i >= 65536 {
                        proof {
                            assert(step(p, input@, pre) is Fault);
                        }
                        return RunOutcome::Fault;
                    }
                    let b: u8 = if inp < input.len() {
                        let x = input[inp];
                        inp += 1;
                        x
                    } else {
                        0
                    };
                    tape[idx_i as usize] = b;
                    ip += 1;
                    proof {
                        reads = reads + 1;
                    }
                },
                Token::Output(off) => {
                    let idx_i = pos as i64 + off as i64;
                    if idx_i < 0 || idx_i >= 65536 {
                        proof {
                            assert(step(p, input@, pre) is Fault);
                        }
                        return RunOutcome::Fault;
                    }
                    out.push(tape[idx_i as usize]);
                    ip += 1;
                },
                Token::End => {
                    proof {
                        assert(step(p, input@, pre) == StepOutcome::Halted(pre));
                    }
                    return RunOutcome::Done { output: out, tape };
                },
            }
            used += 1;
            proof {
                assert(step(p, input@, pre) == StepOutcome::Next(
                    MState { ip: ip as int, pos: pos as int, tape: tape@, read: reads, out: out@ },
                ));
            }
        }
        RunOutcome::OutOfFuel
    }
}

} // verus!
