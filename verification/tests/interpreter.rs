use bf_opt::{CompileError, Interpreter, RunOutcome, Token};

fn compile(src: &str) -> Interpreter {
    let chars: Vec<char> = src.chars().collect();
    Interpreter::new(&chars).expect("source should compile")
}

fn compile_err(src: &str) -> CompileError {
    let chars: Vec<char> = src.chars().collect();
    Interpreter::new(&chars).expect_err("source should be rejected")
}

fn run(prog: &Interpreter, input: &[u8]) -> (Vec<u8>, Vec<u8>) {
    let input: Vec<u8> = input.to_vec();
    match prog.run(&input, 10_000_000) {
        RunOutcome::Done { output, tape } => (output, tape),
        RunOutcome::Fault => panic!("program faulted"),
        RunOutcome::OutOfFuel => panic!("program ran out of fuel"),
    }
}

#[test]
fn empty_source_compiles_to_end() {
    let prog = compile("");
    assert_eq!(prog.instructions(), &vec![Token::End]);
}

#[test]
fn empty_program_leaves_everything_zero() {
    let prog = compile("");
    let (output, tape) = run(&prog, b"unread");
    assert!(output.is_empty());
    assert_eq!(tape.len(), 65536);
    assert!(tape.iter().all(|&c| c == 0));
}

#[test]
fn non_command_source_compiles_to_end() {
    let prog = compile("hello world? (no commands here; 12345 \"quoted\")");
    assert_eq!(prog.instructions(), &vec![Token::End]);
    let (output, _) = run(&prog, b"");
    assert!(output.is_empty());
}

#[test]
fn stray_closing_bracket_is_rejected() {
    assert_eq!(compile_err("]"), CompileError::UnmatchedOpeningBracket);
    assert_eq!(compile_err("]["), CompileError::UnmatchedOpeningBracket);
    assert_eq!(compile_err("+[]]"), CompileError::UnmatchedOpeningBracket);
}

#[test]
fn unclosed_bracket_is_rejected() {
    assert_eq!(compile_err("["), CompileError::UnmatchedClosingBracket);
    assert_eq!(compile_err("+[[]"), CompileError::UnmatchedClosingBracket);
}

#[test]
fn cell_arithmetic_wraps() {
    let src_255: String = "+".repeat(255) + ".";
    let (output, _) = run(&compile(&src_255), b"");
    assert_eq!(output, vec![255u8]);

    let src_256: String = "+".repeat(256) + ".";
    let (output, _) = run(&compile(&src_256), b"");
    assert_eq!(output, vec![0u8]);

    let (output, _) = run(&compile("-."), b"");
    assert_eq!(output, vec![255u8]);
}

#[test]
fn pending_delta_wraps_like_the_cell() {
    // 65536 increments accumulate to a delta of zero; the flushed write
    // leaves the cell at zero.
    let src: String = "+".repeat(65536) + ".";
    let (output, _) = run(&compile(&src), b"");
    assert_eq!(output, vec![0u8]);
}

#[test]
fn hello_world() {
    let src = "++++++++[>++++[>++>+++>+++>+<<<<-]>+>+>->>+[<]<-]>>.>---.+++++++..+++.>>.<-.<.+++.------.--------.>>+.>++.";
    let (output, _) = run(&compile(src), b"");
    assert_eq!(output, b"Hello World!\n".to_vec());
}

#[test]
fn echo_one_byte() {
    let (output, _) = run(&compile(",."), b"Q");
    assert_eq!(output, b"Q".to_vec());
}

#[test]
fn input_on_exhausted_reader_writes_zero() {
    let (_, tape) = run(&compile("+,"), b"");
    assert_eq!(tape[0], 0);
}

#[test]
fn clear_idiom() {
    let prog = compile("+++++[-]");
    assert_eq!(
        prog.instructions(),
        &vec![Token::Add(5, 0), Token::Clear(0), Token::End]
    );
    let (_, tape) = run(&prog, b"");
    assert_eq!(tape[0], 0);
}

#[test]
fn multiply_idiom() {
    let prog = compile("+++[->++<]");
    assert_eq!(
        prog.instructions(),
        &vec![Token::Add(3, 0), Token::Mul(2, 1, 0), Token::Clear(0), Token::End]
    );
    let (_, tape) = run(&prog, b"");
    assert_eq!(tape[0], 0);
    assert_eq!(tape[1], 6);
}

#[test]
fn copy_idiom() {
    let prog = compile("++++[->+<]");
    assert_eq!(
        prog.instructions(),
        &vec![Token::Add(4, 0), Token::AddTo(1, 0), Token::Clear(0), Token::End]
    );
    let (_, tape) = run(&prog, b"");
    assert_eq!(tape[0], 0);
    assert_eq!(tape[1], 4);
}

#[test]
fn bare_clear_loop() {
    let prog = compile("[-]");
    assert_eq!(prog.instructions(), &vec![Token::Clear(0), Token::End]);
    let (output, tape) = run(&prog, b"");
    assert!(output.is_empty());
    assert_eq!(tape[0], 0);
}

#[test]
fn consecutive_inputs_take_consecutive_bytes() {
    let (output, _) = run(&compile(",,."), b"AB");
    assert_eq!(output, b"B".to_vec());
}

#[test]
fn multiply_idiom_with_negative_factor() {
    let prog = compile("+++[->--<]");
    assert_eq!(
        prog.instructions(),
        &vec![Token::Add(3, 0), Token::Mul(-2, 1, 0), Token::Clear(0), Token::End]
    );
    let (_, tape) = run(&prog, b"");
    assert_eq!(tape[0], 0);
    assert_eq!(tape[1], 250); // -6 modulo 256
}

#[test]
fn idiom_restores_residual_shift() {
    // The `Shift` committed just before the loop is popped and re-used as the
    // idiom's anchor offset.
    let prog = compile("+++>++[->+<]");
    assert_eq!(
        prog.instructions(),
        &vec![
            Token::Add(3, 0),
            Token::Add(2, 1),
            Token::AddTo(2, 1),
            Token::Clear(1),
            Token::End
        ]
    );
    let (_, tape) = run(&prog, b"");
    assert_eq!(tape[0], 3);
    assert_eq!(tape[1], 0);
    assert_eq!(tape[2], 2);
}

#[test]
fn nested_loops() {
    let (_, tape) = run(&compile("+++[>+++[>+<-]<-]"), b"");
    assert_eq!(tape[0], 0);
    assert_eq!(tape[1], 0);
    assert_eq!(tape[2], 9);
}

#[test]
fn output_flushes_only_its_own_cell_delta() {
    let (output, _) = run(&compile("+.+."), b"");
    assert_eq!(output, vec![1u8, 2u8]);
}

#[test]
fn resolved_jump_fields_sum_to_two() {
    let prog = compile("+[+]");
    assert_eq!(
        prog.instructions(),
        &vec![
            Token::Add(1, 0),
            Token::LoopBegin(3),
            Token::Add(1, 0),
            Token::LoopEnd(-1),
            Token::End
        ]
    );
}

#[test]
fn moving_off_the_tape_faults() {
    let chars: Vec<char> = "<[]".chars().collect();
    let prog = Interpreter::new(&chars).unwrap();
    let input: Vec<u8> = Vec::new();
    assert!(matches!(prog.run(&input, 1000), RunOutcome::Fault));
}

#[test]
fn nonterminating_program_runs_out_of_fuel() {
    let chars: Vec<char> = "+[]".chars().collect();
    let prog = Interpreter::new(&chars).unwrap();
    let input: Vec<u8> = Vec::new();
    assert!(matches!(prog.run(&input, 1000), RunOutcome::OutOfFuel));
}
