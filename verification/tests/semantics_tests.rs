use osrjit::codegen::{CGContext, Codegen};
use osrjit::semantics::{run_tokens, Machine, RunOutcome};
use osrjit::token::{match_table, tokenize};

fn run_source(src: &str, opt_level: u8, input: &[u8]) -> Machine {
    let tokens = tokenize(src, opt_level);
    let mt = match_table(&tokens);
    let mut m = Machine {
        tape: vec![0u8; 30000],
        ptr: 0,
        input: input.to_vec(),
        in_pos: 0,
        output: Vec::new(),
        pc: 0,
    };
    let r = run_tokens(&tokens, &mt, &mut m, 10_000_000);
    assert!(r == RunOutcome::Done);
    m
}

#[test]
fn three_adds_then_output() {
    let m = run_source("+++.", 0, &[]);
    assert_eq!(m.output, vec![3u8]);
}

#[test]
fn echo_one_byte() {
    let m = run_source(",.", 0, b"A");
    assert_eq!(m.output, b"A".to_vec());
}

#[test]
fn move_two_into_next_cell() {
    for opt in [0u8, 1u8] {
        let m = run_source("++[->+<]", opt, &[]);
        assert_eq!(m.tape[0], 0);
        assert_eq!(m.tape[1], 2);
        assert_eq!(m.ptr, 0);
    }
}

#[test]
fn loop_on_zero_cell_completes_immediately() {
    let m = run_source("[.]", 0, &[]);
    assert!(m.output.is_empty());
}

#[test]
fn no_output_operators_no_output() {
    let m = run_source("+>++<[->>+<<]", 0, &[]);
    assert!(m.output.is_empty());
}

#[test]
fn no_cell_writes_tape_unchanged() {
    let m = run_source("><>[<>]", 0, &[]);
    assert!(m.tape.iter().all(|&b| b == 0));
    assert!(m.output.is_empty());
}

#[test]
fn cell_arithmetic_wraps() {
    let mut src = String::new();
    for _ in 0..300 {
        src.push('+');
    }
    src.push('.');
    let unfolded = run_source(&src, 0, &[]);
    let folded = run_source(&src, 1, &[]);
    assert_eq!(unfolded.output, vec![44u8]);
    assert_eq!(folded.output, vec![44u8]);
}

#[test]
fn moving_off_the_tape_sticks_the_machine() {
    let tokens = tokenize("<", 0);
    let mt = match_table(&tokens);
    let mut m = Machine {
        tape: vec![0u8; 16],
        ptr: 0,
        input: Vec::new(),
        in_pos: 0,
        output: Vec::new(),
        pc: 0,
    };
    let r = run_tokens(&tokens, &mt, &mut m, 100);
    assert!(r == RunOutcome::Stuck);
}

#[test]
fn reading_exhausted_input_sticks_the_machine() {
    let tokens = tokenize(",,", 0);
    let mt = match_table(&tokens);
    let mut m = Machine {
        tape: vec![0u8; 16],
        ptr: 0,
        input: vec![7u8],
        in_pos: 0,
        output: Vec::new(),
        pc: 0,
    };
    let r = run_tokens(&tokens, &mt, &mut m, 100);
    assert!(r == RunOutcome::Stuck);
    assert_eq!(m.tape[0], 7);
}

#[test]
fn endless_loop_runs_out_of_fuel() {
    let tokens = tokenize("+[]", 0);
    let mt = match_table(&tokens);
    let mut m = Machine {
        tape: vec![0u8; 16],
        ptr: 0,
        input: Vec::new(),
        in_pos: 0,
        output: Vec::new(),
        pc: 0,
    };
    let r = run_tokens(&tokens, &mt, &mut m, 1000);
    assert!(r == RunOutcome::OutOfFuel);
}

#[test]
fn hello_world_same_output_at_both_levels() {
    let src = "++++++++[>++++[>++>+++>+++>+<<<<-]>+>+>->>+[<]<-]>>.>---.+++++++..+++.>>.<-.<.+++.------.--------.>>+.>++.";
    let unfolded = run_source(src, 0, &[]);
    let folded = run_source(src, 1, &[]);
    assert_eq!(unfolded.output, b"Hello World!\n".to_vec());
    assert_eq!(folded.output, unfolded.output);
    // Both compilations carry one OSR point per `]`, at either level.
    let ends = src.chars().filter(|&c| c == ']').count();
    for opt in [0u8, 1u8] {
        let cg = Codegen::new(CGContext {
            putchar: 0x1000,
            getchar: 0x2000,
            opt_level: opt,
        });
        let jit = cg.translate(src);
        assert_eq!(jit.loop_end_patch_offsets.len(), ends);
    }
}
