use neoqo::debugger::{frame_length, frame_record, DebugInformation};
use neoqo::machine::{Effect, VmError};
use neoqo::{Instruction, Lexer, Opcode, Optimizer, OptimizerPass, VirtualMachine};

fn tokens(src: &str) -> Vec<Instruction> {
    let mut lexer = Lexer::new(src.to_string());
    lexer.tokenize();
    lexer.tokens
}

fn optimize(code: Vec<Instruction>, passes: Vec<OptimizerPass>, iterations: usize) -> Vec<Instruction> {
    let mut optimizer = Optimizer::new(code, Some(passes));
    optimizer.optimize(iterations);
    optimizer.instructions
}

fn full_passes() -> Vec<OptimizerPass> {
    vec![
        OptimizerPass::OptimizeIncDecPtrChains,
        OptimizerPass::OptimizeIncDecValChains,
        OptimizerPass::OptimizeClearLoops,
    ]
}

struct Outcome {
    result: Result<(), VmError>,
    output: String,
    dispatched: u64,
    ticks: u64,
}

fn execute(code: Vec<Instruction>, memory: Option<usize>, input: &[u8]) -> Outcome {
    let mut vm = VirtualMachine::new(code, memory, None);
    if let Err(e) = vm.build_jump_table() {
        return Outcome { result: Err(e), output: String::new(), dispatched: 0, ticks: vm.ticks() };
    }
    let mut output = String::new();
    let mut dispatched = 0u64;
    while vm.is_running() {
        match vm.run_cycle() {
            Ok(effect) => {
                dispatched += 1;
                match effect {
                    Effect::Continue => {}
                    Effect::PrintChar(c) => output.push(c),
                    Effect::PrintInteger(n) => output.push_str(&n.to_string()),
                    Effect::Input(_) => vm.supply_input(input),
                }
            }
            Err(e) => {
                return Outcome { result: Err(e), output, dispatched, ticks: vm.ticks() };
            }
        }
    }
    Outcome { result: Ok(()), output, dispatched, ticks: vm.ticks() }
}

fn run_source(src: &str) -> Outcome {
    execute(tokens(src), None, &[])
}

fn opcodes(code: &[Instruction]) -> Vec<Opcode> {
    code.iter().map(|i| i.opcode).collect()
}

fn balance(code: &[Instruction]) -> i64 {
    code.iter()
        .map(|i| match i.opcode {
            Opcode::JzCell | Opcode::JzStack => 1,
            Opcode::JnzCell | Opcode::JnzStack => -1,
            _ => 0,
        })
        .sum()
}

#[test]
fn hello_world_string_literal() {
    let out = run_source("\"Hello\"(;.)");
    assert_eq!(out.result, Ok(()));
    assert_eq!(out.output, "Hello");
}

#[test]
fn integer_print_mode() {
    let out = run_source("+++++i.");
    assert_eq!(out.result, Ok(()));
    assert_eq!(out.output, "5");
}

#[test]
fn clear_loop_becomes_clear() {
    let code = optimize(tokens("+++[-]i."), vec![OptimizerPass::OptimizeClearLoops], 1);
    assert_eq!(
        opcodes(&code),
        vec![Opcode::Inc, Opcode::Inc, Opcode::Inc, Opcode::Clear, Opcode::IntMod, Opcode::Print]
    );
    let clear = &code[3];
    assert_eq!((clear.line, clear.pos), (0, 3));
    assert_eq!(clear.value, "__optimizer_generated");
    assert_eq!(clear.argument, None);
    assert!(clear.optimized);
    let out = execute(code, None, &[]);
    assert_eq!(out.output, "0");
}

#[test]
fn clear_loop_with_all_passes() {
    let code = optimize(tokens("+++[-]i."), full_passes(), 2);
    assert_eq!(opcodes(&code), vec![Opcode::Inc, Opcode::Clear, Opcode::IntMod, Opcode::Print]);
    assert_eq!(code[0].argument, Some(3));
    assert_eq!(execute(code, None, &[]).output, "0");
}

#[test]
fn clear_loop_at_the_end() {
    let code = optimize(tokens("+[-]"), vec![OptimizerPass::OptimizeClearLoops], 1);
    assert_eq!(opcodes(&code), vec![Opcode::Inc, Opcode::Clear]);
}

#[test]
fn stack_clear_loop_is_collapsed_too() {
    let code = optimize(tokens("(-)"), vec![OptimizerPass::OptimizeClearLoops], 1);
    assert_eq!(opcodes(&code), vec![Opcode::Clear]);
}

#[test]
fn run_length_collapse() {
    let code = optimize(tokens("+++++++++i."), vec![OptimizerPass::OptimizeIncDecValChains], 1);
    assert_eq!(code.len(), 3);
    assert_eq!(opcodes(&code), vec![Opcode::Inc, Opcode::IntMod, Opcode::Print]);
    assert_eq!(code[0].argument, Some(9));
    assert!(code[0].optimized);
    assert_eq!(code[0].value, "__optimizer_generated");
    assert_eq!(execute(code, None, &[]).output, "9");
}

#[test]
fn balanced_run_leaves_a_zero_decrement() {
    let code = optimize(tokens("++--i."), vec![OptimizerPass::OptimizeIncDecValChains], 1);
    assert_eq!(opcodes(&code), vec![Opcode::Dec, Opcode::IntMod, Opcode::Print]);
    assert_eq!(code[0].argument, Some(0));
    assert_eq!(execute(code, None, &[]).output, "0");
}

#[test]
fn mixed_run_nets_out() {
    let code = optimize(tokens("+-+++--i."), vec![OptimizerPass::OptimizeIncDecValChains], 1);
    assert_eq!(opcodes(&code)[0], Opcode::Inc);
    assert_eq!(code[0].argument, Some(1));
    let code = optimize(tokens("+----"), vec![OptimizerPass::OptimizeIncDecValChains], 1);
    assert_eq!(opcodes(&code), vec![Opcode::Dec]);
    assert_eq!(code[0].argument, Some(3));
}

#[test]
fn pointer_run_collapse() {
    let code = optimize(tokens(">>><+"), vec![OptimizerPass::OptimizeIncDecPtrChains], 1);
    assert_eq!(opcodes(&code), vec![Opcode::IncPtr, Opcode::Inc]);
    assert_eq!(code[0].argument, Some(2));
    let code = optimize(tokens("<<>"), vec![OptimizerPass::OptimizeIncDecPtrChains], 1);
    assert_eq!(opcodes(&code), vec![Opcode::DecPtr]);
    assert_eq!(code[0].argument, Some(1));
}

#[test]
fn run_totals_saturate() {
    let big = Instruction::new(0, 0, "+".to_string(), Opcode::Inc, Some(u32::MAX));
    let one = Instruction::new(0, 1, "+".to_string(), Opcode::Inc, None);
    let code = optimize(vec![big, one], vec![OptimizerPass::OptimizeIncDecValChains], 1);
    assert_eq!(code.len(), 1);
    assert_eq!(code[0].argument, Some(u32::MAX));
}

#[test]
fn zero_count_runs_are_kept() {
    let a = Instruction::new(0, 0, "+".to_string(), Opcode::Inc, Some(0));
    let b = Instruction::new(1, 0, "-".to_string(), Opcode::Dec, Some(0));
    let code = optimize(vec![a.clone(), b.clone()], vec![OptimizerPass::OptimizeIncDecValChains], 1);
    assert_eq!(code, vec![a, b]);
}

#[test]
fn no_passes_or_no_rounds_change_nothing() {
    let code = tokens("+++[-]>>");
    assert_eq!(optimize(code.clone(), vec![], 3), code);
    assert_eq!(optimize(code.clone(), full_passes(), 0), code);
    let mut optimizer = Optimizer::new(code.clone(), None);
    optimizer.add_pass(OptimizerPass::OptimizeClearLoops);
    optimizer.optimize(1);
    assert_eq!(opcodes(&optimizer.instructions)[3], Opcode::Clear);
}

#[test]
fn val_chains_idempotent_on_example() {
    let pass = vec![OptimizerPass::OptimizeIncDecValChains];
    let once = optimize(tokens("++-[-]+++>--+."), pass.clone(), 1);
    let twice = optimize(once.clone(), pass, 1);
    assert_eq!(once, twice);
}

#[test]
fn optimizer_keeps_bracket_balance() {
    for src in ["+[-]([-])>>[<+>-]", "[[-]", "(-))", "[+-]"] {
        let code = tokens(src);
        for pass in full_passes() {
            assert_eq!(balance(&optimize(code.clone(), vec![pass], 1)), balance(&code));
        }
        assert_eq!(balance(&optimize(code.clone(), full_passes(), 3)), balance(&code));
    }
}

#[test]
fn unmatched_opener() {
    let code = tokens("+++[+");
    let out = execute(code.clone(), None, &[]);
    assert_eq!(out.result, Err(VmError::UnmatchedBracket { at: 3 }));
    assert_eq!(code[3].value, "[");
    assert_eq!((code[3].line, code[3].pos), (0, 3));
}

#[test]
fn unmatched_closer() {
    let out = run_source("+]");
    assert_eq!(out.result, Err(VmError::UnmatchedBracket { at: 1 }));
}

#[test]
fn most_recent_opener_is_reported() {
    let out = run_source("[[]");
    assert_eq!(out.result, Err(VmError::UnmatchedBracket { at: 0 }));
    let out = run_source("[([)");
    assert_eq!(out.result, Err(VmError::UnmatchedBracket { at: 1 }));
}

#[test]
fn compare_equal_values() {
    let out = run_source("+::=i.");
    assert_eq!(out.result, Ok(()));
    assert_eq!(out.output, "1");
}

#[test]
fn compare_after_push_increment_push() {
    // The two pushed values are 0 and then 1, so they differ.
    let out = run_source(":+:=i.");
    assert_eq!(out.result, Ok(()));
    assert_eq!(out.output, "0");
}

#[test]
fn compare_unequal_values() {
    assert_eq!(run_source("+:+:=i.").output, "0");
}

#[test]
fn ticks_count_dispatched_instructions() {
    let out = run_source("+++[-]");
    assert_eq!(out.result, Ok(()));
    assert_eq!(out.dispatched, 3 + 1 + 3 * 2);
    assert_eq!(out.ticks, out.dispatched);
    let out = run_source("+&");
    assert_eq!(out.ticks, 1);
}

#[test]
fn flavours_nest_in_each_other() {
    // The outer stack loop drains the literal; the inner cell loop runs once each time.
    assert_eq!(run_source("\"ab\"(;[.[-]])").output, "ba".chars().rev().collect::<String>());
}

#[test]
fn stack_loop_skips_on_empty_stack() {
    assert_eq!(run_source("(+)i.").output, "0");
}

#[test]
fn swap_pushes_top_two_reversed() {
    assert_eq!(run_source("+:+:\\i;.;.;.;.").output, "1221");
}

#[test]
fn dup_count_double_halve() {
    assert_eq!(run_source("+:&#i.").output, "2");
    assert_eq!(run_source("+++**i.").output, "12");
    assert_eq!(run_source("+++++/i.").output, "2");
}

#[test]
fn cells_wrap_and_saturate() {
    let inc = Instruction::new(0, 0, "+".to_string(), Opcode::Inc, Some(u32::MAX));
    let dbl = Instruction::new(0, 1, "*".to_string(), Opcode::Double, None);
    let int = Instruction::new(0, 2, "i".to_string(), Opcode::IntMod, None);
    let prt = Instruction::new(0, 3, ".".to_string(), Opcode::Print, None);
    let out = execute(vec![inc.clone(), dbl, int.clone(), prt.clone()], None, &[]);
    assert_eq!(out.output, (u32::MAX - 1).to_string());
    let out = execute(vec![inc.clone(), inc, int.clone(), prt.clone()], None, &[]);
    assert_eq!(out.output, (u32::MAX - 1).to_string());
    assert_eq!(run_source("+---i.").output, "0");
}

#[test]
fn pointer_moves() {
    assert_eq!(run_source("<<+>+++<i.>.").output, "13");
    let out = execute(tokens(">>"), Some(2), &[]);
    assert_eq!(out.result, Err(VmError::TapeOutOfBounds { at: 1 }));
    let out = execute(tokens("+"), Some(0), &[]);
    assert_eq!(out.result, Err(VmError::TapeOutOfBounds { at: 0 }));
}

#[test]
fn pop_on_empty_stack_gives_zero() {
    assert_eq!(run_source("+++;i.").output, "0");
}

#[test]
fn stack_underflow_errors() {
    assert_eq!(run_source("&").result, Err(VmError::StackUnderflow { at: 0 }));
    assert_eq!(run_source(":\\").result, Err(VmError::StackUnderflow { at: 1 }));
    assert_eq!(run_source(":=").result, Err(VmError::StackUnderflow { at: 1 }));
}

#[test]
fn unimplemented_instructions() {
    for (src, at) in [("!", 0), ("+b", 1), ("x", 0), ("^", 0)] {
        assert_eq!(run_source(src).result, Err(VmError::Unimplemented { at }));
    }
}

#[test]
fn terminate_halts() {
    let out = run_source("+i.q.");
    assert_eq!(out.result, Ok(()));
    assert_eq!(out.output, "1");
}

#[test]
fn invalid_char_error() {
    let inc = Instruction::new(0, 0, "+".to_string(), Opcode::Inc, Some(0xD800));
    let prt = Instruction::new(1, 0, ".".to_string(), Opcode::Print, None);
    let out = execute(vec![inc, prt], None, &[]);
    assert_eq!(out.result, Err(VmError::InvalidChar { at: 1, value: 0xD800 }));
}

#[test]
fn escapes_in_literals() {
    assert_eq!(run_source("\"a\\tb\\n\"(;.)").output, "a\tb\n");
    assert_eq!(run_source("\"\\\\\"(;.)").output, "\\");
    assert_eq!(run_source("\"\\0\";i.").output, "0");
    assert_eq!(run_source("\"\"#i.").output, "1");
}

#[test]
fn invalid_escape_error() {
    let out = run_source("+\"a\\qb\"");
    assert_eq!(out.result, Err(VmError::InvalidEscape { at: 1, escape: 'q' }));
}

#[test]
fn read_single_byte_into_cell() {
    let out = execute(tokens("+:,i."), None, b"A");
    assert_eq!(out.output, "65");
}

#[test]
fn read_several_bytes_onto_stack() {
    let out = execute(tokens("++:,(;.)"), None, b"hi");
    assert_eq!(out.output, "hi");
    let out = execute(tokens("+++:,#i."), None, b"x");
    assert_eq!(out.output, "4");
}

#[test]
fn read_defaults_to_512_bytes() {
    let out = execute(tokens(",#i."), None, b"");
    assert_eq!(out.output, "513");
}

#[test]
fn tokenizer_positions_and_lines() {
    let code = tokens("+ -\n  >\r\n.");
    let at: Vec<(u32, u32, Opcode)> = code.iter().map(|i| (i.line, i.pos, i.opcode)).collect();
    assert_eq!(
        at,
        vec![(0, 0, Opcode::Inc), (0, 2, Opcode::Dec), (1, 2, Opcode::IncPtr), (2, 0, Opcode::Print)]
    );
    assert!(code.iter().all(|i| i.argument.is_none() && !i.optimized));
    assert_eq!(code[1].value, "-");
}

#[test]
fn tokenizer_literals_and_comments() {
    let code = tokens("'comment + - \n\"a b\"+ z@\"open");
    assert_eq!(opcodes(&code), vec![Opcode::Str, Opcode::Inc, Opcode::Str]);
    assert_eq!(code[0].value, "a b");
    assert_eq!((code[0].line, code[0].pos), (1, 0));
    assert_eq!((code[1].line, code[1].pos), (1, 5));
    assert_eq!(code[2].value, "open");
    assert!(tokens("").is_empty());
    assert!(tokens("' only a comment").is_empty());
}

#[test]
fn tokenizer_skips_unicode_whitespace() {
    let code = tokens("+\u{3000}+\u{A0}-");
    assert_eq!(opcodes(&code), vec![Opcode::Inc, Opcode::Inc, Opcode::Dec]);
    assert_eq!(code[2].pos, 4);
}

#[test]
fn every_glyph_tokenizes() {
    let glyphs = "<>[]()+-*/\\.,:;&^#=bciqx!";
    let code = tokens(glyphs);
    assert_eq!(code.len(), glyphs.chars().count());
    assert_eq!(code[10].opcode, Opcode::Swap);
    assert_eq!(code[22].opcode, Opcode::Terminate);
    assert_eq!(code[24].opcode, Opcode::Break);
}

#[test]
fn retokenizing_glyphs_keeps_opcodes() {
    let code = tokens("+ \"str\" [-]\n'note\n(;.)");
    let text: String = code.iter().filter(|i| i.opcode != Opcode::Str).map(|i| i.value.clone()).collect();
    let again = tokens(&text);
    for (k, t) in again.iter().enumerate() {
        assert_eq!((t.line, t.pos), (0, k as u32));
    }
    let expected: Vec<Opcode> = code.iter().filter(|i| i.opcode != Opcode::Str).map(|i| i.opcode).collect();
    assert_eq!(opcodes(&again), expected);
}

#[test]
fn lexer_tokenizes_once() {
    let mut lexer = Lexer::new("++".to_string());
    lexer.tokenize();
    lexer.tokenize();
    assert_eq!(lexer.tokens.len(), 2);
}

#[test]
fn debug_records() {
    let mut vm = VirtualMachine::new(tokens("+-"), None, None);
    assert_eq!(vm.build_jump_table(), Ok(()));
    let record = vm.debug_record();
    assert!(!record.terminate);
    assert_eq!(record.instr.map(|i| i.opcode), Some(Opcode::Inc));
    let _ = vm.run_cycle();
    assert_eq!(vm.debug_record().instr.map(|i| i.opcode), Some(Opcode::Dec));
    let last = DebugInformation::termination();
    assert!(last.terminate && last.instr.is_none());
}

#[test]
fn frames_carry_big_endian_length() {
    let frame = frame_record(&[7, 8, 9]).unwrap();
    assert_eq!(frame, vec![0, 0, 0, 3, 7, 8, 9]);
    let payload = vec![1u8; 300];
    let frame = frame_record(&payload).unwrap();
    assert_eq!(&frame[..4], &[0, 0, 1, 44]);
    assert_eq!(frame_length(&frame), Some(300));
    assert_eq!(frame_length(&[1, 2, 3, 4]), Some(0x01020304));
    assert_eq!(frame_length(&[1, 2, 3]), None);
}

#[test]
fn consuming_accessors_hand_over_results() {
    let mut lexer = Lexer::new("+++>".to_string());
    lexer.tokenize();
    let code = lexer.into_tokens();
    assert_eq!(opcodes(&code), vec![Opcode::Inc, Opcode::Inc, Opcode::Inc, Opcode::IncPtr]);
    let mut optimizer = Optimizer::new(code, Some(vec![OptimizerPass::OptimizeIncDecValChains]));
    optimizer.optimize(1);
    let out = optimizer.into_instructions();
    assert_eq!(opcodes(&out), vec![Opcode::Inc, Opcode::IncPtr]);
    assert_eq!(out[0].argument, Some(3));
}

#[test]
fn pass_positions_after_replacement() {
    // A replaced run is followed by the instruction right after it, unchanged.
    let code = optimize(tokens("[-]+++>"), full_passes(), 1);
    assert_eq!(opcodes(&code), vec![Opcode::Clear, Opcode::Inc, Opcode::IncPtr]);
    assert_eq!((code[1].line, code[1].pos), (0, 3));
    assert_eq!(code[2].argument, Some(1));
}

#[test]
fn escapes_read_left_to_right() {
    // Backslash, backslash, n: an escaped backslash, then the letter n.
    let out = run_source("\"\\\\n\"(;.)");
    assert_eq!(out.result, Ok(()));
    assert_eq!(out.output, "\\n");
    let out = run_source("\"\\\\\\t\"(;.)");
    assert_eq!(out.output, "\\\t");
}

#[test]
fn trailing_backslash_is_invalid() {
    let out = run_source("+\"a\\\"");
    assert_eq!(out.result, Err(VmError::InvalidEscape { at: 1, escape: '\\' }));
}

#[test]
fn first_bad_escape_is_reported() {
    let out = run_source("\"\\q\\z\"");
    assert_eq!(out.result, Err(VmError::InvalidEscape { at: 0, escape: 'q' }));
}
