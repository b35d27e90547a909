use brainfuck::{interpret, parse, Execution, Fault, Machine, Opcode, Status};

const LIMIT: usize = 1_000_000;

fn run_source(source: &[u8], input: &[u8]) -> Execution {
    let code = parse(source).unwrap();
    interpret(&code, input, LIMIT)
}

fn halted_with(output: &[u8], consumed: usize) -> Execution {
    Execution { status: Status::Halted, output: output.to_vec(), consumed }
}

#[test]
fn hello_world() {
    let source = b"++++++++[>++++[>++>+++>+++>+<<<<-]>+>+>->>+[<]<-]>>.>---.+++++++..+++.>>.<-.<.+++.------.--------.>>+.>++.";
    assert_eq!(run_source(source, b""), halted_with(b"Hello World!\n", 0));
}

#[test]
fn echo_one_byte_then_halt() {
    assert_eq!(run_source(b",.", b"A"), halted_with(b"A", 1));
}

#[test]
fn cell_wraparound() {
    assert_eq!(run_source(b"-.", b""), halted_with(&[0xff], 0));
}

#[test]
fn skipped_loop() {
    assert_eq!(run_source(b"[+++++].", b""), halted_with(&[0x00], 0));
}

#[test]
fn counted_output() {
    assert_eq!(run_source(b"+++++[>++++++++++<-]>+++.", b""), halted_with(b"5", 0));
    assert_eq!(run_source(b"+++++[>++++++++++<-]>+++.", b"").output, vec![53]);
}

#[test]
fn comments_ignored() {
    assert_eq!(run_source(b"++ this is a comment +.", b""), halted_with(&[0x03], 0));
}

#[test]
fn empty_program_halts_at_once_with_no_output() {
    assert_eq!(interpret(&[], b"", 0), halted_with(b"", 0));
    assert_eq!(run_source(b"", b"unread"), halted_with(b"", 0));
}

#[test]
fn empty_loop_on_a_zero_cell_halts_at_once() {
    let code = parse(b"[]").unwrap();
    assert_eq!(interpret(&code, b"", 1), halted_with(b"", 0));
    let mut machine = Machine::new();
    let run = machine.run(&code, b"", LIMIT);
    assert_eq!(run.status, Status::Halted);
    assert_eq!(machine.ip(), 2);
    assert_eq!(machine.tape()[0], 0);
}

#[test]
fn empty_loop_on_a_nonzero_cell_never_halts() {
    let code = parse(b"+[]").unwrap();
    for limit in [0, 1, 2, 3, 1000, LIMIT] {
        assert_eq!(
            interpret(&code, b"", limit),
            Execution { status: Status::StepLimit, output: vec![], consumed: 0 }
        );
    }
    let mut machine = Machine::new();
    assert_eq!(machine.run(&code, b"", 1001).status, Status::StepLimit);
    assert_eq!(machine.tape()[0], 1);
    assert!(!machine.is_halted(&code));
}

#[test]
fn the_step_limit_counts_opcodes_executed() {
    let code = parse(b"+++").unwrap();
    assert_eq!(interpret(&code, b"", 2).status, Status::StepLimit);
    assert_eq!(interpret(&code, b"", 3).status, Status::Halted);
    let mut machine = Machine::new();
    assert_eq!(machine.run(&code, b"", 2).status, Status::StepLimit);
    assert_eq!(machine.ip(), 2);
    assert_eq!(machine.tape()[0], 2);
}

#[test]
fn a_run_cut_short_can_be_resumed() {
    let code = parse(b"+++++[>++++++++++<-]>+++.").unwrap();
    let mut machine = Machine::new();
    let mut output = Vec::new();
    let mut rounds = 0;
    loop {
        let run = machine.run(&code, b"", 7);
        output.extend(run.output);
        rounds += 1;
        if run.status != Status::StepLimit {
            assert_eq!(run.status, Status::Halted);
            break;
        }
    }
    assert!(rounds > 1);
    assert_eq!(output, b"5");
}

#[test]
fn a_higher_limit_does_not_change_a_run_that_halts() {
    let code = parse(b"++>+++[<+>-]<.").unwrap();
    let short = interpret(&code, b"", 100);
    assert_eq!(short, halted_with(&[5], 0));
    assert_eq!(interpret(&code, b"", LIMIT), short);
}

#[test]
fn cell_underflow_gives_255() {
    let code = parse(b"-").unwrap();
    let mut machine = Machine::new();
    assert_eq!(machine.run(&code, b"", LIMIT).status, Status::Halted);
    assert_eq!(machine.tape()[0], 255);
}

#[test]
fn pointer_underflow_is_a_fault() {
    assert_eq!(
        run_source(b"<", b""),
        Execution { status: Status::Faulted(Fault::TapeOutOfBounds), output: vec![], consumed: 0 }
    );
}

#[test]
fn pointer_overflow_is_a_fault() {
    let code = vec![Opcode::IncPtr; 30000];
    let mut machine = Machine::new();
    assert_eq!(machine.run(&code, b"", LIMIT).status, Status::Faulted(Fault::TapeOutOfBounds));
    assert_eq!(machine.dp(), 29999);
    let code = vec![Opcode::IncPtr; 29999];
    assert_eq!(interpret(&code, b"", LIMIT).status, Status::Halted);
}

#[test]
fn output_before_a_fault_is_kept() {
    assert_eq!(
        run_source(b"+.<.", b""),
        Execution { status: Status::Faulted(Fault::TapeOutOfBounds), output: vec![1], consumed: 0 }
    );
}

#[test]
fn input_at_the_end_of_the_stream_is_a_fault() {
    assert_eq!(
        run_source(b",", b""),
        Execution { status: Status::Faulted(Fault::StdinReadError), output: vec![], consumed: 0 }
    );
    assert_eq!(
        run_source(b",.,.,.", b"ab"),
        Execution {
            status: Status::Faulted(Fault::StdinReadError),
            output: b"ab".to_vec(),
            consumed: 2,
        }
    );
}

#[test]
fn input_is_read_one_byte_at_a_time_in_order() {
    assert_eq!(run_source(b",>,>,<<.>.>.", b"xyz!"), halted_with(b"xyz", 3));
}

#[test]
fn input_may_hold_any_byte() {
    assert_eq!(run_source(b",.,.,.", &[0x00, 0xff, 0x80]), halted_with(&[0x00, 0xff, 0x80], 3));
}

#[test]
fn increments_and_decrements_add_up_modulo_256() {
    for (n, m) in [(0usize, 0usize), (1, 0), (0, 1), (5, 3), (3, 5), (256, 0), (0, 256), (300, 41), (41, 300), (255, 0), (600, 87)] {
        let mut source = vec![b'+'; n];
        source.extend(vec![b'-'; m]);
        let code = parse(&source).unwrap();
        let mut machine = Machine::new();
        let run = machine.run(&code, b"", LIMIT);
        assert_eq!(run, halted_with(b"", 0));
        let expected = (n as i64 - m as i64).rem_euclid(256) as u8;
        assert_eq!(machine.tape()[0], expected);
        assert!(machine.tape()[1..].iter().all(|&cell| cell == 0));
    }
}

#[test]
fn interleaved_increments_and_decrements_add_up_too() {
    let code = parse(b"+-+--+---++").unwrap();
    let mut machine = Machine::new();
    assert_eq!(machine.run(&code, b"", LIMIT).status, Status::Halted);
    assert_eq!(machine.tape()[0], 255);
}

#[test]
fn three_hundred_increments_wrap_to_44() {
    let code = vec![Opcode::IncVal; 300];
    let mut machine = Machine::new();
    assert_eq!(machine.run(&code, b"", LIMIT).status, Status::Halted);
    assert_eq!(machine.tape()[0], 44);
}

#[test]
fn a_program_without_output_writes_nothing() {
    for source in [&b"+++[>++<-]>[-]"[..], b"+[]", b",[-]<", b"-[-]", b">>>><<<<<"] {
        let run = run_source(source, b"q");
        assert_eq!(run.output, Vec::<u8>::new());
    }
}

#[test]
fn a_program_without_input_reads_nothing() {
    assert_eq!(run_source(b"++.>+.", b"abc").consumed, 0);
}

#[test]
fn nested_loops_multiply() {
    assert_eq!(run_source(b"++[>+++[>++++<-]<-]>>.", b""), halted_with(&[24], 0));
}
