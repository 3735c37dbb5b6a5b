use mindjuice::{
    parse_instructions, Event, ExecutionTerminationCondition, Instruction, Machine, MEMORY_SIZE,
};

/// Runs `program` to its end, feeding it `input` in order and collecting the bytes it prints.
fn execute(
    program: &[Instruction],
    input: &[u8],
    budget: u64,
) -> (ExecutionTerminationCondition, Vec<u8>) {
    let program = program.to_vec();
    let mut machine = Machine::new(budget);
    let mut output = Vec::new();
    let mut remaining = input.iter();
    loop {
        match machine.run(&program) {
            Event::Output(byte) => output.push(byte),
            Event::NeedInput => {
                let byte = *remaining.next().expect("the program read past its input");
                machine.supply_input(byte);
            }
            Event::Terminated(condition) => return (condition, output),
        }
    }
}

fn compile(text: &str) -> Vec<Instruction> {
    let chars: Vec<char> = text.chars().collect();
    parse_instructions(&chars).unwrap()
}

#[test]
fn execute_hello_world() {
    let program = compile("++++++++[>++++[>++>+++>+++>+<<<<-]>+>+>->>+[<]<-]>>.>---.+++++++..+++.>>.<-.<.+++.------.--------.>>+.>++.");
    let (condition, output) = execute(&program, &[], 30000000);
    assert_eq!(condition, ExecutionTerminationCondition::AllInstructionsFinished);
    assert_eq!(&output[..], b"Hello World!\n");
}

#[test]
fn execute_echoes_input() {
    let program = compile(",.");
    let (condition, output) = execute(&program, &[65], 100);
    assert_eq!(condition, ExecutionTerminationCondition::AllInstructionsFinished);
    assert_eq!(output, vec![65]);
}

#[test]
fn execute_waits_for_input() {
    let program = compile(",+.");
    let mut machine = Machine::new(10);
    assert!(!machine.is_awaiting_input());
    assert_eq!(machine.run(&program), Event::NeedInput);
    assert!(machine.is_awaiting_input());
    machine.supply_input(41);
    assert!(!machine.is_awaiting_input());
    assert_eq!(machine.run(&program), Event::Output(42));
    assert_eq!(
        machine.run(&program),
        Event::Terminated(ExecutionTerminationCondition::AllInstructionsFinished)
    );
}

#[test]
fn execute_pointer_wraps_left_from_first_cell() {
    // write 7 into the last cell by stepping left from cell 0, then come back
    let program = compile("<+++++++.>.");
    let (_, output) = execute(&program, &[], 100);
    assert_eq!(output, vec![7, 0]);
}

#[test]
fn execute_pointer_wraps_right_from_last_cell() {
    let mut text = String::from("+");
    for _ in 0..MEMORY_SIZE {
        text.push('>');
    }
    text.push('.');
    let program = compile(&text);
    let (condition, output) = execute(&program, &[], 100000);
    assert_eq!(condition, ExecutionTerminationCondition::AllInstructionsFinished);
    assert_eq!(output, vec![1]);
}

#[test]
fn execute_cell_wraps() {
    let (_, output) = execute(&compile("-.+."), &[], 100);
    assert_eq!(output, vec![255, 0]);
    let mut text = String::new();
    for _ in 0..256 {
        text.push('+');
    }
    text.push('.');
    let (_, output) = execute(&compile(&text), &[], 1000);
    assert_eq!(output, vec![0]);
}

#[test]
fn execute_budget_runs_out_on_long_program() {
    let program = compile("+++++.");
    let (condition, output) = execute(&program, &[], 3);
    assert_eq!(condition, ExecutionTerminationCondition::MaximumIterationsReached);
    assert!(output.is_empty());
}

#[test]
fn execute_budget_counts_the_final_check() {
    // six instructions take six dispatches, and noticing the end takes one more
    let program = compile("+++++.");
    let (condition, output) = execute(&program, &[], 6);
    assert_eq!(condition, ExecutionTerminationCondition::MaximumIterationsReached);
    assert_eq!(output, vec![5]);
    let (condition, _) = execute(&program, &[], 7);
    assert_eq!(condition, ExecutionTerminationCondition::AllInstructionsFinished);
}

#[test]
fn execute_zero_budget() {
    let (condition, output) = execute(&[], &[], 0);
    assert_eq!(condition, ExecutionTerminationCondition::MaximumIterationsReached);
    assert!(output.is_empty());
    let (condition, _) = execute(&[], &[], 1);
    assert_eq!(condition, ExecutionTerminationCondition::AllInstructionsFinished);
}

#[test]
fn execute_skipped_loop_can_finish_within_budget() {
    // the zero cell jumps straight over the loop body
    let program = compile("[+++++]");
    let (condition, _) = execute(&program, &[], 3);
    assert_eq!(condition, ExecutionTerminationCondition::AllInstructionsFinished);
}

#[test]
fn execute_infinite_loop_hits_budget() {
    let program = compile("+[]");
    let (condition, _) = execute(&program, &[], 1000);
    assert_eq!(condition, ExecutionTerminationCondition::MaximumIterationsReached);
}

#[test]
fn execute_termination_messages() {
    assert_eq!(
        ExecutionTerminationCondition::MaximumIterationsReached.message(),
        "Maximum iterations reached."
    );
    assert_eq!(
        ExecutionTerminationCondition::AllInstructionsFinished.message(),
        "Finished normally."
    );
}
