use mindjuice::{parse_instructions, Error, Instruction};

fn parse(text: &str) -> Result<Vec<Instruction>, Error> {
    let chars: Vec<char> = text.chars().collect();
    parse_instructions(&chars)
}

#[test]
fn parse_empty_program() {
    assert_eq!(parse(""), Ok(vec![]));
}

#[test]
fn parse_plain_commands() {
    assert_eq!(
        parse("><+-.,"),
        Ok(vec![
            Instruction::MoveRight,
            Instruction::MoveLeft,
            Instruction::Increment,
            Instruction::Decrement,
            Instruction::Output,
            Instruction::Input,
        ])
    );
}

#[test]
fn parse_skips_other_characters() {
    assert_eq!(
        parse("a+ b\n-é[x]"),
        Ok(vec![
            Instruction::Increment,
            Instruction::Decrement,
            Instruction::JumpToLeft(3),
            Instruction::JumpToRight(2),
        ])
    );
}

#[test]
fn parse_resolves_nested_loops() {
    assert_eq!(
        parse("[+[-]]"),
        Ok(vec![
            Instruction::JumpToLeft(5),
            Instruction::Increment,
            Instruction::JumpToLeft(4),
            Instruction::Decrement,
            Instruction::JumpToRight(2),
            Instruction::JumpToRight(0),
        ])
    );
}

#[test]
fn parse_jump_targets_are_mutual() {
    let program = parse("++[>+[<-]>[-]]-[.]").unwrap();
    for (i, instruction) in program.iter().enumerate() {
        match *instruction {
            Instruction::JumpToLeft(j) => assert_eq!(program[j], Instruction::JumpToRight(i)),
            Instruction::JumpToRight(j) => assert_eq!(program[j], Instruction::JumpToLeft(i)),
            _ => {}
        }
    }
}

#[test]
fn parse_lone_left_bracket_fails() {
    assert_eq!(parse("["), Err(Error::UnbalancedLeftBracket));
}

#[test]
fn parse_lone_right_bracket_fails() {
    assert_eq!(parse("]"), Err(Error::UnbalancedRightBracket));
}

#[test]
fn parse_right_bracket_before_left_fails() {
    assert_eq!(parse("+][[["), Err(Error::UnbalancedRightBracket));
    assert_eq!(parse("[]]["), Err(Error::UnbalancedRightBracket));
}

#[test]
fn parse_extra_left_brackets_fail() {
    assert_eq!(parse("[[]"), Err(Error::UnbalancedLeftBracket));
    assert_eq!(parse("[+[-]>[<]"), Err(Error::UnbalancedLeftBracket));
}

#[test]
fn parse_twice_gives_identical_programs() {
    let text = "++++++++[>++++[>++>+++>+++>+<<<<-]>+>+>->>+[<]<-]>>.";
    assert_eq!(parse(text), parse(text));
    assert_eq!(parse("]"), parse("]"));
}

#[test]
fn parse_error_messages() {
    assert_eq!(
        Error::UnbalancedRightBracket.message(),
        "Expected matching `[` before `]`, found lone `]` first."
    );
    assert_eq!(
        Error::UnbalancedLeftBracket.message(),
        "Unbalanced `[`. Expected matching `]`, found end of file."
    );
}
