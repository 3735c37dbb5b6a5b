//! Turning program text into an instruction sequence with resolved loop jumps.
use vstd::prelude::*;

verus! {

/// One step of a compiled program.
#[derive(Clone, Copy, Debug, PartialEq, Eq, Structural)]
pub enum Instruction {
    /// Increment the memory pointer by one
    MoveRight,
    /// Decrement the memory pointer by one
    MoveLeft,
    /// Increment the memory value at the memory pointer by one
    Increment,
    /// Decrement the memory value at the memory pointer by one
    Decrement,
    /// Output the value of the current memory pointer as a char
    Output,
    /// Set the memory value at the current memory pointer to a byte read from the input.
    Input,
    /// This is the left side of a loop.
    /// If the memory value at the memory pointer is zero, set the next instruction to the
    /// contained value.
    JumpToLeft(usize),
    /// This is the right side of a loop.
    /// If the memory value at the memory pointer is non-zero, set the next instruction to the
    /// contained value.
    JumpToRight(usize),
}

/// Why parsing a program failed.
#[derive(Clone, Copy, Debug, PartialEq, Eq, Structural)]
pub enum Error {
    /// A right bracket was found with no unmatched left brackets preceding it.
    UnbalancedRightBracket,
    /// The input ended before right brackets were found to match all left brackets.
    UnbalancedLeftBracket,
}

impl Error {
    /// A sentence describing the value, for people.
    pub fn message(&self) -> (r: String)
        ensures
            r@ == match *self {
                Error::UnbalancedRightBracket => "Expected matching `[` before `]`, found lone `]` first."@,
                Error::UnbalancedLeftBracket => "Unbalanced `[`. Expected matching `]`, found end of file."@,
            },
    {
        match self {
            Error::UnbalancedRightBracket => String::from_str("Expected matching `[` before `]`, found lone `]` first."),
            Error::UnbalancedLeftBracket => String::from_str("Unbalanced `[`. Expected matching `]`, found end of file."),
        }
    }
}

/// The eight characters that stand for an instruction; every other character is a comment.
pub open spec fn is_command(c: char) -> bool {
    c == '>' || c == '<' || c == '+' || c == '-' || c == '.' || c == ',' || c == '[' || c == ']'
}

/// The characters of `s` that stand for instructions, in order.
pub open spec fn commands(s: Seq<char>) -> Seq<char>
    decreases s.len(),
{
    if s.len() == 0 {
        Seq::empty()
    } else if is_command(s.last()) {
        commands(s.drop_last()).push(s.last())
    } else {
        commands(s.drop_last())
    }
}

/// How a character changes the loop nesting depth.
pub open spec fn bracket_delta(c: char) -> int {
    if c == '[' {
        1
    } else if c == ']' {
        -1
    } else {
        0
    }
}

/// The number of `[` minus the number of `]` in `t`.
pub open spec fn balance(t: Seq<char>) -> int
    decreases t.len(),
{
    if t.len() == 0 {
        0
    } else {
        balance(t.drop_last()) + bracket_delta(t.last())
    }
}

/// The nesting depth just before position `m` of `t`.
pub open spec fn depth_at(t: Seq<char>, m: int) -> int {
    balance(t.take(m))
}

/// Some prefix of `t` closes more loops than it opened: a `]` has no `[` to match.
pub open spec fn has_unmatched_right(t: Seq<char>) -> bool {
    exists|m: int| 0 <= m <= t.len() && #[trigger] depth_at(t, m) < 0
}

/// Every `]` closes an earlier `[`, and every `[` is closed.
pub open spec fn well_bracketed(t: Seq<char>) -> bool {
    !has_unmatched_right(t) && balance(t) == 0
}

/// The `[` at position `i` of `t` is closed by the `]` at position `j`: the depth
/// first comes back to its level before `i` just after `j`.
pub open spec fn brackets_match(t: Seq<char>, i: int, j: int) -> bool {
    &&& 0 <= i < j < t.len()
    &&& t[i] == '['
    &&& t[j] == ']'
    &&& depth_at(t, j + 1) == depth_at(t, i)
    &&& forall|m: int| i < m <= j ==> #[trigger] depth_at(t, m) > depth_at(t, i)
}

/// Instruction `i` of `v` is the one that command `i` of `t` stands for.
pub open spec fn instruction_for(t: Seq<char>, v: Seq<Instruction>, i: int) -> bool {
    match v[i] {
        Instruction::MoveRight => t[i] == '>',
        Instruction::MoveLeft => t[i] == '<',
        Instruction::Increment => t[i] == '+',
        Instruction::Decrement => t[i] == '-',
        Instruction::Output => t[i] == '.',
        Instruction::Input => t[i] == ',',
        Instruction::JumpToLeft(j) => brackets_match(t, i, j as int),
        Instruction::JumpToRight(j) => brackets_match(t, j as int, i),
    }
}

/// `v` is the compiled form of the command sequence `t`.
pub open spec fn compiles_to(t: Seq<char>, v: Seq<Instruction>) -> bool {
    &&& v.len() == t.len()
    &&& forall|i: int| 0 <= i < t.len() ==> #[trigger] instruction_for(t, v, i)
}

/// Position `p` holds a `[` that is still open at the end of `t`, at depth `q`.
spec fn pending_at(t: Seq<char>, p: int, q: int) -> bool {
    &&& 0 <= p < t.len()
    &&& t[p] == '['
    &&& depth_at(t, p) == q
    &&& forall|m: int| p < m <= t.len() ==> #[trigger] depth_at(t, m) > q
}

/// `w` lists the open `[` positions of `t`, outermost first.
spec fn pending_ok(t: Seq<char>, w: Seq<usize>) -> bool {
    &&& w.len() == balance(t)
    &&& forall|a: int, b: int| 0 <= a < b < w.len() ==> w[a] < w[b]
    &&& forall|q: int| 0 <= q < w.len() ==> pending_at(t, #[trigger] w[q] as int, q)
}

proof fn lemma_depth_push(t: Seq<char>, c: char)
    ensures
        depth_at(t, t.len() as int) == balance(t),
        depth_at(t.push(c), t.len() + 1 as int) == balance(t) + bracket_delta(c),
        balance(t.push(c)) == balance(t) + bracket_delta(c),
        forall|m: int| 0 <= m <= t.len() ==> #[trigger] depth_at(t.push(c), m) == depth_at(t, m),
{
    assert(t.take(t.len() as int) =~= t);
    assert(t.push(c).take(t.len() + 1 as int) =~= t.push(c));
    assert(t.push(c).drop_last() =~= t);
    assert forall|m: int| 0 <= m <= t.len() implies #[trigger] depth_at(t.push(c), m) == depth_at(t, m) by {
        assert(t.push(c).take(m) =~= t.take(m));
    }
}

proof fn lemma_commands_prefix(s: Seq<char>, k: int)
    requires
        0 <= k <= s.len(),
    ensures
        commands(s.take(k)).len() <= commands(s).len(),
        commands(s).take(commands(s.take(k)).len() as int) == commands(s.take(k)),
    decreases s.len(),
{
    if k == s.len() {
        assert(s.take(k) =~= s);
        assert(commands(s).take(commands(s).len() as int) =~= commands(s));
    } else {
        assert(s.take(k) =~= s.drop_last().take(k));
        lemma_commands_prefix(s.drop_last(), k);
        let p = commands(s.take(k));
        let d = commands(s.drop_last());
        if is_command(s.last()) {
            assert(d.push(s.last()).take(p.len() as int) =~= d.take(p.len() as int));
        }
    }
}

proof fn lemma_prefix_depth(t: Seq<char>, t2: Seq<char>, m: int)
    requires
        t.len() <= t2.len(),
        t2.take(t.len() as int) == t,
        0 <= m <= t.len(),
    ensures
        depth_at(t2, m) == depth_at(t, m),
{
    assert(t2.take(m) =~= t.take(m));
}

proof fn lemma_instruction_for_extend(
    t: Seq<char>,
    v: Seq<Instruction>,
    t2: Seq<char>,
    v2: Seq<Instruction>,
    i: int,
)
    requires
        0 <= i < t.len(),
        t.len() <= t2.len(),
        t2.take(t.len() as int) == t,
        i < v.len(),
        i < v2.len(),
        v2[i] == v[i],
        instruction_for(t, v, i),
    ensures
        instruction_for(t2, v2, i),
{
    assert forall|m: int| 0 <= m <= t.len() implies #[trigger] depth_at(t2, m) == depth_at(t, m) by {
        lemma_prefix_depth(t, t2, m);
    }
    assert(t2[i] == t[i]);
    match v[i] {
        Instruction::JumpToLeft(j) => {
            assert(t2[j as int] == t[j as int]);
        },
        Instruction::JumpToRight(j) => {
            assert(t2[j as int] == t[j as int]);
        },
        _ => {},
    }
}

/// Compiles program text into instructions, one per command character, with each loop
/// bracket holding the position of its partner. Other characters are skipped.
pub fn parse_instructions(input: &[char]) -> (r: Result<Vec<Instruction>, Error>)
    ensures
        r is Ok <==> well_bracketed(commands(input@)),
        (r matches Err(Error::UnbalancedRightBracket)) <==> has_unmatched_right(commands(input@)),
        (r matches Err(Error::UnbalancedLeftBracket)) <==> !has_unmatched_right(commands(input@))
            && balance(commands(input@)) > 0,
        r matches Ok(v) ==> compiles_to(commands(input@), v@),
{
    // positions of the `[` instructions still waiting for their `]`
    let mut waiting_opening_jumps: Vec<usize> = Vec::new();
    let mut instructions: Vec<Instruction> = Vec::new();
    let ghost mut t: Seq<char> = Seq::empty();
    let mut k: usize = 0;
    while k < input.len()
        invariant
            0 <= k <= input@.len(),
            t == commands(input@.take(k as int)),
            instructions@.len() == t.len(),
            !has_unmatched_right(t),
            pending_ok(t, waiting_opening_jumps@),
            forall|i: int|
                0 <= i < t.len() && !waiting_opening_jumps@.contains(i as usize)
                    ==> #[trigger] instruction_for(t, instructions@, i),
        decreases input@.len() - k,
    {
        let c = input[k];
        let ghost t0 = t;
        let ghost v0 = instructions@;
        let ghost w0 = waiting_opening_jumps@;
        proof {
            assert(input@.take(k + 1 as int).drop_last() =~= input@.take(k as int));
            lemma_depth_push(t0, c);
        }
        let pos = instructions.len();
        match c {
            '>' => instructions.push(Instruction::MoveRight),
            '<' => instructions.push(Instruction::MoveLeft),
            '+' => instructions.push(Instruction::Increment),
            '-' => instructions.push(Instruction::Decrement),
            '.' => instructions.push(Instruction::Output),
            ',' => instructions.push(Instruction::Input),
            '[' => {
                waiting_opening_jumps.push(pos);
                // placeholder, replaced when the matching `]` is found
                instructions.push(Instruction::JumpToLeft(0));
            },
            ']' => {
                match waiting_opening_jumps.pop() {
                    Some(left_jump) => {
                        instructions.set(left_jump, Instruction::JumpToLeft(pos));
                        instructions.push(Instruction::JumpToRight(left_jump));
                    },
                    None => {
                        proof {
                            let t1 = t0.push(c);
                            assert(depth_at(t1, t0.len() + 1 as int) < 0);
                            lemma_commands_prefix(input@, k + 1);
                            lemma_prefix_depth(t1, commands(input@), t0.len() + 1 as int);
                            assert(depth_at(commands(input@), t0.len() + 1 as int) < 0);
                        }
                        return Err(Error::UnbalancedRightBracket);
                    },
                }
            },
            _ => {},
        }
        proof {
            if is_command(c) {
                t = t0.push(c);
                let v1 = instructions@;
                let w1 = waiting_opening_jumps@;
                assert(t.take(t0.len() as int) =~= t0);
                assert forall|m: int| 0 <= m <= t.len() implies #[trigger] depth_at(t, m) >= 0 by {
                    if m <= t0.len() {
                        assert(!(depth_at(t0, m) < 0));
                    }
                }
                assert forall|q: int| 0 <= q < w1.len() implies pending_at(t, #[trigger] w1[q] as int, q) by {
                    if q < w0.len() && w0[q] == w1[q] {
                        assert(pending_at(t0, w0[q] as int, q));
                    }
                }
                if c == ']' {
                    let p = w0.last() as int;
                    assert(w1 =~= w0.drop_last());
                    assert(pending_at(t0, w0[w0.len() - 1] as int, w0.len() - 1));
                    assert(brackets_match(t, p, t0.len() as int));
                    assert(instruction_for(t, v1, t0.len() as int));
                    assert(instruction_for(t, v1, p));
                }
                assert forall|i: int|
                    0 <= i < t.len() && !w1.contains(i as usize)
                        implies #[trigger] instruction_for(t, v1, i) by {
                    if i == t0.len() {
                        assert(t[i] == c);
                        if c == '[' {
                            assert(w1[w1.len() - 1] == i as usize);
                        }
                    } else if c == ']' && i == w0.last() as int {
                    } else {
                        assert(v1[i] == v0[i]);
                        if w0.contains(i as usize) {
                            let q = choose|q: int| 0 <= q < w0.len() && w0[q] == i as usize;
                            assert(w1[q] == w0[q]);
                        }
                        lemma_instruction_for_extend(t0, v0, t, v1, i);
                    }
                }
            } else {
                assert(commands(input@.take(k + 1 as int)) == t0);
            }
        }
        k = k + 1;
    }
    proof {
        assert(input@.take(k as int) =~= input@);
        lemma_depth_push(t, 'a');
    }
    if waiting_opening_jumps.len() > 0 {
        return Err(Error::UnbalancedLeftBracket);
    }
    proof {
        assert forall|i: int| 0 <= i < t.len() implies #[trigger] instruction_for(t, instructions@, i) by {
            assert(!waiting_opening_jumps@.contains(i as usize));
        }
    }
    Ok(instructions)
}

proof fn lemma_match_opening_unique(t: Seq<char>, i: int, k: int, j: int)
    requires
        brackets_match(t, i, j),
        brackets_match(t, k, j),
    ensures
        i == k,
{
    if i < k {
        assert(depth_at(t, k) > depth_at(t, i));
    } else if k < i {
        assert(depth_at(t, i) > depth_at(t, k));
    }
}

proof fn lemma_match_closing_unique(t: Seq<char>, i: int, j: int, k: int)
    requires
        brackets_match(t, i, j),
        brackets_match(t, i, k),
    ensures
        j == k,
{
    if j < k {
        assert(depth_at(t, j + 1) > depth_at(t, i));
    } else if k < j {
        assert(depth_at(t, k + 1) > depth_at(t, i));
    }
}

/// In a compiled program every loop jump names the position of its partner, and that
/// partner names it back: a `JumpToLeft` at `i` targeting `j` faces a `JumpToRight(i)`
/// at `j`, and the other way round.
pub proof fn lemma_jumps_are_mutual(t: Seq<char>, v: Seq<Instruction>)
    requires
        compiles_to(t, v),
    ensures
        forall|i: int|
            0 <= i < v.len() ==> (#[trigger] v[i] matches Instruction::JumpToLeft(j) ==> j < v.len()
                && v[j as int] == Instruction::JumpToRight(i as usize)),
        forall|i: int|
            0 <= i < v.len() ==> (#[trigger] v[i] matches Instruction::JumpToRight(j) ==> j < v.len()
                && v[j as int] == Instruction::JumpToLeft(i as usize)),
{
    assert forall|i: int|
        0 <= i < v.len() implies (#[trigger] v[i] matches Instruction::JumpToLeft(j) ==> j < v.len()
            && v[j as int] == Instruction::JumpToRight(i as usize)) by {
        assert(instruction_for(t, v, i));
        if let Instruction::JumpToLeft(j) = v[i] {
            assert(instruction_for(t, v, j as int));
            if let Instruction::JumpToRight(k) = v[j as int] {
                lemma_match_opening_unique(t, i, k as int, j as int);
            }
        }
    }
    assert forall|i: int|
        0 <= i < v.len() implies (#[trigger] v[i] matches Instruction::JumpToRight(j) ==> j < v.len()
            && v[j as int] == Instruction::JumpToLeft(i as usize)) by {
        assert(instruction_for(t, v, i));
        if let Instruction::JumpToRight(j) = v[i] {
            assert(instruction_for(t, v, j as int));
            if let Instruction::JumpToLeft(k) = v[j as int] {
                lemma_match_closing_unique(t, j as int, i, k as int);
            }
        }
    }
}

/// A command sequence has exactly one compiled form, so parsing the same text twice
/// gives identical instruction sequences.
pub proof fn lemma_compiled_form_unique(t: Seq<char>, v1: Seq<Instruction>, v2: Seq<Instruction>)
    requires
        compiles_to(t, v1),
        compiles_to(t, v2),
    ensures
        v1 == v2,
{
    assert forall|i: int| 0 <= i < v1.len() implies v1[i] == v2[i] by {
        assert(instruction_for(t, v1, i));
        assert(instruction_for(t, v2, i));
        match (v1[i], v2[i]) {
            (Instruction::JumpToLeft(a), Instruction::JumpToLeft(b)) => {
                lemma_match_closing_unique(t, i, a as int, b as int);
            },
            (Instruction::JumpToRight(a), Instruction::JumpToRight(b)) => {
                lemma_match_opening_unique(t, a as int, b as int, i);
            },
            _ => {},
        }
    }
    assert(v1 =~= v2);
}

} // verus!
