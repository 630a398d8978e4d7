use vstd::prelude::*;
use vstd::string::StrSliceExecFns;
use crate::ast::{Block, Instruction};

verus! {

/// The target languages a finished program can be rendered in.
#[derive(Debug, Clone, Copy, PartialEq, Eq, Structural)]
pub enum Language {
    JavaScript,
    Ruby,
    Python,
}

/// The kinds of instruction the menu offers.
#[derive(Debug, Clone, Copy, PartialEq, Eq, Structural)]
pub enum InstructionKind {
    Print,
    Declare,
    Assign,
    If,
    While,
    TryError,
    Function,
    Return,
}

/// The answer is exactly the one character `c`.
pub open spec fn is_answer(a: Seq<char>, c: char) -> bool {
    a.len() == 1 && a[0] == c
}

fn answer_is(answer: &str, c: char) -> (r: bool)
    ensures
        r == is_answer(answer@, c),
{
    answer.unicode_len() == 1 && answer.get_char(0) == c
}

/// The language a menu answer selects; any other answer selects none.
pub open spec fn language_of(a: Seq<char>) -> Option<Language> {
    if is_answer(a, '1') {
        Some(Language::JavaScript)
    } else if is_answer(a, '2') {
        Some(Language::Ruby)
    } else if is_answer(a, '3') {
        Some(Language::Python)
    } else {
        None
    }
}

/// The instruction kind a menu answer selects; any other answer selects none.
pub open spec fn kind_of(a: Seq<char>) -> Option<InstructionKind> {
    if is_answer(a, '1') {
        Some(InstructionKind::Print)
    } else if is_answer(a, '2') {
        Some(InstructionKind::Declare)
    } else if is_answer(a, '3') {
        Some(InstructionKind::Assign)
    } else if is_answer(a, '4') {
        Some(InstructionKind::If)
    } else if is_answer(a, '5') {
        Some(InstructionKind::While)
    } else if is_answer(a, '6') {
        Some(InstructionKind::TryError)
    } else if is_answer(a, '7') {
        Some(InstructionKind::Function)
    } else if is_answer(a, '8') {
        Some(InstructionKind::Return)
    } else {
        None
    }
}

/// Reads the answer to the language menu; `None` asks for the menu again.
pub fn choose_language(answer: &str) -> (r: Option<Language>)
    ensures
        r == language_of(answer@),
{
    if answer_is(answer, '1') {
        Some(Language::JavaScript)
    } else if answer_is(answer, '2') {
        Some(Language::Ruby)
    } else if answer_is(answer, '3') {
        Some(Language::Python)
    } else {
        None
    }
}

/// Reads the answer to the instruction menu; `None` asks for the menu again.
pub fn choose_instruction(answer: &str) -> (r: Option<InstructionKind>)
    ensures
        r == kind_of(answer@),
{
    if answer_is(answer, '1') {
        Some(InstructionKind::Print)
    } else if answer_is(answer, '2') {
        Some(InstructionKind::Declare)
    } else if answer_is(answer, '3') {
        Some(InstructionKind::Assign)
    } else if answer_is(answer, '4') {
        Some(InstructionKind::If)
    } else if answer_is(answer, '5') {
        Some(InstructionKind::While)
    } else if answer_is(answer, '6') {
        Some(InstructionKind::TryError)
    } else if answer_is(answer, '7') {
        Some(InstructionKind::Function)
    } else if answer_is(answer, '8') {
        Some(InstructionKind::Return)
    } else {
        None
    }
}

/// Reads a yes/no answer whose default is no: only `1` means yes.
pub fn is_yes(answer: &str) -> (r: bool)
    ensures
        r == is_answer(answer@, '1'),
{
    answer_is(answer, '1')
}

/// A block under construction: it grows one instruction at a time until
/// the user says to stop.
pub struct BlockBuilder {
    instructions: Vec<Instruction>,
    finished: bool,
}

impl BlockBuilder {
    /// The instructions added so far, in the order they were added.
    pub closed spec fn instructions(&self) -> Seq<Instruction> {
        self.instructions@
    }

    /// The user has ended the block.
    pub closed spec fn is_finished(&self) -> bool {
        self.finished
    }

    pub fn new() -> (r: BlockBuilder)
        ensures
            r.instructions() == Seq::<Instruction>::empty(),
            !r.is_finished(),
    {
        BlockBuilder { instructions: Vec::new(), finished: false }
    }

    /// Adds an instruction after those already there.
    pub fn push(&mut self, i: Instruction)
        requires
            !old(self).is_finished(),
        ensures
            final(self).instructions() == old(self).instructions().push(i),
            !final(self).is_finished(),
    {
        self.instructions.push(i);
    }

    /// Reads the answer to "go on with this block?": only `2` ends it; any
    /// other answer, an empty one included, goes on.
    pub fn answer_continue(&mut self, answer: &str)
        requires
            !old(self).is_finished(),
        ensures
            final(self).instructions() == old(self).instructions(),
            final(self).is_finished() == is_answer(answer@, '2'),
    {
        self.finished = answer_is(answer, '2');
    }

    /// Tells whether the user has ended the block.
    pub fn is_done(&self) -> (r: bool)
        ensures
            r == self.is_finished(),
    {
        self.finished
    }

    /// The finished block, in the order the instructions were added.
    pub fn finish(self) -> (r: Block)
        requires
            self.is_finished(),
        ensures
            r@ == self.instructions(),
    {
        self.instructions
    }
}

} // verus!
