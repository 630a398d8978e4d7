use sila_builder::ast::{Expr, Instruction, Operator};
use sila_builder::dialogue::{choose_instruction, choose_language, is_yes, BlockBuilder, InstructionKind, Language};

#[test]
fn language_menu() {
    assert_eq!(choose_language("1"), Some(Language::JavaScript));
    assert_eq!(choose_language("2"), Some(Language::Ruby));
    assert_eq!(choose_language("3"), Some(Language::Python));
    assert_eq!(choose_language("4"), None);
    assert_eq!(choose_language(""), None);
    assert_eq!(choose_language("12"), None);
}

#[test]
fn instruction_menu() {
    assert_eq!(choose_instruction("1"), Some(InstructionKind::Print));
    assert_eq!(choose_instruction("3"), Some(InstructionKind::Assign));
    assert_eq!(choose_instruction("7"), Some(InstructionKind::Function));
    assert_eq!(choose_instruction("8"), Some(InstructionKind::Return));
    assert_eq!(choose_instruction("9"), None);
    assert_eq!(choose_instruction("x"), None);
}

#[test]
fn yes_defaults_to_no() {
    assert!(is_yes("1"));
    assert!(!is_yes("2"));
    assert!(!is_yes(""));
}

#[test]
fn block_keeps_instruction_order() {
    let mut b = BlockBuilder::new();
    b.push(Instruction::Print(Expr::Operator(Operator::Add)));
    b.answer_continue("");
    b.push(Instruction::Let("x".to_string(), Expr::Expr(vec![])));
    b.answer_continue("1");
    b.push(Instruction::Return(None));
    b.answer_continue("2");
    let block = b.finish();
    assert_eq!(block.len(), 3);
    assert!(matches!(block[0], Instruction::Print(_)));
    assert!(matches!(&block[1], Instruction::Let(n, _) if n == "x"));
    assert!(matches!(block[2], Instruction::Return(None)));
}
