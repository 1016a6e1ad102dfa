//! The parts of the assembler, one by one.

use assembler::assembler::{Assembler, Instruction};
use assembler::bitvec::BitVec;
use assembler::definition::Definition;
use assembler::error::{Error, Failure, Span};
use assembler::expr::{
    BinaryOp, Expression, ExpressionKind, ExpressionName, ExpressionValue, UnaryOp,
};
use assembler::integer::Integer;
use assembler::label::{LabelContext, LabelManager};
use assembler::parser::Parser;
use assembler::rule::{PatternSegment, Rule, RuleParameter};
use assembler::source::{IncludedFiles, ParsedExpression, Source};
use assembler::text::{decimal, parse_decimal, quote, text_is};
use assembler::token::{Token, TokenKind};

const HERE: Span = Span { file: 0, start: 1, end: 2 };

fn number(value: i64) -> ExpressionValue {
    ExpressionValue::Integer(Integer::new(value))
}

fn literal(value: i64) -> Expression {
    Expression { kind: ExpressionKind::Literal(number(value)), span: HERE }
}

fn global(name: &str) -> Expression {
    let name = ExpressionName::GlobalVariable(name.to_string());
    Expression { kind: ExpressionKind::Variable(name), span: HERE }
}

fn local(name: &str) -> Expression {
    let name = ExpressionName::LocalVariable(name.to_string());
    Expression { kind: ExpressionKind::Variable(name), span: HERE }
}

fn new_assembler(def: &Definition) -> Assembler<'_> {
    Assembler {
        def,
        cur_address: 0,
        cur_output: 0,
        labels: LabelManager::new(),
        unresolved_instructions: Vec::new(),
        unresolved_expressions: Vec::new(),
        output_bits: BitVec::new(),
    }
}

#[test]
fn decimal_numbers_are_written_out() {
    assert_eq!(decimal(0), "0");
    assert_eq!(decimal(9), "9");
    assert_eq!(decimal(1234567890), "1234567890");
    assert_eq!(decimal(usize::MAX), usize::MAX.to_string());
}

#[test]
fn decimal_numbers_are_read() {
    assert_eq!(parse_decimal("0"), Some(0));
    assert_eq!(parse_decimal("0063"), Some(63));
    assert_eq!(parse_decimal("+8"), Some(8));
    assert_eq!(parse_decimal(&usize::MAX.to_string()), Some(usize::MAX));
    assert_eq!(parse_decimal("99999999999999999999999"), None);
    assert_eq!(parse_decimal(""), None);
    assert_eq!(parse_decimal("+"), None);
    assert_eq!(parse_decimal("++1"), None);
    assert_eq!(parse_decimal("-1"), None);
    assert_eq!(parse_decimal("8x"), None);
    assert_eq!(parse_decimal("1\u{0661}"), None);
}

#[test]
fn text_is_compared_and_quoted() {
    assert!(text_is(&"pc".to_string(), "pc"));
    assert!(!text_is(&"pcx".to_string(), "pc"));
    assert_eq!(quote("unknown `", "x"), "unknown `x`");
}

#[test]
fn integers_are_as_wide_as_their_digits() {
    assert_eq!(Integer::new(0).get_width(), 1);
    assert_eq!(Integer::new(1).get_width(), 1);
    assert_eq!(Integer::new(2).get_width(), 2);
    assert_eq!(Integer::new(255).get_width(), 8);
    assert_eq!(Integer::new(256).get_width(), 9);
    assert_eq!(Integer::new(i64::MAX).get_width(), 63);
    assert_eq!(Integer::new(-1).get_width(), 64);
    assert_eq!(Integer { value: 1, explicit_width: Some(20) }.get_width(), 20);
}

#[test]
fn slices_keep_their_bits() {
    let value = Integer::new(0x12345678);
    assert_eq!(value.slice(7, 0), Integer { value: 0x78, explicit_width: Some(8) });
    assert_eq!(value.slice(15, 8), Integer { value: 0x56, explicit_width: Some(8) });
    assert_eq!(value.slice(4, 4), Integer { value: 1, explicit_width: Some(1) });
    assert_eq!(Integer::new(-1).slice(62, 0).value, i64::MAX);
    assert_eq!(Integer::new(-1).slice(63, 60).value, 15);
    for i in 0..16 {
        assert_eq!(value.slice(19, 4).get_bit(i), value.get_bit(i + 4));
    }
}

#[test]
fn bits_behind_the_last_repeat_the_sign() {
    assert!(Integer::new(-1).get_bit(64));
    assert!(Integer::new(-1).get_bit(1000));
    assert!(!Integer::new(i64::MAX).get_bit(64));
}

#[test]
fn bits_are_written_and_read_back() {
    let mut bits = BitVec::new();
    bits.set(3, &Integer::new(5));
    assert_eq!(bits.bits, [false, false, false, true, false, true]);
    bits.set(4, &Integer { value: 3, explicit_width: Some(3) });
    assert_eq!(bits.bits, [false, false, false, true, false, true, true]);
    bits.set(0, &Integer::new(1));
    assert_eq!(bits.bits, [true, false, false, true, false, true, true]);
}

#[test]
fn pieces_that_share_no_place_commute() {
    let (mut a, mut b) = (BitVec::new(), BitVec::new());
    a.set(0, &Integer::new(2));
    a.set(5, &Integer::new(3));
    b.set(5, &Integer::new(3));
    b.set(0, &Integer::new(2));
    assert_eq!(a.bits, b.bits);
}

#[test]
fn labels_are_kept_by_context() {
    let mut labels = LabelManager::new();
    let first = labels.get_cur_context();
    labels.add_local(first, "x".to_string(), number(1));
    labels.add_global("g".to_string(), number(2));
    let second = labels.get_cur_context();
    assert_ne!(first, second);
    assert!(labels.does_global_exist("g"));
    assert!(!labels.does_global_exist("x"));
    assert!(labels.does_local_exist(first, "x"));
    assert!(!labels.does_local_exist(second, "x"));
    labels.add_local(second, "x".to_string(), number(3));
    assert_eq!(labels.get_local(first, "x"), Some(number(1)));
    assert_eq!(labels.get_local(second, "x"), Some(number(3)));
    assert_eq!(labels.get_global("g"), Some(number(2)));
    assert_eq!(labels.get_global("h"), None);
    assert_eq!(labels.get_local(LabelContext { index: 9 }, "x"), None);
}

#[test]
fn known_values_stay() {
    let def = Definition { align_bits: 8, rules: vec![] };
    let mut assembler = new_assembler(&def);
    assembler.labels.add_global("a".to_string(), number(7));
    let ctx = assembler.labels.get_cur_context();
    assert!(assembler.can_resolve_expr(&global("a"), ctx));
    assert!(assembler.can_resolve_expr(&global("pc"), ctx));
    assert!(assembler.can_resolve_expr(&literal(1), ctx));
    assert!(!assembler.can_resolve_expr(&global("b"), ctx));
    assert!(!assembler.can_resolve_expr(&local("a"), ctx));
    assembler.labels.add_global("b".to_string(), number(8));
    assert!(assembler.can_resolve_expr(&global("b"), ctx));
    assert_eq!(assembler.resolve_expr(&global("a"), ctx, 3).unwrap(), number(7));
    assert_eq!(assembler.resolve_expr(&global("pc"), ctx, 3).unwrap(), number(3));
}

#[test]
fn numbers_are_extracted() {
    let def = Definition { align_bits: 8, rules: vec![] };
    let assembler = new_assembler(&def);
    assert_eq!(assembler.extract_integer(number(5), HERE).unwrap(), 5);
    assert_eq!(assembler.extract_integer(number(-1), HERE).unwrap(), (-1i64) as usize);
    assert!(assembler.extract_integer(ExpressionValue::Boolean(true), HERE).is_err());
}

#[test]
fn positions_move_in_step() {
    let def = Definition { align_bits: 8, rules: vec![] };
    let mut assembler = new_assembler(&def);
    assembler.cur_address = 100;
    assembler.advance_address(24).unwrap();
    assert_eq!((assembler.cur_address, assembler.cur_output), (103, 3));
    assembler.output_aligned(&Integer { value: 0x102, explicit_width: Some(16) }).unwrap();
    assert_eq!((assembler.cur_address, assembler.cur_output), (105, 5));
    assert_eq!(assembler.output_bits.bits.len(), 40);
    assembler.cur_address = usize::MAX;
    assert!(matches!(assembler.advance_address(8), Err(Failure::Overflow)));
}

#[test]
fn unknown_data_keeps_its_place() {
    let def = Definition { align_bits: 8, rules: vec![] };
    let mut assembler = new_assembler(&def);
    assembler.output_expression(global("later"), 16).unwrap();
    assembler.output_expression(literal(1), 16).unwrap();
    assert_eq!((assembler.cur_address, assembler.cur_output), (4, 4));
    assert_eq!(assembler.unresolved_expressions.len(), 1);
    assert_eq!(assembler.unresolved_expressions[0].output, 0);
    assert_eq!(assembler.unresolved_expressions[0].data_width, 16);
    assert_eq!(assembler.output_bits.bits.len(), 32);
}

fn simple_rule() -> Rule {
    Rule {
        pattern_segments: vec![
            PatternSegment::Exact("set".to_string()),
            PatternSegment::Parameter(0),
        ],
        parameters: vec![RuleParameter {
            name: "x".to_string(),
            allow_unresolved: true,
            constraint: None,
        }],
        production_segments: vec![global("x")],
        production_bit_num: 8,
    }
}

#[test]
fn instructions_keep_their_place() {
    let def = Definition { align_bits: 8, rules: vec![simple_rule()] };
    assert!(def.is_well_formed());
    let mut assembler = new_assembler(&def);
    let label_ctx = assembler.labels.get_cur_context();
    for argument in [global("later"), literal(255)] {
        let instr = Instruction {
            rule_index: 0,
            label_ctx,
            address: assembler.cur_address,
            output: assembler.cur_output,
            arguments: vec![argument],
        };
        assembler.output_instruction(instr).unwrap();
    }
    assert_eq!((assembler.cur_address, assembler.cur_output), (2, 2));
    assert_eq!(assembler.unresolved_instructions.len(), 1);
    assert_eq!(assembler.output_bits.bits[8..], [true; 8]);
}

#[test]
fn rules_are_checked() {
    assert!(simple_rule().is_well_formed(8));
    assert!(!simple_rule().is_well_formed(3));
    let mut rule = simple_rule();
    rule.pattern_segments.pop();
    assert!(!rule.is_well_formed(8));
    let mut rule = simple_rule();
    rule.pattern_segments.push(PatternSegment::Parameter(1));
    assert!(!rule.is_well_formed(8));
    let mut rule = simple_rule();
    rule.production_segments.push(global("y"));
    assert!(!rule.is_well_formed(8));
    let mut rule = simple_rule();
    rule.production_segments.push(local("x"));
    assert!(!rule.is_well_formed(8));
    let mut rule = simple_rule();
    rule.parameters[0].constraint = Some(global("x"));
    assert!(!rule.is_well_formed(8));
    rule.parameters[0].constraint = Some(global("_"));
    assert!(rule.is_well_formed(8));
    assert!(!Definition { align_bits: 0, rules: vec![] }.is_well_formed());
}

#[test]
fn parameters_are_found_by_name() {
    let mut rule = simple_rule();
    rule.parameters.push(RuleParameter {
        name: "y".to_string(),
        allow_unresolved: false,
        constraint: Some(global("_")),
    });
    assert_eq!(rule.get_parameter("x"), Some(0));
    assert_eq!(rule.get_parameter("y"), Some(1));
    assert_eq!(rule.get_parameter("z"), None);
    assert!(rule.get_parameter_allow_unresolved(0));
    assert!(!rule.get_parameter_allow_unresolved(1));
    assert!(rule.get_parameter_constraint(0).is_none());
    assert!(rule.get_parameter_constraint(1).is_some());
}

fn token(kind: TokenKind) -> Token {
    Token { kind, span: HERE }
}

fn failed() -> ParsedExpression {
    ParsedExpression::Failed(Error::new_with_span("no expression".to_string(), HERE))
}

#[test]
fn sources_are_checked() {
    let mut source = Source {
        filename: "f".to_string(),
        tokens: vec![token(TokenKind::LineBreak)],
        end: token(TokenKind::End),
        expressions: vec![failed(), failed()],
    };
    assert!(source.is_well_formed());
    source.expressions[1] = ParsedExpression::Parsed { expr: literal(1), length: 1 };
    assert!(!source.is_well_formed());
    source.expressions.pop();
    assert!(!source.is_well_formed());
    source.expressions.push(failed());
    source.end = token(TokenKind::LineBreak);
    assert!(!source.is_well_formed());
}

#[test]
fn parser_reads_token_by_token() {
    let source = Source {
        filename: "f".to_string(),
        tokens: vec![
            token(TokenKind::LineBreak),
            token(TokenKind::Identifier("a".to_string())),
            token(TokenKind::Operator(",".to_string())),
            token(TokenKind::Text("t".to_string())),
            token(TokenKind::Number("5".to_string())),
            token(TokenKind::LineBreak),
            token(TokenKind::LineBreak),
        ],
        end: token(TokenKind::End),
        expressions: vec![
            failed(),
            failed(),
            failed(),
            failed(),
            ParsedExpression::Parsed { expr: literal(5), length: 1 },
            failed(),
            failed(),
            failed(),
        ],
    };
    assert!(source.is_well_formed());
    let mut parser = Parser::new(&source);
    assert_eq!(parser.get_filename(), "f");
    assert_eq!(parser.index, 1);
    assert!(parser.current().is_identifier());
    assert!(parser.next(1).is_operator(","));
    assert!(!parser.next(1).is_operator("."));
    assert!(matches!(parser.next(100).kind, TokenKind::End));
    assert_eq!(parser.expect_identifier().unwrap().0, "a");
    assert!(parser.expect_string().is_err());
    assert!(parser.expect_operator(".").is_err());
    assert!(!parser.match_operator("."));
    assert!(parser.match_operator(","));
    assert_eq!(parser.expect_string().unwrap(), "t");
    let copy = parser.clone_from_current();
    parser.expect_expression().unwrap();
    assert_eq!(copy.index, 4);
    assert!(parser.expect_expression().is_err());
    parser.expect_linebreak_or_end().unwrap();
    assert!(parser.is_over());
    parser.expect_linebreak_or_end().unwrap();
}

#[test]
fn missing_operators_are_named() {
    let source = Source {
        filename: "f".to_string(),
        tokens: vec![],
        end: token(TokenKind::End),
        expressions: vec![failed()],
    };
    let mut parser = Parser::new(&source);
    match parser.expect_operator("=") {
        Err(Failure::Error(error)) => assert_eq!(error.message, "expected `=`"),
        other => panic!("{:?}", other),
    }
}

#[test]
fn files_are_found_by_who_asks() {
    let files = IncludedFiles { files: vec![], max_depth: 0 };
    assert!(files.is_well_formed());
    assert!(files.find(&"a".to_string(), &"b".to_string()).is_none());
}

fn unary(op: UnaryOp, x: ExpressionValue) -> Result<ExpressionValue, Failure> {
    let x = Expression { kind: ExpressionKind::Literal(x), span: HERE };
    value_of(ExpressionKind::Unary(op, Box::new(x)))
}

fn binary(
    op: BinaryOp,
    x: ExpressionValue,
    y: ExpressionValue,
) -> Result<ExpressionValue, Failure> {
    let x = Expression { kind: ExpressionKind::Literal(x), span: HERE };
    let y = Expression { kind: ExpressionKind::Literal(y), span: HERE };
    value_of(ExpressionKind::Binary(op, Box::new(x), Box::new(y)))
}

fn value_of(kind: ExpressionKind) -> Result<ExpressionValue, Failure> {
    let def = Definition { align_bits: 8, rules: vec![] };
    let assembler = new_assembler(&def);
    assembler.resolve_expr_current(&Expression { kind, span: HERE })
}

#[test]
fn operators_on_integers() {
    let cases = [
        (BinaryOp::Add, 7, 5, 12),
        (BinaryOp::Sub, 5, 7, -2),
        (BinaryOp::Mul, -3, 4, -12),
        (BinaryOp::Shl, 3, 4, 48),
        (BinaryOp::Shl, 3, 63, i64::MIN),
        (BinaryOp::Shr, -16, 2, -4),
        (BinaryOp::And, 12, 10, 8),
        (BinaryOp::Or, 12, 10, 14),
        (BinaryOp::Xor, 12, 10, 6),
    ];
    for (op, a, b, expected) in cases {
        assert_eq!(binary(op, number(a), number(b)).unwrap(), number(expected));
    }
    assert_eq!(unary(UnaryOp::Neg, number(5)).unwrap(), number(-5));
    assert_eq!(unary(UnaryOp::Not, number(5)).unwrap(), number(-6));
}

#[test]
fn comparisons_of_integers() {
    let cases = [
        (BinaryOp::Eq, [false, true, false]),
        (BinaryOp::Neq, [true, false, true]),
        (BinaryOp::Lt, [true, false, false]),
        (BinaryOp::Lte, [true, true, false]),
        (BinaryOp::Gt, [false, false, true]),
        (BinaryOp::Gte, [false, true, true]),
    ];
    for (op, expected) in cases {
        for (a, holds) in [1, 2, 3].iter().zip(expected) {
            let value = binary(op, number(*a), number(2)).unwrap();
            assert_eq!(value, ExpressionValue::Boolean(holds));
        }
    }
}

#[test]
fn operators_on_truth_values() {
    let t = ExpressionValue::Boolean(true);
    let f = ExpressionValue::Boolean(false);
    assert_eq!(binary(BinaryOp::And, t, f).unwrap(), f);
    assert_eq!(binary(BinaryOp::Or, t, f).unwrap(), t);
    assert_eq!(binary(BinaryOp::Xor, t, t).unwrap(), f);
    assert_eq!(binary(BinaryOp::Eq, f, f).unwrap(), t);
    assert_eq!(binary(BinaryOp::Neq, f, f).unwrap(), f);
    assert_eq!(unary(UnaryOp::Not, t).unwrap(), f);
    assert!(matches!(unary(UnaryOp::Neg, t), Err(Failure::Error(_))));
    assert!(matches!(binary(BinaryOp::Add, t, f), Err(Failure::Error(_))));
    assert!(matches!(binary(BinaryOp::Eq, t, number(1)), Err(Failure::Error(_))));
}

#[test]
fn operators_that_leave_the_range() {
    assert!(matches!(unary(UnaryOp::Neg, number(i64::MIN)), Err(Failure::Overflow)));
    assert!(matches!(binary(BinaryOp::Sub, number(i64::MIN), number(1)), Err(Failure::Overflow)));
    assert!(matches!(binary(BinaryOp::Shl, number(1), number(64)), Err(Failure::Overflow)));
    assert!(matches!(binary(BinaryOp::Shr, number(1), number(-1)), Err(Failure::Overflow)));
}

#[test]
fn slices_may_be_wider_than_their_value() {
    assert_eq!(
        Integer::new(-2).slice(63, 0),
        Integer { value: -2, explicit_width: Some(64) }
    );
    assert_eq!(
        Integer::new(5).slice(99, 0),
        Integer { value: 5, explicit_width: Some(100) }
    );
    assert_eq!(Integer::new(-1).slice(70, 64).value, 127);
    assert_eq!(Integer::new(i64::MAX).slice(70, 64).value, 0);
    assert_eq!(Integer::new(i64::MIN).slice(64, 62).value, 6);
}

#[test]
fn data_may_be_wider_than_its_value() {
    let def = Definition { align_bits: 8, rules: vec![] };
    let mut assembler = new_assembler(&def);
    assembler.output_expression(literal(-1), 80).unwrap();
    assembler.output_expression(literal(1), 80).unwrap();
    assembler.output_expression(global("later"), 80).unwrap();
    assert_eq!((assembler.cur_address, assembler.cur_output), (30, 30));
    assert_eq!(assembler.output_bits.bits[..80], [true; 80]);
    assert_eq!(assembler.output_bits.bits[80..159], [false; 79]);
    assert!(assembler.output_bits.bits[159]);
}
