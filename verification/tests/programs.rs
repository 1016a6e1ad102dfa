//! Whole programs. A small front end cuts the text of a program into tokens and reads the
//! expressions.

use assembler::assemble;
use assembler::assembler::Assembler;
use assembler::bitvec::BitVec;
use assembler::definition::Definition;
use assembler::error::{Error, Failure, Span};
use assembler::expr::{
    BinaryOp, Expression, ExpressionKind, ExpressionName, ExpressionValue, UnaryOp,
};
use assembler::integer::Integer;
use assembler::label::LabelManager;
use assembler::parser::Parser;
use assembler::rule::{PatternSegment, Rule, RuleParameter};
use assembler::source::{IncludedFile, IncludedFiles, ParsedExpression, Source};
use assembler::token::{Token, TokenKind};

fn tokenize(text: &str) -> Vec<Token> {
    let chars: Vec<char> = text.chars().collect();
    let mut tokens = Vec::new();
    let mut i = 0;
    while i < chars.len() {
        let start = i;
        let c = chars[i];
        let kind = if c == ' ' {
            i += 1;
            continue;
        } else if c == '\n' {
            i += 1;
            TokenKind::LineBreak
        } else if c == '"' {
            i += 1;
            while chars[i] != '"' {
                i += 1;
            }
            i += 1;
            TokenKind::Text(chars[start + 1..i - 1].iter().collect())
        } else if c.is_alphanumeric() || c == '_' {
            while i < chars.len() && (chars[i].is_alphanumeric() || chars[i] == '_') {
                i += 1;
            }
            let word: String = chars[start..i].iter().collect();
            if c.is_ascii_digit() {
                TokenKind::Number(word)
            } else {
                TokenKind::Identifier(word)
            }
        } else {
            i += 1;
            if c == '=' && i < chars.len() && chars[i] == '=' {
                i += 1;
            }
            TokenKind::Operator(chars[start..i].iter().collect())
        };
        tokens.push(Token { kind, span: Span { file: 0, start, end: i } });
    }
    tokens
}

struct Reader<'a> {
    tokens: &'a [Token],
    index: usize,
}

impl<'a> Reader<'a> {
    fn is_operator(&self, op: &str) -> bool {
        self.index < self.tokens.len() && self.tokens[self.index].is_operator(op)
    }

    fn place(&self) -> Span {
        if self.index < self.tokens.len() {
            self.tokens[self.index].span
        } else {
            Span { file: 0, start: 999, end: 999 }
        }
    }

    fn number(&mut self) -> Option<i64> {
        if self.index < self.tokens.len() {
            if let TokenKind::Number(text) = &self.tokens[self.index].kind {
                self.index += 1;
                return Some(match text.strip_prefix("0x") {
                    Some(digits) => i64::from_str_radix(digits, 16).unwrap(),
                    None => text.parse().unwrap(),
                });
            }
        }
        None
    }

    fn atom(&mut self) -> Result<Expression, Error> {
        let span = self.place();
        if self.is_operator("-") || self.is_operator("!") {
            let op = if self.is_operator("-") { UnaryOp::Neg } else { UnaryOp::Not };
            self.index += 1;
            let operand = self.atom()?;
            return Ok(Expression { kind: ExpressionKind::Unary(op, Box::new(operand)), span });
        }
        if let Some(value) = self.number() {
            let kind = ExpressionKind::Literal(ExpressionValue::Integer(Integer::new(value)));
            return self.slice(Expression { kind, span });
        }
        let local = self.is_operator("'");
        if local {
            self.index += 1;
        }
        if self.index < self.tokens.len() {
            if let Some(name) = self.tokens[self.index].identifier() {
                self.index += 1;
                let name = if local {
                    ExpressionName::LocalVariable(name.clone())
                } else {
                    ExpressionName::GlobalVariable(name.clone())
                };
                return self.slice(Expression { kind: ExpressionKind::Variable(name), span });
            }
        }
        Err(Error::new_with_span("expected expression".to_string(), span))
    }

    fn slice(&mut self, operand: Expression) -> Result<Expression, Error> {
        if self.is_operator("[") {
            let span = operand.span;
            self.index += 1;
            let left = self.number().unwrap() as usize;
            self.index += 1;
            let right = self.number().unwrap() as usize;
            self.index += 1;
            let kind = ExpressionKind::Slice(Box::new(operand), left, right);
            return Ok(Expression { kind, span });
        }
        Ok(operand)
    }

    fn expression(&mut self) -> Result<Expression, Error> {
        let mut left = self.atom()?;
        loop {
            let op = if self.is_operator("+") {
                BinaryOp::Add
            } else if self.is_operator("*") {
                BinaryOp::Mul
            } else if self.is_operator(">") {
                BinaryOp::Gt
            } else if self.is_operator("<") {
                BinaryOp::Lt
            } else if self.is_operator("==") {
                BinaryOp::Eq
            } else {
                return Ok(left);
            };
            let span = left.span;
            self.index += 1;
            let right = self.atom()?;
            let kind = ExpressionKind::Binary(op, Box::new(left), Box::new(right));
            left = Expression { kind, span };
        }
    }
}

fn expression(text: &str) -> Expression {
    let tokens = tokenize(text);
    let mut reader = Reader { tokens: &tokens, index: 0 };
    reader.expression().unwrap()
}

fn source(filename: &str, text: &str) -> Source {
    let tokens = tokenize(text);
    let mut expressions = Vec::new();
    for i in 0..=tokens.len() {
        let mut reader = Reader { tokens: &tokens, index: i };
        expressions.push(match reader.expression() {
            Ok(expr) => ParsedExpression::Parsed { expr, length: reader.index - i },
            Err(error) => ParsedExpression::Failed(error),
        });
    }
    let end = Token { kind: TokenKind::End, span: Span { file: 0, start: 999, end: 999 } };
    let source = Source { filename: filename.to_string(), tokens, end, expressions };
    assert!(source.is_well_formed());
    source
}

fn word(text: &str) -> PatternSegment {
    PatternSegment::Exact(text.to_string())
}

fn param(name: &str, allow_unresolved: bool, constraint: Option<&str>) -> RuleParameter {
    RuleParameter {
        name: name.to_string(),
        allow_unresolved,
        constraint: constraint.map(expression),
    }
}

fn rule(
    pattern_segments: Vec<PatternSegment>,
    parameters: Vec<RuleParameter>,
    production: &[&str],
    production_bit_num: usize,
) -> Rule {
    Rule {
        pattern_segments,
        parameters,
        production_segments: production.iter().map(|text| expression(text)).collect(),
        production_bit_num,
    }
}

/// Bytes as addresses. `halt` is one byte; `load` is short for small arguments that are known, and
/// long otherwise; `jump` takes a target that may be unknown; `near` wants one that is close by.
fn machine() -> Definition {
    let def = Definition {
        align_bits: 8,
        rules: vec![
            rule(vec![word("halt")], vec![], &["0xff"], 8),
            rule(
                vec![word("load"), PatternSegment::Parameter(0)],
                vec![param("value", false, Some("_ < 256"))],
                &["0x10[7:0]", "value[7:0]"],
                16,
            ),
            rule(
                vec![word("load"), PatternSegment::Parameter(0)],
                vec![param("value", true, None)],
                &["0x11[7:0]", "value[15:0]"],
                24,
            ),
            rule(
                vec![word("jump"), PatternSegment::Parameter(0)],
                vec![param("target", true, None)],
                &["0x20[7:0]", "target[7:0]"],
                16,
            ),
            rule(
                vec![word("near"), PatternSegment::Parameter(0)],
                vec![param("target", true, Some("pc + 4 > _"))],
                &["0x30[7:0]", "target[7:0]"],
                16,
            ),
            rule(
                vec![
                    word("move"),
                    PatternSegment::Parameter(0),
                    word(","),
                    PatternSegment::Parameter(1),
                ],
                vec![param("a", true, None), param("b", true, None)],
                &["b[7:0]", "a[7:0]", "pc[7:0]"],
                24,
            ),
        ],
    };
    assert!(def.is_well_formed());
    def
}

fn no_files() -> IncludedFiles {
    IncludedFiles { files: vec![], max_depth: 4 }
}

fn run_with(def: &Definition, text: &str, files: &IncludedFiles) -> Result<BitVec, Failure> {
    let source = source("main.asm", text);
    assert!(files.is_well_formed());
    assemble(def, &source, files)
}

fn run(text: &str) -> Result<BitVec, Failure> {
    run_with(&machine(), text, &no_files())
}

fn bytes_of(bits: &BitVec) -> Vec<u8> {
    assert_eq!(bits.bits.len() % 8, 0);
    bits.bits.chunks(8).map(|byte| byte.iter().fold(0, |n, b| n * 2 + *b as u8)).collect()
}

fn bytes(text: &str) -> Vec<u8> {
    match run(text) {
        Ok(bits) => bytes_of(&bits),
        Err(failure) => panic!("{:?}", failure),
    }
}

fn error_of(r: Result<BitVec, Failure>) -> (String, usize, usize) {
    match r {
        Err(Failure::Error(error)) => (error.message, error.span.start, error.span.end),
        other => panic!("{:?}", other),
    }
}

fn error(text: &str) -> (String, usize, usize) {
    error_of(run(text))
}

fn message(text: &str) -> String {
    error(text).0
}

#[test]
fn empty_program_has_no_bits() {
    assert_eq!(bytes(""), Vec::<u8>::new());
    assert_eq!(bytes("\n\n\n"), Vec::<u8>::new());
}

#[test]
fn data_is_written_highest_bit_first() {
    assert_eq!(bytes(".d8 1, 2, 0x83\n.d16 0x1234"), [1, 2, 0x83, 0x12, 0x34]);
}

#[test]
fn data_keeps_the_lowest_bits() {
    assert_eq!(bytes(".d8 0x1234, -1"), [0x34, 0xff]);
    assert_eq!(bytes(".d56 -2"), [0xff, 0xff, 0xff, 0xff, 0xff, 0xff, 0xfe]);
}

#[test]
fn data_may_wait_for_a_label() {
    assert_eq!(bytes(".d8 later, 7, later + 1\nlater:\n"), [3, 7, 4]);
}

#[test]
fn forward_and_backward_references_give_the_same_bits() {
    assert_eq!(bytes("jump 4\njump 4"), bytes("jump end\njump end\nend:"));
    assert_eq!(bytes("end = 4\njump end\njump end"), bytes("jump end\njump end\nend:"));
}

#[test]
fn data_width_may_carry_leading_zeros() {
    assert_eq!(bytes(".d008 5"), [5]);
}

#[test]
fn instructions_are_written_where_they_stand() {
    assert_eq!(bytes("halt\nhalt"), [0xff, 0xff]);
    assert_eq!(bytes("halt\njump there\nthere: \nhalt"), [0xff, 0x20, 3, 0xff]);
}

#[test]
fn arguments_are_put_in_by_name() {
    assert_eq!(bytes("halt\nmove 1, 2"), [0xff, 2, 1, 1]);
}

#[test]
fn first_rule_with_known_arguments_wins() {
    assert_eq!(bytes("load 5"), [0x10, 5]);
    assert_eq!(bytes("load 0x105"), [0x11, 0x01, 0x05]);
}

#[test]
fn rule_that_wants_a_known_argument_is_passed_over() {
    assert_eq!(bytes("load later\nlater:"), [0x11, 0, 3]);
}

#[test]
fn last_match_is_taken_where_no_argument_is_known() {
    let mut def = machine();
    def.rules.push(rule(
        vec![word("jump"), PatternSegment::Parameter(0)],
        vec![param("target", true, None)],
        &["0x21[7:0]", "target[7:0]"],
        16,
    ));
    assert_eq!(bytes_of(&run_with(&def, "jump there\nthere:", &no_files()).unwrap()), [0x21, 2]);
    assert_eq!(bytes_of(&run_with(&def, "jump 2", &no_files()).unwrap()), [0x20, 2]);
}

#[test]
fn constraint_is_checked_again_in_the_second_pass() {
    assert_eq!(bytes("near 3"), [0x30, 3]);
    assert_eq!(bytes("near there\nthere:"), [0x30, 2]);
    assert_eq!(
        error("near there\n.res 5\nthere:"),
        ("parameter constraint not satisfied".to_string(), 5, 10)
    );
    assert_eq!(message("near 4"), "parameter constraint not satisfied");
}

#[test]
fn labels_stand_for_addresses() {
    assert_eq!(bytes("a:\nhalt\nb:\n.d8 a, b, pc, pc"), [0xff, 0, 1, 3, 4]);
}

#[test]
fn constants_stand_for_their_values() {
    assert_eq!(bytes("x = 3\ny = x + x\n.d8 x, y"), [3, 6]);
}

#[test]
fn local_labels_belong_to_the_last_global_label() {
    let text = "a:\nhalt\n'x:\n.d8 'x\nb:\n.d8 'x\n'x:\n.d8 'x";
    assert_eq!(bytes(text), [0xff, 1, 3, 3]);
}

#[test]
fn local_labels_may_stand_before_any_global_label() {
    assert_eq!(bytes(".d8 'x\n'x:"), [1]);
}

#[test]
fn constant_starts_a_new_context_too() {
    assert_eq!(message("'x:\nc = 1\nd = 'x"), "unknown local `x`");
}

#[test]
fn address_directive_moves_the_address_only() {
    assert_eq!(bytes(".address 0x40\n.d8 pc\nx:\n.d8 x"), [0x40, 0x41]);
}

#[test]
fn output_directive_moves_the_output_only() {
    assert_eq!(bytes(".output 2\n.d8 pc, pc"), [0, 0, 0, 1]);
    assert_eq!(bytes(".d8 9, 9\n.output 0\n.d8 7"), [7, 9]);
}

#[test]
fn reserved_addresses_stay_zero() {
    assert_eq!(bytes("halt\n.res 2\nhalt\n.d8 pc"), [0xff, 0, 0, 0xff, 4]);
    assert_eq!(bytes("halt\n.res 3"), [0xff]);
}

#[test]
fn duplicate_labels_are_refused() {
    assert_eq!(error("a:\na:"), ("duplicate global label `a`".to_string(), 3, 4));
    assert_eq!(error("a:\na = 1"), ("duplicate global label `a`".to_string(), 3, 4));
    assert_eq!(error("a = 1\na:"), ("duplicate global label `a`".to_string(), 6, 7));
    assert_eq!(error("'a:\n'a:"), ("duplicate local label `a`".to_string(), 5, 6));
}

#[test]
fn same_local_label_is_fine_in_another_context() {
    assert_eq!(bytes("'a:\nb:\n'a:\nhalt"), [0xff]);
}

#[test]
fn unknown_names_are_reported() {
    assert_eq!(error(".address x"), ("unknown `x`".to_string(), 9, 10));
    assert_eq!(error(".d8 1, nowhere"), ("unknown `nowhere`".to_string(), 7, 14));
    assert_eq!(error("jump 'nowhere"), ("unknown local `nowhere`".to_string(), 5, 6));
}

#[test]
fn unknown_directive_is_reported() {
    assert_eq!(error(".foo 1"), ("unknown directive `foo`".to_string(), 1, 4));
    assert_eq!(message(".d 1"), "unknown directive `d`");
    assert_eq!(message(".dx 1"), "unknown directive `dx`");
    assert_eq!(message(".d99999999999999999999 1"), "unknown directive `d99999999999999999999`");
}

#[test]
fn data_width_is_checked() {
    assert_eq!(error(".d12 1"), ("data directive is not aligned to `8` bits".to_string(), 1, 4));
    assert_eq!(
        message(".d64 1"),
        "data directive bit width is currently not supported"
    );
    assert_eq!(message(".d65 1"), "data directive is not aligned to `8` bits");
}

#[test]
fn alignment_is_written_in_decimal() {
    let def = Definition { align_bits: 105, rules: vec![] };
    assert_eq!(
        error_of(run_with(&def, ".d8 1", &no_files())).0,
        "data directive is not aligned to `105` bits"
    );
}

#[test]
fn addresses_may_stand_for_other_numbers_of_bits() {
    let def = Definition { align_bits: 3, rules: vec![] };
    let bits = run_with(&def, ".d3 5\n.d6 pc", &no_files()).unwrap();
    assert_eq!(bits.bits, [true, false, true, false, false, false, false, false, true]);
}

#[test]
fn data_of_no_width_overflows() {
    assert!(matches!(run(".d0 1"), Err(Failure::Overflow)));
    assert!(matches!(run(".d0 x\nx:"), Err(Failure::Overflow)));
    assert_eq!(message(".d0 1 < 2"), "invalid expression type");
}

#[test]
fn truth_values_are_no_data() {
    assert_eq!(error(".d8 1 < 2"), ("invalid expression type".to_string(), 4, 5));
    assert_eq!(error(".d8 x < 2\nx:"), ("invalid expression".to_string(), 4, 5));
}

#[test]
fn truth_values_are_no_addresses() {
    assert_eq!(error(".address 1 < 2"), ("expected integer value".to_string(), 9, 10));
    assert_eq!(message(".output 1 == 1"), "expected integer value");
    assert_eq!(message(".res 1 == 1"), "expected integer value");
}

#[test]
fn truth_values_are_no_instructions() {
    let def = Definition {
        align_bits: 8,
        rules: vec![rule(vec![word("odd")], vec![], &["1 == 1"], 8)],
    };
    assert_eq!(
        error_of(run_with(&def, "odd", &no_files())).0,
        "invalid production expression type"
    );
}

#[test]
fn constraints_have_to_be_truth_values() {
    let def = Definition {
        align_bits: 8,
        rules: vec![rule(
            vec![word("odd"), PatternSegment::Parameter(0)],
            vec![param("x", false, Some("_ + 1"))],
            &["x[7:0]"],
            8,
        )],
    };
    assert_eq!(
        error_of(run_with(&def, "odd 1", &no_files())).0,
        "invalid constraint expression type"
    );
}

#[test]
fn unknown_instruction_is_reported() {
    assert_eq!(error("halt\nstop"), ("no match found for instruction".to_string(), 5, 9));
    assert_eq!(message(", 1"), "no match found for instruction");
}

#[test]
fn broken_expression_in_an_instruction_is_reported() {
    assert_eq!(message("load ,"), "expected expression");
    assert_eq!(message("x = "), "expected expression");
    assert_eq!(message(".d8 1,"), "expected expression");
}

#[test]
fn lines_have_to_end() {
    assert_eq!(error("halt halt"), ("expected line break".to_string(), 5, 9));
    assert_eq!(message("a: halt"), "expected line break");
    assert_eq!(message("a = 1 2"), "expected line break");
    assert_eq!(message("'a: 2"), "expected line break");
    assert_eq!(message(".d8 1 2"), "expected line break");
    assert_eq!(message(".res 1 2"), "expected line break");
}

#[test]
fn directives_have_to_have_a_name() {
    assert_eq!(error(". 5"), ("expected identifier".to_string(), 2, 3));
    assert_eq!(error("."), ("expected identifier".to_string(), 999, 999));
}

#[test]
fn positions_may_overflow() {
    assert!(matches!(run(".address -1\n.d8 1"), Err(Failure::Overflow)));
    assert!(matches!(run(".output -1\n.d8 1"), Err(Failure::Overflow)));
    assert!(matches!(run(".res -1"), Err(Failure::Overflow)));
    assert!(matches!(run("halt\n.output -1\njump later\nlater:"), Err(Failure::Overflow)));
}

#[test]
fn negative_address_wraps_round() {
    assert_eq!(bytes(".address -1\nx:\n.address 0\n.d8 x"), [0xff]);
}

#[test]
fn expressions_may_overflow() {
    assert!(matches!(run("x = 0x7fffffffffffffff + 1"), Err(Failure::Overflow)));
    assert!(matches!(run("x = 0x7fffffffffffffff * 2"), Err(Failure::Overflow)));
    assert!(matches!(run(".d8 1[3:4]"), Err(Failure::Overflow)));
}

#[test]
fn operators_have_their_operands() {
    assert_eq!(error("x = -y\ny = 1"), ("unknown `y`".to_string(), 5, 6));
    assert_eq!(error("y = 1 < 2\nx = y + 1"), ("invalid operand type".to_string(), 14, 15));
    assert_eq!(message("y = 1 < 2\nx = -y"), "invalid operand type");
    assert_eq!(bytes(".d8 !0"), [0xff]);
}

fn included(from: &str, name: &str, filename: &str, text: &str) -> IncludedFile {
    IncludedFile {
        from: from.to_string(),
        name: name.to_string(),
        source: source(filename, text),
    }
}

#[test]
fn nested_file_is_read_in_its_place() {
    let files = IncludedFiles {
        files: vec![
            included("main.asm", "b.asm", "lib/b.asm", ".d8 7\nshared:\n.include \"c.asm\""),
            included("main.asm", "c.asm", "c.asm", ".d8 1"),
            included("lib/b.asm", "c.asm", "lib/c.asm", ".d8 2, after"),
        ],
        max_depth: 2,
    };
    let text = "halt\n.include \"b.asm\"\nafter:\n.d8 shared\n.include \"c.asm\"";
    assert_eq!(bytes_of(&run_with(&machine(), text, &files).unwrap()), [0xff, 7, 2, 4, 2, 1]);
}

#[test]
fn missing_file_is_asked_for() {
    match run("halt\n.include \"b.asm\"") {
        Err(Failure::MissingFile { from, name }) => {
            assert_eq!(from, "main.asm");
            assert_eq!(name, "b.asm");
        }
        other => panic!("{:?}", other),
    }
}

#[test]
fn errors_before_a_missing_file_come_first() {
    assert_eq!(message("stop\n.include \"b.asm\""), "no match found for instruction");
}

#[test]
fn supplying_more_files_changes_nothing() {
    let files = IncludedFiles {
        files: vec![included("main.asm", "b.asm", "b.asm", ".d8 1")],
        max_depth: 9,
    };
    let bits = run_with(&machine(), "halt\n.d8 x\nx:", &files).unwrap();
    assert_eq!(bytes_of(&bits), bytes("halt\n.d8 x\nx:"));
}

#[test]
fn nesting_is_limited() {
    let files = IncludedFiles {
        files: vec![included("main.asm", "main.asm", "main.asm", ".include \"main.asm\"")],
        max_depth: 20,
    };
    assert!(matches!(
        run_with(&machine(), ".include \"main.asm\"", &files),
        Err(Failure::TooDeep)
    ));
}

#[test]
fn file_that_nests_itself_may_still_be_wrong_first() {
    let files = IncludedFiles {
        files: vec![included("main.asm", "main.asm", "main.asm", "x:\n.include \"main.asm\"")],
        max_depth: 20,
    };
    assert_eq!(
        error_of(run_with(&machine(), ".include \"main.asm\"", &files)).0,
        "duplicate global label `x`"
    );
}

#[test]
fn file_names_are_strings() {
    assert_eq!(error(".include b"), ("expected string".to_string(), 9, 10));
    assert_eq!(message(".includebin 1"), "expected string");
}

#[test]
fn binary_files_are_named_and_passed_over() {
    assert_eq!(bytes("halt\n.includebin \"data.bin\"\nhalt"), [0xff, 0xff]);
    assert_eq!(message(".includebin \"data.bin\" 1"), "expected line break");
}

#[test]
fn later_writes_cover_earlier_ones() {
    assert_eq!(bytes(".d8 x\n.output 0\n.d8 9\nx:"), [2]);
}

#[test]
fn all_that_is_left_over_is_written_instructions_first() {
    assert_eq!(bytes(".d16 x\n.output 0\njump x\nx:"), [0, 4]);
}

#[test]
fn every_item_stands_at_its_place() {
    let bits = run("halt\njump end\n.output 8\n.d8 end, 3\nend:\n.d16 0x102").unwrap();
    let out = bytes_of(&bits);
    assert_eq!(out[0..1], [0xff]);
    assert_eq!(out[1..3], [0x20, 5]);
    assert_eq!(out[3..8], [0; 5]);
    assert_eq!(out[8..10], [5, 3]);
    assert_eq!(out[10..], [1, 2]);
}

#[test]
fn place_does_not_depend_on_what_is_known() {
    assert_eq!(bytes("x = 9\n.d16 x\n.d8 pc")[2], bytes(".d16 x\n.d8 pc\nx = 9")[2]);
    assert_eq!(bytes("x = 9\njump x\n.d8 pc"), bytes("jump x\n.d8 pc\nx = 9"));
}

#[test]
fn second_pass_reports_the_first_thing_that_is_unknown() {
    assert_eq!(message(".d8 a\njump b"), "unknown `b`");
    assert_eq!(message(".d8 a, b"), "unknown `a`");
}

fn started(def: &Definition) -> Assembler<'_> {
    let mut assembler = Assembler {
        def,
        cur_address: 4,
        cur_output: 1,
        labels: LabelManager::new(),
        unresolved_instructions: Vec::new(),
        unresolved_expressions: Vec::new(),
        output_bits: BitVec::new(),
    };
    let value = ExpressionValue::Integer(Integer::new(9));
    assembler.labels.add_global("known".to_string(), value);
    assembler.output_bits.set(0, &Integer::new(5));
    assembler
}

fn failed(result: Result<(), Failure>) -> String {
    match result {
        Err(Failure::Error(error)) => error.message,
        other => panic!("{:?}", other),
    }
}

#[test]
fn refused_lines_change_nothing() {
    let cases = [
        (".d12 1", "data directive is not aligned to `8` bits"),
        (".d64 1", "data directive bit width is currently not supported"),
        (".d99999999999999999999 1", "unknown directive `d99999999999999999999`"),
        (".D8 1", "unknown directive `D8`"),
        (".bogus", "unknown directive `bogus`"),
        (".address later", "unknown `later`"),
        (".output later", "unknown `later`"),
        (".res later", "unknown `later`"),
        (".address 1 < 2", "expected integer value"),
        (".d8 1 < 2", "invalid expression type"),
        ("stop", "no match found for instruction"),
        ("load ,", "expected expression"),
        ("known = 1", "duplicate global label `known`"),
        ("known:", "duplicate global label `known`"),
        ("new = later", "unknown `later`"),
    ];
    for (text, message) in cases {
        let def = machine();
        let mut assembler = started(&def);
        let source = source("main.asm", text);
        assert_eq!(failed(assembler.parse_file(&source, &no_files(), 4)), message);
        assert_eq!((assembler.cur_address, assembler.cur_output), (4, 1));
        assert_eq!(assembler.output_bits.bits, [true, false, true]);
        assert!(assembler.unresolved_instructions.is_empty());
        assert!(assembler.unresolved_expressions.is_empty());
        assert!(assembler.labels.does_global_exist("known"));
        assert!(!assembler.labels.does_global_exist("new"));
        assert_eq!(assembler.labels.get_cur_context().index, 1);
    }
}

#[test]
fn instruction_without_rule_is_not_read() {
    for text in ["stop here", "load ,"] {
        let def = machine();
        let mut assembler = started(&def);
        let source = source("main.asm", text);
        let mut parser = Parser::new(&source);
        assert!(assembler.parse_instruction(&mut parser).is_err());
        assert_eq!(parser.index, 0);
    }
}

#[test]
fn rule_is_tried_up_to_where_it_stops() {
    let def = machine();
    let assembler = started(&def);
    let source = source("main.asm", "move 1 2");
    for (rule_index, index) in [(0, 0), (5, 2)] {
        let mut parser = Parser::new(&source);
        assert!(assembler.try_match_rule(&mut parser, rule_index).unwrap().is_none());
        assert_eq!(parser.index, index);
    }
    let source = self::source("main.asm", "load later");
    let mut parser = Parser::new(&source);
    assert!(assembler.try_match_rule(&mut parser, 1).unwrap().is_none());
    assert_eq!(parser.index, 2);
}

#[test]
fn what_was_done_before_a_failure_stays() {
    let def = machine();
    let run = |text: &str| {
        let mut assembler = started(&def);
        let source = source("main.asm", text);
        assert!(assembler.parse_file(&source, &no_files(), 4).is_err());
        assembler
    };
    assert_eq!((run(".address 5 6").cur_address, run(".address 5 6").cur_output), (5, 1));
    assert_eq!((run(".output 5 6").cur_address, run(".output 5 6").cur_output), (4, 5));
    assert_eq!((run(".res 5 6").cur_address, run(".res 5 6").cur_output), (9, 6));
    let after = run("halt halt");
    assert_eq!((after.cur_address, after.cur_output), (5, 2));
    assert_eq!(after.output_bits.bits[8..], [true; 8]);
    let after = run("jump later later");
    assert_eq!((after.cur_address, after.unresolved_instructions.len()), (6, 1));
    let after = run("new: 1");
    assert_eq!(
        after.labels.get_global("new"),
        Some(ExpressionValue::Integer(Integer::new(4)))
    );
    let after = run(".d8 1, later, 1 < 2, 3");
    assert_eq!((after.cur_address, after.cur_output), (6, 3));
    assert_eq!(after.output_bits.bits.len(), 16);
    assert_eq!(after.unresolved_expressions.len(), 1);
    let after = run("near 300");
    assert_eq!((after.cur_address, after.cur_output), (6, 3));
}

#[test]
fn first_failing_line_ends_the_reading() {
    let def = machine();
    let mut assembler = started(&def);
    let source = source("main.asm", "a = 1\n.bogus\nb = 2");
    assert_eq!(
        failed(assembler.parse_file(&source, &no_files(), 4)),
        "unknown directive `bogus`"
    );
    assert!(assembler.labels.does_global_exist("a"));
    assert!(!assembler.labels.does_global_exist("b"));
}

#[test]
fn pieces_before_a_failing_one_stay() {
    let def = Definition {
        align_bits: 8,
        rules: vec![rule(vec![word("odd")], vec![], &["0xff", "1 == 1", "0xee"], 24)],
    };
    let mut assembler = started(&def);
    let source = source("main.asm", "odd");
    assert_eq!(
        failed(assembler.parse_file(&source, &no_files(), 4)),
        "invalid production expression type"
    );
    assert_eq!((assembler.cur_address, assembler.cur_output), (7, 4));
    assert_eq!(assembler.output_bits.bits.len(), 16);
    assert_eq!(assembler.output_bits.bits[8..], [true; 8]);
}

#[test]
fn constants_may_stand_behind_data() {
    let constants = "a = 3\nb = a + 4\n";
    let data = ".d8 a, 1, b\n.d16 b + pc\n";
    assert_eq!(
        bytes(&format!("{}{}", constants, data)),
        bytes(&format!("{}{}", data, constants))
    );
    assert_eq!(bytes("pc = 7\n.d8 pc, pc\n"), bytes(".d8 pc, pc\npc = 7\n"));
}

#[test]
fn nested_file_is_as_good_as_its_text() {
    let nested = ".d8 7\nshared:\n.d8 after\n";
    let files = IncludedFiles {
        files: vec![included("main.asm", "b.asm", "b.asm", nested)],
        max_depth: 1,
    };
    let asking = "halt\n.include \"b.asm\"\nafter:\n.d8 shared\n";
    let plain = format!("halt\n{}after:\n.d8 shared\n", nested);
    assert_eq!(bytes_of(&run_with(&machine(), asking, &files).unwrap()), bytes(&plain));
}

#[test]
fn runs_of_lines_follow_one_another() {
    let def = machine();
    let (first, second) = ("a:\nhalt\n", "b:\n.d8 a, b, c\n");
    let mut whole = started(&def);
    let mut parts = started(&def);
    let text = format!("{}{}", first, second);
    whole.parse_file(&source("main.asm", &text), &no_files(), 4).unwrap();
    parts.parse_file(&source("main.asm", first), &no_files(), 4).unwrap();
    parts.parse_file(&source("main.asm", second), &no_files(), 4).unwrap();
    assert_eq!(whole.output_bits.bits, parts.output_bits.bits);
    assert_eq!(whole.cur_address, parts.cur_address);
    assert_eq!(whole.labels.get_global("b"), parts.labels.get_global("b"));
    assert_eq!(whole.unresolved_expressions.len(), parts.unresolved_expressions.len());
}

#[test]
fn parameters_that_nothing_uses_do_no_harm() {
    let mut def = machine();
    def.rules[0].parameters.push(param("unused", true, None));
    assert!(def.is_well_formed());
    assert_eq!(bytes_of(&run_with(&def, "halt", &no_files()).unwrap()), [0xff]);
    def.rules[0].production_segments.push(expression("unused"));
    assert!(!def.is_well_formed());
}

fn moved(span: Span) -> Span {
    Span { file: span.file + 7, start: span.start + 100, end: span.end + 200 }
}

fn moved_expression(expr: Expression) -> Expression {
    let kind = match expr.kind {
        ExpressionKind::Unary(op, x) => ExpressionKind::Unary(op, Box::new(moved_expression(*x))),
        ExpressionKind::Binary(op, x, y) => ExpressionKind::Binary(
            op,
            Box::new(moved_expression(*x)),
            Box::new(moved_expression(*y)),
        ),
        ExpressionKind::Slice(x, l, r) => {
            ExpressionKind::Slice(Box::new(moved_expression(*x)), l, r)
        }
        kind => kind,
    };
    Expression { kind, span: moved(expr.span) }
}

fn moved_source(mut source: Source) -> Source {
    for token in source.tokens.iter_mut() {
        token.span = moved(token.span);
    }
    source.end.span = moved(source.end.span);
    source.expressions = source
        .expressions
        .into_iter()
        .map(|parsed| match parsed {
            ParsedExpression::Parsed { expr, length } => {
                ParsedExpression::Parsed { expr: moved_expression(expr), length }
            }
            ParsedExpression::Failed(error) => ParsedExpression::Failed(
                Error::new_with_span(error.message, moved(error.span)),
            ),
        })
        .collect();
    source
}

#[test]
fn spans_do_not_matter() {
    let def = machine();
    let text = "halt\njump end\nx = -3 + 4[1:0]\n.d8 end, x\nend:\nmove 1, x\n";
    let there = moved_source(source("main.asm", text));
    let bits = assemble(&def, &there, &no_files()).unwrap();
    assert_eq!(bytes_of(&bits), bytes(text));
    let there = moved_source(source("main.asm", "halt\nstop"));
    assert_eq!(
        error_of(assemble(&def, &there, &no_files())),
        ("no match found for instruction".to_string(), 105, 209)
    );
}

#[test]
fn nested_file_may_carry_any_spans() {
    let mut file = included("main.asm", "b.asm", "b.asm", ".d8 7\n.d8 after\n");
    file.source = moved_source(file.source);
    let files = IncludedFiles { files: vec![file], max_depth: 1 };
    let asking = "halt\n.include \"b.asm\"\nafter:\n";
    let bits = run_with(&machine(), asking, &files).unwrap();
    assert_eq!(bytes_of(&bits), bytes("halt\n.d8 7\n.d8 after\nafter:\n"));
}
