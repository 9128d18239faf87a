use ulang::assembly::{generate_assembly, TargetPlatform};
use ulang::ast::{AstNode, BinaryOperator, Expression, Factor, Statement, UnaryOperator, VarType};
use ulang::lexer::{FileToken, Lexer, LexerErrorType, Token};
use ulang::parser::{Parser, ParserErrorType};
use ulang::tacky::{Instruction, Tacky, TackyBinaryOperator, Value};

fn lex(text: &str) -> Result<Vec<FileToken>, ulang::lexer::LexerError> {
    Lexer::from_content(text.to_string()).tokenize()
}

fn kinds(text: &str) -> Vec<Token> {
    lex(text).unwrap().into_iter().map(|t| t.token).collect()
}

fn parse(text: &str) -> Result<AstNode, ulang::parser::ParserError> {
    Parser::new(lex(text).unwrap(), "main.c".to_string(), text.to_string()).parse()
}

fn parse_expr(text: &str) -> Expression {
    let mut p = Parser::new(lex(text).unwrap(), "main.c".to_string(), text.to_string());
    let e = p.parse_expression().unwrap();
    assert_eq!(p.pos, p.tokens.len());
    e
}

fn render(e: &Expression) -> String {
    match e {
        Expression::Factor(Factor::Constant(c)) => c.to_string(),
        Expression::Factor(Factor::Unary(op, inner)) => format!("({:?} {})", op, render(inner)),
        Expression::Factor(Factor::ParentedExpression(inner)) => format!("[{}]", render(inner)),
        Expression::Binary(l, op, r) => format!("({} {:?} {})", render(l), op, render(r)),
    }
}

fn compile(text: &str, platform: TargetPlatform) -> String {
    let ast = parse(text).unwrap();
    let tacky = Tacky::from_program_node(ast).unwrap().parse().unwrap();
    generate_assembly(&tacky, platform).0
}

#[test]
fn lexes_a_small_function() {
    assert_eq!(
        kinds("int main(void) {\n  return 2;\n}"),
        vec![
            Token::IntKeyword,
            Token::Identifier("main".to_string()),
            Token::OpenParenthesis,
            Token::VoidKeyWord,
            Token::CloseParenthesis,
            Token::OpenBrace,
            Token::ReturnKeyWord,
            Token::Constant(2),
            Token::Semicolon,
            Token::CloseBrace,
        ]
    );
}

#[test]
fn token_positions_are_line_and_column() {
    let tokens = lex("int main\n  return 42;").unwrap();
    let pos: Vec<(usize, usize)> = tokens.iter().map(|t| (t.line, t.start_char_in_line)).collect();
    assert_eq!(pos, vec![(1, 1), (1, 5), (2, 3), (2, 10), (2, 12)]);
}

#[test]
fn lexes_every_operator() {
    assert_eq!(
        kinds("~ - -- + * / % ! && || == != < > <= >="),
        vec![
            Token::Tilde,
            Token::Hyphen,
            Token::Decrement,
            Token::Plus,
            Token::Asteriks,
            Token::Slash,
            Token::PercentSign,
            Token::Not,
            Token::And,
            Token::Or,
            Token::EqualTo,
            Token::NotEqualTo,
            Token::LessThan,
            Token::GreaterThan,
            Token::LessThanEqualTo,
            Token::GreaterThanEqualTo,
        ]
    );
}

#[test]
fn comments_and_directives_are_skipped() {
    assert_eq!(
        kinds("#include <x>\n// note\nreturn /* a\n b */ 7;"),
        vec![Token::ReturnKeyWord, Token::Constant(7), Token::Semicolon]
    );
    assert_eq!(kinds("1 /* never closed"), vec![Token::Constant(1)]);
    assert_eq!(kinds(""), vec![]);
}

#[test]
fn lexer_errors_carry_their_position() {
    let e = lex("int x;\n  @").unwrap_err();
    assert_eq!(e.error, LexerErrorType::UnexpectedChar);
    assert_eq!((e.line, e.start_char_in_line), (2, 3));
    let e = lex("return 12ab;").unwrap_err();
    assert_eq!(e.error, LexerErrorType::InvalidCharInDigitalConstant);
    assert_eq!((e.line, e.start_char_in_line), (1, 8));
    assert_eq!(lex("a = b").unwrap_err().error, LexerErrorType::UnexpectedChar);
    assert_eq!(lex("a & b").unwrap_err().error, LexerErrorType::UnexpectedChar);
    assert_eq!(lex("99999999999").unwrap_err().error, LexerErrorType::ConstantOutOfRange);
    assert_eq!(kinds("2147483647"), vec![Token::Constant(i32::MAX)]);
}

#[test]
fn lexer_keeps_its_tokens() {
    let mut lexer = Lexer::from_content("return 1;".to_string());
    let tokens = lexer.tokenize().unwrap();
    assert_eq!(tokens, lexer.tokens);
    assert_eq!(lexer.path, "main.c");
}

#[test]
fn add_token_records_the_current_position() {
    let mut lexer = Lexer::from_content(String::new());
    lexer.line_nr = 3;
    lexer.nr_in_line = 9;
    lexer.add_token(Token::Semicolon);
    assert_eq!(lexer.tokens, vec![FileToken { token: Token::Semicolon, line: 3, start_char_in_line: 9 }]);
}

#[test]
fn multiplication_binds_tighter_than_addition() {
    assert_eq!(render(&parse_expr("1 + 2 * 3")), "(1 Add (2 Multiply 3))");
    assert_eq!(render(&parse_expr("1 * 2 + 3")), "((1 Multiply 2) Add 3)");
}

#[test]
fn operators_of_equal_strength_group_left() {
    assert_eq!(render(&parse_expr("10 - 4 - 3")), "((10 Substract 4) Substract 3)");
    assert_eq!(render(&parse_expr("8 / 2 % 3")), "((8 Divide 2) Remainder 3)");
}

#[test]
fn comparison_and_logic_bind_loosest() {
    assert_eq!(
        render(&parse_expr("1 + 2 < 4 == 1 && 3 || 0")),
        "((((1 Add 2) LessThan 4) Equal 1) And 3) Or 0)".replacen("(", "((", 1)
    );
}

#[test]
fn unary_and_parentheses() {
    assert_eq!(render(&parse_expr("-(-(5))")), "(Negate [(Negate [5])])");
    assert_eq!(render(&parse_expr("~!-1 * 2")), "((Complement (Not (Negate 1))) Multiply 2)");
    assert_eq!(render(&parse_expr("(1 + 2) * 3")), "([(1 Add 2)] Multiply 3)");
}

#[test]
fn parses_a_program() {
    let ast = parse("int main(void) { int x; int y 3; return 1; }").unwrap();
    let AstNode::Program(nodes) = ast else { panic!("not a program") };
    assert_eq!(nodes.len(), 1);
    let AstNode::FunctionDeclaration(f) = &nodes[0] else { panic!("not a function") };
    assert_eq!(f.name, "main");
    assert!(matches!(f.return_type, VarType::Int));
    let Statement::Compound(body) = &f.body else { panic!("not a block") };
    assert_eq!(body.len(), 3);
    assert!(matches!(&body[0], Statement::VariableDeclaration { name, initializer: None, .. } if name == "x"));
    assert!(matches!(&body[1], Statement::VariableDeclaration { initializer: Some(_), .. }));
    assert!(matches!(&body[2], Statement::ReturnStatement(Some(Expression::Factor(Factor::Constant(1))))));
}

#[test]
fn parses_several_functions() {
    let ast = parse("void f(int a) { return 0; } int g() { }").unwrap();
    let AstNode::Program(nodes) = ast else { panic!("not a program") };
    assert_eq!(nodes.len(), 2);
}

#[test]
fn parser_errors() {
    assert_eq!(parse("").unwrap_err().error, ParserErrorType::NoValidFunctions);
    assert_eq!(parse("main() {}").unwrap_err().error, ParserErrorType::ExpectedTypeKeyword);
    assert_eq!(parse("int () {}").unwrap_err().error, ParserErrorType::ExpectedFunctionName);
    assert_eq!(parse("int main {}").unwrap_err().error, ParserErrorType::ExpectedChar('('));
    assert_eq!(parse("int main( {").unwrap_err().error, ParserErrorType::ExpectedChar(')'));
    assert_eq!(parse("int main() return 1;").unwrap_err().error, ParserErrorType::ExpectedChar('{'));
    assert_eq!(parse("int main() { return 1; ").unwrap_err().error, ParserErrorType::ExpectedChar('}'));
    assert_eq!(parse("int main() { 1; }").unwrap_err().error, ParserErrorType::ExpectedStatement);
    assert_eq!(parse("int main() { return; }").unwrap_err().error, ParserErrorType::MissingReturnValue);
    assert_eq!(parse("int main() { return 1 }").unwrap_err().error, ParserErrorType::MissingReturnValue);
    assert_eq!(parse("int main() { int 3; }").unwrap_err().error, ParserErrorType::ExpectedVariableName);
    assert_eq!(parse("int main() { int x 1 }").unwrap_err().error, ParserErrorType::ExpectedChar(';'));
    assert_eq!(parse("int main() { int x ); }").unwrap_err().error, ParserErrorType::ExpectedExpression);
    let e = parse("int main() {\n  return 1 }").unwrap_err();
    assert_eq!(e.token, Some(Token::CloseBrace));
    assert_eq!((e.line, e.start_char_in_line), (2, 12));
}

#[test]
fn source_one_plus_two_times_three() {
    let ast = parse("int main(void) { return 1 + 2 * 3; }").unwrap();
    let ir = Tacky::from_program_node(ast).unwrap().parse().unwrap().0.instruction;
    assert!(matches!(&ir[0], Instruction::Binary { operator: TackyBinaryOperator::Multiply, .. }));
    match &ir[1] {
        Instruction::Binary { operator: TackyBinaryOperator::Add, src1: Value::Constant(1), src2: Value::Var(t), .. } => {
            assert_eq!(t.0, "tmp.0")
        }
        other => panic!("unexpected {:?}", other),
    }
    let text = compile("int main(void) { return 1 + 2 * 3; }", TargetPlatform::X64Linux);
    assert!(text.contains("\timull\t"));
    assert!(text.contains("\taddl\t"));
}

#[test]
fn source_division_uses_cdq_and_idiv() {
    let text = compile("int main(void) { return 10 / 3; }", TargetPlatform::X64Linux);
    assert!(text.contains("\tcdq\n\tmovl\t$3, %r10d\n\tidivl\t%r10d\n"));
    assert!(!text.contains("addl") && !text.contains("subl") && !text.contains("imull"));
}

#[test]
fn source_equality_uses_cmp_and_sete() {
    let text = compile("int main(void) { return 5 == 5; }", TargetPlatform::MacOsX64);
    let cmp = text.find("\tcmpl\t").unwrap();
    let set = text.find("\tsete\t").unwrap();
    assert!(cmp < set);
}

#[test]
fn source_with_logical_and_is_refused_after_parsing() {
    let ast = parse("int main(void) { return 1 && 0; }").unwrap();
    assert!(Tacky::from_program_node(ast).unwrap().parse().is_err());
}

#[test]
fn parenthesized_source_compiles() {
    let ast = parse("int main() { return -(-(5)); }").unwrap();
    let ir = Tacky::from_program_node(ast).unwrap().parse().unwrap().0.instruction;
    let unaries = ir.iter().filter(|i| matches!(i, Instruction::Unary { operator: UnaryOperator::Negate, .. })).count();
    assert_eq!(unaries, 2);
}

#[test]
fn binary_operator_of_a_token() {
    assert_eq!(BinaryOperator::from_token(&Token::Slash), Some(BinaryOperator::Divide));
}
