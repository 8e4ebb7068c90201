use live_crab::ast::{Expr, Operator, Program, Statement};
use live_crab::lexer::Lexer;
use live_crab::parser::Parser;

// The small example programs the file-based tests read in.
const EXAMPLE_S1: &str = "a = 2;\nb = 3;\nreturn a;\n";
const EXAMPLE_LOOP1: &str = "i = 0;\nwhile (i < 9) {\ni = i + 1;\n}\nreturn i;\n";
const EXAMPLE_DO_WHILE: &str = "i = 0;\ndo {\ni = i + 1;\ni = i + 1;\n}\nwhile (i < 9);\nreturn i;\n";

fn create_binop_lit(left: i32, op: Operator, right: i32) -> Expr {
    Expr::BinOp(Box::new(Expr::Int(left)), op, Box::new(Expr::Int(right)))
}

fn create_binop_rlit(left: Expr, op: Operator, right: i32) -> Expr {
    Expr::BinOp(Box::new(left), op, Box::new(Expr::Int(right)))
}

#[test]
fn parse_simple_assignment() {
    let s = "a = 42;";
    let lexer = Lexer::new(s);
    let tokens = lexer.tokenize();
    let mut parser = Parser::new(tokens);
    let got = parser.parse();
    let want_vec = vec![Statement::Assignment(
        Box::new(Expr::Id("a".to_string())),
        Box::new(Expr::Int(42)),
    )];
    let want = Program::new(want_vec);
    assert_eq!(got, want, "Got: {:?}\n\n", got);
}

#[test]
fn parser_simple_assignment2() {
    let s = "a = 68 +1 ;";
    let lexer = Lexer::new(s);
    let tokens = lexer.tokenize();
    let mut parser = Parser::new(tokens);
    let got = parser.parse();
    let want_vec = vec![Statement::Assignment(
        Box::new(Expr::Id("a".to_string())),
        Box::new(create_binop_lit(68, Operator::Plus, 1)),
    )];
    let want = Program::new(want_vec);
    assert_eq!(got, want, "Got: {:?}\n\n", got);
}

#[test]
fn parser_three_add() {
    let s = "a = 39 + 1 +2 ;";
    let lexer = Lexer::new(s);
    let tokens = lexer.tokenize();
    let mut parser = Parser::new(tokens);
    let got = parser.parse();
    let want_vec = vec![Statement::Assignment(
        Box::new(Expr::Id("a".to_string())),
        Box::new(create_binop_rlit(
            create_binop_lit(39, Operator::Plus, 1),
            Operator::Plus,
            2,
        )),
    )];
    let want = Program::new(want_vec);
    assert_eq!(got, want, "Got: {:?}\n\n", got);
}

#[test]
fn parser_simple_example1() {
    // a = 2; b = 3; return a;
    let file = EXAMPLE_S1;
    let lexer = Lexer::new(file);
    let tokens = lexer.tokenize();
    let mut parser = Parser::new(tokens);
    let got = parser.parse();
    let want_vec = vec![
        Statement::Assignment(Box::new(Expr::Id("a".to_string())), Box::new(Expr::Int(2))),
        Statement::Assignment(Box::new(Expr::Id("b".to_string())), Box::new(Expr::Int(3))),
        Statement::Return(Box::new(Expr::Id("a".to_string()))),
    ];
    let want = Program::new(want_vec);
    assert_eq!(got, want, "Got: {:?}\n\n", got);
}

#[test]
fn parser_while_loop() {
    // while (i < 9) {
    //  i = i + 1;
    // }
    let s = "while (i < 9) { i = i + 1; }";
    let lexer = Lexer::new(s);
    let tokens = lexer.tokenize();
    let mut parser = Parser::new(tokens);
    let got = parser.parse();
    let want_vec = vec![
        // while (i < 9) {
        Statement::While(
            Box::new(Expr::BinOp(
                Box::new(Expr::Id("i".to_string())),
                Operator::LessThan,
                Box::new(Expr::Int(9)),
            )),
            // body
            vec![
                // i = i + 1;
                Statement::Assignment(
                    Box::new(Expr::Id("i".to_string())),
                    Box::new(create_binop_rlit(
                        Expr::Id("i".to_string()),
                        Operator::Plus,
                        1,
                    )),
                ),
            ],
        ),
    ];
    let want = Program::new(want_vec);
    assert_eq!(got, want, "Got: {:?}\n\n", got);
}

#[test]
fn parser_do_while_loop_() {
    // i = 0;
    // do {
    //  i = i + 1;
    //  i = i + 1;
    // }
    // while (i < 9);
    // return i;
    let file = EXAMPLE_DO_WHILE;
    let lexer = Lexer::new(file);
    let tokens = lexer.tokenize();
    let mut parser = Parser::new(tokens);
    let got = parser.parse();
    let want_vec = vec![
        // i = 0;
        Statement::Assignment(Box::new(Expr::Id("i".to_string())), Box::new(Expr::Int(0))),
        // do {
        Statement::DoWhile(
            // body
            vec![
                // i = i + 1;
                Statement::Assignment(
                    Box::new(Expr::Id("i".to_string())),
                    Box::new(create_binop_rlit(
                        Expr::Id("i".to_string()),
                        Operator::Plus,
                        1,
                    )),
                ),
                Statement::Assignment(
                    Box::new(Expr::Id("i".to_string())),
                    Box::new(create_binop_rlit(
                        Expr::Id("i".to_string()),
                        Operator::Plus,
                        1,
                    )),
                ),
            ],
            // while (i < 9);
            Box::new(Expr::BinOp(
                Box::new(Expr::Id("i".to_string())),
                Operator::LessThan,
                Box::new(Expr::Int(9)),
            )),
        ),
        Statement::Return(Box::new(Expr::Id("i".to_string()))),
    ];
    let want = Program::new(want_vec);
    assert_eq!(got, want, "Got: {:?}\n\n", got);
}

#[test]
fn parser_while_loop_example1() {
    // i = 0;
    // while (i < 9) {
    //  i = i + 1;
    // }
    // return i;
    let file = EXAMPLE_LOOP1;
    let lexer = Lexer::new(file);
    let tokens = lexer.tokenize();
    let mut parser = Parser::new(tokens);
    let got = parser.parse();
    let want_vec = vec![
        // i = 0;
        Statement::Assignment(Box::new(Expr::Id("i".to_string())), Box::new(Expr::Int(0))),
        // while (i < 9) {
        Statement::While(
            Box::new(Expr::BinOp(
                Box::new(Expr::Id("i".to_string())),
                Operator::LessThan,
                Box::new(Expr::Int(9)),
            )),
            // body
            vec![
                // i = i + 1;
                Statement::Assignment(
                    Box::new(Expr::Id("i".to_string())),
                    Box::new(create_binop_rlit(
                        Expr::Id("i".to_string()),
                        Operator::Plus,
                        1,
                    )),
                ),
            ],
        ),
        Statement::Return(Box::new(Expr::Id("i".to_string()))),
    ];
    let want = Program::new(want_vec);
    let got_text = Program::pretty_print_program(&got);
    let want_text = Program::pretty_print_program(&want);
    assert_eq!(got, want, "\nGot: {}\n\nWant: {}\n\n", &got_text, &want_text);
}

// The pretty printer renders a program back to source-like text.
#[test]
fn pretty_print_round() {
    let s = "a = 0;do {a = a + 1;} while (a < 2);return a;";
    let lexer = Lexer::new(s);
    let tokens = lexer.tokenize();
    let mut parser = Parser::new(tokens);
    let prog = parser.parse();
    let text = Program::pretty_print_program(&prog);
    assert_eq!(
        text,
        "Program :\na = 0;\ndo {\na = a + 1;\n} while (a < 2);\nreturn a;\n"
    );
}

// A negative literal never arises from the lexer, but the printer still
// renders one.
#[test]
fn pretty_print_negative_int() {
    let prog = Program::new(vec![Statement::Assignment(
        Box::new(Expr::Id("a".to_string())),
        Box::new(Expr::Int(-17)),
    )]);
    let text = Program::pretty_print_program(&prog);
    assert_eq!(text, "Program :\na = -17;\n");
}

// A `break` keyword is consumed and ends the statement list.
#[test]
fn parser_break_ends_list() {
    let s = "a = 1; break b = 2;";
    let lexer = Lexer::new(s);
    let tokens = lexer.tokenize();
    let mut parser = Parser::new(tokens);
    let got = parser.parse();
    let want = Program::new(vec![Statement::Assignment(
        Box::new(Expr::Id("a".to_string())),
        Box::new(Expr::Int(1)),
    )]);
    assert_eq!(got, want);
}
