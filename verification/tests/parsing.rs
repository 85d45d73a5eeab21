use type_inference::ast::{Expr, Op};
use type_inference::infer::{top_level_env, type_of, Enviroment, Error, VarGenerator};
use type_inference::lexer::{tokenize, ParseError, Token};
use type_inference::parser::parse_Expr;

fn var(name: &str) -> Box<Expr> {
    Box::new(Expr::Var(name.to_owned()))
}

fn num(n: i32) -> Box<Expr> {
    Box::new(Expr::Num(n))
}

fn binop(l: Box<Expr>, op: Op, r: Box<Expr>) -> Box<Expr> {
    Box::new(Expr::BinOp(l, op, r))
}

fn app(f: Box<Expr>, a: Box<Expr>) -> Box<Expr> {
    Box::new(Expr::App(f, a))
}

fn type_text(input: &str) -> Result<String, Error> {
    let e = parse_Expr(input).unwrap();
    let mut gen = VarGenerator::new();
    type_of(&e, &Enviroment::empty(), &mut gen).map(|t| t.to_string())
}

#[test]
fn tokens_and_their_places() {
    let (tokens, failure) = tokenize("let x1 = 10 in x1->y");
    assert_eq!(failure, None);
    assert_eq!(
        tokens,
        vec![
            (Token::Let, 0),
            (Token::Id("x1".to_owned()), 4),
            (Token::Equal, 7),
            (Token::Num(10), 9),
            (Token::In, 12),
            (Token::Id("x1".to_owned()), 15),
            (Token::Arrow, 17),
            (Token::Id("y".to_owned()), 19),
        ]
    );
}

#[test]
fn keywords_need_the_whole_word() {
    let (tokens, failure) = tokenize("letrec lettuce iffy in_ truth true");
    assert_eq!(failure, None);
    let kinds: Vec<Token> = tokens.into_iter().map(|t| t.0).collect();
    assert_eq!(
        kinds,
        vec![
            Token::LetRec,
            Token::Id("lettuce".to_owned()),
            Token::Id("iffy".to_owned()),
            Token::Id("in_".to_owned()),
            Token::Id("truth".to_owned()),
            Token::True,
        ]
    );
}

#[test]
fn punctuation_takes_the_longest_token() {
    let (tokens, failure) = tokenize("- -> && || ( ) * + / < = >");
    assert_eq!(failure, None);
    let kinds: Vec<Token> = tokens.into_iter().map(|t| t.0).collect();
    assert_eq!(
        kinds,
        vec![
            Token::Minus,
            Token::Arrow,
            Token::And,
            Token::Or,
            Token::Open,
            Token::Close,
            Token::Star,
            Token::Plus,
            Token::Slash,
            Token::Less,
            Token::Equal,
            Token::Greater,
        ]
    );
}

#[test]
fn digits_and_letters_split_into_two_tokens() {
    let (tokens, failure) = tokenize("12ab");
    assert_eq!(failure, None);
    assert_eq!(
        tokens,
        vec![(Token::Num(12), 0), (Token::Id("ab".to_owned()), 2)]
    );
}

#[test]
fn white_space_of_any_kind_is_skipped() {
    let (tokens, failure) = tokenize("\t1\u{a0}\n\u{3000}2 ");
    assert_eq!(failure, None);
    assert_eq!(tokens, vec![(Token::Num(1), 1), (Token::Num(2), 8)]);
}

#[test]
fn places_are_counted_in_bytes() {
    assert_eq!(
        tokenize("\u{a0}@"),
        (vec![], Some(ParseError::InvalidToken { location: 2 }))
    );
    assert_eq!(
        parse_Expr("\u{a0}@"),
        Err(ParseError::InvalidToken { location: 2 })
    );
    assert_eq!(
        parse_Expr("\u{3000}1 )"),
        Err(ParseError::UnrecognizedToken { location: 5 })
    );
    assert_eq!(
        parse_Expr("\u{2003}\u{85}2147483648"),
        Err(ParseError::NumberTooLarge { location: 5 })
    );
    let text = "x\u{1680}+\u{205f}\u{a0}y";
    let (tokens, failure) = tokenize(text);
    assert_eq!(failure, None);
    assert_eq!(
        tokens,
        vec![
            (Token::Id("x".to_owned()), 0),
            (Token::Plus, 4),
            (Token::Id("y".to_owned()), 10),
        ]
    );
    for (_, place) in tokens {
        assert!(text.is_char_boundary(place));
    }
    assert_eq!(&text[10..], "y");
}

#[test]
fn tokens_end_where_no_token_starts() {
    assert_eq!(
        tokenize("a & b"),
        (
            vec![(Token::Id("a".to_owned()), 0)],
            Some(ParseError::InvalidToken { location: 2 })
        )
    );
    assert_eq!(
        tokenize("1 + 2147483648 @"),
        (
            vec![(Token::Num(1), 0), (Token::Plus, 2)],
            Some(ParseError::NumberTooLarge { location: 4 })
        )
    );
}

#[test]
fn the_first_error_in_the_text_is_reported() {
    assert_eq!(
        parse_Expr(") @"),
        Err(ParseError::UnrecognizedToken { location: 0 })
    );
    assert_eq!(
        parse_Expr("1 ) @"),
        Err(ParseError::UnrecognizedToken { location: 2 })
    );
    assert_eq!(
        parse_Expr("let 1 = 99999999999"),
        Err(ParseError::UnrecognizedToken { location: 4 })
    );
    assert_eq!(parse_Expr("1 @"), Err(ParseError::InvalidToken { location: 2 }));
    assert_eq!(parse_Expr("1 + @"), Err(ParseError::InvalidToken { location: 4 }));
    assert_eq!(parse_Expr("(1 @ )"), Err(ParseError::InvalidToken { location: 3 }));
    assert_eq!(parse_Expr("@ )"), Err(ParseError::InvalidToken { location: 0 }));
    assert_eq!(
        parse_Expr("f 99999999999 )"),
        Err(ParseError::NumberTooLarge { location: 2 })
    );
}

#[test]
fn lone_ampersand_is_no_token() {
    assert_eq!(
        tokenize("a & b").1,
        Some(ParseError::InvalidToken { location: 2 })
    );
    assert_eq!(
        parse_Expr("1 | 2"),
        Err(ParseError::InvalidToken { location: 2 })
    );
    assert_eq!(parse_Expr("x # y"), Err(ParseError::InvalidToken { location: 2 }));
}

#[test]
fn largest_number_is_accepted_and_the_next_is_not() {
    assert_eq!(parse_Expr("2147483647"), Ok(num(2147483647)));
    assert_eq!(parse_Expr("0002147483647"), Ok(num(2147483647)));
    assert_eq!(
        parse_Expr(" 2147483648"),
        Err(ParseError::NumberTooLarge { location: 1 })
    );
    assert_eq!(
        parse_Expr("99999999999999999999999999"),
        Err(ParseError::NumberTooLarge { location: 0 })
    );
}

#[test]
fn arithmetic_binds_tighter_than_comparison_and_logic() {
    let e = parse_Expr("a + b * c < d && e || f").unwrap();
    let sum = binop(var("a"), Op::Add, binop(var("b"), Op::Mul, var("c")));
    let less = binop(sum, Op::Lt, var("d"));
    let and = binop(less, Op::And, var("e"));
    assert_eq!(e, binop(and, Op::Or, var("f")));
}

#[test]
fn operators_group_to_the_left() {
    assert_eq!(
        parse_Expr("1 - 2 - 3").unwrap(),
        binop(binop(num(1), Op::Sub, num(2)), Op::Sub, num(3))
    );
    assert_eq!(
        parse_Expr("8 / 4 * 2").unwrap(),
        binop(binop(num(8), Op::Div, num(4)), Op::Mul, num(2))
    );
    assert_eq!(
        parse_Expr("a = b > c").unwrap(),
        binop(binop(var("a"), Op::Equal, var("b")), Op::Gt, var("c"))
    );
}

#[test]
fn application_groups_to_the_left_and_binds_tightest() {
    assert_eq!(
        parse_Expr("f x y + g 1").unwrap(),
        binop(
            app(app(var("f"), var("x")), var("y")),
            Op::Add,
            app(var("g"), num(1))
        )
    );
    assert_eq!(
        parse_Expr("f (g x)").unwrap(),
        app(var("f"), app(var("g"), var("x")))
    );
}

#[test]
fn function_bodies_extend_to_the_right() {
    assert_eq!(
        parse_Expr("fun x -> x + 1").unwrap(),
        Box::new(Expr::Fun(
            "x".to_owned(),
            binop(var("x"), Op::Add, num(1))
        ))
    );
    assert_eq!(
        parse_Expr("fun f -> fun x -> f x").unwrap(),
        Box::new(Expr::Fun(
            "f".to_owned(),
            Box::new(Expr::Fun("x".to_owned(), app(var("f"), var("x"))))
        ))
    );
}

#[test]
fn let_and_if_nest() {
    assert_eq!(
        parse_Expr("let x = if true then 1 else 2 in letrec f = fun n -> f n in f x").unwrap(),
        Box::new(Expr::Let(
            "x".to_owned(),
            Box::new(Expr::If(Box::new(Expr::Bool(true)), num(1), num(2))),
            Box::new(Expr::LetRec(
                "f".to_owned(),
                Box::new(Expr::Fun("n".to_owned(), app(var("f"), var("n")))),
                app(var("f"), var("x"))
            ))
        ))
    );
}

#[test]
fn let_is_no_operand_without_parentheses() {
    assert_eq!(
        parse_Expr("1 + let x = 1 in x"),
        Err(ParseError::UnrecognizedToken { location: 4 })
    );
    assert_eq!(
        parse_Expr("1 + (let x = 1 in x)").unwrap(),
        binop(
            num(1),
            Op::Add,
            Box::new(Expr::Let("x".to_owned(), num(1), var("x")))
        )
    );
    assert_eq!(
        parse_Expr("f fun x -> x"),
        Err(ParseError::UnrecognizedToken { location: 2 })
    );
}

#[test]
fn syntax_errors_name_the_place() {
    assert_eq!(parse_Expr(""), Err(ParseError::UnexpectedEnd));
    assert_eq!(parse_Expr("   "), Err(ParseError::UnexpectedEnd));
    assert_eq!(parse_Expr("1 +"), Err(ParseError::UnexpectedEnd));
    assert_eq!(parse_Expr("(1"), Err(ParseError::UnexpectedEnd));
    assert_eq!(parse_Expr("let x"), Err(ParseError::UnexpectedEnd));
    assert_eq!(
        parse_Expr("1 )"),
        Err(ParseError::UnrecognizedToken { location: 2 })
    );
    assert_eq!(
        parse_Expr("let 1 = 2 in 3"),
        Err(ParseError::UnrecognizedToken { location: 4 })
    );
    assert_eq!(
        parse_Expr("let x 1"),
        Err(ParseError::UnrecognizedToken { location: 6 })
    );
    assert_eq!(
        parse_Expr("let x = 1 then"),
        Err(ParseError::UnrecognizedToken { location: 10 })
    );
    assert_eq!(
        parse_Expr("if 1 else 2"),
        Err(ParseError::UnrecognizedToken { location: 5 })
    );
    assert_eq!(
        parse_Expr("if 1 then 2 in"),
        Err(ParseError::UnrecognizedToken { location: 12 })
    );
    assert_eq!(
        parse_Expr("fun 1"),
        Err(ParseError::UnrecognizedToken { location: 4 })
    );
    assert_eq!(
        parse_Expr("fun x = x"),
        Err(ParseError::UnrecognizedToken { location: 6 })
    );
    assert_eq!(
        parse_Expr("* 2"),
        Err(ParseError::UnrecognizedToken { location: 0 })
    );
}

#[test]
fn expressions_print_with_all_parentheses() {
    let e = parse_Expr("letrec f = fun n -> if n < 1 then 1 else n * f (n - 1) in f").unwrap();
    assert_eq!(
        e.to_string(),
        "(letrec f = (fun n -> (if (n < 1) then 1 else (n * (f (n - 1))))) in f)"
    );
    assert_eq!(Expr::Num(-12).to_string(), "-12");
    assert_eq!(Expr::Num(i32::MIN).to_string(), "-2147483648");
    assert_eq!(Expr::Bool(false).to_string(), "false");
    assert_eq!(Op::And.to_string(), "&&");
    assert_eq!(Op::Equal.to_string(), "=");
}

#[test]
fn printed_expression_parses_back() {
    let text = "let id = fun x -> x in if id true && false || 1 = 2 then id 3 else 4 / 2";
    let e = parse_Expr(text).unwrap();
    assert_eq!(parse_Expr(&e.to_string()).unwrap(), e);
}

#[test]
fn types_a_number() {
    assert_eq!(type_text("42").unwrap(), "int");
}

#[test]
fn types_the_identity() {
    assert_eq!(type_text("fun x -> x").unwrap(), "('2 -> '2)");
}

#[test]
fn types_a_function_applied_twice() {
    let text = type_text("fun f -> fun x -> f (f x)").unwrap();
    assert_eq!(text, "(('4 -> '4) -> ('4 -> '4))");
}

#[test]
fn types_a_polymorphic_let() {
    let text = type_text("let id = fun x -> x in id id").unwrap();
    assert_eq!(text, "('7 -> '7)");
}

#[test]
fn rejects_adding_a_boolean() {
    match type_text("fun x -> x + true") {
        Err(Error::TypeError(msg)) => assert_eq!(msg, "cannot unify int with bool"),
        other => panic!("unexpected outcome: {:?}", other),
    }
}

#[test]
fn types_a_conditional() {
    assert_eq!(type_text("if 1 < 2 then 3 else 4").unwrap(), "int");
}

#[test]
fn types_the_factorial() {
    let text = "letrec f = fun n -> if n < 1 then 1 else n * f (n - 1) in f";
    assert_eq!(type_text(text).unwrap(), "(int -> int)");
}

#[test]
fn rejects_self_application() {
    match type_text("fun x -> x x") {
        Err(Error::TypeError(msg)) => assert_eq!(msg, "cannot unify '4 with ('4 -> '3)"),
        other => panic!("unexpected outcome: {:?}", other),
    }
}

#[test]
fn rejects_an_unbound_name() {
    match type_text("foo") {
        Err(Error::UndefinedName(name)) => {
            assert_eq!(name, "foo");
            assert_eq!(Error::UndefinedName(name).to_string(), "foo is undefined");
        }
        other => panic!("unexpected outcome: {:?}", other),
    }
}

#[test]
fn types_a_list_built_with_the_prelude() {
    let mut gen = VarGenerator::new();
    let env = top_level_env(&mut gen);
    let e = parse_Expr("pair 1 nil").unwrap();
    assert_eq!(type_of(&e, &env, &mut gen).unwrap().to_string(), "List<int>");
}

#[test]
fn let_bound_function_is_used_at_two_types() {
    let text = "let id = fun x -> x in if id true then id 1 else id 2";
    assert_eq!(type_text(text).unwrap(), "int");
}

#[test]
fn lambda_bound_function_is_used_at_one_type() {
    let text = "fun id -> if id true then id 1 else id 2";
    assert!(matches!(type_text(text), Err(Error::TypeError(_))));
}

#[test]
fn let_gives_the_type_of_its_value() {
    let direct = type_text("fun x -> fun y -> x").unwrap();
    let bound = type_text("let k = fun x -> fun y -> x in k").unwrap();
    assert_eq!(direct, "('2 -> ('4 -> '2))");
    assert_eq!(bound, "('7 -> ('8 -> '7))");
}

#[test]
fn prelude_functions_work_on_lists() {
    let mut gen = VarGenerator::new();
    let env = top_level_env(&mut gen);
    let text =
        "letrec len = fun l -> if is_nil l then 0 else 1 + len (rest l) in len (pair true nil)";
    let e = parse_Expr(text).unwrap();
    assert_eq!(type_of(&e, &env, &mut gen).unwrap().to_string(), "int");
    let e = parse_Expr("first (pair 1 (pair true nil))").unwrap();
    assert!(matches!(type_of(&e, &env, &mut gen), Err(Error::TypeError(_))));
}

#[test]
fn let_of_a_parameter_is_not_generalised() {
    assert_eq!(
        type_text("fun x -> let y = x in y + 1").unwrap(),
        "(int -> int)"
    );
    let text = "fun x -> let y = x in if y true then y 1 else 2";
    assert!(matches!(type_text(text), Err(Error::TypeError(_))));
    let text = "fun x -> let y = fun z -> x in if y true then y 1 else false";
    assert_eq!(type_text(text).unwrap(), "(bool -> bool)");
}

#[test]
fn let_of_a_polymorphic_name_is_polymorphic() {
    let text = "let f = fun x -> x in let g = f in if g true then g 1 else 2";
    assert_eq!(type_text(text).unwrap(), "int");
}

#[test]
fn let_inside_a_function_generalises_what_it_can() {
    let text = "fun f -> let g = fun y -> f y in g";
    let t = type_text(text).unwrap();
    assert_eq!(t, "(('5 -> '6) -> ('5 -> '6))");
}

#[test]
fn letrec_is_polymorphic_in_its_body_only() {
    let text = "letrec id = fun x -> x in if id true then id 1 else 2";
    assert_eq!(type_text(text).unwrap(), "int");
    let text = "letrec f = fun x -> if f true then 1 else f 2 in f";
    assert!(matches!(type_text(text), Err(Error::TypeError(_))));
}

#[test]
fn comparison_takes_operands_of_any_one_type() {
    assert_eq!(type_text("true = false").unwrap(), "bool");
    assert_eq!(type_text("fun x -> fun y -> x < y").unwrap(), "('4 -> ('4 -> bool))");
    assert!(matches!(type_text("1 = true"), Err(Error::TypeError(_))));
    assert_eq!(type_text("(fun x -> x) = (fun y -> y)").unwrap(), "bool");
}

#[test]
fn logic_and_arithmetic_take_their_own_operands() {
    assert_eq!(type_text("1 + 2 * 3 - 4 / 5").unwrap(), "int");
    assert_eq!(type_text("true && false || true").unwrap(), "bool");
    assert!(matches!(type_text("1 && true"), Err(Error::TypeError(_))));
    assert!(matches!(type_text("true + 1"), Err(Error::TypeError(_))));
    assert!(matches!(type_text("if 1 then 2 else 3"), Err(Error::TypeError(_))));
    assert!(matches!(type_text("if true then 2 else false"), Err(Error::TypeError(_))));
    assert!(matches!(type_text("1 2"), Err(Error::TypeError(_))));
}

#[test]
fn printed_expressions_parse_back() {
    let texts = [
        "0",
        "2147483647",
        "true",
        "x_1",
        "f x y",
        "1 - 2 - 3",
        "a * (b + c)",
        "a && b || c = d",
        "fun f -> fun x -> f (f x)",
        "let id = fun x -> x in id id",
        "letrec f = fun n -> if n < 1 then 1 else n * f (n - 1) in f",
        "if if a then b else c then (let x = 1 in x) else fun y -> y",
        "((((x))))",
    ];
    for text in texts {
        let e = parse_Expr(text).unwrap();
        let printed = e.to_string();
        assert_eq!(parse_Expr(&printed).unwrap(), e, "{}", printed);
        assert_eq!(parse_Expr(&printed).unwrap().to_string(), printed);
    }
}

#[test]
fn expressions_that_cannot_be_written_do_not_parse_back() {
    let keyword = Expr::Var("let".to_owned());
    assert!(parse_Expr(&keyword.to_string()).is_err());
    let negative = Expr::Num(-1);
    assert!(parse_Expr(&negative.to_string()).is_err());
    let spaced = Expr::Var("a b".to_owned());
    assert_eq!(
        parse_Expr(&spaced.to_string()).unwrap(),
        app(var("a"), var("b"))
    );
}

#[test]
fn copies_are_equal() {
    let e = parse_Expr("let f = fun x -> x + 1 in if f 1 = 2 then true else false").unwrap();
    assert_eq!(e.clone(), e);
    let op = Op::Mul;
    let copy = op;
    assert_eq!(copy, op);
    let mut gen = VarGenerator::new();
    let t = type_of(&e, &Enviroment::empty(), &mut gen).unwrap();
    assert_eq!(t.clone(), t);
    assert_eq!(t.to_string(), "bool");
}
