use mal::atom::Atom;
use mal::atom::BuiltinOp;
use mal::atom::RunTimeError;
use mal::atom::escape;
use mal::atom::to_display_string;
use mal::env::default_env;
use mal::eval::apply_builtin;
use mal::eval::eval;
use mal::eval::eval_ast;
use mal::eval::print;
use mal::eval::read_eval_print;
use mal::eval::try_read_eval_print;
use mal::reader::ParseError;
use mal::reader::Reader;
use mal::reader::parse_int;
use mal::reader::read;
use mal::reader::read_atom;
use mal::reader::read_str;
use mal::reader::tokenize;
use mal::reader::unescape;

fn integer(n: i64) -> Atom {
    Atom::Integer(n)
}

fn sym(s: &str) -> Atom {
    Atom::Symbol(String::from(s))
}

fn kw(s: &str) -> Atom {
    Atom::Keyword(String::from(s))
}

#[test]
fn read_list_of_integers() {
    assert_eq!(
        read(String::from("(1 2 3)")),
        Ok(Atom::List(vec![integer(1), integer(2), integer(3)]))
    );
}

#[test]
fn read_vector_of_integers() {
    assert_eq!(
        read(String::from("[1 2]")),
        Ok(Atom::Vector(vec![integer(1), integer(2)]))
    );
}

#[test]
fn read_map_single_entry() {
    assert_eq!(
        read(String::from("{:a 1}")),
        Ok(Atom::HashMap(vec![(kw("a"), integer(1))]))
    );
}

#[test]
fn read_map_odd_element_count_fails() {
    assert_eq!(
        read(String::from("{:a}")),
        Err(ParseError::UnpairedMapKey)
    );
}

#[test]
fn read_unclosed_list_fails() {
    assert_eq!(read(String::from("(")), Err(ParseError::Unbalanced));
}

#[test]
fn read_empty_input_fails() {
    assert_eq!(
        read(String::from("")),
        Err(ParseError::UnexpectedEndOfFile)
    );
}

#[test]
fn read_unterminated_string_fails() {
    assert_eq!(read(String::from("\"abc")), Err(ParseError::Unbalanced));
}

#[test]
fn read_unsupported_escape_fails() {
    assert_eq!(
        read(String::from("\"a\\qb\"")),
        Err(ParseError::UnsupportedEscapeSequence)
    );
}

#[test]
fn read_escaped_backslash_decodes() {
    assert_eq!(
        read(String::from("\"a\\\\b\"")),
        Ok(Atom::String(String::from("a\\b")))
    );
}

#[test]
fn read_trailing_backslash_escape_fails() {
    // the escaped quote keeps the literal open, so the token still ends with
    // `"` and the interior ends on a lone backslash
    assert_eq!(
        read(String::from("\"a\\\"")),
        Err(ParseError::UnfinishedEscapeSequence)
    );
}

#[test]
fn read_escaped_quote_decodes() {
    assert_eq!(
        read(String::from("\"a\\\"b\"")),
        Ok(Atom::String(String::from("a\"b")))
    );
}

#[test]
fn eval_addition() {
    let env = default_env();
    let ast = read(String::from("(+ 1 2)")).unwrap();
    assert_eq!(eval(&ast, &env), Ok(integer(3)));
}

#[test]
fn eval_three_arguments_is_wrong_number() {
    let env = default_env();
    let ast = read(String::from("(+ 1 2 3)")).unwrap();
    assert_eq!(eval(&ast, &env), Err(RunTimeError::WrongNumberArguments));
}

#[test]
fn eval_unknown_symbol_is_not_bound() {
    let env = default_env();
    let ast = read(String::from("(foo 1 2)")).unwrap();
    assert_eq!(eval(&ast, &env), Err(RunTimeError::SymbolNotBound));
}

#[test]
fn eval_integer_head_is_not_a_function() {
    let env = default_env();
    let ast = read(String::from("(1 2 3)")).unwrap();
    assert_eq!(eval(&ast, &env), Err(RunTimeError::NotAFunction));
}

#[test]
fn quote_macro_expands_and_eval_does_not_special_case_it() {
    let env = default_env();
    let ast = read(String::from("'(1 2)")).unwrap();
    assert_eq!(
        ast,
        Atom::List(vec![sym("quote"), Atom::List(vec![integer(1), integer(2)])])
    );
    // no quote special form: the head symbol is evaluated like any other,
    // and `quote` is not bound in the default environment
    assert_eq!(eval(&ast, &env), Err(RunTimeError::SymbolNotBound));
}

#[test]
fn division_truncates_toward_zero() {
    let env = default_env();
    let ast = read(String::from("(/ -7 2)")).unwrap();
    assert_eq!(eval(&ast, &env), Ok(integer(-3)));
}

#[test]
fn modulo_keeps_dividend_sign() {
    let env = default_env();
    let ast = read(String::from("(% -7 2)")).unwrap();
    assert_eq!(eval(&ast, &env), Ok(integer(-1)));
}

#[test]
fn eval_subtraction_and_multiplication() {
    let env = default_env();
    assert_eq!(
        eval(&read(String::from("(- 3 10)")).unwrap(), &env),
        Ok(integer(-7))
    );
    assert_eq!(
        eval(&read(String::from("(* 6 -7)")).unwrap(), &env),
        Ok(integer(-42))
    );
}

#[test]
fn eval_addition_wraps_on_overflow() {
    let env = default_env();
    let ast = read(String::from("(+ 9223372036854775807 1)")).unwrap();
    assert_eq!(eval(&ast, &env), Ok(integer(i64::MIN)));
}

#[test]
fn eval_non_integer_argument_is_wrong_type() {
    let env = default_env();
    let ast = read(String::from("(+ 1 :a)")).unwrap();
    assert_eq!(eval(&ast, &env), Err(RunTimeError::WrongType));
}

#[test]
fn eval_empty_list_is_itself() {
    let env = default_env();
    let ast = read(String::from("()")).unwrap();
    assert_eq!(eval(&ast, &env), Ok(Atom::List(vec![])));
}

#[test]
fn eval_vector_element_wise() {
    let env = default_env();
    let ast = read(String::from("[(+ 1 2) 4]")).unwrap();
    assert_eq!(eval(&ast, &env), Ok(Atom::Vector(vec![integer(3), integer(4)])));
}

#[test]
fn eval_map_evaluates_keys_and_values() {
    let env = default_env();
    let ast = read(String::from("{:a (+ 1 2)}")).unwrap();
    assert_eq!(
        eval(&ast, &env),
        Ok(Atom::HashMap(vec![(kw("a"), integer(3))]))
    );
}

#[test]
fn eval_ast_maps_list_elements_without_applying() {
    let env = default_env();
    let ast = read(String::from("(1 2)")).unwrap();
    assert_eq!(
        eval_ast(&ast, &env),
        Ok(Atom::List(vec![integer(1), integer(2)]))
    );
}

#[test]
fn eval_self_evaluating_atoms() {
    let env = default_env();
    assert_eq!(eval(&integer(5), &env), Ok(integer(5)));
    assert_eq!(eval(&kw("k"), &env), Ok(kw("k")));
    assert_eq!(
        eval(&Atom::String(String::from("s")), &env),
        Ok(Atom::String(String::from("s")))
    );
}

#[test]
fn eval_symbol_looks_up_binding() {
    let env = default_env();
    let ast = sym("+");
    assert_eq!(eval(&ast, &env), Ok(Atom::Builtin(BuiltinOp::Add)));
}

#[test]
fn map_keys_are_sorted_and_duplicates_replaced() {
    assert_eq!(
        read(String::from("{:b 1 :a 2}")),
        Ok(Atom::HashMap(vec![(kw("a"), integer(2)), (kw("b"), integer(1))]))
    );
    assert_eq!(
        read(String::from("{:a 1 :a 2}")),
        Ok(Atom::HashMap(vec![(kw("a"), integer(2))]))
    );
}

#[test]
fn commas_and_whitespace_separate() {
    assert_eq!(
        read(String::from("  ,,(1,,2,),  ")),
        Ok(Atom::List(vec![integer(1), integer(2)]))
    );
}

#[test]
fn comments_are_discarded() {
    assert_eq!(
        read(String::from("(1 ; a comment\n2)")),
        Ok(Atom::List(vec![integer(1), integer(2)]))
    );
}

#[test]
fn splice_unquote_and_deref_expand() {
    assert_eq!(
        read(String::from("~@x")),
        Ok(Atom::List(vec![sym("splice-unquote"), sym("x")]))
    );
    assert_eq!(
        read(String::from("@x")),
        Ok(Atom::List(vec![sym("deref"), sym("x")]))
    );
    assert_eq!(
        read(String::from("`x")),
        Ok(Atom::List(vec![sym("quasiquote"), sym("x")]))
    );
    assert_eq!(
        read(String::from("~x")),
        Ok(Atom::List(vec![sym("unquote"), sym("x")]))
    );
}

#[test]
fn keywords_and_symbols_parse() {
    assert_eq!(read(String::from(":key")), Ok(kw("key")));
    assert_eq!(read(String::from("abc-d?")), Ok(sym("abc-d?")));
    assert_eq!(read_atom("12x"), sym("12x"));
    assert_eq!(read_atom(":k"), kw("k"));
    assert_eq!(read_atom("7"), integer(7));
}

#[test]
fn integers_parse_with_signs_and_bounds() {
    assert_eq!(read(String::from("+5")), Ok(integer(5)));
    assert_eq!(read(String::from("-12")), Ok(integer(-12)));
    assert_eq!(
        read(String::from("-9223372036854775808")),
        Ok(integer(i64::MIN))
    );
    assert_eq!(
        read(String::from("9223372036854775807")),
        Ok(integer(i64::MAX))
    );
    // one past the range is no integer: it falls back to a symbol
    assert_eq!(
        read(String::from("9223372036854775808")),
        Ok(sym("9223372036854775808"))
    );
    assert_eq!(parse_int("007"), Some(7));
    assert_eq!(parse_int("--7"), None);
    assert_eq!(parse_int(""), None);
    assert_eq!(parse_int("+"), None);
}

#[test]
fn display_renders_each_variant() {
    assert_eq!(to_display_string(&integer(-42)), "-42");
    assert_eq!(to_display_string(&sym("abc")), "abc");
    assert_eq!(to_display_string(&kw("a")), ":a");
    assert_eq!(
        to_display_string(&Atom::String(String::from("a\"b\\c"))),
        "\"a\\\"b\\\\c\""
    );
    assert_eq!(
        to_display_string(&Atom::List(vec![integer(1), integer(2), integer(3)])),
        "(1 2 3)"
    );
    assert_eq!(
        to_display_string(&Atom::Vector(vec![integer(1), integer(2)])),
        "[1 2]"
    );
    assert_eq!(
        to_display_string(&Atom::HashMap(vec![(kw("a"), integer(1)), (kw("b"), integer(2))])),
        "{:a 1 :b 2}"
    );
    assert_eq!(
        to_display_string(&Atom::Builtin(BuiltinOp::Add)),
        "#<BUILTIN +>"
    );
    assert_eq!(print(Atom::List(vec![])), "()");
}

#[test]
fn display_read_round_trip_on_concrete_forms() {
    let texts = [
        "(1 :a \"x\" [2 sym])",
        "[\"a\\\\b\" \"c\\\"d\"]",
        "(quote (1 2))",
        "-37",
        ":kw",
        "plain-symbol",
    ];
    for text in texts {
        let a1 = read(String::from(text)).unwrap();
        let shown = to_display_string(&a1);
        let a2 = read(shown).unwrap();
        assert_eq!(a1, a2);
    }
}

#[test]
fn display_read_round_trip_on_nested_forms() {
    let texts = [
        "((1 (2 [3 \"a b\"])) :k sym)",
        "[() [[]] (\"\\\\\" :x)]",
        "(quote (unquote [-9223372036854775808 9223372036854775807]))",
    ];
    for text in texts {
        let a1 = read(String::from(text)).unwrap();
        let shown = to_display_string(&a1);
        let a2 = read(shown).unwrap();
        assert_eq!(a1, a2);
    }
}

#[test]
fn escape_inserts_backslashes() {
    assert_eq!(escape("a\\b"), "a\\\\b");
    assert_eq!(escape("a\"b"), "a\\\"b");
    assert_eq!(escape("plain"), "plain");
}

#[test]
fn unescape_decodes_pairs() {
    assert_eq!(unescape("a\\'b"), Ok(String::from("a'b")));
    assert_eq!(unescape("a\\x"), Err(ParseError::UnsupportedEscapeSequence));
    assert_eq!(unescape("a\\"), Err(ParseError::UnfinishedEscapeSequence));
}

#[test]
fn as_integer_accepts_only_integers() {
    assert_eq!(integer(9).as_integer(), Ok(9));
    assert_eq!(sym("x").as_integer(), Err(RunTimeError::WrongType));
}

#[test]
fn default_env_binds_the_five_builtins() {
    let env = default_env();
    assert_eq!(env.get("+"), Some(&Atom::Builtin(BuiltinOp::Add)));
    assert_eq!(env.get("-"), Some(&Atom::Builtin(BuiltinOp::Sub)));
    assert_eq!(env.get("*"), Some(&Atom::Builtin(BuiltinOp::Mul)));
    assert_eq!(env.get("/"), Some(&Atom::Builtin(BuiltinOp::Div)));
    assert_eq!(env.get("%"), Some(&Atom::Builtin(BuiltinOp::Rem)));
    assert_eq!(env.get("foo"), None);
}

#[test]
fn apply_builtin_checks_arity_and_types() {
    assert_eq!(
        apply_builtin(BuiltinOp::Add, vec![integer(2), integer(3)]),
        Ok(integer(5))
    );
    assert_eq!(
        apply_builtin(BuiltinOp::Add, vec![integer(2)]),
        Err(RunTimeError::WrongNumberArguments)
    );
    assert_eq!(
        apply_builtin(BuiltinOp::Mul, vec![sym("x"), integer(3)]),
        Err(RunTimeError::WrongType)
    );
}

#[test]
fn reader_cursor_peeks_and_advances() {
    let mut reader = Reader {
        tokens: tokenize("(a)"),
        position: 0,
    };
    assert_eq!(reader.peek(), Some(String::from("(")));
    assert_eq!(reader.position, 0);
    assert_eq!(reader.next(), Some(String::from("(")));
    assert_eq!(reader.next(), Some(String::from("a")));
    assert_eq!(reader.next(), Some(String::from(")")));
    assert_eq!(reader.position, 3);
    // the cursor advances even past the end of the tokens
    assert_eq!(reader.next(), None);
    assert_eq!(reader.position, 4);
    assert_eq!(reader.next(), None);
    assert_eq!(reader.position, 5);
}

#[test]
fn tokenize_splits_strings_and_specials() {
    assert_eq!(tokenize("(+ 1 \"a b\")"), vec!["(", "+", "1", "\"a b\"", ")"]);
    assert_eq!(tokenize("~@a ~b"), vec!["~@", "a", "~", "b"]);
    assert_eq!(tokenize("; only a comment"), Vec::<String>::new());
}

#[test]
fn read_str_reads_exactly_one_form() {
    assert_eq!(
        read_str(String::from("(1) (2)")),
        Ok(Atom::List(vec![integer(1)]))
    );
}

#[test]
fn read_eval_print_answers_lines() {
    assert_eq!(read_eval_print(String::from("(+ 1 2)")), "3");
    assert_eq!(read_eval_print(String::from("(")), "unbalanced");
    assert_eq!(
        read_eval_print(String::from("")),
        "unexpected end of input"
    );
    assert_eq!(read_eval_print(String::from("(foo)")), "symbol not bound");
    assert_eq!(read_eval_print(String::from("(1 2)")), "not a function");
    assert_eq!(
        read_eval_print(String::from("(+ 1 2 3)")),
        "wrong number of arguments"
    );
    assert_eq!(
        read_eval_print(String::from("(+ 1 :a)")),
        "wrong type of argument"
    );
    assert_eq!(read_eval_print(String::from("'x")), "symbol not bound");
    assert_eq!(read_eval_print(String::from("[1 (* 2 3)]")), "[1 6]");
}

#[test]
fn try_read_eval_print_reports_zero_divisor_with_no_answer() {
    assert_eq!(try_read_eval_print(String::from("(/ 1 0)")), None);
    assert_eq!(try_read_eval_print(String::from("(% 1 0)")), None);
    assert_eq!(
        try_read_eval_print(String::from("(/ 7 2)")),
        Some(String::from("3"))
    );
}

#[test]
fn division_wraps_on_min_by_minus_one() {
    let env = default_env();
    let ast = read(String::from("(/ -9223372036854775808 -1)")).unwrap();
    assert_eq!(eval(&ast, &env), Ok(integer(i64::MIN)));
    let ast = read(String::from("(% -9223372036854775808 -1)")).unwrap();
    assert_eq!(eval(&ast, &env), Ok(integer(0)));
}

#[test]
fn caret_is_a_lone_symbol_token() {
    assert_eq!(read(String::from("^")), Ok(sym("^")));
    let shown = to_display_string(&sym("^"));
    assert_eq!(read(shown), Ok(sym("^")));
}

#[test]
fn nested_structures_read_and_print() {
    let text = "(+ (a) [{:k 2}])";
    let ast = read(String::from(text)).unwrap();
    assert_eq!(to_display_string(&ast), text);
}

#[test]
fn duplicate_copies_deeply() {
    let a = read(String::from("{:a [1 \"s\"] :b (c)}")).unwrap();
    assert_eq!(a.duplicate(), a);
}
