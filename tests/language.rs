use logo::interpretator::{inter, Context, ExpResult};
use logo::parser::{parse_expr, parse_statement, Exp, Stat, OP};
use logo::robot::{Element, PathOp, Step};
use logo::table::Table;
use logo::unsee::Unsee;
use logo::value::{parse_number, LogoError, Value, SCALE};

fn toks(s: &str) -> Vec<String> {
    s.split_whitespace().map(|t| t.to_string()).collect()
}

fn num(v: &Value) -> i64 {
    match v {
        Value::Num(n) => *n,
        _ => panic!("not a number"),
    }
}

fn words(v: &Value) -> Vec<String> {
    match v {
        Value::List(l) => l.clone(),
        _ => panic!("not a list"),
    }
}

#[test]
fn pushback_returns_token_and_keeps_rest() {
    let mut s = Unsee::wrap(toks("a b c"));
    let t = s.next().unwrap();
    assert_eq!(t, "a");
    s.unsee(t);
    assert_eq!(s.next().unwrap(), "a");
    assert_eq!(s.next().unwrap(), "b");
    s.unsee("x".to_string());
    s.unsee("y".to_string());
    assert_eq!(s.next().unwrap(), "y");
    assert_eq!(s.next().unwrap(), "x");
    assert_eq!(s.next().unwrap(), "c");
    assert!(s.next().is_none());
    assert!(s.next().is_none());
}

#[test]
fn subtraction_folds_left() {
    let ctx = Context::new();
    let mut s = Unsee::wrap(toks("9 - 3 - 2"));
    let e = parse_expr(ctx.signatures(), &mut s).unwrap();
    match &e {
        Exp::Oper(OP::Sub, l, r) => {
            assert!(matches!(**l, Exp::Oper(OP::Sub, _, _)));
            assert!(matches!(**r, Exp::Const(Value::Num(n)) if n == 2 * SCALE));
        }
        _ => panic!("expected a subtraction"),
    }
    let mut ctx = Context::new();
    match ctx.eval(e).unwrap() {
        ExpResult::Outcome(v) => assert_eq!(num(&v), 4 * SCALE),
        _ => panic!("unexpected exit"),
    }
}

#[test]
fn operators_take_the_next_value_only() {
    // `2 * 3 - 1` folds as `(2 * 3) - 1`; `2 - 3 * 4` as `(2 - 3) * 4`.
    let mut ctx = Context::new();
    ctx.run(toks("make \"a 2 * 3 - 1 make \"b 2 - 3 * 4")).unwrap();
    assert_eq!(num(ctx.get_var("a").unwrap()), 5 * SCALE);
    assert_eq!(num(ctx.get_var("b").unwrap()), -4 * SCALE);
}

#[test]
fn parameter_binding_is_restored() {
    let mut ctx = Context::new();
    ctx.run(toks("make \"x 5 to f :x make \"y :x stop make \"y 0 end f 7"))
        .unwrap();
    assert_eq!(num(ctx.get_var("x").unwrap()), 5 * SCALE);
    assert_eq!(num(ctx.get_var("y").unwrap()), 7 * SCALE);
}

#[test]
fn absent_parameter_is_unbound_again() {
    let mut ctx = Context::new();
    ctx.run(toks("to g :z make \"w :z end g 3")).unwrap();
    assert!(ctx.get_var("z").is_none());
    assert_eq!(num(ctx.get_var("w").unwrap()), 3 * SCALE);
}

#[test]
fn procedure_call_through_call_restores() {
    let mut ctx = Context::new();
    ctx.run(toks("make \"x \"outer to f :x output :x end")).unwrap();
    match ctx.call("f".to_string(), vec![Value::Num(SCALE)]).unwrap() {
        ExpResult::Outcome(v) => assert_eq!(num(&v), SCALE),
        _ => panic!("a procedure call never exits its caller"),
    }
    assert!(matches!(ctx.get_var("x").unwrap(), Value::Str(s) if s == "outer"));
}

#[test]
fn repeat_stops_at_first_true_condition() {
    let mut ctx = Context::new();
    let r = ctx
        .run(toks(
            "make \"code [ stop ] repeat 5 [ make \"seen :repcount if ( 1 < :repcount ) :code ]",
        ))
        .unwrap();
    assert!(matches!(r, ExpResult::Exit(Value::Void)));
    assert_eq!(num(ctx.get_var("seen").unwrap()), 2 * SCALE);
    assert_eq!(num(ctx.get_var("repcount").unwrap()), 2 * SCALE);
}

#[test]
fn repeat_with_less_than_three_stops_at_once() {
    let mut ctx = Context::new();
    let r = ctx
        .run(toks(
            "make \"code [ stop ] repeat 5 [ make \"seen :repcount if ( :repcount < 3 ) :code ]",
        ))
        .unwrap();
    assert!(matches!(r, ExpResult::Exit(Value::Void)));
    assert_eq!(num(ctx.get_var("seen").unwrap()), 0);
}

#[test]
fn nested_list_literal_is_not_supported() {
    let mut ctx = Context::new();
    let r = ctx.run(toks("repeat 5 [ if ( :repcount < 3 ) [ stop ] ]"));
    assert_eq!(r.err(), Some(LogoError::ParseError));
}

#[test]
fn repeat_counts_from_zero() {
    let mut ctx = Context::new();
    ctx.run(toks("make \"n 0 repeat 4 [ make \"n :n - 1 ]")).unwrap();
    assert_eq!(num(ctx.get_var("n").unwrap()), -4 * SCALE);
    assert_eq!(num(ctx.get_var("repcount").unwrap()), 3 * SCALE);
}

#[test]
fn sentence_joins_in_order() {
    let mut ctx = Context::new();
    let a = Value::List(vec!["a".to_string(), "b".to_string()]);
    let b = Value::List(vec!["c".to_string(), "d".to_string()]);
    match ctx.call("sentence".to_string(), vec![a, b]).unwrap() {
        ExpResult::Outcome(v) => assert_eq!(words(&v), vec!["a", "b", "c", "d"]),
        _ => panic!("unexpected exit"),
    }
    ctx.run(toks("make \"s sentence [ a b ] [ a b ]")).unwrap();
    assert_eq!(words(ctx.get_var("s").unwrap()), vec!["a", "b", "a", "b"]);
}

#[test]
fn sentence_needs_lists() {
    let r = logo::interpretator::sentence(Value::Num(1), Value::List(vec![]));
    assert_eq!(r.err(), Some(LogoError::TypeError));
}

#[test]
fn color_change_splits_the_path() {
    let mut ctx = Context::new();
    ctx.run(toks("pendown forward 10 setpencolor \"red forward 10 penup"))
        .unwrap();
    let pic = ctx.plot();
    assert_eq!(pic.elements.len(), 2);
    match &pic.elements[0] {
        Element::Path { color, ops } => {
            assert_eq!(color, "black");
            assert_eq!(
                ops,
                &vec![
                    PathOp::MoveTo(0),
                    PathOp::LineBy { heading: -90 * SCALE, dist: 10 * SCALE }
                ]
            );
        }
        _ => panic!("expected a path"),
    }
    match &pic.elements[1] {
        Element::Path { color, ops } => {
            assert_eq!(color, "red");
            assert_eq!(ops.iter().filter(|o| matches!(o, PathOp::LineBy { .. })).count(), 1);
        }
        _ => panic!("expected a path"),
    }
    assert_eq!(pic.trail.len(), 2);
}

#[test]
fn unknown_command_is_a_name_error() {
    let mut ctx = Context::new();
    let r = ctx.call("nosuch".to_string(), vec![]);
    assert_eq!(r.err(), Some(LogoError::NameError));
}

#[test]
fn unknown_word_in_a_program_has_no_value() {
    let mut ctx = Context::new();
    assert_eq!(ctx.run(toks("nosuch")).err(), Some(LogoError::ParseError));
}

#[test]
fn wrong_argument_count_is_an_arity_error() {
    let mut ctx = Context::new();
    assert_eq!(ctx.call("fd".to_string(), vec![]).err(), Some(LogoError::ArityError));
    ctx.run(toks("to h :a :b end")).unwrap();
    assert_eq!(
        ctx.call("h".to_string(), vec![Value::Void]).err(),
        Some(LogoError::ArityError)
    );
}

#[test]
fn unbound_variable_is_a_name_error() {
    let mut ctx = Context::new();
    assert_eq!(ctx.eval(Exp::Var("q".to_string())).err(), Some(LogoError::NameError));
}

#[test]
fn value_left_over_is_an_error() {
    let mut ctx = Context::new();
    assert_eq!(ctx.run(toks("5")).err(), Some(LogoError::UnusedValue));
}

#[test]
fn type_errors() {
    let mut ctx = Context::new();
    assert_eq!(ctx.run(toks("fd [ a ]")).err(), Some(LogoError::TypeError));
    assert_eq!(ctx.run(toks("make \"v \"a - 1")).err(), Some(LogoError::TypeError));
}

#[test]
fn parse_errors() {
    let sig = Context::new();
    for src in ["( 1", "[ a b", "to f :x", "to", "- 1", "1 - *", ")"] {
        let mut s = Unsee::wrap(toks(src));
        let r = parse_statement(sig.signatures(), &mut s);
        assert_eq!(r.err(), Some(LogoError::ParseError), "{src}");
    }
}

#[test]
fn procedure_definition_parses() {
    let sig: Table<usize> = Table::new();
    let mut s = Unsee::wrap(toks("TO square :size :x fd :size END rest"));
    match parse_statement(&sig, &mut s).unwrap().unwrap() {
        Stat::ProcDef(p) => {
            assert_eq!(p.get_name(), "square");
            assert_eq!(p.get_argv(), &vec!["size".to_string(), "x".to_string()]);
            assert_eq!(p.get_body(), &toks("fd :size"));
            assert_eq!(p.signature(), 2);
        }
        _ => panic!("expected a definition"),
    }
    assert_eq!(s.next().unwrap(), "rest");
}

#[test]
fn call_parses_its_arity_of_arguments() {
    let ctx = Context::new();
    let mut s = Unsee::wrap(toks("repeat 3 [ fd 10 ] pr 1"));
    match parse_expr(ctx.signatures(), &mut s).unwrap() {
        Exp::Call(name, args) => {
            assert_eq!(name, "repeat");
            assert_eq!(args.len(), 2);
            assert!(matches!(&args[1], Exp::Const(Value::List(l)) if l.len() == 2));
        }
        _ => panic!("expected a call"),
    }
    assert_eq!(s.next().unwrap(), "pr");
}

#[test]
fn group_ends_before_next_group() {
    let ctx = Context::new();
    let mut s = Unsee::wrap(toks("( 1 ) ( 2 )"));
    assert!(matches!(parse_expr(ctx.signatures(), &mut s).unwrap(), Exp::Const(Value::Num(n)) if n == SCALE));
    assert_eq!(s.next().unwrap(), "(");
}

#[test]
fn atoms() {
    let ctx = Context::new();
    for (src, want) in [("#", "repcount"), ("repcount", "repcount"), (":abc", "abc")] {
        let mut s = Unsee::wrap(toks(src));
        assert!(matches!(parse_expr(ctx.signatures(), &mut s).unwrap(), Exp::Var(v) if v == want));
    }
    let mut s = Unsee::wrap(toks("\"word"));
    assert!(matches!(parse_expr(ctx.signatures(), &mut s).unwrap(), Exp::Const(Value::Str(w)) if w == "word"));
}

#[test]
fn numbers() {
    assert_eq!(parse_number("10"), Some(10 * SCALE));
    assert_eq!(parse_number("-2.5"), Some(-2_500_000));
    assert_eq!(parse_number("0.000001"), Some(1));
    assert_eq!(parse_number("007"), Some(7 * SCALE));
    assert_eq!(parse_number("9223372036854"), Some(9_223_372_036_854 * SCALE));
    assert_eq!(parse_number("9223372036855"), None);
    assert_eq!(parse_number("1.1234567"), None);
    assert_eq!(parse_number("5."), None);
    assert_eq!(parse_number(".5"), None);
    assert_eq!(parse_number("abc"), None);
    assert_eq!(parse_number(""), None);
    assert_eq!(parse_number("-"), None);
}

#[test]
fn number_text() {
    assert_eq!(Value::Num(10 * SCALE).text(), "10");
    assert_eq!(Value::Num(-2_500_000).text(), "-2.5");
    assert_eq!(Value::Num(1).text(), "0.000001");
    assert_eq!(Value::Num(0).text(), "0");
    assert_eq!(Value::Num(123_450_000).text(), "123.45");
    assert_eq!(Value::List(vec!["a".to_string(), "b".to_string()]).text(), "[ a b ]");
    assert_eq!(Value::List(vec![]).text(), "[  ]");
    assert_eq!(Value::Str("x".to_string()).text(), "x");
    assert_eq!(Value::Void.text(), "Void");
}

#[test]
fn arithmetic() {
    assert_eq!(num(&Value::Num(2_500_000).mul(Value::Num(4 * SCALE)).unwrap()), 10 * SCALE);
    assert_eq!(num(&Value::Num(SCALE).div(Value::Num(3 * SCALE)).unwrap()), 333_333);
    assert_eq!(num(&Value::Num(-SCALE).div(Value::Num(3 * SCALE)).unwrap()), -333_333);
    assert_eq!(num(&Value::Num(9 * SCALE).sub(Value::Num(3 * SCALE)).unwrap()), 6 * SCALE);
    assert_eq!(num(&Value::Num(1).less(Value::Num(2)).unwrap()), SCALE);
    assert_eq!(num(&Value::Num(2).less(Value::Num(2)).unwrap()), 0);
    assert_eq!(Value::Num(1).div(Value::Num(0)).err(), Some(LogoError::RangeError));
    assert_eq!(Value::Num(i64::MAX).sub(Value::Num(-1)).err(), Some(LogoError::RangeError));
    assert_eq!(Value::Num(i64::MAX).mul(Value::Num(2 * SCALE)).err(), Some(LogoError::RangeError));
    assert_eq!(Value::Void.sub(Value::Num(1)).err(), Some(LogoError::TypeError));
    assert_eq!(Value::Str("1".to_string()).less(Value::Num(2)).err(), Some(LogoError::TypeError));
}

#[test]
fn conversions() {
    assert_eq!(Value::Str("2.5".to_string()).to_number(), Ok(2_500_000));
    assert_eq!(Value::Str("x".to_string()).to_number(), Err(LogoError::TypeError));
    assert_eq!(Value::Num(0).to_bool(), Ok(false));
    assert_eq!(Value::Num(-3).to_bool(), Ok(true));
    assert_eq!(Value::Void.to_bool(), Err(LogoError::TypeError));
    assert_eq!(Value::Num(1).into_list().err(), Some(LogoError::TypeError));
}

#[test]
fn print_collects_lines() {
    let session = inter(toks("pr 10 print 404 pr [ a b ] wait 1 window ht st"));
    assert_eq!(
        session.printed,
        vec!["10", "404", "[ a b ]", "wait 1", "window", "Hide the turtle!", "Show the turtle!"]
    );
    assert!(session.picture.is_ok());
}

#[test]
fn output_returns_from_a_procedure() {
    let session = inter(toks("to double :n output :n * 2 end pr double 5 pr double double 1"));
    assert_eq!(session.printed, vec!["10", "4"]);
}

#[test]
fn error_ends_the_run_and_keeps_output() {
    let session = inter(toks("pr 1 pr :missing pr 2"));
    assert_eq!(session.printed, vec!["1"]);
    assert_eq!(session.picture.err(), Some(LogoError::NameError));
}

#[test]
fn empty_program_draws_nothing() {
    let session = inter(vec![]);
    assert!(session.printed.is_empty());
    assert!(session.picture.unwrap().elements.is_empty());
}

#[test]
fn random_stays_below_its_bound() {
    let mut ctx = Context::new();
    for _ in 0..50 {
        match ctx.call("random".to_string(), vec![Value::Num(5 * SCALE)]).unwrap() {
            ExpResult::Outcome(Value::Num(n)) => {
                assert!((0..5 * SCALE).contains(&n));
                assert_eq!(n % SCALE, 0);
            }
            _ => panic!("expected a number"),
        }
    }
    match ctx.call("random".to_string(), vec![Value::Num(SCALE)]).unwrap() {
        ExpResult::Outcome(v) => assert_eq!(num(&v), 0),
        _ => panic!("expected a number"),
    }
    assert_eq!(
        ctx.call("random".to_string(), vec![Value::Num(SCALE / 2)]).err(),
        Some(LogoError::RangeError)
    );
}

#[test]
fn pick_takes_a_word_of_the_list() {
    let mut ctx = Context::new();
    let l = vec!["a".to_string(), "b".to_string()];
    for _ in 0..20 {
        match ctx.call("pick".to_string(), vec![Value::List(l.clone())]).unwrap() {
            ExpResult::Outcome(Value::Str(w)) => assert!(w == "a" || w == "b"),
            _ => panic!("expected a word"),
        }
    }
    assert_eq!(
        ctx.call("pick".to_string(), vec![Value::List(vec![])]).err(),
        Some(LogoError::RangeError)
    );
    assert_eq!(ctx.call("pick".to_string(), vec![Value::Void]).err(), Some(LogoError::TypeError));
}

#[test]
fn if_and_run() {
    let session = inter(toks("if 1 [ pr \"yes ] if 0 [ pr \"no ] make \"c [ pr \"ran ] run :c"));
    assert_eq!(session.printed, vec!["yes", "ran"]);
}

#[test]
fn keywords_ignore_case() {
    let session = inter(toks("To f pr \"in eNd f"));
    assert_eq!(session.printed, vec!["in"]);
}

#[test]
fn turtle_moves_and_labels() {
    let mut ctx = Context::new();
    ctx.run(toks("rt 90 fd 5 lt 45 bk 2 setlabelheight 20 label \"hi home cs"))
        .unwrap();
    let pic = ctx.plot();
    assert!(pic.elements.is_empty());
    assert_eq!(
        pic.trail,
        vec![
            Step::Walk { heading: 0, dist: 5 * SCALE },
            Step::Walk { heading: -45 * SCALE, dist: -2 * SCALE },
            Step::Goto { x: 500 * SCALE, y: 500 * SCALE },
            Step::Goto { x: 500 * SCALE, y: 500 * SCALE },
        ]
    );
}

#[test]
fn label_is_kept_without_flushing() {
    let mut ctx = Context::new();
    ctx.run(toks("setcolor \"blue setlabelheight 20 label \"hi pu fd 3 pd"))
        .unwrap();
    let pic = ctx.plot();
    assert_eq!(pic.elements.len(), 1);
    match &pic.elements[0] {
        Element::Label { at, heading, size, color, text } => {
            assert_eq!((*at, *heading, *size), (0, -90 * SCALE, 20 * SCALE));
            assert_eq!((color.as_str(), text.as_str()), ("blue", "hi"));
        }
        _ => panic!("expected a label"),
    }
}

#[test]
fn clean_blanks_the_canvas() {
    let mut ctx = Context::new();
    ctx.run(toks("fd 10 pu clean pd fd 1")).unwrap();
    let pic = ctx.plot();
    assert_eq!(pic.elements.len(), 1);
    match &pic.elements[0] {
        Element::Path { ops, .. } => assert_eq!(ops[0], PathOp::MoveTo(1)),
        _ => panic!("expected a path"),
    }
    let again = ctx.plot();
    assert_eq!(again.elements.len(), 1);
}

#[test]
fn output_of_a_statement_exits_the_program() {
    let mut ctx = Context::new();
    let r = ctx.run(toks("pr 1 output 7 pr 2")).unwrap();
    assert!(matches!(r, ExpResult::Exit(Value::Num(n)) if n == 7 * SCALE));
    assert_eq!(ctx.printed(), &vec!["1".to_string()]);
}

#[test]
fn left_operand_exit_skips_the_right_one() {
    let mut ctx = Context::new();
    let r = ctx.run(toks("to f ( stop ) - pr 5 pr 9 end f pr 1")).unwrap();
    assert!(matches!(r, ExpResult::Outcome(Value::Void)));
    assert_eq!(ctx.printed(), &vec!["1".to_string()]);
}

#[test]
fn redefinition_replaces_the_procedure() {
    let session = inter(toks("to f pr 1 end to f pr 2 end f"));
    assert_eq!(session.printed, vec!["2"]);
}
