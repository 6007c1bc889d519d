use tikv::datum::{encode_value, Datum, Duration};
use tikv::error::Error;
use tikv::eval::{eval_arith, EvalContext, Evaluator, Expr, ExprType};
use tikv::keys::encode_i64;

fn leaf(tp: ExprType, val: Vec<u8>) -> Expr {
    Expr { tp, val, children: vec![], field_tp: 0, field_decimal: 0 }
}

fn datum_expr(d: Datum) -> Expr {
    match d {
        Datum::I64(i) => {
            let mut buf = Vec::new();
            encode_i64(&mut buf, i);
            leaf(ExprType::Int64, buf)
        }
        Datum::U64(u) => leaf(ExprType::Uint64, u.to_be_bytes().to_vec()),
        Datum::Bytes(b) => leaf(ExprType::Bytes, b),
        Datum::Null => leaf(ExprType::Null, vec![]),
        Datum::Dur(d) => {
            let mut buf = Vec::new();
            encode_i64(&mut buf, d.nanos);
            leaf(ExprType::MysqlDuration, buf)
        }
        Datum::Time(t) => Expr {
            tp: ExprType::MysqlTime,
            val: t.to_packed_u64().to_be_bytes().to_vec(),
            children: vec![],
            field_tp: t.tp,
            field_decimal: t.fsp as i32,
        },
    }
}

fn node(tp: ExprType, children: Vec<Expr>) -> Expr {
    Expr { tp, val: vec![], children, field_tp: 0, field_decimal: 0 }
}

fn build_expr(children: Vec<Datum>, tp: ExprType) -> Expr {
    node(tp, children.into_iter().map(datum_expr).collect())
}

fn in_expr(target: Datum, mut list: Vec<Datum>) -> Expr {
    let target_expr = datum_expr(target);
    list.sort_by(|l, r| l.cmp(&EvalContext::default(), r).unwrap().cmp(&0));
    let list_expr = leaf(ExprType::ValueList, encode_value(&list));
    node(ExprType::In, vec![target_expr, list_expr])
}

fn eval(expr: &Expr) -> Result<Datum, Error> {
    let mut e = Evaluator::new(vec![]);
    e.eval(&EvalContext::default(), expr)
}

fn same(a: &Datum, b: &Datum) -> bool {
    match (a, b) {
        (Datum::Null, Datum::Null) => true,
        _ => !a.is_null() && !b.is_null() && a.cmp(&EvalContext::default(), b) == Ok(0),
    }
}

#[test]
fn test_context() {
    let ctx = EvalContext::new(i32::MAX as i64 + 1, 0);
    assert!(ctx.is_err());
    EvalContext::new(3600, 0).unwrap();
}

#[test]
fn test_where_in() {
    let cases = vec![
        (in_expr(Datum::I64(1), vec![Datum::I64(1), Datum::I64(2)]), Datum::I64(1)),
        (in_expr(Datum::I64(1), vec![Datum::I64(2), Datum::Null]), Datum::Null),
        (in_expr(Datum::Null, vec![Datum::I64(1), Datum::Null]), Datum::Null),
        (in_expr(Datum::I64(2), vec![Datum::I64(1), Datum::Null]), Datum::Null),
        (in_expr(Datum::I64(2), vec![]), Datum::I64(0)),
        (
            in_expr(Datum::Bytes(b"abc".to_vec()), vec![Datum::Bytes(b"abc".to_vec()), Datum::Bytes(b"ab".to_vec())]),
            Datum::I64(1),
        ),
        (
            in_expr(Datum::Bytes(b"abc".to_vec()), vec![Datum::Bytes(b"aba".to_vec()), Datum::Bytes(b"bab".to_vec())]),
            Datum::I64(0),
        ),
    ];

    let mut eval = Evaluator::new(vec![]);
    for (expr, expect_res) in cases {
        let res = eval.eval(&Default::default(), &expr);
        if res.is_err() {
            panic!("failed to execute {:?}", res);
        }
        let res = res.unwrap();
        if !same(&res, &expect_res) {
            panic!("wrong result {:?}, expect {:?}", res, expect_res);
        }
    }
}

#[test]
fn context_offsets_and_flags() {
    assert!(EvalContext::new(86400, 0).is_err());
    assert!(EvalContext::new(-86400, 0).is_err());
    let c = EvalContext::new(86399, 3).unwrap();
    assert_eq!(c.tz, 86399);
    assert!(c.ignore_truncate && c.truncate_as_warning);
    let c = EvalContext::new(-86399, 2).unwrap();
    assert_eq!(c.tz, -86399);
    assert!(!c.ignore_truncate && c.truncate_as_warning);
    assert_eq!(EvalContext::new(100000, 0), Err(Error::Eval));
}

#[test]
fn comparisons_under_three_valued_logic() {
    let r = eval(&build_expr(vec![Datum::I64(100), Datum::Null], ExprType::GE)).unwrap();
    assert!(r.is_null());
    let r = eval(&build_expr(vec![Datum::I64(100), Datum::I64(100)], ExprType::EQ)).unwrap();
    assert!(same(&r, &Datum::I64(1)));
    let r = eval(&build_expr(vec![Datum::Null, Datum::Null], ExprType::NullEQ)).unwrap();
    assert!(same(&r, &Datum::I64(1)));
    let r = eval(&build_expr(vec![Datum::I64(1), Datum::Null], ExprType::NullEQ)).unwrap();
    assert!(same(&r, &Datum::I64(0)));
    let r = eval(&build_expr(vec![Datum::I64(-1), Datum::U64(3)], ExprType::LT)).unwrap();
    assert!(same(&r, &Datum::I64(1)));
    let r = eval(&build_expr(vec![Datum::Bytes(b"b".to_vec()), Datum::Bytes(b"a".to_vec())], ExprType::GT)).unwrap();
    assert!(same(&r, &Datum::I64(1)));
    assert_eq!(eval(&build_expr(vec![Datum::I64(1)], ExprType::LT)).unwrap_err(), Error::Expr);
    assert_eq!(
        eval(&build_expr(vec![Datum::I64(1), Datum::Bytes(b"1".to_vec())], ExprType::EQ)).unwrap_err(),
        Error::Eval
    );
    // a string against a time is read as a datetime in the context's zone
    let t = tikv::time::Time::parse_datetime("2011-10-10 11:11:11", 6, 3600).unwrap();
    let ctx = EvalContext::new(3600, 0).unwrap();
    let mut ev = Evaluator::new(vec![]);
    let e = build_expr(vec![Datum::Time(t), Datum::Bytes(b"2011-10-10 11:11:11".to_vec())], ExprType::EQ);
    assert!(same(&ev.eval(&ctx, &e).unwrap(), &Datum::I64(1)));
    let e = build_expr(vec![Datum::Bytes(b"2011-10-10 11:11:12".to_vec()), Datum::Time(t)], ExprType::GT);
    assert!(same(&ev.eval(&ctx, &e).unwrap(), &Datum::I64(1)));
    let e = build_expr(vec![Datum::Time(t), Datum::Bytes(b"not a time".to_vec())], ExprType::EQ);
    assert_eq!(ev.eval(&ctx, &e).unwrap_err(), Error::InvalidTime);
    // a duration against a time goes by the time of day
    let d = Duration::from_nanos(((11 * 3600 + 11 * 60 + 11) as i64) * 1_000_000_000, 0).unwrap();
    let e = build_expr(vec![Datum::Dur(d), Datum::Time(t)], ExprType::EQ);
    assert!(same(&ev.eval(&ctx, &e).unwrap(), &Datum::I64(1)));
}

#[test]
fn and_or_short_circuit() {
    let r = eval(&build_expr(vec![Datum::I64(0), Datum::Null], ExprType::And)).unwrap();
    assert!(same(&r, &Datum::I64(0)));
    let r = eval(&build_expr(vec![Datum::Null, Datum::I64(0)], ExprType::And)).unwrap();
    assert!(same(&r, &Datum::I64(0)));
    let r = eval(&build_expr(vec![Datum::Null, Datum::I64(1)], ExprType::And)).unwrap();
    assert!(r.is_null());
    let r = eval(&build_expr(vec![Datum::I64(1), Datum::I64(2)], ExprType::And)).unwrap();
    assert!(same(&r, &Datum::I64(1)));
    let r = eval(&build_expr(vec![Datum::Null, Datum::I64(1)], ExprType::Or)).unwrap();
    assert!(same(&r, &Datum::I64(1)));
    let r = eval(&build_expr(vec![Datum::I64(0), Datum::I64(0)], ExprType::Or)).unwrap();
    assert!(same(&r, &Datum::I64(0)));
    let r = eval(&build_expr(vec![Datum::Null, Datum::I64(0)], ExprType::Or)).unwrap();
    assert!(r.is_null());
    // the right side is not evaluated once the left decides
    let bad = node(ExprType::LT, vec![]);
    let r = eval(&node(ExprType::And, vec![datum_expr(Datum::I64(0)), bad])).unwrap();
    assert!(same(&r, &Datum::I64(0)));
}

#[test]
fn double_negation_is_boolean_reading() {
    for (d, expect) in [
        (Datum::I64(5), Datum::I64(1)),
        (Datum::I64(0), Datum::I64(0)),
        (Datum::U64(7), Datum::I64(1)),
        (Datum::Null, Datum::Null),
    ] {
        let e = node(ExprType::Not, vec![node(ExprType::Not, vec![datum_expr(d)])]);
        assert!(same(&eval(&e).unwrap(), &expect));
    }
    let e = node(ExprType::Not, vec![node(ExprType::Not, vec![datum_expr(Datum::Bytes(b"x".to_vec()))])]);
    assert_eq!(eval(&e).unwrap_err(), Error::Eval);
}

#[test]
fn in_list_results() {
    let r = eval(&in_expr(Datum::I64(2), vec![Datum::I64(1), Datum::Null])).unwrap();
    assert!(r.is_null());
    let r = eval(&in_expr(Datum::I64(1), vec![Datum::I64(1), Datum::I64(2)])).unwrap();
    assert!(same(&r, &Datum::I64(1)));
    let r = eval(&in_expr(Datum::I64(2), vec![])).unwrap();
    assert!(same(&r, &Datum::I64(0)));
    let bad = node(ExprType::In, vec![datum_expr(Datum::I64(1)), datum_expr(Datum::I64(1))]);
    assert_eq!(eval(&bad).unwrap_err(), Error::Expr);
    let broken = node(ExprType::In, vec![datum_expr(Datum::I64(1)), leaf(ExprType::ValueList, vec![8])]);
    assert_eq!(eval(&broken).unwrap_err(), Error::Decode);
}

#[test]
fn like_patterns() {
    let cases = [
        ("abcdef", "%cd%", 1),
        ("abcdef", "%ef", 1),
        ("abcdef", "ab%", 1),
        ("abcdef", "abcdef", 1),
        ("ABCDEF", "%cd%", 1),
        ("abcdef", "%xy%", 0),
        ("abcdef", "cd%", 0),
        ("abcdef", "%", 1),
        ("", "%%", 1),
        ("abc", "ab", 0),
    ];
    for (t, p, expect) in cases {
        let r = eval(&build_expr(vec![Datum::Bytes(t.as_bytes().to_vec()), Datum::Bytes(p.as_bytes().to_vec())], ExprType::Like)).unwrap();
        assert!(same(&r, &Datum::I64(expect)), "{} {}", t, p);
    }
    let r = eval(&build_expr(vec![Datum::Null, Datum::Bytes(b"%".to_vec())], ExprType::Like)).unwrap();
    assert!(r.is_null());
    let r = eval(&build_expr(vec![Datum::Bytes(b"aAb".to_vec()), Datum::Bytes(b"AaB".to_vec())], ExprType::Like)).unwrap();
    assert!(same(&r, &Datum::I64(1)));
    let r = eval(&build_expr(vec![Datum::Bytes(b"aAeD".to_vec()), Datum::Bytes(b"%e".to_vec())], ExprType::Like)).unwrap();
    assert!(same(&r, &Datum::I64(0)));
    // other operands match by their string form
    let r = eval(&build_expr(vec![Datum::I64(-12345), Datum::Bytes(b"%234%".to_vec())], ExprType::Like)).unwrap();
    assert!(same(&r, &Datum::I64(1)));
    let r = eval(&build_expr(vec![Datum::U64(987), Datum::Bytes(b"98%".to_vec())], ExprType::Like)).unwrap();
    assert!(same(&r, &Datum::I64(1)));
    let r = eval(&build_expr(vec![Datum::Bytes(b"-5".to_vec()), Datum::I64(-5)], ExprType::Like)).unwrap();
    assert!(same(&r, &Datum::I64(1)));
    let t = tikv::time::Time::parse_utc_datetime("2012-12-31 11:30:45", 0).unwrap();
    let r = eval(&build_expr(vec![Datum::Time(t), Datum::Bytes(b"2012-12%".to_vec())], ExprType::Like)).unwrap();
    assert!(same(&r, &Datum::I64(1)));
    let d = Duration::from_nanos(3_600_000_000_000, 0).unwrap();
    let r = eval(&build_expr(vec![Datum::Dur(d), Datum::Bytes(b"01:00:00.000000".to_vec())], ExprType::Like)).unwrap();
    assert!(same(&r, &Datum::I64(1)));
}

#[test]
fn arithmetic_rules() {
    let ctx = EvalContext::default();
    assert!(same(&eval_arith(&ctx, Datum::I64(2), Datum::I64(3), ExprType::Plus).unwrap(), &Datum::I64(5)));
    assert!(same(&eval_arith(&ctx, Datum::I64(2), Datum::I64(3), ExprType::Minus).unwrap(), &Datum::I64(-1)));
    assert!(same(&eval_arith(&ctx, Datum::I64(-4), Datum::I64(3), ExprType::Mul).unwrap(), &Datum::I64(-12)));
    assert!(same(&eval_arith(&ctx, Datum::I64(-7), Datum::I64(2), ExprType::IntDiv).unwrap(), &Datum::I64(-3)));
    assert!(same(&eval_arith(&ctx, Datum::I64(-7), Datum::I64(2), ExprType::Mod).unwrap(), &Datum::I64(-1)));
    assert!(same(&eval_arith(&ctx, Datum::I64(7), Datum::I64(-2), ExprType::Mod).unwrap(), &Datum::I64(1)));
    assert!(eval_arith(&ctx, Datum::I64(7), Datum::I64(0), ExprType::IntDiv).unwrap().is_null());
    assert!(eval_arith(&ctx, Datum::I64(7), Datum::I64(0), ExprType::Mod).unwrap().is_null());
    assert!(eval_arith(&ctx, Datum::Null, Datum::I64(1), ExprType::Plus).unwrap().is_null());
    assert_eq!(eval_arith(&ctx, Datum::I64(i64::MAX), Datum::I64(1), ExprType::Plus).unwrap_err(), Error::Overflow);
    assert_eq!(eval_arith(&ctx, Datum::I64(i64::MIN), Datum::I64(-1), ExprType::IntDiv).unwrap_err(), Error::Overflow);
    // a negative signed operand with an unsigned one widens to a decimal
    assert_eq!(eval_arith(&ctx, Datum::U64(u64::MAX), Datum::I64(-1), ExprType::Plus).unwrap_err(), Error::Eval);
    assert_eq!(eval_arith(&ctx, Datum::U64(1), Datum::I64(-2), ExprType::Plus).unwrap_err(), Error::Eval);
    // unsigned arithmetic wraps
    assert!(same(&eval_arith(&ctx, Datum::U64(u64::MAX), Datum::U64(2), ExprType::Mul).unwrap(), &Datum::U64(u64::MAX - 1)));
    assert!(same(&eval_arith(&ctx, Datum::U64(1), Datum::U64(2), ExprType::Minus).unwrap(), &Datum::U64(u64::MAX)));
    assert!(same(&eval_arith(&ctx, Datum::U64(u64::MAX), Datum::I64(1), ExprType::Plus).unwrap(), &Datum::U64(0)));
    // the remainder keeps the sign of the dividend
    assert!(same(&eval_arith(&ctx, Datum::I64(-1), Datum::U64(2), ExprType::Mod).unwrap(), &Datum::I64(-1)));
    assert!(same(&eval_arith(&ctx, Datum::I64(i64::MIN), Datum::U64(i64::MAX as u64), ExprType::Mod).unwrap(), &Datum::I64(-1)));
    assert!(same(&eval_arith(&ctx, Datum::U64(i64::MAX as u64), Datum::I64(i64::MIN), ExprType::Mod).unwrap(), &Datum::U64(i64::MAX as u64)));
    // division by zero is null; any other exact division needs a decimal
    assert!(eval_arith(&ctx, Datum::I64(1), Datum::I64(0), ExprType::Div).unwrap().is_null());
    assert!(eval_arith(&ctx, Datum::I64(1), Datum::U64(0), ExprType::IntDiv).unwrap().is_null());
    assert!(eval_arith(&ctx, Datum::I64(1), Datum::U64(0), ExprType::Mod).unwrap().is_null());
    assert_eq!(eval_arith(&ctx, Datum::I64(1), Datum::I64(2), ExprType::Div).unwrap_err(), Error::Eval);
    let r = eval(&build_expr(vec![Datum::I64(1), Datum::I64(0)], ExprType::Div)).unwrap();
    assert!(r.is_null());
    assert_eq!(eval_arith(&ctx, Datum::Bytes(b"1".to_vec()), Datum::I64(1), ExprType::Plus).unwrap_err(), Error::Eval);
    let d = Duration::from_nanos(5, 0).unwrap();
    assert_eq!(eval_arith(&ctx, Datum::Dur(d), Datum::I64(1), ExprType::Plus).unwrap_err(), Error::Eval);
}

#[test]
fn control_flow() {
    // CASE WHEN 0 THEN 1 WHEN 1 THEN 2 ELSE 3
    let e = build_expr(vec![Datum::I64(0), Datum::I64(1), Datum::I64(1), Datum::I64(2), Datum::I64(3)], ExprType::Case);
    assert!(same(&eval(&e).unwrap(), &Datum::I64(2)));
    let e = build_expr(vec![Datum::I64(0), Datum::I64(1), Datum::Null, Datum::I64(2), Datum::I64(3)], ExprType::Case);
    assert!(same(&eval(&e).unwrap(), &Datum::I64(3)));
    let e = build_expr(vec![Datum::I64(0), Datum::I64(1)], ExprType::Case);
    assert!(eval(&e).unwrap().is_null());
    let e = build_expr(vec![Datum::I64(1), Datum::I64(10), Datum::I64(20)], ExprType::If);
    assert!(same(&eval(&e).unwrap(), &Datum::I64(10)));
    let e = build_expr(vec![Datum::Null, Datum::I64(10), Datum::I64(20)], ExprType::If);
    assert!(same(&eval(&e).unwrap(), &Datum::I64(20)));
    let e = build_expr(vec![Datum::Null, Datum::Null, Datum::I64(3), Datum::I64(4)], ExprType::Coalesce);
    assert!(same(&eval(&e).unwrap(), &Datum::I64(3)));
    let e = build_expr(vec![Datum::Null, Datum::Null], ExprType::Coalesce);
    assert!(eval(&e).unwrap().is_null());
    let e = build_expr(vec![Datum::Null, Datum::I64(9)], ExprType::IfNull);
    assert!(same(&eval(&e).unwrap(), &Datum::I64(9)));
    let e = build_expr(vec![Datum::I64(8), Datum::I64(9)], ExprType::IfNull);
    assert!(same(&eval(&e).unwrap(), &Datum::I64(8)));
    let e = build_expr(vec![Datum::Null], ExprType::IsNull);
    assert!(same(&eval(&e).unwrap(), &Datum::I64(1)));
    let e = build_expr(vec![Datum::I64(1), Datum::I64(1)], ExprType::NullIf);
    assert!(eval(&e).unwrap().is_null());
    let e = build_expr(vec![Datum::I64(1), Datum::I64(2)], ExprType::NullIf);
    assert!(same(&eval(&e).unwrap(), &Datum::I64(1)));
    let e = build_expr(vec![Datum::Null, Datum::I64(2)], ExprType::NullIf);
    assert!(eval(&e).unwrap().is_null());
}

#[test]
fn column_refs_and_literals() {
    let mut ev = Evaluator::new(vec![(1, Datum::I64(42)), (2, Datum::Bytes(b"x".to_vec()))]);
    let ctx = EvalContext::default();
    let mut id = Vec::new();
    encode_i64(&mut id, 2);
    let r = ev.eval(&ctx, &leaf(ExprType::ColumnRef, id)).unwrap();
    assert!(same(&r, &Datum::Bytes(b"x".to_vec())));
    let mut missing = Vec::new();
    encode_i64(&mut missing, 5);
    assert_eq!(ev.eval(&ctx, &leaf(ExprType::ColumnRef, missing)).unwrap_err(), Error::Eval);
    assert_eq!(ev.eval(&ctx, &leaf(ExprType::Int64, vec![1, 2])).unwrap_err(), Error::Decode);
    let r = ev.eval(&ctx, &leaf(ExprType::Uint64, 300u64.to_be_bytes().to_vec())).unwrap();
    assert!(same(&r, &Datum::U64(300)));
    let all = ev.batch_eval(&ctx, &[datum_expr(Datum::I64(3)), leaf(ExprType::Null, vec![])]).unwrap();
    assert_eq!(all.len(), 2);
    assert!(same(&all[0], &Datum::I64(3)) && all[1].is_null());
    assert_eq!(ev.eval(&ctx, &leaf(ExprType::Float64, vec![0; 8])).unwrap_err(), Error::Eval);
    assert_eq!(ev.eval(&ctx, &leaf(ExprType::ScalarFunc, vec![])).unwrap_err(), Error::Expr);
    let one = node(ExprType::Not, vec![datum_expr(Datum::I64(0))]);
    assert!(ev.get_one_child(&one).is_ok());
    assert_eq!(ev.get_one_child(&leaf(ExprType::Not, vec![])).unwrap_err(), Error::Expr);
}

#[test]
fn time_literals_use_context_zone() {
    let t = tikv::time::Time::parse_datetime("2012-12-31 11:30:45", 0, 3600).unwrap();
    let ctx = EvalContext::new(3600, 0).unwrap();
    let mut ev = Evaluator::new(vec![]);
    let r = ev.eval(&ctx, &datum_expr(Datum::Time(t))).unwrap();
    match r {
        Datum::Time(back) => assert!(back.eq(&t)),
        other => panic!("{:?}", other),
    }
}

#[test]
fn json_operators_arity_and_nulls() {
    let r = eval(&build_expr(vec![Datum::Null, Datum::Null, Datum::Null], ExprType::JsonSet)).unwrap();
    assert!(r.is_null());
    let r = eval(&build_expr(vec![Datum::I64(9), Datum::Null, Datum::I64(3)], ExprType::JsonInsert)).unwrap();
    assert!(r.is_null());
    // a null value (not a path) does not make the result null
    let e = build_expr(vec![Datum::I64(9), Datum::Bytes(b"$[1]".to_vec()), Datum::Null], ExprType::JsonReplace);
    assert_eq!(eval(&e).unwrap_err(), Error::Eval);
    let e = build_expr(vec![Datum::I64(9), Datum::Bytes(b"$[1]".to_vec())], ExprType::JsonSet);
    assert_eq!(eval(&e).unwrap_err(), Error::Expr);
    assert_eq!(eval(&build_expr(vec![Datum::I64(9)], ExprType::JsonRemove)).unwrap_err(), Error::Expr);
    let r = eval(&build_expr(vec![Datum::I64(9), Datum::Null], ExprType::JsonExtract)).unwrap();
    assert!(r.is_null());
    let r = eval(&build_expr(vec![Datum::Null], ExprType::JsonUnquote)).unwrap();
    assert!(r.is_null());
    assert_eq!(eval(&build_expr(vec![], ExprType::JsonType)).unwrap_err(), Error::Expr);
}
