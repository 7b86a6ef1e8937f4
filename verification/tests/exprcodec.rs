use adabt_engine::error::Error;
use adabt_engine::expr::{ArithOp, CmpOp, Expr};
use adabt_engine::exprcodec::{
    decode_expr, decode_expr_hex, encode_expr, encode_expr_hex, AND, FIELD, MAX_DEPTH, NOT,
};
use adabt_engine::value::Value;

fn eq(name: &str, value: Value) -> Expr {
    Expr::compare(name, CmpOp::Eq, value)
}

fn arith(op: ArithOp, n: i64) -> Expr {
    Expr::Arith {
        op,
        lhs: Box::new(Expr::field("a")),
        rhs: Box::new(Expr::lit(Value::I64(n))),
    }
}

fn round_trip(e: Expr) {
    let bytes = encode_expr(&e).expect("encode");
    assert_eq!(decode_expr(&bytes).expect("decode"), e);
    let hex = encode_expr_hex(&e).expect("hex");
    assert_eq!(decode_expr_hex(&hex).expect("unhex"), e);
}

#[test]
fn every_variant_round_trips() {
    round_trip(eq("status", Value::text("pending")));
    round_trip(Expr::Field("a".into()));
    round_trip(Expr::Literal(Value::Null));
    round_trip(Expr::IsNull(Box::new(Expr::field("deleted_at"))));
    round_trip(Expr::IsNotNull(Box::new(Expr::field("deleted_at"))));
    round_trip(Expr::Not(Box::new(eq("a", Value::I64(1)))));
    round_trip(Expr::And(vec![
        eq("a", Value::I64(1)),
        eq("b", Value::text("two")),
        Expr::Or(vec![eq("c", Value::I64(3)), eq("d", Value::I64(4))]),
    ]));
    round_trip(Expr::In {
        needle: Box::new(Expr::field("country")),
        list: vec![Expr::lit(Value::text("NO")), Expr::lit(Value::text("SE"))],
    });
    round_trip(Expr::Like {
        text: Box::new(Expr::field("name")),
        pattern: "a%_\\%".into(),
    });
    round_trip(arith(ArithOp::Add, 1));
    round_trip(arith(ArithOp::Sub, 1));
    round_trip(arith(ArithOp::Mul, 2));
    round_trip(arith(ArithOp::Div, 2));
    for op in [CmpOp::Eq, CmpOp::Ne, CmpOp::Lt, CmpOp::Le, CmpOp::Gt, CmpOp::Ge] {
        round_trip(Expr::compare("x", op, Value::I64(1)));
    }
}

/// The decoder sees bytes that may not have come from the encoder, so
/// every one of these must be an error rather than a panic or a plausible
/// expression.
#[test]
fn malformed_input_is_refused_not_guessed() {
    assert!(decode_expr(&[]).is_err(), "empty");
    assert!(decode_expr(&[200]).is_err(), "unknown tag");
    assert!(decode_expr(&[FIELD]).is_err(), "truncated in a name");
    assert!(decode_expr(&[NOT]).is_err(), "missing operand");
    assert!(decode_expr_hex("abc").is_err(), "odd hex length");
    assert!(decode_expr_hex("zz").is_err(), "non-hex digit");

    // Trailing bytes: a valid expression followed by junk is not a valid
    // encoding, and accepting it would let two different byte strings mean
    // the same index.
    let mut bytes = encode_expr(&eq("a", Value::I64(1))).unwrap();
    bytes.push(0);
    assert!(decode_expr(&bytes).is_err(), "trailing bytes");
}

/// A hostile length prefix must not make the decoder allocate for it.
#[test]
fn a_huge_declared_operand_count_is_rejected_cheaply() {
    let mut bytes = vec![AND];
    let mut n = u32::MAX as u64;
    while n >= 128 {
        bytes.push((n % 128) as u8 + 128);
        n /= 128;
    }
    bytes.push(n as u8);
    assert!(decode_expr(&bytes).is_err());
}

/// Deep nesting is refused on the way in and on the way out. The decoder's
/// bound is the one that protects the process.
#[test]
fn nesting_past_the_limit_is_refused_at_both_ends() {
    let mut e = eq("a", Value::I64(1));
    for _ in 0..MAX_DEPTH + 5 {
        e = Expr::Not(Box::new(e));
    }
    assert!(encode_expr(&e).is_err(), "encoder must refuse");

    // Hand-built, so the decoder is tested on bytes the encoder would not
    // have produced.
    let mut bytes = vec![NOT; (MAX_DEPTH + 5) as usize];
    bytes.extend(encode_expr(&eq("a", Value::I64(1))).unwrap());
    assert!(decode_expr(&bytes).is_err(), "decoder must refuse");
}

#[test]
fn what_is_refused_is_said() {
    assert_eq!(
        decode_expr(&[200]),
        Err(Error::Corruption("unknown expression tag 200".into()))
    );
    assert_eq!(
        decode_expr(&[FIELD]),
        Err(Error::Corruption("condition truncated in a length".into()))
    );
    assert_eq!(
        decode_expr(&[FIELD, 2, b'a']),
        Err(Error::Corruption("condition truncated in a name".into()))
    );
    assert_eq!(
        decode_expr(&[FIELD, 1, 0xff]),
        Err(Error::Corruption(
            "invalid utf-8 in condition: invalid utf-8 sequence of 1 bytes from index 0".into()
        ))
    );
    assert_eq!(decode_expr(&[FIELD, 1, b'a']), Ok(Expr::field("a")));
    assert_eq!(
        decode_expr(&[NOT]),
        Err(Error::Corruption("condition truncated".into()))
    );
    assert_eq!(
        decode_expr_hex("abc"),
        Err(Error::Corruption("condition hex has an odd number of digits".into()))
    );
    assert_eq!(
        decode_expr_hex("zz"),
        Err(Error::Corruption("condition hex has a non-hex digit".into()))
    );
    assert_eq!(
        decode_expr(&[FIELD, 1, b'a', 0, 0]),
        Err(Error::Corruption("condition has 2 trailing bytes".into()))
    );
    assert_eq!(encode_expr_hex(&Expr::field("a")), Ok("020161".to_string()));
}

/// What is wrong with a name that is no text is said as the standard library says it.
#[test]
fn a_name_that_is_no_text_is_told_of_as_it_is() {
    let bad: [&[u8]; 6] =
        [b"ab\xff", b"\xc3", b"a\xe2\x82", b"\xf0\x9f\x98", b"\xe2\x28\xa1", b"\xed\xa0\x80z"];
    for name in bad {
        let mut bytes = vec![FIELD, name.len() as u8];
        bytes.extend_from_slice(name);
        let why = std::str::from_utf8(name).unwrap_err();
        assert_eq!(
            decode_expr(&bytes),
            Err(Error::Corruption(format!("invalid utf-8 in condition: {why}")))
        );
    }
}
