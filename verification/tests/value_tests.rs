use database::storage::error::DatabaseError;
use database::storage::value::Value;

#[test]
fn value_tests_test_value_operations() {
    let a = Value::Integer(42);
    let b = Value::Float(3.14f64.to_bits());

    assert_eq!(a.add(&b).unwrap(), Value::Float(45.14f64.to_bits()));
    assert_eq!(a.mul(&Value::Integer(2)).unwrap(), Value::Integer(84));
}

#[test]
fn tests_test_value_operations() {
    let a = Value::Integer(42);
    let b = Value::Float(3.14f64.to_bits());
    assert_eq!(a.add(&b).unwrap(), Value::Float(45.14f64.to_bits()));
}

fn float(x: f64) -> Value {
    Value::Float(x.to_bits())
}

#[test]
fn value_layout_is_byte_exact() {
    assert_eq!(Value::Null.serialize(), vec![0x00]);
    assert_eq!(Value::Integer(1).serialize(), vec![0x01, 1, 0, 0, 0, 0, 0, 0, 0]);
    assert_eq!(
        Value::Integer(-2).serialize(),
        vec![0x01, 0xfe, 0xff, 0xff, 0xff, 0xff, 0xff, 0xff, 0xff]
    );
    assert_eq!(
        Value::Integer(i64::MIN).serialize(),
        vec![0x01, 0, 0, 0, 0, 0, 0, 0, 0x80]
    );
    let mut expected = vec![0x02];
    expected.extend_from_slice(&1.5f64.to_le_bytes());
    assert_eq!(float(1.5).serialize(), expected);
    assert_eq!(
        Value::String("hé".to_string()).serialize(),
        vec![0x03, 3, 0, 0, 0, b'h', 0xc3, 0xa9]
    );
    assert_eq!(Value::Boolean(false).serialize(), vec![0x04, 0x00]);
    assert_eq!(Value::Boolean(true).serialize(), vec![0x04, 0x01]);
}

#[test]
fn value_round_trip() {
    let values = vec![
        Value::Null,
        Value::Integer(0),
        Value::Integer(i64::MAX),
        Value::Integer(i64::MIN),
        Value::Integer(-1),
        float(0.0),
        float(-3.25),
        float(f64::INFINITY),
        Value::String(String::new()),
        Value::String("Hello, wörld! ✓".to_string()),
        Value::Boolean(true),
        Value::Boolean(false),
    ];
    for v in values {
        let mut bytes = v.serialize();
        let n = bytes.len();
        assert_eq!(Value::deserialize(&bytes).unwrap(), (v.clone(), n));
        // Bytes behind the value are not looked at.
        bytes.extend_from_slice(&[0xff, 0xff]);
        assert_eq!(Value::deserialize(&bytes).unwrap(), (v, n));
    }
}

#[test]
fn value_deserialize_rejects() {
    let bad: Vec<Vec<u8>> = vec![
        vec![],
        vec![5],
        vec![0xff],
        vec![1, 0, 0, 0],
        vec![2, 0, 0, 0, 0, 0, 0, 0],
        vec![3, 1, 0, 0],
        vec![3, 2, 0, 0, 0, b'a'],
        vec![3, 1, 0, 0, 0, 0xff],
        vec![4],
    ];
    for bytes in bad {
        assert!(matches!(Value::deserialize(&bytes), Err(DatabaseError::InvalidData(_))));
    }
    // Any byte but zero reads as true.
    assert_eq!(Value::deserialize(&[4, 2]).unwrap(), (Value::Boolean(true), 2));
}

#[test]
fn value_arithmetic() {
    let i = |x: i64| Value::Integer(x);
    assert_eq!(i(2).add(&i(3)).unwrap(), i(5));
    assert_eq!(i(2).sub(&i(3)).unwrap(), i(-1));
    assert_eq!(i(-6).mul(&i(7)).unwrap(), i(-42));
    assert_eq!(i(7).div(&i(2)).unwrap(), i(3));
    assert_eq!(i(-7).div(&i(2)).unwrap(), i(-3));
    assert_eq!(i(7).div(&i(-2)).unwrap(), i(-3));
    assert_eq!(i(-7).div(&i(-2)).unwrap(), i(3));
    assert!(matches!(i(1).div(&i(0)), Err(DatabaseError::InvalidOperation(_))));
    assert!(matches!(i(i64::MAX).add(&i(1)), Err(DatabaseError::InvalidOperation(_))));
    assert!(matches!(i(i64::MIN).sub(&i(1)), Err(DatabaseError::InvalidOperation(_))));
    assert!(matches!(i(i64::MAX).mul(&i(2)), Err(DatabaseError::InvalidOperation(_))));
    assert!(matches!(i(i64::MIN).div(&i(-1)), Err(DatabaseError::InvalidOperation(_))));

    assert_eq!(float(1.5).add(&float(2.25)).unwrap(), float(3.75));
    assert_eq!(float(1.5).sub(&i(2)).unwrap(), float(-0.5));
    assert_eq!(i(3).mul(&float(0.5)).unwrap(), float(1.5));
    assert_eq!(float(1.0).div(&float(4.0)).unwrap(), float(0.25));
    assert_eq!(i(1).div(&float(3.0)).unwrap(), float(1.0 / 3.0));
    assert_eq!(float(0.1).add(&float(0.2)).unwrap(), float(0.1 + 0.2));
    assert_eq!(i(i64::MAX).add(&float(0.0)).unwrap(), float(i64::MAX as f64));
    assert_eq!(float(1.0).div(&float(0.0)).unwrap(), float(f64::INFINITY));

    let s = |x: &str| Value::String(x.to_string());
    assert_eq!(s("ab").add(&s("cd")).unwrap(), s("abcd"));
    assert!(matches!(s("ab").sub(&s("cd")), Err(DatabaseError::InvalidOperation(_))));
    assert_eq!(
        Value::Boolean(true).add(&Value::Boolean(false)).unwrap(),
        Value::Boolean(false)
    );
    assert_eq!(
        Value::Boolean(true).sub(&Value::Boolean(false)).unwrap(),
        Value::Boolean(true)
    );
    assert!(matches!(
        Value::Boolean(true).mul(&Value::Boolean(true)),
        Err(DatabaseError::InvalidOperation(_))
    ));
    assert!(matches!(i(1).add(&s("1")), Err(DatabaseError::InvalidOperation(_))));
    assert!(matches!(Value::Null.add(&Value::Null), Err(DatabaseError::InvalidOperation(_))));
}

#[test]
fn value_equality() {
    let t = Value::Boolean(true);
    let f = Value::Boolean(false);
    assert_eq!(Value::Integer(1).eq(&Value::Integer(1)).unwrap(), t);
    assert_eq!(Value::Integer(1).eq(&Value::Integer(2)).unwrap(), f);
    assert_eq!(Value::Integer(1).eq(&float(1.0)).unwrap(), f);
    assert_eq!(Value::Null.eq(&Value::Null).unwrap(), t);
    assert_eq!(Value::Null.eq(&f).unwrap(), f);
    assert_eq!(
        Value::String("a".to_string()).eq(&Value::String("a".to_string())).unwrap(),
        t
    );
    assert_eq!(float(0.0).eq(&float(-0.0)).unwrap(), t);
    assert_eq!(float(f64::NAN).eq(&float(f64::NAN)).unwrap(), f);
    assert_eq!(float(2.5).eq(&float(2.5)).unwrap(), t);
    assert_eq!(float(2.5).eq(&float(-2.5)).unwrap(), f);
    assert!(float(f64::NAN) != float(f64::NAN));
    assert!(float(0.0) == float(-0.0));
}
