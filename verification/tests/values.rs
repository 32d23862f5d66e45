use rlox::common::{
    keyword, number_equals_reading, order_text, EqualityQuestion, LoxCallable, LoxClass,
    LoxInstance, LoxType, Callable, Token, TokenType, LOX_MAX_ARGUMENT_COUNT,
};
use rlox::names::NameMap;
use rlox::native_functions::Clock;
use rlox::number::{compare_numbers, is_nan, is_zero, negate, numbers_equal, Order};
use rlox::text::{chars_of, decimal, same_text, text_between};

fn samples() -> Vec<f32> {
    vec![
        0.0,
        -0.0,
        1.0,
        -1.0,
        0.5,
        -0.5,
        2.0,
        16777216.0,
        -16777216.0,
        1.0e-40,
        -1.0e-40,
        f32::MIN_POSITIVE,
        f32::MAX,
        f32::MIN,
        f32::EPSILON,
        f32::INFINITY,
        f32::NEG_INFINITY,
        f32::NAN,
        -f32::NAN,
        f32::from_bits(0x7f80_0001),
        f32::from_bits(0xffff_ffff),
        3.25,
        -123456.78,
    ]
}

#[test]
fn numbers_are_equal_as_floats_are() {
    for a in samples() {
        for b in samples() {
            assert_eq!(numbers_equal(a.to_bits(), b.to_bits()), a == b, "{} == {}", a, b);
        }
    }
}

#[test]
fn numbers_are_ordered_as_floats_are() {
    for a in samples() {
        for b in samples() {
            let expected = a.partial_cmp(&b).map(|o| match o {
                std::cmp::Ordering::Less => Order::Less,
                std::cmp::Ordering::Equal => Order::Equal,
                std::cmp::Ordering::Greater => Order::Greater,
            });
            assert_eq!(compare_numbers(a.to_bits(), b.to_bits()), expected, "{} ? {}", a, b);
        }
    }
}

#[test]
fn numbers_are_negated_as_floats_are() {
    for a in samples() {
        assert_eq!(negate(a.to_bits()), (-a).to_bits(), "-{}", a);
        assert_eq!(is_nan(a.to_bits()), a.is_nan(), "{}", a);
        assert_eq!(is_zero(a.to_bits()), a == 0.0, "{}", a);
    }
    assert_eq!(negate(1.0f32.to_bits()), 0xbf80_0000);
    assert_eq!(negate(0), 0x8000_0000);
}

#[test]
fn a_number_equals_a_reading() {
    assert!(number_equals_reading(10.0f32.to_bits(), Some(10.0f32.to_bits())));
    assert!(number_equals_reading(0.0f32.to_bits(), Some((-0.0f32).to_bits())));
    assert!(!number_equals_reading(10.0f32.to_bits(), Some(11.0f32.to_bits())));
    assert!(!number_equals_reading(10.0f32.to_bits(), None));
    assert!(!number_equals_reading(f32::NAN.to_bits(), Some(f32::NAN.to_bits())));
}

#[test]
fn texts_are_ordered_as_strings_are() {
    let words = ["", "a", "b", "ab", "abc", "B", "é", "z", "\u{10000}", "aa", "a\u{0}"];
    for s in words {
        for t in words {
            let expected = match s.cmp(t) {
                std::cmp::Ordering::Less => Order::Less,
                std::cmp::Ordering::Equal => Order::Equal,
                std::cmp::Ordering::Greater => Order::Greater,
            };
            assert_eq!(order_text(s, t), expected, "{:?} ? {:?}", s, t);
        }
    }
}

fn number(value: f32) -> LoxType {
    LoxType::Number(value.to_bits())
}

/// What a value holds, written out.
fn shown(value: &LoxType) -> String {
    format!("{:?}", value)
}

fn text(value: &str) -> LoxType {
    LoxType::Strang(value.to_string())
}

fn decided(left: &LoxType, right: &LoxType) -> Option<bool> {
    match left.eq(right) {
        EqualityQuestion::Decided(b) => Some(b),
        _ => None,
    }
}

#[test]
fn equality_of_values() {
    assert_eq!(decided(&number(1.0), &number(1.0)), Some(true));
    assert_eq!(decided(&number(1.0), &number(2.0)), Some(false));
    assert_eq!(decided(&text("a"), &text("a")), Some(true));
    assert_eq!(decided(&text("a"), &text("b")), Some(false));
    assert_eq!(decided(&LoxType::Bool(true), &LoxType::Bool(true)), Some(true));
    assert_eq!(decided(&LoxType::Bool(true), &LoxType::Bool(false)), Some(false));
    assert_eq!(decided(&LoxType::Bool(false), &LoxType::Nil), Some(true));
    assert_eq!(decided(&LoxType::Nil, &LoxType::Bool(false)), Some(true));
    assert_eq!(decided(&LoxType::Bool(true), &LoxType::Nil), Some(false));
    assert_eq!(decided(&LoxType::Nil, &LoxType::Bool(true)), Some(false));
    assert_eq!(decided(&LoxType::Nil, &LoxType::Nil), Some(false));
    assert_eq!(decided(&LoxType::Nil, &number(0.0)), Some(false));
    assert_eq!(decided(&text("true"), &LoxType::Bool(true)), Some(false));
    let clock = LoxType::Function(Callable::Clock);
    assert_eq!(decided(&clock, &clock), Some(false));
    let class = LoxType::Class(LoxClass::new("C".to_string()));
    assert_eq!(decided(&class, &class), Some(false));
    assert_eq!(decided(&LoxType::Instance(0), &number(1.0)), Some(false));
}

#[test]
fn equality_that_needs_more_than_the_values() {
    assert!(matches!(
        number(10.0).eq(&text("10")),
        EqualityQuestion::Reading { number, text } if number == 10.0f32.to_bits() && text == "10"
    ));
    assert!(matches!(
        text("abc").eq(&number(10.0)),
        EqualityQuestion::Reading { number, text } if number == 10.0f32.to_bits() && text == "abc"
    ));
    assert!(matches!(
        LoxType::Instance(3).eq(&LoxType::Instance(4)),
        EqualityQuestion::Instances { left: 3, right: 4 }
    ));
}

#[test]
fn kinds_are_ordered() {
    let class = LoxType::Class(LoxClass::new("C".to_string()));
    let values = [
        number(5.0),
        text("a"),
        LoxType::Bool(true),
        LoxType::Nil,
        LoxType::Function(Callable::Clock),
        class,
        LoxType::Instance(0),
    ];
    for (i, a) in values.iter().enumerate() {
        for (j, b) in values.iter().enumerate() {
            if i < j {
                assert_eq!(a.partial_compare(b), Some(Order::Less));
                assert_eq!(b.partial_compare(a), Some(Order::Greater));
            }
        }
    }
    assert_eq!(number(1.0).partial_compare(&number(2.0)), Some(Order::Less));
    assert_eq!(number(f32::NAN).partial_compare(&number(2.0)), None);
    assert_eq!(text("b").partial_compare(&text("a")), Some(Order::Greater));
    assert_eq!(LoxType::Bool(false).partial_compare(&LoxType::Bool(true)), Some(Order::Less));
    assert_eq!(LoxType::Bool(true).partial_compare(&LoxType::Bool(true)), Some(Order::Equal));
    assert_eq!(LoxType::Nil.partial_compare(&LoxType::Nil), Some(Order::Equal));
    assert_eq!(values[4].partial_compare(&values[4]), None);
    assert_eq!(values[6].partial_compare(&values[6]), None);
    assert_eq!(
        LoxType::Class(LoxClass::new("A".to_string()))
            .partial_compare(&LoxType::Class(LoxClass::new("B".to_string()))),
        Some(Order::Less)
    );
}

#[test]
fn truthiness_of_values() {
    assert!(!LoxType::Nil.is_truthy());
    assert!(!LoxType::Bool(false).is_truthy());
    assert!(LoxType::Bool(true).is_truthy());
    assert!(number(0.0).is_truthy());
    assert!(text("").is_truthy());
    assert!(LoxType::Instance(0).is_truthy());
    assert!(LoxType::Function(Callable::Clock).is_truthy());
}

#[test]
fn values_are_cloned() {
    for value in [number(1.5), text("a"), LoxType::Bool(true), LoxType::Nil, LoxType::Instance(2)] {
        assert_eq!(shown(&value.clone()), shown(&value));
    }
    let token = Token::new(TokenType::Identifier, "name", 2, 7);
    assert_eq!(token.clone(), token);
    assert_eq!(token.position(), (2u64 << 32) + 7);
}

#[test]
fn keywords_are_looked_up() {
    assert_eq!(keyword(&chars_of("while")), Some(TokenType::While));
    assert_eq!(keyword(&chars_of("funct")), Some(TokenType::Funct));
    assert_eq!(keyword(&chars_of("meth")), Some(TokenType::Meth));
    assert_eq!(keyword(&chars_of("whil")), None);
    assert_eq!(keyword(&chars_of("whiles")), None);
    assert_eq!(keyword(&chars_of("")), None);
    assert_eq!(keyword(&chars_of("WHILE")), None);
}

#[test]
fn callables_say_their_arity() {
    assert_eq!(Clock.arity(), 0);
    assert_eq!(LoxClass::new("C".to_string()).arity(), 0);
    assert_eq!(LoxClass::new("C".to_string()).to_string(), "C");
    assert_eq!(LOX_MAX_ARGUMENT_COUNT, 255);
}

#[test]
fn instances_hold_fields() {
    let mut instance = LoxInstance::new(LoxClass::new("Point".to_string()));
    let x = Token::new(TokenType::Identifier, "x", 1, 1);
    let y = Token::new(TokenType::Identifier, "y", 1, 1);
    assert_eq!(instance.to_string(), "Point instance");
    assert_eq!(instance.len(), 0);
    let missing = instance.get(&x).unwrap_err();
    assert_eq!(missing.message, "Property x does not exist on Point instance");
    assert_eq!(missing.token, x);
    instance.set(&x, number(1.0));
    instance.set(&y, number(2.0));
    instance.set(&x, number(3.0));
    assert_eq!(instance.len(), 2);
    assert_eq!(shown(&instance.get(&x).unwrap()), shown(&number(3.0)));
    assert_eq!(shown(&instance.get(&y).unwrap()), shown(&number(2.0)));
    assert_eq!(instance.name_at(0), "x");
    assert_eq!(shown(&instance.value_at(1)), shown(&number(2.0)));
    assert!(instance.field(&"z".to_string()).is_none());
}

#[test]
fn name_maps_keep_one_value_for_a_name() {
    let mut map: NameMap<u32> = NameMap::new();
    assert_eq!(map.len(), 0);
    assert_eq!(map.insert("a".to_string(), 1), None);
    assert_eq!(map.insert("b".to_string(), 2), None);
    assert_eq!(map.insert("a".to_string(), 3), Some(1));
    assert_eq!(map.len(), 2);
    assert_eq!(map.get(&"a".to_string()), Some(&3));
    assert_eq!(map.get(&"b".to_string()), Some(&2));
    assert_eq!(map.get(&"c".to_string()), None);
    assert!(map.contains_key(&"b".to_string()));
    assert!(!map.contains_key(&"".to_string()));
    assert_eq!(map.find(&"b".to_string()), Some(1));
    assert_eq!(map.key_at(0), "a");
    assert_eq!(*map.value_at(0), 3);
}

#[test]
fn integers_are_written_in_decimal() {
    for n in [0usize, 1, 9, 10, 11, 99, 100, 101, 255, 256, 1000, 65535, 1234567890, usize::MAX] {
        assert_eq!(decimal(n), n.to_string());
    }
}

#[test]
fn texts() {
    let chars = chars_of("héllo");
    assert_eq!(chars, vec!['h', 'é', 'l', 'l', 'o']);
    assert_eq!(text_between(&chars, 1, 4), "éll");
    assert_eq!(text_between(&chars, 2, 2), "");
    assert!(same_text(&chars, "héllo"));
    assert!(!same_text(&chars, "hello"));
    assert!(!same_text(&chars, "héll"));
}
