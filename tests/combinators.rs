use xparse::ops::{
    And, AndWithArg, AnyOf, ConcatArg, Discard, End, Expected, Is, IsMap, Literal, MapRange, MapWith, Name, Never,
    NoOp, Not, Optional, Or, Peek, Punctuated, Repeat, Start, TryMap,
};
use xparse::{from_slice, DynError, Error, HardError, Parse, ParseImpl, SourceBase, Value};

fn any_of(s: &[u8]) -> AnyOf {
    AnyOf { set: s.to_vec() }
}

fn lit(s: &[u8]) -> Literal {
    Literal { literal: s.to_vec() }
}

fn digit() -> AnyOf {
    any_of(b"0123456789")
}

fn run<R: ParseImpl<()>>(rule: &R, input: &[u8]) -> (Result<Vec<Value>, Error>, usize) {
    let mut source = from_slice(input);
    let r = rule.parse(&mut source, &());
    (r, source.position())
}

fn items(s: &[u8]) -> Value {
    Value::List(s.iter().map(|b| Value::Item(*b)).collect())
}

#[test]
fn any_of_matches_member() {
    let (r, pos) = run(&any_of(b"abc"), b"b...");
    assert_eq!(r, Ok(vec![Value::Item(b'b')]));
    assert_eq!(pos, 1);
}

#[test]
fn any_of_rejects_non_member() {
    let (r, pos) = run(&any_of(b"abc"), b"d");
    assert_eq!(r, Err(Error::Mismatch));
    assert_eq!(pos, 0);
}

#[test]
fn literal_divergence_consumes_nothing() {
    let (r, pos) = run(&lit(b"abc"), b"abd");
    assert_eq!(r, Err(Error::Mismatch));
    assert_eq!(pos, 0);
}

#[test]
fn literal_full_match() {
    let (r, pos) = run(&lit(b"abc"), b"abcd");
    assert_eq!(r, Ok(vec![Value::Bytes(b"abc".to_vec())]));
    assert_eq!(pos, 3);
}

#[test]
fn literal_on_short_input() {
    let (r, pos) = run(&lit(b"abc"), b"ab");
    assert_eq!(r, Err(Error::Mismatch));
    assert_eq!(pos, 0);
}

#[test]
fn expected_on_empty_input_is_incomplete() {
    let rule = Expected { rule: lit(b"}"), name: "Object" };
    let (r, pos) = run(&rule, b"");
    assert_eq!(r, Err(Error::Hard(HardError::Incomplete { position: 0, name: "Object" })));
    assert_eq!(pos, 0);
}

#[test]
fn expected_named_mismatch_is_named_incomplete() {
    let rule = Expected {
        rule: And { first: lit(b"["), second: Name { rule: lit(b"]"), name: "RBracket" } },
        name: "Array",
    };
    let (r, pos) = run(&rule, b"[x");
    assert_eq!(
        r,
        Err(Error::Hard(HardError::NamedIncomplete {
            position: 1,
            name: "Array",
            component_name: "RBracket",
        }))
    );
    assert_eq!(pos, 1);
}

#[test]
fn name_labels_mismatch() {
    let (r, pos) = run(&Name { rule: digit(), name: "Digit" }, b"x");
    assert_eq!(r, Err(Error::NamedMismatch("Digit")));
    assert_eq!(pos, 0);
}

#[test]
fn or_after_mismatch_gives_second_result() {
    let second = lit(b"x");
    let rule = Or { first: Never, second: lit(b"x") };
    let (r, pos) = run(&rule, b"xyz");
    let (own, own_pos) = run(&second, b"xyz");
    assert_eq!(r, own);
    assert_eq!(pos, own_pos);
    assert_eq!(pos, 1);
}

#[test]
fn or_rolls_back_partial_consumption() {
    let first = And { first: lit(b"a"), second: lit(b"z") };
    let rule = Or { first, second: lit(b"ab") };
    let (r, pos) = run(&rule, b"abc");
    assert_eq!(r, Ok(vec![Value::Bytes(b"ab".to_vec())]));
    assert_eq!(pos, 2);
}

#[test]
fn or_prefers_first_overlapping_alternative() {
    let (r, pos) = run(&Or { first: lit(b"ab"), second: lit(b"a") }, b"abc");
    assert_eq!(r, Ok(vec![Value::Bytes(b"ab".to_vec())]));
    assert_eq!(pos, 2);
    let (r, pos) = run(&Or { first: lit(b"a"), second: lit(b"ab") }, b"abc");
    assert_eq!(r, Ok(vec![Value::Bytes(b"a".to_vec())]));
    assert_eq!(pos, 1);
}

#[test]
fn or_all_mismatch_is_plain_mismatch() {
    let rule = Or { first: Name { rule: lit(b"a"), name: "A" }, second: lit(b"b") };
    let (r, pos) = run(&rule, b"c");
    assert_eq!(r, Err(Error::Mismatch));
    assert_eq!(pos, 0);
}

#[test]
fn or_stops_at_hard_failure() {
    let first = And { first: lit(b"x"), second: Expected { rule: lit(b"!"), name: "Bang" } };
    let rule = Or { first, second: lit(b"xy") };
    let (r, pos) = run(&rule, b"xy");
    assert_eq!(r, Err(Error::Hard(HardError::Incomplete { position: 1, name: "Bang" })));
    assert_eq!(pos, 1);
}

#[test]
fn repeat_digits_bounded() {
    let rule = Repeat { rule: digit(), min: 1, max: 3 };
    let (r, pos) = run(&rule, b"12a");
    assert_eq!(r, Ok(vec![items(b"12")]));
    assert_eq!(pos, 2);
}

#[test]
fn repeat_exact_count_against_bounds() {
    for min in 0..=4usize {
        for max in 3..=5usize {
            let rule = Repeat { rule: digit(), min, max };
            let (r, pos) = run(&rule, b"123a");
            if min <= 3 {
                assert_eq!(r, Ok(vec![items(b"123")]));
                assert_eq!(pos, 3);
            } else {
                assert_eq!(r, Err(Error::Mismatch));
            }
        }
    }
}

#[test]
fn repeat_stops_at_max() {
    let rule = Repeat { rule: digit(), min: 0, max: 2 };
    let (r, pos) = run(&rule, b"12345");
    assert_eq!(r, Ok(vec![items(b"12")]));
    assert_eq!(pos, 2);
}

#[test]
fn repeat_too_few_returns_last_error() {
    let rule = Repeat { rule: Name { rule: digit(), name: "Digit" }, min: 2, max: 5 };
    let (r, _) = run(&rule, b"1x");
    assert_eq!(r, Err(Error::NamedMismatch("Digit")));
}

#[test]
fn repeat_zero_attempts_is_mismatch() {
    let rule = Repeat { rule: digit(), min: 1, max: 0 };
    let (r, pos) = run(&rule, b"123");
    assert_eq!(r, Err(Error::Mismatch));
    assert_eq!(pos, 0);
}

#[test]
fn repeat_on_empty_input() {
    let (r, pos) = run(&Repeat { rule: digit(), min: 0, max: usize::MAX }, b"");
    assert_eq!(r, Ok(vec![Value::List(vec![])]));
    assert_eq!(pos, 0);
}

#[test]
fn repeat_propagates_hard_failure() {
    let item = And { first: lit(b"("), second: Expected { rule: lit(b")"), name: "Paren" } };
    let rule = Repeat { rule: item, min: 0, max: 10 };
    let (r, _) = run(&rule, b"()(x");
    assert_eq!(r, Err(Error::Hard(HardError::Incomplete { position: 3, name: "Paren" })));
}

#[test]
fn punctuated_digits() {
    let rule = Punctuated { item: digit(), punct: any_of(b","), min: 0, max: usize::MAX };
    let (r, pos) = run(&rule, b"1,2,3");
    assert_eq!(r, Ok(vec![items(b"123"), items(b",,")]));
    assert_eq!(pos, 5);
}

#[test]
fn punctuated_trailing_separator_left_unconsumed() {
    let letter = any_of(b"abcdefghijklmnopqrstuvwxyz");
    let rule = Punctuated { item: letter, punct: any_of(b","), min: 0, max: usize::MAX };
    let (r, pos) = run(&rule, b"a,b,");
    assert_eq!(r, Ok(vec![items(b"ab"), items(b",")]));
    assert_eq!(pos, 3);
}

#[test]
fn punctuated_trailing_separator_absorbed_by_optional() {
    let list = Punctuated { item: digit(), punct: any_of(b","), min: 0, max: usize::MAX };
    let rule = And { first: list, second: Discard { rule: Optional { rule: any_of(b",") } } };
    let (r, pos) = run(&rule, b"1,2,]");
    assert_eq!(r, Ok(vec![items(b"12"), items(b",")]));
    assert_eq!(pos, 4);
}

#[test]
fn punctuated_empty_and_min() {
    let rule = Punctuated { item: digit(), punct: any_of(b","), min: 0, max: usize::MAX };
    let (r, pos) = run(&rule, b"");
    assert_eq!(r, Ok(vec![Value::List(vec![]), Value::List(vec![])]));
    assert_eq!(pos, 0);
    let rule = Punctuated { item: digit(), punct: any_of(b","), min: 1, max: usize::MAX };
    let (r, _) = run(&rule, b"");
    assert_eq!(r, Err(Error::Mismatch));
    let rule = Punctuated { item: digit(), punct: any_of(b","), min: 3, max: usize::MAX };
    let (r, pos) = run(&rule, b"1,2");
    assert_eq!(r, Err(Error::Mismatch));
    assert_eq!(pos, 3);
}

#[test]
fn punctuated_max_items() {
    let rule = Punctuated { item: digit(), punct: any_of(b","), min: 0, max: 2 };
    let (r, pos) = run(&rule, b"1,2,3");
    assert_eq!(r, Ok(vec![items(b"12"), items(b",")]));
    assert_eq!(pos, 3);
}

#[test]
fn and_concatenates_in_order() {
    let rule = And { first: And { first: digit(), second: Discard { rule: lit(b"-") } }, second: digit() };
    let (r, pos) = run(&rule, b"1-2");
    assert_eq!(r, Ok(vec![Value::Item(b'1'), Value::Item(b'2')]));
    assert_eq!(pos, 3);
}

#[test]
fn and_keeps_partial_progress_on_failure() {
    let rule = And { first: lit(b"ab"), second: lit(b"x") };
    let (r, pos) = run(&rule, b"abc");
    assert_eq!(r, Err(Error::Mismatch));
    assert_eq!(pos, 2);
}

#[test]
fn and_grouping_does_not_matter() {
    let left = And { first: And { first: digit(), second: lit(b"+") }, second: digit() };
    let right = And { first: digit(), second: And { first: lit(b"+"), second: digit() } };
    for input in [&b"1+2"[..], b"1+", b"x", b"3+4+5"] {
        assert_eq!(run(&left, input), run(&right, input));
    }
}

#[test]
fn optional_present_and_absent() {
    let rule = Optional { rule: digit() };
    let (r, pos) = run(&rule, b"7");
    assert_eq!(r, Ok(vec![Value::Present(Box::new(Value::Item(b'7')))]));
    assert_eq!(pos, 1);
    let (r, pos) = run(&rule, b"x");
    assert_eq!(r, Ok(vec![Value::Absent]));
    assert_eq!(pos, 0);
}

#[test]
fn optional_propagates_hard_failure() {
    let rule = Optional { rule: Expected { rule: digit(), name: "Digit" } };
    let (r, _) = run(&rule, b"x");
    assert_eq!(r, Err(Error::Hard(HardError::Incomplete { position: 0, name: "Digit" })));
}

#[test]
fn not_and_is() {
    let (r, pos) = run(&Not { pred: any_of(b"\"") }, b"a\"");
    assert_eq!(r, Ok(vec![Value::Item(b'a')]));
    assert_eq!(pos, 1);
    let (r, pos) = run(&Not { pred: any_of(b"\"") }, b"\"a");
    assert_eq!(r, Err(Error::Mismatch));
    assert_eq!(pos, 0);
    let (r, pos) = run(&Is { pred: any_of(b"q") }, b"q");
    assert_eq!(r, Ok(vec![Value::Item(b'q')]));
    assert_eq!(pos, 1);
}

#[test]
fn peek_does_not_consume() {
    let (r, pos) = run(&Peek { rule: lit(b"ab") }, b"abc");
    assert_eq!(r, Ok(vec![Value::Bytes(b"ab".to_vec())]));
    assert_eq!(pos, 0);
}

#[test]
fn start_and_end_anchors() {
    let (r, _) = run(&Start, b"a");
    assert_eq!(r, Ok(vec![]));
    let rule = And { first: digit(), second: Start };
    let (r, _) = run(&rule, b"1");
    assert_eq!(r, Err(Error::Mismatch));
    let rule = And { first: digit(), second: End };
    let (r, pos) = run(&rule, b"1");
    assert_eq!(r, Ok(vec![Value::Item(b'1')]));
    assert_eq!(pos, 1);
    let (r, _) = run(&rule, b"12");
    assert_eq!(r, Err(Error::Mismatch));
}

#[test]
fn map_range_appends_span() {
    let rule = And { first: digit(), second: MapRange { rule: lit(b"ab"), mapper: ConcatArg } };
    let (r, pos) = run(&rule, b"1ab");
    assert_eq!(
        r,
        Ok(vec![
            Value::Item(b'1'),
            Value::List(vec![Value::Bytes(b"ab".to_vec()), Value::Range(1, 3)]),
        ])
    );
    assert_eq!(pos, 3);
}

#[test]
fn map_with_identity_and_try_map() {
    let (r, _) = run(&MapWith { rule: digit(), mapper: NoOp }, b"5");
    assert_eq!(r, Ok(vec![Value::Item(b'5')]));
    let pair = And { first: digit(), second: digit() };
    let (r, _) = run(&TryMap { rule: pair, mapper: NoOp }, b"56");
    assert_eq!(r, Ok(vec![Value::List(vec![Value::Item(b'5'), Value::Item(b'6')])]));
}

#[test]
fn no_op_and_never() {
    let (r, pos) = run(&NoOp, b"abc");
    assert_eq!(r, Ok(vec![]));
    assert_eq!(pos, 0);
    let (r, pos) = run(&Never, b"abc");
    assert_eq!(r, Err(Error::Mismatch));
    assert_eq!(pos, 0);
}

#[test]
fn top_level_parse_returns_single_value() {
    let mut source = from_slice(b"42");
    let r = Parse::parse(&Repeat { rule: digit(), min: 1, max: usize::MAX }, &mut source);
    assert_eq!(r, Ok(items(b"42")));
    assert_eq!(source.position(), 2);
}

#[test]
fn other_error_keeps_text() {
    let oops = "oops".to_string();
    assert_eq!(oops.message(), "oops");
    let e: Error = HardError::other(&oops).into();
    assert_eq!(e, Error::Hard(HardError::Other("oops".to_string())));
}

#[test]
fn and_with_arg_chains_first_value() {
    let rule = AndWithArg { first: digit(), second: Repeat { rule: any_of(b"ab"), min: 1, max: 5 } };
    let (r, pos) = run(&rule, b"7aab!");
    assert_eq!(r, Ok(vec![Value::Item(b'7'), items(b"aab")]));
    assert_eq!(pos, 4);
    let (r, pos) = run(&rule, b"7!");
    assert_eq!(r, Err(Error::Mismatch));
    assert_eq!(pos, 1);
    let (r, pos) = run(&rule, b"x");
    assert_eq!(r, Err(Error::Mismatch));
    assert_eq!(pos, 0);
}

#[test]
fn is_map_with_value() {
    let rule = IsMap { rule: And { first: digit(), second: digit() }, mapper: NoOp };
    let (r, pos) = run(&rule, b"12");
    assert_eq!(r, Ok(vec![Value::List(vec![Value::Item(b'1'), Value::Item(b'2')])]));
    assert_eq!(pos, 2);
    let (r, pos) = run(&rule, b"1x");
    assert_eq!(r, Err(Error::Mismatch));
    assert_eq!(pos, 1);
}
