use forth::{ForthError, Runtime};

fn run(rt: &mut Runtime, source: &str) -> Result<(), ForthError> {
    rt.eval(source)
}

#[test]
fn add_leaves_sum_on_top() {
    let mut rt = Runtime::new();
    assert_eq!(run(&mut rt, "3 4 +"), Ok(()));
    assert_eq!(rt.stack(), &[7]);
}

#[test]
fn add_keeps_values_below() {
    let mut rt = Runtime::new();
    assert_eq!(run(&mut rt, "9 -12 30 +"), Ok(()));
    assert_eq!(rt.stack(), &[9, 18]);
}

#[test]
fn subtract_takes_first_pushed_minus_second() {
    let mut rt = Runtime::new();
    assert_eq!(run(&mut rt, "10 3 -"), Ok(()));
    assert_eq!(rt.stack(), &[7]);
}

#[test]
fn multiply_two_values() {
    let mut rt = Runtime::new();
    assert_eq!(run(&mut rt, "-6 7 *"), Ok(()));
    assert_eq!(rt.stack(), &[-42]);
}

#[test]
fn divide_rounds_toward_zero() {
    let mut rt = Runtime::new();
    assert_eq!(run(&mut rt, "7 2 / -7 2 /"), Ok(()));
    assert_eq!(rt.stack(), &[3, -3]);
}

#[test]
fn divide_by_zero_fails() {
    let mut rt = Runtime::new();
    assert_eq!(run(&mut rt, "1 5 0 / 8"), Err(ForthError::DivideByZero));
    assert_eq!(rt.stack(), &[1]);
}

#[test]
fn arithmetic_wraps_on_overflow() {
    let mut rt = Runtime::new();
    assert_eq!(run(&mut rt, "2147483647 1 +"), Ok(()));
    assert_eq!(rt.stack(), &[i32::MIN]);
    assert_eq!(run(&mut rt, "drop -2147483648 -1 /"), Ok(()));
    assert_eq!(rt.stack(), &[i32::MIN]);
    assert_eq!(run(&mut rt, "drop 65536 65536 *"), Ok(()));
    assert_eq!(rt.stack(), &[0]);
}

#[test]
fn comparisons_push_one_or_zero() {
    let mut rt = Runtime::new();
    assert_eq!(run(&mut rt, "1 2 < 1 2 > 3 3 = 3 4 ="), Ok(()));
    assert_eq!(rt.stack(), &[1, 0, 1, 0]);
}

#[test]
fn invert_maps_zero_to_one() {
    let mut rt = Runtime::new();
    assert_eq!(run(&mut rt, "0 invert 5 invert -1 invert"), Ok(()));
    assert_eq!(rt.stack(), &[1, 0, 0]);
}

#[test]
fn dup_copies_top() {
    let mut rt = Runtime::new();
    assert_eq!(run(&mut rt, "5 dup"), Ok(()));
    assert_eq!(rt.stack(), &[5, 5]);
}

#[test]
fn dup_on_empty_stack_fails() {
    let mut rt = Runtime::new();
    assert_eq!(run(&mut rt, "dup"), Err(ForthError::StackUnderflow));
    assert_eq!(rt.stack(), &[] as &[i32]);
}

#[test]
fn drop_removes_top() {
    let mut rt = Runtime::new();
    assert_eq!(run(&mut rt, "1 2 drop"), Ok(()));
    assert_eq!(rt.stack(), &[1]);
    assert_eq!(run(&mut rt, "drop drop"), Err(ForthError::StackUnderflow));
    assert_eq!(rt.stack(), &[] as &[i32]);
}

#[test]
fn print_pops_and_records_values() {
    let mut rt = Runtime::new();
    assert_eq!(run(&mut rt, "1 2 3 . ."), Ok(()));
    assert_eq!(rt.output(), &[3, 2]);
    assert_eq!(rt.stack(), &[1]);
}

#[test]
fn output_belongs_to_latest_evaluation() {
    let mut rt = Runtime::new();
    assert_eq!(run(&mut rt, "1 ."), Ok(()));
    assert_eq!(rt.output(), &[1]);
    assert_eq!(run(&mut rt, "2"), Ok(()));
    assert_eq!(rt.output(), &[] as &[i32]);
}

#[test]
fn print_on_empty_stack_fails() {
    let mut rt = Runtime::new();
    assert_eq!(run(&mut rt, "."), Err(ForthError::StackUnderflow));
}

#[test]
fn binary_word_with_one_operand_loses_it() {
    let mut rt = Runtime::new();
    assert_eq!(run(&mut rt, "1 +"), Err(ForthError::StackUnderflow));
    assert_eq!(rt.stack(), &[] as &[i32]);
}

#[test]
fn undefined_word_fails_with_its_name() {
    let mut rt = Runtime::new();
    assert_eq!(
        run(&mut rt, "1 frob 2"),
        Err(ForthError::UndefinedWord("frob".to_string()))
    );
    assert_eq!(rt.stack(), &[1]);
}

#[test]
fn failure_discards_rest_of_the_call() {
    let mut rt = Runtime::new();
    assert_eq!(run(&mut rt, "1 drop drop 5 6"), Err(ForthError::StackUnderflow));
    assert_eq!(rt.stack(), &[] as &[i32]);
    assert_eq!(run(&mut rt, ""), Ok(()));
    assert_eq!(rt.stack(), &[] as &[i32]);
}

#[test]
fn words_are_case_insensitive() {
    let mut rt = Runtime::new();
    assert_eq!(run(&mut rt, "5 DUP Dup"), Ok(()));
    assert_eq!(rt.stack(), &[5, 5, 5]);
}

#[test]
fn any_whitespace_separates_tokens() {
    let mut rt = Runtime::new();
    assert_eq!(run(&mut rt, "  1\t2\n+  "), Ok(()));
    assert_eq!(rt.stack(), &[3]);
}

#[test]
fn number_literals_take_a_sign() {
    let mut rt = Runtime::new();
    assert_eq!(run(&mut rt, "+5 -3 007 -2147483648 2147483647"), Ok(()));
    assert_eq!(rt.stack(), &[5, -3, 7, i32::MIN, i32::MAX]);
}

#[test]
fn numbers_out_of_range_are_undefined() {
    let mut rt = Runtime::new();
    assert_eq!(
        run(&mut rt, "2147483648"),
        Err(ForthError::UndefinedWord("2147483648".to_string()))
    );
    assert_eq!(
        run(&mut rt, "1_000"),
        Err(ForthError::UndefinedWord("1_000".to_string()))
    );
    assert_eq!(run(&mut rt, "-"), Err(ForthError::StackUnderflow));
}

#[test]
fn number_literal_edge_cases() {
    let mut rt = Runtime::new();
    for token in ["-2147483649", "++5", "+-5", "5-", "99999999999999999999", "\u{663}", "1.5"] {
        assert_eq!(
            run(&mut rt, token),
            Err(ForthError::UndefinedWord(token.to_string()))
        );
    }
    assert_eq!(run(&mut rt, "-0 +0 0000000000000000000042"), Ok(()));
    assert_eq!(rt.stack(), &[0, 0, 42]);
}
