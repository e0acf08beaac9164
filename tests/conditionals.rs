use forth::{ForthError, Runtime};

#[test]
fn if_true_takes_consequent() {
    let mut rt = Runtime::new();
    assert_eq!(rt.eval("1 if 10 else 20 then ."), Ok(()));
    assert_eq!(rt.output(), &[10]);
}

#[test]
fn if_false_takes_alternative() {
    let mut rt = Runtime::new();
    assert_eq!(rt.eval("0 if 10 else 20 then ."), Ok(()));
    assert_eq!(rt.output(), &[20]);
}

#[test]
fn if_without_else() {
    let mut rt = Runtime::new();
    assert_eq!(rt.eval("-3 if 1 then 0 if 2 then"), Ok(()));
    assert_eq!(rt.stack(), &[1]);
}

#[test]
fn if_keywords_are_case_insensitive() {
    let mut rt = Runtime::new();
    assert_eq!(rt.eval("0 IF 1 Else 2 THEN"), Ok(()));
    assert_eq!(rt.stack(), &[2]);
}

#[test]
fn if_on_empty_stack_fails() {
    let mut rt = Runtime::new();
    assert_eq!(rt.eval("if 1 then"), Err(ForthError::StackUnderflow));
}

#[test]
fn if_without_then_fails() {
    let mut rt = Runtime::new();
    assert_eq!(rt.eval("7 1 if 2 else 3"), Err(ForthError::UnterminatedConditional));
    assert_eq!(rt.stack(), &[7]);
}

#[test]
fn second_else_switches_back() {
    let mut rt = Runtime::new();
    assert_eq!(rt.eval("1 if 1 else 2 else 3 then"), Ok(()));
    assert_eq!(rt.stack(), &[1, 3]);
    assert_eq!(rt.eval("0 if 4 else 5 else 6 then"), Ok(()));
    assert_eq!(rt.stack(), &[1, 3, 5]);
}

#[test]
fn inner_then_ends_the_scan() {
    let mut rt = Runtime::new();
    assert_eq!(rt.eval("1 if 1 if 2 then 3 then"), Ok(()));
    assert_eq!(rt.stack(), &[2, 3]);
}

#[test]
fn conditional_inside_definition() {
    let mut rt = Runtime::new();
    assert_eq!(rt.eval(": sign 0 < if -1 else 1 then ;"), Ok(()));
    assert_eq!(rt.eval("-5 sign 8 sign"), Ok(()));
    assert_eq!(rt.stack(), &[-1, 1]);
}

#[test]
fn recursion_through_conditional() {
    let mut rt = Runtime::new();
    assert_eq!(rt.eval(": down dup if dup 1 - down then ;"), Ok(()));
    assert_eq!(rt.eval("3 down"), Ok(()));
    assert_eq!(rt.stack(), &[3, 2, 1, 0]);
}
