use forth::{register_stdlib, Builtin, ForthError, Runtime, Word};

#[test]
fn square_definition_prints_sixteen() {
    let mut rt = Runtime::new();
    assert_eq!(rt.eval(": sq dup * ;"), Ok(()));
    assert_eq!(rt.eval("4 sq ."), Ok(()));
    assert_eq!(rt.output(), &[16]);
}

#[test]
fn redefinition_changes_procedures_that_use_it() {
    let mut rt = Runtime::new();
    assert_eq!(rt.eval(": one 1 ;"), Ok(()));
    assert_eq!(rt.eval(": show one . ;"), Ok(()));
    assert_eq!(rt.eval(": one 2 ;"), Ok(()));
    assert_eq!(rt.eval("show"), Ok(()));
    assert_eq!(rt.output(), &[2]);
}

#[test]
fn unterminated_definition_binds_nothing() {
    let mut rt = Runtime::new();
    assert_eq!(rt.eval(": foo 1 2 +"), Err(ForthError::UnterminatedDefinition));
    assert_eq!(rt.eval("foo"), Err(ForthError::UndefinedWord("foo".to_string())));
    assert_eq!(rt.stack(), &[] as &[i32]);
}

#[test]
fn unterminated_definition_keeps_earlier_binding() {
    let mut rt = Runtime::new();
    assert_eq!(rt.eval(": foo 7 ;"), Ok(()));
    assert_eq!(rt.eval(": foo 1 2 +"), Err(ForthError::UnterminatedDefinition));
    assert_eq!(rt.eval("foo"), Ok(()));
    assert_eq!(rt.stack(), &[7]);
}

#[test]
fn colon_without_name_fails() {
    let mut rt = Runtime::new();
    assert_eq!(rt.eval(":"), Err(ForthError::EmptyName));
}

#[test]
fn empty_definition_does_nothing() {
    let mut rt = Runtime::new();
    assert_eq!(rt.eval(": nop ; 1 nop nop"), Ok(()));
    assert_eq!(rt.stack(), &[1]);
}

#[test]
fn definition_names_are_case_insensitive() {
    let mut rt = Runtime::new();
    assert_eq!(rt.eval(": SQ dup * ; 3 sq 2 Sq"), Ok(()));
    assert_eq!(rt.stack(), &[9, 4]);
}

#[test]
fn definition_can_shadow_a_standard_word() {
    let mut rt = Runtime::new();
    assert_eq!(rt.eval(": dup 7 ; dup"), Ok(()));
    assert_eq!(rt.stack(), &[7]);
}

#[test]
fn semicolon_must_match_exactly() {
    let mut rt = Runtime::new();
    assert_eq!(rt.eval(": foo 1 ;; 2"), Err(ForthError::UnterminatedDefinition));
    assert_eq!(rt.eval(": foo 1 ;; ; foo"), Err(ForthError::UndefinedWord(";;".to_string())));
    assert_eq!(rt.stack(), &[1]);
}

#[test]
fn definition_uses_earlier_tokens_of_the_same_call() {
    let mut rt = Runtime::new();
    assert_eq!(rt.eval("5 : double dup + ; double double"), Ok(()));
    assert_eq!(rt.stack(), &[20]);
}

#[test]
fn register_binds_lower_cased_name() {
    let mut rt = Runtime::new();
    rt.register("Inc", Word::Colon(vec!["1".to_string(), "+".to_string()]));
    rt.register("TWICE", Word::Native(Builtin::Dup));
    assert_eq!(rt.eval("4 inc twice"), Ok(()));
    assert_eq!(rt.stack(), &[5, 5]);
}

#[test]
fn register_stdlib_restores_standard_words() {
    let mut rt = Runtime::new();
    assert_eq!(rt.eval(": + * ; 3 4 +"), Ok(()));
    assert_eq!(rt.stack(), &[12]);
    register_stdlib(&mut rt);
    assert_eq!(rt.eval("drop 3 4 +"), Ok(()));
    assert_eq!(rt.stack(), &[7]);
}

#[test]
fn sessions_with_same_history_agree() {
    let calls = [": sq dup * ;", "3 sq", ": cube dup sq * ;", "2 cube +"];
    let mut first = Runtime::new();
    let mut second = Runtime::new();
    for call in calls.iter() {
        assert_eq!(first.eval(call), Ok(()));
    }
    assert_eq!(second.eval(calls.join(" ").as_str()), Ok(()));
    assert_eq!(first.stack(), &[17]);
    assert_eq!(first.stack(), second.stack());
}

#[test]
fn joined_call_matches_separate_calls() {
    let mut first = Runtime::new();
    let mut second = Runtime::new();
    assert_eq!(first.eval(": sq dup * ; 3 sq dup ."), Ok(()));
    let mut printed: Vec<i32> = first.output().to_vec();
    assert_eq!(first.eval("1 + . 2 if 5 then"), Ok(()));
    printed.extend_from_slice(first.output());
    assert_eq!(
        second.eval(": sq dup * ; 3 sq dup . 1 + . 2 if 5 then"),
        Ok(())
    );
    assert_eq!(printed, vec![9, 10]);
    assert_eq!(second.output(), printed.as_slice());
    assert_eq!(first.stack(), second.stack());
    assert_eq!(first.stack(), &[5]);
}
