//! The words that the runtime implements itself.
use vstd::prelude::*;
use crate::model::{
    Builtin, Delimiter, State, branch_tokens, cleared, first_delimiter, in_consequent_after,
    is_binary, with_standard_words, is_semicolon, is_then, lemma_first_delimiter_at,
    lemma_first_delimiter_none, native_step, popped,
};
use crate::runtime::{ForthError, Runtime, Word, follows, outcome_view, tokens_view};
use crate::text::lowercase;

verus! {

/// `.` — pops the top of the stack and prints it.
pub fn rt_forth_print(forth: &mut Runtime) -> (r: Result<(), ForthError>)
    requires
        old(forth).dict_ok(),
    ensures
        final(forth).dict_ok(),
        follows(native_step(Builtin::Print, old(forth)@), outcome_view(r), final(forth)@),
{
    match forth.pop() {
        Some(value) => {
            forth.print(value);
            Ok(())
        },
        None => Err(ForthError::StackUnderflow),
    }
}

/// The one-operand word `invert`: pops a value and pushes 1 if it was 0, else 0.
pub fn unary_word(forth: &mut Runtime) -> (r: Result<(), ForthError>)
    requires
        old(forth).dict_ok(),
    ensures
        final(forth).dict_ok(),
        follows(native_step(Builtin::Invert, old(forth)@), outcome_view(r), final(forth)@),
{
    match forth.pop() {
        Some(value) => {
            let result: i32 = if value == 0 {
                1
            } else {
                0
            };
            forth.push(result);
            Ok(())
        },
        None => Err(ForthError::StackUnderflow),
    }
}

/// Pops `a`, then `b`, and pushes `b op a`. A value popped before the stack ran
/// out stays popped.
pub fn binary_word(forth: &mut Runtime, op: Builtin) -> (r: Result<(), ForthError>)
    requires
        old(forth).dict_ok(),
        is_binary(op),
    ensures
        final(forth).dict_ok(),
        follows(native_step(op, old(forth)@), outcome_view(r), final(forth)@),
{
    let a = match forth.pop() {
        Some(a) => a,
        None => return Err(ForthError::StackUnderflow),
    };
    let b = match forth.pop() {
        Some(b) => b,
        None => return Err(ForthError::StackUnderflow),
    };
    let result: i32 = match op {
        Builtin::Add => b.wrapping_add(a),
        Builtin::Sub => b.wrapping_sub(a),
        Builtin::Mul => b.wrapping_mul(a),
        Builtin::Div => {
            if a == 0 {
                return Err(ForthError::DivideByZero);
            }
            match b.checked_div(a) {
                Some(q) => q,
                None => i32::MIN,
            }
        },
        Builtin::Equal => if b == a {
            1
        } else {
            0
        },
        Builtin::Greater => if b > a {
            1
        } else {
            0
        },
        _ => if b < a {
            1
        } else {
            0
        },
    };
    forth.push(result);
    Ok(())
}

/// `+`
pub fn rt_forth_add(forth: &mut Runtime) -> (r: Result<(), ForthError>)
    requires
        old(forth).dict_ok(),
    ensures
        final(forth).dict_ok(),
        follows(native_step(Builtin::Add, old(forth)@), outcome_view(r), final(forth)@),
{
    binary_word(forth, Builtin::Add)
}

/// `-`
pub fn rt_forth_sub(forth: &mut Runtime) -> (r: Result<(), ForthError>)
    requires
        old(forth).dict_ok(),
    ensures
        final(forth).dict_ok(),
        follows(native_step(Builtin::Sub, old(forth)@), outcome_view(r), final(forth)@),
{
    binary_word(forth, Builtin::Sub)
}

/// `*`
pub fn rt_forth_mul(forth: &mut Runtime) -> (r: Result<(), ForthError>)
    requires
        old(forth).dict_ok(),
    ensures
        final(forth).dict_ok(),
        follows(native_step(Builtin::Mul, old(forth)@), outcome_view(r), final(forth)@),
{
    binary_word(forth, Builtin::Mul)
}

/// `/`
pub fn rt_forth_div(forth: &mut Runtime) -> (r: Result<(), ForthError>)
    requires
        old(forth).dict_ok(),
    ensures
        final(forth).dict_ok(),
        follows(native_step(Builtin::Div, old(forth)@), outcome_view(r), final(forth)@),
{
    binary_word(forth, Builtin::Div)
}

/// `=`
pub fn rt_forth_eq(forth: &mut Runtime) -> (r: Result<(), ForthError>)
    requires
        old(forth).dict_ok(),
    ensures
        final(forth).dict_ok(),
        follows(native_step(Builtin::Equal, old(forth)@), outcome_view(r), final(forth)@),
{
    binary_word(forth, Builtin::Equal)
}

/// `>`
pub fn rt_forth_gt(forth: &mut Runtime) -> (r: Result<(), ForthError>)
    requires
        old(forth).dict_ok(),
    ensures
        final(forth).dict_ok(),
        follows(native_step(Builtin::Greater, old(forth)@), outcome_view(r), final(forth)@),
{
    binary_word(forth, Builtin::Greater)
}

/// `<`
pub fn rt_forth_lt(forth: &mut Runtime) -> (r: Result<(), ForthError>)
    requires
        old(forth).dict_ok(),
    ensures
        final(forth).dict_ok(),
        follows(native_step(Builtin::Less, old(forth)@), outcome_view(r), final(forth)@),
{
    binary_word(forth, Builtin::Less)
}

/// `invert` — pushes 1 for a popped 0, and 0 for anything else.
pub fn rt_forth_invert(forth: &mut Runtime) -> (r: Result<(), ForthError>)
    requires
        old(forth).dict_ok(),
    ensures
        final(forth).dict_ok(),
        follows(native_step(Builtin::Invert, old(forth)@), outcome_view(r), final(forth)@),
{
    unary_word(forth)
}

/// `dup` — pushes a second copy of the top of the stack.
pub fn rt_forth_dup(forth: &mut Runtime) -> (r: Result<(), ForthError>)
    requires
        old(forth).dict_ok(),
    ensures
        final(forth).dict_ok(),
        follows(native_step(Builtin::Dup, old(forth)@), outcome_view(r), final(forth)@),
{
    match forth.pop() {
        Some(value) => {
            forth.push(value);
            forth.push(value);
            proof {
                assert(old(forth)@.stack.drop_last().push(value) =~= old(forth)@.stack);
            }
            Ok(())
        },
        None => Err(ForthError::StackUnderflow),
    }
}

/// `drop` — pops the top of the stack.
pub fn rt_forth_drop(forth: &mut Runtime) -> (r: Result<(), ForthError>)
    requires
        old(forth).dict_ok(),
    ensures
        final(forth).dict_ok(),
        follows(native_step(Builtin::Drop, old(forth)@), outcome_view(r), final(forth)@),
{
    match forth.pop() {
        Some(_) => Ok(()),
        None => Err(ForthError::StackUnderflow),
    }
}

/// `:` — reads a name, then the tokens up to the first `;`, and binds the name
/// to a procedure of those tokens. Without a `;` nothing is bound.
pub fn rt_forth_colon(forth: &mut Runtime) -> (r: Result<(), ForthError>)
    requires
        old(forth).dict_ok(),
    ensures
        final(forth).dict_ok(),
        follows(native_step(Builtin::Colon, old(forth)@), outcome_view(r), final(forth)@),
{
    let name = match forth.parse() {
        Some(name) => name,
        None => return Err(ForthError::EmptyName),
    };
    let ghost after_name = forth@;
    let ghost tail = forth@.queue;
    let semicolon: String = ";".to_owned();
    let mut definition: Vec<String> = Vec::new();
    assert(tail.skip(0) =~= tail);
    loop
        invariant_except_break
            forth@ == (State { queue: tail.skip(definition.len() as int), ..after_name }),
        invariant
            forth.dict_ok(),
            old(forth)@.queue.len() > 0,
            name@ == old(forth)@.queue[0],
            after_name == (State { queue: old(forth)@.queue.drop_first(), ..old(forth)@ }),
            tail == after_name.queue,
            semicolon@ == ";"@,
            definition.len() <= tail.len(),
            tokens_view(definition@) == tail.take(definition.len() as int),
            forall|k: int| 0 <= k < definition.len() ==> !is_semicolon(#[trigger] tail[k]),
        ensures
            forth@ == (State { queue: tail.skip(definition.len() + 1), ..after_name }),
            first_delimiter(tail, Delimiter::Semicolon) == Some(definition.len() as nat),
        decreases tail.len() - definition.len(),
    {
        let ghost n = definition.len() as int;
        match forth.parse() {
            None => {
                proof {
                    assert(tail.skip(n).len() == 0);
                    lemma_first_delimiter_none(tail, Delimiter::Semicolon);
                    assert(forth@.queue =~= Seq::<Seq<char>>::empty());
                    assert(forth@ == cleared(old(forth)@));
                }
                return Err(ForthError::UnterminatedDefinition);
            },
            Some(word) => {
                assert(word@ == tail[n]);
                if word == semicolon {
                    proof {
                        lemma_first_delimiter_at(tail, Delimiter::Semicolon, n);
                        assert(tail.skip(n).drop_first() =~= tail.skip(n + 1));
                    }
                    break ;
                }
                let ghost before = definition@;
                definition.push(word);
                proof {
                    assert(tokens_view(definition@) =~= tokens_view(before).push(word@));
                    assert(tail.take(n + 1) =~= tail.take(n).push(tail[n]));
                    assert(tail.skip(n).drop_first() =~= tail.skip(n + 1));
                }
            },
        }
    }
    forth.register(name.as_str(), Word::Colon(definition));
    Ok(())
}

/// `if` — pops the condition, reads the tokens up to the first `then`, and puts
/// those of the branch taken in front of the pending tokens: the ones before
/// `else` when the condition is not zero, the ones after it when it is. Each
/// `else` switches between the two branches.
pub fn rt_forth_if(forth: &mut Runtime) -> (r: Result<(), ForthError>)
    requires
        old(forth).dict_ok(),
    ensures
        final(forth).dict_ok(),
        follows(native_step(Builtin::If, old(forth)@), outcome_view(r), final(forth)@),
{
    let value = match forth.pop() {
        Some(value) => value,
        None => return Err(ForthError::StackUnderflow),
    };
    let condition = value != 0;
    let ghost after_pop = forth@;
    let ghost q = forth@.queue;
    let then_word: String = "then".to_owned();
    let else_word: String = "else".to_owned();
    let mut words: Vec<String> = Vec::new();
    let mut in_consequent = true;
    let ghost mut consumed: int = 0;
    assert(q.skip(0) =~= q);
    assert(q.take(0) =~= Seq::<Seq<char>>::empty());
    loop
        invariant_except_break
            forth@ == (State { queue: q.skip(consumed), ..after_pop }),
        invariant
            forth.dict_ok(),
            old(forth)@.stack.len() > 0,
            condition == (old(forth)@.stack.last() != 0),
            after_pop == popped(old(forth)@),
            q == after_pop.queue,
            then_word@ == "then"@,
            else_word@ == "else"@,
            0 <= consumed <= q.len(),
            forall|k: int| 0 <= k < consumed ==> !is_then(#[trigger] q[k]),
            tokens_view(words@) == branch_tokens(q.take(consumed), condition),
            in_consequent == in_consequent_after(q.take(consumed)),
        ensures
            forth@ == (State { queue: q.skip(consumed + 1), ..after_pop }),
            first_delimiter(q, Delimiter::Then) == Some(consumed as nat),
        decreases q.len() - consumed,
    {
        let ghost n = consumed;
        match forth.parse() {
            None => {
                proof {
                    assert(q.skip(n).len() == 0);
                    lemma_first_delimiter_none(q, Delimiter::Then);
                    assert(forth@.queue =~= Seq::<Seq<char>>::empty());
                    assert(forth@ == cleared(after_pop));
                }
                return Err(ForthError::UnterminatedConditional);
            },
            Some(word) => {
                assert(word@ == q[n]);
                let folded = lowercase(word.as_str());
                if folded == then_word {
                    proof {
                        lemma_first_delimiter_at(q, Delimiter::Then, n);
                        assert(q.skip(n).drop_first() =~= q.skip(n + 1));
                    }
                    break ;
                }
                let ghost before = words@;
                proof {
                    let p = q.take(n + 1);
                    assert(p.drop_last() =~= q.take(n));
                    assert(p.last() == q[n]);
                }
                if folded == else_word {
                    in_consequent = !in_consequent;
                } else if in_consequent == condition {
                    words.push(word);
                    proof {
                        assert(tokens_view(words@) =~= tokens_view(before).push(q[n]));
                    }
                }
                proof {
                    consumed = consumed + 1;
                    assert(q.skip(n).drop_first() =~= q.skip(n + 1));
                }
            },
        }
    }
    forth.prepend_names(&words);
    Ok(())
}

/// Binds the runtime's own words in the dictionary of `forth`.
pub fn register_stdlib(forth: &mut Runtime)
    requires
        old(forth).dict_ok(),
    ensures
        final(forth).dict_ok(),
        final(forth)@ == (State { dict: with_standard_words(old(forth)@.dict), ..old(forth)@ }),
{
    forth.register(".", Word::Native(Builtin::Print));
    forth.register("+", Word::Native(Builtin::Add));
    forth.register("-", Word::Native(Builtin::Sub));
    forth.register("*", Word::Native(Builtin::Mul));
    forth.register("/", Word::Native(Builtin::Div));
    forth.register("=", Word::Native(Builtin::Equal));
    forth.register(">", Word::Native(Builtin::Greater));
    forth.register("<", Word::Native(Builtin::Less));
    forth.register("invert", Word::Native(Builtin::Invert));
    forth.register("dup", Word::Native(Builtin::Dup));
    forth.register("drop", Word::Native(Builtin::Drop));
    forth.register(":", Word::Native(Builtin::Colon));
    forth.register("if", Word::Native(Builtin::If));
}

} // verus!
