//! Properties of evaluation, proved over the model.
use vstd::prelude::*;
use crate::text::{literal_of, lower_of};
use crate::model::{
    Binding, Builtin, Delimiter, Fault, STEP_LIMIT, State, Step, binary_result,
    evaluation, first_delimiter, is_binary, is_delimiter, is_semicolon,
    lemma_first_delimiter_at, lemma_first_delimiter_found, lemma_first_delimiter_none,
    native_step, resolve_name, run, start, step,
};

verus! {

/// Evaluating two number literals that no word shadows and then a name bound to a
/// two-operand word, from an idle state, pushes
/// `b op a` (with `b` the first number) onto the stack and changes nothing else.
/// For `+`, `-` and `*` that is the exact sum, difference or product whenever it
/// fits in `i32`.
pub proof fn law_binary_arithmetic(
    s: State,
    tb: Seq<char>,
    ta: Seq<char>,
    top: Seq<char>,
    op: Builtin,
    b: i32,
    a: i32,
)
    requires
        s.queue.len() == 0,
        literal_of(tb) == Some(b),
        !s.dict.contains_key(lower_of(tb)),
        literal_of(ta) == Some(a),
        !s.dict.contains_key(lower_of(ta)),
        s.dict.contains_key(lower_of(top)),
        s.dict[lower_of(top)] == Binding::Native(op),
        is_binary(op),
        op == Builtin::Div ==> a != 0,
    ensures
        evaluation(s, seq![tb, ta, top]) == (Ok::<(), Fault>(()), State {
            stack: s.stack.push(binary_result(op, b, a)),
            queue: Seq::empty(),
            output: Seq::empty(),
            ..s
        }),
        op == Builtin::Add && i32::MIN <= b + a <= i32::MAX ==> binary_result(op, b, a) == b + a,
        op == Builtin::Sub && i32::MIN <= b - a <= i32::MAX ==> binary_result(op, b, a) == b - a,
        op == Builtin::Mul && i32::MIN <= b * a <= i32::MAX ==> binary_result(op, b, a) == b * a,
{
    let tokens = seq![tb, ta, top];
    let s0 = start(s, tokens);
    assert(s0.queue =~= tokens);
    let s1 = State { stack: s.stack.push(b), queue: seq![ta, top], output: Seq::empty(), ..s };
    assert(s0.queue.drop_first() =~= s1.queue);
    assert(step(s0) == crate::model::Step::Next(s1));
    let s2 = State { stack: s1.stack.push(a), queue: seq![top], ..s1 };
    assert(s1.queue.drop_first() =~= s2.queue);
    assert(step(s1) == crate::model::Step::Next(s2));
    let s3 = State { stack: s.stack.push(binary_result(op, b, a)), queue: Seq::empty(), ..s1 };
    assert(s2.queue.drop_first() =~= s3.queue);
    assert(s2.stack.drop_last() =~= s1.stack);
    assert(s1.stack.drop_last() =~= s.stack);
    assert(step(s2) == crate::model::Step::Next(s3));
    assert(step(s3) == crate::model::Step::Done);
    let f = STEP_LIMIT as nat;
    assert(run(s2, (f - 2) as nat) == run(s3, (f - 3) as nat));
    assert(run(s1, (f - 1) as nat) == run(s2, (f - 2) as nat));
    assert(run(s0, f) == run(s1, (f - 1) as nat));
}

/// A definition whose `;` is missing from the evaluated tokens fails with
/// `UnterminatedDefinition`, and leaves the dictionary and the stack as they were.
pub proof fn law_unterminated_definition(
    s: State,
    colon: Seq<char>,
    name: Seq<char>,
    body: Seq<Seq<char>>,
)
    requires
        s.queue.len() == 0,
        resolve_name(s.dict, colon) == Some(Binding::Native(Builtin::Colon)),
        forall|k: int| 0 <= k < body.len() ==> !is_semicolon(#[trigger] body[k]),
    ensures
        evaluation(s, seq![colon, name] + body) == (
            Err::<(), Fault>(Fault::UnterminatedDefinition),
            State { queue: Seq::empty(), output: Seq::empty(), ..s },
        ),
{
    let tokens = seq![colon, name] + body;
    let s0 = start(s, tokens);
    assert(s0.queue =~= tokens);
    assert(s0.queue.drop_first().drop_first() =~= body);
    lemma_first_delimiter_none(body, Delimiter::Semicolon);
}

/// An evaluation never leaves tokens pending, whether it succeeds or fails.
pub proof fn law_nothing_left_pending(s: State, fuel: nat)
    ensures
        run(s, fuel).1.queue.len() == 0,
    decreases fuel,
{
    match step(s) {
        crate::model::Step::Next(t) => if fuel > 0 {
            law_nothing_left_pending(t, (fuel - 1) as nat);
        },
        _ => {},
    }
}

/// What an evaluation does depends only on the dictionary and the stack that it
/// starts from and on its tokens: two idle states that agree on those give the
/// same result and the same state after.
pub proof fn law_no_hidden_state(s1: State, s2: State, tokens: Seq<Seq<char>>)
    requires
        s1.queue.len() == 0,
        s2.queue.len() == 0,
        s1.dict == s2.dict,
        s1.stack == s2.stack,
    ensures
        evaluation(s1, tokens) == evaluation(s2, tokens),
{
    assert(start(s1, tokens) =~= start(s2, tokens));
}

/// Invoking a procedure is evaluating its tokens in its place, resolved against
/// the dictionary as it is at that moment: a name that the procedure uses and
/// that was bound again since its definition runs with its new binding.
pub proof fn law_procedure_expands_in_place(
    s: State,
    p: Seq<char>,
    body: Seq<Seq<char>>,
    rest: Seq<Seq<char>>,
    fuel: nat,
)
    requires
        resolve_name(s.dict, p) == Some(Binding::Procedure(body)),
    ensures
        run(State { queue: seq![p] + rest, ..s }, fuel + 1) == run(
            State { queue: body + rest, ..s },
            fuel,
        ),
{
    let s0 = State { queue: seq![p] + rest, ..s };
    assert(s0.queue.drop_first() =~= rest);
    assert(s0.queue[0] == p);
}

/// The state after evaluating each of `calls` in turn, starting from `s`.
pub open spec fn replay(s: State, calls: Seq<Seq<Seq<char>>>) -> State
    decreases calls.len(),
{
    if calls.len() == 0 {
        s
    } else {
        replay(evaluation(s, calls[0]).1, calls.drop_first())
    }
}

/// A session of one or more evaluations ends in a state that is fully determined
/// by the dictionary and the stack it started from and by the calls made: two
/// idle states that agree on those end in the same state.
pub proof fn law_replay_determined(s1: State, s2: State, calls: Seq<Seq<Seq<char>>>)
    requires
        s1.queue.len() == 0,
        s2.queue.len() == 0,
        s1.dict == s2.dict,
        s1.stack == s2.stack,
        calls.len() > 0,
    ensures
        replay(s1, calls) == replay(s2, calls),
{
    law_no_hidden_state(s1, s2, calls[0]);
}

/// The state with `more` after its pending tokens.
pub open spec fn appended(s: State, more: Seq<Seq<char>>) -> State {
    State { queue: s.queue + more, ..s }
}

/// The state with `earlier` printed before its own printed values.
pub open spec fn prefixed(s: State, earlier: Seq<i32>) -> State {
    State { output: earlier + s.output, ..s }
}

proof fn lemma_first_delimiter_append(q: Seq<Seq<char>>, more: Seq<Seq<char>>, d: Delimiter, j: nat)
    requires
        first_delimiter(q, d) == Some(j),
    ensures
        first_delimiter(q + more, d) == Some(j),
{
    lemma_first_delimiter_found(q, d, j);
    let qm = q + more;
    assert forall|k: int| 0 <= k < j implies !is_delimiter(d, #[trigger] qm[k]) by {
        assert(qm[k] == q[k]);
    }
    assert(qm[j as int] == q[j as int]);
    lemma_first_delimiter_at(qm, d, j as int);
}

proof fn lemma_native_step_append(op: Builtin, r: State, t: State, more: Seq<Seq<char>>)
    requires
        native_step(op, r) == Step::Next(t),
    ensures
        native_step(op, appended(r, more)) == Step::Next(appended(t, more)),
{
    let ra = appended(r, more);
    match op {
        Builtin::Colon => {
            let tail = r.queue.drop_first();
            assert(ra.queue.drop_first() =~= tail + more);
            assert(ra.queue[0] == r.queue[0]);
            let j = first_delimiter(tail, Delimiter::Semicolon)->Some_0;
            lemma_first_delimiter_append(tail, more, Delimiter::Semicolon, j);
            lemma_first_delimiter_found(tail, Delimiter::Semicolon, j);
            assert((tail + more).take(j as int) =~= tail.take(j as int));
            assert((tail + more).skip(j + 1int) =~= tail.skip(j + 1int) + more);
        },
        Builtin::If => {
            let q = r.queue;
            let j = first_delimiter(q, Delimiter::Then)->Some_0;
            lemma_first_delimiter_append(q, more, Delimiter::Then, j);
            lemma_first_delimiter_found(q, Delimiter::Then, j);
            assert((q + more).take(j as int) =~= q.take(j as int));
            assert((q + more).skip(j + 1int) =~= q.skip(j + 1int) + more);
            let cond = r.stack.last() != 0;
            assert(branch_tokens_of(q, j, cond) + (q + more).skip(j + 1int) =~= (branch_tokens_of(
                q,
                j,
                cond,
            ) + q.skip(j + 1int)) + more);
        },
        _ => {},
    }
}

spec fn branch_tokens_of(q: Seq<Seq<char>>, j: nat, cond: bool) -> Seq<Seq<char>> {
    crate::model::branch_tokens(q.take(j as int), cond)
}

proof fn lemma_step_append(s: State, t: State, more: Seq<Seq<char>>)
    requires
        step(s) == Step::Next(t),
    ensures
        step(appended(s, more)) == Step::Next(appended(t, more)),
{
    let sa = appended(s, more);
    let r = State { queue: s.queue.drop_first(), ..s };
    assert(sa.queue.drop_first() =~= r.queue + more);
    assert(sa.queue[0] == s.queue[0]);
    assert(State { queue: sa.queue.drop_first(), ..sa } == appended(r, more));
    let name = s.queue[0];
    let w = resolve_name(s.dict, name)->Some_0;
    match w {
        Binding::Native(op) => lemma_native_step_append(op, r, t, more),
        Binding::Procedure(body) => {
            assert(body + (r.queue + more) =~= (body + r.queue) + more);
        },
        Binding::Literal(v) => {},
    }
}

proof fn lemma_step_prefix(s: State, earlier: Seq<i32>)
    ensures
        step(prefixed(s, earlier)) == match step(s) {
            Step::Done => Step::Done,
            Step::Fail(e, t) => Step::Fail(e, prefixed(t, earlier)),
            Step::Next(t) => Step::Next(prefixed(t, earlier)),
        },
{
    let sp = prefixed(s, earlier);
    if s.queue.len() > 0 {
        let r = State { queue: s.queue.drop_first(), ..s };
        assert(State { queue: sp.queue.drop_first(), ..sp } == prefixed(r, earlier));
        if s.stack.len() > 0 {
            assert(earlier + s.output.push(s.stack.last()) =~= (earlier + s.output).push(
                s.stack.last(),
            ));
        }
    }
}

proof fn lemma_run_prefix(s: State, earlier: Seq<i32>, fuel: nat)
    ensures
        run(prefixed(s, earlier), fuel) == (run(s, fuel).0, prefixed(run(s, fuel).1, earlier)),
    decreases fuel,
{
    lemma_step_prefix(s, earlier);
    match step(s) {
        Step::Next(t) => if fuel > 0 {
            lemma_run_prefix(t, earlier, (fuel - 1) as nat);
        },
        _ => {},
    }
}

proof fn lemma_run_more_fuel(s: State, fuel: nat, extra: nat)
    requires
        run(s, fuel).0 != Err::<(), Fault>(Fault::StepLimit),
    ensures
        run(s, fuel + extra) == run(s, fuel),
    decreases fuel,
{
    match step(s) {
        Step::Next(t) => {
            if fuel > 0 {
                lemma_run_more_fuel(t, (fuel - 1) as nat, extra);
                assert((fuel + extra - 1) as nat == (fuel - 1) as nat + extra);
            }
        },
        _ => {},
    }
}

proof fn lemma_run_append(s: State, more: Seq<Seq<char>>, fuel: nat, spare: nat) -> (left: nat)
    requires
        run(s, fuel).0 == Ok::<(), Fault>(()),
    ensures
        spare <= left <= fuel + spare,
        run(appended(s, more), fuel + spare) == run(appended(run(s, fuel).1, more), left),
    decreases fuel,
{
    match step(s) {
        Step::Next(t) => {
            lemma_step_append(s, t, more);
            let left = lemma_run_append(t, more, (fuel - 1) as nat, spare);
            assert((fuel + spare - 1) as nat == (fuel - 1) as nat + spare);
            left
        },
        _ => fuel + spare,
    }
}

/// Evaluating `first` and then, in a second call, `second` ends as evaluating
/// `first + second` in one call: with the result of the second call, the same
/// dictionary and stack, and the values printed by both calls together. It
/// holds when the first call succeeds and the joined call does not stop at the
/// step limit.
pub proof fn law_joined_evaluation(s: State, first: Seq<Seq<char>>, second: Seq<Seq<char>>)
    requires
        s.queue.len() == 0,
        evaluation(s, first).0 == Ok::<(), Fault>(()),
        evaluation(s, first + second).0 != Err::<(), Fault>(Fault::StepLimit),
    ensures
        evaluation(s, first + second) == ({
            let u = evaluation(s, first).1;
            let v = evaluation(u, second);
            (v.0, State { output: u.output + v.1.output, ..v.1 })
        }),
{
    let limit = STEP_LIMIT as nat;
    let s1 = start(s, first);
    let u = evaluation(s, first).1;
    law_nothing_left_pending(s1, limit);
    assert(start(s, first + second) =~= appended(s1, second));
    let left = lemma_run_append(s1, second, limit, 0);
    let s2 = start(u, second);
    assert(appended(u, second) =~= prefixed(s2, u.output));
    lemma_run_prefix(s2, u.output, left);
    lemma_run_more_fuel(s2, left, (limit - left) as nat);
}

} // verus!
