//! The meaning of evaluation: one step at a time over a mathematical state.
use vstd::prelude::*;
use crate::text::{lower_of, literal_of};

verus! {

/// The words that the runtime implements itself.
#[derive(Clone, Copy, Debug, PartialEq, Eq, Structural)]
pub enum Builtin {
    Print,
    Add,
    Sub,
    Mul,
    Div,
    Equal,
    Greater,
    Less,
    Invert,
    Dup,
    Drop,
    Colon,
    If,
}

/// What a name is bound to, as a mathematical value.
pub enum Binding {
    Native(Builtin),
    Procedure(Seq<Seq<char>>),
    Literal(i32),
}

/// Why an evaluation stopped, as a mathematical value.
pub enum Fault {
    UndefinedWord(Seq<char>),
    StackUnderflow,
    EmptyName,
    UnterminatedDefinition,
    UnterminatedConditional,
    DivideByZero,
    StepLimit,
}

/// The whole state of a runtime: its dictionary, its data stack (top last),
/// the tokens waiting to be evaluated (next first), and the values printed
/// by the current evaluation.
pub struct State {
    pub dict: Map<Seq<char>, Binding>,
    pub stack: Seq<i32>,
    pub queue: Seq<Seq<char>>,
    pub output: Seq<i32>,
}

/// The outcome of one evaluation step.
pub enum Step {
    /// No token is left.
    Done,
    /// The step failed; the state is what the failing word left behind.
    Fail(Fault, State),
    /// The step succeeded and evaluation goes on from this state.
    Next(State),
}

/// The state with no pending token left.
pub open spec fn cleared(s: State) -> State {
    State { queue: Seq::empty(), ..s }
}

/// The token that ends a definition; it is matched exactly.
pub open spec fn is_semicolon(w: Seq<char>) -> bool {
    w == ";"@
}

/// The token that ends a conditional, in any case.
pub open spec fn is_then(w: Seq<char>) -> bool {
    lower_of(w) == "then"@
}

/// The token that switches a conditional to its alternative, in any case.
pub open spec fn is_else(w: Seq<char>) -> bool {
    lower_of(w) == "else"@
}

/// A token that ends what `:` or `if` reads.
pub enum Delimiter {
    Semicolon,
    Then,
}

/// Whether `w` is the delimiter `d`.
pub open spec fn is_delimiter(d: Delimiter, w: Seq<char>) -> bool {
    match d {
        Delimiter::Semicolon => is_semicolon(w),
        Delimiter::Then => is_then(w),
    }
}

/// The index of the first delimiter `d` in `q`.
pub open spec fn first_delimiter(q: Seq<Seq<char>>, d: Delimiter) -> Option<nat>
    decreases q.len(),
{
    if q.len() == 0 {
        None
    } else if is_delimiter(d, q[0]) {
        Some(0)
    } else {
        match first_delimiter(q.drop_first(), d) {
            Some(j) => Some(j + 1),
            None => None,
        }
    }
}

/// The first delimiter is at `i` when it is there and none comes before it.
pub proof fn lemma_first_delimiter_at(q: Seq<Seq<char>>, d: Delimiter, i: int)
    requires
        0 <= i < q.len(),
        is_delimiter(d, q[i]),
        forall|k: int| 0 <= k < i ==> !is_delimiter(d, #[trigger] q[k]),
    ensures
        first_delimiter(q, d) == Some(i as nat),
    decreases i,
{
    if i > 0 {
        let t = q.drop_first();
        assert(!is_delimiter(d, q[0]));
        assert forall|k: int| 0 <= k < i - 1 implies !is_delimiter(d, #[trigger] t[k]) by {
            assert(t[k] == q[k + 1]);
        }
        lemma_first_delimiter_at(t, d, i - 1);
    }
}

/// What a first delimiter at `j` means: it is there, and none comes before it.
pub proof fn lemma_first_delimiter_found(q: Seq<Seq<char>>, d: Delimiter, j: nat)
    requires
        first_delimiter(q, d) == Some(j),
    ensures
        j < q.len(),
        is_delimiter(d, q[j as int]),
        forall|k: int| 0 <= k < j ==> !is_delimiter(d, #[trigger] q[k]),
    decreases q.len(),
{
    if !is_delimiter(d, q[0]) {
        let t = q.drop_first();
        lemma_first_delimiter_found(t, d, (j - 1) as nat);
        assert forall|k: int| 0 <= k < j implies !is_delimiter(d, #[trigger] q[k]) by {
            if k > 0 {
                assert(q[k] == t[k - 1]);
            }
        }
    }
}

/// There is no first delimiter when none is there.
pub proof fn lemma_first_delimiter_none(q: Seq<Seq<char>>, d: Delimiter)
    requires
        forall|k: int| 0 <= k < q.len() ==> !is_delimiter(d, #[trigger] q[k]),
    ensures
        first_delimiter(q, d) is None,
    decreases q.len(),
{
    if q.len() > 0 {
        let t = q.drop_first();
        assert(!is_delimiter(d, q[0]));
        assert forall|k: int| 0 <= k < t.len() implies !is_delimiter(d, #[trigger] t[k]) by {
            assert(t[k] == q[k + 1]);
        }
        lemma_first_delimiter_none(t, d);
    }
}

/// Whether the scan of a conditional body is in the consequent after the
/// tokens `ws`: each `else` switches between consequent and alternative.
pub open spec fn in_consequent_after(ws: Seq<Seq<char>>) -> bool
    decreases ws.len(),
{
    if ws.len() == 0 {
        true
    } else if is_else(ws.last()) {
        !in_consequent_after(ws.drop_last())
    } else {
        in_consequent_after(ws.drop_last())
    }
}

/// The tokens of the conditional body `ws` that run when the condition is `cond`:
/// those of the consequent when it holds, those of the alternative when not.
pub open spec fn branch_tokens(ws: Seq<Seq<char>>, cond: bool) -> Seq<Seq<char>>
    decreases ws.len(),
{
    if ws.len() == 0 {
        Seq::empty()
    } else if is_else(ws.last()) || in_consequent_after(ws.drop_last()) != cond {
        branch_tokens(ws.drop_last(), cond)
    } else {
        branch_tokens(ws.drop_last(), cond).push(ws.last())
    }
}

/// What `name` means under `dict`: its binding, else the number it writes.
pub open spec fn resolve_name(dict: Map<Seq<char>, Binding>, name: Seq<char>) -> Option<Binding> {
    if dict.contains_key(lower_of(name)) {
        Some(dict[lower_of(name)])
    } else {
        match literal_of(name) {
            Some(v) => Some(Binding::Literal(v)),
            None => None,
        }
    }
}

/// Two's complement quotient rounded toward zero; the one overflowing case,
/// `i32::MIN / -1`, wraps to `i32::MIN`. The divisor is not zero.
pub open spec fn wrapping_quotient(b: i32, a: i32) -> i32 {
    match i32::checked_div(b, a) {
        Some(q) => q,
        None => i32::MIN,
    }
}

/// The result of a two-operand word on `b` (pushed first) and `a` (pushed second):
/// two's complement arithmetic, and 1 or 0 for a comparison that holds or not.
pub open spec fn binary_result(op: Builtin, b: i32, a: i32) -> i32 {
    match op {
        Builtin::Add => b.wrapping_add(a),
        Builtin::Sub => b.wrapping_sub(a),
        Builtin::Mul => b.wrapping_mul(a),
        Builtin::Div => wrapping_quotient(b, a),
        Builtin::Equal => if b == a { 1 } else { 0 },
        Builtin::Greater => if b > a { 1 } else { 0 },
        Builtin::Less => if b < a { 1 } else { 0 },
        _ => 0,
    }
}

/// The words that pop two operands and push one result.
pub open spec fn is_binary(op: Builtin) -> bool {
    match op {
        Builtin::Add | Builtin::Sub | Builtin::Mul | Builtin::Div | Builtin::Equal
        | Builtin::Greater | Builtin::Less => true,
        _ => false,
    }
}

/// The state with the top of the stack taken off.
pub open spec fn popped(s: State) -> State {
    State { stack: s.stack.drop_last(), ..s }
}

/// A two-operand word. An operand popped before the stack ran out is not put back.
pub open spec fn binary_step(op: Builtin, s: State) -> Step {
    if s.stack.len() == 0 {
        Step::Fail(Fault::StackUnderflow, s)
    } else if s.stack.len() == 1 {
        Step::Fail(Fault::StackUnderflow, popped(s))
    } else {
        let a = s.stack.last();
        let b = s.stack.drop_last().last();
        let rest = popped(popped(s));
        if op == Builtin::Div && a == 0 {
            Step::Fail(Fault::DivideByZero, rest)
        } else {
            Step::Next(State { stack: rest.stack.push(binary_result(op, b, a)), ..rest })
        }
    }
}

/// `:` — reads a name and the tokens up to the first `;`, and binds the
/// lower-cased name to a procedure of those tokens.
pub open spec fn colon_step(s: State) -> Step {
    if s.queue.len() == 0 {
        Step::Fail(Fault::EmptyName, s)
    } else {
        let name = s.queue[0];
        let tail = s.queue.drop_first();
        match first_delimiter(tail, Delimiter::Semicolon) {
            None => Step::Fail(Fault::UnterminatedDefinition, cleared(s)),
            Some(j) => Step::Next(
                State {
                    dict: s.dict.insert(lower_of(name), Binding::Procedure(tail.take(j as int))),
                    queue: tail.skip(j + 1int),
                    ..s
                },
            ),
        }
    }
}

/// `if` — pops the condition, reads the tokens up to the first `then`, and puts
/// the ones of the branch taken in front of the pending tokens.
pub open spec fn if_step(s: State) -> Step {
    if s.stack.len() == 0 {
        Step::Fail(Fault::StackUnderflow, s)
    } else {
        let cond = s.stack.last() != 0;
        let t = popped(s);
        match first_delimiter(t.queue, Delimiter::Then) {
            None => Step::Fail(Fault::UnterminatedConditional, cleared(t)),
            Some(j) => Step::Next(
                State {
                    queue: branch_tokens(t.queue.take(j as int), cond) + t.queue.skip(j + 1int),
                    ..t
                },
            ),
        }
    }
}

/// What a word of the runtime's own does to the state.
pub open spec fn native_step(op: Builtin, s: State) -> Step {
    match op {
        Builtin::Print => if s.stack.len() == 0 {
            Step::Fail(Fault::StackUnderflow, s)
        } else {
            Step::Next(State { output: s.output.push(s.stack.last()), ..popped(s) })
        },
        Builtin::Invert => if s.stack.len() == 0 {
            Step::Fail(Fault::StackUnderflow, s)
        } else {
            let v: i32 = if s.stack.last() == 0 { 1 } else { 0 };
            Step::Next(State { stack: s.stack.drop_last().push(v), ..s })
        },
        Builtin::Dup => if s.stack.len() == 0 {
            Step::Fail(Fault::StackUnderflow, s)
        } else {
            Step::Next(State { stack: s.stack.push(s.stack.last()), ..s })
        },
        Builtin::Drop => if s.stack.len() == 0 {
            Step::Fail(Fault::StackUnderflow, s)
        } else {
            Step::Next(popped(s))
        },
        Builtin::Colon => colon_step(s),
        Builtin::If => if_step(s),
        _ => binary_step(op, s),
    }
}

/// Evaluating a binding: a native word acts, a procedure puts its tokens in front
/// of the pending ones, a literal is pushed.
pub open spec fn dispatch(s: State, w: Binding) -> Step {
    match w {
        Binding::Native(op) => native_step(op, s),
        Binding::Procedure(body) => Step::Next(State { queue: body + s.queue, ..s }),
        Binding::Literal(v) => Step::Next(State { stack: s.stack.push(v), ..s }),
    }
}

/// Evaluating the token `name`, already taken from the front of `s.queue`.
pub open spec fn token_step(s: State, name: Seq<char>) -> Step {
    match resolve_name(s.dict, name) {
        None => Step::Fail(Fault::UndefinedWord(name), s),
        Some(w) => dispatch(s, w),
    }
}

/// One evaluation step: take the next token and evaluate it.
pub open spec fn step(s: State) -> Step {
    if s.queue.len() == 0 {
        Step::Done
    } else {
        token_step(State { queue: s.queue.drop_first(), ..s }, s.queue[0])
    }
}

/// Evaluation from `s` until no token is left or a step fails; a failure discards
/// the pending tokens. After `fuel` successful steps, the next successful step
/// stops the evaluation with `StepLimit`.
pub open spec fn run(s: State, fuel: nat) -> (Result<(), Fault>, State)
    decreases fuel,
{
    match step(s) {
        Step::Done => (Ok(()), s),
        Step::Fail(e, t) => (Err(e), cleared(t)),
        Step::Next(t) => if fuel == 0 {
            (Err(Fault::StepLimit), cleared(t))
        } else {
            run(t, (fuel - 1) as nat)
        },
    }
}

/// How many successful steps one evaluation may take; one more stops it with
/// `StepLimit`. Every loop here must be shown to end, so an evaluation that would
/// run forever (a procedure that calls itself without end) stops there instead.
pub const STEP_LIMIT: u64 = 0xffff_ffff_ffff_ffff;

/// The state in which an evaluation of `tokens` starts from `s`: nothing printed yet.
pub open spec fn start(s: State, tokens: Seq<Seq<char>>) -> State {
    State { queue: s.queue + tokens, output: Seq::empty(), ..s }
}

/// The result of evaluating `tokens` from `s`, and the state it leaves.
pub open spec fn evaluation(s: State, tokens: Seq<Seq<char>>) -> (Result<(), Fault>, State) {
    run(start(s, tokens), STEP_LIMIT as nat)
}

/// `dict` with the runtime's own words bound under their lower-cased names.
pub open spec fn with_standard_words(dict: Map<Seq<char>, Binding>) -> Map<Seq<char>, Binding> {
    dict.insert(lower_of("."@), Binding::Native(Builtin::Print))
        .insert(lower_of("+"@), Binding::Native(Builtin::Add))
        .insert(lower_of("-"@), Binding::Native(Builtin::Sub))
        .insert(lower_of("*"@), Binding::Native(Builtin::Mul))
        .insert(lower_of("/"@), Binding::Native(Builtin::Div))
        .insert(lower_of("="@), Binding::Native(Builtin::Equal))
        .insert(lower_of(">"@), Binding::Native(Builtin::Greater))
        .insert(lower_of("<"@), Binding::Native(Builtin::Less))
        .insert(lower_of("invert"@), Binding::Native(Builtin::Invert))
        .insert(lower_of("dup"@), Binding::Native(Builtin::Dup))
        .insert(lower_of("drop"@), Binding::Native(Builtin::Drop))
        .insert(lower_of(":"@), Binding::Native(Builtin::Colon))
        .insert(lower_of("if"@), Binding::Native(Builtin::If))
}

} // verus!
