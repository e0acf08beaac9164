//! The runtime: dictionary, data stack and pending tokens, and the evaluator.
use std::collections::VecDeque;
use vstd::prelude::*;
use crate::model::{
    Binding, Builtin, Fault, STEP_LIMIT, State, Step, cleared, dispatch, evaluation, popped,
    resolve_name, run, start, step, token_step, with_standard_words,
};
use crate::stdlib::{
    register_stdlib, rt_forth_add, rt_forth_colon, rt_forth_div, rt_forth_drop, rt_forth_dup,
    rt_forth_eq, rt_forth_gt, rt_forth_if, rt_forth_invert, rt_forth_lt, rt_forth_mul,
    rt_forth_print, rt_forth_sub,
};
use crate::text::{lower_of, lowercase, parse_number, split_words, words_of};

verus! {

/// What a name is bound to.
pub enum Word {
    /// A word that the runtime implements itself.
    Native(Builtin),
    /// A colon definition: tokens that are resolved again each time it runs.
    Colon(Vec<String>),
    /// A number literal; it only ever lives for one evaluation step.
    Number(i32),
}

/// Why an evaluation failed.
#[derive(Clone, Debug, PartialEq, Eq)]
pub enum ForthError {
    /// A token that is neither a word of the dictionary nor a number.
    UndefinedWord(String),
    /// A word needed more values than the stack held.
    StackUnderflow,
    /// `:` found no name after it.
    EmptyName,
    /// `:` found no `;` after its name.
    UnterminatedDefinition,
    /// `if` found no `then` after it.
    UnterminatedConditional,
    /// `/` with a divisor of zero.
    DivideByZero,
    /// The evaluation took more than `STEP_LIMIT` successful steps.
    StepLimit,
}

/// One binding of the dictionary.
pub struct Entry {
    pub name: String,
    pub word: Word,
}

/// The tokens of a sequence of strings.
pub open spec fn tokens_view(v: Seq<String>) -> Seq<Seq<char>> {
    v.map_values(|w: String| w@)
}

impl View for Word {
    type V = Binding;

    open spec fn view(&self) -> Binding {
        match self {
            Word::Native(op) => Binding::Native(*op),
            Word::Colon(body) => Binding::Procedure(tokens_view(body@)),
            Word::Number(n) => Binding::Literal(*n),
        }
    }
}

impl View for ForthError {
    type V = Fault;

    open spec fn view(&self) -> Fault {
        match self {
            ForthError::UndefinedWord(name) => Fault::UndefinedWord(name@),
            ForthError::StackUnderflow => Fault::StackUnderflow,
            ForthError::EmptyName => Fault::EmptyName,
            ForthError::UnterminatedDefinition => Fault::UnterminatedDefinition,
            ForthError::UnterminatedConditional => Fault::UnterminatedConditional,
            ForthError::DivideByZero => Fault::DivideByZero,
            ForthError::StepLimit => Fault::StepLimit,
        }
    }
}

/// The result of an evaluation as a mathematical value.
pub open spec fn outcome_view(r: Result<(), ForthError>) -> Result<(), Fault> {
    match r {
        Ok(()) => Ok(()),
        Err(e) => Err(e@),
    }
}

/// The exec result `r` and state `after` are exactly what the step `st` gives.
pub open spec fn follows(st: Step, r: Result<(), Fault>, after: State) -> bool {
    match st {
        Step::Done => false,
        Step::Fail(e, t) => r == Err::<(), Fault>(e) && after == t,
        Step::Next(t) => r == Ok::<(), Fault>(()) && after == t,
    }
}

/// The dictionary that a list of entries stands for; a later entry wins.
pub open spec fn dict_of(entries: Seq<Entry>) -> Map<Seq<char>, Binding>
    decreases entries.len(),
{
    if entries.len() == 0 {
        Map::empty()
    } else {
        dict_of(entries.drop_last()).insert(entries.last().name@, entries.last().word@)
    }
}

/// No two entries have the same name.
pub open spec fn names_unique(entries: Seq<Entry>) -> bool {
    forall|i: int, j: int|
        0 <= i < entries.len() && 0 <= j < entries.len() && i != j ==> entries[i].name@
            != entries[j].name@
}

proof fn lemma_tokens_push(v: Seq<String>, x: String)
    ensures
        tokens_view(v.push(x)) == tokens_view(v).push(x@),
{
    assert(tokens_view(v.push(x)) =~= tokens_view(v).push(x@));
}

proof fn lemma_dict_of_entry(entries: Seq<Entry>, i: int)
    requires
        names_unique(entries),
        0 <= i < entries.len(),
    ensures
        dict_of(entries).contains_key(entries[i].name@),
        dict_of(entries)[entries[i].name@] == entries[i].word@,
    decreases entries.len(),
{
    if i < entries.len() - 1 {
        let p = entries.drop_last();
        assert(names_unique(p));
        lemma_dict_of_entry(p, i);
        assert(entries[i].name@ != entries.last().name@);
    }
}

proof fn lemma_dict_of_absent(entries: Seq<Entry>, k: Seq<char>)
    requires
        forall|i: int| 0 <= i < entries.len() ==> #[trigger] entries[i].name@ != k,
    ensures
        !dict_of(entries).contains_key(k),
    decreases entries.len(),
{
    if entries.len() > 0 {
        let p = entries.drop_last();
        assert forall|i: int| 0 <= i < p.len() implies #[trigger] p[i].name@ != k by {
            assert(p[i] == entries[i]);
        }
        lemma_dict_of_absent(p, k);
        assert(entries.last() == entries[entries.len() - 1]);
    }
}

proof fn lemma_dict_of_update(entries: Seq<Entry>, i: int, e: Entry)
    requires
        names_unique(entries),
        0 <= i < entries.len(),
        entries[i].name@ == e.name@,
    ensures
        names_unique(entries.update(i, e)),
        dict_of(entries.update(i, e)) == dict_of(entries).insert(e.name@, e.word@),
    decreases entries.len(),
{
    let u = entries.update(i, e);
    assert(names_unique(u)) by {
        assert forall|a: int, b: int|
            0 <= a < u.len() && 0 <= b < u.len() && a != b implies u[a].name@ != u[b].name@ by {
            assert(entries[a].name@ != entries[b].name@);
        }
    }
    let p = entries.drop_last();
    if i == entries.len() - 1 {
        assert(u.drop_last() =~= p);
    } else {
        assert(names_unique(p));
        lemma_dict_of_update(p, i, e);
        assert(u.drop_last() =~= p.update(i, e));
        assert(entries.last().name@ != e.name@);
        assert(dict_of(u) =~= dict_of(entries).insert(e.name@, e.word@));
    }
}

/// An interpreter session: a dictionary of words, a data stack of `i32`, and the
/// queue of tokens that the current evaluation has still to take.
pub struct Runtime {
    input: VecDeque<String>,
    dictionary: Vec<Entry>,
    stack: Vec<i32>,
    output: Vec<i32>,
}

impl View for Runtime {
    type V = State;

    closed spec fn view(&self) -> State {
        State {
            dict: dict_of(self.dictionary@),
            stack: self.stack@,
            queue: tokens_view(self.input@),
            output: self.output@,
        }
    }
}

impl Runtime {
    /// The dictionary holds each name once.
    pub closed spec fn dict_ok(&self) -> bool {
        names_unique(self.dictionary@)
    }

    /// Well formed, and between two evaluations: no token is pending.
    pub open spec fn wf(&self) -> bool {
        self.dict_ok() && self@.queue.len() == 0
    }
}

impl Word {
    /// A copy of the binding that shares nothing with it.
    pub fn duplicate(&self) -> (r: Word)
        ensures
            r@ == self@,
    {
        match self {
            Word::Native(op) => Word::Native(*op),
            Word::Colon(body) => {
                let mut copy: Vec<String> = Vec::new();
                let mut i: usize = 0;
                while i < body.len()
                    invariant
                        i <= body.len(),
                        tokens_view(copy@) == tokens_view(body@).take(i as int),
                    decreases body.len() - i,
                {
                    let ghost before = copy@;
                    copy.push(body[i].clone());
                    proof {
                        lemma_tokens_push(before, body@[i as int]);
                        assert(tokens_view(body@).take(i + 1) =~= tokens_view(body@).take(
                            i as int,
                        ).push(body@[i as int]@));
                    }
                    i = i + 1;
                }
                assert(tokens_view(body@).take(i as int) =~= tokens_view(body@));
                Word::Colon(copy)
            },
            Word::Number(n) => Word::Number(*n),
        }
    }
}

impl Runtime {
    /// Puts each of `names` at the back of the pending tokens, in order.
    pub(crate) fn append_input(&mut self, names: Vec<String>)
        ensures
            final(self)@ == (State { queue: old(self)@.queue + tokens_view(names@), ..old(self)@ }),
            old(self).dict_ok() ==> final(self).dict_ok(),
    {
        let mut i: usize = 0;
        while i < names.len()
            invariant
                i <= names.len(),
                self@ == (State { queue: old(self)@.queue + tokens_view(names@).take(i as int), ..old(self)@ }),
                self.dictionary@ == old(self).dictionary@,
            decreases names.len() - i,
        {
            let ghost before = self.input@;
            self.input.push_back(names[i].clone());
            proof {
                lemma_tokens_push(before, names@[i as int]);
                assert(tokens_view(names@).take(i + 1) =~= tokens_view(names@).take(i as int).push(
                    names@[i as int]@,
                ));
            }
            i = i + 1;
        }
        assert(tokens_view(names@).take(i as int) =~= tokens_view(names@));
    }

    /// Puts `names` in front of the pending tokens, so that `names[0]` is taken next.
    pub(crate) fn prepend_names(&mut self, names: &Vec<String>)
        ensures
            final(self)@ == (State { queue: tokens_view(names@) + old(self)@.queue, ..old(self)@ }),
            old(self).dict_ok() ==> final(self).dict_ok(),
    {
        let mut i: usize = names.len();
        while i > 0
            invariant
                i <= names.len(),
                self@ == (State { queue: tokens_view(names@).skip(i as int) + old(self)@.queue, ..old(self)@ }),
                self.dictionary@ == old(self).dictionary@,
            decreases i,
        {
            i = i - 1;
            let ghost before = self.input@;
            self.input.push_front(names[i].clone());
            proof {
                assert(tokens_view(self.input@) =~= seq![names@[i as int]@] + tokens_view(before));
                assert(tokens_view(names@).skip(i as int) =~= seq![names@[i as int]@] + tokens_view(
                    names@,
                ).skip(i + 1));
                assert(tokens_view(self.input@) =~= tokens_view(names@).skip(i as int) + old(
                    self,
                )@.queue);
            }
        }
        assert(tokens_view(names@).skip(0) =~= tokens_view(names@));
    }

    /// Takes the next pending token, if any.
    pub(crate) fn parse(&mut self) -> (r: Option<String>)
        ensures
            old(self)@.queue.len() == 0 ==> r is None && final(self)@ == old(self)@,
            old(self)@.queue.len() > 0 ==> r is Some && r->Some_0@ == old(self)@.queue[0]
                && final(self)@ == (State { queue: old(self)@.queue.drop_first(), ..old(self)@ }),
            old(self).dict_ok() ==> final(self).dict_ok(),
    {
        let r = self.input.pop_front();
        proof {
            if old(self)@.queue.len() > 0 {
                assert(tokens_view(self.input@) =~= old(self)@.queue.drop_first());
            }
        }
        r
    }

    /// Drops every pending token.
    pub(crate) fn clear_input(&mut self)
        ensures
            final(self)@ == cleared(old(self)@),
            old(self).dict_ok() ==> final(self).dict_ok(),
    {
        self.input.clear();
        assert(tokens_view(self.input@) =~= Seq::<Seq<char>>::empty());
    }

    /// Takes the value on top of the stack, if any.
    pub(crate) fn pop(&mut self) -> (r: Option<i32>)
        ensures
            old(self)@.stack.len() == 0 ==> r is None && final(self)@ == old(self)@,
            old(self)@.stack.len() > 0 ==> r == Some(old(self)@.stack.last())
                && final(self)@ == popped(old(self)@),
            old(self).dict_ok() ==> final(self).dict_ok(),
    {
        self.stack.pop()
    }

    /// Puts `value` on top of the stack.
    pub(crate) fn push(&mut self, value: i32)
        ensures
            final(self)@ == (State { stack: old(self)@.stack.push(value), ..old(self)@ }),
            old(self).dict_ok() ==> final(self).dict_ok(),
    {
        self.stack.push(value)
    }

    /// Records `value` as printed.
    pub(crate) fn print(&mut self, value: i32)
        ensures
            final(self)@ == (State { output: old(self)@.output.push(value), ..old(self)@ }),
            old(self).dict_ok() ==> final(self).dict_ok(),
    {
        self.output.push(value)
    }

    /// Binds the lower-cased `name` to `word`, replacing any earlier binding of it.
    /// A number literal is never bound.
    pub fn register(&mut self, name: &str, word: Word)
        requires
            old(self).dict_ok(),
            !(word is Number),
        ensures
            final(self).dict_ok(),
            final(self)@ == (State {
                dict: old(self)@.dict.insert(lower_of(name@), word@),
                ..old(self)@
            }),
    {
        let key = lowercase(name);
        let mut i: usize = 0;
        while i < self.dictionary.len()
            invariant
                *self == *old(self),
                self.dict_ok(),
                i <= self.dictionary.len(),
                key@ == lower_of(name@),
                forall|k: int| 0 <= k < i ==> #[trigger] self.dictionary@[k].name@ != key@,
            decreases self.dictionary.len() - i,
        {
            if self.dictionary[i].name == key {
                let entry = Entry { name: key, word };
                proof {
                    lemma_dict_of_update(self.dictionary@, i as int, entry);
                }
                self.dictionary.set(i, entry);
                return;
            }
            i = i + 1;
        }
        let entry = Entry { name: key, word };
        let ghost before = self.dictionary@;
        self.dictionary.push(entry);
        proof {
            assert(self.dictionary@.drop_last() =~= before);
            assert(names_unique(self.dictionary@)) by {
                assert forall|a: int, b: int|
                    0 <= a < self.dictionary@.len() && 0 <= b < self.dictionary@.len() && a != b
                    implies self.dictionary@[a].name@ != self.dictionary@[b].name@ by {
                    if a < before.len() && b < before.len() {
                        assert(before[a] == self.dictionary@[a]);
                        assert(before[b] == self.dictionary@[b]);
                    } else if a < before.len() {
                        assert(before[a] == self.dictionary@[a]);
                    } else {
                        assert(before[b] == self.dictionary@[b]);
                    }
                }
            }
        }
    }

    /// Looks `name` up in the dictionary, in lower case, and otherwise reads it
    /// as a number literal.
    pub(crate) fn resolve(&self, name: &String) -> (r: Result<Word, ForthError>)
        requires
            self.dict_ok(),
        ensures
            match resolve_name(self@.dict, name@) {
                Some(w) => r is Ok && r->Ok_0@ == w,
                None => r is Err && r->Err_0@ == Fault::UndefinedWord(name@),
            },
    {
        let key = lowercase(name.as_str());
        let mut i: usize = 0;
        while i < self.dictionary.len()
            invariant
                self.dict_ok(),
                i <= self.dictionary.len(),
                key@ == lower_of(name@),
                forall|k: int| 0 <= k < i ==> #[trigger] self.dictionary@[k].name@ != key@,
            decreases self.dictionary.len() - i,
        {
            if self.dictionary[i].name == key {
                proof {
                    lemma_dict_of_entry(self.dictionary@, i as int);
                }
                return Ok(self.dictionary[i].word.duplicate());
            }
            i = i + 1;
        }
        proof {
            lemma_dict_of_absent(self.dictionary@, key@);
        }
        match parse_number(name.as_str()) {
            Some(n) => Ok(Word::Number(n)),
            None => Err(ForthError::UndefinedWord(name.clone())),
        }
    }
}

impl Runtime {
    /// A runtime with the standard words, an empty stack, and nothing pending or printed.
    pub fn new() -> (r: Runtime)
        ensures
            r.wf(),
            r@ == (State {
                dict: with_standard_words(Map::empty()),
                stack: Seq::empty(),
                queue: Seq::empty(),
                output: Seq::empty(),
            }),
    {
        let mut forth = Runtime {
            input: VecDeque::new(),
            dictionary: Vec::new(),
            stack: Vec::new(),
            output: Vec::new(),
        };
        proof {
            assert(tokens_view(forth.input@) =~= Seq::<Seq<char>>::empty());
        }
        register_stdlib(&mut forth);
        forth
    }

    /// Evaluates `source`: its whitespace-separated tokens, in order.
    pub fn eval(&mut self, source: &str) -> (r: Result<(), ForthError>)
        requires
            old(self).wf(),
        ensures
            final(self).wf(),
            (outcome_view(r), final(self)@) == evaluation(old(self)@, words_of(source@)),
    {
        let names = split_words(source);
        self.eval_tokens(names)
    }

    /// Evaluates `tokens` in order, until none is left or a word fails. On a failure
    /// the tokens not yet evaluated are discarded; what the failing word and those
    /// before it did to the dictionary and the stack stays. The values printed
    /// are those of this evaluation alone.
    pub fn eval_tokens(&mut self, tokens: Vec<String>) -> (r: Result<(), ForthError>)
        requires
            old(self).wf(),
        ensures
            final(self).wf(),
            (outcome_view(r), final(self)@) == evaluation(old(self)@, tokens_view(tokens@)),
    {
        self.output = Vec::new();
        self.append_input(tokens);
        let ghost first = self@;
        assert(first == start(old(self)@, tokens_view(tokens@)));
        let mut fuel: u64 = STEP_LIMIT;
        loop
            invariant
                self.dict_ok(),
                first == start(old(self)@, tokens_view(tokens@)),
                run(self@, fuel as nat) == run(first, STEP_LIMIT as nat),
            decreases fuel,
        {
            let ghost current = self@;
            match self.parse() {
                None => {
                    return Ok(());
                },
                Some(name) => {
                    let ghost taken = self@;
                    assert(step(current) == token_step(taken, name@));
                    let result = self.eval_name(&name);
                    if let Err(e) = result {
                        self.clear_input();
                        return Err(e);
                    }
                    if fuel == 0 {
                        self.clear_input();
                        return Err(ForthError::StepLimit);
                    }
                    fuel = fuel - 1;
                },
            }
        }
    }

    /// Evaluates one token, already taken from the pending ones.
    fn eval_name(&mut self, name: &String) -> (r: Result<(), ForthError>)
        requires
            old(self).dict_ok(),
        ensures
            final(self).dict_ok(),
            follows(token_step(old(self)@, name@), outcome_view(r), final(self)@),
    {
        match self.resolve(name) {
            Ok(word) => self.eval_word(word),
            Err(e) => Err(e),
        }
    }

    /// Evaluates a binding: a native word acts on the runtime, a procedure puts
    /// its tokens in front of the pending ones, a number is pushed.
    fn eval_word(&mut self, word: Word) -> (r: Result<(), ForthError>)
        requires
            old(self).dict_ok(),
        ensures
            final(self).dict_ok(),
            follows(dispatch(old(self)@, word@), outcome_view(r), final(self)@),
    {
        match word {
            Word::Native(op) => match op {
                Builtin::Print => rt_forth_print(self),
                Builtin::Add => rt_forth_add(self),
                Builtin::Sub => rt_forth_sub(self),
                Builtin::Mul => rt_forth_mul(self),
                Builtin::Div => rt_forth_div(self),
                Builtin::Equal => rt_forth_eq(self),
                Builtin::Greater => rt_forth_gt(self),
                Builtin::Less => rt_forth_lt(self),
                Builtin::Invert => rt_forth_invert(self),
                Builtin::Dup => rt_forth_dup(self),
                Builtin::Drop => rt_forth_drop(self),
                Builtin::Colon => rt_forth_colon(self),
                Builtin::If => rt_forth_if(self),
            },
            Word::Colon(definition) => {
                self.prepend_names(&definition);
                Ok(())
            },
            Word::Number(num) => {
                self.push(num);
                Ok(())
            },
        }
    }

    /// The data stack, bottom first.
    pub fn stack(&self) -> (r: &[i32])
        ensures
            r@ == self@.stack,
    {
        self.stack.as_slice()
    }

    /// The values printed by the latest evaluation, in order.
    pub fn output(&self) -> (r: &[i32])
        ensures
            r@ == self@.output,
    {
        self.output.as_slice()
    }
}

} // verus!
