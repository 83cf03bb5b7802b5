//! Running a tree of fixtures: which fixtures go to the program together,
//! in what order, and where the run stops.
use crate::base::runner::{Listener, Runner};
use crate::base::tests_supply::{shows, shows_test, Test, TestsNode, TestsSupplier};
use rand::rngs::SmallRng;
use std::fmt::Display;
use vstd::prelude::*;
use vstd::slice::slice_subrange;
use vstd::std_specs::cmp::PartialEqSpec;
use vstd::string::*;

verus! {

/// How many fixtures go to the program in one run, at most.
pub const BATCH: usize = 10;

/// A fixture that the program answered wrongly, with its answer.
pub struct FailedTest<Input, Output> {
    pub test: Test<Input, Output>,
    pub answer: Output,
}

/// How a batch ended: every answer was right, or one was wrong, or the
/// run itself failed.
pub type Outcome<Input, Output> = Result<Option<FailedTest<Input, Output>>, String>;

/// How a wrong answer is shown, given how its three parts are.
pub open spec fn failed_text(input: Seq<char>, expected: Seq<char>, actual: Seq<char>) -> Seq<
    char,
> {
    "Input:\n"@ + input + "\nExpected:\n"@ + expected + "\nActual:\n"@ + actual
}

impl<Input: Display, Output: Display> FailedTest<Input, Output> {
    /// The wrong answer for the operator to read: what the program was
    /// given, what it owed, what it said.
    pub fn to_string(&self) -> (text: String)
        ensures
            exists|input: Seq<char>, expected: Seq<char>, actual: Seq<char>|
                shows(self.test.input, input) && shows(self.test.output, expected) && shows(
                    self.answer,
                    actual,
                ) && text@ == #[trigger] failed_text(input, expected, actual),
    {
        let input: String = self.test.input.to_string();
        let expected: String = self.test.output.to_string();
        let actual: String = self.answer.to_string();
        let mut text: String = "Input:\n".to_owned();
        text.append(input.as_str());
        text.append("\nExpected:\n");
        text.append(expected.as_str());
        text.append("\nActual:\n");
        text.append(actual.as_str());
        proof {
            assert(shows(self.test.input, input@));
            assert(shows(self.test.output, expected@));
            assert(shows(self.answer, actual@));
            assert(text@ =~= failed_text(input@, expected@, actual@));
        }
        text
    }
}

/// The number of batches that `len` fixtures make.
pub open spec fn batch_count(len: int) -> int {
    (len + 9) / 10
}

/// Batch `k` of `tests`: ten fixtures from the one of index `10 * k`, or
/// as many as are left.
pub open spec fn batch<T>(tests: Seq<T>, k: int) -> Seq<T> {
    tests.subrange(
        10 * k,
        if 10 * k + 10 <= tests.len() {
            10 * k + 10
        } else {
            tests.len() as int
        },
    )
}

/// The batches of `tests`, in order.
pub open spec fn batches<T>(tests: Seq<T>) -> Seq<Seq<T>> {
    Seq::new(batch_count(tests.len() as int) as nat, |k: int| batch(tests, k))
}

/// The batches of a tree in the order they run: those of the node, then
/// those of each group below it, depth first.
pub open spec fn plan<I, O>(node: TestsNode<I, O>) -> Seq<Seq<Test<I, O>>>
    decreases node,
{
    batches(node.tests@) + plans(node.children@)
}

/// The batches of the trees of `nodes`, one tree after the other.
pub open spec fn plans<I, O>(nodes: Seq<TestsNode<I, O>>) -> Seq<Seq<Test<I, O>>>
    decreases nodes,
{
    if nodes.len() == 0 {
        Seq::empty()
    } else {
        plans(nodes.drop_last()) + plan(nodes.last())
    }
}

/// `run` was called on `batch` and gave `outcome`.
pub open spec fn ran<I, O, F: Fn(&[Test<I, O>]) -> Outcome<I, O>>(
    run: &F,
    batch: Seq<Test<I, O>>,
    outcome: Outcome<I, O>,
) -> bool {
    exists|s: &[Test<I, O>]| s@ == batch && #[trigger] call_ensures(run, (s,), outcome)
}

/// The first `upto` batches of `p` ran and every answer was right.
pub open spec fn all_passed<I, O, F: Fn(&[Test<I, O>]) -> Outcome<I, O>>(
    run: &F,
    p: Seq<Seq<Test<I, O>>>,
    upto: int,
) -> bool {
    forall|k: int| 0 <= k < upto ==> ran(run, #[trigger] p[k], Ok(None))
}

/// `outcome` is how the walk over the batches `p` ended: with no wrong
/// answer if every batch ran and passed, and else as the first batch that
/// did not pass ended, the batches before it having passed and none after
/// it having run.
pub open spec fn walked<I, O, F: Fn(&[Test<I, O>]) -> Outcome<I, O>>(
    run: &F,
    p: Seq<Seq<Test<I, O>>>,
    outcome: Outcome<I, O>,
) -> bool {
    if outcome matches Ok(None) {
        all_passed(run, p, p.len() as int)
    } else {
        exists|k: int|
            0 <= k < p.len() && ran(run, #[trigger] p[k], outcome) && all_passed(run, p, k)
    }
}

/// Every batch holds at least one fixture and at most ten, and the
/// batches, put end to end, are the fixtures.
pub proof fn lemma_batches<T>(tests: Seq<T>)
    ensures
        forall|k: int|
            0 <= k < batches(tests).len() ==> 0 < (#[trigger] batches(tests)[k]).len() <= 10,
        forall|k: int|
            0 <= k < batches(tests).len() - 1 ==> (#[trigger] batches(tests)[k]).len() == 10,
        forall|i: int|
            0 <= i < tests.len() ==> i / 10 < batches(tests).len() && #[trigger] batches(
                tests,
            )[i / 10][i % 10] == tests[i],
{
}

proof fn lemma_walked_after_passed<I, O, F: Fn(&[Test<I, O>]) -> Outcome<I, O>>(
    run: &F,
    p: Seq<Seq<Test<I, O>>>,
    q: Seq<Seq<Test<I, O>>>,
    outcome: Outcome<I, O>,
)
    requires
        all_passed(run, p, p.len() as int),
        walked(run, q, outcome),
    ensures
        walked(run, p + q, outcome),
{
    let pq = p + q;
    assert forall|k: int| 0 <= k < p.len() implies ran(run, #[trigger] pq[k], Ok(None)) by {
        assert(pq[k] == p[k]);
    }
    if outcome matches Ok(None) {
        assert forall|k: int| 0 <= k < pq.len() implies ran(run, #[trigger] pq[k], Ok(None)) by {
            if k >= p.len() {
                assert(pq[k] == q[k - p.len()]);
            }
        }
    } else {
        let k = choose|k: int|
            0 <= k < q.len() && ran(run, #[trigger] q[k], outcome) && all_passed(run, q, k);
        let m = p.len() + k;
        assert(pq[m] == q[k]);
        assert forall|j: int| 0 <= j < m implies ran(run, #[trigger] pq[j], Ok(None)) by {
            if j >= p.len() {
                assert(pq[j] == q[j - p.len()]);
            }
        }
    }
}

proof fn lemma_walked_stops<I, O, F: Fn(&[Test<I, O>]) -> Outcome<I, O>>(
    run: &F,
    p: Seq<Seq<Test<I, O>>>,
    q: Seq<Seq<Test<I, O>>>,
    outcome: Outcome<I, O>,
)
    requires
        walked(run, p, outcome),
        !(outcome matches Ok(None)),
    ensures
        walked(run, p + q, outcome),
{
    let pq = p + q;
    let k = choose|k: int|
        0 <= k < p.len() && ran(run, #[trigger] p[k], outcome) && all_passed(run, p, k);
    assert(pq[k] == p[k]);
    assert forall|j: int| 0 <= j < k implies ran(run, #[trigger] pq[j], Ok(None)) by {
        assert(pq[j] == p[j]);
    }
}

/// Who is told how the walk goes.
pub trait Reporter<Input, Output> {
    /// The walk has come to `node`, `indent` levels below the root.
    fn node(&self, indent: u16, node: &TestsNode<Input, Output>);

    /// A batch of `node` is about to run; with it, `done` fixtures of the
    /// node will have run. Told only of nodes with more than one batch.
    fn batch(&self, indent: u16, node: &TestsNode<Input, Output>, done: usize);

    /// The batch that ran had every answer right.
    fn passed(&self);
}

/// Walks the tree of `node` depth first. The fixtures of a node go to
/// `run_batch` ten at a time, in order; then the groups below it are
/// walked, in order. The first batch that does not end with every answer
/// right ends the walk, and how it ended is how the walk ends. The
/// reporter is told of every node, `indent` levels deep, of every batch and
/// of every batch that passed; below 65535 levels the indent grows no more.
pub fn run_node<I, O, F, P>(indent: u16, node: &TestsNode<I, O>, run_batch: &F, reporter: &P) -> (r:
    Outcome<I, O>) where F: Fn(&[Test<I, O>]) -> Outcome<I, O>, P: Reporter<I, O>
    requires
        forall|s: &[Test<I, O>]| 0 < s@.len() <= 10 ==> call_requires(run_batch, (s,)),
    ensures
        walked(run_batch, plan(*node), r),
    decreases node,
{
    reporter.node(indent, node);
    let len: usize = node.tests.len();
    let ghost own = batches(node.tests@);
    let mut from: usize = 0;
    let mut sent: usize = 0;
    proof {
        lemma_batches(node.tests@);
    }
    while from < len
        invariant
            len == node.tests@.len(),
            own == batches(node.tests@),
            from <= len,
            from < len ==> from == 10 * sent,
            sent <= own.len(),
            from < len ==> sent < own.len(),
            from >= len ==> sent == own.len(),
            all_passed(run_batch, own, sent as int),
            forall|s: &[Test<I, O>]| 0 < s@.len() <= 10 ==> call_requires(run_batch, (s,)),
        decreases len - from,
    {
        let to: usize = if len - from > BATCH {
            from + BATCH
        } else {
            len
        };
        if len > BATCH {
            reporter.batch(indent, node, to);
        }
        let chunk = slice_subrange(node.tests.as_slice(), from, to);
        assert(chunk@ == own[sent as int]);
        let outcome = run_batch(chunk);
        match outcome {
            Ok(None) => {
                assert(ran(run_batch, own[sent as int], Ok(None)));
            },
            other => {
                proof {
                    assert(ran(run_batch, own[sent as int], other));
                    assert(walked(run_batch, own, other));
                    lemma_walked_stops(run_batch, own, plans(node.children@), other);
                }
                return other;
            },
        }
        reporter.passed();
        from = to;
        sent = sent + 1;
    }
    let deeper: u16 = if indent < u16::MAX {
        indent + 1
    } else {
        indent
    };
    let mut i: usize = 0;
    proof {
        assert(node.children@.take(0) =~= Seq::<TestsNode<I, O>>::empty());
    }
    while i < node.children.len()
        invariant
            0 <= i <= node.children@.len(),
            own == batches(node.tests@),
            all_passed(run_batch, own, own.len() as int),
            all_passed(
                run_batch,
                plans(node.children@.take(i as int)),
                plans(node.children@.take(i as int)).len() as int,
            ),
            forall|s: &[Test<I, O>]| 0 < s@.len() <= 10 ==> call_requires(run_batch, (s,)),
        decreases node.children@.len() - i,
    {
        let ghost before = plans(node.children@.take(i as int));
        let ghost after = plans(node.children@.take(i + 1));
        let child = &node.children[i];
        proof {
            assert(node.children@.take(i + 1).drop_last() =~= node.children@.take(i as int));
            assert(node.children@.take(i + 1).last() == *child);
            assert(after == before + plan(*child));
        }
        let outcome = run_node(deeper, child, run_batch, reporter);
        proof {
            lemma_walked_after_passed(run_batch, before, plan(*child), outcome);
        }
        match outcome {
            Ok(None) => {},
            other => {
                proof {
                    let rest = plans(node.children@);
                    assert(node.children@.take(node.children@.len() as int) =~= node.children@);
                    lemma_plans_prefix(node.children@, i + 1);
                    let tail = rest.skip(after.len() as int);
                    lemma_walked_stops(run_batch, after, tail, other);
                    lemma_walked_after_passed(run_batch, own, rest, other);
                }
                return other;
            },
        }
        i += 1;
    }
    proof {
        assert(node.children@.take(node.children@.len() as int) =~= node.children@);
        lemma_walked_after_passed(run_batch, own, plans(node.children@), Ok(None));
    }
    Ok(None)
}

proof fn lemma_plans_prefix<I, O>(nodes: Seq<TestsNode<I, O>>, upto: int)
    requires
        0 <= upto <= nodes.len(),
    ensures
        plans(nodes.take(upto)).len() <= plans(nodes).len(),
        plans(nodes) == plans(nodes.take(upto)) + plans(nodes).skip(
            plans(nodes.take(upto)).len() as int,
        ),
    decreases nodes.len() - upto,
{
    let whole = plans(nodes);
    if upto == nodes.len() {
        assert(nodes.take(upto) =~= nodes);
        assert(whole =~= whole + whole.skip(whole.len() as int));
    } else {
        lemma_plans_prefix(nodes, upto + 1);
        assert(nodes.take(upto + 1).drop_last() =~= nodes.take(upto));
        let part = plans(nodes.take(upto));
        let step = plan(nodes.take(upto + 1).last());
        let tail = whole.skip((part + step).len() as int);
        assert(whole == (part + step) + tail);
        assert(whole =~= part + (step + tail));
        assert(whole.skip(part.len() as int) =~= step + tail);
    }
}

/// Listens to a batch: keeps the first wrong answer and the last fixture
/// answered, and never says stop.
pub struct Watch<Input, Output> {
    pub failed: Option<FailedTest<Input, Output>>,
    pub last: Option<Test<Input, Output>>,
}

impl<Input, Output> Watch<Input, Output> {
    /// Nothing heard yet.
    pub fn new() -> (watch: Self)
        ensures
            watch.failed is None,
            watch.last is None,
    {
        Watch { failed: None, last: None }
    }
}

/// `after` is the watch `before` once it has heard `output` in answer to
/// `test`: the fixture is the last one answered; a wrong answer kept before
/// is kept; a first wrong answer is kept with its fixture, and a right
/// answer leaves nothing kept.
pub open spec fn hears<Input: Clone, Output: Clone + PartialEq>(
    before: Watch<Input, Output>,
    test: Test<Input, Output>,
    output: Output,
    after: Watch<Input, Output>,
) -> bool {
    &&& after.last is Some
    &&& cloned(test.input, after.last->0.input)
    &&& cloned(test.output, after.last->0.output)
    &&& before.failed is Some ==> after.failed == before.failed
    &&& before.failed is None && Output::obeys_eq_spec() ==> (after.failed is Some
        <==> !test.output.eq_spec(&output))
    &&& before.failed is None && after.failed is Some ==> {
        &&& cloned(test.input, after.failed->0.test.input)
        &&& cloned(test.output, after.failed->0.test.output)
        &&& cloned(output, after.failed->0.answer)
    }
}

/// The index of the first answer among the first `upto` that is not equal
/// to what its fixture owes, or `upto` if there is none.
pub open spec fn first_wrong<Input, Output: PartialEq>(
    chunk: Seq<Test<Input, Output>>,
    answers: Seq<Output>,
    upto: int,
) -> int
    decreases upto,
{
    if upto <= 0 {
        0
    } else {
        let before = first_wrong(chunk, answers, upto - 1);
        if before < upto - 1 || !chunk[upto - 1].output.eq_spec(&answers[upto - 1]) {
            before
        } else {
            upto
        }
    }
}

/// `first_wrong` is what its name says: no answer before it is wrong, and
/// the answer at it is, if it is an answer at all.
pub proof fn lemma_first_wrong<Input, Output: PartialEq>(
    chunk: Seq<Test<Input, Output>>,
    answers: Seq<Output>,
    upto: int,
)
    requires
        0 <= upto,
    ensures
        0 <= first_wrong(chunk, answers, upto) <= upto,
        forall|j: int|
            0 <= j < first_wrong(chunk, answers, upto) ==> #[trigger] chunk[j].output.eq_spec(
                &answers[j],
            ),
        first_wrong(chunk, answers, upto) < upto ==> !chunk[first_wrong(
            chunk,
            answers,
            upto,
        )].output.eq_spec(&answers[first_wrong(chunk, answers, upto)]),
    decreases upto,
{
    if upto > 0 {
        lemma_first_wrong(chunk, answers, upto - 1);
    }
}

/// A watch that has heard the answers to the first fixtures of a batch,
/// one after the other, keeps the first wrong answer with its fixture, and
/// keeps nothing if every answer was right. `states` holds the watch
/// before the first answer and after each.
pub proof fn lemma_watch_keeps_first_wrong<Input: Clone, Output: Clone + PartialEq>(
    chunk: Seq<Test<Input, Output>>,
    answers: Seq<Output>,
    states: Seq<Watch<Input, Output>>,
)
    requires
        Output::obeys_eq_spec(),
        answers.len() <= chunk.len(),
        states.len() == answers.len() + 1,
        states[0].failed is None,
        forall|i: int|
            0 <= i < answers.len() ==> hears(#[trigger] states[i], chunk[i], answers[i], states[i + 1]),
    ensures
        first_wrong(chunk, answers, answers.len() as int) == answers.len() ==> states.last().failed
            is None,
        first_wrong(chunk, answers, answers.len() as int) < answers.len() ==> {
            let m = first_wrong(chunk, answers, answers.len() as int);
            &&& states.last().failed is Some
            &&& cloned(chunk[m].input, states.last().failed->0.test.input)
            &&& cloned(chunk[m].output, states.last().failed->0.test.output)
            &&& cloned(answers[m], states.last().failed->0.answer)
        },
    decreases answers.len(),
{
    let k = answers.len() as int;
    if k > 0 {
        let fewer = answers.drop_last();
        let earlier = states.drop_last();
        assert forall|i: int| 0 <= i < fewer.len() implies hears(
            #[trigger] earlier[i],
            chunk[i],
            fewer[i],
            earlier[i + 1],
        ) by {
            assert(hears(states[i], chunk[i], answers[i], states[i + 1]));
        }
        lemma_watch_keeps_first_wrong(chunk, fewer, earlier);
        lemma_first_wrong_of_prefix(chunk, answers, fewer, k - 1);
        lemma_first_wrong(chunk, answers, k - 1);
        assert(earlier.last() == states[k - 1]);
        assert(hears(states[k - 1], chunk[k - 1], answers[k - 1], states[k]));
    }
}

proof fn lemma_first_wrong_of_prefix<Input, Output: PartialEq>(
    chunk: Seq<Test<Input, Output>>,
    answers: Seq<Output>,
    fewer: Seq<Output>,
    upto: int,
)
    requires
        0 <= upto <= fewer.len() <= answers.len(),
        forall|i: int| 0 <= i < fewer.len() ==> fewer[i] == answers[i],
    ensures
        first_wrong(chunk, fewer, upto) == first_wrong(chunk, answers, upto),
    decreases upto,
{
    if upto > 0 {
        lemma_first_wrong_of_prefix(chunk, answers, fewer, upto - 1);
    }
}

impl<Input: Clone, Output: Clone + PartialEq> Listener<Input, Output> for Watch<Input, Output> {
    /// Takes the answer to `test`: keeps it with its fixture if it is the
    /// first wrong one, takes note of the fixture as the last one
    /// answered, and says go on.
    fn heard(&mut self, test: &Test<Input, Output>, output: &Output) -> (more: bool)
        ensures
            more,
            hears(*old(self), *test, *output, *final(self)),
    {
        if self.failed.is_none() {
            if !test.output.eq(output) {
                self.failed = Some(FailedTest { test: test.clone(), answer: output.clone() });
            }
        }
        self.last = Some(test.clone());
        true
    }
}

/// How a failed run is reported: the failure, then the fixture that was
/// last attempted.
pub open spec fn run_failure_text(failure: Seq<char>, test: Seq<char>) -> Seq<char> {
    failure + "\nLast run test:\n"@ + test
}

/// `outcome` is how a batch ended whose run ended with `result` and in
/// which `watch` listened: the first wrong answer that was heard, if the
/// run was good; if it failed, its failure with the last fixture that was
/// answered or, if none was, the first of the batch.
pub open spec fn concluded<Input: Clone + Display, Output: Clone + Display>(
    result: Result<(), String>,
    watch: Watch<Input, Output>,
    chunk: Seq<Test<Input, Output>>,
    outcome: Outcome<Input, Output>,
) -> bool {
    match result {
        Ok(_) => outcome == Ok::<Option<FailedTest<Input, Output>>, String>(watch.failed),
        Err(e) => outcome matches Err(message) && exists|
            shown: Test<Input, Output>,
            text: Seq<char>,
        |
            {
                &&& if watch.last is Some {
                    shown == watch.last->0
                } else {
                    cloned(chunk[0].input, shown.input) && cloned(chunk[0].output, shown.output)
                }
                &&& #[trigger] shows_test(shown, text)
                &&& message@ == run_failure_text(e@, text)
            },
    }
}

/// `outcome` is how some run of `batch` ended in which a `Watch` listened.
pub open spec fn ended<Input: Clone + Display, Output: Clone + Display>(
    batch: Seq<Test<Input, Output>>,
    outcome: Outcome<Input, Output>,
) -> bool {
    exists|result: Result<(), String>, watch: Watch<Input, Output>| #[trigger]
        concluded(result, watch, batch, outcome)
}

/// `outcome` is how a walk over the batches `p` ended in which every batch
/// was run with a `Watch` listening: with no wrong answer if every batch
/// ended so, and else as the first batch that did not.
pub open spec fn walked_watching<Input: Clone + Display, Output: Clone + Display>(
    p: Seq<Seq<Test<Input, Output>>>,
    outcome: Outcome<Input, Output>,
) -> bool {
    if outcome matches Ok(None) {
        forall|k: int| 0 <= k < p.len() ==> ended(#[trigger] p[k], Ok(None))
    } else {
        exists|k: int|
            0 <= k < p.len() && ended(#[trigger] p[k], outcome) && forall|j: int|
                0 <= j < k ==> ended(#[trigger] p[j], Ok(None))
    }
}

proof fn lemma_walked_watching<
    Input: Clone + Display,
    Output: Clone + Display,
    F: Fn(&[Test<Input, Output>]) -> Outcome<Input, Output>,
>(run: &F, p: Seq<Seq<Test<Input, Output>>>, outcome: Outcome<Input, Output>)
    requires
        walked(run, p, outcome),
        forall|s: &[Test<Input, Output>], o: Outcome<Input, Output>| #[trigger]
            call_ensures(run, (s,), o) ==> ended(s@, o),
    ensures
        walked_watching(p, outcome),
{
    if outcome matches Ok(None) {
        assert forall|k: int| 0 <= k < p.len() implies ended(#[trigger] p[k], Ok(None)) by {
            assert(ran(run, p[k], Ok(None)));
        }
    } else {
        let k = choose|k: int|
            0 <= k < p.len() && ran(run, #[trigger] p[k], outcome) && all_passed(run, p, k);
        assert forall|j: int| 0 <= j < k implies ended(#[trigger] p[j], Ok(None)) by {
            assert(ran(run, p[j], Ok(None)));
        }
    }
}

/// Says how a batch ended, from how its run ended and what was heard.
pub fn conclude<Input: Clone + Display, Output: Clone + Display>(
    result: Result<(), String>,
    watch: Watch<Input, Output>,
    chunk: &[Test<Input, Output>],
) -> (outcome: Outcome<Input, Output>)
    requires
        result is Err ==> watch.last is Some || chunk@.len() > 0,
    ensures
        concluded(result, watch, chunk@, outcome),
{
    match result {
        Ok(()) => Ok(watch.failed),
        Err(e) => {
            let shown: Test<Input, Output> = match watch.last {
                Some(t) => t,
                None => chunk[0].clone(),
            };
            let text: String = shown.to_string();
            let mut message: String = e;
            message.append("\nLast run test:\n");
            message.append(text.as_str());
            proof {
                assert(message@ =~= run_failure_text(e@, text@));
            }
            Err(message)
        },
    }
}

/// Runs a tree of fixtures on a program.
pub struct TestsRunner<Supplier, Run> {
    supplier: Supplier,
    runner: Run,
}

impl<Supplier, Run> TestsRunner<Supplier, Run> {
    /// Where the fixtures come from.
    pub closed spec fn supplier(&self) -> Supplier {
        self.supplier
    }

    /// What answers them.
    pub closed spec fn runner(&self) -> Run {
        self.runner
    }

    /// A runner of the fixtures of `supplier` on `runner`.
    pub fn new(supplier: Supplier, runner: Run) -> (tests_runner: Self)
        ensures
            tests_runner.supplier() == supplier,
            tests_runner.runner() == runner,
    {
        TestsRunner { supplier, runner }
    }

    /// Asks the supplier for the tree of fixtures drawn from `rng` and
    /// walks it. The outcome is that of the first batch that did not end
    /// with every answer right, or no wrong answer if there was no such
    /// batch.
    pub fn run<Input, Output, P>(&self, rng: &mut SmallRng, reporter: &P) -> (outcome: Outcome<
        Input,
        Output,
    >) where
        Input: Clone + Display,
        Output: Clone + Display + PartialEq,
        Supplier: TestsSupplier<Input, Output>,
        Run: Runner<Input, Output>,
        P: Reporter<Input, Output>,

        ensures
            exists|tree: TestsNode<Input, Output>| walked_watching(#[trigger] plan(tree), outcome),
    {
        let tests = self.supplier.supply_tests(rng);
        let run_batch = |chunk: &[Test<Input, Output>]| -> (outcome: Outcome<Input, Output>)
            requires
                chunk@.len() > 0,
            ensures
                ended(chunk@, outcome),
            { self.run_chunk(chunk) };
        let outcome = run_node(0, &tests, &run_batch, reporter);
        proof {
            lemma_walked_watching(&run_batch, plan(tests), outcome);
        }
        outcome
    }

    /// Runs one batch: `chunk` goes to the runner with a listener that
    /// keeps the first wrong answer, and the batch ends as the run and the
    /// listener say.
    pub fn run_chunk<Input, Output>(&self, chunk: &[Test<Input, Output>]) -> (outcome: Outcome<
        Input,
        Output,
    >) where
        Input: Clone + Display,
        Output: Clone + Display + PartialEq,
        Run: Runner<Input, Output>,

        requires
            chunk@.len() > 0,
        ensures
            ended(chunk@, outcome),
    {
        let mut watch: Watch<Input, Output> = Watch::new();
        let result = self.runner.run(chunk, &mut watch);
        conclude(result, watch, chunk)
    }
}

} // verus!
