use rand::rngs::SmallRng;
use rand::SeedableRng;
use slae_grader::base::runner::{Listener, Runner};
use slae_grader::base::test_runner::{
    conclude, run_node, FailedTest, Outcome, Reporter, TestsRunner, Watch, BATCH,
};
use slae_grader::base::tests_supply::{Test, TestsNode, TestsSupplier};
use std::cell::RefCell;

type Case = Test<String, i32>;

fn case(input: &str, output: i32) -> Case {
    Test::new(input.to_string(), output)
}

fn group(name: &str, first: i32, count: i32) -> TestsNode<String, i32> {
    let mut node = TestsNode::new(name);
    for k in first..first + count {
        node.add_test(case(&k.to_string(), k));
    }
    node
}

struct Log {
    lines: RefCell<Vec<String>>,
}

impl Log {
    fn new() -> Log {
        Log { lines: RefCell::new(Vec::new()) }
    }
}

impl Reporter<String, i32> for Log {
    fn node(&self, indent: u16, node: &TestsNode<String, i32>) {
        self.lines.borrow_mut().push(format!("node {} {} {}", indent, node.name, node.tests.len()));
    }

    fn batch(&self, indent: u16, node: &TestsNode<String, i32>, done: usize) {
        self.lines.borrow_mut().push(format!("batch {} {} {}", indent, node.name, done));
    }

    fn passed(&self) {
        self.lines.borrow_mut().push("passed".to_string());
    }
}

fn inputs(chunk: &[Case]) -> Vec<String> {
    chunk.iter().map(|t| t.input.clone()).collect()
}

#[test]
fn the_batch_size_is_ten() {
    assert_eq!(BATCH, 10);
}

#[test]
fn twenty_three_fixtures_run_as_ten_ten_and_three() {
    let node = group("big", 0, 23);
    let seen: RefCell<Vec<Vec<String>>> = RefCell::new(Vec::new());
    let run = |chunk: &[Case]| -> Outcome<String, i32> {
        seen.borrow_mut().push(inputs(chunk));
        Ok(None)
    };
    let log = Log::new();
    assert!(matches!(run_node(0, &node, &run, &log), Ok(None)));
    let seen = seen.into_inner();
    let sizes: Vec<usize> = seen.iter().map(|b| b.len()).collect();
    assert_eq!(sizes, vec![10, 10, 3]);
    let all: Vec<String> = seen.concat();
    let expected: Vec<String> = (0..23).map(|k| k.to_string()).collect();
    assert_eq!(all, expected);
    assert_eq!(
        log.lines.into_inner(),
        vec![
            "node 0 big 23",
            "batch 0 big 10",
            "passed",
            "batch 0 big 20",
            "passed",
            "batch 0 big 23",
            "passed"
        ]
    );
}

#[test]
fn up_to_ten_fixtures_run_as_one_batch() {
    for count in 1..=10 {
        let node = group("small", 0, count);
        let seen: RefCell<Vec<usize>> = RefCell::new(Vec::new());
        let run = |chunk: &[Case]| -> Outcome<String, i32> {
            seen.borrow_mut().push(chunk.len());
            Ok(None)
        };
        let log = Log::new();
        assert!(matches!(run_node(0, &node, &run, &log), Ok(None)));
        assert_eq!(seen.into_inner(), vec![count as usize]);
        assert_eq!(
            log.lines.into_inner(),
            vec![format!("node 0 small {}", count), "passed".to_string()]
        );
    }
}

#[test]
fn batches_of_other_sizes() {
    for (count, sizes) in
        [(0, vec![]), (11, vec![10, 1]), (20, vec![10, 10]), (21, vec![10, 10, 1])]
    {
        let node = group("g", 0, count);
        let seen: RefCell<Vec<usize>> = RefCell::new(Vec::new());
        let run = |chunk: &[Case]| -> Outcome<String, i32> {
            seen.borrow_mut().push(chunk.len());
            Ok(None)
        };
        assert!(matches!(run_node(0, &node, &run, &Log::new()), Ok(None)));
        assert_eq!(seen.into_inner(), sizes);
    }
}

fn forest() -> TestsNode<String, i32> {
    let mut root = group("root", 0, 2);
    let mut a = group("a", 100, 12);
    a.children.push(group("a1", 200, 1));
    a.children.push(group("a2", 300, 0));
    root.children.push(a);
    root.children.push(group("b", 400, 3));
    root
}

#[test]
fn the_walk_is_depth_first() {
    let root = forest();
    let seen: RefCell<Vec<String>> = RefCell::new(Vec::new());
    let run = |chunk: &[Case]| -> Outcome<String, i32> {
        seen.borrow_mut().push(format!("{}+{}", chunk[0].input, chunk.len()));
        Ok(None)
    };
    let log = Log::new();
    assert!(matches!(run_node(0, &root, &run, &log), Ok(None)));
    assert_eq!(seen.into_inner(), vec!["0+2", "100+10", "110+2", "200+1", "400+3"]);
    assert_eq!(
        log.lines.into_inner(),
        vec![
            "node 0 root 2",
            "passed",
            "node 1 a 12",
            "batch 1 a 10",
            "passed",
            "batch 1 a 12",
            "passed",
            "node 2 a1 1",
            "passed",
            "node 2 a2 0",
            "node 1 b 3",
            "passed"
        ]
    );
}

#[test]
fn the_first_wrong_answer_stops_the_whole_walk() {
    let root = forest();
    let seen: RefCell<Vec<String>> = RefCell::new(Vec::new());
    let run = |chunk: &[Case]| -> Outcome<String, i32> {
        seen.borrow_mut().push(chunk[0].input.clone());
        if chunk[0].input == "110" {
            Ok(Some(FailedTest { test: chunk[1].clone(), answer: -1 }))
        } else {
            Ok(None)
        }
    };
    match run_node(0, &root, &run, &Log::new()) {
        Ok(Some(failed)) => {
            assert_eq!(failed.test.input, "111");
            assert_eq!(failed.answer, -1);
        }
        _ => panic!("no wrong answer came back"),
    }
    assert_eq!(seen.into_inner(), vec!["0", "100", "110"]);
}

#[test]
fn a_failed_run_stops_the_whole_walk() {
    let root = forest();
    let seen: RefCell<Vec<String>> = RefCell::new(Vec::new());
    let run = |chunk: &[Case]| -> Outcome<String, i32> {
        seen.borrow_mut().push(chunk[0].input.clone());
        if chunk[0].input == "200" {
            Err("broken".to_string())
        } else {
            Ok(None)
        }
    };
    match run_node(0, &root, &run, &Log::new()) {
        Err(e) => assert_eq!(e, "broken"),
        _ => panic!("no failure came back"),
    }
    assert_eq!(seen.into_inner(), vec!["0", "100", "110", "200"]);
}

#[test]
fn the_watch_keeps_the_first_wrong_answer_and_goes_on() {
    let mut watch: Watch<String, i32> = Watch::new();
    assert!(watch.failed.is_none() && watch.last.is_none());
    assert!(watch.heard(&case("a", 1), &1));
    assert!(watch.failed.is_none());
    assert_eq!(watch.last.as_ref().unwrap().input, "a");
    assert!(watch.heard(&case("b", 2), &20));
    assert!(watch.heard(&case("c", 3), &30));
    assert!(watch.heard(&case("d", 4), &4));
    let failed = watch.failed.as_ref().unwrap();
    assert_eq!(failed.test.input, "b");
    assert_eq!(failed.test.output, 2);
    assert_eq!(failed.answer, 20);
    assert_eq!(watch.last.as_ref().unwrap().input, "d");
}

#[test]
fn a_good_run_ends_as_the_watch_saw_it() {
    let chunk = vec![case("a", 1)];
    let clean: Watch<String, i32> = Watch::new();
    assert!(matches!(conclude(Ok(()), clean, &chunk), Ok(None)));
    let mut watch: Watch<String, i32> = Watch::new();
    watch.heard(&chunk[0], &7);
    match conclude(Ok(()), watch, &chunk) {
        Ok(Some(failed)) => assert_eq!(failed.answer, 7),
        _ => panic!("the wrong answer was lost"),
    }
}

#[test]
fn a_failed_run_is_reported_with_the_last_fixture() {
    let chunk = vec![case("a", 1), case("b", 2)];
    let mut watch: Watch<String, i32> = Watch::new();
    watch.heard(&chunk[1], &2);
    match conclude(Err("Cannot read from process output: x".to_string()), watch, &chunk) {
        Err(e) => assert_eq!(
            e,
            "Cannot read from process output: x\nLast run test:\nInput: \nb\nOutput:\n2"
        ),
        _ => panic!("the failure was lost"),
    }
}

#[test]
fn a_run_that_failed_at_once_is_reported_with_the_first_fixture() {
    let chunk = vec![case("a", 1), case("b", 2)];
    let watch: Watch<String, i32> = Watch::new();
    match conclude(Err("boom".to_string()), watch, &chunk) {
        Err(e) => assert_eq!(e, "boom\nLast run test:\nInput: \na\nOutput:\n1"),
        _ => panic!("the failure was lost"),
    }
}

#[test]
fn a_wrong_answer_is_shown_with_what_was_owed() {
    let failed = FailedTest { test: case("2\n1 2 3 \n4 5 6 \n", 5), answer: 6 };
    assert_eq!(failed.to_string(), "Input:\n2\n1 2 3 \n4 5 6 \n\nExpected:\n5\nActual:\n6");
}

struct Counting;

impl TestsSupplier<String, i32> for Counting {
    fn supply_tests(&self, _rng: &mut SmallRng) -> TestsNode<String, i32> {
        let mut root = TestsNode::new("root");
        root.children.push(group("ok", 0, 23));
        root.children.push(group("late", 50, 12));
        root
    }
}

struct Echo {
    wrong: Vec<i32>,
    break_at: Option<i32>,
    calls: RefCell<Vec<usize>>,
}

impl Runner<String, i32> for Echo {
    fn run<L: Listener<String, i32>>(
        &self,
        input: &[Case],
        listener: &mut L,
    ) -> Result<(), String> {
        self.calls.borrow_mut().push(input.len());
        for t in input {
            let value: i32 = t.input.parse().unwrap();
            if self.break_at == Some(value) {
                return Err("pipe closed".to_string());
            }
            let answer = if self.wrong.contains(&value) { -value } else { value };
            if !listener.heard(t, &answer) {
                break;
            }
        }
        Ok(())
    }
}

#[test]
fn the_runner_passes_a_tree_of_right_answers() {
    let echo = Echo { wrong: vec![], break_at: None, calls: RefCell::new(Vec::new()) };
    let tests_runner = TestsRunner::new(Counting, echo);
    let mut rng = SmallRng::seed_from_u64(0);
    let log = Log::new();
    let outcome: Outcome<String, i32> = tests_runner.run(&mut rng, &log);
    assert!(matches!(outcome, Ok(None)));
    assert_eq!(log.lines.borrow().len(), 3 + 6 + 4);
}

#[test]
fn the_runner_reports_the_first_wrong_answer_of_the_batch() {
    let echo = Echo { wrong: vec![53, 55, 61], break_at: None, calls: RefCell::new(Vec::new()) };
    let tests_runner = TestsRunner::new(Counting, echo);
    let mut rng = SmallRng::seed_from_u64(0);
    let outcome: Outcome<String, i32> = tests_runner.run(&mut rng, &Log::new());
    match outcome {
        Ok(Some(failed)) => {
            assert_eq!(failed.test.input, "53");
            assert_eq!(failed.test.output, 53);
            assert_eq!(failed.answer, -53);
        }
        _ => panic!("no wrong answer came back"),
    }
}

#[test]
fn the_runner_reports_a_failed_run_with_the_last_fixture() {
    let echo = Echo { wrong: vec![], break_at: Some(12), calls: RefCell::new(Vec::new()) };
    let tests_runner = TestsRunner::new(Counting, echo);
    let mut rng = SmallRng::seed_from_u64(0);
    let outcome: Outcome<String, i32> = tests_runner.run(&mut rng, &Log::new());
    match outcome {
        Err(e) => assert_eq!(e, "pipe closed\nLast run test:\nInput: \n11\nOutput:\n11"),
        _ => panic!("no failure came back"),
    }
}

#[test]
fn run_chunk_hands_the_whole_batch_to_the_runner() {
    let echo = Echo { wrong: vec![2], break_at: None, calls: RefCell::new(Vec::new()) };
    let tests_runner = TestsRunner::new(Counting, echo);
    let chunk = vec![case("1", 1), case("2", 2), case("3", 3)];
    match tests_runner.run_chunk(&chunk) {
        Ok(Some(failed)) => assert_eq!(failed.answer, -2),
        _ => panic!("no wrong answer came back"),
    }
}
