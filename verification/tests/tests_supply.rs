use slae_grader::base::tests_supply::{Test, TestsNode};

#[test]
fn test_new_holds_both_parts() {
    let t = Test::new(5, "five");
    assert_eq!(t.input, 5);
    assert_eq!(t.output, "five");
}

#[test]
fn test_clone_copies_both_parts() {
    let t = Test::new(vec![1, 2], String::from("x"));
    let c = t.clone();
    assert_eq!(c.input, vec![1, 2]);
    assert_eq!(c.output, "x");
}

#[test]
fn test_to_string_shows_input_and_output() {
    let t = Test::new(String::from("2\n1 2 3 \n4 5 6 \n"), String::from("many solutions"));
    assert_eq!(t.to_string(), "Input: \n2\n1 2 3 \n4 5 6 \n\nOutput:\nmany solutions");
}

#[test]
fn node_new_is_empty() {
    let node: TestsNode<i32, i32> = TestsNode::new("root");
    assert_eq!(node.name, "root");
    assert!(node.tests.is_empty());
    assert!(node.children.is_empty());
}

#[test]
fn add_test_keeps_the_order_and_chains() {
    let mut node: TestsNode<i32, i32> = TestsNode::new("n");
    node.add_test(Test::new(1, 10)).add_test(Test::new(2, 20));
    node.add_test(Test::new(3, 30));
    let inputs: Vec<i32> = node.tests.iter().map(|t| t.input).collect();
    let outputs: Vec<i32> = node.tests.iter().map(|t| t.output).collect();
    assert_eq!(inputs, vec![1, 2, 3]);
    assert_eq!(outputs, vec![10, 20, 30]);
    assert_eq!(node.name, "n");
    assert!(node.children.is_empty());
}

#[test]
fn child_adds_groups_in_order_and_hands_them_out() {
    let mut root: TestsNode<i32, i32> = TestsNode::new("root");
    root.add_test(Test::new(0, 0));
    root.child("first").add_test(Test::new(1, 1));
    let second = root.child("second");
    second.add_test(Test::new(2, 2));
    second.child("deep");
    let names: Vec<&str> = root.children.iter().map(|c| c.name.as_str()).collect();
    assert_eq!(names, vec!["first", "second"]);
    assert_eq!(root.tests.len(), 1);
    assert_eq!(root.children[0].tests.len(), 1);
    assert_eq!(root.children[0].tests[0].input, 1);
    assert_eq!(root.children[1].tests[0].input, 2);
    assert_eq!(root.children[1].children.len(), 1);
    assert_eq!(root.children[1].children[0].name, "deep");
}
