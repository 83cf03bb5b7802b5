//! Fixtures and the tree that holds them.
use rand::rngs::SmallRng;
use std::fmt::Display;
use vstd::prelude::*;
use vstd::string::*;

verus! {

/// A fixture: what the program under test is given, and what it owes.
pub struct Test<Input, Output> {
    pub input: Input,
    pub output: Output,
}

impl<Input, Output> Test<Input, Output> {
    /// The fixture that gives `input` and owes `output`.
    pub fn new(input: Input, output: Output) -> (test: Test<Input, Output>)
        ensures
            test.input == input,
            test.output == output,
    {
        Test { input, output }
    }
}

/// `text` is a way to show `value`.
pub open spec fn shows<T: Display>(value: T, text: Seq<char>) -> bool {
    exists|s: String| s@ == text && #[trigger] to_string_from_display_ensures(&value, s)
}

/// How a fixture is shown, given how its two parts are.
pub open spec fn test_text(input: Seq<char>, output: Seq<char>) -> Seq<char> {
    "Input: \n"@ + input + "\nOutput:\n"@ + output
}

/// `text` shows `test`.
pub open spec fn shows_test<A: Display, B: Display>(test: Test<A, B>, text: Seq<char>) -> bool {
    exists|input: Seq<char>, output: Seq<char>|
        shows(test.input, input) && shows(test.output, output) && text == #[trigger] test_text(
            input,
            output,
        )
}

impl<A: Display, B: Display> Test<A, B> {
    /// The fixture for the operator to read.
    pub fn to_string(&self) -> (text: String)
        ensures
            shows_test(*self, text@),
    {
        let input: String = self.input.to_string();
        let output: String = self.output.to_string();
        let mut text: String = "Input: \n".to_owned();
        text.append(input.as_str());
        text.append("\nOutput:\n");
        text.append(output.as_str());
        proof {
            assert(shows(self.input, input@));
            assert(shows(self.output, output@));
            assert(text@ =~= test_text(input@, output@));
        }
        text
    }
}

impl<A: Clone, B: Clone> Clone for Test<A, B> {
    /// A fixture of a copy of each part.
    fn clone(&self) -> (copy: Self)
        ensures
            cloned(self.input, copy.input),
            cloned(self.output, copy.output),
    {
        Test { input: self.input.clone(), output: self.output.clone() }
    }
}

/// A named group of fixtures with named groups below it. Fixtures run in
/// the order of `tests`, then the groups in the order of `children`.
pub struct TestsNode<Input, Output> {
    pub name: String,
    pub tests: Vec<Test<Input, Output>>,
    pub children: Vec<TestsNode<Input, Output>>,
}

impl<Input, Output> TestsNode<Input, Output> {
    /// An empty group.
    pub fn new(name: &str) -> (node: TestsNode<Input, Output>)
        ensures
            node.name@ == name@,
            node.tests@.len() == 0,
            node.children@.len() == 0,
    {
        TestsNode { name: name.to_owned(), tests: Vec::new(), children: Vec::new() }
    }

    /// Adds `test` after the fixtures of this group, and hands the group
    /// back.
    pub fn add_test(&mut self, test: Test<Input, Output>) -> (node: &mut Self)
        ensures
            node.name == old(self).name,
            node.tests@ == old(self).tests@.push(test),
            node.children == old(self).children,
            *final(self) == *final(node),
    {
        self.tests.push(test);
        self
    }

    /// Adds an empty group named `name` after the groups below this one,
    /// and hands it out to be filled.
    pub fn child(&mut self, name: &str) -> (child: &mut TestsNode<Input, Output>)
        ensures
            child.name@ == name@,
            child.tests@.len() == 0,
            child.children@.len() == 0,
            final(self).name == old(self).name,
            final(self).tests == old(self).tests,
            final(self).children@ == old(self).children@.push(*final(child)),
    {
        let child = TestsNode::new(name);
        self.children.push(child);
        let idx: usize = self.children.len() - 1;
        &mut self.children[idx]
    }
}

/// A source of fixtures.
pub trait TestsSupplier<Input, Output> {
    /// The tree of fixtures drawn from `rng`.
    fn supply_tests(&self, rng: &mut SmallRng) -> TestsNode<Input, Output>;
}

} // verus!
