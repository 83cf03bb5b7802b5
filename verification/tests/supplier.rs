use rand::rngs::SmallRng;
use rand::SeedableRng;
use slae_grader::base::tests_supply::{Test, TestsNode, TestsSupplier};
use slae_grader::slae::answer::{Answer, Ratio};
use slae_grader::slae::floatizable::is_floatizable;
use slae_grader::slae::matrix::Matrix;
use slae_grader::slae::supplier::{shuffle_matrix, SLAESupplier};

const P: u128 = (1 << 61) - 1;

fn residue(v: i32) -> u128 {
    if v >= 0 {
        v as u128
    } else {
        P - ((-(v as i64)) as u128)
    }
}

fn power(mut base: u128, mut exp: u128) -> u128 {
    let mut acc: u128 = 1;
    while exp > 0 {
        if exp & 1 == 1 {
            acc = acc * base % P;
        }
        base = base * base % P;
        exp >>= 1;
    }
    acc
}

fn rank(mut rows: Vec<Vec<u128>>) -> usize {
    let mut rank = 0;
    let width = if rows.is_empty() { 0 } else { rows[0].len() };
    for col in 0..width {
        let pivot = (rank..rows.len()).find(|&r| rows[r][col] != 0);
        if let Some(p) = pivot {
            rows.swap(rank, p);
            let inv = power(rows[rank][col], P - 2);
            for x in 0..width {
                rows[rank][x] = rows[rank][x] * inv % P;
            }
            for r in 0..rows.len() {
                if r != rank && rows[r][col] != 0 {
                    let f = rows[r][col];
                    for x in 0..width {
                        rows[r][x] = (rows[r][x] + P - f * rows[rank][x] % P) % P;
                    }
                }
            }
            rank += 1;
        }
    }
    rank
}

fn ranks(m: &Matrix) -> (usize, usize) {
    let n = m.n();
    let augmented: Vec<Vec<u128>> =
        (0..n).map(|y| (0..n + 1).map(|x| residue(m.get_at(y, x))).collect()).collect();
    let coefficients: Vec<Vec<u128>> =
        augmented.iter().map(|row| row[..n as usize].to_vec()).collect();
    (rank(coefficients), rank(augmented))
}

fn rows_of(m: &Matrix) -> Vec<Vec<i32>> {
    let n = m.n();
    (0..n).map(|y| (0..n + 1).map(|x| m.get_at(y, x)).collect()).collect()
}

fn solves(m: &Matrix, solution: &Vec<Ratio>) -> bool {
    let n = m.n() as usize;
    if solution.len() != n {
        return false;
    }
    let common: i128 = solution.iter().map(|r| r.den as i128).product();
    (0..n).all(|y| {
        let left: i128 = (0..n)
            .map(|x| {
                let r = &solution[x];
                m.get_at(y as i32, x as i32) as i128 * r.num as i128 * (common / r.den as i128)
            })
            .sum();
        left == m.get_at(y as i32, n as i32) as i128 * common
    })
}

fn all_cells_floatizable(m: &Matrix) -> bool {
    rows_of(m).iter().all(|row| row.iter().all(|&v| is_floatizable(v)))
}

fn tree(seed: u64) -> TestsNode<Matrix, Answer<Ratio>> {
    let mut rng = SmallRng::seed_from_u64(seed);
    SLAESupplier::new().supply_tests(&mut rng)
}

fn describe(node: &TestsNode<Matrix, Answer<Ratio>>) -> String {
    let mut text = node.name.clone();
    for t in &node.tests {
        text.push_str(&t.input.to_string());
        text.push_str(&t.output.to_verbal(|r: &Ratio| format!("{}/{}", r.num, r.den)).write());
    }
    for c in &node.children {
        text.push_str(&describe(c));
    }
    text
}

fn check_family(
    node: &TestsNode<Matrix, Answer<Ratio>>,
    name: &str,
    count: usize,
    low: i32,
    high: i32,
) {
    assert_eq!(node.name, name);
    assert!(node.children.is_empty());
    assert_eq!(node.tests.len(), count);
    for t in &node.tests {
        assert!(low <= t.input.n() && t.input.n() < high);
        assert!(all_cells_floatizable(&t.input));
    }
}

#[test]
fn the_tree_has_the_hand_made_group_and_six_families() {
    let root = tree(1);
    assert_eq!(root.name, "root");
    assert!(root.tests.is_empty());
    assert_eq!(root.children.len(), 7);
    check_family(&root.children[0], "hand-made", 1, 3, 4);
    check_family(&root.children[1], "random many answer long", 40, 5, 6);
    check_family(&root.children[2], "random one answer simple", 200, 1, 6);
    check_family(&root.children[3], "random one answer long", 40, 5, 10);
    check_family(&root.children[4], "random no answer short", 200, 2, 6);
    check_family(&root.children[5], "random no answer long", 40, 5, 10);
    check_family(&root.children[6], "random many answer short", 200, 2, 6);
}

#[test]
fn the_hand_made_fixture_is_the_proportional_matrix() {
    let root = tree(2);
    let t = &root.children[0].tests[0];
    assert_eq!(rows_of(&t.input), vec![vec![1, 2, 3, 4], vec![5, 6, 7, 8], vec![9, 10, 11, 12]]);
    assert_eq!(t.input.to_string(), "3\n1 2 3 4 \n5 6 7 8 \n9 10 11 12 \n");
    assert!(matches!(t.output, Answer::MANY));
    assert_eq!(ranks(&t.input), (2, 2));
}

#[test]
fn the_same_seed_gives_the_same_tree() {
    assert_eq!(describe(&tree(42)), describe(&tree(42)));
    assert_ne!(describe(&tree(42)), describe(&tree(43)));
}

#[test]
fn one_answer_fixtures_are_solved_by_their_ratios() {
    for seed in 0..3 {
        let root = tree(seed);
        for group in [&root.children[2], &root.children[3]] {
            for t in &group.tests {
                let n = t.input.n() as usize;
                match &t.output {
                    Answer::FOUND(v) => {
                        assert_eq!(v.len(), n);
                        assert!(v.iter().all(|r| r.den != 0));
                        assert!(solves(&t.input, v));
                    }
                    _ => panic!("not a solution"),
                }
                assert_eq!(ranks(&t.input), (n, n));
            }
        }
    }
}

#[test]
fn one_answer_ratios_come_from_the_ranges() {
    for seed in 0..3 {
        let root = tree(seed);
        for (group, values, diagonal) in
            [(&root.children[2], -10..10, 1..2), (&root.children[3], -100..100, 1..30)]
        {
            for t in &group.tests {
                match &t.output {
                    Answer::FOUND(v) => {
                        assert!(v.iter().all(|r| diagonal.contains(&r.den)));
                        assert!(v.iter().all(|r| values.contains(&r.num)));
                    }
                    _ => panic!("not a solution"),
                }
            }
        }
    }
    let supplier = SLAESupplier::new();
    let mut rng = SmallRng::seed_from_u64(21);
    let mut node: TestsNode<Matrix, Answer<Ratio>> = TestsNode::new("narrow");
    supplier.random_one_answer(&mut node, &mut rng, 50, 1..4, 7..9, -3..-1, 3, 2);
    for t in &node.tests {
        match &t.output {
            Answer::FOUND(v) => {
                assert!(v.iter().all(|r| r.den == -3 || r.den == -2));
                assert!(v.iter().all(|r| r.num == 7 || r.num == 8));
                assert!(solves(&t.input, v));
            }
            _ => panic!("not a solution"),
        }
    }
}

#[test]
fn unshuffled_families_show_how_they_were_built() {
    let supplier = SLAESupplier::new();
    let mut rng = SmallRng::seed_from_u64(22);
    let mut many: TestsNode<Matrix, Answer<Ratio>> = TestsNode::new("many");
    let mut none: TestsNode<Matrix, Answer<Ratio>> = TestsNode::new("none");
    supplier.random_many_answer(&mut many, &mut rng, 60, 1..2, 4..6, -2..0, 1, 1);
    supplier.random_no_answer(&mut none, &mut rng, 60, 1..2, 4..6, -2..0, 1, 1);
    for t in &many.tests {
        assert_eq!(rows_of(&t.input), vec![vec![0, 0]]);
    }
    for t in &none.tests {
        let row = &rows_of(&t.input)[0];
        assert_eq!(row[0], 0);
        assert!(row[1] == 4 || row[1] == 5);
    }
}

#[test]
fn many_answer_fixtures_are_consistent_and_short_of_rank() {
    for seed in 0..3 {
        let root = tree(seed);
        for group in [&root.children[1], &root.children[6]] {
            for t in &group.tests {
                let n = t.input.n() as usize;
                assert!(matches!(t.output, Answer::MANY));
                let (coefficients, augmented) = ranks(&t.input);
                assert_eq!(coefficients, augmented);
                assert_eq!(augmented, n - 1);
            }
        }
    }
}

#[test]
fn no_answer_fixtures_are_inconsistent() {
    for seed in 0..3 {
        let root = tree(seed);
        for group in [&root.children[4], &root.children[5]] {
            for t in &group.tests {
                assert!(matches!(t.output, Answer::NONE));
                let (coefficients, augmented) = ranks(&t.input);
                assert!(coefficients < augmented);
            }
        }
    }
}

#[test]
fn families_add_to_the_fixtures_that_are_there() {
    let supplier = SLAESupplier::new();
    let mut rng = SmallRng::seed_from_u64(5);
    let mut node: TestsNode<Matrix, Answer<Ratio>> = TestsNode::new("mixed");
    node.add_test(Test::new(Matrix::new_empty(1), Answer::MANY));
    supplier.random_one_answer(&mut node, &mut rng, 3, 2..4, -5..5, 1..3, 3, 2);
    supplier.random_no_answer(&mut node, &mut rng, 2, 1..2, -5..5, 1..3, 3, 2);
    supplier.random_many_answer(&mut node, &mut rng, 4, 1..3, -5..5, 1..3, 3, 2);
    supplier.hand_made(&mut node);
    assert_eq!(node.tests.len(), 11);
    assert_eq!(node.tests[0].input.n(), 1);
    for t in &node.tests[1..4] {
        assert!(matches!(t.output, Answer::FOUND(_)));
        assert!(2 <= t.input.n() && t.input.n() < 4);
    }
    for t in &node.tests[4..6] {
        assert!(matches!(t.output, Answer::NONE));
        assert_eq!(t.input.n(), 1);
        assert_eq!(t.input.get_at(0, 0), 0);
        assert_ne!(t.input.get_at(0, 1), 0);
    }
    for t in &node.tests[6..10] {
        assert!(matches!(t.output, Answer::MANY));
    }
    assert_eq!(node.tests[10].input.n(), 3);
}

#[test]
fn samplers_stay_in_their_range() {
    let supplier = SLAESupplier::new();
    let mut rng = SmallRng::seed_from_u64(9);
    let mut seen = std::collections::BTreeSet::new();
    for _ in 0..2000 {
        let v = supplier.nice_floatizible(&mut rng, -3..4);
        assert!(-3 <= v && v < 4);
        seen.insert(v);
        let w = supplier.non_zero(&mut rng, -3..4);
        assert!(-3 <= w && w < 4 && w != 0);
    }
    assert_eq!(seen.len(), 7);
    assert_eq!(supplier.nice_floatizible(&mut rng, 5..6), 5);
    assert_eq!(supplier.non_zero(&mut rng, 0..2), 1);
}

#[test]
fn samplers_skip_values_that_are_not_floatizable() {
    let supplier = SLAESupplier::new();
    let mut rng = SmallRng::seed_from_u64(10);
    for _ in 0..500 {
        let v = supplier.nice_floatizible(&mut rng, 16_777_217..16_777_223);
        assert!(v == 16_777_218 || v == 16_777_220 || v == 16_777_222);
    }
    assert_eq!(supplier.nice_floatizible(&mut rng, 16_777_217..16_777_219), 16_777_218);
}

#[test]
fn shuffle_keeps_the_solution() {
    let mut rng = SmallRng::seed_from_u64(11);
    let solution = vec![
        Ratio { num: 3, den: 1 },
        Ratio { num: -2, den: 1 },
        Ratio { num: 5, den: 1 },
    ];
    let mut changed = false;
    for _ in 0..200 {
        let mut m = Matrix::new(3, vec![2, 0, 0, 6, 0, 1, 0, -2, 0, 0, 4, 20]);
        let before = rows_of(&m);
        shuffle_matrix(&mut m, &mut rng, 5, 8);
        assert!(solves(&m, &solution));
        assert_eq!(ranks(&m), (3, 3));
        assert!(all_cells_floatizable(&m));
        if rows_of(&m) != before {
            changed = true;
        }
    }
    assert!(changed);
}

#[test]
fn shuffle_without_sums_permutes_nine_times_in_ten() {
    let mut rng = SmallRng::seed_from_u64(12);
    let cells: Vec<i32> = (0..42).collect();
    let mut kept = 0;
    let mut moved = 0;
    for _ in 0..400 {
        let mut m = Matrix::new(6, cells.clone());
        let before = rows_of(&m);
        shuffle_matrix(&mut m, &mut rng, 1, 1);
        let after = rows_of(&m);
        let mut sorted = after.clone();
        sorted.sort();
        assert_eq!(sorted, before);
        if after == before {
            kept += 1;
        } else {
            moved += 1;
        }
    }
    assert!(kept >= 10 && kept <= 90, "kept {} of 400", kept);
    assert_eq!(kept + moved, 400);
}
