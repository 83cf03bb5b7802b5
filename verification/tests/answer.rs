use slae_grader::slae::answer::{is_whitespace, split_words, Answer, Ratio, Verbal};
use std::str::FromStr;

fn parse_number(token: &String) -> Result<f32, String> {
    f32::from_str(token).map_err(|e| e.to_string())
}

fn show_number(x: &f32) -> String {
    x.to_string()
}

fn close(a: &f32, b: &f32) -> bool {
    !((a - b).abs() > 0.0001)
}

fn parse(text: &str) -> Result<Answer<f32>, String> {
    Answer::from_verbal(&Verbal::read(text), parse_number)
}

fn serialize(answer: &Answer<f32>) -> String {
    answer.to_verbal(show_number).write()
}

fn numbers(verbal: Verbal) -> Vec<String> {
    match verbal {
        Verbal::Numbers(t) => t,
        _ => panic!("not numbers"),
    }
}

fn found(answer: Answer<f32>) -> Vec<f32> {
    match answer {
        Answer::FOUND(v) => v,
        _ => panic!("not a solution"),
    }
}

#[test]
fn white_space_is_what_the_standard_library_says() {
    for u in 0..0x11_0000u32 {
        if let Some(c) = char::from_u32(u) {
            assert_eq!(is_whitespace(c), c.is_whitespace(), "character {:x}", u);
        }
    }
}

#[test]
fn words_are_what_the_standard_library_splits() {
    let samples = [
        "",
        " ",
        "a",
        " a",
        "a ",
        "1 2 3",
        "  1.5\t-2e3\n\n7  ",
        "no solutions ",
        " many solutions",
        "x\u{00A0}y\u{3000}z\u{2003}w",
        "\u{0085}12\u{2028}13\u{2029}",
        "\u{00E9}t\u{00E9} \u{4E2D}\u{6587}",
        "0.5 0.25 ",
    ];
    for s in samples {
        let expected: Vec<String> = s.split_whitespace().map(|w| w.to_string()).collect();
        assert_eq!(split_words(s), expected, "text {:?}", s);
    }
}

#[test]
fn read_knows_the_two_phrases() {
    assert!(matches!(Verbal::read("no solutions"), Verbal::NoSolutions));
    assert!(matches!(Verbal::read("many solutions"), Verbal::ManySolutions));
}

#[test]
fn read_takes_a_phrase_letter_for_letter_only() {
    assert_eq!(numbers(Verbal::read("many solutions\n")), vec!["many", "solutions"]);
    assert_eq!(numbers(Verbal::read(" no solutions")), vec!["no", "solutions"]);
    assert_eq!(numbers(Verbal::read("No solutions")), vec!["No", "solutions"]);
    assert_eq!(numbers(Verbal::read("many  solutions")), vec!["many", "solutions"]);
}

#[test]
fn read_keeps_the_order_of_the_numbers() {
    assert_eq!(numbers(Verbal::read("3 1 2")), vec!["3", "1", "2"]);
    assert_eq!(numbers(Verbal::read("")), Vec::<String>::new());
    assert_eq!(numbers(Verbal::read(" \n ")), Vec::<String>::new());
}

#[test]
fn write_follows_each_number_with_a_space() {
    assert_eq!(Verbal::NoSolutions.write(), "no solutions");
    assert_eq!(Verbal::ManySolutions.write(), "many solutions");
    assert_eq!(Verbal::Numbers(vec!["1".to_string(), "-2.5".to_string()]).write(), "1 -2.5 ");
    assert_eq!(Verbal::Numbers(Vec::new()).write(), "");
}

#[test]
fn reading_what_was_written_gives_it_back() {
    let cases: Vec<Vec<String>> = vec![
        vec![],
        vec!["1".to_string()],
        vec!["0.5".to_string(), "-3".to_string(), "1e-3".to_string()],
        vec!["no".to_string(), "solutions".to_string()],
    ];
    for tokens in cases {
        let text = Verbal::Numbers(tokens.clone()).write();
        assert_eq!(numbers(Verbal::read(&text)), tokens);
    }
    assert!(matches!(Verbal::read(&Verbal::NoSolutions.write()), Verbal::NoSolutions));
    assert!(matches!(Verbal::read(&Verbal::ManySolutions.write()), Verbal::ManySolutions));
}

#[test]
fn parse_reads_the_phrases_and_the_numbers() {
    assert!(matches!(parse("no solutions"), Ok(Answer::NONE)));
    assert!(matches!(parse("many solutions"), Ok(Answer::MANY)));
    assert_eq!(found(parse("1 2.5 -3e2").unwrap()), vec![1.0, 2.5, -300.0]);
    assert_eq!(found(parse("").unwrap()), Vec::<f32>::new());
}

#[test]
fn parse_fails_on_the_first_bad_number() {
    let expected = f32::from_str("x").unwrap_err().to_string();
    match parse("1 x 2 y") {
        Err(e) => assert_eq!(e, expected),
        Ok(_) => panic!("accepted a malformed answer"),
    }
    assert!(parse("many solutions\n").is_err());
    assert!(parse("1,5").is_err());
}

#[test]
fn serialize_writes_phrases_and_numbers() {
    assert_eq!(serialize(&Answer::NONE), "no solutions");
    assert_eq!(serialize(&Answer::MANY), "many solutions");
    assert_eq!(serialize(&Answer::FOUND(vec![1.0, -2.5, 0.1])), "1 -2.5 0.1 ");
    assert_eq!(serialize(&Answer::FOUND(vec![])), "");
}

#[test]
fn answers_survive_writing_and_reading() {
    let cases: Vec<Answer<f32>> = vec![
        Answer::NONE,
        Answer::MANY,
        Answer::FOUND(vec![]),
        Answer::FOUND(vec![0.0]),
        Answer::FOUND(vec![1.0 / 3.0, -2.0 / 7.0, 100.0, 1e-7, 12345.678]),
        Answer::FOUND(vec![-0.0, 5e10, -99.99]),
    ];
    for a in cases {
        let back = parse(&serialize(&a)).unwrap();
        assert!(a.eq_with(&back, close));
        assert!(back.eq_with(&a, close));
    }
}

#[test]
fn tags_compare_by_tag() {
    let many: Answer<f32> = Answer::MANY;
    let none: Answer<f32> = Answer::NONE;
    let found: Answer<f32> = Answer::FOUND(vec![1.0]);
    assert!(many.eq_with(&Answer::MANY, close));
    assert!(none.eq_with(&Answer::NONE, close));
    assert!(!many.eq_with(&none, close));
    assert!(!none.eq_with(&many, close));
    assert!(!many.eq_with(&found, close));
    assert!(!none.eq_with(&found, close));
    assert!(!found.eq_with(&many, close));
    assert!(!found.eq_with(&none, close));
}

#[test]
fn solutions_compare_within_the_tolerance() {
    let a: Answer<f32> = Answer::FOUND(vec![1.0, 2.0, 3.0]);
    assert!(a.eq_with(&Answer::FOUND(vec![1.0, 2.0, 3.0]), close));
    assert!(a.eq_with(&Answer::FOUND(vec![1.00005, 1.99995, 3.0]), close));
    assert!(!a.eq_with(&Answer::FOUND(vec![1.0, 2.0, 3.001]), close));
    assert!(!a.eq_with(&Answer::FOUND(vec![1.001, 2.0, 3.0]), close));
}

#[test]
fn solutions_of_different_lengths_are_never_equal() {
    let a: Answer<f32> = Answer::FOUND(vec![1.0, 2.0]);
    assert!(!a.eq_with(&Answer::FOUND(vec![1.0]), close));
    assert!(!a.eq_with(&Answer::FOUND(vec![1.0, 2.0, 0.0]), close));
    assert!(!a.eq_with(&Answer::FOUND(vec![]), close));
    let empty: Answer<f32> = Answer::FOUND(vec![]);
    assert!(!empty.eq_with(&a, close));
    assert!(empty.eq_with(&Answer::FOUND(vec![]), close));
}

#[test]
fn comparison_asks_the_caller_about_every_pair() {
    let a: Answer<i32> = Answer::FOUND(vec![1, 2, 3]);
    let b: Answer<i32> = Answer::FOUND(vec![2, 3, 4]);
    assert!(a.eq_with(&b, |x: &i32, y: &i32| x + 1 == *y));
    assert!(!b.eq_with(&a, |x: &i32, y: &i32| x + 1 == *y));
}

#[test]
fn clone_of_an_answer_keeps_it() {
    let a: Answer<f32> = Answer::FOUND(vec![1.5, -2.0]);
    assert_eq!(found(a.clone()), vec![1.5, -2.0]);
    assert!(matches!(Answer::<f32>::MANY.clone(), Answer::MANY));
    assert!(matches!(Answer::<f32>::NONE.clone(), Answer::NONE));
}

#[test]
fn ratios_can_be_shown_as_quotients() {
    let a: Answer<Ratio> = Answer::FOUND(vec![Ratio { num: 1, den: 2 }, Ratio { num: -3, den: 4 }]);
    let text = a.to_verbal(|r: &Ratio| format!("{}/{}", r.num, r.den)).write();
    assert_eq!(text, "1/2 -3/4 ");
}
