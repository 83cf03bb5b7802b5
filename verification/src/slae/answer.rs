//! What a solver answers, and how the answer is written down.
//!
//! An answer in writing is one of two fixed phrases or a row of numbers
//! parted by white space. This module reads and writes that layout and
//! compares answers; how a single number is read, written and compared is
//! the caller's to say, since the unknowns of a system need not be of one
//! kind of number.
use vstd::prelude::*;
use vstd::string::*;

verus! {

/// The exact quotient `num / den` of two integers.
#[derive(Clone, Copy, Debug)]
pub struct Ratio {
    pub num: i32,
    pub den: i32,
}

/// The outcome of solving a system: infinitely many solutions, none, or
/// the one solution, a value for each unknown.
#[derive(Debug)]
pub enum Answer<S> {
    MANY,
    NONE,
    FOUND(Vec<S>),
}

/// An answer in writing, its numbers not yet read.
#[derive(Debug)]
pub enum Verbal {
    NoSolutions,
    ManySolutions,
    Numbers(Vec<String>),
}

/// What a `Verbal` holds.
pub enum VerbalView {
    NoSolutions,
    ManySolutions,
    Numbers(Seq<Seq<char>>),
}

/// The numerators of `v`.
pub open spec fn numerators(v: Seq<Ratio>) -> Seq<int> {
    Seq::new(v.len(), |i: int| v[i].num as int)
}

/// The denominators of `v`.
pub open spec fn denominators(v: Seq<Ratio>) -> Seq<int> {
    Seq::new(v.len(), |i: int| v[i].den as int)
}

/// The characters of each string of `v`.
pub open spec fn texts(v: Seq<String>) -> Seq<Seq<char>> {
    Seq::new(v.len(), |i: int| v[i]@)
}

/// `c` is white space: a character that Unicode classes as White_Space.
pub open spec fn is_space(c: char) -> bool {
    let u = c as u32;
    ||| 0x09 <= u <= 0x0D
    ||| u == 0x20
    ||| u == 0x85
    ||| u == 0xA0
    ||| u == 0x1680
    ||| 0x2000 <= u <= 0x200A
    ||| u == 0x2028
    ||| u == 0x2029
    ||| u == 0x202F
    ||| u == 0x205F
    ||| u == 0x3000
}

/// `w` can stand between white space as one word: it is not empty and
/// holds no white space.
pub open spec fn is_word(w: Seq<char>) -> bool {
    &&& w.len() > 0
    &&& forall|k: int| 0 <= k < w.len() ==> !is_space(#[trigger] w[k])
}

/// The words of `s`: its longest runs of characters that are not white
/// space, in order.
pub open spec fn words(s: Seq<char>) -> Seq<Seq<char>>
    decreases s.len(),
{
    if s.len() == 0 {
        Seq::empty()
    } else {
        let init = s.drop_last();
        let found = words(init);
        if is_space(s.last()) {
            found
        } else if init.len() == 0 || is_space(init.last()) {
            found.push(seq![s.last()])
        } else {
            found.drop_last().push(found.last().push(s.last()))
        }
    }
}

/// Each word of `t` followed by a space.
pub open spec fn spaced(t: Seq<Seq<char>>) -> Seq<char>
    decreases t.len(),
{
    if t.len() == 0 {
        Seq::empty()
    } else {
        spaced(t.drop_last()) + t.last() + seq![' ']
    }
}

/// What `s` says: one of the two phrases, letter for letter, or else the
/// words of `s` as numbers.
pub open spec fn read_verbal(s: Seq<char>) -> VerbalView {
    if s == "no solutions"@ {
        VerbalView::NoSolutions
    } else if s == "many solutions"@ {
        VerbalView::ManySolutions
    } else {
        VerbalView::Numbers(words(s))
    }
}

/// How `v` is written: a phrase, or each number followed by a space.
pub open spec fn write_verbal(v: VerbalView) -> Seq<char> {
    match v {
        VerbalView::NoSolutions => "no solutions"@,
        VerbalView::ManySolutions => "many solutions"@,
        VerbalView::Numbers(t) => spaced(t),
    }
}

/// `parse` was called on `token` and gave a number.
pub open spec fn can_read<S, F: Fn(&String) -> Result<S, String>>(parse: F, token: String) -> bool {
    exists|x: S| #[trigger] call_ensures(parse, (&token,), Ok::<S, String>(x))
}

/// `r` is what reading the layout `verbal` with `parse` gave: the answer
/// of a phrase; for numbers, what `parse` made of each, or the error of
/// the first that it refused.
pub open spec fn read_out<S, F: Fn(&String) -> Result<S, String>>(
    verbal: Verbal,
    parse: F,
    r: Result<Answer<S>, String>,
) -> bool {
    match verbal {
        Verbal::NoSolutions => r matches Ok(a) && a is NONE,
        Verbal::ManySolutions => r matches Ok(a) && a is MANY,
        Verbal::Numbers(t) => match r {
            Ok(Answer::FOUND(v)) => {
                &&& v@.len() == t@.len()
                &&& forall|i: int|
                    0 <= i < t@.len() ==> call_ensures(
                        parse,
                        (&t@[i],),
                        Ok::<S, String>(#[trigger] v@[i]),
                    )
            },
            Ok(_) => false,
            Err(e) => exists|i: int|
                0 <= i < t@.len() && call_ensures(parse, (&#[trigger] t@[i],), Err::<S, String>(e))
                    && forall|j: int| 0 <= j < i ==> #[trigger] can_read(parse, t@[j]),
        },
    }
}

/// `verbal` is the layout of `a`, each number written with `show`.
pub open spec fn laid_out<S, F: Fn(&S) -> String>(a: Answer<S>, show: F, verbal: Verbal) -> bool {
    match a {
        Answer::NONE => verbal is NoSolutions,
        Answer::MANY => verbal is ManySolutions,
        Answer::FOUND(v) => {
            &&& verbal matches Verbal::Numbers(t)
            &&& t@.len() == v@.len()
            &&& forall|i: int| 0 <= i < v@.len() ==> call_ensures(show, (&v@[i],), #[trigger] t@[i])
        },
    }
}

/// `equal` is what comparing `a` with `b` gave, numbers compared with
/// `close`: true of two answers that both say there are infinitely many
/// solutions, or both that there is none; of two solutions, true only if
/// they are of one length and `close` held of every pair, false only if
/// their lengths differ or `close` failed of some pair; false of any
/// other two.
pub open spec fn compared<S, F: Fn(&S, &S) -> bool>(
    a: Answer<S>,
    b: Answer<S>,
    close: F,
    equal: bool,
) -> bool {
    match a {
        Answer::MANY => equal == (b is MANY),
        Answer::NONE => equal == (b is NONE),
        Answer::FOUND(v) => match b {
            Answer::FOUND(w) => {
                &&& v@.len() != w@.len() ==> !equal
                &&& equal ==> forall|i: int|
                    0 <= i < v@.len() ==> call_ensures(close, (&#[trigger] v@[i], &w@[i]), true)
                &&& !equal && v@.len() == w@.len() ==> exists|i: int|
                    0 <= i < v@.len() && call_ensures(close, (&#[trigger] v@[i], &w@[i]), false)
            },
            _ => !equal,
        },
    }
}

proof fn lemma_words_after_space(s: Seq<char>, c: char)
    requires
        is_space(c),
    ensures
        words(s.push(c)) == words(s),
{
    assert(s.push(c).drop_last() =~= s);
}

proof fn lemma_words_after_word(p: Seq<char>, w: Seq<char>)
    requires
        p.len() == 0 || is_space(p.last()),
        is_word(w),
    ensures
        words(p + w) == words(p).push(w),
    decreases w.len(),
{
    let s = p + w;
    let c = w.last();
    assert(s.last() == c);
    assert(!is_space(c));
    if w.len() == 1 {
        assert(s.drop_last() =~= p);
        assert(w =~= seq![c]);
    } else {
        let v = w.drop_last();
        assert(is_word(v)) by {
            assert forall|k: int| 0 <= k < v.len() implies !is_space(#[trigger] v[k]) by {
                assert(v[k] == w[k]);
            }
        }
        lemma_words_after_word(p, v);
        assert(s.drop_last() =~= p + v);
        assert((p + v).last() == v.last());
        assert(v.last() == w[w.len() - 2]);
        assert(words(p).push(v).drop_last() =~= words(p));
        assert(v.push(c) =~= w);
    }
}

proof fn lemma_spaced_ends_with_space(t: Seq<Seq<char>>)
    ensures
        spaced(t).len() == 0 || spaced(t).last() == ' ',
{
}

/// Reading what was written gives back what was written down, as long as
/// each number was written as a word.
pub proof fn lemma_read_what_was_written(v: VerbalView)
    requires
        v matches VerbalView::Numbers(t) ==> forall|i: int|
            0 <= i < t.len() ==> is_word(#[trigger] t[i]),
    ensures
        read_verbal(write_verbal(v)) == v,
{
    reveal_strlit("no solutions");
    reveal_strlit("many solutions");
    match v {
        VerbalView::NoSolutions => {},
        VerbalView::ManySolutions => {
            assert("many solutions"@.len() != "no solutions"@.len());
        },
        VerbalView::Numbers(t) => {
            lemma_spaced_ends_with_space(t);
            lemma_words_of_spaced(t);
            let s = spaced(t);
            if s.len() > 0 {
                assert("no solutions"@.last() == 's');
                assert("many solutions"@.last() == 's');
            }
        },
    }
}

proof fn lemma_words_of_spaced(t: Seq<Seq<char>>)
    requires
        forall|i: int| 0 <= i < t.len() ==> is_word(#[trigger] t[i]),
    ensures
        words(spaced(t)) == t,
    decreases t.len(),
{
    if t.len() > 0 {
        let init = t.drop_last();
        assert forall|i: int| 0 <= i < init.len() implies is_word(#[trigger] init[i]) by {
            assert(init[i] == t[i]);
        }
        lemma_words_of_spaced(init);
        lemma_spaced_ends_with_space(init);
        lemma_words_after_word(spaced(init), t.last());
        lemma_words_after_space(spaced(init) + t.last(), ' ');
        assert(spaced(t) =~= (spaced(init) + t.last()).push(' '));
        assert(init.push(t.last()) =~= t);
    } else {
        assert(t =~= Seq::<Seq<char>>::empty());
    }
}

/// An answer that was written and read again agrees with itself, as long
/// as every number is written as a word and a number read from what was
/// written for it is close to it.
pub proof fn lemma_answer_survives_writing<
    S,
    Sh: Fn(&S) -> String,
    Pa: Fn(&String) -> Result<S, String>,
    Cl: Fn(&S, &S) -> bool,
>(
    a: Answer<S>,
    show: Sh,
    parse: Pa,
    close: Cl,
    written: Verbal,
    reread: Verbal,
    back: Result<Answer<S>, String>,
    equal: bool,
)
    requires
        forall|x: S, s: String| #[trigger] call_ensures(show, (&x,), s) ==> is_word(s@),
        forall|x: S, s: String, t: String, r: Result<S, String>|
            #![trigger call_ensures(show, (&x,), s), call_ensures(parse, (&t,), r)]
            call_ensures(show, (&x,), s) && t@ == s@ && call_ensures(parse, (&t,), r) ==> (r matches Ok(
                y,
            ) && !call_ensures(close, (&x, &y), false)),
        laid_out(a, show, written),
        reread@ == read_verbal(write_verbal(written@)),
        read_out(reread, parse, back),
        back matches Ok(b) ==> compared(a, b, close, equal),
    ensures
        back is Ok,
        equal,
{
    match a {
        Answer::FOUND(v) => {
            let t = written->Numbers_0;
            assert forall|i: int| 0 <= i < texts(t@).len() implies is_word(
                #[trigger] texts(t@)[i],
            ) by {
                assert(call_ensures(show, (&v@[i],), t@[i]));
            }
            lemma_read_what_was_written(written@);
            let u = reread->Numbers_0;
            assert(texts(u@) == texts(t@));
            assert forall|i: int| 0 <= i < u@.len() implies (#[trigger] u@[i])@ == t@[i]@ by {
                assert(texts(u@)[i] == texts(t@)[i]);
            }
            match back {
                Err(e) => {
                    let i = choose|i: int|
                        0 <= i < u@.len() && call_ensures(
                            parse,
                            (&#[trigger] u@[i],),
                            Err::<S, String>(e),
                        );
                    assert(call_ensures(show, (&v@[i],), t@[i]));
                    assert(u@[i]@ == t@[i]@);
                },
                Ok(b) => {
                    let w = b->FOUND_0;
                    if !equal {
                        let i = choose|i: int|
                            0 <= i < v@.len() && call_ensures(
                                close,
                                (&#[trigger] v@[i], &w@[i]),
                                false,
                            );
                        assert(call_ensures(show, (&v@[i],), t@[i]));
                        assert(u@[i]@ == t@[i]@);
                        assert(call_ensures(parse, (&u@[i],), Ok::<S, String>(w@[i])));
                    }
                },
            }
        },
        _ => {
            lemma_read_what_was_written(written@);
        },
    }
}

proof fn lemma_spaced_push(t: Seq<Seq<char>>, w: Seq<char>)
    ensures
        spaced(t.push(w)) == spaced(t) + w + seq![' '],
{
    assert(t.push(w).drop_last() =~= t);
}

/// Whether `c` is white space.
pub fn is_whitespace(c: char) -> (b: bool)
    ensures
        b == is_space(c),
{
    let u: u32 = c as u32;
    (0x09 <= u && u <= 0x0D) || u == 0x20 || u == 0x85 || u == 0xA0 || u == 0x1680 || (0x2000 <= u
        && u <= 0x200A) || u == 0x2028 || u == 0x2029 || u == 0x202F || u == 0x205F || u == 0x3000
}

fn same_text(a: &str, b: &str) -> (same: bool)
    ensures
        same == (a@ == b@),
{
    let x: String = a.to_owned();
    let y: String = b.to_owned();
    x == y
}

/// The words of `s`.
pub fn split_words(s: &str) -> (tokens: Vec<String>)
    ensures
        texts(tokens@) == words(s@),
{
    let len: usize = s.unicode_len();
    let mut tokens: Vec<String> = Vec::new();
    let mut start: usize = 0;
    let mut inside = false;
    let mut i: usize = 0;
    proof {
        assert(s@.take(0) =~= Seq::<char>::empty());
        assert(texts(tokens@) =~= words(s@.take(0)));
    }
    while i < len
        invariant
            len == s@.len(),
            0 <= i <= len,
            inside ==> start < i && !is_space(s@[i - 1]) && words(s@.take(i as int)) == texts(
                tokens@,
            ).push(s@.subrange(start as int, i as int)),
            !inside ==> (i == 0 || is_space(s@[i - 1])) && words(s@.take(i as int)) == texts(
                tokens@,
            ),
        decreases len - i,
    {
        let c: char = s.get_char(i);
        let ghost seen = s@.take(i as int);
        let ghost next = s@.take(i + 1);
        proof {
            assert(next.drop_last() =~= seen);
            assert(next.last() == c);
            if i > 0 {
                assert(seen.last() == s@[i - 1]);
            }
        }
        if is_whitespace(c) {
            if inside {
                let word: String = s.substring_char(start, i).to_owned();
                proof {
                    assert(texts(tokens@.push(word)) =~= texts(tokens@).push(
                        s@.subrange(start as int, i as int),
                    ));
                }
                tokens.push(word);
                inside = false;
            }
        } else {
            if !inside {
                start = i;
                inside = true;
                proof {
                    assert(s@.subrange(i as int, i + 1) =~= seq![c]);
                }
            } else {
                proof {
                    let word = s@.subrange(start as int, i as int);
                    assert(texts(tokens@).push(word).drop_last() =~= texts(tokens@));
                    assert(word.push(c) =~= s@.subrange(start as int, i + 1));
                }
            }
        }
        i += 1;
    }
    proof {
        assert(s@.take(len as int) =~= s@);
    }
    if inside {
        let word: String = s.substring_char(start, len).to_owned();
        proof {
            assert(texts(tokens@.push(word)) =~= texts(tokens@).push(
                s@.subrange(start as int, len as int),
            ));
        }
        tokens.push(word);
    }
    tokens
}

impl View for Verbal {
    type V = VerbalView;

    open spec fn view(&self) -> VerbalView {
        match self {
            Verbal::NoSolutions => VerbalView::NoSolutions,
            Verbal::ManySolutions => VerbalView::ManySolutions,
            Verbal::Numbers(t) => VerbalView::Numbers(texts(t@)),
        }
    }
}

impl Verbal {
    /// Reads the layout of an answer: a phrase, or numbers parted by
    /// white space.
    pub fn read(s: &str) -> (v: Verbal)
        ensures
            v@ == read_verbal(s@),
    {
        if same_text(s, "no solutions") {
            Verbal::NoSolutions
        } else if same_text(s, "many solutions") {
            Verbal::ManySolutions
        } else {
            Verbal::Numbers(split_words(s))
        }
    }

    /// Writes the answer down: a phrase, or each number followed by a
    /// space.
    pub fn write(&self) -> (s: String)
        ensures
            s@ == write_verbal(self@),
    {
        match self {
            Verbal::NoSolutions => "no solutions".to_owned(),
            Verbal::ManySolutions => "many solutions".to_owned(),
            Verbal::Numbers(t) => {
                let mut s = String::new();
                let mut i: usize = 0;
                proof {
                    reveal_strlit(" ");
                    assert(texts(t@).take(0) =~= Seq::<Seq<char>>::empty());
                    assert(s@ =~= spaced(texts(t@).take(0)));
                }
                while i < t.len()
                    invariant
                        0 <= i <= t@.len(),
                        " "@ == seq![' '],
                        s@ == spaced(texts(t@).take(i as int)),
                    decreases t@.len() - i,
                {
                    proof {
                        lemma_spaced_push(texts(t@).take(i as int), t@[i as int]@);
                        assert(texts(t@).take(i as int).push(t@[i as int]@) =~= texts(t@).take(
                            i + 1,
                        ));
                    }
                    s.append(t[i].as_str());
                    s.append(" ");
                    i += 1;
                }
                proof {
                    assert(texts(t@).take(t@.len() as int) =~= texts(t@));
                }
                s
            },
        }
    }
}

impl<S> Answer<S> {
    /// The values of the unknowns, where the answer gives a solution.
    pub open spec fn values(&self) -> Seq<S> {
        match self {
            Answer::FOUND(v) => v@,
            _ => Seq::empty(),
        }
    }

    /// Turns the layout into an answer, reading each number with `parse`.
    /// The first number that `parse` refuses ends the reading with its
    /// error.
    #[verifier::loop_isolation(false)]
    pub fn from_verbal<F: Fn(&String) -> Result<S, String>>(verbal: &Verbal, parse: F) -> (r:
        Result<Answer<S>, String>)
        requires
            verbal matches Verbal::Numbers(t) ==> forall|i: int|
                0 <= i < t@.len() ==> call_requires(parse, (&#[trigger] t@[i],)),
        ensures
            read_out(*verbal, parse, r),
    {
        match verbal {
            Verbal::NoSolutions => Ok(Answer::NONE),
            Verbal::ManySolutions => Ok(Answer::MANY),
            Verbal::Numbers(t) => {
                let mut v: Vec<S> = Vec::new();
                let mut i: usize = 0;
                while i < t.len()
                    invariant
                        0 <= i <= t@.len(),
                        v@.len() == i,
                        forall|k: int|
                            0 <= k < t@.len() ==> call_requires(parse, (&#[trigger] t@[k],)),
                        forall|k: int|
                            0 <= k < i ==> call_ensures(
                                parse,
                                (&t@[k],),
                                Ok::<S, String>(#[trigger] v@[k]),
                            ),
                        forall|k: int| 0 <= k < i ==> #[trigger] can_read(parse, t@[k]),
                    decreases t@.len() - i,
                {
                    match parse(&t[i]) {
                        Ok(x) => {
                            v.push(x);
                        },
                        Err(e) => {
                            return Err(e);
                        },
                    }
                    i += 1;
                }
                Ok(Answer::FOUND(v))
            },
        }
    }

    /// The layout of the answer, each number written with `show`.
    pub fn to_verbal<F: Fn(&S) -> String>(&self, show: F) -> (verbal: Verbal)
        requires
            self matches Answer::FOUND(v) ==> forall|i: int|
                0 <= i < v@.len() ==> call_requires(show, (&#[trigger] v@[i],)),
        ensures
            laid_out(*self, show, verbal),
    {
        match self {
            Answer::NONE => Verbal::NoSolutions,
            Answer::MANY => Verbal::ManySolutions,
            Answer::FOUND(v) => {
                let mut t: Vec<String> = Vec::new();
                let mut i: usize = 0;
                while i < v.len()
                    invariant
                        0 <= i <= v@.len(),
                        t@.len() == i,
                        forall|k: int|
                            0 <= k < v@.len() ==> call_requires(show, (&#[trigger] v@[k],)),
                        forall|k: int|
                            0 <= k < i ==> call_ensures(show, (&v@[k],), #[trigger] t@[k]),
                    decreases v@.len() - i,
                {
                    t.push(show(&v[i]));
                    i += 1;
                }
                Verbal::Numbers(t)
            },
        }
    }

    /// Whether two answers agree, numbers compared with `close`: both say
    /// that there are infinitely many solutions, or both that there is
    /// none, or both give a solution, of the same length, and `close`
    /// holds of the two values of every unknown.
    #[verifier::loop_isolation(false)]
    pub fn eq_with<F: Fn(&S, &S) -> bool>(&self, other: &Self, close: F) -> (equal: bool)
        requires
            forall|a: &S, b: &S| call_requires(close, (a, b)),
        ensures
            compared(*self, *other, close, equal),
    {
        match self {
            Answer::MANY => {
                match other {
                    Answer::MANY => true,
                    _ => false,
                }
            },
            Answer::NONE => {
                match other {
                    Answer::NONE => true,
                    _ => false,
                }
            },
            Answer::FOUND(a) => {
                match other {
                    Answer::FOUND(b) => {
                        if a.len() != b.len() {
                            return false;
                        }
                        let mut i: usize = 0;
                        while i < a.len()
                            invariant
                                0 <= i <= a@.len(),
                                a@.len() == b@.len(),
                                forall|x: &S, y: &S| call_requires(close, (x, y)),
                                forall|k: int|
                                    0 <= k < i ==> call_ensures(
                                        close,
                                        (&#[trigger] a@[k], &b@[k]),
                                        true,
                                    ),
                            decreases a@.len() - i,
                        {
                            if !close(&a[i], &b[i]) {
                                return false;
                            }
                            i += 1;
                        }
                        true
                    },
                    _ => false,
                }
            },
        }
    }
}

impl<S: Clone> Clone for Answer<S> {
    /// The same answer, with a copy of each value.
    fn clone(&self) -> (copy: Self)
        ensures
            self is MANY ==> copy is MANY,
            self is NONE ==> copy is NONE,
            self is FOUND ==> copy is FOUND && copy.values().len() == self.values().len(),
            forall|i: int|
                0 <= i < self.values().len() ==> cloned(
                    #[trigger] self.values()[i],
                    copy.values()[i],
                ),
    {
        match self {
            Answer::MANY => Answer::MANY,
            Answer::NONE => Answer::NONE,
            Answer::FOUND(v) => Answer::FOUND(v.clone()),
        }
    }
}

} // verus!
