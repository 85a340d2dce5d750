//! Input text, character classes and the errors shared by both parsers.
use vstd::prelude::*;

verus! {

/// What the grammar expected where a syntactic failure happened.
#[derive(Clone, Copy, Debug, PartialEq, Eq, Structural)]
pub enum Expected {
    /// This character.
    Char(char),
    /// An ASCII letter.
    Letter,
    /// An ASCII letter or `-`.
    NameChar,
    /// An attribute selector operator.
    Operator,
    /// A character of an attribute value: anything but `"`.
    ValueChar,
    /// A character of text: anything but `<`.
    TextChar,
}

/// What went wrong at a failure position.
#[derive(Clone, Copy, Debug, PartialEq, Eq, Structural)]
pub enum ErrorKind {
    /// The text did not match what the grammar expected at this position.
    Syntax(Expected),
    /// An element's close tag names another tag than its open tag.
    MismatchedTagName,
    /// An attribute selector uses an operator other than `=` or `~=`.
    InvalidAttributeSelectorOp,
    /// Elements are nested deeper than the parse allows.
    NestingTooDeep,
}

/// A failed parse: where it failed, counted in characters, and why.
#[derive(Clone, Copy, Debug, PartialEq, Eq, Structural)]
pub struct ParseError {
    pub position: usize,
    pub kind: ErrorKind,
}

impl ErrorKind {
    /// Whether this is a syntactic failure rather than a semantic one.
    pub fn is_syntax(&self) -> (r: bool)
        ensures
            r == (*self is Syntax),
    {
        match self {
            ErrorKind::Syntax(_) => true,
            _ => false,
        }
    }
}

pub open spec fn fail(position: int, kind: ErrorKind) -> ParseError {
    ParseError { position: position as usize, kind }
}

/// A syntactic failure at `start` consumed nothing: an ordered alternative or
/// a repetition may go on from `start`. Anything else ends the parse.
pub open spec fn is_soft(e: ParseError, start: int) -> bool {
    e.kind is Syntax && e.position == start
}

/// A failure behind a backtracking marker: a syntactic failure is rewound to
/// `start`, a semantic one passes through unchanged.
pub open spec fn rewind(e: ParseError, start: int) -> ParseError {
    if e.kind is Syntax {
        fail(start, e.kind)
    } else {
        e
    }
}

pub open spec fn is_ascii_letter(c: char) -> bool {
    ('a' <= c && c <= 'z') || ('A' <= c && c <= 'Z')
}

/// The sets of characters that the grammars repeat over.
#[derive(Clone, Copy, Debug, PartialEq, Eq, Structural)]
pub enum CharClass {
    /// ASCII letters.
    Letter,
    /// Space and newline.
    Space,
    /// ASCII letters and `-`.
    NameChar,
    /// The characters that make up an attribute selector operator.
    OpChar,
    /// Every character but the one given.
    Except(char),
}

impl CharClass {
    pub open spec fn contains(self, c: char) -> bool {
        match self {
            CharClass::Letter => is_ascii_letter(c),
            CharClass::Space => c == ' ' || c == '\n',
            CharClass::NameChar => is_ascii_letter(c) || c == '-',
            CharClass::OpChar => c == '=' || c == '~' || c == '|' || c == '^' || c == '$' || c
                == '*',
            CharClass::Except(x) => c != x,
        }
    }

    pub fn matches(&self, c: char) -> (r: bool)
        ensures
            r == self.contains(c),
    {
        match self {
            CharClass::Letter => ('a' <= c && c <= 'z') || ('A' <= c && c <= 'Z'),
            CharClass::Space => c == ' ' || c == '\n',
            CharClass::NameChar => ('a' <= c && c <= 'z') || ('A' <= c && c <= 'Z') || c == '-',
            CharClass::OpChar => c == '=' || c == '~' || c == '|' || c == '^' || c == '$' || c
                == '*',
            CharClass::Except(x) => c != *x,
        }
    }
}

/// End of the longest run of characters of `cls` that starts at `i`.
pub open spec fn run_end(s: Seq<char>, i: int, cls: CharClass) -> int
    decreases s.len() - i,
{
    if 0 <= i < s.len() && cls.contains(s[i]) {
        run_end(s, i + 1, cls)
    } else {
        i
    }
}

/// A non-empty run of ASCII letters.
pub open spec fn is_word(t: Seq<char>) -> bool {
    t.len() > 0 && forall|k: int| 0 <= k < t.len() ==> is_ascii_letter(#[trigger] t[k])
}

/// What standing inside `s` at `i` tells of each character.
pub proof fn lemma_subrange_chars(s: Seq<char>, i: int, t: Seq<char>)
    requires
        0 <= i,
        i + t.len() <= s.len(),
        s.subrange(i, i + t.len()) == t,
    ensures
        forall|k: int| 0 <= k < t.len() ==> s[i + k] == #[trigger] t[k],
{
    assert forall|k: int| 0 <= k < t.len() implies s[i + k] == #[trigger] t[k] by {
        assert(s.subrange(i, i + t.len())[k] == s[i + k]);
    }
}

/// End of the (possibly empty) whitespace run at `i`.
pub open spec fn ws_end(s: Seq<char>, i: int) -> int {
    run_end(s, i, CharClass::Space)
}

/// `s` holds `c` at `i`.
pub open spec fn is_at(s: Seq<char>, i: int, c: char) -> bool {
    0 <= i < s.len() && s[i] == c
}

pub proof fn lemma_run_end_bounds(s: Seq<char>, i: int, cls: CharClass)
    requires
        0 <= i <= s.len(),
    ensures
        i <= run_end(s, i, cls) <= s.len(),
        forall|k: int| i <= k < run_end(s, i, cls) ==> cls.contains(#[trigger] s[k]),
        run_end(s, i, cls) < s.len() ==> !cls.contains(s[run_end(s, i, cls)]),
    decreases s.len() - i,
{
    if i < s.len() && cls.contains(s[i]) {
        lemma_run_end_bounds(s, i + 1, cls);
    }
}

/// A run ends where the first character outside the class stands.
pub proof fn lemma_run_end_at(s: Seq<char>, i: int, j: int, cls: CharClass)
    requires
        0 <= i <= j <= s.len(),
        forall|k: int| i <= k < j ==> cls.contains(#[trigger] s[k]),
        j == s.len() || !cls.contains(s[j]),
    ensures
        run_end(s, i, cls) == j,
    decreases j - i,
{
    if i < j {
        lemma_run_end_at(s, i + 1, j, cls);
    }
}

fn to_chars(text: &str) -> (r: Vec<char>)
    ensures
        r@ == text@,
{
    let mut v: Vec<char> = Vec::new();
    for c in it: text.chars()
        invariant
            v@ == it.seq().take(it.index() as int),
    {
        v.push(c);
    }
    v
}

/// Text to parse, with its characters at hand by index.
pub struct Source<'a> {
    pub text: &'a str,
    pub chars: Vec<char>,
}

impl<'a> Source<'a> {
    pub open spec fn wf(&self) -> bool {
        &&& self.chars@ == self.text@
        &&& self.chars@.len() <= usize::MAX
    }

    pub open spec fn view(&self) -> Seq<char> {
        self.text@
    }

    pub fn new(text: &'a str) -> (r: Source<'a>)
        ensures
            r.wf(),
            r@ == text@,
    {
        let chars = to_chars(text);
        let _n: usize = chars.len();
        Source { text, chars }
    }

    /// Whether the character at `i` is `c`.
    pub fn is_at(&self, i: usize, c: char) -> (r: bool)
        requires
            self.wf(),
        ensures
            r == is_at(self@, i as int, c),
    {
        i < self.chars.len() && self.chars[i] == c
    }

    /// End of the run of characters of `cls` at `i`.
    pub fn scan(&self, i: usize, cls: CharClass) -> (r: usize)
        requires
            self.wf(),
            i <= self@.len(),
        ensures
            r == run_end(self@, i as int, cls),
            i <= r <= self@.len(),
    {
        let mut j: usize = i;
        while j < self.chars.len() && cls.matches(self.chars[j])
            invariant
                self.wf(),
                i <= j <= self@.len(),
                run_end(self@, j as int, cls) == run_end(self@, i as int, cls),
            decreases self@.len() - j,
        {
            j = j + 1;
        }
        j
    }

    /// End of the whitespace run at `i`.
    pub fn skip_ws(&self, i: usize) -> (r: usize)
        requires
            self.wf(),
            i <= self@.len(),
        ensures
            r == ws_end(self@, i as int),
            i <= r <= self@.len(),
    {
        self.scan(i, CharClass::Space)
    }

    /// The characters from `from` up to `to`, as a string.
    pub fn slice(&self, from: usize, to: usize) -> (r: String)
        requires
            from <= to <= self@.len(),
        ensures
            r@ == self@.subrange(from as int, to as int),
    {
        String::from_str(self.text.substring_char(from, to))
    }

    /// What is left of the text from `from` on.
    pub fn rest(&self, from: usize) -> (r: &'a str)
        requires
            self.wf(),
            from <= self@.len(),
        ensures
            r@ == self@.subrange(from as int, self@.len() as int),
    {
        self.text.substring_char(from, self.chars.len())
    }
}

/// A parse result in model terms: the value's view and where the parse ended.
pub open spec fn model_of<T: View>(r: Result<(T, usize), ParseError>) -> Result<(T::V, int), ParseError> {
    match r {
        Ok((v, j)) => Ok((v@, j as int)),
        Err(e) => Err(e),
    }
}

/// `r`, a result that carries the rest of the text, is what `expected` says
/// for the text `s`.
pub open spec fn outcome<T: View>(
    r: Result<(T, &str), ParseError>,
    s: Seq<char>,
    expected: Result<(T::V, int), ParseError>,
) -> bool {
    match r {
        Ok((v, rest)) => match expected {
            Ok((m, j)) => v@ == m && rest@ == s.subrange(j, s.len() as int),
            Err(_) => false,
        },
        Err(e) => expected == Err::<(T::V, int), ParseError>(e),
    }
}

/// The views of the items of `v`, in order.
pub open spec fn views<T: View>(v: Seq<T>) -> Seq<T::V> {
    v.map_values(|x: T| x@)
}

/// A list result in model terms.
pub open spec fn list_model_of<T: View>(r: Result<(Vec<T>, usize), ParseError>) -> Result<
    (Seq<T::V>, int),
    ParseError,
> {
    match r {
        Ok((v, j)) => Ok((views(v@), j as int)),
        Err(e) => Err(e),
    }
}

/// `r`, a list result that carries the rest of the text, is what `expected`
/// says for the text `s`.
pub open spec fn list_outcome<T: View>(
    r: Result<(Vec<T>, &str), ParseError>,
    s: Seq<char>,
    expected: Result<(Seq<T::V>, int), ParseError>,
) -> bool {
    match r {
        Ok((v, rest)) => match expected {
            Ok((m, j)) => views(v@) == m && rest@ == s.subrange(j, s.len() as int),
            Err(_) => false,
        },
        Err(e) => expected == Err::<(Seq<T::V>, int), ParseError>(e),
    }
}

/// `head` in front of the items of a list result; an error stays as it is.
pub open spec fn prepend<M>(head: Seq<M>, r: Result<(Seq<M>, int), ParseError>) -> Result<
    (Seq<M>, int),
    ParseError,
> {
    match r {
        Ok((v, j)) => Ok((head + v, j)),
        Err(e) => Err(e),
    }
}

/// An ordered alternative: `first`, unless it failed softly at `start`, in
/// which case `next`.
pub open spec fn or_else<M>(first: Result<(M, int), ParseError>, start: int, next: Result<
    (M, int),
    ParseError,
>) -> Result<(M, int), ParseError> {
    match first {
        Err(e) => if is_soft(e, start) {
            next
        } else {
            first
        },
        Ok(_) => first,
    }
}

pub proof fn lemma_prepend_push<M>(acc: Seq<M>, x: M, r: Result<(Seq<M>, int), ParseError>)
    ensures
        prepend(acc, prepend(seq![x], r)) == prepend(acc.push(x), r),
{
    match r {
        Ok((v, j)) => {
            assert(acc + (seq![x] + v) =~= acc.push(x) + v);
        },
        Err(_) => {},
    }
}

} // verus!
