//! The tokenizer: a byte-by-byte state machine with one byte of lookahead. Its behaviour
//! is stated by `lex_next`, which `Lexer::next` follows exactly.
use vstd::prelude::*;
use vstd::string::StringSliceAdditionalSpecFns;
use vstd::utf8::*;

verus! {

broadcast use group_utf8_lib;

pub const QUOTE: u8 = 34;

pub const BACKSLASH: u8 = 92;

pub const DOT: u8 = 46;

pub const MINUS: u8 = 45;

pub const LOWER_E: u8 = 101;

pub const LOWER_T: u8 = 116;

pub const LOWER_F: u8 = 102;

/// A half-open byte range `[start, start + length)` of the input.
#[derive(Debug, PartialEq, Eq, Structural, Clone, Copy)]
pub struct Span {
    pub start: usize,
    pub length: usize,
}

impl Span {
    pub fn new(start: usize, end: usize) -> (r: Span)
        requires
            start <= end,
        ensures
            r.start == start,
            r.start + r.length == end,
    {
        Span { start, length: end - start }
    }

    pub fn as_range(&self) -> (r: std::ops::Range<usize>)
        requires
            self.start + self.length <= usize::MAX,
        ensures
            r.start == self.start,
            r.end == self.start + self.length,
    {
        std::ops::Range { start: self.start, end: self.start + self.length }
    }
}

#[derive(Debug, PartialEq, Eq, Structural, Clone, Copy)]
pub enum TokenKind {
    StartMapping,
    EndMapping,
    StartArray,
    EndArray,
    Separator,
    KeySeparator,
    Spacing,
    TabSpacing,
    NewLine,
    String,
    Integer,
    Boolean,
    Float,
    Reference,
}

impl TokenKind {
    pub open spec fn is_whitespace_kind(self) -> bool {
        self == TokenKind::Spacing || self == TokenKind::TabSpacing || self == TokenKind::NewLine
    }

    /// A literal kind, or the opening of an array or an object.
    pub open spec fn starts_value(self) -> bool {
        match self {
            TokenKind::String | TokenKind::Integer | TokenKind::Boolean | TokenKind::Float
            | TokenKind::Reference | TokenKind::StartMapping | TokenKind::StartArray => true,
            _ => false,
        }
    }
}

/// One token: its kind, where it lies in the input, and the input text it covers.
#[derive(Debug, PartialEq, Eq, Clone, Copy)]
pub struct Token<'a> {
    pub kind: TokenKind,
    pub span: Span,
    pub data: &'a str,
}

/// What a token is, as far as the input bytes go.
pub struct TokModel {
    pub kind: TokenKind,
    pub start: int,
    pub end: int,
}

impl<'a> Token<'a> {
    pub open spec fn model(&self) -> TokModel {
        TokModel {
            kind: self.kind,
            start: self.span.start as int,
            end: self.span.start + self.span.length,
        }
    }

    /// The token's data is exactly the bytes of `text` under its span.
    pub open spec fn lies_in(&self, text: Seq<u8>) -> bool {
        &&& self.span.start + self.span.length <= text.len()
        &&& self.data.spec_bytes() == text.subrange(
            self.span.start as int,
            self.span.start + self.span.length,
        )
    }

    pub fn is_whitespace(&self) -> (r: bool)
        ensures
            r == self.kind.is_whitespace_kind(),
    {
        match self.kind {
            TokenKind::Spacing | TokenKind::TabSpacing | TokenKind::NewLine => true,
            _ => false,
        }
    }

    pub fn is_value_start(&self) -> (r: bool)
        ensures
            r == self.kind.starts_value(),
    {
        match self.kind {
            TokenKind::String | TokenKind::Integer | TokenKind::Boolean | TokenKind::Float
            | TokenKind::Reference | TokenKind::StartMapping | TokenKind::StartArray => true,
            _ => false,
        }
    }
}

/// The tokenizer's state between two characters.
pub struct LexState {
    /// The next byte to read.
    pub cursor: int,
    /// Where the token being scanned starts.
    pub position: int,
    pub in_string: bool,
    pub string_escaped: bool,
    pub in_float: bool,
    pub in_number: bool,
    pub in_ref: bool,
    pub is_error: bool,
}

pub open spec fn initial_state() -> LexState {
    LexState {
        cursor: 0,
        position: 0,
        in_string: false,
        string_escaped: false,
        in_float: false,
        in_number: false,
        in_ref: false,
        is_error: false,
    }
}

pub open spec fn is_digit(c: u8) -> bool {
    48 <= c <= 57
}

pub open spec fn is_snake(c: u8) -> bool {
    c == 95 || is_digit(c) || (65 <= c <= 90) || (97 <= c <= 122)
}

/// The kind of a token made of one structural or whitespace byte.
pub open spec fn single_kind(c: u8) -> Option<TokenKind> {
    if c == 91 {
        Some(TokenKind::StartArray)
    } else if c == 93 {
        Some(TokenKind::EndArray)
    } else if c == 123 {
        Some(TokenKind::StartMapping)
    } else if c == 125 {
        Some(TokenKind::EndMapping)
    } else if c == 44 {
        Some(TokenKind::Separator)
    } else if c == 58 {
        Some(TokenKind::KeySeparator)
    } else if c == 32 {
        Some(TokenKind::Spacing)
    } else if c == 9 {
        Some(TokenKind::TabSpacing)
    } else if c == 10 {
        Some(TokenKind::NewLine)
    } else {
        None
    }
}

/// A numeric literal goes on at byte `j` when that byte is `e`, `-`, `.` or a digit.
pub open spec fn number_goes_on(b: Seq<u8>, j: int) -> bool {
    j < b.len() && (b[j] == LOWER_E || b[j] == MINUS || b[j] == DOT || is_digit(b[j]))
}

pub open spec fn reference_goes_on(b: Seq<u8>, j: int) -> bool {
    j < b.len() && is_snake(b[j])
}

pub open spec fn true_bytes() -> Seq<u8> {
    seq![116u8, 114u8, 117u8, 101u8]
}

pub open spec fn false_bytes() -> Seq<u8> {
    seq![102u8, 97u8, 108u8, 115u8, 101u8]
}

pub open spec fn word_at(b: Seq<u8>, i: int, w: Seq<u8>) -> bool {
    i + w.len() <= b.len() && b.subrange(i, i + w.len()) == w
}

/// What one byte does to the tokenizer.
pub enum Step {
    /// The byte is consumed; scanning goes on from the given state.
    Skip(LexState),
    /// A token of this kind over `[start, end)` is emitted.
    Emit(TokenKind, int, int),
    /// A second `.` inside one number: the tokenizer fails for good.
    Fail,
}

/// The byte at the cursor, read in state `s`. Rules are tried in order: string mode,
/// an opening quote, `.`, a digit (which ends a number unless the next byte keeps it
/// open), `e` inside a number, the words `true` and `false` (only where a run starts),
/// reference bytes, structural and whitespace bytes; any other byte is skipped.
pub open spec fn step(b: Seq<u8>, s: LexState) -> Step {
    let i = s.cursor;
    let c = b[i];
    let adv = LexState { cursor: i + 1, ..s };
    if s.in_string {
        if s.string_escaped {
            Step::Skip(LexState { string_escaped: false, ..adv })
        } else if c == BACKSLASH {
            Step::Skip(LexState { string_escaped: true, ..adv })
        } else if c == QUOTE {
            Step::Emit(TokenKind::String, s.position, i + 1)
        } else {
            Step::Skip(adv)
        }
    } else if c == QUOTE {
        Step::Skip(LexState { in_string: true, ..adv })
    } else if c == DOT {
        if s.in_float {
            Step::Fail
        } else {
            Step::Skip(LexState { in_float: true, ..adv })
        }
    } else if is_digit(c) && !s.in_ref {
        if number_goes_on(b, i + 1) {
            Step::Skip(LexState { in_number: true, ..adv })
        } else if s.in_float {
            Step::Emit(TokenKind::Float, s.position, i + 1)
        } else {
            Step::Emit(TokenKind::Integer, s.position, i + 1)
        }
    } else if c == LOWER_E && !s.in_ref && s.in_number {
        Step::Skip(LexState { in_float: true, ..adv })
    } else if c == LOWER_T && !s.in_ref {
        if word_at(b, i, true_bytes()) {
            Step::Emit(TokenKind::Boolean, i, i + 4)
        } else {
            Step::Skip(adv)
        }
    } else if c == LOWER_F && !s.in_ref {
        if word_at(b, i, false_bytes()) {
            Step::Emit(TokenKind::Boolean, i, i + 5)
        } else {
            Step::Skip(adv)
        }
    } else if is_snake(c) {
        if reference_goes_on(b, i + 1) {
            Step::Skip(LexState { in_ref: true, ..adv })
        } else {
            Step::Emit(TokenKind::Reference, s.position, i + 1)
        }
    } else if single_kind(c) is Some {
        Step::Emit(single_kind(c)->0, s.position, i + 1)
    } else {
        Step::Skip(adv)
    }
}

/// The state right after a token that ends at `end`.
pub open spec fn after_token(end: int) -> LexState {
    LexState { cursor: end, position: end, ..initial_state() }
}

/// The next token from state `s` over input `b`, and the state after it.
pub open spec fn lex_next(b: Seq<u8>, s: LexState) -> (Option<TokModel>, LexState)
    decreases b.len() - s.cursor,
{
    if s.is_error || s.cursor < 0 || s.cursor >= b.len() {
        (None, s)
    } else {
        match step(b, s) {
            Step::Skip(t) => lex_next(b, LexState { cursor: s.cursor + 1, ..t }),
            Step::Emit(kind, start, end) => (
                Some(TokModel { kind, start, end }),
                after_token(end),
            ),
            Step::Fail => (None, LexState { cursor: s.cursor + 1, is_error: true, ..s }),
        }
    }
}

/// Every token from state `s` on, in order, up to the end of the input or a failure.
pub open spec fn lex_all(b: Seq<u8>, s: LexState) -> Seq<TokModel>
    decreases b.len() - s.cursor,
{
    let (next, s1) = lex_next(b, s);
    match next {
        None => Seq::empty(),
        Some(t) => if s.cursor < s1.cursor <= b.len() {
            seq![t] + lex_all(b, s1)
        } else {
            seq![t]
        },
    }
}

/// Once the tokenizer has failed it gives no token again, and its state stays as it is.
pub proof fn lemma_failure_is_permanent(b: Seq<u8>, s: LexState)
    requires
        s.is_error,
    ensures
        lex_next(b, s) == (None::<TokModel>, s),
        lex_all(b, s) == Seq::<TokModel>::empty(),
{
}

/// A `.` read while the number being scanned already holds one puts the tokenizer in its
/// failed state, and no token comes out.
pub proof fn lemma_second_dot_fails(b: Seq<u8>, s: LexState)
    requires
        !s.is_error,
        0 <= s.cursor < b.len(),
        !s.in_string,
        s.in_float,
        b[s.cursor] == DOT,
    ensures
        lex_next(b, s).0 is None,
        lex_next(b, s).1.is_error,
{
}

/// Once the tokenizer has given `None`, it gives `None` again.
pub proof fn lemma_end_is_final(b: Seq<u8>, s: LexState)
    requires
        lex_next(b, s).0 is None,
    ensures
        lex_next(b, lex_next(b, s).1).0 is None,
    decreases b.len() - s.cursor,
{
    if !(s.is_error || s.cursor < 0 || s.cursor >= b.len()) {
        match step(b, s) {
            Step::Skip(t) => lemma_end_is_final(b, LexState { cursor: s.cursor + 1, ..t }),
            _ => {},
        }
    }
}

/// A byte right after an ASCII byte starts a character.
pub proof fn lemma_boundary_after_ascii(b: Seq<u8>, i: int)
    requires
        valid_utf8(b),
        0 <= i < b.len(),
        b[i] < 128,
    ensures
        is_char_boundary(b, i + 1),
{
    if i + 1 < b.len() {
        assert(!is_continuation_byte(b[i]));
        assert(is_char_boundary(b, i));
        let s = b.subrange(i, b.len() as int);
        assert(valid_utf8(s));
        assert(s.len() != 0);
        let p = pop_first_scalar(s);
        assert(length_of_first_scalar(s) == 1);
        assert(valid_utf8(p));
        assert(p.len() != 0);
        assert(valid_first_scalar(p));
        assert(p[0] == b[i + 1]);
        assert(!is_continuation_byte(b[i + 1]));
    }
}

fn is_digit_byte(c: u8) -> (r: bool)
    ensures
        r == is_digit(c),
{
    48 <= c && c <= 57
}

/// An ASCII letter, digit or underscore: a byte that a reference is made of.
pub fn is_snakecase(c: u8) -> (r: bool)
    ensures
        r == is_snake(c),
{
    c == 95 || is_digit_byte(c) || (65 <= c && c <= 90) || (97 <= c && c <= 122)
}

fn single_kind_of(c: u8) -> (r: Option<TokenKind>)
    ensures
        r == single_kind(c),
{
    if c == 91 {
        Some(TokenKind::StartArray)
    } else if c == 93 {
        Some(TokenKind::EndArray)
    } else if c == 123 {
        Some(TokenKind::StartMapping)
    } else if c == 125 {
        Some(TokenKind::EndMapping)
    } else if c == 44 {
        Some(TokenKind::Separator)
    } else if c == 58 {
        Some(TokenKind::KeySeparator)
    } else if c == 32 {
        Some(TokenKind::Spacing)
    } else if c == 9 {
        Some(TokenKind::TabSpacing)
    } else if c == 10 {
        Some(TokenKind::NewLine)
    } else {
        None
    }
}

fn number_goes_on_at(b: &[u8], j: usize) -> (r: bool)
    ensures
        r == number_goes_on(b@, j as int),
{
    j < b.len() && (b[j] == LOWER_E || b[j] == MINUS || b[j] == DOT || is_digit_byte(b[j]))
}

fn reference_goes_on_at(b: &[u8], j: usize) -> (r: bool)
    ensures
        r == reference_goes_on(b@, j as int),
{
    j < b.len() && is_snakecase(b[j])
}

/// Whether the bytes of `b` from `i` on begin with `w`.
fn word_at_exec(b: &[u8], i: usize, w: &[u8]) -> (r: bool)
    ensures
        r == word_at(b@, i as int, w@),
{
    if i > b.len() || w.len() > b.len() - i {
        return false;
    }
    let mut k: usize = 0;
    while k < w.len()
        invariant
            i + w@.len() <= b@.len(),
            b@.len() <= usize::MAX,
            0 <= k <= w@.len(),
            forall|m: int| 0 <= m < k ==> b@[i + m] == w@[m],
        decreases w@.len() - k,
    {
        if b[i + k] != w[k] {
            assert(b@.subrange(i as int, i + w@.len())[k as int] != w@[k as int]);
            return false;
        }
        k = k + 1;
    }
    assert(b@.subrange(i as int, i + w@.len()) =~= w@);
    true
}

/// The tokenizer: a cursor over one input, and the flags of the token being scanned.
#[derive(Debug, Clone)]
pub struct Lexer<'a> {
    text: &'a str,
    cursor: usize,
    position: usize,
    in_string: bool,
    string_escaped: bool,
    in_float: bool,
    in_number: bool,
    in_ref: bool,
    is_error: bool,
}

impl<'a> Lexer<'a> {
    /// The input, as bytes.
    pub closed spec fn text(&self) -> Seq<u8> {
        self.text.spec_bytes()
    }

    pub closed spec fn state(&self) -> LexState {
        LexState {
            cursor: self.cursor as int,
            position: self.position as int,
            in_string: self.in_string,
            string_escaped: self.string_escaped,
            in_float: self.in_float,
            in_number: self.in_number,
            in_ref: self.in_ref,
            is_error: self.is_error,
        }
    }

    pub open spec fn wf(&self) -> bool {
        &&& 0 <= self.state().position <= self.state().cursor <= self.text().len()
        &&& is_char_boundary(self.text(), self.state().position)
    }

    pub fn new(text: &'a str) -> (r: Self)
        ensures
            r.wf(),
            r.text() == text.spec_bytes(),
            r.state() == initial_state(),
    {
        Lexer {
            text,
            cursor: 0,
            position: 0,
            in_string: false,
            string_escaped: false,
            in_float: false,
            in_number: false,
            in_ref: false,
            is_error: false,
        }
    }

    /// The model of what `next` returned.
    pub open spec fn token_model(r: Option<Token<'a>>) -> Option<TokModel> {
        match r {
            Some(t) => Some(t.model()),
            None => None,
        }
    }

    /// Cuts the token `[start, end)` out of the input and moves past it.
    fn emit(&mut self, kind: TokenKind, start: usize, end: usize) -> (r: Token<'a>)
        requires
            !old(self).is_error,
            start <= end <= old(self).text.spec_bytes().len(),
            is_char_boundary(old(self).text.spec_bytes(), start as int),
            is_char_boundary(old(self).text.spec_bytes(), end as int),
        ensures
            final(self).text == old(self).text,
            final(self).wf(),
            final(self).state() == after_token(end as int),
            r.model() == (TokModel { kind, start: start as int, end: end as int }),
            r.lies_in(old(self).text.spec_bytes()),
    {
        let (head, _) = self.text.split_at(end);
        proof {
            assert(head.spec_bytes() =~= self.text.spec_bytes().subrange(0, end as int));
            assert(is_char_boundary(head.spec_bytes(), start as int)) by {
                if start < end {
                    assert(head.spec_bytes()[start as int] == self.text.spec_bytes()[start as int]);
                    if start > 0 {
                        assert(!is_continuation_byte(self.text.spec_bytes()[start as int]));
                    }
                }
            }
        }
        let (_, data) = head.split_at(start);
        proof {
            assert(data.spec_bytes() =~= self.text.spec_bytes().subrange(start as int, end as int));
        }
        self.cursor = end;
        self.position = end;
        self.reset_flags();
        assert(self.state() == after_token(end as int));
        Token { kind, span: Span::new(start, end), data }
    }

    fn reset_flags(&mut self)
        ensures
            final(self).text == old(self).text,
            final(self).cursor == old(self).cursor,
            final(self).position == old(self).position,
            final(self).is_error == old(self).is_error,
            !final(self).in_string,
            !final(self).string_escaped,
            !final(self).in_float,
            !final(self).in_number,
            !final(self).in_ref,
    {
        self.in_float = false;
        self.in_number = false;
        self.in_string = false;
        self.string_escaped = false;
        self.in_ref = false;
    }

    /// The next token, or `None` at the end of the input or once the tokenizer has failed.
    #[verifier::rlimit(60)]
    pub fn next(&mut self) -> (r: Option<Token<'a>>)
        requires
            old(self).wf(),
        ensures
            final(self).wf(),
            final(self).text() == old(self).text(),
            Self::token_model(r) == lex_next(old(self).text(), old(self).state()).0,
            final(self).state() == lex_next(old(self).text(), old(self).state()).1,
            r matches Some(t) ==> t.lies_in(old(self).text()),
            old(self).state().cursor <= final(self).state().cursor,
            r is Some ==> old(self).state().cursor < final(self).state().cursor,
    {
        if self.is_error {
            return None;
        }
        let bytes = self.text.as_bytes();
        let n = bytes.len();
        let ghost b = bytes@;
        let ghost goal = lex_next(b, self.state());
        while self.cursor < n
            invariant
                b == bytes@,
                b == self.text.spec_bytes(),
                n == b.len(),
                self.text == old(self).text,
                self.wf(),
                !self.is_error,
                lex_next(b, self.state()) == goal,
                goal == lex_next(old(self).text(), old(self).state()),
                old(self).cursor <= self.cursor,
            decreases n - self.cursor,
        {
            let i = self.cursor;
            let c = bytes[i];
            let ghost s = self.state();
            proof {
                assert(lex_next(b, s) == match step(b, s) {
                    Step::Skip(t) => lex_next(b, LexState { cursor: s.cursor + 1, ..t }),
                    Step::Emit(kind, start, end) => (
                        Some(TokModel { kind, start, end }),
                        after_token(end),
                    ),
                    Step::Fail => (None, LexState { cursor: s.cursor + 1, is_error: true, ..s }),
                });
                assert(!is_continuation_byte(c) ==> is_char_boundary(b, i as int));
                if c < 128 {
                    lemma_boundary_after_ascii(b, i as int);
                }
            }
            if self.in_string {
                if self.string_escaped {
                    self.string_escaped = false;
                } else if c == BACKSLASH {
                    self.string_escaped = true;
                } else if c == QUOTE {
                    let start = self.position;
                    return Some(self.emit(TokenKind::String, start, i + 1));
                }
            } else if c == QUOTE {
                self.in_string = true;
            } else if c == DOT {
                if self.in_float {
                    self.cursor = i + 1;
                    self.is_error = true;
                    return None;
                }
                self.in_float = true;
            } else if is_digit_byte(c) && !self.in_ref {
                if number_goes_on_at(bytes, i + 1) {
                    self.in_number = true;
                } else {
                    let kind = if self.in_float {
                        TokenKind::Float
                    } else {
                        TokenKind::Integer
                    };
                    let start = self.position;
                    return Some(self.emit(kind, start, i + 1));
                }
            } else if c == LOWER_E && !self.in_ref && self.in_number {
                self.in_float = true;
            } else if c == LOWER_T && !self.in_ref {
                let word: [u8; 4] = [116, 114, 117, 101];
                if word_at_exec(bytes, i, &word) {
                    proof {
                        assert(word@ =~= true_bytes());
                        assert(b[i + 3] == b.subrange(i as int, i + 4)[3]);
                        lemma_boundary_after_ascii(b, i + 3);
                    }
                    return Some(self.emit(TokenKind::Boolean, i, i + 4));
                }
                proof {
                    assert(word@ =~= true_bytes());
                }
            } else if c == LOWER_F && !self.in_ref {
                let word: [u8; 5] = [102, 97, 108, 115, 101];
                if word_at_exec(bytes, i, &word) {
                    proof {
                        assert(word@ =~= false_bytes());
                        assert(b[i + 4] == b.subrange(i as int, i + 5)[4]);
                        lemma_boundary_after_ascii(b, i + 4);
                    }
                    return Some(self.emit(TokenKind::Boolean, i, i + 5));
                }
                proof {
                    assert(word@ =~= false_bytes());
                }
            } else if is_snakecase(c) {
                if reference_goes_on_at(bytes, i + 1) {
                    self.in_ref = true;
                } else {
                    let start = self.position;
                    return Some(self.emit(TokenKind::Reference, start, i + 1));
                }
            } else {
                match single_kind_of(c) {
                    Some(kind) => {
                        let start = self.position;
                        return Some(self.emit(kind, start, i + 1));
                    },
                    None => {},
                }
            }
            self.cursor = i + 1;
        }
        None
    }

    /// Every token that is left, in order.
    pub fn tokens(&mut self) -> (r: Vec<Token<'a>>)
        requires
            old(self).wf(),
        ensures
            final(self).wf(),
            final(self).text() == old(self).text(),
            r@.map_values(|t: Token<'a>| t.model()) == lex_all(old(self).text(), old(self).state()),
            forall|i: int| 0 <= i < r@.len() ==> #[trigger] r@[i].lies_in(old(self).text()),
            lex_next(final(self).text(), final(self).state()).0 is None,
    {
        let ghost b = self.text();
        let ghost goal = lex_all(b, self.state());
        let mut out: Vec<Token<'a>> = Vec::new();
        loop
            invariant
                self.wf(),
                self.text() == b,
                b == old(self).text(),
                goal == lex_all(b, old(self).state()),
                out@.map_values(|t: Token<'a>| t.model()) + lex_all(b, self.state()) == goal,
                forall|i: int| 0 <= i < out@.len() ==> #[trigger] out@[i].lies_in(b),
            decreases b.len() - self.state().cursor,
        {
            let ghost s = self.state();
            match self.next() {
                Some(t) => {
                    let ghost before = out@;
                    out.push(t);
                    proof {
                        assert(lex_all(b, s) == seq![t.model()] + lex_all(b, self.state()));
                        assert(out@.map_values(|t: Token<'a>| t.model()) =~= before.map_values(
                            |t: Token<'a>| t.model(),
                        ).push(t.model()));
                        assert(out@.map_values(|t: Token<'a>| t.model()) + lex_all(b, self.state())
                            =~= before.map_values(|t: Token<'a>| t.model()) + lex_all(b, s));
                    }
                },
                None => {
                    proof {
                        assert(out@.map_values(|t: Token<'a>| t.model()) + lex_all(b, s) =~= out@.map_values(
                            |t: Token<'a>| t.model(),
                        ));
                        lemma_end_is_final(b, s);
                    }
                    return out;
                },
            }
        }
    }

    /// Whether the tokenizer has failed for good.
    pub fn is_error(&self) -> (r: bool)
        ensures
            r == self.state().is_error,
    {
        self.is_error
    }
}

} // verus!
