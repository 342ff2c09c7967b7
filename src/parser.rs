//! The parser: pulls tokens on demand and builds one value tree. `parse_from` states what
//! it returns for every input and tokenizer state.
use crate::lexer::{lemma_boundary_after_ascii, lex_next, LexState, Lexer, TokModel, Token, TokenKind, QUOTE};
use crate::literal::{
    bool_literal, float_literal, int_literal, is_float_literal, parse_boolean, parse_integer,
    strip_quotes,
};
use crate::value::{keys_distinct, lemma_entry_models_index, obj_insert, Model, ValueRef};
use vstd::prelude::*;
use vstd::string::StringSliceAdditionalSpecFns;
use vstd::utf8::*;

verus! {

broadcast use group_utf8_lib;

#[derive(Debug, PartialEq, Eq, Structural, Clone, Copy)]
pub enum ErrorKind {
    /// The tokenizer had already failed when parsing began.
    Lexer,
    /// A token stands where the grammar does not allow it.
    InvalidToken,
    InvalidInteger,
    InvalidBoolean,
    InvalidNumber,
    /// Two separators in a row inside an array.
    DoubleSeparators,
    /// The tokens ran out before a value was complete.
    NoValue,
}

#[derive(Debug, PartialEq, Eq, Structural, Clone, Copy)]
pub struct Error {
    pub kind: ErrorKind,
}

impl Error {
    pub fn invalid_token() -> (r: Error)
        ensures
            r.kind == ErrorKind::InvalidToken,
    {
        Error { kind: ErrorKind::InvalidToken }
    }
}

/// The value of a literal token with text `d`.
pub open spec fn scalar_of(d: Seq<u8>, kind: TokenKind) -> Result<Model, ErrorKind> {
    match kind {
        TokenKind::String => Ok(Model::Str(strip_quotes(d))),
        TokenKind::Integer => match int_literal(d) {
            Some(v) => Ok(Model::Int(v)),
            None => Err(ErrorKind::InvalidInteger),
        },
        TokenKind::Boolean => match bool_literal(d) {
            Some(v) => Ok(Model::Bool(v)),
            None => Err(ErrorKind::InvalidBoolean),
        },
        TokenKind::Float => if float_literal(d) {
            Ok(Model::Num(d))
        } else {
            Err(ErrorKind::InvalidNumber)
        },
        TokenKind::Reference => Ok(Model::Ref(d)),
        _ => Err(ErrorKind::InvalidToken),
    }
}

/// The tokenizer moved forward and stayed inside the input.
pub open spec fn moved(b: Seq<u8>, s: LexState, s1: LexState) -> bool {
    s.cursor < s1.cursor <= b.len()
}

pub open spec fn kept(b: Seq<u8>, s: LexState, s1: LexState) -> bool {
    s.cursor <= s1.cursor <= b.len()
}

/// The value that starts with token `t`, the tokenizer being in state `s` after `t`.
pub open spec fn value_of(b: Seq<u8>, s: LexState, t: TokModel) -> (
    Result<Model, ErrorKind>,
    LexState,
)
    decreases b.len() - s.cursor, 1int,
{
    if t.kind == TokenKind::StartArray {
        array_of(b, s, Seq::empty(), false)
    } else if t.kind == TokenKind::StartMapping {
        object_of(b, s, Seq::empty(), None, false)
    } else {
        (scalar_of(b.subrange(t.start, t.end), t.kind), s)
    }
}

/// The rest of an array whose elements so far are `acc`; `sep` tells whether the last
/// token that counts was a separator.
pub open spec fn array_of(b: Seq<u8>, s: LexState, acc: Seq<Model>, sep: bool) -> (
    Result<Model, ErrorKind>,
    LexState,
)
    decreases b.len() - s.cursor, 0int,
{
    let (next, s1) = lex_next(b, s);
    match next {
        None => (Err(ErrorKind::NoValue), s1),
        Some(t) => if !moved(b, s, s1) {
            (Err(ErrorKind::NoValue), s1)
        } else if t.kind == TokenKind::Separator {
            if sep {
                (Err(ErrorKind::DoubleSeparators), s1)
            } else {
                array_of(b, s1, acc, true)
            }
        } else if t.kind.starts_value() {
            let (r, s2) = value_of(b, s1, t);
            match r {
                Err(e) => (Err(e), s2),
                Ok(v) => if kept(b, s1, s2) {
                    array_of(b, s2, acc.push(v), false)
                } else {
                    (Err(ErrorKind::NoValue), s2)
                },
            }
        } else if t.kind == TokenKind::EndArray {
            (Ok(Model::Arr(acc)), s1)
        } else if t.kind.is_whitespace_kind() {
            array_of(b, s1, acc, sep)
        } else {
            (Err(ErrorKind::InvalidToken), s1)
        },
    }
}

/// The rest of an object whose entries so far are `acc`, with the key that waits for a
/// value and whether its `:` has come.
pub open spec fn object_of(
    b: Seq<u8>,
    s: LexState,
    acc: Seq<(Seq<u8>, Model)>,
    key: Option<Seq<u8>>,
    colon: bool,
) -> (Result<Model, ErrorKind>, LexState)
    decreases b.len() - s.cursor, 0int,
{
    let (next, s1) = lex_next(b, s);
    match next {
        None => (Err(ErrorKind::NoValue), s1),
        Some(t) => if !moved(b, s, s1) {
            (Err(ErrorKind::NoValue), s1)
        } else if t.kind.starts_value() && colon && key is Some {
            let (r, s2) = value_of(b, s1, t);
            match r {
                Err(e) => (Err(e), s2),
                Ok(v) => if kept(b, s1, s2) {
                    object_of(b, s2, obj_insert(acc, key->0, v), key, colon)
                } else {
                    (Err(ErrorKind::NoValue), s2)
                },
            }
        } else if t.kind == TokenKind::String {
            object_of(b, s1, acc, Some(strip_quotes(b.subrange(t.start, t.end))), colon)
        } else if t.kind == TokenKind::KeySeparator && key is Some {
            object_of(b, s1, acc, key, true)
        } else if t.kind == TokenKind::Separator {
            object_of(b, s1, acc, None, false)
        } else if t.kind == TokenKind::EndMapping {
            (Ok(Model::Obj(acc)), s1)
        } else if t.kind.is_whitespace_kind() {
            object_of(b, s1, acc, key, colon)
        } else {
            (Err(ErrorKind::InvalidToken), s1)
        },
    }
}

/// The top level: every token up to the end is read; the last complete value wins.
pub open spec fn document_of(b: Seq<u8>, s: LexState, item: Option<Model>) -> Result<
    Model,
    ErrorKind,
>
    decreases b.len() - s.cursor,
{
    let (next, s1) = lex_next(b, s);
    match next {
        None => match item {
            Some(v) => Ok(v),
            None => Err(ErrorKind::NoValue),
        },
        Some(t) => if !moved(b, s, s1) {
            Err(ErrorKind::NoValue)
        } else if t.kind.is_whitespace_kind() {
            document_of(b, s1, item)
        } else if t.kind.starts_value() {
            let (r, s2) = value_of(b, s1, t);
            match r {
                Err(e) => Err(e),
                Ok(v) => if kept(b, s1, s2) {
                    document_of(b, s2, Some(v))
                } else {
                    Err(ErrorKind::NoValue)
                },
            }
        } else {
            Err(ErrorKind::InvalidToken)
        },
    }
}

/// What parsing does from tokenizer state `s`.
pub open spec fn parse_from(b: Seq<u8>, s: LexState) -> Result<Model, ErrorKind> {
    if s.is_error {
        Err(ErrorKind::Lexer)
    } else {
        document_of(b, s, None)
    }
}

/// What parsing a whole text gives.
pub open spec fn parse_text(b: Seq<u8>) -> Result<Model, ErrorKind> {
    parse_from(b, crate::lexer::initial_state())
}

pub open spec fn result_model<'a>(r: Result<ValueRef<'a>, Error>) -> Result<Model, ErrorKind> {
    match r {
        Ok(v) => Ok(v.model()),
        Err(e) => Err(e.kind),
    }
}

/// Parsing is a function of the text: two parsers built independently over equal texts
/// give equal value trees, or equal errors.
pub proof fn lemma_parse_deterministic<'x, 'y>(
    t1: &'x str,
    t2: &'y str,
    r1: Result<ValueRef<'x>, Error>,
    r2: Result<ValueRef<'y>, Error>,
)
    requires
        t1@ == t2@,
        result_model(r1) == parse_text(t1.spec_bytes()),
        result_model(r2) == parse_text(t2.spec_bytes()),
    ensures
        result_model(r1) == result_model(r2),
{
}

/// A parser over a tokenizer that has already failed reports `Lexer`.
pub proof fn lemma_failed_tokenizer_reports_lexer(b: Seq<u8>, s: LexState)
    requires
        s.is_error,
    ensures
        parse_from(b, s) == Err::<Model, ErrorKind>(ErrorKind::Lexer),
{
}

/// A tokenizer that fails on the first token that parsing pulls is not told apart from an
/// empty input: parsing reports `NoValue`.
pub proof fn lemma_failure_while_parsing_reports_no_value(b: Seq<u8>, s: LexState)
    requires
        !s.is_error,
        lex_next(b, s).0 is None,
    ensures
        parse_from(b, s) == Err::<Model, ErrorKind>(ErrorKind::NoValue),
{
}

/// Whether two byte strings are equal.
fn bytes_equal(a: &[u8], b: &[u8]) -> (r: bool)
    ensures
        r == (a@ == b@),
{
    if a.len() != b.len() {
        return false;
    }
    let mut i: usize = 0;
    while i < a.len()
        invariant
            a@.len() == b@.len(),
            0 <= i <= a@.len(),
            forall|k: int| 0 <= k < i ==> a@[k] == b@[k],
        decreases a@.len() - i,
    {
        if a[i] != b[i] {
            return false;
        }
        i = i + 1;
    }
    assert(a@ =~= b@);
    true
}

/// The text inside a string token's quotes.
fn unquote<'a>(data: &'a str) -> (r: &'a str)
    ensures
        r.spec_bytes() == strip_quotes(data.spec_bytes()),
{
    let bytes = data.as_bytes();
    let n = bytes.len();
    let ghost d = data.spec_bytes();
    let lo: usize = if n > 0 && bytes[0] == QUOTE {
        1
    } else {
        0
    };
    let hi: usize = if n >= 2 && bytes[n - 1] == QUOTE {
        n - 1
    } else {
        n
    };
    proof {
        if hi < n {
            assert(!is_continuation_byte(d[hi as int]));
        }
        if lo == 1 {
            lemma_boundary_after_ascii(d, 0);
        }
    }
    let (head, _) = data.split_at(hi);
    proof {
        assert(head.spec_bytes() =~= d.subrange(0, hi as int));
        if lo == 1 && hi > 1 {
            assert(head.spec_bytes()[1] == d[1]);
            assert(!is_continuation_byte(d[1]));
        }
    }
    let (_, inner) = head.split_at(lo);
    proof {
        assert(inner.spec_bytes() =~= d.subrange(lo as int, hi as int));
    }
    inner
}

/// Binds `key` to `v` in `obj`, in place of an entry with the same key.
fn insert_entry<'a>(obj: &mut Vec<(&'a str, ValueRef<'a>)>, key: &'a str, v: ValueRef<'a>)
    requires
        keys_distinct(ValueRef::entry_models(old(obj)@)),
    ensures
        ValueRef::entry_models(final(obj)@) == obj_insert(
            ValueRef::entry_models(old(obj)@),
            key.spec_bytes(),
            v.model(),
        ),
        keys_distinct(ValueRef::entry_models(final(obj)@)),
{
    let ghost m = ValueRef::entry_models(obj@);
    proof {
        lemma_entry_models_index(obj@);
    }
    let kb = key.as_bytes();
    let mut j: usize = 0;
    while j < obj.len()
        invariant
            m == ValueRef::entry_models(obj@),
            m.len() == obj@.len(),
            forall|i: int|
                0 <= i < m.len() ==> #[trigger] m[i] == (obj@[i].0.spec_bytes(), obj@[i].1.model()),
            obj@ == old(obj)@,
            keys_distinct(m),
            kb@ == key.spec_bytes(),
            0 <= j <= obj@.len(),
            forall|i: int| 0 <= i < j ==> m[i].0 != key.spec_bytes(),
        decreases obj@.len() - j,
    {
        if bytes_equal(obj[j].0.as_bytes(), kb) {
            let ghost mv = (key.spec_bytes(), v.model());
            obj[j] = (key, v);
            proof {
                assert(m[j as int].0 == key.spec_bytes());
                lemma_entry_models_index(obj@);
                assert(ValueRef::entry_models(obj@) =~= m.update(j as int, mv));
                let c = choose|c: int| 0 <= c < m.len() && #[trigger] m[c].0 == key.spec_bytes();
                assert(c == j);
                assert(keys_distinct(m.update(j as int, mv)));
            }
            return;
        }
        j = j + 1;
    }
    let ghost mv = (key.spec_bytes(), v.model());
    obj.push((key, v));
    proof {
        lemma_entry_models_index(obj@);
        assert(ValueRef::entry_models(obj@) =~= m.push(mv));
        assert(!(exists|c: int| 0 <= c < m.len() && #[trigger] m[c].0 == key.spec_bytes()));
        assert(keys_distinct(m.push(mv)));
    }
}

pub open spec fn option_model<'a>(item: Option<ValueRef<'a>>) -> Option<Model> {
    match item {
        Some(v) => Some(v.model()),
        None => None,
    }
}

/// A parser: pulls tokens from its tokenizer and builds one value tree.
#[derive(Debug)]
pub struct Parser<'a> {
    lexer: Lexer<'a>,
}

impl<'a> Parser<'a> {
    /// The input, as bytes.
    pub closed spec fn text(&self) -> Seq<u8> {
        self.lexer.text()
    }

    pub closed spec fn state(&self) -> LexState {
        self.lexer.state()
    }

    pub closed spec fn wf(&self) -> bool {
        self.lexer.wf()
    }

    pub fn from_str(text: &'a str) -> (r: Self)
        ensures
            r.wf(),
            r.text() == text.spec_bytes(),
            r.state() == crate::lexer::initial_state(),
    {
        Parser { lexer: Lexer::new(text) }
    }

    pub fn from_lexer(lexer: Lexer<'a>) -> (r: Self)
        requires
            lexer.wf(),
        ensures
            r.wf(),
            r.text() == lexer.text(),
            r.state() == lexer.state(),
    {
        Parser { lexer }
    }

    /// Parses the input into one value: `Lexer` if the tokenizer had already failed,
    /// else the last complete value at the top level.
    pub fn to_value(&mut self) -> (r: Result<ValueRef<'a>, Error>)
        requires
            old(self).wf(),
        ensures
            result_model(r) == parse_from(old(self).text(), old(self).state()),
    {
        if self.lexer.is_error() {
            return Err(Error { kind: ErrorKind::Lexer });
        }
        let ghost b = self.text();
        let ghost goal = document_of(b, self.state(), None);
        let mut item: Option<ValueRef<'a>> = None;
        loop
            invariant
                self.wf(),
                self.text() == b,
                goal == parse_from(old(self).text(), old(self).state()),
                document_of(b, self.state(), option_model(item)) == goal,
            decreases b.len() - self.state().cursor,
        {
            let ghost s = self.state();
            match self.lexer.next() {
                None => {
                    return match item {
                        Some(v) => Ok(v),
                        None => Err(Error { kind: ErrorKind::NoValue }),
                    };
                },
                Some(t) => {
                    if t.is_whitespace() {
                    } else if t.is_value_start() {
                        match self.value_from_token(t) {
                            Ok(v) => {
                                item = Some(v);
                            },
                            Err(e) => {
                                return Err(e);
                            },
                        }
                    } else {
                        return Err(Error::invalid_token());
                    }
                },
            }
        }
    }

    /// The value that starts with token `t`, which was just pulled.
    fn value_from_token(&mut self, t: Token<'a>) -> (r: Result<ValueRef<'a>, Error>)
        requires
            old(self).wf(),
            t.lies_in(old(self).text()),
            t.kind.starts_value(),
        ensures
            final(self).wf(),
            final(self).text() == old(self).text(),
            (result_model(r), final(self).state()) == value_of(
                old(self).text(),
                old(self).state(),
                t.model(),
            ),
            kept(old(self).text(), old(self).state(), final(self).state()),
        decreases old(self).text().len() - old(self).state().cursor, 1int,
    {
        let ghost d = self.text().subrange(t.model().start, t.model().end);
        match t.kind {
            TokenKind::StartArray => self.value_array(),
            TokenKind::StartMapping => self.value_mapping(),
            TokenKind::String => Ok(ValueRef::String(unquote(t.data))),
            TokenKind::Integer => match parse_integer(t.data.as_bytes()) {
                Some(v) => Ok(ValueRef::Integer(v)),
                None => Err(Error { kind: ErrorKind::InvalidInteger }),
            },
            TokenKind::Boolean => match parse_boolean(t.data.as_bytes()) {
                Some(v) => Ok(ValueRef::Boolean(v)),
                None => Err(Error { kind: ErrorKind::InvalidBoolean }),
            },
            TokenKind::Float => {
                if is_float_literal(t.data.as_bytes()) {
                    Ok(ValueRef::Number(t.data))
                } else {
                    Err(Error { kind: ErrorKind::InvalidNumber })
                }
            },
            TokenKind::Reference => Ok(ValueRef::Reference(t.data)),
            _ => Err(Error::invalid_token()),
        }
    }

    /// The rest of an array, after its `[`.
    fn value_array(&mut self) -> (r: Result<ValueRef<'a>, Error>)
        requires
            old(self).wf(),
        ensures
            final(self).wf(),
            final(self).text() == old(self).text(),
            (result_model(r), final(self).state()) == array_of(
                old(self).text(),
                old(self).state(),
                Seq::empty(),
                false,
            ),
            kept(old(self).text(), old(self).state(), final(self).state()),
        decreases old(self).text().len() - old(self).state().cursor, 0int,
    {
        let ghost b = self.text();
        let ghost goal = array_of(b, self.state(), Seq::empty(), false);
        let mut array: Vec<ValueRef<'a>> = Vec::new();
        let mut separator = false;
        proof {
            assert(ValueRef::models(array@) =~= Seq::empty());
        }
        loop
            invariant
                self.wf(),
                self.text() == b,
                b == old(self).text(),
                goal == array_of(b, old(self).state(), Seq::empty(), false),
                array_of(b, self.state(), ValueRef::models(array@), separator) == goal,
                kept(b, old(self).state(), self.state()),
            decreases b.len() - self.state().cursor,
        {
            let ghost s = self.state();
            match self.lexer.next() {
                None => {
                    return Err(Error { kind: ErrorKind::NoValue });
                },
                Some(t) => {
                    if t.kind == TokenKind::Separator {
                        if separator {
                            return Err(Error { kind: ErrorKind::DoubleSeparators });
                        }
                        separator = true;
                    } else if t.is_value_start() {
                        match self.value_from_token(t) {
                            Ok(v) => {
                                let ghost before = array@;
                                array.push(v);
                                proof {
                                    assert(array@.drop_last() =~= before);
                                }
                                separator = false;
                            },
                            Err(e) => {
                                return Err(e);
                            },
                        }
                    } else if t.kind == TokenKind::EndArray {
                        return Ok(ValueRef::Array(array));
                    } else if t.is_whitespace() {
                    } else {
                        return Err(Error::invalid_token());
                    }
                },
            }
        }
    }

    /// The rest of an object, after its `{`.
    fn value_mapping(&mut self) -> (r: Result<ValueRef<'a>, Error>)
        requires
            old(self).wf(),
        ensures
            final(self).wf(),
            final(self).text() == old(self).text(),
            (result_model(r), final(self).state()) == object_of(
                old(self).text(),
                old(self).state(),
                Seq::empty(),
                None,
                false,
            ),
            kept(old(self).text(), old(self).state(), final(self).state()),
        decreases old(self).text().len() - old(self).state().cursor, 0int,
    {
        let ghost b = self.text();
        let ghost goal = object_of(b, self.state(), Seq::empty(), None, false);
        let mut map: Vec<(&'a str, ValueRef<'a>)> = Vec::new();
        let mut key: Option<&'a str> = None;
        let mut key_separator = false;
        proof {
            assert(ValueRef::entry_models(map@) =~= Seq::empty());
        }
        loop
            invariant
                self.wf(),
                self.text() == b,
                b == old(self).text(),
                goal == object_of(b, old(self).state(), Seq::empty(), None, false),
                keys_distinct(ValueRef::entry_models(map@)),
                object_of(
                    b,
                    self.state(),
                    ValueRef::entry_models(map@),
                    match key {
                        Some(k) => Some(k.spec_bytes()),
                        None => None,
                    },
                    key_separator,
                ) == goal,
                kept(b, old(self).state(), self.state()),
            decreases b.len() - self.state().cursor,
        {
            match self.lexer.next() {
                None => {
                    return Err(Error { kind: ErrorKind::NoValue });
                },
                Some(t) => {
                    if t.is_value_start() && key_separator && key.is_some() {
                        match self.value_from_token(t) {
                            Ok(v) => {
                                let k = key.unwrap();
                                insert_entry(&mut map, k, v);
                            },
                            Err(e) => {
                                return Err(e);
                            },
                        }
                    } else if t.kind == TokenKind::String {
                        key = Some(unquote(t.data));
                    } else if t.kind == TokenKind::KeySeparator && key.is_some() {
                        key_separator = true;
                    } else if t.kind == TokenKind::Separator {
                        key_separator = false;
                        key = None;
                    } else if t.kind == TokenKind::EndMapping {
                        return Ok(ValueRef::Object(map));
                    } else if t.is_whitespace() {
                    } else {
                        return Err(Error::invalid_token());
                    }
                },
            }
        }
    }
}

} // verus!
