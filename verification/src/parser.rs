//! The recursive-descent parser: a forward-only cursor over the token
//! sequence, producing one value tree or the first error.
//!
//! `spec_parse_value` and its companions are the mathematical statement of
//! the parse; the `Parser` methods are the executable parser, proved to
//! return exactly what the statement says.

use vstd::prelude::*;

use crate::token::JsonError;
use crate::token::Lexeme;
use crate::token::Token;
use crate::token::lex_of;
use crate::token::lex_seq;
use crate::value::JsonValue;
use crate::value::Node;
use crate::value::all_keys_unique;
use crate::value::elems_model;
use crate::value::entry_values_keys_unique;
use crate::value::keys_unique;
use crate::value::lemma_all_keys_unique_pointwise;
use crate::value::lemma_upsert_keys_unique;
use crate::value::lemma_upsert_values_keys_unique;
use crate::value::node_keys_unique;
use crate::value::entries_model;
use crate::value::lemma_elems_model_push;
use crate::value::lemma_entries_model;
use crate::value::lemma_entries_model_push;
use crate::value::lemma_entries_model_update;
use crate::value::lemma_upsert_found;
use crate::value::lemma_upsert_missing;
use crate::value::node_of;
use crate::value::upsert;

verus! {

/// The cursor a sub-parse hands back, guarded for the termination checker:
/// a value parse always leaves the cursor further on and within bounds, and
/// the executable parser proves the guard never takes the second arm.
pub open spec fn step_to(lo: int, j: int, len: int) -> int {
    if lo < j && j <= len {
        j
    } else {
        len
    }
}

/// One value beginning at token `i`: the node it denotes and the cursor
/// after it, or the first error.  Dispatch is by the token at `i`.
pub open spec fn spec_parse_value(toks: Seq<Lexeme>, i: int) -> Result<(Node, int), JsonError>
    decreases toks.len() - i, 1int,
{
    if i >= toks.len() {
        Err(JsonError::UnexpectedEnd)
    } else {
        match toks[i] {
            Lexeme::LeftBrace => spec_parse_object(toks, i + 1),
            Lexeme::LeftBracket => spec_parse_array(toks, i + 1),
            Lexeme::Strng(s) => Ok((Node::Strng(s), i + 1)),
            Lexeme::Number(run) => Ok((Node::Number(run), i + 1)),
            Lexeme::Boolean(b) => Ok((Node::Boolean(b), i + 1)),
            Lexeme::Null => Ok((Node::Null, i + 1)),
            _ => Err(JsonError::UnexpectedToken(i as usize)),
        }
    }
}

/// An object body, from the token after the opening brace.  Only an
/// immediately closing brace makes the empty object; once a member has been
/// read, a comma demands another member, so a comma right before the
/// closing brace fails the key check below.
pub open spec fn spec_parse_object(toks: Seq<Lexeme>, i: int) -> Result<(Node, int), JsonError>
    decreases toks.len() - i, 3int,
{
    if i >= toks.len() {
        Err(JsonError::UnclosedObject)
    } else if toks[i] is RightBrace {
        Ok((Node::Object(Seq::empty()), i + 1))
    } else {
        spec_parse_members(toks, i, Seq::empty())
    }
}

/// The members of an object from `i` on, a member being expected at `i`:
/// a string key, a colon, a value, then a comma or the closing brace.
pub open spec fn spec_parse_members(
    toks: Seq<Lexeme>,
    i: int,
    acc: Seq<(Seq<char>, Node)>,
) -> Result<(Node, int), JsonError>
    decreases toks.len() - i, 2int,
{
    if i >= toks.len() {
        Err(JsonError::UnclosedObject)
    } else {
        match toks[i] {
            Lexeme::Strng(key) => {
                if i + 1 >= toks.len() || !(toks[i + 1] is Colon) {
                    Err(JsonError::ExpectedColon((i + 1) as usize))
                } else {
                    match spec_parse_value(toks, i + 2) {
                        Ok((v, j0)) => {
                            let j = step_to(i + 2, j0, toks.len() as int);
                            if j >= toks.len() {
                                Err(JsonError::UnclosedObject)
                            } else if toks[j] is Comma {
                                spec_parse_members(toks, j + 1, upsert(acc, key, v))
                            } else if toks[j] is RightBrace {
                                Ok((Node::Object(upsert(acc, key, v)), j + 1))
                            } else {
                                Err(JsonError::ExpectedCommaOrBrace(j as usize))
                            }
                        },
                        Err(e) => Err(e),
                    }
                }
            },
            _ => Err(JsonError::KeyNotString(i as usize)),
        }
    }
}

/// An array body, from the token after the opening bracket.  Only an
/// immediately closing bracket makes the empty array; once an element has
/// been read, a comma demands another element, so a comma right before the
/// closing bracket fails the value dispatch.
pub open spec fn spec_parse_array(toks: Seq<Lexeme>, i: int) -> Result<(Node, int), JsonError>
    decreases toks.len() - i, 3int,
{
    if i >= toks.len() {
        Err(JsonError::UnclosedArray)
    } else if toks[i] is RightBracket {
        Ok((Node::Array(Seq::empty()), i + 1))
    } else {
        spec_parse_elements(toks, i, Seq::empty())
    }
}

/// The elements of an array from `i` on, an element being expected at `i`:
/// a value, then a comma or the closing bracket.
pub open spec fn spec_parse_elements(toks: Seq<Lexeme>, i: int, acc: Seq<Node>) -> Result<
    (Node, int),
    JsonError,
>
    decreases toks.len() - i, 2int,
{
    if i >= toks.len() {
        Err(JsonError::UnclosedArray)
    } else {
        match spec_parse_value(toks, i) {
            Ok((v, j0)) => {
                let j = step_to(i, j0, toks.len() as int);
                if j >= toks.len() {
                    Err(JsonError::UnclosedArray)
                } else if toks[j] is Comma {
                    spec_parse_elements(toks, j + 1, acc.push(v))
                } else if toks[j] is RightBracket {
                    Ok((Node::Array(acc.push(v)), j + 1))
                } else {
                    Err(JsonError::ExpectedCommaOrBracket(j as usize))
                }
            },
            Err(e) => Err(e),
        }
    }
}

/// Key uniqueness is enforced at insertion time, so every object anywhere
/// in a parsed tree has unique keys: the object invariant, stated of the
/// parse itself.
pub proof fn lemma_parse_value_keys_unique(toks: Seq<Lexeme>, i: int)
    ensures
        spec_parse_value(toks, i) matches Ok(p) ==> node_keys_unique(p.0),
    decreases toks.len() - i, 1int,
{
    if i < toks.len() {
        match toks[i] {
            Lexeme::LeftBrace => lemma_parse_object_keys_unique(toks, i + 1),
            Lexeme::LeftBracket => lemma_parse_array_keys_unique(toks, i + 1),
            _ => {},
        }
    }
}

proof fn lemma_parse_object_keys_unique(toks: Seq<Lexeme>, i: int)
    ensures
        spec_parse_object(toks, i) matches Ok(p) ==> node_keys_unique(p.0),
    decreases toks.len() - i, 3int,
{
    if i < toks.len() && !(toks[i] is RightBrace) {
        lemma_parse_members_keys_unique(toks, i, Seq::empty());
    }
}

proof fn lemma_parse_members_keys_unique(toks: Seq<Lexeme>, i: int, acc: Seq<(Seq<char>, Node)>)
    requires
        keys_unique(acc),
        entry_values_keys_unique(acc),
    ensures
        spec_parse_members(toks, i, acc) matches Ok(p) ==> node_keys_unique(p.0),
    decreases toks.len() - i, 2int,
{
    if i < toks.len() {
        match toks[i] {
            Lexeme::Strng(key) => {
                if i + 1 < toks.len() && toks[i + 1] is Colon {
                    lemma_parse_value_keys_unique(toks, i + 2);
                    match spec_parse_value(toks, i + 2) {
                        Ok((v, j0)) => {
                            let j = step_to(i + 2, j0, toks.len() as int);
                            if j < toks.len() {
                                lemma_upsert_keys_unique(acc, key, v);
                                lemma_upsert_values_keys_unique(acc, key, v);
                                if toks[j] is Comma {
                                    lemma_parse_members_keys_unique(
                                        toks,
                                        j + 1,
                                        upsert(acc, key, v),
                                    );
                                }
                            }
                        },
                        Err(_) => {},
                    }
                }
            },
            _ => {},
        }
    }
}

proof fn lemma_parse_array_keys_unique(toks: Seq<Lexeme>, i: int)
    ensures
        spec_parse_array(toks, i) matches Ok(p) ==> node_keys_unique(p.0),
    decreases toks.len() - i, 3int,
{
    if i < toks.len() && !(toks[i] is RightBracket) {
        lemma_parse_elements_keys_unique(toks, i, Seq::empty());
    }
}

proof fn lemma_parse_elements_keys_unique(toks: Seq<Lexeme>, i: int, acc: Seq<Node>)
    requires
        all_keys_unique(acc),
    ensures
        spec_parse_elements(toks, i, acc) matches Ok(p) ==> node_keys_unique(p.0),
    decreases toks.len() - i, 2int,
{
    if i < toks.len() {
        lemma_parse_value_keys_unique(toks, i);
        match spec_parse_value(toks, i) {
            Ok((v, j0)) => {
                let j = step_to(i, j0, toks.len() as int);
                if j < toks.len() {
                    lemma_all_keys_unique_pointwise(acc);
                    lemma_all_keys_unique_pointwise(acc.push(v));
                    assert forall|m: int| 0 <= m < acc.push(v).len() implies node_keys_unique(
                        #[trigger] acc.push(v)[m],
                    ) by {
                        if m < acc.len() {
                            assert(acc.push(v)[m] == acc[m]);
                        } else {
                            assert(acc.push(v)[m] == v);
                        }
                    }
                    if toks[j] is Comma {
                        lemma_parse_elements_keys_unique(toks, j + 1, acc.push(v));
                    }
                }
            },
            Err(_) => {},
        }
    }
}

/// Insert one member into the list under construction, overwriting the
/// value of a key already present so that the last write wins.
#[verifier::loop_isolation(false)]
fn upsert_entry(entries: &mut Vec<(String, JsonValue)>, key: String, value: JsonValue)
    ensures
        entries_model(final(entries)@) == upsert(
            entries_model(old(entries)@),
            key@,
            node_of(value),
        ),
{
    let n = entries.len();
    let mut k: usize = 0;
    while k < n
        invariant
            k <= n,
            n == entries@.len(),
            entries@ == old(entries)@,
            forall|m: int| 0 <= m < k ==> (#[trigger] entries@[m]).0@ != key@,
        decreases n - k,
    {
        if entries[k].0 == key {
            proof {
                lemma_entries_model(entries@);
                assert forall|m: int| 0 <= m < k implies (#[trigger] entries_model(
                    entries@,
                )[m]).0 != key@ by {
                    assert(entries_model(entries@)[m] == (entries@[m].0@, node_of(entries@[m].1)));
                }
                lemma_upsert_found(entries_model(entries@), key@, node_of(value), k as int);
                lemma_entries_model_update(entries@, k as int, key, value);
            }
            entries.set(k, (key, value));
            return ;
        }
        k = k + 1;
    }
    proof {
        lemma_entries_model(entries@);
        assert forall|m: int| 0 <= m < entries_model(entries@).len() implies (
        #[trigger] entries_model(entries@)[m]).0 != key@ by {
            assert(entries_model(entries@)[m] == (entries@[m].0@, node_of(entries@[m].1)));
        }
        lemma_upsert_missing(entries_model(entries@), key@, node_of(value));
        lemma_entries_model_push(entries@, key, value);
    }
    entries.push((key, value));
}

/// The parser: the token sequence and a forward-only cursor into it.
pub struct Parser {
    tokens: Vec<Token>,
    current: usize,
}

impl Parser {
    /// The model of the token sequence being parsed.
    pub closed spec fn toks(&self) -> Seq<Lexeme> {
        lex_seq(self.tokens@)
    }

    /// The cursor: the index of the next token to consume.
    pub closed spec fn cursor(&self) -> int {
        self.current as int
    }

    /// The cursor never stands past the end of the sequence.
    pub closed spec fn wf(&self) -> bool {
        self.current <= self.tokens@.len()
    }

    /// A parser over the given tokens, with the cursor at the start.
    pub fn new(tokens: Vec<Token>) -> (r: Parser)
        ensures
            r.toks() == lex_seq(tokens@),
            r.cursor() == 0,
            r.wf(),
    {
        Parser { tokens, current: 0 }
    }

    /// The token at the cursor, if any, without advancing.
    pub fn peek(&self) -> (r: Option<&Token>)
        requires
            self.wf(),
        ensures
            match r {
                Some(t) => self.cursor() < self.toks().len() && lex_of(*t)
                    == self.toks()[self.cursor()],
                None => self.cursor() >= self.toks().len(),
            },
    {
        if self.current < self.tokens.len() {
            Some(&self.tokens[self.current])
        } else {
            None
        }
    }

    /// Move the cursor past the token it stands on, if any, and return that
    /// token.
    pub fn advance(&mut self) -> (r: Option<&Token>)
        requires
            old(self).wf(),
        ensures
            final(self).wf(),
            final(self).toks() == old(self).toks(),
            match r {
                Some(t) => old(self).cursor() < old(self).toks().len() && final(self).cursor()
                    == old(self).cursor() + 1 && lex_of(*t)
                    == old(self).toks()[old(self).cursor()],
                None => old(self).cursor() >= old(self).toks().len() && final(self).cursor()
                    == old(self).cursor(),
            },
    {
        if self.current < self.tokens.len() {
            let i = self.current;
            self.current = self.current + 1;
            Some(&self.tokens[i])
        } else {
            None
        }
    }

    /// Parse one value from the cursor on.  Tokens after that value are
    /// left unconsumed, as the cursor design has it: the caller sees where
    /// the cursor stopped.
    pub fn parse(&mut self) -> (r: Result<JsonValue, JsonError>)
        requires
            old(self).wf(),
        ensures
            final(self).wf(),
            final(self).toks() == old(self).toks(),
            old(self).cursor() <= final(self).cursor(),
            match r {
                Ok(v) => spec_parse_value(old(self).toks(), old(self).cursor()) == Ok::<
                    (Node, int),
                    JsonError,
                >((v@, final(self).cursor())),
                Err(e) => spec_parse_value(old(self).toks(), old(self).cursor()) == Err::<
                    (Node, int),
                    JsonError,
                >(e),
            },
    {
        self.parse_value()
    }

    /// One value at the cursor, dispatched on the token there.
    pub fn parse_value(&mut self) -> (r: Result<JsonValue, JsonError>)
        requires
            old(self).wf(),
        ensures
            final(self).wf(),
            final(self).toks() == old(self).toks(),
            old(self).cursor() <= final(self).cursor(),
            match r {
                Ok(v) => old(self).cursor() < final(self).cursor() && spec_parse_value(
                    old(self).toks(),
                    old(self).cursor(),
                ) == Ok::<(Node, int), JsonError>((v@, final(self).cursor())),
                Err(e) => spec_parse_value(old(self).toks(), old(self).cursor()) == Err::<
                    (Node, int),
                    JsonError,
                >(e),
            },
        decreases old(self).toks().len() - old(self).cursor(), 1int,
    {
        let n = self.tokens.len();
        if self.current >= n {
            return Err(JsonError::UnexpectedEnd);
        }
        if matches!(self.tokens[self.current], Token::LeftBrace) {
            self.parse_object()
        } else if matches!(self.tokens[self.current], Token::LeftBracket) {
            self.parse_array()
        } else {
            let item: Result<JsonValue, JsonError> = match &self.tokens[self.current] {
                Token::String(s) => Ok(JsonValue::String(s.clone())),
                Token::Number(t) => Ok(JsonValue::Number(t.clone())),
                Token::Boolean(b) => Ok(JsonValue::Boolean(*b)),
                Token::Null => Ok(JsonValue::Null),
                _ => Err(JsonError::UnexpectedToken(self.current)),
            };
            match item {
                Ok(v) => {
                    self.advance();
                    Ok(v)
                },
                Err(e) => Err(e),
            }
        }
    }

    /// An object: the cursor stands on the opening brace, which is consumed
    /// here.
    #[verifier::loop_isolation(false)]
    pub fn parse_object(&mut self) -> (r: Result<JsonValue, JsonError>)
        requires
            old(self).wf(),
            old(self).cursor() < old(self).toks().len(),
            old(self).toks()[old(self).cursor()] is LeftBrace,
        ensures
            final(self).wf(),
            final(self).toks() == old(self).toks(),
            old(self).cursor() <= final(self).cursor(),
            match r {
                Ok(v) => old(self).cursor() < final(self).cursor() && spec_parse_object(
                    old(self).toks(),
                    old(self).cursor() + 1,
                ) == Ok::<(Node, int), JsonError>((v@, final(self).cursor())),
                Err(e) => spec_parse_object(old(self).toks(), old(self).cursor() + 1) == Err::<
                    (Node, int),
                    JsonError,
                >(e),
            },
        decreases old(self).toks().len() - old(self).cursor(), 0int,
    {
        let ghost t0 = self.toks();
        let ghost i0 = self.cursor();
        self.advance();
        let n = self.tokens.len();
        if self.current >= n {
            return Err(JsonError::UnclosedObject);
        }
        if matches!(self.tokens[self.current], Token::RightBrace) {
            self.advance();
            let empty: Vec<(String, JsonValue)> = Vec::new();
            proof {
                assert(entries_model(empty@) =~= Seq::<(Seq<char>, Node)>::empty());
            }
            return Ok(JsonValue::Object(empty));
        }
        let mut entries: Vec<(String, JsonValue)> = Vec::new();
        proof {
            assert(entries_model(entries@) =~= Seq::<(Seq<char>, Node)>::empty());
        }
        loop
            invariant
                self.wf(),
                self.toks() == t0,
                n == self.tokens@.len(),
                i0 < self.cursor() <= n,
                spec_parse_object(t0, i0 + 1) == spec_parse_members(
                    t0,
                    self.cursor(),
                    entries_model(entries@),
                ),
            decreases n - self.cursor(),
        {
            if self.current >= n {
                return Err(JsonError::UnclosedObject);
            }
            let ghost ik = self.cursor();
            let key: String = match &self.tokens[self.current] {
                Token::String(s) => s.clone(),
                _ => {
                    return Err(JsonError::KeyNotString(self.current));
                },
            };
            self.advance();
            if self.current >= n || !matches!(self.tokens[self.current], Token::Colon) {
                return Err(JsonError::ExpectedColon(self.current));
            }
            self.advance();
            let value = match self.parse_value() {
                Ok(v) => v,
                Err(e) => {
                    return Err(e);
                },
            };
            let ghost jv = self.cursor();
            proof {
                assert(step_to(ik + 2, jv, n as int) == jv);
            }
            upsert_entry(&mut entries, key, value);
            if self.current >= n {
                return Err(JsonError::UnclosedObject);
            }
            if matches!(self.tokens[self.current], Token::Comma) {
                self.advance();
            } else if matches!(self.tokens[self.current], Token::RightBrace) {
                self.advance();
                return Ok(JsonValue::Object(entries));
            } else {
                return Err(JsonError::ExpectedCommaOrBrace(self.current));
            }
        }
    }

    /// An array: the cursor stands on the opening bracket, which is
    /// consumed here.
    #[verifier::loop_isolation(false)]
    pub fn parse_array(&mut self) -> (r: Result<JsonValue, JsonError>)
        requires
            old(self).wf(),
            old(self).cursor() < old(self).toks().len(),
            old(self).toks()[old(self).cursor()] is LeftBracket,
        ensures
            final(self).wf(),
            final(self).toks() == old(self).toks(),
            old(self).cursor() <= final(self).cursor(),
            match r {
                Ok(v) => old(self).cursor() < final(self).cursor() && spec_parse_array(
                    old(self).toks(),
                    old(self).cursor() + 1,
                ) == Ok::<(Node, int), JsonError>((v@, final(self).cursor())),
                Err(e) => spec_parse_array(old(self).toks(), old(self).cursor() + 1) == Err::<
                    (Node, int),
                    JsonError,
                >(e),
            },
        decreases old(self).toks().len() - old(self).cursor(), 0int,
    {
        let ghost t0 = self.toks();
        let ghost i0 = self.cursor();
        self.advance();
        let n = self.tokens.len();
        if self.current >= n {
            return Err(JsonError::UnclosedArray);
        }
        if matches!(self.tokens[self.current], Token::RightBracket) {
            self.advance();
            let empty: Vec<JsonValue> = Vec::new();
            proof {
                assert(elems_model(empty@) =~= Seq::<Node>::empty());
            }
            return Ok(JsonValue::Array(empty));
        }
        let mut elems: Vec<JsonValue> = Vec::new();
        proof {
            assert(elems_model(elems@) =~= Seq::<Node>::empty());
        }
        loop
            invariant
                self.wf(),
                self.toks() == t0,
                n == self.tokens@.len(),
                i0 < self.cursor() <= n,
                spec_parse_array(t0, i0 + 1) == spec_parse_elements(
                    t0,
                    self.cursor(),
                    elems_model(elems@),
                ),
            decreases n - self.cursor(),
        {
            if self.current >= n {
                return Err(JsonError::UnclosedArray);
            }
            let ghost ie = self.cursor();
            let value = match self.parse_value() {
                Ok(v) => v,
                Err(e) => {
                    return Err(e);
                },
            };
            let ghost jv = self.cursor();
            proof {
                assert(step_to(ie, jv, n as int) == jv);
                lemma_elems_model_push(elems@, value);
            }
            elems.push(value);
            if self.current >= n {
                return Err(JsonError::UnclosedArray);
            }
            if matches!(self.tokens[self.current], Token::Comma) {
                self.advance();
            } else if matches!(self.tokens[self.current], Token::RightBracket) {
                self.advance();
                return Ok(JsonValue::Array(elems));
            } else {
                return Err(JsonError::ExpectedCommaOrBracket(self.current));
            }
        }
    }
}

} // verus!

