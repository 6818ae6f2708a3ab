//! The tokenizer and the parser of the query language.

use vstd::prelude::*;
use vstd::string::{StrSliceExecFns, StringExecFns};
use crate::keys::{compare_keys, KeyOrder};
use crate::engine::naming::{digits_value, lemma_digits_value_grows};
use crate::query::ast::{
    clause_model, texts_of, values_of, Condition, DeleteStatement, InsertStatement,
    SelectStatement, Statement, Value, WhereClause,
};
use crate::query::grammar::{
    all_digits, column_list, comparison, condition, plain_count, deletion, insertion, limit_clause,
    selection, statement, value_list, value_of, where_clause,
};
use crate::query::literal::is_number_literal;
use vstd::string::StringSliceAdditionalSpecFns;
use crate::text::{to_upper, upper_of};
use crate::types::{DbError, DbResult};

verus! {

/// Where the tokenizer stands: the tokens made, the token in the making,
/// and whether it is inside a quoted string.
pub struct ScanState {
    pub tokens: Seq<Seq<char>>,
    pub current: Seq<char>,
    pub in_string: bool,
}

/// The tokens made, with the token in the making if it holds anything.
pub open spec fn flushed(st: ScanState) -> Seq<Seq<char>> {
    if st.current.len() > 0 {
        st.tokens.push(st.current)
    } else {
        st.tokens
    }
}

pub open spec fn is_space(c: char) -> bool {
    c == ' ' || c == '\t' || c == '\n' || c == '\r'
}

pub open spec fn is_punctuation(c: char) -> bool {
    c == ',' || c == '(' || c == ')' || c == ';'
}

pub open spec fn is_sign(c: char) -> bool {
    c == '=' || c == '!' || c == '>' || c == '<'
}

/// Whether two signs make one operator: `!=`, `>=`, `<=` or `<>`.
pub open spec fn is_pair(a: char, b: char) -> bool {
    (a == '!' && b == '=') || (a == '>' && b == '=') || (a == '<' && b == '=') || (a == '<' && b
        == '>')
}

/// The state after the tokens made so far, with nothing in the making.
pub open spec fn after(tokens: Seq<Seq<char>>) -> ScanState {
    ScanState { tokens, current: Seq::empty(), in_string: false }
}

/// The tokens of the text from `i` on, continuing from a state.
///
/// A quote opens or closes a string, which is one token with its quotes.
/// Outside a string, blanks end a token; `,`, `(`, `)` and `;` are tokens
/// of their own; a sign is a token, together with the next character where
/// the two make an operator; a sign that ends the text is dropped.
pub open spec fn scan(s: Seq<char>, i: int, st: ScanState) -> Seq<Seq<char>>
    decreases s.len() - i,
{
    if i < 0 || i >= s.len() {
        flushed(st)
    } else {
        let c = s[i];
        if c == '\'' {
            if st.in_string {
                scan(s, i + 1, after(st.tokens.push(st.current.push(c))))
            } else {
                scan(s, i + 1, ScanState { tokens: flushed(st), current: seq![c], in_string: true })
            }
        } else if st.in_string {
            scan(s, i + 1, ScanState { current: st.current.push(c), ..st })
        } else if is_space(c) {
            scan(s, i + 1, after(flushed(st)))
        } else if is_punctuation(c) {
            scan(s, i + 1, after(flushed(st).push(seq![c])))
        } else if is_sign(c) {
            if i + 1 < s.len() {
                if is_pair(c, s[i + 1]) {
                    scan(s, i + 2, after(flushed(st).push(seq![c, s[i + 1]])))
                } else {
                    scan(s, i + 1, after(flushed(st).push(seq![c])))
                }
            } else {
                scan(s, i + 1, after(flushed(st)))
            }
        } else {
            scan(s, i + 1, ScanState { current: st.current.push(c), ..st })
        }
    }
}

/// The tokens of a text.
pub open spec fn tokens_of(s: Seq<char>) -> Seq<Seq<char>> {
    scan(s, 0, after(Seq::empty()))
}

/// Ends the token in the making, which is the text from `start` to `end`.
fn flush_token(tokens: &mut Vec<String>, sql: &str, start: usize, end: usize)
    requires
        start <= end <= sql@.len(),
    ensures
        texts_of(final(tokens)@) == flushed(
            ScanState {
                tokens: texts_of(old(tokens)@),
                current: sql@.subrange(start as int, end as int),
                in_string: false,
            },
        ),
{
    if start < end {
        tokens.push(String::from_str(sql.substring_char(start, end)));
        proof {
            assert(texts_of(tokens@) =~= texts_of(old(tokens)@).push(
                sql@.subrange(start as int, end as int),
            ));
        }
    }
}

/// Splits a statement into tokens.
pub fn tokenize(sql: &str) -> (r: Vec<String>)
    ensures
        texts_of(r@) == tokens_of(sql@),
{
    let mut tokens: Vec<String> = Vec::new();
    let n: usize = sql.unicode_len();
    let ghost s = sql@;
    let mut start: usize = 0;
    let mut in_string = false;
    let mut i: usize = 0;
    proof {
        assert(texts_of(tokens@) =~= Seq::<Seq<char>>::empty());
        assert(s.subrange(0, 0) =~= Seq::<char>::empty());
    }
    while i < n
        invariant
            n == s.len(),
            s == sql@,
            start <= i <= n,
            tokens_of(s) == scan(
                s,
                i as int,
                ScanState {
                    tokens: texts_of(tokens@),
                    current: s.subrange(start as int, i as int),
                    in_string,
                },
            ),
        decreases n - i,
    {
        let c = sql.get_char(i);
        let ghost before = texts_of(tokens@);
        let ghost current = s.subrange(start as int, i as int);
        if c == '\'' {
            if in_string {
                tokens.push(String::from_str(sql.substring_char(start, i + 1)));
                proof {
                    assert(s.subrange(start as int, i + 1) =~= current.push(c));
                    assert(texts_of(tokens@) =~= before.push(current.push(c)));
                    assert(s.subrange(i + 1, i + 1) =~= Seq::<char>::empty());
                }
                in_string = false;
                start = i + 1;
            } else {
                flush_token(&mut tokens, sql, start, i);
                proof {
                    assert(s.subrange(i as int, i + 1) =~= seq![c]);
                }
                in_string = true;
                start = i;
            }
            i += 1;
        } else if in_string {
            proof {
                assert(s.subrange(start as int, i + 1) =~= current.push(c));
            }
            i += 1;
        } else if c == ' ' || c == '\t' || c == '\n' || c == '\r' {
            flush_token(&mut tokens, sql, start, i);
            proof {
                assert(s.subrange(i + 1, i + 1) =~= Seq::<char>::empty());
            }
            start = i + 1;
            i += 1;
        } else if c == ',' || c == '(' || c == ')' || c == ';' {
            flush_token(&mut tokens, sql, start, i);
            let ghost mid = texts_of(tokens@);
            tokens.push(String::from_str(sql.substring_char(i, i + 1)));
            proof {
                assert(s.subrange(i as int, i + 1) =~= seq![c]);
                assert(texts_of(tokens@) =~= mid.push(seq![c]));
                assert(s.subrange(i + 1, i + 1) =~= Seq::<char>::empty());
            }
            start = i + 1;
            i += 1;
        } else if c == '=' || c == '!' || c == '>' || c == '<' {
            flush_token(&mut tokens, sql, start, i);
            let ghost mid = texts_of(tokens@);
            if i + 1 < n {
                let d = sql.get_char(i + 1);
                if (c == '!' && d == '=') || (c == '>' && d == '=') || (c == '<' && d == '=') || (c
                    == '<' && d == '>') {
                    tokens.push(String::from_str(sql.substring_char(i, i + 2)));
                    proof {
                        assert(s.subrange(i as int, i + 2) =~= seq![c, d]);
                        assert(texts_of(tokens@) =~= mid.push(seq![c, d]));
                        assert(s.subrange(i + 2, i + 2) =~= Seq::<char>::empty());
                    }
                    start = i + 2;
                    i += 2;
                } else {
                    tokens.push(String::from_str(sql.substring_char(i, i + 1)));
                    proof {
                        assert(s.subrange(i as int, i + 1) =~= seq![c]);
                        assert(texts_of(tokens@) =~= mid.push(seq![c]));
                        assert(s.subrange(i + 1, i + 1) =~= Seq::<char>::empty());
                    }
                    start = i + 1;
                    i += 1;
                }
            } else {
                proof {
                    assert(s.subrange(i + 1, i + 1) =~= Seq::<char>::empty());
                }
                start = i + 1;
                i += 1;
            }
        } else {
            proof {
                assert(s.subrange(start as int, i + 1) =~= current.push(c));
            }
            i += 1;
        }
    }
    flush_token(&mut tokens, sql, start, n);
    tokens
}

/// Whether two texts are the same but for the case of their letters.
pub fn same_word(a: &str, b: &str) -> (r: bool)
    ensures
        r == (upper_of(a@) == upper_of(b@)),
{
    compare_keys(to_upper(a).as_str(), to_upper(b).as_str()) == KeyOrder::Equal
}

/// A parser over the tokens of one statement.
#[derive(Debug)]
pub struct SQLParser {
    tokens: Vec<String>,
    position: usize,
}

impl SQLParser {
    /// The tokens of the statement.
    pub closed spec fn tokens(&self) -> Seq<Seq<char>> {
        texts_of(self.tokens@)
    }

    /// The number of tokens taken so far.
    pub closed spec fn position(&self) -> int {
        self.position as int
    }

    /// The invariant: the position is not behind the end.
    pub closed spec fn wf(&self) -> bool {
        self.position <= self.tokens@.len()
    }

    pub fn new(sql: &str) -> (r: Self)
        ensures
            r.wf(),
            r.tokens() == tokens_of(sql@),
            r.position() == 0,
    {
        let tokens = tokenize(sql);
        Self { tokens, position: 0 }
    }

    /// The next token, if one is left.
    pub fn peek(&self) -> (r: Option<&String>)
        ensures
            match r {
                Some(t) => self.position() < self.tokens().len() && t@ == self.tokens()[
                    self.position()],
                None => self.position() >= self.tokens().len(),
            },
    {
        if self.position < self.tokens.len() {
            Some(&self.tokens[self.position])
        } else {
            None
        }
    }

    /// Steps over the next token, if one is left.
    pub fn advance(&mut self)
        ensures
            final(self).tokens() == old(self).tokens(),
            final(self).position() == if old(self).position() < old(self).tokens().len() {
                old(self).position() + 1
            } else {
                old(self).position()
            },
            old(self).wf() ==> final(self).wf(),
    {
        if self.position < self.tokens.len() {
            self.position += 1;
        }
    }

    /// Steps over the next token if it is the word `expected`, whatever the
    /// case of its letters.
    pub fn consume(&mut self, expected: &str) -> (r: DbResult<()>)
        requires
            old(self).wf(),
        ensures
            final(self).wf(),
            final(self).tokens() == old(self).tokens(),
            match r {
                Ok(_) => old(self).position() < old(self).tokens().len() && upper_of(
                    old(self).tokens()[old(self).position()],
                ) == upper_of(expected@) && final(self).position() == old(self).position() + 1,
                Err(DbError::InvalidOperation(_)) => final(self).position() == old(self).position()
                    && !(old(self).position() < old(self).tokens().len() && upper_of(
                    old(self).tokens()[old(self).position()],
                ) == upper_of(expected@)),
                Err(_) => false,
            },
    {
        if self.position < self.tokens.len() {
            if same_word(self.tokens[self.position].as_str(), expected) {
                self.position += 1;
                Ok(())
            } else {
                let mut message = String::from_str("Expected '");
                message.append(expected);
                message.append("', found '");
                message.append(self.tokens[self.position].as_str());
                message.append("'");
                Err(DbError::InvalidOperation(message))
            }
        } else {
            let mut message = String::from_str("Expected '");
            message.append(expected);
            message.append("', found end of input");
            Err(DbError::InvalidOperation(message))
        }
    }

    /// Takes the next token as a name.
    pub fn consume_identifier(&mut self) -> (r: DbResult<String>)
        requires
            old(self).wf(),
        ensures
            final(self).wf(),
            final(self).tokens() == old(self).tokens(),
            match r {
                Ok(name) => old(self).position() < old(self).tokens().len() && name@ == old(
                    self,
                ).tokens()[old(self).position()] && final(self).position() == old(self).position()
                    + 1,
                Err(DbError::InvalidOperation(_)) => old(self).position() >= old(self).tokens().len()
                    && final(self).position() == old(self).position(),
                Err(_) => false,
            },
    {
        if self.position < self.tokens.len() {
            let name = self.tokens[self.position].clone();
            self.position += 1;
            Ok(name)
        } else {
            Err(DbError::InvalidOperation(String::from_str("Expected identifier")))
        }
    }

    /// Takes a list of columns: names with `,` between them.
    pub fn parse_columns(&mut self) -> (r: DbResult<Vec<String>>)
        requires
            old(self).wf(),
        ensures
            final(self).wf(),
            final(self).tokens() == old(self).tokens(),
            match r {
                Ok(columns) => column_list(old(self).tokens(), old(self).position()) == Some(
                    (texts_of(columns@), final(self).position()),
                ),
                Err(DbError::InvalidOperation(_)) => column_list(
                    old(self).tokens(),
                    old(self).position(),
                ) is None,
                Err(_) => false,
            },
    {
        let mut columns: Vec<String> = Vec::new();
        let ghost tokens = self.tokens();
        let ghost start = self.position();
        let first = match self.consume_identifier() {
            Ok(name) => name,
            Err(e) => {
                return Err(e);
            },
        };
        columns.push(first);
        proof {
            reveal_strlit(",");
        }
        loop
            invariant
                self.wf(),
                self.tokens() == tokens,
                tokens == old(self).tokens(),
                start == old(self).position(),
                columns@.len() > 0,
                0 <= start < self.position() <= tokens.len(),
                // what is left to read decides the whole list
                column_list(tokens, start) == match column_list(tokens, self.position() - 1) {
                    Some((rest, end)) => Some(
                        (texts_of(columns@).drop_last() + rest, end),
                    ),
                    None => None,
                },
                texts_of(columns@).last() == tokens[self.position() - 1],
            ensures
                self.wf(),
                self.tokens() == tokens,
                column_list(tokens, start) == Some((texts_of(columns@), self.position())),
            decreases tokens.len() - self.position(),
        {
            let more = match self.peek() {
                Some(t) => compare_keys(t.as_str(), ",") == KeyOrder::Equal,
                None => false,
            };
            if !more {
                proof {
                    let p = self.position() - 1;
                    assert(column_list(tokens, p) == Some((seq![tokens[p]], p + 1)));
                    assert(texts_of(columns@).drop_last() + seq![tokens[p]] =~= texts_of(columns@));
                }
                break;
            }
            let ghost p = self.position() - 1;
            let ghost so_far = texts_of(columns@);
            self.advance();
            let next = match self.consume_identifier() {
                Ok(name) => name,
                Err(e) => {
                    proof {
                        assert(column_list(tokens, p + 2) is None);
                        assert(column_list(tokens, p) is None);
                    }
                    return Err(e);
                },
            };
            columns.push(next);
            proof {
                assert(texts_of(columns@) =~= so_far.push(tokens[p + 2]));
                assert(texts_of(columns@).drop_last() =~= so_far);
                match column_list(tokens, p + 2) {
                    Some((rest, end)) => {
                        assert(so_far.drop_last() + (seq![tokens[p]] + rest) =~= so_far + rest);
                    },
                    None => {},
                }
            }
        }
        Ok(columns)
    }

    /// Whether the next token is the word `word`, whatever the case of its letters.
    fn next_is(&self, word: &str) -> (r: bool)
        ensures
            r == (self.position() < self.tokens().len() && upper_of(
                self.tokens()[self.position()],
            ) == upper_of(word@)),
    {
        if self.position < self.tokens.len() {
            same_word(self.tokens[self.position].as_str(), word)
        } else {
            false
        }
    }

    /// Takes the next token as a count: decimal digits that fit a `usize`.
    pub fn consume_number(&mut self) -> (r: DbResult<usize>)
        requires
            old(self).wf(),
        ensures
            final(self).wf(),
            final(self).tokens() == old(self).tokens(),
            match r {
                Ok(n) => old(self).position() < old(self).tokens().len() && plain_count(
                    old(self).tokens()[old(self).position()],
                ) == Some(n) && final(self).position() == old(self).position() + 1,
                Err(DbError::InvalidOperation(_)) => final(self).position() == old(self).position()
                    && (old(self).position() >= old(self).tokens().len() || plain_count(
                    old(self).tokens()[old(self).position()],
                ) is None),
                Err(_) => false,
            },
    {
        if self.position >= self.tokens.len() {
            return Err(DbError::InvalidOperation(String::from_str("Expected number")));
        }
        let token = self.tokens[self.position].as_str();
        let bytes = token.as_bytes();
        let mut value: usize = 0;
        let mut i: usize = 0;
        let mut ok = bytes.len() > 0;
        proof {
            assert(bytes@.take(0) =~= Seq::<u8>::empty());
        }
        while ok && i < bytes.len()
            invariant
                i <= bytes@.len(),
                ok ==> bytes@.len() > 0 && value == digits_value(bytes@.take(i as int))
                    && forall|j: int| 0 <= j < i ==> 48 <= #[trigger] bytes@[j] <= 57,
                !ok ==> !all_digits(bytes@) || digits_value(bytes@) > usize::MAX,
            decreases bytes@.len() - i,
        {
            let b = bytes[i];
            if 48 <= b && b <= 57 {
                let d: usize = (b - 48) as usize;
                proof {
                    assert(bytes@.take(i + 1).drop_last() =~= bytes@.take(i as int));
                    assert(bytes@.take(i + 1).last() == b);
                }
                if value > (usize::MAX - d) / 10 {
                    ok = false;
                    proof {
                        assert(digits_value(bytes@.take(i + 1)) > usize::MAX);
                        if all_digits(bytes@) {
                            lemma_digits_value_grows(bytes@, i + 1);
                        }
                    }
                } else {
                    value = value * 10 + d;
                }
            } else {
                ok = false;
            }
            i += 1;
        }
        if ok {
            proof {
                assert(bytes@.take(i as int) =~= bytes@);
            }
            self.position += 1;
            Ok(value)
        } else {
            let mut message = String::from_str("Expected number, found '");
            message.append(token);
            message.append("'");
            Err(DbError::InvalidOperation(message))
        }
    }

    /// Takes the next token as a value: a quoted string, a number, `TRUE`,
    /// `FALSE` or `NULL`.
    pub fn parse_value(&mut self) -> (r: DbResult<Value>)
        requires
            old(self).wf(),
        ensures
            final(self).wf(),
            final(self).tokens() == old(self).tokens(),
            match r {
                Ok(v) => old(self).position() < old(self).tokens().len() && value_of(
                    old(self).tokens()[old(self).position()],
                ) == Some(v@) && final(self).position() == old(self).position() + 1,
                Err(DbError::InvalidOperation(_)) => final(self).position() == old(self).position()
                    && (old(self).position() >= old(self).tokens().len() || value_of(
                    old(self).tokens()[old(self).position()],
                ) is None),
                Err(_) => false,
            },
    {
        if self.position >= self.tokens.len() {
            return Err(DbError::InvalidOperation(String::from_str("Expected value")));
        }
        let token = self.tokens[self.position].as_str();
        let n = token.unicode_len();
        if n >= 2 && token.get_char(0) == '\'' && token.get_char(n - 1) == '\'' {
            let inner = String::from_str(token.substring_char(1, n - 1));
            self.position += 1;
            Ok(Value::String(inner))
        } else if is_number_literal(token) {
            let text = String::from_str(token);
            self.position += 1;
            Ok(Value::Number(text))
        } else if same_word(token, "TRUE") {
            self.position += 1;
            Ok(Value::Boolean(true))
        } else if same_word(token, "FALSE") {
            self.position += 1;
            Ok(Value::Boolean(false))
        } else if same_word(token, "NULL") {
            self.position += 1;
            Ok(Value::Null)
        } else {
            let mut message = String::from_str("Invalid value: ");
            message.append(token);
            Err(DbError::InvalidOperation(message))
        }
    }

    /// Takes a list of values with `,` between them.
    pub fn parse_value_list(&mut self) -> (r: DbResult<Vec<Value>>)
        requires
            old(self).wf(),
        ensures
            final(self).wf(),
            final(self).tokens() == old(self).tokens(),
            match r {
                Ok(values) => value_list(old(self).tokens(), old(self).position()) == Some(
                    (values_of(values@), final(self).position()),
                ),
                Err(DbError::InvalidOperation(_)) => value_list(
                    old(self).tokens(),
                    old(self).position(),
                ) is None,
                Err(_) => false,
            },
    {
        let mut values: Vec<Value> = Vec::new();
        let ghost tokens = self.tokens();
        let ghost start = self.position();
        let first = match self.parse_value() {
            Ok(v) => v,
            Err(e) => {
                return Err(e);
            },
        };
        values.push(first);
        proof {
            reveal_strlit(",");
        }
        loop
            invariant
                self.wf(),
                self.tokens() == tokens,
                tokens == old(self).tokens(),
                start == old(self).position(),
                values@.len() > 0,
                0 <= start < self.position() <= tokens.len(),
                // what is left to read decides the whole list
                value_list(tokens, start) == match value_list(tokens, self.position() - 1) {
                    Some((rest, end)) => Some(
                        (values_of(values@).drop_last() + rest, end),
                    ),
                    None => None,
                },
                value_of(tokens[self.position() - 1]) == Some(values_of(values@).last()),
            ensures
                self.wf(),
                self.tokens() == tokens,
                value_list(tokens, start) == Some((values_of(values@), self.position())),
            decreases tokens.len() - self.position(),
        {
            let more = match self.peek() {
                Some(t) => compare_keys(t.as_str(), ",") == KeyOrder::Equal,
                None => false,
            };
            if !more {
                proof {
                    let p = self.position() - 1;
                    let v = values_of(values@).last();
                    assert(value_list(tokens, p) == Some((seq![v], p + 1)));
                    assert(values_of(values@).drop_last() + seq![v] =~= values_of(values@));
                }
                break;
            }
            let ghost p = self.position() - 1;
            let ghost so_far = values_of(values@);
            self.advance();
            let next = match self.parse_value() {
                Ok(v) => v,
                Err(e) => {
                    proof {
                        assert(value_list(tokens, p + 2) is None);
                        assert(value_list(tokens, p) is None);
                    }
                    return Err(e);
                },
            };
            values.push(next);
            proof {
                assert(values_of(values@) =~= so_far.push(next@));
                assert(values_of(values@).drop_last() =~= so_far);
                match value_list(tokens, p + 2) {
                    Some((rest, end)) => {
                        assert(so_far.drop_last() + (seq![so_far.last()] + rest) =~= so_far + rest);
                    },
                    None => {},
                }
            }
        }
        Ok(values)
    }

    /// Takes one comparison: a column, an operator and a value.
    pub fn parse_comparison(&mut self) -> (r: DbResult<Condition>)
        requires
            old(self).wf(),
        ensures
            final(self).wf(),
            final(self).tokens() == old(self).tokens(),
            match r {
                Ok(c) => comparison(old(self).tokens(), old(self).position()) == Some(c@)
                    && final(self).position() == old(self).position() + 3,
                Err(_) => comparison(old(self).tokens(), old(self).position()) is None,
            },
    {
        let column = match self.consume_identifier() {
            Ok(c) => c,
            Err(e) => {
                return Err(e);
            },
        };
        let operator = match self.consume_identifier() {
            Ok(o) => o,
            Err(e) => {
                return Err(e);
            },
        };
        let value = match self.parse_value() {
            Ok(v) => v,
            Err(e) => {
                return Err(e);
            },
        };
        let op = operator.as_str();
        if same_word(op, "=") {
            Ok(Condition::Equals(column, value))
        } else if same_word(op, "!=") {
            Ok(Condition::NotEquals(column, value))
        } else if same_word(op, ">") {
            Ok(Condition::GreaterThan(column, value))
        } else if same_word(op, "<") {
            Ok(Condition::LessThan(column, value))
        } else if same_word(op, ">=") {
            Ok(Condition::GreaterThanOrEqual(column, value))
        } else if same_word(op, "<=") {
            Ok(Condition::LessThanOrEqual(column, value))
        } else if same_word(op, "LIKE") {
            match value {
                Value::String(pattern) => Ok(Condition::Like(column, pattern)),
                _ => Err(
                    DbError::InvalidQuery(String::from_str("LIKE operator requires string pattern")),
                ),
            }
        } else {
            let mut message = String::from_str("Unsupported operator: ");
            message.append(op);
            Err(DbError::InvalidQuery(message))
        }
    }

    /// Takes a condition: comparisons joined by `AND` and `OR`, which group
    /// to the right.
    pub fn parse_condition(&mut self) -> (r: DbResult<Condition>)
        requires
            old(self).wf(),
        ensures
            final(self).wf(),
            final(self).tokens() == old(self).tokens(),
            match r {
                Ok(c) => condition(old(self).tokens(), old(self).position()) == Some(
                    (c@, final(self).position()),
                ),
                Err(_) => condition(old(self).tokens(), old(self).position()) is None,
            },
        decreases old(self).tokens().len() - old(self).position(),
    {
        let left = match self.parse_comparison() {
            Ok(c) => c,
            Err(e) => {
                return Err(e);
            },
        };
        if self.next_is("AND") {
            self.advance();
            match self.parse_condition() {
                Ok(right) => Ok(Condition::And(Box::new(left), Box::new(right))),
                Err(e) => Err(e),
            }
        } else if self.next_is("OR") {
            self.advance();
            match self.parse_condition() {
                Ok(right) => Ok(Condition::Or(Box::new(left), Box::new(right))),
                Err(e) => Err(e),
            }
        } else {
            Ok(left)
        }
    }

    /// Takes a `WHERE` clause, if one comes next.
    fn parse_where(&mut self) -> (r: DbResult<Option<WhereClause>>)
        requires
            old(self).wf(),
        ensures
            final(self).wf(),
            final(self).tokens() == old(self).tokens(),
            match r {
                Ok(w) => where_clause(old(self).tokens(), old(self).position()) == Some(
                    (clause_model(w), final(self).position()),
                ),
                Err(_) => where_clause(old(self).tokens(), old(self).position()) is None,
            },
    {
        if self.next_is("WHERE") {
            self.advance();
            match self.parse_condition() {
                Ok(condition) => Ok(Some(WhereClause { condition })),
                Err(e) => Err(e),
            }
        } else {
            Ok(None)
        }
    }

    /// Takes a `LIMIT` clause, if one comes next.
    fn parse_limit(&mut self) -> (r: DbResult<Option<usize>>)
        requires
            old(self).wf(),
        ensures
            final(self).wf(),
            final(self).tokens() == old(self).tokens(),
            match r {
                Ok(n) => limit_clause(old(self).tokens(), old(self).position()) == Some(
                    (n, final(self).position()),
                ),
                Err(_) => limit_clause(old(self).tokens(), old(self).position()) is None,
            },
    {
        if self.next_is("LIMIT") {
            self.advance();
            match self.consume_number() {
                Ok(n) => Ok(Some(n)),
                Err(e) => Err(e),
            }
        } else {
            Ok(None)
        }
    }

    fn parse_select(&mut self) -> (r: DbResult<Statement>)
        requires
            old(self).wf(),
        ensures
            final(self).wf(),
            final(self).tokens() == old(self).tokens(),
            match r {
                Ok(Statement::Select(s)) => selection(old(self).tokens(), old(self).position())
                    == Some((Statement::Select(s)@->Select_0, final(self).position())),
                Ok(_) => false,
                Err(_) => selection(old(self).tokens(), old(self).position()) is None,
            },
    {
        match self.consume("SELECT") {
            Ok(_) => {},
            Err(e) => {
                return Err(e);
            },
        }
        let columns = match self.parse_columns() {
            Ok(c) => c,
            Err(e) => {
                return Err(e);
            },
        };
        match self.consume("FROM") {
            Ok(_) => {},
            Err(e) => {
                return Err(e);
            },
        }
        let table = match self.consume_identifier() {
            Ok(t) => t,
            Err(e) => {
                return Err(e);
            },
        };
        let where_clause = match self.parse_where() {
            Ok(w) => w,
            Err(e) => {
                return Err(e);
            },
        };
        let limit = match self.parse_limit() {
            Ok(n) => n,
            Err(e) => {
                return Err(e);
            },
        };
        Ok(Statement::Select(SelectStatement { columns, table, where_clause, limit }))
    }

    fn parse_insert(&mut self) -> (r: DbResult<Statement>)
        requires
            old(self).wf(),
        ensures
            final(self).wf(),
            final(self).tokens() == old(self).tokens(),
            match r {
                Ok(Statement::Insert(s)) => insertion(old(self).tokens(), old(self).position())
                    == Some((Statement::Insert(s)@->Insert_0, final(self).position())),
                Ok(_) => false,
                Err(_) => insertion(old(self).tokens(), old(self).position()) is None,
            },
    {
        match self.consume("INSERT") {
            Ok(_) => {},
            Err(e) => {
                return Err(e);
            },
        }
        match self.consume("INTO") {
            Ok(_) => {},
            Err(e) => {
                return Err(e);
            },
        }
        let table = match self.consume_identifier() {
            Ok(t) => t,
            Err(e) => {
                return Err(e);
            },
        };
        match self.consume("(") {
            Ok(_) => {},
            Err(e) => {
                return Err(e);
            },
        }
        let columns = match self.parse_columns() {
            Ok(c) => c,
            Err(e) => {
                return Err(e);
            },
        };
        match self.consume(")") {
            Ok(_) => {},
            Err(e) => {
                return Err(e);
            },
        }
        match self.consume("VALUES") {
            Ok(_) => {},
            Err(e) => {
                return Err(e);
            },
        }
        match self.consume("(") {
            Ok(_) => {},
            Err(e) => {
                return Err(e);
            },
        }
        let values = match self.parse_value_list() {
            Ok(v) => v,
            Err(e) => {
                return Err(e);
            },
        };
        match self.consume(")") {
            Ok(_) => {},
            Err(e) => {
                return Err(e);
            },
        }
        Ok(Statement::Insert(InsertStatement { table, columns, values }))
    }

    fn parse_delete(&mut self) -> (r: DbResult<Statement>)
        requires
            old(self).wf(),
        ensures
            final(self).wf(),
            final(self).tokens() == old(self).tokens(),
            match r {
                Ok(Statement::Delete(s)) => deletion(old(self).tokens(), old(self).position())
                    == Some((Statement::Delete(s)@->Delete_0, final(self).position())),
                Ok(_) => false,
                Err(_) => deletion(old(self).tokens(), old(self).position()) is None,
            },
    {
        match self.consume("DELETE") {
            Ok(_) => {},
            Err(e) => {
                return Err(e);
            },
        }
        match self.consume("FROM") {
            Ok(_) => {},
            Err(e) => {
                return Err(e);
            },
        }
        let table = match self.consume_identifier() {
            Ok(t) => t,
            Err(e) => {
                return Err(e);
            },
        };
        let where_clause = match self.parse_where() {
            Ok(w) => w,
            Err(e) => {
                return Err(e);
            },
        };
        Ok(Statement::Delete(DeleteStatement { table, where_clause }))
    }

    /// Parses the statement: a selection, an insertion or a deletion,
    /// told apart by the first token of all and read from the position of
    /// the parser on. It returns the statement that the grammar gives, and
    /// fails exactly where the grammar gives none.
    pub fn parse(&mut self) -> (r: DbResult<Statement>)
        requires
            old(self).wf(),
        ensures
            final(self).wf(),
            final(self).tokens() == old(self).tokens(),
            match r {
                Ok(s) => statement(old(self).tokens(), old(self).position()) == Some(
                    (s@, final(self).position()),
                ),
                Err(_) => statement(old(self).tokens(), old(self).position()) is None,
            },
    {
        if self.tokens.len() == 0 {
            return Err(DbError::InvalidQuery(String::from_str("Empty SQL statement")));
        }
        let first = self.tokens[0].as_str();
        if same_word(first, "SELECT") {
            self.parse_select()
        } else if same_word(first, "INSERT") {
            self.parse_insert()
        } else if same_word(first, "DELETE") {
            self.parse_delete()
        } else {
            let mut message = String::from_str("Unsupported statement: ");
            message.append(first);
            Err(DbError::InvalidQuery(message))
        }
    }
}

} // verus!
