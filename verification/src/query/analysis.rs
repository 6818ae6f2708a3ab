//! What a first look at a query tells: its kind, its table, its columns.

use vstd::prelude::*;
use vstd::string::{StrSliceExecFns, StringExecFns};
use crate::text::{split_words, texts, to_upper, upper_of, words_of};
use crate::types::{DbError, DbResult};

verus! {

/// The kinds of query.
#[derive(Debug, Clone, Copy, PartialEq, Eq, Structural)]
pub enum QueryType {
    Select,
    Insert,
    Delete,
    Update,
}

/// One comparison of a `WHERE` clause, as written.
#[derive(Debug, PartialEq)]
pub struct WhereCondition {
    pub column: String,
    pub operator: String,
    pub value: String,
}

/// What a first look at a query tells.
#[derive(Debug, PartialEq)]
pub struct QueryAnalysis {
    pub query_type: QueryType,
    pub table_name: Option<String>,
    pub columns: Vec<String>,
    pub where_conditions: Vec<WhereCondition>,
    pub has_parameters: bool,
}

/// The kind that the first word of a query names.
pub open spec fn kind_of_word(word: Seq<char>) -> Option<QueryType> {
    if upper_of(word) == "SELECT"@ {
        Some(QueryType::Select)
    } else if upper_of(word) == "INSERT"@ {
        Some(QueryType::Insert)
    } else if upper_of(word) == "DELETE"@ {
        Some(QueryType::Delete)
    } else if upper_of(word) == "UPDATE"@ {
        Some(QueryType::Update)
    } else {
        None
    }
}

/// The position from `from` on of the first word that is `word`, whatever
/// the case of its letters; the number of words where there is none.
pub open spec fn position_of_word(words: Seq<Seq<char>>, word: Seq<char>, from: int) -> int
    decreases words.len() - from,
{
    if from < 0 || from >= words.len() {
        words.len() as int
    } else if upper_of(words[from]) == word {
        from
    } else {
        position_of_word(words, word, from + 1)
    }
}

/// The word that names the table of a query: the word behind `FROM` for a
/// selection and a deletion, behind `INTO` for an insertion, and the second
/// word for an update. `None` where that word is missing.
pub open spec fn table_of(words: Seq<Seq<char>>, kind: QueryType) -> Option<Seq<char>> {
    let at = match kind {
        QueryType::Select => position_of_word(words, "FROM"@, 0) + 1,
        QueryType::Insert => position_of_word(words, "INTO"@, 0) + 1,
        QueryType::Delete => position_of_word(words, "FROM"@, 0) + 1,
        QueryType::Update => 1,
    };
    if at < words.len() {
        Some(words[at])
    } else {
        None
    }
}

/// The comparison behind `WHERE`: the three words that follow it, where
/// four words follow it at least.
pub open spec fn condition_of(words: Seq<Seq<char>>) -> Option<(Seq<char>, Seq<char>, Seq<char>)> {
    let at = position_of_word(words, "WHERE"@, 0);
    if at + 3 < words.len() {
        Some((words[at + 1], words[at + 2], words[at + 3]))
    } else {
        None
    }
}

/// Whether the text holds a brace.
pub open spec fn holds_brace(s: Seq<char>) -> bool {
    exists|i: int| 0 <= i < s.len() && (#[trigger] s[i] == '{' || s[i] == '}')
}

/// The position of the first word that is `word`, whatever the case of its letters.
pub fn find_word(tokens: &Vec<String>, word: &str) -> (r: usize)
    ensures
        r == position_of_word(texts(tokens@), word@, 0),
        r <= tokens@.len(),
{
    let ghost words = texts(tokens@);
    let mut i: usize = 0;
    while i < tokens.len()
        invariant
            i <= tokens@.len(),
            words == texts(tokens@),
            position_of_word(words, word@, 0) == position_of_word(words, word@, i as int),
        decreases tokens.len() - i,
    {
        let upper = to_upper(tokens[i].as_str());
        if crate::keys::compare_keys(upper.as_str(), word) == crate::keys::KeyOrder::Equal {
            return i;
        }
        i += 1;
    }
    i
}

/// The word that names the table of a query.
pub fn extract_table_name(tokens: &Vec<String>, query_type: QueryType) -> (r: DbResult<
    Option<String>,
>)
    ensures
        match r {
            Ok(Some(name)) => table_of(texts(tokens@), query_type) == Some(name@),
            Ok(None) => false,
            Err(DbError::InvalidQuery(_)) => table_of(texts(tokens@), query_type) is None,
            Err(_) => false,
        },
{
    let (at, missing_word, missing_name): (usize, &str, &str) = match query_type {
        QueryType::Select => (
            find_word(tokens, "FROM"),
            "Missing FROM clause in SELECT",
            "Missing table name after FROM",
        ),
        QueryType::Insert => (
            find_word(tokens, "INTO"),
            "Missing INTO clause in INSERT",
            "Missing table name after INTO",
        ),
        QueryType::Delete => (
            find_word(tokens, "FROM"),
            "Missing FROM clause in DELETE",
            "Missing table name after FROM",
        ),
        QueryType::Update => (0, "Missing table name in UPDATE", "Missing table name in UPDATE"),
    };
    if at >= tokens.len() {
        return Err(DbError::InvalidQuery(String::from_str(missing_word)));
    }
    if at + 1 >= tokens.len() {
        return Err(DbError::InvalidQuery(String::from_str(missing_name)));
    }
    Ok(Some(tokens[at + 1].clone()))
}

/// The comparison behind `WHERE`, if there is one.
pub fn extract_where_conditions(tokens: &Vec<String>) -> (r: DbResult<Vec<WhereCondition>>)
    ensures
        match r {
            Ok(conditions) => match condition_of(texts(tokens@)) {
                Some((column, operator, value)) => conditions@.len() == 1
                    && conditions@[0].column@ == column && conditions@[0].operator@ == operator
                    && conditions@[0].value@ == value,
                None => conditions@.len() == 0,
            },
            Err(_) => false,
        },
{
    let mut conditions: Vec<WhereCondition> = Vec::new();
    let at = find_word(tokens, "WHERE");
    if tokens.len() >= 4 && at < tokens.len() - 3 {
        conditions.push(
            WhereCondition {
                column: tokens[at + 1].clone(),
                operator: tokens[at + 2].clone(),
                value: tokens[at + 3].clone(),
            },
        );
    }
    Ok(conditions)
}

/// The words from `from` up to `to`, joined by blanks.
pub open spec fn joined_words(words: Seq<Seq<char>>, from: int, to: int) -> Seq<char>
    decreases to - from,
{
    if from >= to {
        Seq::empty()
    } else if from + 1 == to {
        words[from]
    } else {
        joined_words(words, from, to - 1) + seq![' '] + words[to - 1]
    }
}

/// The pieces of a text between its commas; a text without a comma is one piece.
pub open spec fn pieces(s: Seq<char>) -> Seq<Seq<char>>
    decreases s.len(),
{
    if s.len() == 0 {
        seq![Seq::empty()]
    } else if s.last() == ',' {
        pieces(s.drop_last()).push(Seq::empty())
    } else {
        let before = pieces(s.drop_last());
        before.drop_last().push(before.last().push(s.last()))
    }
}

/// A text without the blanks at its front.
pub open spec fn strip_front(s: Seq<char>) -> Seq<char>
    decreases s.len(),
{
    if s.len() > 0 && s[0] == ' ' {
        strip_front(s.drop_first())
    } else {
        s
    }
}

/// A text without the blanks at its end.
pub open spec fn strip_back(s: Seq<char>) -> Seq<char>
    decreases s.len(),
{
    if s.len() > 0 && s.last() == ' ' {
        strip_back(s.drop_last())
    } else {
        s
    }
}

/// A text without the blanks at its ends.
pub open spec fn trimmed(s: Seq<char>) -> Seq<char> {
    strip_back(strip_front(s))
}

/// The pieces without the blanks at their ends; a piece of which nothing
/// is left is dropped.
pub open spec fn kept(ps: Seq<Seq<char>>) -> Seq<Seq<char>>
    decreases ps.len(),
{
    if ps.len() == 0 {
        Seq::empty()
    } else if trimmed(ps.last()).len() > 0 {
        kept(ps.drop_last()).push(trimmed(ps.last()))
    } else {
        kept(ps.drop_last())
    }
}

/// The columns that a selection names: the words between the first word
/// and `FROM`, joined by blanks and cut at the commas.
pub open spec fn columns_of(words: Seq<Seq<char>>) -> Seq<Seq<char>> {
    let end = position_of_word(words, "FROM"@, 0);
    if words.len() < 2 || end < 1 {
        Seq::empty()
    } else {
        kept(pieces(joined_words(words, 1, end)))
    }
}

/// A text without the blanks at its ends.
pub fn trim_blanks(s: &str) -> (r: String)
    ensures
        r@ == trimmed(s@),
{
    let n = s.unicode_len();
    let mut start: usize = 0;
    proof {
        assert(s@.skip(0) =~= s@);
    }
    while start < n && s.get_char(start) == ' '
        invariant
            start <= n,
            n == s@.len(),
            strip_front(s@) == strip_front(s@.skip(start as int)),
        decreases n - start,
    {
        proof {
            assert(s@.skip(start as int).drop_first() =~= s@.skip(start + 1));
        }
        start += 1;
    }
    let ghost front = s@.skip(start as int);
    proof {
        assert(strip_front(front) == front);
        assert(front =~= s@.subrange(start as int, n as int));
    }
    let mut end: usize = n;
    while end > start && s.get_char(end - 1) == ' '
        invariant
            start <= end <= n,
            n == s@.len(),
            front == s@.skip(start as int),
            strip_back(front) == strip_back(s@.subrange(start as int, end as int)),
        decreases end - start,
    {
        proof {
            assert(s@.subrange(start as int, end as int).drop_last() =~= s@.subrange(
                start as int,
                end - 1,
            ));
        }
        end -= 1;
    }
    String::from_str(s.substring_char(start, end))
}

/// The columns that a selection names: the words between the first word
/// and `FROM`, joined by blanks, cut at the commas; blanks at the ends of a
/// column are dropped, and so are columns without a character.
pub fn extract_select_columns(tokens: &Vec<String>) -> (r: DbResult<Vec<String>>)
    ensures
        match r {
            Ok(columns) => texts(columns@) == columns_of(texts(tokens@)),
            Err(_) => false,
        },
{
    let mut columns: Vec<String> = Vec::new();
    if tokens.len() < 2 {
        proof {
            assert(texts(columns@) =~= Seq::<Seq<char>>::empty());
        }
        return Ok(columns);
    }
    let end = find_word(tokens, "FROM");
    if end < 1 {
        proof {
            assert(texts(columns@) =~= Seq::<Seq<char>>::empty());
        }
        return Ok(columns);
    }
    let ghost words = texts(tokens@);
    let mut text = String::new();
    let mut t: usize = 1;
    proof {
        reveal_strlit(" ");
    }
    while t < end
        invariant
            1 <= t <= end,
            end <= tokens@.len(),
            words == texts(tokens@),
            text@ == joined_words(words, 1, t as int),
        decreases end - t,
    {
        if t > 1 {
            text.append(" ");
        }
        text.append(tokens[t].as_str());
        proof {
            reveal_strlit(" ");
            if t > 1 {
                assert(text@ =~= joined_words(words, 1, t as int) + seq![' '] + words[t as int]);
            } else {
                assert(text@ =~= words[1]);
            }
        }
        t += 1;
    }
    let whole = text.as_str();
    let n = whole.unicode_len();
    let mut current = String::new();
    let ghost done: Seq<Seq<char>> = Seq::empty();
    let mut i: usize = 0;
    proof {
        assert(whole@.take(0) =~= Seq::<char>::empty());
        assert(seq![Seq::<char>::empty()] =~= done.push(current@));
        assert(texts(columns@) =~= kept(done));
    }
    while i < n
        invariant
            i <= n,
            n == whole@.len(),
            pieces(whole@.take(i as int)) == done.push(current@),
            texts(columns@) == kept(done),
        decreases n - i,
    {
        let c = whole.get_char(i);
        let ghost prev = current@;
        let ghost before = pieces(whole@.take(i as int));
        proof {
            assert(whole@.take(i + 1).drop_last() =~= whole@.take(i as int));
            assert(whole@.take(i + 1).last() == c);
            assert(before.drop_last() =~= done);
            assert(before.last() == prev);
        }
        if c == ',' {
            let piece = trim_blanks(current.as_str());
            let ghost so_far = texts(columns@);
            if piece.as_str().unicode_len() > 0 {
                columns.push(piece);
                proof {
                    assert(texts(columns@) =~= so_far.push(piece@));
                }
            }
            current = String::new();
            proof {
                done = done.push(prev);
                assert(done.drop_last() =~= before.drop_last());
                assert(pieces(whole@.take(i + 1)) =~= done.push(current@));
            }
        } else {
            current.append(whole.substring_char(i, i + 1));
            proof {
                assert(whole@.subrange(i as int, i + 1) =~= seq![c]);
                assert(current@ =~= prev.push(c));
                assert(pieces(whole@.take(i + 1)) =~= done.push(current@));
            }
        }
        i += 1;
    }
    proof {
        assert(whole@.take(i as int) =~= whole@);
        assert(done.push(current@).drop_last() =~= done);
    }
    let piece = trim_blanks(current.as_str());
    let ghost so_far = texts(columns@);
    if piece.as_str().unicode_len() > 0 {
        columns.push(piece);
        proof {
            assert(texts(columns@) =~= so_far.push(piece@));
        }
    }
    Ok(columns)
}

/// Whether the text holds a brace, the mark of a parameter.
pub fn has_parameters(sql: &str) -> (r: bool)
    ensures
        r == holds_brace(sql@),
{
    let n = sql.unicode_len();
    let mut i: usize = 0;
    while i < n
        invariant
            i <= n,
            n == sql@.len(),
            forall|j: int| 0 <= j < i ==> !(#[trigger] sql@[j] == '{' || sql@[j] == '}'),
        decreases n - i,
    {
        let c = sql.get_char(i);
        if c == '{' || c == '}' {
            return true;
        }
        i += 1;
    }
    false
}

/// A first look at a query: its kind by its first word, its table, the
/// columns of a selection, the comparison behind `WHERE`, and whether it
/// holds parameters. A query without words, of another kind, or without
/// the word that names its table is refused.
pub fn analyze_sql(sql: &str) -> (r: DbResult<QueryAnalysis>)
    ensures
        match r {
            Ok(analysis) => {
                let words = words_of(sql@);
                &&& words.len() > 0
                &&& kind_of_word(words[0]) == Some(analysis.query_type)
                &&& match analysis.table_name {
                    Some(name) => table_of(words, analysis.query_type) == Some(name@),
                    None => false,
                }
                &&& analysis.has_parameters == holds_brace(sql@)
                &&& texts(analysis.columns@) == if analysis.query_type == QueryType::Select {
                    columns_of(words)
                } else {
                    Seq::empty()
                }
                &&& match condition_of(words) {
                    Some((column, operator, value)) => analysis.where_conditions@.len() == 1
                        && analysis.where_conditions@[0].column@ == column
                        && analysis.where_conditions@[0].operator@ == operator
                        && analysis.where_conditions@[0].value@ == value,
                    None => analysis.where_conditions@.len() == 0,
                }
            },
            Err(DbError::InvalidQuery(_)) => {
                let words = words_of(sql@);
                words.len() == 0 || match kind_of_word(words[0]) {
                    Some(kind) => table_of(words, kind) is None,
                    None => true,
                }
            },
            Err(_) => false,
        },
{
    let tokens = split_words(sql);
    if tokens.len() == 0 {
        return Err(DbError::InvalidQuery(String::from_str("Empty SQL query")));
    }
    let first = to_upper(tokens[0].as_str());
    let word = first.as_str();
    let query_type = if crate::keys::compare_keys(word, "SELECT") == crate::keys::KeyOrder::Equal {
        QueryType::Select
    } else if crate::keys::compare_keys(word, "INSERT") == crate::keys::KeyOrder::Equal {
        QueryType::Insert
    } else if crate::keys::compare_keys(word, "DELETE") == crate::keys::KeyOrder::Equal {
        QueryType::Delete
    } else if crate::keys::compare_keys(word, "UPDATE") == crate::keys::KeyOrder::Equal {
        QueryType::Update
    } else {
        let mut message = String::from_str("Unsupported SQL query type: ");
        message.append(tokens[0].as_str());
        return Err(DbError::InvalidQuery(message));
    };
    let table_name = match extract_table_name(&tokens, query_type) {
        Ok(name) => name,
        Err(e) => {
            return Err(e);
        },
    };
    let columns = match query_type {
        QueryType::Select => match extract_select_columns(&tokens) {
            Ok(c) => c,
            Err(e) => {
                return Err(e);
            },
        },
        _ => Vec::new(),
    };
    let has_parameters = has_parameters(sql);
    let where_conditions = match extract_where_conditions(&tokens) {
        Ok(c) => c,
        Err(e) => {
            return Err(e);
        },
    };
    Ok(QueryAnalysis { query_type, table_name, columns, where_conditions, has_parameters })
}

} // verus!
