//! The grammar of the query language, over the tokens of a statement.
//!
//! A statement is a selection, an insertion or a deletion:
//!
//! ```text
//! SELECT columns FROM table [WHERE condition] [LIMIT count]
//! INSERT INTO table ( columns ) VALUES ( values )
//! DELETE FROM table [WHERE condition]
//! ```
//!
//! Columns and values are lists with `,` between their items. A condition
//! is a comparison, or a comparison followed by `AND` or `OR` and a
//! condition. Words are told apart whatever the case of their letters.
//! What follows a statement is not looked at.

use vstd::prelude::*;
use vstd::utf8::encode_utf8;
use crate::engine::naming::{digits_value, is_digit};
use crate::query::ast::{
    ConditionModel, DeleteModel, InsertModel, SelectModel, StatementModel, ValueModel,
};
use crate::query::literal::is_number;
use crate::text::upper_of;

verus! {

/// The token is the word, whatever the case of its letters.
pub open spec fn is_word(token: Seq<char>, word: Seq<char>) -> bool {
    upper_of(token) == upper_of(word)
}

/// The token at `pos` is the word.
pub open spec fn word_at(tokens: Seq<Seq<char>>, pos: int, word: Seq<char>) -> bool {
    0 <= pos < tokens.len() && is_word(tokens[pos], word)
}

/// The value that a token spells: a text between single quotes, a number,
/// `TRUE`, `FALSE` or `NULL`.
pub open spec fn value_of(t: Seq<char>) -> Option<ValueModel> {
    if t.len() >= 2 && t[0] == '\'' && t[t.len() - 1] == '\'' {
        Some(ValueModel::String(t.subrange(1, t.len() - 1)))
    } else if is_number(encode_utf8(t)) {
        Some(ValueModel::Number(t))
    } else if is_word(t, "TRUE"@) {
        Some(ValueModel::Boolean(true))
    } else if is_word(t, "FALSE"@) {
        Some(ValueModel::Boolean(false))
    } else if is_word(t, "NULL"@) {
        Some(ValueModel::Null)
    } else {
        None
    }
}

/// Every byte is a decimal digit, and there is one at least.
pub open spec fn all_digits(b: Seq<u8>) -> bool {
    b.len() > 0 && forall|i: int| 0 <= i < b.len() ==> is_digit(#[trigger] b[i])
}

/// The count that a token spells: decimal digits whose number fits a `usize`.
pub open spec fn plain_count(t: Seq<char>) -> Option<usize> {
    let b = encode_utf8(t);
    if all_digits(b) && digits_value(b) <= usize::MAX {
        Some(digits_value(b) as usize)
    } else {
        None
    }
}

/// A list of values from `pos` on, with `,` between them: the list and the
/// position behind it.
pub open spec fn value_list(tokens: Seq<Seq<char>>, pos: int) -> Option<(Seq<ValueModel>, int)>
    decreases tokens.len() - pos,
{
    if pos < 0 || pos >= tokens.len() {
        None
    } else {
        match value_of(tokens[pos]) {
            None => None,
            Some(v) => if pos + 1 < tokens.len() && tokens[pos + 1] == ","@ {
                match value_list(tokens, pos + 2) {
                    Some((rest, end)) => Some((seq![v] + rest, end)),
                    None => None,
                }
            } else {
                Some((seq![v], pos + 1))
            },
        }
    }
}

/// The comparison that the three tokens from `pos` on spell: a column, an
/// operator and a value. `LIKE` takes a text only.
pub open spec fn comparison(tokens: Seq<Seq<char>>, pos: int) -> Option<ConditionModel> {
    if pos < 0 || pos + 2 >= tokens.len() {
        None
    } else {
        let column = tokens[pos];
        let sign = tokens[pos + 1];
        match value_of(tokens[pos + 2]) {
            None => None,
            Some(v) => if is_word(sign, "="@) {
                Some(ConditionModel::Equals(column, v))
            } else if is_word(sign, "!="@) {
                Some(ConditionModel::NotEquals(column, v))
            } else if is_word(sign, ">"@) {
                Some(ConditionModel::GreaterThan(column, v))
            } else if is_word(sign, "<"@) {
                Some(ConditionModel::LessThan(column, v))
            } else if is_word(sign, ">="@) {
                Some(ConditionModel::GreaterThanOrEqual(column, v))
            } else if is_word(sign, "<="@) {
                Some(ConditionModel::LessThanOrEqual(column, v))
            } else if is_word(sign, "LIKE"@) {
                match v {
                    ValueModel::String(pattern) => Some(ConditionModel::Like(column, pattern)),
                    _ => None,
                }
            } else {
                None
            },
        }
    }
}

/// The condition from `pos` on, and the position behind it. `AND` and `OR`
/// group to the right.
pub open spec fn condition(tokens: Seq<Seq<char>>, pos: int) -> Option<(ConditionModel, int)>
    decreases tokens.len() - pos,
{
    match comparison(tokens, pos) {
        None => None,
        Some(left) => {
            let next = pos + 3;
            if word_at(tokens, next, "AND"@) {
                match condition(tokens, next + 1) {
                    Some((right, end)) => Some(
                        (ConditionModel::And(Box::new(left), Box::new(right)), end),
                    ),
                    None => None,
                }
            } else if word_at(tokens, next, "OR"@) {
                match condition(tokens, next + 1) {
                    Some((right, end)) => Some(
                        (ConditionModel::Or(Box::new(left), Box::new(right)), end),
                    ),
                    None => None,
                }
            } else {
                Some((left, next))
            }
        },
    }
}

/// The `WHERE` clause at `pos`, if one stands there, and the position behind it.
pub open spec fn where_clause(tokens: Seq<Seq<char>>, pos: int) -> Option<
    (Option<ConditionModel>, int),
> {
    if word_at(tokens, pos, "WHERE"@) {
        match condition(tokens, pos + 1) {
            Some((c, end)) => Some((Some(c), end)),
            None => None,
        }
    } else {
        Some((None, pos))
    }
}

/// The `LIMIT` clause at `pos`, if one stands there, and the position behind it.
pub open spec fn limit_clause(tokens: Seq<Seq<char>>, pos: int) -> Option<(Option<usize>, int)> {
    if word_at(tokens, pos, "LIMIT"@) {
        if pos + 1 < tokens.len() {
            match plain_count(tokens[pos + 1]) {
                Some(n) => Some((Some(n), pos + 2)),
                None => None,
            }
        } else {
            None
        }
    } else {
        Some((None, pos))
    }
}

/// A list of columns from `pos` on: names with `,` between them. The list
/// and the position behind it; `None` where a name is missing.
pub open spec fn column_list(tokens: Seq<Seq<char>>, pos: int) -> Option<(Seq<Seq<char>>, int)>
    decreases tokens.len() - pos,
{
    if pos < 0 || pos >= tokens.len() {
        None
    } else if pos + 1 < tokens.len() && tokens[pos + 1] == ","@ {
        match column_list(tokens, pos + 2) {
            Some((rest, end)) => Some((seq![tokens[pos]] + rest, end)),
            None => None,
        }
    } else {
        Some((seq![tokens[pos]], pos + 1))
    }
}

/// The selection from `pos` on, and the position behind it.
pub open spec fn selection(tokens: Seq<Seq<char>>, pos: int) -> Option<(SelectModel, int)> {
    if !word_at(tokens, pos, "SELECT"@) {
        None
    } else {
        match column_list(tokens, pos + 1) {
            None => None,
            Some((columns, p)) => if !word_at(tokens, p, "FROM"@) || p + 1 >= tokens.len() {
                None
            } else {
                match where_clause(tokens, p + 2) {
                    None => None,
                    Some((w, q)) => match limit_clause(tokens, q) {
                        None => None,
                        Some((limit, end)) => Some(
                            (
                                SelectModel {
                                    columns,
                                    table: tokens[p + 1],
                                    where_clause: w,
                                    limit,
                                },
                                end,
                            ),
                        ),
                    },
                }
            },
        }
    }
}

/// The insertion from `pos` on, and the position behind it.
pub open spec fn insertion(tokens: Seq<Seq<char>>, pos: int) -> Option<(InsertModel, int)> {
    if !word_at(tokens, pos, "INSERT"@) || !word_at(tokens, pos + 1, "INTO"@) || pos + 2
        >= tokens.len() || !word_at(tokens, pos + 3, "("@) {
        None
    } else {
        match column_list(tokens, pos + 4) {
            None => None,
            Some((columns, p)) => if !word_at(tokens, p, ")"@) || !word_at(
                tokens,
                p + 1,
                "VALUES"@,
            ) || !word_at(tokens, p + 2, "("@) {
                None
            } else {
                match value_list(tokens, p + 3) {
                    None => None,
                    Some((values, q)) => if word_at(tokens, q, ")"@) {
                        Some((InsertModel { table: tokens[pos + 2], columns, values }, q + 1))
                    } else {
                        None
                    },
                }
            },
        }
    }
}

/// The deletion from `pos` on, and the position behind it.
pub open spec fn deletion(tokens: Seq<Seq<char>>, pos: int) -> Option<(DeleteModel, int)> {
    if !word_at(tokens, pos, "DELETE"@) || !word_at(tokens, pos + 1, "FROM"@) || pos + 2
        >= tokens.len() {
        None
    } else {
        match where_clause(tokens, pos + 3) {
            None => None,
            Some((w, end)) => Some((DeleteModel { table: tokens[pos + 2], where_clause: w }, end)),
        }
    }
}

/// The statement that the tokens spell, read from `pos` on; its kind is
/// told by the first token of all.
pub open spec fn statement(tokens: Seq<Seq<char>>, pos: int) -> Option<(StatementModel, int)> {
    if tokens.len() == 0 {
        None
    } else if is_word(tokens[0], "SELECT"@) {
        match selection(tokens, pos) {
            Some((s, end)) => Some((StatementModel::Select(s), end)),
            None => None,
        }
    } else if is_word(tokens[0], "INSERT"@) {
        match insertion(tokens, pos) {
            Some((s, end)) => Some((StatementModel::Insert(s), end)),
            None => None,
        }
    } else if is_word(tokens[0], "DELETE"@) {
        match deletion(tokens, pos) {
            Some((s, end)) => Some((StatementModel::Delete(s), end)),
            None => None,
        }
    } else {
        None
    }
}

} // verus!
