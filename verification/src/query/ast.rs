//! The statements of the query language.

use vstd::prelude::*;
use vstd::string::StringExecFns;

verus! {

/// A literal value. A number is kept as it was written.
#[derive(Debug, PartialEq)]
pub enum Value {
    String(String),
    Number(String),
    Boolean(bool),
    Null,
}

/// A condition of a `WHERE` clause.
#[derive(Debug, PartialEq)]
pub enum Condition {
    Equals(String, Value),
    NotEquals(String, Value),
    GreaterThan(String, Value),
    LessThan(String, Value),
    GreaterThanOrEqual(String, Value),
    LessThanOrEqual(String, Value),
    Like(String, String),
    And(Box<Condition>, Box<Condition>),
    Or(Box<Condition>, Box<Condition>),
}

#[derive(Debug, PartialEq)]
pub struct WhereClause {
    pub condition: Condition,
}

#[derive(Debug, PartialEq)]
pub struct SelectStatement {
    pub columns: Vec<String>,
    pub table: String,
    pub where_clause: Option<WhereClause>,
    pub limit: Option<usize>,
}

#[derive(Debug, PartialEq)]
pub struct InsertStatement {
    pub table: String,
    pub columns: Vec<String>,
    pub values: Vec<Value>,
}

#[derive(Debug, PartialEq)]
pub struct DeleteStatement {
    pub table: String,
    pub where_clause: Option<WhereClause>,
}

#[derive(Debug, PartialEq)]
pub enum Statement {
    Select(SelectStatement),
    Insert(InsertStatement),
    Delete(DeleteStatement),
}

/// What a literal value is.
pub enum ValueModel {
    String(Seq<char>),
    Number(Seq<char>),
    Boolean(bool),
    Null,
}

/// What a condition is.
pub enum ConditionModel {
    Equals(Seq<char>, ValueModel),
    NotEquals(Seq<char>, ValueModel),
    GreaterThan(Seq<char>, ValueModel),
    LessThan(Seq<char>, ValueModel),
    GreaterThanOrEqual(Seq<char>, ValueModel),
    LessThanOrEqual(Seq<char>, ValueModel),
    Like(Seq<char>, Seq<char>),
    And(Box<ConditionModel>, Box<ConditionModel>),
    Or(Box<ConditionModel>, Box<ConditionModel>),
}

/// What a selection is.
pub struct SelectModel {
    pub columns: Seq<Seq<char>>,
    pub table: Seq<char>,
    pub where_clause: Option<ConditionModel>,
    pub limit: Option<usize>,
}

/// What an insertion is.
pub struct InsertModel {
    pub table: Seq<char>,
    pub columns: Seq<Seq<char>>,
    pub values: Seq<ValueModel>,
}

/// What a deletion is.
pub struct DeleteModel {
    pub table: Seq<char>,
    pub where_clause: Option<ConditionModel>,
}

/// What a statement is.
pub enum StatementModel {
    Select(SelectModel),
    Insert(InsertModel),
    Delete(DeleteModel),
}

impl View for Value {
    type V = ValueModel;

    open spec fn view(&self) -> ValueModel {
        match self {
            Value::String(s) => ValueModel::String(s@),
            Value::Number(n) => ValueModel::Number(n@),
            Value::Boolean(b) => ValueModel::Boolean(*b),
            Value::Null => ValueModel::Null,
        }
    }
}

impl View for Condition {
    type V = ConditionModel;

    open spec fn view(&self) -> ConditionModel
        decreases self,
    {
        match self {
            Condition::Equals(c, v) => ConditionModel::Equals(c@, v@),
            Condition::NotEquals(c, v) => ConditionModel::NotEquals(c@, v@),
            Condition::GreaterThan(c, v) => ConditionModel::GreaterThan(c@, v@),
            Condition::LessThan(c, v) => ConditionModel::LessThan(c@, v@),
            Condition::GreaterThanOrEqual(c, v) => ConditionModel::GreaterThanOrEqual(c@, v@),
            Condition::LessThanOrEqual(c, v) => ConditionModel::LessThanOrEqual(c@, v@),
            Condition::Like(c, p) => ConditionModel::Like(c@, p@),
            Condition::And(a, b) => ConditionModel::And(Box::new((**a).view()), Box::new((**b).view())),
            Condition::Or(a, b) => ConditionModel::Or(Box::new((**a).view()), Box::new((**b).view())),
        }
    }
}

/// What an optional `WHERE` clause is.
pub open spec fn clause_model(clause: Option<WhereClause>) -> Option<ConditionModel> {
    match clause {
        Some(w) => Some(w.condition@),
        None => None,
    }
}

/// What each of the values is.
pub open spec fn values_of(items: Seq<Value>) -> Seq<ValueModel> {
    Seq::new(items.len(), |i: int| items[i]@)
}

impl View for Statement {
    type V = StatementModel;

    open spec fn view(&self) -> StatementModel {
        match self {
            Statement::Select(s) => StatementModel::Select(
                SelectModel {
                    columns: texts_of(s.columns@),
                    table: s.table@,
                    where_clause: clause_model(s.where_clause),
                    limit: s.limit,
                },
            ),
            Statement::Insert(s) => StatementModel::Insert(
                InsertModel {
                    table: s.table@,
                    columns: texts_of(s.columns@),
                    values: values_of(s.values@),
                },
            ),
            Statement::Delete(s) => StatementModel::Delete(
                DeleteModel { table: s.table@, where_clause: clause_model(s.where_clause) },
            ),
        }
    }
}

impl Value {
    /// The value as it is written in a statement.
    pub open spec fn text(&self) -> Seq<char> {
        match self {
            Value::String(s) => "'"@ + s@ + "'"@,
            Value::Number(n) => n@,
            Value::Boolean(b) => if *b {
                "true"@
            } else {
                "false"@
            },
            Value::Null => "NULL"@,
        }
    }

    /// The value as it is written in a statement.
    pub fn to_string(&self) -> (r: String)
        ensures
            r@ == self.text(),
    {
        match self {
            Value::String(s) => {
                let mut out = String::from_str("'");
                out.append(s.as_str());
                out.append("'");
                out
            },
            Value::Number(n) => n.clone(),
            Value::Boolean(b) => if *b {
                String::from_str("true")
            } else {
                String::from_str("false")
            },
            Value::Null => String::from_str("NULL"),
        }
    }
}

/// The sign of a comparison.
pub open spec fn comparison(column: Seq<char>, sign: Seq<char>, value: Seq<char>) -> Seq<char> {
    column + " "@ + sign + " "@ + value
}

impl Condition {
    /// The condition as it is written in a statement.
    pub open spec fn text(&self) -> Seq<char>
        decreases self,
    {
        match self {
            Condition::Equals(c, v) => comparison(c@, "="@, v.text()),
            Condition::NotEquals(c, v) => comparison(c@, "!="@, v.text()),
            Condition::GreaterThan(c, v) => comparison(c@, ">"@, v.text()),
            Condition::LessThan(c, v) => comparison(c@, "<"@, v.text()),
            Condition::GreaterThanOrEqual(c, v) => comparison(c@, ">="@, v.text()),
            Condition::LessThanOrEqual(c, v) => comparison(c@, "<="@, v.text()),
            Condition::Like(c, p) => comparison(c@, "LIKE"@, "'"@ + p@ + "'"@),
            Condition::And(a, b) => "("@ + a.text() + " AND "@ + b.text() + ")"@,
            Condition::Or(a, b) => "("@ + a.text() + " OR "@ + b.text() + ")"@,
        }
    }

    fn compare_text(column: &String, sign: &str, value: &str) -> (r: String)
        ensures
            r@ == comparison(column@, sign@, value@),
    {
        let mut out = column.clone();
        out.append(" ");
        out.append(sign);
        out.append(" ");
        out.append(value);
        out
    }

    /// The condition as it is written in a statement.
    pub fn to_string(&self) -> (r: String)
        ensures
            r@ == self.text(),
        decreases self,
    {
        match self {
            Condition::Equals(c, v) => Self::compare_text(c, "=", v.to_string().as_str()),
            Condition::NotEquals(c, v) => Self::compare_text(c, "!=", v.to_string().as_str()),
            Condition::GreaterThan(c, v) => Self::compare_text(c, ">", v.to_string().as_str()),
            Condition::LessThan(c, v) => Self::compare_text(c, "<", v.to_string().as_str()),
            Condition::GreaterThanOrEqual(c, v) => Self::compare_text(
                c,
                ">=",
                v.to_string().as_str(),
            ),
            Condition::LessThanOrEqual(c, v) => Self::compare_text(
                c,
                "<=",
                v.to_string().as_str(),
            ),
            Condition::Like(c, p) => {
                let mut quoted = String::from_str("'");
                quoted.append(p.as_str());
                quoted.append("'");
                Self::compare_text(c, "LIKE", quoted.as_str())
            },
            Condition::And(a, b) => {
                let mut out = String::from_str("(");
                out.append(a.to_string().as_str());
                out.append(" AND ");
                out.append(b.to_string().as_str());
                out.append(")");
                out
            },
            Condition::Or(a, b) => {
                let mut out = String::from_str("(");
                out.append(a.to_string().as_str());
                out.append(" OR ");
                out.append(b.to_string().as_str());
                out.append(")");
                out
            },
        }
    }
}

/// Texts joined by `, `.
pub open spec fn joined(items: Seq<Seq<char>>) -> Seq<char>
    decreases items.len(),
{
    if items.len() == 0 {
        Seq::empty()
    } else if items.len() == 1 {
        items[0]
    } else {
        joined(items.drop_last()) + ", "@ + items.last()
    }
}

/// The texts of strings.
pub open spec fn texts_of(items: Seq<String>) -> Seq<Seq<char>> {
    Seq::new(items.len(), |i: int| items[i]@)
}

/// The texts of values.
pub open spec fn value_texts(items: Seq<Value>) -> Seq<Seq<char>> {
    Seq::new(items.len(), |i: int| items[i].text())
}

/// Joins column names by `, `.
pub fn join_columns(columns: &Vec<String>) -> (r: String)
    ensures
        r@ == joined(texts_of(columns@)),
{
    let mut out = String::new();
    let ghost ts = texts_of(columns@);
    let mut i: usize = 0;
    proof {
        assert(ts.take(0) =~= Seq::<Seq<char>>::empty());
    }
    while i < columns.len()
        invariant
            i <= columns@.len(),
            ts == texts_of(columns@),
            out@ == joined(ts.take(i as int)),
        decreases columns.len() - i,
    {
        proof {
            assert(ts.take(i + 1).drop_last() =~= ts.take(i as int));
            assert(ts.take(i + 1).last() == columns@[i as int]@);
        }
        if i > 0 {
            out.append(", ");
        }
        out.append(columns[i].as_str());
        proof {
            if i == 0 {
                assert(out@ =~= ts.take(1)[0]);
            }
        }
        i += 1;
    }
    proof {
        assert(ts.take(i as int) =~= ts);
    }
    out
}

/// Joins the texts of values by `, `.
pub fn join_values(values: &Vec<Value>) -> (r: String)
    ensures
        r@ == joined(value_texts(values@)),
{
    let mut out = String::new();
    let ghost ts = value_texts(values@);
    let mut i: usize = 0;
    proof {
        assert(ts.take(0) =~= Seq::<Seq<char>>::empty());
    }
    while i < values.len()
        invariant
            i <= values@.len(),
            ts == value_texts(values@),
            out@ == joined(ts.take(i as int)),
        decreases values.len() - i,
    {
        proof {
            assert(ts.take(i + 1).drop_last() =~= ts.take(i as int));
            assert(ts.take(i + 1).last() == values@[i as int].text());
        }
        if i > 0 {
            out.append(", ");
        }
        out.append(values[i].to_string().as_str());
        proof {
            if i == 0 {
                assert(out@ =~= ts.take(1)[0]);
            }
        }
        i += 1;
    }
    proof {
        assert(ts.take(i as int) =~= ts);
    }
    out
}

impl Statement {
    /// The statement as it is written.
    pub open spec fn text(&self) -> Seq<char> {
        match self {
            Statement::Select(s) => "SELECT "@ + joined(texts_of(s.columns@)) + " FROM "@ + s.table@
                + (match s.where_clause {
                Some(w) => " WHERE "@ + w.condition.text(),
                None => Seq::empty(),
            }) + (match s.limit {
                Some(n) => " LIMIT "@ + crate::engine::naming::decimal(n as nat),
                None => Seq::empty(),
            }),
            Statement::Insert(s) => "INSERT INTO "@ + s.table@ + " ("@ + joined(
                texts_of(s.columns@),
            ) + ") VALUES ("@ + joined(value_texts(s.values@)) + ")"@,
            Statement::Delete(s) => "DELETE FROM "@ + s.table@ + (match s.where_clause {
                Some(w) => " WHERE "@ + w.condition.text(),
                None => Seq::empty(),
            }),
        }
    }

    /// The statement as it is written.
    pub fn to_string(&self) -> (r: String)
        ensures
            r@ == self.text(),
    {
        match self {
            Statement::Select(s) => {
                let mut out = String::from_str("SELECT ");
                out.append(join_columns(&s.columns).as_str());
                out.append(" FROM ");
                out.append(s.table.as_str());
                match &s.where_clause {
                    Some(w) => {
                        out.append(" WHERE ");
                        out.append(w.condition.to_string().as_str());
                    },
                    None => {
                        proof {
                            assert(out@ + Seq::<char>::empty() =~= out@);
                        }
                    },
                }
                let ghost mid = out@;
                match s.limit {
                    Some(n) => {
                        out.append(" LIMIT ");
                        crate::engine::naming::append_decimal(&mut out, n as u64);
                        proof {
                            assert(out@ =~= mid + (" LIMIT "@ + crate::engine::naming::decimal(
                                n as nat,
                            )));
                        }
                    },
                    None => {
                        proof {
                            assert(out@ + Seq::<char>::empty() =~= out@);
                        }
                    },
                }
                out
            },
            Statement::Insert(s) => {
                let mut out = String::from_str("INSERT INTO ");
                out.append(s.table.as_str());
                out.append(" (");
                out.append(join_columns(&s.columns).as_str());
                out.append(") VALUES (");
                out.append(join_values(&s.values).as_str());
                out.append(")");
                out
            },
            Statement::Delete(s) => {
                let mut out = String::from_str("DELETE FROM ");
                out.append(s.table.as_str());
                match &s.where_clause {
                    Some(w) => {
                        out.append(" WHERE ");
                        out.append(w.condition.to_string().as_str());
                    },
                    None => {
                        proof {
                            assert(out@ + Seq::<char>::empty() =~= out@);
                        }
                    },
                }
                out
            },
        }
    }
}

} // verus!
