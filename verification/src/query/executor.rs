//! Running statements against the tree.

use vstd::prelude::*;
use vstd::string::StringExecFns;
use crate::engine::lsm::LSMTree;
use crate::engine::naming::{append_decimal, decimal};
use crate::keys::{compare_keys, KeyOrder};
use crate::query::ast::{
    Condition, DeleteStatement, InsertStatement, SelectStatement, Statement, Value,
};
use crate::types::{DbError, DbResult};

verus! {

/// What a statement brought.
#[derive(Debug, PartialEq)]
pub enum QueryResult {
    /// The records found, each a list of columns with their values.
    Select(Vec<Vec<(String, String)>>),
    /// The number of records stored.
    Insert(usize),
    /// The number of records deleted.
    Delete(usize),
}

/// One record as text: each column, a colon and a blank, and its value.
pub open spec fn record_text(record: Seq<(String, String)>) -> Seq<char>
    decreases record.len(),
{
    if record.len() == 0 {
        Seq::empty()
    } else {
        record_text(record.drop_last()) + record.last().0@ + ": "@ + record.last().1@
    }
}

/// Records as text, one to a line.
pub open spec fn records_text(records: Seq<Vec<(String, String)>>) -> Seq<char>
    decreases records.len(),
{
    if records.len() == 0 {
        Seq::empty()
    } else if records.len() == 1 {
        record_text(records[0]@)
    } else {
        records_text(records.drop_last()) + "\n"@ + record_text(records.last()@)
    }
}

impl QueryResult {
    /// The result as text.
    pub open spec fn text(&self) -> Seq<char> {
        match self {
            QueryResult::Select(records) => if records@.len() == 0 {
                "No records found"@
            } else {
                records_text(records@)
            },
            QueryResult::Insert(n) => "Inserted "@ + decimal(*n as nat) + " record(s)"@,
            QueryResult::Delete(n) => "Deleted "@ + decimal(*n as nat) + " record(s)"@,
        }
    }

    fn format_record(out: &mut String, record: &Vec<(String, String)>)
        ensures
            final(out)@ == old(out)@ + record_text(record@),
    {
        let ghost start = out@;
        let mut i: usize = 0;
        proof {
            assert(record@.take(0) =~= Seq::<(String, String)>::empty());
            assert(start + record_text(record@.take(0)) =~= start);
        }
        while i < record.len()
            invariant
                i <= record@.len(),
                out@ == start + record_text(record@.take(i as int)),
            decreases record.len() - i,
        {
            proof {
                assert(record@.take(i + 1).drop_last() =~= record@.take(i as int));
                assert(record@.take(i + 1).last() == record@[i as int]);
            }
            let ghost mid = out@;
            out.append(record[i].0.as_str());
            out.append(": ");
            out.append(record[i].1.as_str());
            proof {
                assert(out@ =~= start + record_text(record@.take(i + 1)));
            }
            i += 1;
        }
        proof {
            assert(record@.take(i as int) =~= record@);
        }
    }

    /// The result as text.
    pub fn format(&self) -> (r: String)
        ensures
            r@ == self.text(),
    {
        match self {
            QueryResult::Select(records) => {
                if records.len() == 0 {
                    String::from_str("No records found")
                } else {
                    let mut out = String::new();
                    let mut i: usize = 0;
                    proof {
                        assert(records@.take(0) =~= Seq::<Vec<(String, String)>>::empty());
                    }
                    while i < records.len()
                        invariant
                            i <= records@.len(),
                            out@ == records_text(records@.take(i as int)),
                        decreases records.len() - i,
                    {
                        proof {
                            assert(records@.take(i + 1).drop_last() =~= records@.take(i as int));
                            assert(records@.take(i + 1).last() == records@[i as int]);
                        }
                        let ghost before = out@;
                        if i > 0 {
                            out.append("\n");
                        }
                        Self::format_record(&mut out, &records[i]);
                        proof {
                            if i == 0 {
                                assert(out@ =~= record_text(records@.take(1)[0]@));
                            }
                        }
                        i += 1;
                    }
                    proof {
                        assert(records@.take(i as int) =~= records@);
                    }
                    out
                }
            },
            QueryResult::Insert(n) => {
                let mut out = String::from_str("Inserted ");
                append_decimal(&mut out, *n as u64);
                out.append(" record(s)");
                out
            },
            QueryResult::Delete(n) => {
                let mut out = String::from_str("Deleted ");
                append_decimal(&mut out, *n as u64);
                out.append(" record(s)");
                out
            },
        }
    }
}

/// The key that a condition names: the value of an equality on the column `key`.
pub open spec fn key_of_condition(condition: &Condition) -> Option<Seq<char>> {
    match condition {
        Condition::Equals(column, value) => if column@ == "key"@ {
            match value {
                Value::String(s) => Some(s@),
                Value::Number(n) => Some(n@),
                _ => None,
            }
        } else {
            None
        },
        _ => None,
    }
}

/// Runs statements against a tree.
pub struct QueryExecutor<'a> {
    lsm_tree: &'a mut LSMTree,
}

impl<'a> QueryExecutor<'a> {
    /// The tree that the executor works on.
    pub closed spec fn tree(&self) -> LSMTree {
        *self.lsm_tree
    }

    /// An executor over a tree.
    pub fn new(lsm_tree: &'a mut LSMTree) -> (r: Self)
        ensures
            r.tree() == *old(lsm_tree),
    {
        Self { lsm_tree }
    }

    /// What running a statement does to the tree and what it brings.
    pub open spec fn ran(
        pre: &LSMTree,
        post: &LSMTree,
        statement: &Statement,
        r: DbResult<QueryResult>,
    ) -> bool {
        match statement {
            Statement::Select(select) => LSMTree::same(pre, post) && Self::selected(
                pre,
                select,
                r,
            ),
            Statement::Insert(insert) => Self::inserted(pre, post, insert, r),
            Statement::Delete(delete) => Self::deleted(pre, post, delete, r),
        }
    }

    /// Runs a statement.
    pub fn execute(&mut self, statement: Statement) -> (r: DbResult<QueryResult>)
        requires
            old(self).tree().wf(),
        ensures
            final(self).tree().wf(),
            Self::ran(&old(self).tree(), &final(self).tree(), &statement, r),
    {
        match statement {
            Statement::Select(select) => Self::execute_select(&*self.lsm_tree, &select),
            Statement::Insert(insert) => Self::execute_insert(&mut *self.lsm_tree, &insert),
            Statement::Delete(delete) => Self::execute_delete(&mut *self.lsm_tree, &delete),
        }
    }

    /// The key that a condition names, if it names one.
    pub fn extract_key_from_condition(condition: &Condition) -> (r: DbResult<Option<String>>)
        ensures
            match r {
                Ok(Some(k)) => key_of_condition(condition) == Some(k@),
                Ok(None) => key_of_condition(condition) is None,
                Err(_) => false,
            },
    {
        match condition {
            Condition::Equals(column, value) => {
                if compare_keys(column.as_str(), "key") == KeyOrder::Equal {
                    match value {
                        Value::String(s) => Ok(Some(s.clone())),
                        Value::Number(n) => Ok(Some(n.clone())),
                        _ => Ok(None),
                    }
                } else {
                    Ok(None)
                }
            },
            _ => Ok(None),
        }
    }

    /// Whether the columns hold `*`.
    fn selects_all(columns: &Vec<String>) -> (r: bool)
        ensures
            r == exists|i: int| 0 <= i < columns@.len() && (#[trigger] columns@[i])@ == "*"@,
    {
        let mut i: usize = 0;
        while i < columns.len()
            invariant
                i <= columns@.len(),
                forall|j: int| 0 <= j < i ==> (#[trigger] columns@[j])@ != "*"@,
            decreases columns.len() - i,
        {
            if compare_keys(columns[i].as_str(), "*") == KeyOrder::Equal {
                return true;
            }
            i += 1;
        }
        false
    }

    /// What a selection brings: the record under the key that the statement
    /// names, if the key reads as present. A statement that does not select
    /// `*`, or names no key, is refused.
    pub open spec fn selected(tree: &LSMTree, select: &SelectStatement, r: DbResult<QueryResult>) -> bool {
        match r {
            Ok(QueryResult::Select(records)) => {
                &&& exists|i: int|
                    0 <= i < select.columns@.len() && (#[trigger] select.columns@[i])@ == "*"@
                &&& select.where_clause is Some
                &&& match key_of_condition(&select.where_clause.unwrap().condition) {
                    Some(k) => match tree.logical(k) {
                        Some(v) => records@.len() == 1 && records@[0]@.len() == 2
                            && records@[0]@[0].0@ == "key"@ && records@[0]@[0].1@ == k
                            && records@[0]@[1].0@ == "value"@ && records@[0]@[1].1@ == v,
                        None => records@.len() == 0,
                    },
                    None => false,
                }
            },
            Ok(_) => false,
            Err(DbError::InvalidOperation(_)) => !(exists|i: int|
                0 <= i < select.columns@.len() && (#[trigger] select.columns@[i])@ == "*"@)
                || select.where_clause is None || key_of_condition(
                &select.where_clause.unwrap().condition,
            ) is None,
            Err(_) => false,
        }
    }

    /// Looks up the key that the statement names. The statement must select
    /// `*` and name a key.
    pub fn execute_select(tree: &LSMTree, select: &SelectStatement) -> (r: DbResult<QueryResult>)
        requires
            tree.wf(),
        ensures
            Self::selected(tree, select, r),
    {
        if !Self::selects_all(&select.columns) {
            return Err(
                DbError::InvalidOperation(
                    String::from_str(
                        "Multi-column SELECT not supported in this key-value implementation",
                    ),
                ),
            );
        }
        let clause = match &select.where_clause {
            Some(w) => w,
            None => {
                return Err(
                    DbError::InvalidOperation(
                        String::from_str(
                            "SELECT without WHERE clause is not supported (would return all data)",
                        ),
                    ),
                );
            },
        };
        let key = match Self::extract_key_from_condition(&clause.condition) {
            Ok(Some(k)) => k,
            _ => {
                return Err(
                    DbError::InvalidOperation(
                        String::from_str("Complex WHERE clauses not supported yet"),
                    ),
                );
            },
        };
        let mut records: Vec<Vec<(String, String)>> = Vec::new();
        match tree.get(key.as_str()) {
            Ok(Some(value)) => {
                let mut record: Vec<(String, String)> = Vec::new();
                record.push((String::from_str("key"), key));
                record.push((String::from_str("value"), value));
                records.push(record);
            },
            _ => {},
        }
        Ok(QueryResult::Select(records))
    }

    /// The text under which a value is stored as a key; `None` for a value
    /// that cannot be a key.
    pub open spec fn key_text(value: &Value) -> Option<Seq<char>> {
        match value {
            Value::String(s) => Some(s@),
            Value::Number(n) => Some(n@),
            _ => None,
        }
    }

    /// The text under which a value is stored as a payload.
    pub open spec fn payload_text(value: &Value) -> Seq<char> {
        match value {
            Value::String(s) => s@,
            Value::Number(n) => n@,
            Value::Boolean(b) => if *b {
                "true"@
            } else {
                "false"@
            },
            Value::Null => "NULL"@,
        }
    }

    /// Whether an insertion has the shape that the store takes: two columns
    /// and two values, the first of which can be a key.
    pub open spec fn insertable(insert: &InsertStatement) -> bool {
        insert.columns@.len() == 2 && insert.values@.len() == 2 && Self::key_text(
            &insert.values@[0],
        ) is Some
    }

    /// What an insertion does: it writes the second value under the first.
    /// A statement of another shape is refused, and so is a key or a value
    /// that the tree does not accept; the tree then stays as it was.
    pub open spec fn inserted(
        pre: &LSMTree,
        post: &LSMTree,
        insert: &InsertStatement,
        r: DbResult<QueryResult>,
    ) -> bool {
        match r {
            Ok(result) => result == QueryResult::Insert(1) && Self::insertable(insert)
                && LSMTree::accepts(
                Self::key_text(&insert.values@[0]).unwrap(),
                Some(Self::payload_text(&insert.values@[1])),
            ) && LSMTree::written(
                pre,
                post,
                Self::key_text(&insert.values@[0]).unwrap(),
                Some(Self::payload_text(&insert.values@[1])),
            ),
            Err(DbError::InvalidOperation(_)) => !Self::insertable(insert) && LSMTree::same(
                pre,
                post,
            ),
            Err(DbError::InvalidArgument(_)) => Self::insertable(insert) && !LSMTree::accepts(
                Self::key_text(&insert.values@[0]).unwrap(),
                Some(Self::payload_text(&insert.values@[1])),
            ) && LSMTree::same(pre, post),
            Err(_) => false,
        }
    }

    /// Stores the second value of the statement under the first.
    pub fn execute_insert(tree: &mut LSMTree, insert: &InsertStatement) -> (r: DbResult<
        QueryResult,
    >)
        requires
            old(tree).wf(),
        ensures
            final(tree).wf(),
            Self::inserted(old(tree), final(tree), insert, r),
    {
        if insert.columns.len() != 2 {
            return Err(
                DbError::InvalidOperation(
                    String::from_str("INSERT requires exactly 2 columns: key and value"),
                ),
            );
        }
        if insert.values.len() != 2 {
            return Err(
                DbError::InvalidOperation(String::from_str("INSERT requires exactly 2 values")),
            );
        }
        let key = match &insert.values[0] {
            Value::String(s) => s.clone(),
            Value::Number(n) => n.clone(),
            _ => {
                return Err(
                    DbError::InvalidOperation(String::from_str("Key must be a string or number")),
                );
            },
        };
        let value = match &insert.values[1] {
            Value::String(s) => s.clone(),
            Value::Number(n) => n.clone(),
            Value::Boolean(b) => if *b {
                String::from_str("true")
            } else {
                String::from_str("false")
            },
            Value::Null => String::from_str("NULL"),
        };
        match tree.insert(key, value) {
            Ok(_) => Ok(QueryResult::Insert(1)),
            Err(e) => Err(e),
        }
    }

    /// What a deletion does: it deletes the key that the statement names. A
    /// statement that names no key is refused, and so is a key that the tree
    /// does not accept; the tree then stays as it was.
    pub open spec fn deleted(
        pre: &LSMTree,
        post: &LSMTree,
        delete: &DeleteStatement,
        r: DbResult<QueryResult>,
    ) -> bool {
        match r {
            Ok(result) => result == QueryResult::Delete(1) && delete.where_clause is Some
                && match key_of_condition(&delete.where_clause.unwrap().condition) {
                Some(k) => LSMTree::accepts(k, None) && LSMTree::written(pre, post, k, None),
                None => false,
            },
            Err(DbError::InvalidOperation(_)) => (delete.where_clause is None || key_of_condition(
                &delete.where_clause.unwrap().condition,
            ) is None) && LSMTree::same(pre, post),
            Err(DbError::InvalidArgument(_)) => delete.where_clause is Some
                && match key_of_condition(&delete.where_clause.unwrap().condition) {
                Some(k) => !LSMTree::accepts(k, None),
                None => false,
            } && LSMTree::same(pre, post),
            Err(_) => false,
        }
    }

    /// Deletes the key that the statement names.
    pub fn execute_delete(tree: &mut LSMTree, delete: &DeleteStatement) -> (r: DbResult<
        QueryResult,
    >)
        requires
            old(tree).wf(),
        ensures
            final(tree).wf(),
            Self::deleted(old(tree), final(tree), delete, r),
    {
        let clause = match &delete.where_clause {
            Some(w) => w,
            None => {
                return Err(
                    DbError::InvalidOperation(
                        String::from_str("DELETE without WHERE clause is not supported"),
                    ),
                );
            },
        };
        let key = match Self::extract_key_from_condition(&clause.condition) {
            Ok(Some(k)) => k,
            _ => {
                return Err(
                    DbError::InvalidOperation(
                        String::from_str("Complex WHERE clauses not supported in DELETE"),
                    ),
                );
            },
        };
        match tree.delete(key.as_str()) {
            Ok(_) => Ok(QueryResult::Delete(1)),
            Err(e) => Err(e),
        }
    }
}

} // verus!
