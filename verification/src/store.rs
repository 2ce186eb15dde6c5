//! The durable table behind the tree: one row per node, kept in an SQLite
//! database. This module holds the statements, the values bound to them,
//! the rows read back, and the few calls into `rusqlite`. What the database
//! answers is never taken on trust: every answer is a plain value that the
//! tree inspects before it commits anything to memory.

use vstd::prelude::*;
use rusqlite::Connection;
use crate::text::text_view;

verus! {

/// The database connection of `rusqlite`: an opaque value that is only
/// handed back to `rusqlite`.
#[verifier::external_type_specification]
#[verifier::external_body]
pub struct ExConnection(rusqlite::Connection);

/// The error of `rusqlite`: an opaque value; the tree reports each of them
/// as a persistence failure.
#[verifier::external_type_specification]
#[verifier::external_body]
pub struct ExSqliteError(rusqlite::Error);

/// Creates the table of nodes unless it is there already.
pub const CREATE_TABLE: &'static str = "CREATE TABLE IF NOT EXISTS entries (
                id            INTEGER PRIMARY KEY,
                name          TEXT NOT NULL,
                drive_id      TEXT NOT NULL,
                drive_type    TEXT,
                parent        INTEGER,
                is_directory  INTEGER,
                children      TEXT,
                photo_path    TEXT
            )";

/// Reads every row, all eight columns in the order of the table.
pub const SELECT_ALL: &'static str = "SELECT * FROM entries";

/// Appends a node; the store picks its handle.
pub const INSERT_ENTRY: &'static str =
    "INSERT INTO entries (name, drive_id, drive_type, parent, is_directory)
                VALUES (?1, ?2, ?3, ?4, ?5)";

/// Overwrites the children column of one row.
pub const UPDATE_CHILDREN: &'static str = "UPDATE entries SET children = (?1) WHERE id = (?2)";

/// Overwrites the content path column of one row.
pub const UPDATE_PHOTO_PATH: &'static str = "UPDATE entries SET photo_path = (?1) WHERE id = (?2)";

/// Opens a transaction.
pub const BEGIN: &'static str = "BEGIN";

/// Makes the writes of the open transaction durable.
pub const COMMIT: &'static str = "COMMIT";

/// Discards the writes of the open transaction.
pub const ROLLBACK: &'static str = "ROLLBACK";

/// A value bound to a placeholder of a statement.
pub enum SqlValue {
    Text(String),
    Integer(i64),
}

/// The mathematical value of a [`SqlValue`].
pub enum SqlValueView {
    Text(Seq<char>),
    Integer(int),
}

impl View for SqlValue {
    type V = SqlValueView;

    open spec fn view(&self) -> SqlValueView {
        match self {
            SqlValue::Text(s) => SqlValueView::Text(s@),
            SqlValue::Integer(i) => SqlValueView::Integer(*i as int),
        }
    }
}

/// A statement as it is handed to the database: its text, and the values
/// bound to its placeholders.
pub struct Written {
    pub sql: Seq<char>,
    pub values: Seq<SqlValueView>,
}

/// One row of the table as it was read: the typed columns, and the two
/// nullable text columns as they stand (`None` where the column holds no
/// text).
pub struct StoredRow {
    pub id: u32,
    pub name: String,
    pub drive_id: String,
    pub drive_type: String,
    pub parent: u32,
    pub is_directory: bool,
    pub children: Option<String>,
    pub photo_path: Option<String>,
}

/// The mathematical value of a [`StoredRow`].
pub struct StoredRowView {
    pub id: u32,
    pub name: Seq<char>,
    pub drive_id: Seq<char>,
    pub drive_type: Seq<char>,
    pub parent: u32,
    pub is_directory: bool,
    pub children: Option<Seq<char>>,
    pub photo_path: Option<Seq<char>>,
}

impl View for StoredRow {
    type V = StoredRowView;

    open spec fn view(&self) -> StoredRowView {
        StoredRowView {
            id: self.id,
            name: self.name@,
            drive_id: self.drive_id@,
            drive_type: self.drive_type@,
            parent: self.parent,
            is_directory: self.is_directory,
            children: text_view(self.children),
            photo_path: text_view(self.photo_path),
        }
    }
}

/// Calls `rusqlite::Connection::open` on `path`. Nothing is claimed of the
/// outcome: whether the database opens depends on the file system.
#[verifier::external_body]
pub(crate) fn open(path: &str) -> (r: Result<Connection, rusqlite::Error>) {
    Connection::open(path)
}

/// Calls `rusqlite::Connection::execute` with `sql` and with `params` bound
/// in order, each as the SQL text or integer it holds. Nothing is claimed
/// of the outcome: the count of changed rows, or the error, is whatever the
/// database answers.
#[verifier::external_body]
pub(crate) fn execute(conn: &Connection, sql: &str, params: &Vec<SqlValue>) -> (r: Result<
    usize,
    rusqlite::Error,
>) {
    let values = params.iter().map(|p| match p {
        SqlValue::Text(s) => rusqlite::types::Value::Text(s.clone()),
        SqlValue::Integer(i) => rusqlite::types::Value::Integer(*i),
    });
    conn.execute(sql, rusqlite::params_from_iter(values))
}

/// Calls `rusqlite::Connection::last_insert_rowid`. Nothing is claimed of
/// the number.
#[verifier::external_body]
pub(crate) fn last_insert_rowid(conn: &Connection) -> (id: i64) {
    conn.last_insert_rowid()
}

/// Runs the query `sql` through `rusqlite::Connection::prepare` and
/// `rusqlite::Statement::query_map`, reading each row with
/// `rusqlite::Row::get`: columns 0 to 5 as handle, name, remote identifier,
/// type tag, parent and directory flag, and columns 6 and 7 as texts, with
/// `None` where such a column cannot be read as a text. Nothing is claimed
/// of the rows: they are whatever the database holds.
#[verifier::external_body]
pub(crate) fn select_rows(conn: &Connection, sql: &str) -> (r: Result<
    Vec<StoredRow>,
    rusqlite::Error,
>) {
    let mut stmt = conn.prepare(sql)?;
    let rows = stmt.query_map((), |row| {
        Ok(StoredRow {
            id: row.get(0)?, name: row.get(1)?, drive_id: row.get(2)?,
            drive_type: row.get(3)?, parent: row.get(4)?, is_directory: row.get(5)?,
            children: row.get::<usize, String>(6).ok(),
            photo_path: row.get::<usize, String>(7).ok(),
        })
    })?;
    rows.collect()
}

/// Whether a write changed exactly one row.
pub open spec fn landed_spec(changed: Option<usize>) -> bool {
    changed == Some(1usize)
}

/// The count of rows that a write changed, or `None` if the database
/// reported an error.
pub fn changed_rows(outcome: Result<usize, rusqlite::Error>) -> (changed: Option<usize>)
    ensures
        changed is Some <==> outcome is Ok,
        outcome matches Ok(n) ==> changed == Some(n),
{
    match outcome {
        Ok(n) => Some(n),
        Err(_) => None,
    }
}

/// Whether a write reached its row: the database reported no error and
/// changed exactly one row.
pub fn landed(changed: Option<usize>) -> (b: bool)
    ensures
        b == landed_spec(changed),
{
    match changed {
        Some(n) => n == 1,
        None => false,
    }
}

/// The handle that a row number of the store can serve as: the number
/// itself where it fits a handle.
pub open spec fn handle_of_rowid(rowid: i64) -> Option<u32> {
    if 0 <= rowid <= u32::MAX {
        Some(rowid as u32)
    } else {
        None
    }
}

/// Takes a row number of the store as a handle, if it fits one.
pub fn assigned_handle(rowid: i64) -> (h: Option<u32>)
    ensures
        h == handle_of_rowid(rowid),
{
    if 0 <= rowid && rowid <= 0xffff_ffff {
        Some(rowid as u32)
    } else {
        None
    }
}

} // verus!
