//! The rows of the ledger and what its operations hand back.

use vstd::prelude::*;
use vstd::string::*;

verus! {

/// A named workspace that scopes transactions.
#[derive(Debug, PartialEq, Eq)]
pub struct Container {
    pub id: i64,
    pub name: String,
    pub created_at: String,
    pub is_default: bool,
}

/// What a container holds.
pub struct ContainerView {
    pub id: int,
    pub name: Seq<char>,
    pub created_at: Seq<char>,
    pub is_default: bool,
}

impl View for Container {
    type V = ContainerView;

    open spec fn view(&self) -> ContainerView {
        ContainerView {
            id: self.id as int,
            name: self.name@,
            created_at: self.created_at@,
            is_default: self.is_default,
        }
    }
}

impl Clone for Container {
    fn clone(&self) -> (copy: Self)
        ensures
            copy@ == self@,
    {
        Container {
            id: self.id,
            name: self.name.clone(),
            created_at: self.created_at.clone(),
            is_default: self.is_default,
        }
    }
}

/// A label for transactions; the seeded ones are marked as defaults.
#[derive(Debug, PartialEq, Eq)]
pub struct Category {
    pub id: i64,
    pub name: String,
    pub is_default: bool,
}

/// What a category holds.
pub struct CategoryView {
    pub id: int,
    pub name: Seq<char>,
    pub is_default: bool,
}

impl View for Category {
    type V = CategoryView;

    open spec fn view(&self) -> CategoryView {
        CategoryView { id: self.id as int, name: self.name@, is_default: self.is_default }
    }
}

impl Clone for Category {
    fn clone(&self) -> (copy: Self)
        ensures
            copy@ == self@,
    {
        Category { id: self.id, name: self.name.clone(), is_default: self.is_default }
    }
}

/// One movement of money, in cents: negative is an expense, anything else an inflow.
#[derive(Debug, PartialEq, Eq)]
pub struct Transaction {
    pub id: i64,
    pub amount: i64,
    pub description: String,
    pub category: String,
    pub date: String,
    pub container_id: i64,
}

/// What a transaction holds.
pub struct TransactionView {
    pub id: int,
    pub amount: int,
    pub description: Seq<char>,
    pub category: Seq<char>,
    pub date: Seq<char>,
    pub container_id: int,
}

impl View for Transaction {
    type V = TransactionView;

    open spec fn view(&self) -> TransactionView {
        TransactionView {
            id: self.id as int,
            amount: self.amount as int,
            description: self.description@,
            category: self.category@,
            date: self.date@,
            container_id: self.container_id as int,
        }
    }
}

impl Clone for Transaction {
    fn clone(&self) -> (copy: Self)
        ensures
            copy@ == self@,
    {
        Transaction {
            id: self.id,
            amount: self.amount,
            description: self.description.clone(),
            category: self.category.clone(),
            date: self.date.clone(),
            container_id: self.container_id,
        }
    }
}

/// The rows of a table of containers.
pub open spec fn container_rows(v: Seq<Container>) -> Seq<ContainerView> {
    Seq::new(v.len(), |i: int| v[i]@)
}

/// The rows of a table of categories.
pub open spec fn category_rows(v: Seq<Category>) -> Seq<CategoryView> {
    Seq::new(v.len(), |i: int| v[i]@)
}

/// The rows of a table of transactions.
pub open spec fn transaction_rows(v: Seq<Transaction>) -> Seq<TransactionView> {
    Seq::new(v.len(), |i: int| v[i]@)
}

/// What a caller supplies to record a transaction by hand.
#[derive(Debug, PartialEq, Eq)]
pub struct NewTransaction {
    pub amount: i64,
    pub description: Option<String>,
    pub category: Option<String>,
    pub container_id: i64,
}

/// What a transaction to be recorded holds.
pub struct NewTransactionView {
    pub amount: int,
    pub description: Option<Seq<char>>,
    pub category: Option<Seq<char>>,
    pub container_id: int,
}

/// The text of an optional string.
pub open spec fn optional_text(s: Option<String>) -> Option<Seq<char>> {
    match s {
        Some(t) => Some(t@),
        None => None,
    }
}

/// The given text, or the default where none is given.
pub open spec fn text_or(s: Option<Seq<char>>, default: Seq<char>) -> Seq<char> {
    match s {
        Some(t) => t,
        None => default,
    }
}

impl View for NewTransaction {
    type V = NewTransactionView;

    open spec fn view(&self) -> NewTransactionView {
        NewTransactionView {
            amount: self.amount as int,
            description: optional_text(self.description),
            category: optional_text(self.category),
            container_id: self.container_id as int,
        }
    }
}

/// The four mapped columns of one imported record, as they stand in the file.
#[derive(Debug, PartialEq, Eq)]
pub struct ImportedTransaction {
    pub amount: String,
    pub description: String,
    pub category: String,
    pub date: String,
}

/// What the mapped columns of a record hold.
pub struct ImportedTransactionView {
    pub amount: Seq<char>,
    pub description: Seq<char>,
    pub category: Seq<char>,
    pub date: Seq<char>,
}

impl View for ImportedTransaction {
    type V = ImportedTransactionView;

    open spec fn view(&self) -> ImportedTransactionView {
        ImportedTransactionView {
            amount: self.amount@,
            description: self.description@,
            category: self.category@,
            date: self.date@,
        }
    }
}

/// The tally of an import: how many rows went in, how many did not, and why.
#[derive(Debug, PartialEq, Eq)]
pub struct ImportResult {
    pub success_count: usize,
    pub error_count: usize,
    pub errors: Vec<String>,
}

/// What a tally holds.
pub struct ImportResultView {
    pub success_count: nat,
    pub error_count: nat,
    pub errors: Seq<Seq<char>>,
}

/// The texts of a list of strings.
pub open spec fn texts(v: Seq<String>) -> Seq<Seq<char>> {
    Seq::new(v.len(), |i: int| v[i]@)
}

impl View for ImportResult {
    type V = ImportResultView;

    open spec fn view(&self) -> ImportResultView {
        ImportResultView {
            success_count: self.success_count as nat,
            error_count: self.error_count as nat,
            errors: texts(self.errors@),
        }
    }
}

/// Why an operation on the ledger was refused.
#[derive(Debug, PartialEq, Eq, Clone, Copy)]
pub enum LedgerError {
    /// A container or category of that name exists already.
    DuplicateName,
    /// No row has the given id.
    NotFound,
    /// The default container cannot be deleted.
    ProtectedResource,
    /// The transaction names a container that does not exist.
    UnknownContainer,
    /// A timestamp is not of the form `YYYY-MM-DD HH:MM:SS`.
    InvalidDate,
    /// A sum of amounts does not fit in 64 bits.
    Overflow,
    /// The table has handed out its last id.
    Full,
    /// The rows to restore a ledger from do not make a consistent ledger.
    Inconsistent,
}

impl LedgerError {
    /// The message of each error.
    pub open spec fn text(self) -> Seq<char> {
        match self {
            LedgerError::DuplicateName => "UNIQUE constraint failed"@,
            LedgerError::NotFound => "Query returned no rows"@,
            LedgerError::ProtectedResource => "Cannot delete default container"@,
            LedgerError::UnknownContainer => "FOREIGN KEY constraint failed"@,
            LedgerError::InvalidDate => "Timestamp is not in canonical form"@,
            LedgerError::Overflow => "integer overflow"@,
            LedgerError::Full => "database or disk is full"@,
            LedgerError::Inconsistent => "database disk image is malformed"@,
        }
    }

    /// The error as a message for the user.
    pub fn message(&self) -> (m: String)
        ensures
            m@ == self.text(),
    {
        match self {
            LedgerError::DuplicateName => String::from_str("UNIQUE constraint failed"),
            LedgerError::NotFound => String::from_str("Query returned no rows"),
            LedgerError::ProtectedResource => String::from_str("Cannot delete default container"),
            LedgerError::UnknownContainer => String::from_str("FOREIGN KEY constraint failed"),
            LedgerError::InvalidDate => String::from_str("Timestamp is not in canonical form"),
            LedgerError::Overflow => String::from_str("integer overflow"),
            LedgerError::Full => String::from_str("database or disk is full"),
            LedgerError::Inconsistent => String::from_str("database disk image is malformed"),
        }
    }
}

} // verus!
