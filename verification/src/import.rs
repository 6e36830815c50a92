//! The import pipeline: records of a CSV text become transactions, each row on its own.

use vstd::prelude::*;
use vstd::string::*;
use crate::amount::amount_cents;
use crate::calendar::{is_canonical, normalized_date};
use crate::database::{Database, Ledger};
use crate::model::{
    texts, ImportResult, ImportResultView, ImportedTransaction, ImportedTransactionView,
    LedgerError,
};
use crate::text::{decimal, push_decimal, trim, trimmed};

verus! {

/// What `csv::Reader::records` yields for a text, read with `csv::ReaderBuilder` and its
/// `has_headers` set as given: for each record its fields, or the message of the error that
/// the reader gave in its place.
pub uninterp spec fn csv_records(content: Seq<char>, has_headers: bool) -> Seq<
    Result<Seq<Seq<char>>, Seq<char>>,
>;

/// What one record of the reader holds.
pub open spec fn record_view(record: Result<Vec<String>, String>) -> Result<
    Seq<Seq<char>>,
    Seq<char>,
> {
    match record {
        Ok(fields) => Ok(texts(fields@)),
        Err(e) => Err(e@),
    }
}

/// What the records of the reader hold.
pub open spec fn record_views(records: Seq<Result<Vec<String>, String>>) -> Seq<
    Result<Seq<Seq<char>>, Seq<char>>,
> {
    Seq::new(records.len(), |i: int| record_view(records[i]))
}

/// Reads the records of a CSV text with the csv crate: a reader built by
/// `csv::ReaderBuilder::new()` with `has_headers` set as given, over the bytes of the text.
/// Each record that `records()` yields is handed back as its fields, each error as its
/// message. The reading is a function of the text and the flag alone; the contract claims
/// no more than that.
#[verifier::external_body]
fn read_records(content: &str, has_headers: bool) -> (records: Vec<Result<Vec<String>, String>>)
    ensures
        record_views(records@) == csv_records(content@, has_headers),
{
    let mut reader = csv::ReaderBuilder::new().has_headers(has_headers).from_reader(
        content.as_bytes(),
    );
    reader.records().map(
        |record|
            match record {
                Ok(fields) => Ok(fields.iter().map(|field| field.to_string()).collect()),
                Err(e) => Err(e.to_string()),
            },
    ).collect()
}

/// The field at `index` without surrounding white space; the default, trimmed, where the
/// record has no such field.
pub open spec fn column(fields: Seq<Seq<char>>, index: int, default: Seq<char>) -> Seq<char> {
    trimmed(
        if 0 <= index < fields.len() {
            fields[index]
        } else {
            default
        },
    )
}

/// The four mapped columns of a record. A missing description reads `Imported`, a missing
/// category `Other`, a missing amount or date is empty.
pub open spec fn extracted(
    fields: Seq<Seq<char>>,
    amount_column: int,
    description_column: int,
    category_column: int,
    date_column: int,
) -> ImportedTransactionView {
    ImportedTransactionView {
        amount: column(fields, amount_column, ""@),
        description: column(fields, description_column, "Imported"@),
        category: column(fields, category_column, "Other"@),
        date: column(fields, date_column, ""@),
    }
}

/// The number under which a record is reported: records count from one, and a header row
/// that was skipped counts too.
pub open spec fn row_number(index: int, skip_header: bool) -> nat {
    if skip_header {
        (index + 2) as nat
    } else {
        (index + 1) as nat
    }
}

/// A message about a row whose value is quoted.
pub open spec fn quoted_message(
    row: nat,
    what: Seq<char>,
    value: Seq<char>,
    reason: Seq<char>,
) -> Seq<char> {
    "Row "@ + decimal(row) + ": "@ + what + " '"@ + value + "' - "@ + reason
}

/// A message about a row.
pub open spec fn plain_message(row: nat, what: Seq<char>, reason: Seq<char>) -> Seq<char> {
    "Row "@ + decimal(row) + ": "@ + what + " - "@ + reason
}

/// Why a row does not go in, if it does not: its amount is no number, its date is in no
/// known format, or the ledger refuses the transaction.
pub open spec fn row_error(
    ledger: Ledger,
    container_id: int,
    row: ImportedTransactionView,
    number: nat,
) -> Option<Seq<char>> {
    match amount_cents(row.amount) {
        None => Some(
            quoted_message(number, "Invalid amount"@, row.amount, "Cannot parse as number"@),
        ),
        Some(cents) => match normalized_date(row.date) {
            None => Some(
                quoted_message(number, "Invalid date"@, row.date, "Unsupported date format"@),
            ),
            Some(date) => match ledger.insert_refusal(container_id, is_canonical(date)) {
                Some(e) => Some(plain_message(number, "Failed to insert"@, e.text())),
                None => None,
            },
        },
    }
}

/// The ledger after a row: with its transaction where the row goes in, else as before.
pub open spec fn ledger_after_row(
    ledger: Ledger,
    container_id: int,
    row: ImportedTransactionView,
    number: nat,
) -> Ledger {
    if row_error(ledger, container_id, row, number) is None {
        ledger.with_transaction(
            amount_cents(row.amount)->Some_0,
            row.description,
            row.category,
            normalized_date(row.date)->Some_0,
            container_id,
        )
    } else {
        ledger
    }
}

/// The ledger and the tally in the course of an import.
pub struct ImportState {
    pub ledger: Ledger,
    pub tally: ImportResultView,
}

/// Where an import starts: the ledger as it is, and nothing counted.
pub open spec fn import_start(ledger: Ledger) -> ImportState {
    ImportState {
        ledger,
        tally: ImportResultView { success_count: 0, error_count: 0, errors: Seq::empty() },
    }
}

/// Why a record does not go in, if it does not: the reader gave an error in its place, or
/// its row is refused.
pub open spec fn record_error(
    ledger: Ledger,
    record: Result<Seq<Seq<char>>, Seq<char>>,
    number: nat,
    container_id: int,
    amount_column: int,
    description_column: int,
    category_column: int,
    date_column: int,
) -> Option<Seq<char>> {
    match record {
        Err(e) => Some(plain_message(number, "Failed to parse CSV"@, e)),
        Ok(fields) => row_error(
            ledger,
            container_id,
            extracted(fields, amount_column, description_column, category_column, date_column),
            number,
        ),
    }
}

/// One step of an import: the record goes in and is counted as a success, or its error is
/// noted and the ledger stays as it is.
pub open spec fn import_step(
    state: ImportState,
    record: Result<Seq<Seq<char>>, Seq<char>>,
    number: nat,
    container_id: int,
    amount_column: int,
    description_column: int,
    category_column: int,
    date_column: int,
) -> ImportState {
    match record_error(
        state.ledger,
        record,
        number,
        container_id,
        amount_column,
        description_column,
        category_column,
        date_column,
    ) {
        Some(message) => ImportState {
            ledger: state.ledger,
            tally: ImportResultView {
                error_count: state.tally.error_count + 1,
                errors: state.tally.errors.push(message),
                ..state.tally
            },
        },
        None => ImportState {
            ledger: ledger_after_row(
                state.ledger,
                container_id,
                extracted(
                    record->Ok_0,
                    amount_column,
                    description_column,
                    category_column,
                    date_column,
                ),
                number,
            ),
            tally: ImportResultView {
                success_count: state.tally.success_count + 1,
                ..state.tally
            },
        },
    }
}

/// The ledger and the tally after the first `n` records.
pub open spec fn import_first(
    ledger: Ledger,
    records: Seq<Result<Seq<Seq<char>>, Seq<char>>>,
    n: nat,
    container_id: int,
    amount_column: int,
    description_column: int,
    category_column: int,
    date_column: int,
    skip_header: bool,
) -> ImportState
    decreases n,
{
    if n == 0 {
        import_start(ledger)
    } else {
        import_step(
            import_first(
                ledger,
                records,
                (n - 1) as nat,
                container_id,
                amount_column,
                description_column,
                category_column,
                date_column,
                skip_header,
            ),
            records[n - 1],
            row_number(n - 1, skip_header),
            container_id,
            amount_column,
            description_column,
            category_column,
            date_column,
        )
    }
}

/// The ledger and the tally after all records, taken one by one in their order.
pub open spec fn imported(
    ledger: Ledger,
    records: Seq<Result<Seq<Seq<char>>, Seq<char>>>,
    container_id: int,
    amount_column: int,
    description_column: int,
    category_column: int,
    date_column: int,
    skip_header: bool,
) -> ImportState {
    import_first(
        ledger,
        records,
        records.len(),
        container_id,
        amount_column,
        description_column,
        category_column,
        date_column,
        skip_header,
    )
}

/// The field at `index`, trimmed, or the default.
fn take_column(fields: &Vec<String>, index: usize, default: &str) -> (r: String)
    ensures
        r@ == column(texts(fields@), index as int, default@),
{
    if index < fields.len() {
        trim(fields[index].as_str())
    } else {
        trim(default)
    }
}

fn quoted(row: u128, what: &str, value: &str, reason: &str) -> (m: String)
    ensures
        m@ == quoted_message(row as nat, what@, value@, reason@),
{
    let mut out = String::from_str("Row ");
    push_decimal(&mut out, row);
    out.append(": ");
    out.append(what);
    out.append(" '");
    out.append(value);
    out.append("' - ");
    out.append(reason);
    assert(out@ =~= quoted_message(row as nat, what@, value@, reason@));
    out
}

fn plain(row: u128, what: &str, reason: &str) -> (m: String)
    ensures
        m@ == plain_message(row as nat, what@, reason@),
{
    let mut out = String::from_str("Row ");
    push_decimal(&mut out, row);
    out.append(": ");
    out.append(what);
    out.append(" - ");
    out.append(reason);
    assert(out@ =~= plain_message(row as nat, what@, reason@));
    out
}

impl Database {
    /// Takes the four mapped columns out of a record.
    pub fn extract_columns(
        fields: &Vec<String>,
        amount_column: usize,
        description_column: usize,
        category_column: usize,
        date_column: usize,
    ) -> (row: ImportedTransaction)
        ensures
            row@ == extracted(
                texts(fields@),
                amount_column as int,
                description_column as int,
                category_column as int,
                date_column as int,
            ),
    {
        ImportedTransaction {
            amount: take_column(fields, amount_column, ""),
            description: take_column(fields, description_column, "Imported"),
            category: take_column(fields, category_column, "Other"),
            date: take_column(fields, date_column, ""),
        }
    }

    /// Puts one row of an import into the ledger: its amount is read as cents, its date put
    /// into canonical form, and the transaction recorded. Where one of these fails the
    /// ledger stays as it is and the message says which, under the number of the row.
    pub fn import_row(&mut self, container_id: i64, row: ImportedTransaction, number: u128) -> (r:
        Result<(), String>)
        requires
            old(self).wf(),
        ensures
            final(self).wf(),
            final(self)@ == ledger_after_row(old(self)@, container_id as int, row@, number as nat),
            match row_error(old(self)@, container_id as int, row@, number as nat) {
                Some(message) => r is Err && r->Err_0@ == message,
                None => r is Ok,
            },
    {
        let cents = match Database::parse_amount(row.amount.as_str()) {
            Ok(c) => c,
            Err(e) => {
                return Err(quoted(number, "Invalid amount", row.amount.as_str(), e.as_str()));
            },
        };
        let date = match Database::parse_date(row.date.as_str()) {
            Ok(d) => d,
            Err(e) => {
                return Err(quoted(number, "Invalid date", row.date.as_str(), e.as_str()));
            },
        };
        match self.insert_imported_transaction(
            container_id,
            cents,
            row.description,
            row.category,
            date,
        ) {
            Ok(_) => Ok(()),
            Err(e) => Err(plain(number, "Failed to insert", e.message().as_str())),
        }
    }

    /// Puts the records of a file into the ledger, one by one: a record that fails is noted
    /// in the tally and does not stop those that follow.
    pub fn import_records(
        &mut self,
        records: Vec<Result<Vec<String>, String>>,
        container_id: i64,
        amount_column: usize,
        description_column: usize,
        category_column: usize,
        date_column: usize,
        skip_header: bool,
    ) -> (result: ImportResult)
        requires
            old(self).wf(),
        ensures
            final(self).wf(),
            final(self)@ == imported(
                old(self)@,
                record_views(records@),
                container_id as int,
                amount_column as int,
                description_column as int,
                category_column as int,
                date_column as int,
                skip_header,
            ).ledger,
            result@ == imported(
                old(self)@,
                record_views(records@),
                container_id as int,
                amount_column as int,
                description_column as int,
                category_column as int,
                date_column as int,
                skip_header,
            ).tally,
    {
        let ghost all = record_views(records@);
        let mut success_count: usize = 0;
        let mut error_count: usize = 0;
        let mut errors: Vec<String> = Vec::new();
        let mut index: usize = 0;
        assert(texts(errors@) =~= Seq::<Seq<char>>::empty());
        while index < records.len()
            invariant
                index <= records.len(),
                self.wf(),
                all == record_views(records@),
                success_count + error_count == index,
                (ImportState {
                    ledger: self@,
                    tally: ImportResultView {
                        success_count: success_count as nat,
                        error_count: error_count as nat,
                        errors: texts(errors@),
                    },
                }) == import_first(
                    old(self)@,
                    all,
                    index as nat,
                    container_id as int,
                    amount_column as int,
                    description_column as int,
                    category_column as int,
                    date_column as int,
                    skip_header,
                ),
            decreases records.len() - index,
        {
            let number: u128 = if skip_header {
                index as u128 + 2
            } else {
                index as u128 + 1
            };
            assert(number as nat == row_number(index as int, skip_header));
            assert(all[index as int] == record_view(records@[index as int]));
            let outcome = match &records[index] {
                Ok(fields) => {
                    let row = Database::extract_columns(
                        fields,
                        amount_column,
                        description_column,
                        category_column,
                        date_column,
                    );
                    self.import_row(container_id, row, number)
                },
                Err(e) => Err(plain(number, "Failed to parse CSV", e.as_str())),
            };
            match outcome {
                Ok(_) => {
                    success_count += 1;
                },
                Err(message) => {
                    let ghost before = texts(errors@);
                    errors.push(message);
                    assert(texts(errors@) =~= before.push(message@));
                    error_count += 1;
                },
            }
            index += 1;
        }
        ImportResult { success_count, error_count, errors }
    }

    /// Imports the records of a CSV text into a container. The columns are given by their
    /// places, counted from zero; with `skip_header` the first record is taken as a header
    /// and left out. Rows are numbered as a spreadsheet shows them. The import itself never
    /// fails: what went wrong with a row is in the tally.
    pub fn import_transactions_from_csv(
        &mut self,
        csv_content: String,
        container_id: i64,
        amount_column: usize,
        description_column: usize,
        category_column: usize,
        date_column: usize,
        skip_header: bool,
    ) -> (r: Result<ImportResult, LedgerError>)
        requires
            old(self).wf(),
        ensures
            final(self).wf(),
            r is Ok,
            final(self)@ == imported(
                old(self)@,
                csv_records(csv_content@, skip_header),
                container_id as int,
                amount_column as int,
                description_column as int,
                category_column as int,
                date_column as int,
                skip_header,
            ).ledger,
            r->Ok_0@ == imported(
                old(self)@,
                csv_records(csv_content@, skip_header),
                container_id as int,
                amount_column as int,
                description_column as int,
                category_column as int,
                date_column as int,
                skip_header,
            ).tally,
    {
        let records = read_records(csv_content.as_str(), skip_header);
        Ok(
            self.import_records(
                records,
                container_id,
                amount_column,
                description_column,
                category_column,
                date_column,
                skip_header,
            ),
        )
    }
}

} // verus!
