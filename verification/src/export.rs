//! The history of a container as CSV text.

use vstd::prelude::*;
use vstd::string::*;
use crate::amount::{amount_text, push_amount};
use crate::model::{transaction_rows, Transaction, TransactionView};
use crate::query::{list_rows, listing};
use crate::text::{decimal, push_decimal};

verus! {

/// A whole number in decimal, with a minus sign where it is negative.
pub open spec fn signed_decimal(v: int) -> Seq<char> {
    if v < 0 {
        seq!['-'] + decimal((-v) as nat)
    } else {
        decimal(v as nat)
    }
}

/// The line of one transaction: id, amount in major units with two places, description,
/// category and date, joined by commas as they stand.
pub open spec fn export_line(t: TransactionView) -> Seq<char> {
    signed_decimal(t.id) + ","@ + amount_text(t.amount) + ","@ + t.description + ","@ + t.category
        + ","@ + t.date + "\n"@
}

/// The lines of the rows, one after the other.
pub open spec fn export_lines(rows: Seq<TransactionView>) -> Seq<char>
    decreases rows.len(),
{
    if rows.len() == 0 {
        Seq::empty()
    } else {
        export_lines(rows.drop_last()) + export_line(rows.last())
    }
}

/// The header line, then the transactions of the container, latest first.
pub open spec fn export_text(rows: Seq<TransactionView>, container_id: int) -> Seq<char> {
    "ID,Amount,Description,Category,Date\n"@ + export_lines(
        listing(rows, container_id, Seq::empty()),
    )
}

/// Appends the line of one transaction.
fn push_line(out: &mut String, row: &Transaction)
    ensures
        final(out)@ == old(out)@ + export_line(row@),
{
    if row.id < 0 {
        proof {
            reveal_strlit("-");
        }
        out.append("-");
        push_decimal(out, (-(row.id as i128)) as u128);
    } else {
        push_decimal(out, row.id as u128);
    }
    assert(out@ =~= old(out)@ + signed_decimal(row.id as int));
    out.append(",");
    push_amount(out, row.amount);
    out.append(",");
    out.append(row.description.as_str());
    out.append(",");
    out.append(row.category.as_str());
    out.append(",");
    out.append(row.date.as_str());
    out.append("\n");
    assert(out@ =~= old(out)@ + export_line(row@));
}

/// The transactions of a container as CSV text, latest first, under a header line.
pub fn export_rows(rows: &Vec<Transaction>, container_id: i64) -> (out: String)
    ensures
        out@ == export_text(transaction_rows(rows@), container_id as int),
{
    proof {
        reveal_strlit("");
    }
    assert(""@ =~= Seq::<char>::empty());
    let list = list_rows(rows, container_id, "", None);
    let ghost lines = transaction_rows(list@);
    assert(lines == listing(transaction_rows(rows@), container_id as int, Seq::empty()));
    let mut out = String::from_str("ID,Amount,Description,Category,Date\n");
    let mut i: usize = 0;
    assert(lines.take(0) =~= Seq::<TransactionView>::empty());
    assert(out@ =~= "ID,Amount,Description,Category,Date\n"@ + export_lines(lines.take(0)));
    while i < list.len()
        invariant
            i <= list.len(),
            lines == transaction_rows(list@),
            out@ == "ID,Amount,Description,Category,Date\n"@ + export_lines(lines.take(i as int)),
        decreases list.len() - i,
    {
        assert(lines.take(i + 1).drop_last() =~= lines.take(i as int));
        assert(lines.take(i + 1).last() == list@[i as int]@);
        let ghost before = out@;
        push_line(&mut out, &list[i]);
        assert(out@ =~= "ID,Amount,Description,Category,Date\n"@ + export_lines(lines.take(i + 1)));
        i += 1;
    }
    assert(lines.take(list.len() as int) =~= lines);
    out
}

} // verus!
