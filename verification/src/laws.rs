//! What holds of every ledger: how balances follow the transactions, what the listings hold
//! and in which order, and what cannot be deleted.

use vstd::prelude::*;
use crate::amount::{amount_cents, amount_text, lemma_amount_round_trip, lemma_amount_text_is_plain};
use crate::calendar::{is_canonical, normalized_date, Timestamp};
use crate::database::Ledger;
use crate::export::signed_decimal;
use crate::import::{
    extracted, import_first, imported, ledger_after_row, record_error, row_error, row_number,
};
use crate::model::{CategoryView, ContainerView, LedgerError, TransactionView};
use crate::order::{before, lemma_sorted_order, sorted_order};
use crate::query::{
    available_months, category_keys, category_listing, category_totals, container_keys,
    container_listing, counts, date_keys, distinct, expense_labels, has_expense, has_month,
    in_scope, is_expense_list, is_listed, is_month_list, limited, listing, lists_category,
    month_keys, month_labels, month_of, outside, scoped, total, total_keys,
};
use crate::text::{is_digit, lemma_text_lt_total, text_lt, trim_end, trim_start, trimmed};

verus! {

/// A sum grows by the amount of a new row that counts, and by nothing else.
pub proof fn lemma_total_push(
    rows: Seq<TransactionView>,
    t: TransactionView,
    container_id: int,
    prefix: Seq<char>,
    category: Option<Seq<char>>,
)
    ensures
        total(rows.push(t), container_id, prefix, category) == total(
            rows,
            container_id,
            prefix,
            category,
        ) + if counts(t, container_id, prefix, category) {
            t.amount
        } else {
            0
        },
{
    assert(rows.push(t).drop_last() =~= rows);
}

/// A sum shrinks by the amount of a removed row that counted, and by nothing else.
pub proof fn lemma_total_remove(
    rows: Seq<TransactionView>,
    i: int,
    container_id: int,
    prefix: Seq<char>,
    category: Option<Seq<char>>,
)
    requires
        0 <= i < rows.len(),
    ensures
        total(rows.remove(i), container_id, prefix, category) == total(
            rows,
            container_id,
            prefix,
            category,
        ) - if counts(rows[i], container_id, prefix, category) {
            rows[i].amount
        } else {
            0
        },
    decreases rows.len(),
{
    if i == rows.len() - 1 {
        assert(rows.remove(i) =~= rows.drop_last());
    } else {
        lemma_total_remove(rows.drop_last(), i, container_id, prefix, category);
        assert(rows.remove(i).drop_last() =~= rows.drop_last().remove(i));
        assert(rows.remove(i).last() == rows.last());
    }
}

/// Without the rows of one container, the sums of every other container are as before, and
/// those of the container itself are zero.
pub proof fn lemma_total_outside(
    rows: Seq<TransactionView>,
    gone: int,
    container_id: int,
    prefix: Seq<char>,
    category: Option<Seq<char>>,
)
    ensures
        container_id != gone ==> total(outside(rows, gone), container_id, prefix, category)
            == total(rows, container_id, prefix, category),
        total(outside(rows, gone), gone, prefix, category) == 0,
    decreases rows.len(),
{
    if rows.len() > 0 {
        lemma_total_outside(rows.drop_last(), gone, container_id, prefix, category);
        if rows.last().container_id != gone {
            assert(outside(rows, gone).drop_last() =~= outside(rows.drop_last(), gone));
        }
    }
}

/// After a transaction is recorded, the all-time balance of its container is what it was
/// plus the amount, and that of every other container is what it was.
pub proof fn lemma_balance_after_add(
    ledger: Ledger,
    amount: int,
    description: Seq<char>,
    category: Seq<char>,
    date: Seq<char>,
    container_id: int,
    of: int,
)
    ensures
        total(
            ledger.with_transaction(
                amount,
                description,
                category,
                date,
                container_id,
            ).transactions,
            of,
            Seq::empty(),
            None,
        ) == total(ledger.transactions, of, Seq::empty(), None) + if container_id == of {
            amount
        } else {
            0
        },
{
    let t = TransactionView {
        id: ledger.next_transaction_id,
        amount,
        description,
        category,
        date,
        container_id,
    };
    lemma_total_push(ledger.transactions, t, of, Seq::empty(), None);
    assert(Seq::<char>::empty() =~= date.subrange(0, 0));
}

/// After a transaction is deleted, the all-time balance of its container is what it was
/// less the amount, and that of every other container is what it was. Deleting what does
/// not exist changes no balance.
pub proof fn lemma_balance_after_delete(ledger: Ledger, id: int, of: int)
    requires
        ledger.wf(),
    ensures
        total(ledger.without_transaction(id).transactions, of, Seq::empty(), None) == total(
            ledger.transactions,
            of,
            Seq::empty(),
            None,
        ) - if ledger.has_transaction(id) && ledger.transactions[ledger.transaction_at(
            id,
        )].container_id == of {
            ledger.transactions[ledger.transaction_at(id)].amount
        } else {
            0
        },
{
    if ledger.has_transaction(id) {
        let at = ledger.transaction_at(id);
        assert(0 <= at < ledger.transactions.len());
        lemma_total_remove(ledger.transactions, at, of, Seq::empty(), None);
        assert(Seq::<char>::empty() =~= ledger.transactions[at].date.subrange(0, 0));
    }
}

/// A change to the transactions of a ledger: one is recorded, or one is deleted.
pub enum Change {
    Add { amount: int, description: Seq<char>, category: Seq<char>, date: Seq<char>, container_id: int },
    Delete { id: int },
}

/// The ledger after a change. A transaction that the ledger refuses leaves it as it is, and
/// so does the deletion of what does not exist.
pub open spec fn changed(ledger: Ledger, change: Change) -> Ledger {
    match change {
        Change::Add { amount, description, category, date, container_id } => {
            if ledger.insert_refusal(container_id, is_canonical(date)) is None {
                ledger.with_transaction(amount, description, category, date, container_id)
            } else {
                ledger
            }
        },
        Change::Delete { id } => ledger.without_transaction(id),
    }
}

/// The ledger after a sequence of changes, one after the other.
pub open spec fn changed_by(ledger: Ledger, changes: Seq<Change>) -> Ledger
    decreases changes.len(),
{
    if changes.len() == 0 {
        ledger
    } else {
        changed(changed_by(ledger, changes.drop_last()), changes.last())
    }
}

/// What a change adds to the all-time balance of a container: the amount of a transaction
/// recorded in it, less the amount of a transaction deleted from it.
pub open spec fn balance_change(ledger: Ledger, change: Change, of: int) -> int {
    match change {
        Change::Add { amount, description, category, date, container_id } => {
            if ledger.insert_refusal(container_id, is_canonical(date)) is None && container_id
                == of {
                amount
            } else {
                0
            }
        },
        Change::Delete { id } => {
            if ledger.has_transaction(id) && ledger.transactions[ledger.transaction_at(
                id,
            )].container_id == of {
                -ledger.transactions[ledger.transaction_at(id)].amount
            } else {
                0
            }
        },
    }
}

/// What a sequence of changes adds to the all-time balance of a container.
pub open spec fn balance_changes(ledger: Ledger, changes: Seq<Change>, of: int) -> int
    decreases changes.len(),
{
    if changes.len() == 0 {
        0
    } else {
        balance_changes(ledger, changes.drop_last(), of) + balance_change(
            changed_by(ledger, changes.drop_last()),
            changes.last(),
            of,
        )
    }
}

/// Whatever is recorded and deleted, and in whatever order, the ledger stays consistent and
/// the all-time balance of a container is the sum of the amounts of the transactions that
/// are in it: what it was, plus every amount recorded, less every amount deleted.
pub proof fn lemma_balance_after_changes(ledger: Ledger, changes: Seq<Change>, of: int)
    requires
        ledger.wf(),
        forall|i: int|
            0 <= i < changes.len() ==> (#[trigger] changes[i] matches Change::Add { amount, .. }
                ==> i64::MIN <= amount <= i64::MAX),
    ensures
        changed_by(ledger, changes).wf(),
        total(changed_by(ledger, changes).transactions, of, Seq::empty(), None) == total(
            ledger.transactions,
            of,
            Seq::empty(),
            None,
        ) + balance_changes(ledger, changes, of),
    decreases changes.len(),
{
    if changes.len() > 0 {
        let front = changes.drop_last();
        assert forall|i: int| 0 <= i < front.len() implies (#[trigger] front[i] matches Change::Add {
            amount,
            ..
        } ==> i64::MIN <= amount <= i64::MAX) by {
            assert(front[i] == changes[i]);
        }
        lemma_balance_after_changes(ledger, front, of);
        let before = changed_by(ledger, front);
        let last = changes[changes.len() - 1];
        match last {
            Change::Add { amount, description, category, date, container_id } => {
                if before.insert_refusal(container_id, is_canonical(date)) is None {
                    before.lemma_with_transaction_wf(
                        amount,
                        description,
                        category,
                        date,
                        container_id,
                    );
                    lemma_balance_after_add(
                        before,
                        amount,
                        description,
                        category,
                        date,
                        container_id,
                        of,
                    );
                }
            },
            Change::Delete { id } => {
                before.lemma_without_transaction_wf(id);
                lemma_balance_after_delete(before, id, of);
            },
        }
    }
}

/// After a container is deleted, its balance is zero and the balance of every other
/// container is what it was.
pub proof fn lemma_balance_after_delete_container(ledger: Ledger, id: int, of: int)
    ensures
        total(ledger.without_container(id).transactions, of, Seq::empty(), None) == if of == id {
            0
        } else {
            total(ledger.transactions, of, Seq::empty(), None)
        },
{
    lemma_total_outside(ledger.transactions, id, of, Seq::empty(), None);
}

/// The balance of the current month is the balance of the month that the clock shows.
pub proof fn lemma_monthly_balance(ledger: Ledger, container_id: int, now: Timestamp)
    ensures
        ledger.monthly_balance(container_id, now) == ledger.balance(
            container_id,
            now.month_text(),
        ),
{
}

/// The default container is never deleted: the attempt is refused as protected, and the
/// container stands first in every consistent ledger.
pub proof fn lemma_default_container_protected(ledger: Ledger)
    requires
        ledger.wf(),
    ensures
        ledger.containers[0].is_default,
        ledger.removal_refusal(ledger.containers[0].id) == Some(LedgerError::ProtectedResource),
        forall|id: int|
            ledger.removal_refusal(id) is None ==> (#[trigger] ledger.without_container(
                id,
            )).containers[0] == ledger.containers[0],
{
    ledger.lemma_container_at(0);
    assert forall|id: int| ledger.removal_refusal(id) is None implies (
    #[trigger] ledger.without_container(id)).containers[0] == ledger.containers[0] by {
        let at = ledger.container_at(id);
        assert(0 <= at < ledger.containers.len() && ledger.containers[at].id == id);
    }
}

proof fn lemma_contains_last<T>(s: Seq<T>, x: T)
    requires
        s.len() > 0,
    ensures
        s.contains(x) <==> (s.drop_last().contains(x) || s.last() == x),
{
    if s.contains(x) {
        let i = choose|i: int| 0 <= i < s.len() && s[i] == x;
        if i < s.len() - 1 {
            assert(s.drop_last()[i] == x);
        }
    }
    if s.drop_last().contains(x) {
        let i = choose|i: int| 0 <= i < s.drop_last().len() && s.drop_last()[i] == x;
        assert(s[i] == x);
    }
    if s.last() == x {
        assert(s[s.len() - 1] == x);
    }
}

/// The distinct labels are the labels, each once.
pub proof fn lemma_distinct(labels: Seq<Seq<char>>)
    ensures
        distinct(labels).no_duplicates(),
        forall|x: Seq<char>|
            #![trigger distinct(labels).contains(x)]
            #![trigger labels.contains(x)]
            distinct(labels).contains(x) <==> labels.contains(x),
    decreases labels.len(),
{
    if labels.len() > 0 {
        let front = labels.drop_last();
        let d = distinct(front);
        lemma_distinct(front);
        assert forall|x: Seq<char>|
            #![trigger distinct(labels).contains(x)]
            #![trigger labels.contains(x)]
            distinct(labels).contains(x) <==> labels.contains(x) by {
            assert(d.contains(x) <==> front.contains(x));
            lemma_contains_last(labels, x);
            if !d.contains(labels.last()) {
                assert(d.push(labels.last()).drop_last() =~= d);
                lemma_contains_last(d.push(labels.last()), x);
            }
        }
    }
}

/// The months of a container are the months of its rows.
pub proof fn lemma_month_labels(rows: Seq<TransactionView>, container_id: int)
    ensures
        forall|x: Seq<char>| #[trigger]
            month_labels(rows, container_id).contains(x) <==> has_month(rows, container_id, x),
    decreases rows.len(),
{
    if rows.len() > 0 {
        let front = rows.drop_last();
        let labels = month_labels(rows, container_id);
        let inner = month_labels(front, container_id);
        lemma_month_labels(front, container_id);
        assert forall|x: Seq<char>| #[trigger]
            labels.contains(x) <==> has_month(rows, container_id, x) by {
            let held = rows.last().container_id == container_id;
            assert(inner.contains(x) <==> has_month(front, container_id, x));
            if held {
                assert(labels.drop_last() =~= inner);
                lemma_contains_last(labels, x);
            }
            if has_month(front, container_id, x) {
                let k = choose|k: int|
                    0 <= k < front.len() && (#[trigger] front[k]).container_id == container_id
                        && month_of(front[k].date) == x;
                assert(rows[k] == front[k]);
            }
            if held && month_of(rows.last().date) == x {
                assert(rows[rows.len() - 1].container_id == container_id);
            }
            if has_month(rows, container_id, x) {
                let k = choose|k: int|
                    0 <= k < rows.len() && (#[trigger] rows[k]).container_id == container_id
                        && month_of(rows[k].date) == x;
                if k < front.len() {
                    assert(front[k] == rows[k]);
                }
            }
        }
    } else {
        assert forall|x: Seq<char>| #[trigger]
            month_labels(rows, container_id).contains(x) <==> has_month(rows, container_id, x) by {
        }
    }
}

/// The categories of the expenses in scope are the categories of the rows that count as
/// expenses.
pub proof fn lemma_expense_labels(rows: Seq<TransactionView>, container_id: int, prefix: Seq<char>)
    ensures
        forall|x: Seq<char>| #[trigger]
            expense_labels(rows, container_id, prefix).contains(x) <==> has_expense(
                rows,
                container_id,
                prefix,
                x,
            ),
    decreases rows.len(),
{
    if rows.len() > 0 {
        let front = rows.drop_last();
        let labels = expense_labels(rows, container_id, prefix);
        let inner = expense_labels(front, container_id, prefix);
        lemma_expense_labels(front, container_id, prefix);
        assert forall|x: Seq<char>| #[trigger]
            labels.contains(x) <==> has_expense(rows, container_id, prefix, x) by {
            let held = in_scope(rows.last(), container_id, prefix) && rows.last().amount < 0;
            assert(inner.contains(x) <==> has_expense(front, container_id, prefix, x));
            if held {
                assert(labels.drop_last() =~= inner);
                lemma_contains_last(labels, x);
            }
            if has_expense(front, container_id, prefix, x) {
                let k = choose|k: int|
                    0 <= k < front.len() && counts(
                        #[trigger] front[k],
                        container_id,
                        prefix,
                        Some(x),
                    );
                assert(rows[k] == front[k]);
            }
            if held && rows.last().category == x {
                assert(counts(rows[rows.len() - 1], container_id, prefix, Some(x)));
            }
            if has_expense(rows, container_id, prefix, x) {
                let k = choose|k: int|
                    0 <= k < rows.len() && counts(
                        #[trigger] rows[k],
                        container_id,
                        prefix,
                        Some(x),
                    );
                if k < front.len() {
                    assert(front[k] == rows[k]);
                }
            }
        }
    } else {
        assert forall|x: Seq<char>| #[trigger]
            expense_labels(rows, container_id, prefix).contains(x) <==> has_expense(
                rows,
                container_id,
                prefix,
                x,
            ) by {}
    }
}

/// The months on offer are the months in which the container has a transaction: each of
/// them once, and each later month before every earlier one.
pub proof fn lemma_available_months(rows: Seq<TransactionView>, container_id: int)
    ensures
        forall|a: int, b: int|
            0 <= a < b < available_months(rows, container_id).len() ==> text_lt(
                #[trigger] available_months(rows, container_id)[b],
                #[trigger] available_months(rows, container_id)[a],
            ),
        available_months(rows, container_id).no_duplicates(),
        forall|x: Seq<char>| #[trigger]
            available_months(rows, container_id).contains(x) <==> has_month(rows, container_id, x),
{
    let labels = month_labels(rows, container_id);
    let months = distinct(labels);
    let keys = month_keys(months);
    let order = sorted_order(keys, true);
    let out = available_months(rows, container_id);
    lemma_month_labels(rows, container_id);
    lemma_distinct(labels);
    lemma_sorted_order(keys, true);
    assert(out.len() == months.len());
    assert forall|a: int, b: int| 0 <= a < b < out.len() implies text_lt(
        #[trigger] out[b],
        #[trigger] out[a],
    ) by {
        assert(order[a] != order[b]);
        assert(!before(keys[order[b]], keys[order[a]], true));
        assert(months[order[a]] != months[order[b]]);
        lemma_text_lt_total(months[order[a]], months[order[b]]);
    }
    assert forall|a: int, b: int| 0 <= a < out.len() && 0 <= b < out.len() && a != b implies out[a]
        != out[b] by {
        lemma_text_lt_total(out[a], out[b]);
        if a < b {
            assert(text_lt(out[b], out[a]));
        } else {
            assert(text_lt(out[a], out[b]));
        }
    }
    assert forall|x: Seq<char>| #[trigger]
        out.contains(x) <==> has_month(rows, container_id, x) by {
        assert(months.contains(x) <==> labels.contains(x));
        assert(labels.contains(x) <==> has_month(rows, container_id, x));
        if out.contains(x) {
            let j = choose|j: int| 0 <= j < out.len() && out[j] == x;
            assert(months[order[j]] == x);
        }
        if months.contains(x) {
            let i = choose|i: int| 0 <= i < months.len() && months[i] == x;
            assert(order.contains(i));
            let j = choose|j: int| 0 <= j < order.len() && order[j] == i;
            assert(out[j] == x);
        }
    }
}

/// No sum of expenses is positive, and one with an expense that counts is negative.
pub proof fn lemma_total_of_expenses(
    rows: Seq<TransactionView>,
    container_id: int,
    prefix: Seq<char>,
    category: Seq<char>,
)
    ensures
        total(rows, container_id, prefix, Some(category)) <= 0,
        has_expense(rows, container_id, prefix, category) ==> total(
            rows,
            container_id,
            prefix,
            Some(category),
        ) < 0,
    decreases rows.len(),
{
    if rows.len() > 0 {
        let front = rows.drop_last();
        lemma_total_of_expenses(front, container_id, prefix, category);
        if has_expense(rows, container_id, prefix, category) {
            let k = choose|k: int|
                0 <= k < rows.len() && counts(
                    #[trigger] rows[k],
                    container_id,
                    prefix,
                    Some(category),
                );
            if k < front.len() {
                assert(front[k] == rows[k]);
            }
        }
    }
}

/// The totals by category hold expenses only: each entry is the sum of the negative amounts
/// of its category in scope, which is negative; a category stands in the list exactly if it
/// has such an expense, and then once; and the totals ascend, the largest expense first.
pub proof fn lemma_category_totals(rows: Seq<TransactionView>, container_id: int, prefix: Seq<char>)
    ensures
        forall|j: int|
            0 <= j < category_totals(rows, container_id, prefix).len() ==> {
                &&& (#[trigger] category_totals(rows, container_id, prefix)[j]).1 == total(
                    rows,
                    container_id,
                    prefix,
                    Some(category_totals(rows, container_id, prefix)[j].0),
                )
                &&& category_totals(rows, container_id, prefix)[j].1 < 0
            },
        forall|a: int, b: int|
            0 <= a < b < category_totals(rows, container_id, prefix).len() ==> {
                &&& (#[trigger] category_totals(rows, container_id, prefix)[a]).1 <= (
                #[trigger] category_totals(rows, container_id, prefix)[b]).1
                &&& category_totals(rows, container_id, prefix)[a].0 != category_totals(
                    rows,
                    container_id,
                    prefix,
                )[b].0
            },
        forall|x: Seq<char>|
            #[trigger] lists_category(category_totals(rows, container_id, prefix), x)
                <==> has_expense(rows, container_id, prefix, x),
{
    let labels = expense_labels(rows, container_id, prefix);
    let names = distinct(labels);
    let keys = total_keys(rows, container_id, prefix, names);
    let order = sorted_order(keys, false);
    let out = category_totals(rows, container_id, prefix);
    lemma_expense_labels(rows, container_id, prefix);
    lemma_distinct(labels);
    lemma_sorted_order(keys, false);
    assert(out.len() == names.len());
    assert forall|j: int| 0 <= j < out.len() implies {
        &&& (#[trigger] out[j]).1 == total(rows, container_id, prefix, Some(out[j].0))
        &&& out[j].1 < 0
    } by {
        let i = order[j];
        assert(out[j] == (names[i], keys[i].0));
        assert(names.contains(names[i]));
        assert(labels.contains(names[i]));
        assert(has_expense(rows, container_id, prefix, names[i]));
        lemma_total_of_expenses(rows, container_id, prefix, names[i]);
    }
    assert forall|a: int, b: int| 0 <= a < b < out.len() implies {
        &&& (#[trigger] out[a]).1 <= (#[trigger] out[b]).1
        &&& out[a].0 != out[b].0
    } by {
        assert(order[a] != order[b]);
        assert(!before(keys[order[b]], keys[order[a]], false));
        assert(out[a] == (names[order[a]], keys[order[a]].0));
        assert(out[b] == (names[order[b]], keys[order[b]].0));
    }
    assert forall|x: Seq<char>| #[trigger]
        lists_category(out, x) <==> has_expense(rows, container_id, prefix, x) by {
        assert(names.contains(x) <==> labels.contains(x));
        assert(labels.contains(x) <==> has_expense(rows, container_id, prefix, x));
        if lists_category(out, x) {
            let j = choose|j: int| 0 <= j < out.len() && (#[trigger] out[j]).0 == x;
            assert(names[order[j]] == x);
            assert(names.contains(x));
        }
        if names.contains(x) {
            let i = choose|i: int| 0 <= i < names.len() && names[i] == x;
            assert(order.contains(i));
            let j = choose|j: int| 0 <= j < order.len() && order[j] == i;
            assert(out[j].0 == x);
        }
    }
}

/// A transaction that is no expense never shows in the totals by category: with it the
/// totals are what they are without it.
pub proof fn lemma_inflow_leaves_category_totals(
    rows: Seq<TransactionView>,
    t: TransactionView,
    container_id: int,
    prefix: Seq<char>,
)
    requires
        t.amount >= 0,
    ensures
        category_totals(rows.push(t), container_id, prefix) == category_totals(
            rows,
            container_id,
            prefix,
        ),
{
    let more = rows.push(t);
    assert(more.drop_last() =~= rows);
    let names = distinct(expense_labels(rows, container_id, prefix));
    assert(expense_labels(more, container_id, prefix) == expense_labels(
        rows,
        container_id,
        prefix,
    ));
    assert forall|i: int| 0 <= i < names.len() implies total(
        more,
        container_id,
        prefix,
        Some(#[trigger] names[i]),
    ) == total(rows, container_id, prefix, Some(names[i])) by {
        lemma_total_push(rows, t, container_id, prefix, Some(names[i]));
    }
    assert(total_keys(more, container_id, prefix, names) =~= total_keys(
        rows,
        container_id,
        prefix,
        names,
    ));
}

/// The rows in scope are the rows of the table that are in scope.
pub proof fn lemma_scoped(rows: Seq<TransactionView>, container_id: int, prefix: Seq<char>)
    ensures
        forall|t: TransactionView|
            scoped(rows, container_id, prefix).contains(t) <==> rows.contains(t) && in_scope(
                t,
                container_id,
                prefix,
            ),
    decreases rows.len(),
{
    if rows.len() > 0 {
        let front = rows.drop_last();
        let picked = scoped(rows, container_id, prefix);
        lemma_scoped(front, container_id, prefix);
        assert forall|t: TransactionView|
            picked.contains(t) <==> rows.contains(t) && in_scope(t, container_id, prefix) by {
            lemma_contains_last(rows, t);
            if in_scope(rows.last(), container_id, prefix) {
                assert(picked.drop_last() =~= scoped(front, container_id, prefix));
                lemma_contains_last(picked, t);
            }
        }
    }
}

/// A listing holds the rows of the container whose date begins with the prefix, all of
/// them and no others, and no row stands before one of a later date.
pub proof fn lemma_listing(rows: Seq<TransactionView>, container_id: int, prefix: Seq<char>)
    ensures
        listing(rows, container_id, prefix).len() == scoped(rows, container_id, prefix).len(),
        forall|t: TransactionView|
            listing(rows, container_id, prefix).contains(t) <==> rows.contains(t) && in_scope(
                t,
                container_id,
                prefix,
            ),
        forall|a: int, b: int|
            0 <= a < b < listing(rows, container_id, prefix).len() ==> !text_lt(
                (#[trigger] listing(rows, container_id, prefix)[a]).date,
                (#[trigger] listing(rows, container_id, prefix)[b]).date,
            ),
{
    let picked = scoped(rows, container_id, prefix);
    let keys = date_keys(picked);
    let order = sorted_order(keys, true);
    let out = listing(rows, container_id, prefix);
    lemma_scoped(rows, container_id, prefix);
    lemma_sorted_order(keys, true);
    assert forall|t: TransactionView| out.contains(t) <==> picked.contains(t) by {
        if out.contains(t) {
            let j = choose|j: int| 0 <= j < out.len() && out[j] == t;
            assert(picked[order[j]] == t);
        }
        if picked.contains(t) {
            let i = choose|i: int| 0 <= i < picked.len() && picked[i] == t;
            assert(order.contains(i));
            let j = choose|j: int| 0 <= j < order.len() && order[j] == i;
            assert(out[j] == t);
        }
    }
    assert forall|a: int, b: int| 0 <= a < b < out.len() implies !text_lt(
        (#[trigger] out[a]).date,
        (#[trigger] out[b]).date,
    ) by {
        assert(!before(keys[order[b]], keys[order[a]], true));
    }
}

/// The list of containers holds every container, and the default one stands first.
pub proof fn lemma_container_listing(ledger: Ledger)
    requires
        ledger.wf(),
    ensures
        container_listing(ledger.containers).len() == ledger.containers.len(),
        container_listing(ledger.containers)[0] == ledger.containers[0],
        forall|c: ContainerView|
            container_listing(ledger.containers).contains(c) <==> ledger.containers.contains(c),
        forall|a: int, b: int|
            1 <= a < b < container_listing(ledger.containers).len() ==> !text_lt(
                (#[trigger] container_listing(ledger.containers)[b]).created_at,
                (#[trigger] container_listing(ledger.containers)[a]).created_at,
            ),
{
    let rows = ledger.containers;
    let keys = container_keys(rows);
    let order = sorted_order(keys, false);
    let out = container_listing(rows);
    lemma_sorted_order(keys, false);
    assert forall|c: ContainerView| out.contains(c) <==> rows.contains(c) by {
        if out.contains(c) {
            let j = choose|j: int| 0 <= j < out.len() && out[j] == c;
            assert(rows[order[j]] == c);
        }
        if rows.contains(c) {
            let i = choose|i: int| 0 <= i < rows.len() && rows[i] == c;
            assert(order.contains(i));
            let j = choose|j: int| 0 <= j < order.len() && order[j] == i;
            assert(out[j] == c);
        }
    }
    // the default container has the least key, so nothing stands before it
    assert(order.contains(0));
    let z = choose|z: int| 0 <= z < order.len() && order[z] == 0;
    if z > 0 {
        assert(order[0] != order[z]);
        assert(!before(keys[order[z]], keys[order[0]], false));
        assert(!rows[order[0]].is_default);
    }
    assert forall|a: int, b: int| 1 <= a < b < out.len() implies !text_lt(
        (#[trigger] out[b]).created_at,
        (#[trigger] out[a]).created_at,
    ) by {
        assert(order[a] != order[0] && order[b] != order[0]);
        assert(!before(keys[order[b]], keys[order[a]], false));
    }
}

/// The list of categories holds the name of every category.
pub proof fn lemma_category_listing(categories: Seq<CategoryView>)
    ensures
        category_listing(categories).len() == categories.len(),
        forall|k: int|
            0 <= k < categories.len() ==> category_listing(categories).contains(
                (#[trigger] categories[k]).name,
            ),
{
    let keys = category_keys(categories);
    let order = sorted_order(keys, false);
    let out = category_listing(categories);
    lemma_sorted_order(keys, false);
    assert forall|k: int| 0 <= k < categories.len() implies out.contains(
        (#[trigger] categories[k]).name,
    ) by {
        assert(order.contains(k));
        let j = choose|j: int| 0 <= j < order.len() && order[j] == k;
        assert(out[j] == categories[k].name);
    }
}

/// A default category is never deleted: the attempt leaves the ledger as it is, and the
/// category stays in the list.
pub proof fn lemma_default_category_stays(ledger: Ledger, name: Seq<char>)
    requires
        ledger.wf(),
        ledger.has_category(name),
        ledger.categories[ledger.category_at(name)].is_default,
    ensures
        ledger.without_category(name) == ledger,
        category_listing(ledger.without_category(name).categories).contains(name),
{
    let at = ledger.category_at(name);
    assert(0 <= at < ledger.categories.len() && ledger.categories[at].name == name);
    lemma_category_listing(ledger.categories);
}

/// Every record of an import is counted once, as a success or as an error with its message;
/// each success is one more transaction and an error none; containers and categories stay
/// as they are, and a consistent ledger stays consistent.
pub proof fn lemma_import_tally(
    ledger: Ledger,
    records: Seq<Result<Seq<Seq<char>>, Seq<char>>>,
    n: nat,
    container_id: int,
    amount_column: int,
    description_column: int,
    category_column: int,
    date_column: int,
    skip_header: bool,
)
    requires
        n <= records.len(),
    ensures
        ({
            let end = import_first(
                ledger,
                records,
                n,
                container_id,
                amount_column,
                description_column,
                category_column,
                date_column,
                skip_header,
            );
            &&& end.tally.success_count + end.tally.error_count == n
            &&& end.tally.errors.len() == end.tally.error_count
            &&& end.ledger.transactions.len() == ledger.transactions.len()
                + end.tally.success_count
            &&& end.ledger.containers == ledger.containers
            &&& end.ledger.categories == ledger.categories
            &&& ledger.wf() ==> end.ledger.wf()
        }),
    decreases n,
{
    if n > 0 {
        lemma_import_tally(
            ledger,
            records,
            (n - 1) as nat,
            container_id,
            amount_column,
            description_column,
            category_column,
            date_column,
            skip_header,
        );
        let before = import_first(
            ledger,
            records,
            (n - 1) as nat,
            container_id,
            amount_column,
            description_column,
            category_column,
            date_column,
            skip_header,
        );
        if ledger.wf() {
            if let Ok(fields) = records[n - 1] {
                let row = crate::import::extracted(
                    fields,
                    amount_column,
                    description_column,
                    category_column,
                    date_column,
                );
                let number = crate::import::row_number(n - 1, skip_header);
                if row_error(before.ledger, container_id, row, number) is None {
                    before.ledger.lemma_with_transaction_wf(
                        amount_cents(row.amount)->Some_0,
                        row.description,
                        row.category,
                        normalized_date(row.date)->Some_0,
                        container_id,
                    );
                }
            }
        }
    }
}

/// The months on offer make a list of the months of the container.
pub proof fn lemma_months_listed(rows: Seq<TransactionView>, container_id: int)
    ensures
        is_month_list(rows, container_id, available_months(rows, container_id)),
{
    lemma_available_months(rows, container_id);
}

/// The totals by category make a list of the expenses in scope.
pub proof fn lemma_expenses_listed(rows: Seq<TransactionView>, container_id: int, prefix: Seq<char>)
    ensures
        is_expense_list(rows, container_id, prefix, category_totals(rows, container_id, prefix)),
{
    lemma_category_totals(rows, container_id, prefix);
}

/// A listing cut at a limit makes a list of the transactions in scope.
pub proof fn lemma_transactions_listed(
    rows: Seq<TransactionView>,
    container_id: int,
    prefix: Seq<char>,
    limit: Option<i64>,
)
    ensures
        is_listed(
            rows,
            container_id,
            prefix,
            limit,
            limited(listing(rows, container_id, prefix), limit),
        ),
{
    let full = listing(rows, container_id, prefix);
    let out = limited(full, limit);
    lemma_listing(rows, container_id, prefix);
    assert forall|k: int| 0 <= k < out.len() implies rows.contains(#[trigger] out[k]) && in_scope(
        out[k],
        container_id,
        prefix,
    ) by {
        assert(out[k] == full[k]);
        assert(full.contains(full[k]));
    }
    assert forall|a: int, b: int| 0 <= a < b < out.len() implies !text_lt(
        (#[trigger] out[a]).date,
        (#[trigger] out[b]).date,
    ) by {
        assert(out[a] == full[a]);
        assert(out[b] == full[b]);
    }
}

/// The fields of the line that an export writes for a transaction, where none of them
/// holds a comma: its id, its amount in major units, its description, its category and
/// its date.
pub open spec fn exported_fields(t: TransactionView) -> Seq<Seq<char>> {
    seq![signed_decimal(t.id), amount_text(t.amount), t.description, t.category, t.date]
}

/// What an export writes for a transaction reads back, under the columns of the export,
/// with the same amount to the cent and the same date to the second, provided that the date
/// reads back as itself. Description and category come back without surrounding white
/// space.
pub proof fn lemma_exported_row_reads_back(
    ledger: Ledger,
    t: TransactionView,
    container_id: int,
    number: nat,
)
    requires
        i64::MIN <= t.amount <= i64::MAX,
        is_canonical(t.date),
        normalized_date(t.date) == Some(t.date),
        ledger.insert_refusal(container_id, true) is None,
    ensures
        row_error(ledger, container_id, extracted(exported_fields(t), 1, 2, 3, 4), number)
            is None,
        ledger_after_row(
            ledger,
            container_id,
            extracted(exported_fields(t), 1, 2, 3, 4),
            number,
        ) == ledger.with_transaction(
            t.amount,
            trimmed(t.description),
            trimmed(t.category),
            t.date,
            container_id,
        ),
{
    let row = extracted(exported_fields(t), 1, 2, 3, 4);
    lemma_amount_text_is_plain(t.amount);
    lemma_amount_round_trip(t.amount);
    assert(row.amount == amount_text(t.amount));
    assert(is_digit(t.date[0]) && is_digit(t.date[18]));
    assert(trim_start(t.date) == t.date);
    assert(trim_end(t.date) == t.date);
    assert(row.date == t.date);
}

/// The records of an export whose descriptions and categories hold no comma, no quote and no
/// line break: for each transaction its five fields.
pub open spec fn exported_records(rows: Seq<TransactionView>) -> Seq<
    Result<Seq<Seq<char>>, Seq<char>>,
> {
    Seq::new(rows.len(), |i: int| Ok::<Seq<Seq<char>>, Seq<char>>(exported_fields(rows[i])))
}

/// Whether a transaction is one that an export can hand on: its amount has 64 bits, and its
/// date is canonical and reads back as itself.
pub open spec fn reads_back(t: TransactionView) -> bool {
    &&& i64::MIN <= t.amount <= i64::MAX
    &&& is_canonical(t.date)
    &&& normalized_date(t.date) == Some(t.date)
}

/// The first `n` records of an export, imported under the columns of the export, all go in:
/// none is an error, what the ledger held stays, and the transactions that come in have, in
/// their order, the amounts to the cent and the dates to the second of those that went out.
pub proof fn lemma_exported_records_read_back(
    ledger: Ledger,
    rows: Seq<TransactionView>,
    n: nat,
    container_id: int,
)
    requires
        ledger.wf(),
        ledger.has_container(container_id),
        n <= rows.len(),
        ledger.next_transaction_id + n <= i64::MAX,
        forall|i: int| 0 <= i < rows.len() ==> reads_back(#[trigger] rows[i]),
    ensures
        ({
            let end = import_first(ledger, exported_records(rows), n, container_id, 1, 2, 3, 4, true);
            let held = ledger.transactions.len() as int;
            &&& end.tally.success_count == n
            &&& end.tally.error_count == 0
            &&& end.tally.errors.len() == 0
            &&& end.ledger.containers == ledger.containers
            &&& end.ledger.next_transaction_id == ledger.next_transaction_id + n
            &&& end.ledger.transactions.len() == held + n
            &&& forall|i: int|
                0 <= i < held ==> #[trigger] end.ledger.transactions[i] == ledger.transactions[i]
            &&& forall|i: int|
                0 <= i < n ==> {
                    &&& (#[trigger] end.ledger.transactions[held + i]).amount == rows[i].amount
                    &&& end.ledger.transactions[held + i].date == rows[i].date
                    &&& end.ledger.transactions[held + i].container_id == container_id
                }
        }),
    decreases n,
{
    if n > 0 {
        let records = exported_records(rows);
        let m = (n - 1) as nat;
        lemma_exported_records_read_back(ledger, rows, m, container_id);
        let before = import_first(ledger, records, m, container_id, 1, 2, 3, 4, true);
        let end = import_first(ledger, records, n, container_id, 1, 2, 3, 4, true);
        let t = rows[n - 1];
        let number = row_number(n - 1, true);
        let row = extracted(exported_fields(t), 1, 2, 3, 4);
        let held = ledger.transactions.len() as int;
        assert(records[n - 1] == Ok::<Seq<Seq<char>>, Seq<char>>(exported_fields(t)));
        assert(reads_back(t));
        assert(before.ledger.has_container(container_id));
        assert(before.ledger.insert_refusal(container_id, true) is None);
        lemma_exported_row_reads_back(before.ledger, t, container_id, number);
        assert(record_error(before.ledger, records[n - 1], number, container_id, 1, 2, 3, 4)
            is None);
        assert(end.ledger == before.ledger.with_transaction(
            t.amount,
            trimmed(t.description),
            trimmed(t.category),
            t.date,
            container_id,
        ));
        assert forall|i: int| 0 <= i < held implies #[trigger] end.ledger.transactions[i]
            == ledger.transactions[i] by {
            assert(end.ledger.transactions[i] == before.ledger.transactions[i]);
        }
        assert forall|i: int| 0 <= i < n implies {
            &&& (#[trigger] end.ledger.transactions[held + i]).amount == rows[i].amount
            &&& end.ledger.transactions[held + i].date == rows[i].date
            &&& end.ledger.transactions[held + i].container_id == container_id
        } by {
            if i < n - 1 {
                assert(end.ledger.transactions[held + i] == before.ledger.transactions[held + i]);
            }
        }
    }
}

/// An export that is imported again, under the columns of the export and with its header
/// skipped, gives every transaction back with the same amount to the cent and the same date
/// to the second, provided that the reader yields the fields as the export wrote them and
/// that each date reads back as itself.
pub proof fn lemma_export_reads_back(ledger: Ledger, rows: Seq<TransactionView>, container_id: int)
    requires
        ledger.wf(),
        ledger.has_container(container_id),
        ledger.next_transaction_id + rows.len() <= i64::MAX,
        forall|i: int| 0 <= i < rows.len() ==> reads_back(#[trigger] rows[i]),
    ensures
        ({
            let end = imported(ledger, exported_records(rows), container_id, 1, 2, 3, 4, true);
            let held = ledger.transactions.len() as int;
            &&& end.tally.success_count == rows.len()
            &&& end.tally.error_count == 0
            &&& end.ledger.transactions.len() == held + rows.len()
            &&& forall|i: int|
                0 <= i < rows.len() ==> {
                    &&& (#[trigger] end.ledger.transactions[held + i]).amount == rows[i].amount
                    &&& end.ledger.transactions[held + i].date == rows[i].date
                    &&& end.ledger.transactions[held + i].container_id == container_id
                }
        }),
{
    lemma_exported_records_read_back(ledger, rows, rows.len(), container_id);
}

} // verus!
