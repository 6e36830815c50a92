//! Questions put to a table of transactions: sums, listings, totals by category and the
//! months that occur.

use vstd::prelude::*;
use vstd::string::*;
use crate::model::{
    category_rows, container_rows, texts, transaction_rows, Category, CategoryView, Container,
    ContainerView, LedgerError, Transaction, TransactionView,
};
use crate::order::{key_views, sort_order, sorted_order, SortKey};
use crate::text::{chars_of, starts_with, text_lt};

verus! {

/// Whether a transaction belongs to the container and its date begins with `prefix`. The
/// empty prefix admits every date.
pub open spec fn in_scope(t: TransactionView, container_id: int, prefix: Seq<char>) -> bool {
    t.container_id == container_id && prefix.is_prefix_of(t.date)
}

/// Whether a transaction in scope counts towards a sum: towards a balance every one does,
/// towards the total of a category only an expense of that category.
pub open spec fn counts(
    t: TransactionView,
    container_id: int,
    prefix: Seq<char>,
    category: Option<Seq<char>>,
) -> bool {
    &&& in_scope(t, container_id, prefix)
    &&& match category {
        Some(c) => t.amount < 0 && t.category == c,
        None => true,
    }
}

/// The sum of the amounts of the rows that count.
pub open spec fn total(
    rows: Seq<TransactionView>,
    container_id: int,
    prefix: Seq<char>,
    category: Option<Seq<char>>,
) -> int
    decreases rows.len(),
{
    if rows.len() == 0 {
        0
    } else {
        total(rows.drop_last(), container_id, prefix, category) + if counts(
            rows.last(),
            container_id,
            prefix,
            category,
        ) {
            rows.last().amount
        } else {
            0
        }
    }
}

/// The rows in scope, in the order of the table.
pub open spec fn scoped(rows: Seq<TransactionView>, container_id: int, prefix: Seq<char>) -> Seq<
    TransactionView,
>
    decreases rows.len(),
{
    if rows.len() == 0 {
        Seq::empty()
    } else if in_scope(rows.last(), container_id, prefix) {
        scoped(rows.drop_last(), container_id, prefix).push(rows.last())
    } else {
        scoped(rows.drop_last(), container_id, prefix)
    }
}

/// The keys by which rows are listed: their dates.
pub open spec fn date_keys(rows: Seq<TransactionView>) -> Seq<(int, Seq<char>)> {
    Seq::new(rows.len(), |i: int| (0int, rows[i].date))
}

/// The rows in scope, latest date first; rows of one date in the order of the table.
pub open spec fn listing(rows: Seq<TransactionView>, container_id: int, prefix: Seq<char>) -> Seq<
    TransactionView,
> {
    let picked = scoped(rows, container_id, prefix);
    let order = sorted_order(date_keys(picked), true);
    Seq::new(order.len(), |j: int| picked[order[j]])
}

/// The first `limit` rows; all of them where there is no limit, or a negative one.
pub open spec fn limited(rows: Seq<TransactionView>, limit: Option<i64>) -> Seq<TransactionView> {
    match limit {
        Some(l) => if 0 <= l < rows.len() {
            rows.take(l as int)
        } else {
            rows
        },
        None => rows,
    }
}

/// The categories of the expenses in scope, one for each expense.
pub open spec fn expense_labels(
    rows: Seq<TransactionView>,
    container_id: int,
    prefix: Seq<char>,
) -> Seq<Seq<char>>
    decreases rows.len(),
{
    if rows.len() == 0 {
        Seq::empty()
    } else if in_scope(rows.last(), container_id, prefix) && rows.last().amount < 0 {
        expense_labels(rows.drop_last(), container_id, prefix).push(rows.last().category)
    } else {
        expense_labels(rows.drop_last(), container_id, prefix)
    }
}

/// The year and month of a canonical date: its first seven characters.
pub open spec fn month_of(date: Seq<char>) -> Seq<char> {
    if date.len() >= 7 {
        date.take(7)
    } else {
        date
    }
}

/// The months of the rows of a container, one for each row.
pub open spec fn month_labels(rows: Seq<TransactionView>, container_id: int) -> Seq<Seq<char>>
    decreases rows.len(),
{
    if rows.len() == 0 {
        Seq::empty()
    } else if rows.last().container_id == container_id {
        month_labels(rows.drop_last(), container_id).push(month_of(rows.last().date))
    } else {
        month_labels(rows.drop_last(), container_id)
    }
}

/// The labels without repetitions, each where it first occurs.
pub open spec fn distinct(labels: Seq<Seq<char>>) -> Seq<Seq<char>>
    decreases labels.len(),
{
    if labels.len() == 0 {
        Seq::empty()
    } else if distinct(labels.drop_last()).contains(labels.last()) {
        distinct(labels.drop_last())
    } else {
        distinct(labels.drop_last()).push(labels.last())
    }
}

/// The keys by which totals are listed: the total of each category, then its name.
pub open spec fn total_keys(
    rows: Seq<TransactionView>,
    container_id: int,
    prefix: Seq<char>,
    categories: Seq<Seq<char>>,
) -> Seq<(int, Seq<char>)> {
    Seq::new(
        categories.len(),
        |i: int| (total(rows, container_id, prefix, Some(categories[i])), categories[i]),
    )
}

/// For each category with an expense in scope, the sum of its expenses: the largest
/// expense first, categories of equal totals by name.
pub open spec fn category_totals(
    rows: Seq<TransactionView>,
    container_id: int,
    prefix: Seq<char>,
) -> Seq<(Seq<char>, int)> {
    let keys = total_keys(
        rows,
        container_id,
        prefix,
        distinct(expense_labels(rows, container_id, prefix)),
    );
    let order = sorted_order(keys, false);
    Seq::new(order.len(), |j: int| (keys[order[j]].1, keys[order[j]].0))
}

/// Whether a category has an expense in scope.
pub open spec fn has_expense(
    rows: Seq<TransactionView>,
    container_id: int,
    prefix: Seq<char>,
    category: Seq<char>,
) -> bool {
    exists|k: int|
        0 <= k < rows.len() && counts(#[trigger] rows[k], container_id, prefix, Some(category))
}

/// Whether a container has a transaction in a month.
pub open spec fn has_month(rows: Seq<TransactionView>, container_id: int, month: Seq<char>) -> bool {
    exists|k: int|
        0 <= k < rows.len() && (#[trigger] rows[k]).container_id == container_id && month_of(
            rows[k].date,
        ) == month
}

/// Whether a list of totals has an entry for a category.
pub open spec fn lists_category(totals: Seq<(Seq<char>, int)>, category: Seq<char>) -> bool {
    exists|j: int| 0 <= j < totals.len() && (#[trigger] totals[j]).0 == category
}

/// What a list of the months of a container is: each later month stands before every earlier
/// one, so that no month stands twice, and a month is in the list exactly if the container
/// has a transaction in it.
pub open spec fn is_month_list(
    rows: Seq<TransactionView>,
    container_id: int,
    months: Seq<Seq<char>>,
) -> bool {
    &&& forall|a: int, b: int|
        0 <= a < b < months.len() ==> text_lt(#[trigger] months[b], #[trigger] months[a])
    &&& forall|x: Seq<char>| #[trigger] months.contains(x) <==> has_month(rows, container_id, x)
}

/// What a list of totals by category is: each entry is the sum of the expenses of its
/// category in scope, and negative; the totals ascend and no category stands twice; and a
/// category is in the list exactly if it has an expense in scope.
pub open spec fn is_expense_list(
    rows: Seq<TransactionView>,
    container_id: int,
    prefix: Seq<char>,
    totals: Seq<(Seq<char>, int)>,
) -> bool {
    &&& forall|j: int|
        0 <= j < totals.len() ==> (#[trigger] totals[j]).1 < 0 && totals[j].1 == total(
            rows,
            container_id,
            prefix,
            Some(totals[j].0),
        )
    &&& forall|a: int, b: int|
        0 <= a < b < totals.len() ==> (#[trigger] totals[a]).1 <= (#[trigger] totals[b]).1
            && totals[a].0 != totals[b].0
    &&& forall|x: Seq<char>| #[trigger]
        lists_category(totals, x) <==> has_expense(rows, container_id, prefix, x)
}

/// What a list of transactions is: as long as the limit allows and the scope gives; each of
/// its rows is a row of the table in scope; and no row stands before one of a later date.
pub open spec fn is_listed(
    rows: Seq<TransactionView>,
    container_id: int,
    prefix: Seq<char>,
    limit: Option<i64>,
    out: Seq<TransactionView>,
) -> bool {
    &&& out.len() == match limit {
        Some(l) => if 0 <= l < scoped(rows, container_id, prefix).len() {
            l as nat
        } else {
            scoped(rows, container_id, prefix).len()
        },
        None => scoped(rows, container_id, prefix).len(),
    }
    &&& forall|k: int|
        0 <= k < out.len() ==> rows.contains(#[trigger] out[k]) && in_scope(
            out[k],
            container_id,
            prefix,
        )
    &&& forall|a: int, b: int|
        0 <= a < b < out.len() ==> !text_lt((#[trigger] out[a]).date, (#[trigger] out[b]).date)
}

/// Whether the total of every category with an expense in scope fits in 64 bits.
pub open spec fn totals_fit(rows: Seq<TransactionView>, container_id: int, prefix: Seq<char>) -> bool {
    let categories = distinct(expense_labels(rows, container_id, prefix));
    forall|i: int|
        0 <= i < categories.len() ==> i64::MIN <= total(
            rows,
            container_id,
            prefix,
            Some(#[trigger] categories[i]),
        ) <= i64::MAX
}

/// The keys by which months are listed.
pub open spec fn month_keys(months: Seq<Seq<char>>) -> Seq<(int, Seq<char>)> {
    Seq::new(months.len(), |i: int| (0int, months[i]))
}

/// The months in which a container has transactions, each once, the latest first.
pub open spec fn available_months(rows: Seq<TransactionView>, container_id: int) -> Seq<Seq<char>> {
    let months = distinct(month_labels(rows, container_id));
    let order = sorted_order(month_keys(months), true);
    Seq::new(order.len(), |j: int| months[order[j]])
}

/// What a list of totals holds.
pub open spec fn pairs(v: Seq<(String, i64)>) -> Seq<(Seq<char>, int)> {
    Seq::new(v.len(), |i: int| (v[i].0@, v[i].1 as int))
}

/// Whether a row belongs to the container and its date begins with the prefix.
fn row_in_scope(row: &Transaction, container_id: i64, prefix: &Vec<char>) -> (b: bool)
    ensures
        b == in_scope(row@, container_id as int, prefix@),
{
    if row.container_id != container_id {
        return false;
    }
    let date = chars_of(row.date.as_str());
    starts_with(&date, prefix)
}

/// Adds up the amounts of the rows that count: all rows in scope, or with a category only
/// its expenses. The sum is exact, and an error where it does not fit in 64 bits.
pub fn sum_amounts(
    rows: &Vec<Transaction>,
    container_id: i64,
    prefix: &str,
    category: Option<&String>,
) -> (r: Result<i64, LedgerError>)
    ensures
        ({
            let sum = total(
                transaction_rows(rows@),
                container_id as int,
                prefix@,
                match category {
                    Some(c) => Some(c@),
                    None => None,
                },
            );
            if i64::MIN <= sum <= i64::MAX {
                r == Ok::<i64, LedgerError>(sum as i64)
            } else {
                r == Err::<i64, LedgerError>(LedgerError::Overflow)
            }
        }),
{
    let ghost wanted: Option<Seq<char>> = match category {
        Some(c) => Some(c@),
        None => None,
    };
    let ghost all = transaction_rows(rows@);
    let begin = chars_of(prefix);
    let mut acc: i128 = 0;
    let mut i: usize = 0;
    assert(all.take(0) =~= Seq::<TransactionView>::empty());
    while i < rows.len()
        invariant
            i <= rows.len(),
            all == transaction_rows(rows@),
            begin@ == prefix@,
            wanted == (match category {
                Some(c) => Some(c@),
                None => None,
            }),
            acc == total(all.take(i as int), container_id as int, prefix@, wanted),
            -(i as int) * 0x8000_0000_0000_0000 <= acc <= (i as int) * 0x8000_0000_0000_0000,
        decreases rows.len() - i,
    {
        let row = &rows[i];
        assert(all.take(i + 1).drop_last() =~= all.take(i as int));
        assert(all.take(i + 1).last() == row@);
        let mut counted = row_in_scope(row, container_id, &begin);
        if counted {
            match category {
                Some(c) => {
                    counted = row.amount < 0 && row.category == *c;
                },
                None => {},
            }
        }
        assert(counted == counts(row@, container_id as int, prefix@, wanted));
        if counted {
            acc = acc + row.amount as i128;
        }
        i += 1;
    }
    assert(all.take(rows.len() as int) =~= all);
    if acc < i64::MIN as i128 || acc > i64::MAX as i128 {
        Err(LedgerError::Overflow)
    } else {
        Ok(acc as i64)
    }
}

/// The places in the table of the rows in scope.
fn pick(rows: &Vec<Transaction>, container_id: i64, prefix: &str) -> (picked: Vec<usize>)
    ensures
        picked@.len() == scoped(transaction_rows(rows@), container_id as int, prefix@).len(),
        forall|j: int|
            0 <= j < picked@.len() ==> #[trigger] picked@[j] < rows@.len() && rows@[picked@[j] as int]@
                == scoped(transaction_rows(rows@), container_id as int, prefix@)[j],
{
    let ghost all = transaction_rows(rows@);
    let begin = chars_of(prefix);
    let mut picked: Vec<usize> = Vec::new();
    let mut i: usize = 0;
    assert(all.take(0) =~= Seq::<TransactionView>::empty());
    while i < rows.len()
        invariant
            i <= rows.len(),
            all == transaction_rows(rows@),
            begin@ == prefix@,
            picked@.len() == scoped(all.take(i as int), container_id as int, prefix@).len(),
            forall|j: int|
                0 <= j < picked@.len() ==> #[trigger] picked@[j] < i && rows@[picked@[j] as int]@
                    == scoped(all.take(i as int), container_id as int, prefix@)[j],
        decreases rows.len() - i,
    {
        assert(all.take(i + 1).drop_last() =~= all.take(i as int));
        assert(all.take(i + 1).last() == rows@[i as int]@);
        if row_in_scope(&rows[i], container_id, &begin) {
            picked.push(i);
        }
        i += 1;
    }
    assert(all.take(rows.len() as int) =~= all);
    picked
}

/// The rows in scope, latest date first, at most `limit` of them.
pub fn list_rows(rows: &Vec<Transaction>, container_id: i64, prefix: &str, limit: Option<i64>) -> (out:
    Vec<Transaction>)
    ensures
        transaction_rows(out@) == limited(
            listing(transaction_rows(rows@), container_id as int, prefix@),
            limit,
        ),
{
    let ghost all = transaction_rows(rows@);
    let ghost chosen = scoped(all, container_id as int, prefix@);
    let picked = pick(rows, container_id, prefix);
    let mut keys: Vec<SortKey> = Vec::new();
    let mut i: usize = 0;
    while i < picked.len()
        invariant
            i <= picked.len(),
            keys@.len() == i,
            picked@.len() == chosen.len(),
            forall|j: int|
                0 <= j < picked@.len() ==> #[trigger] picked@[j] < rows@.len() && rows@[picked@[j] as int]@
                    == chosen[j],
            forall|j: int| 0 <= j < i ==> (#[trigger] keys@[j])@ == (0int, chosen[j].date),
        decreases picked.len() - i,
    {
        keys.push(SortKey { rank: 0, text: chars_of(rows[picked[i]].date.as_str()) });
        i += 1;
    }
    assert(key_views(keys@) =~= date_keys(chosen));
    let order = sort_order(&keys, true);
    let ghost full = listing(all, container_id as int, prefix@);
    let count: usize = match limit {
        Some(l) => if 0 <= l && (l as u64) < order.len() as u64 {
            l as usize
        } else {
            order.len()
        },
        None => order.len(),
    };
    let mut out: Vec<Transaction> = Vec::new();
    let mut j: usize = 0;
    while j < count
        invariant
            j <= count <= order@.len(),
            out@.len() == j,
            order@.len() == keys@.len(),
            keys@.len() == picked@.len(),
            picked@.len() == chosen.len(),
            full.len() == order@.len(),
            forall|k: int| 0 <= k < order@.len() ==> #[trigger] order@[k] < keys@.len(),
            forall|k: int|
                0 <= k < picked@.len() ==> #[trigger] picked@[k] < rows@.len() && rows@[picked@[k] as int]@
                    == chosen[k],
            forall|k: int| 0 <= k < order@.len() ==> chosen[#[trigger] order@[k] as int] == full[k],
            forall|k: int| 0 <= k < j ==> (#[trigger] out@[k])@ == full[k],
        decreases count - j,
    {
        out.push(rows[picked[order[j]]].clone());
        j += 1;
    }
    assert(transaction_rows(out@) =~= limited(full, limit));
    out
}

/// Whether `label` is among `labels`.
fn holds_text(labels: &Vec<String>, label: &String) -> (b: bool)
    ensures
        b == texts(labels@).contains(label@),
{
    let mut i: usize = 0;
    while i < labels.len()
        invariant
            i <= labels.len(),
            forall|j: int| 0 <= j < i ==> texts(labels@)[j] != label@,
        decreases labels.len() - i,
    {
        if labels[i] == *label {
            assert(texts(labels@)[i as int] == label@);
            return true;
        }
        i += 1;
    }
    false
}

/// The labels without repetitions, each where it first occurs.
fn distinct_texts(labels: &Vec<String>) -> (out: Vec<String>)
    ensures
        texts(out@) == distinct(texts(labels@)),
{
    let ghost all = texts(labels@);
    let mut out: Vec<String> = Vec::new();
    let mut i: usize = 0;
    assert(all.take(0) =~= Seq::<Seq<char>>::empty());
    assert(texts(out@) =~= Seq::<Seq<char>>::empty());
    while i < labels.len()
        invariant
            i <= labels.len(),
            all == texts(labels@),
            texts(out@) == distinct(all.take(i as int)),
        decreases labels.len() - i,
    {
        assert(all.take(i + 1).drop_last() =~= all.take(i as int));
        assert(all.take(i + 1).last() == labels@[i as int]@);
        if !holds_text(&out, &labels[i]) {
            let ghost before = texts(out@);
            out.push(labels[i].clone());
            assert(texts(out@) =~= before.push(labels@[i as int]@));
        }
        i += 1;
    }
    assert(all.take(labels.len() as int) =~= all);
    out
}

/// The categories of the expenses in scope.
fn collect_expense_labels(rows: &Vec<Transaction>, container_id: i64, prefix: &str) -> (out: Vec<
    String,
>)
    ensures
        texts(out@) == expense_labels(transaction_rows(rows@), container_id as int, prefix@),
{
    let ghost all = transaction_rows(rows@);
    let begin = chars_of(prefix);
    let mut out: Vec<String> = Vec::new();
    let mut i: usize = 0;
    assert(all.take(0) =~= Seq::<TransactionView>::empty());
    assert(texts(out@) =~= Seq::<Seq<char>>::empty());
    while i < rows.len()
        invariant
            i <= rows.len(),
            all == transaction_rows(rows@),
            begin@ == prefix@,
            texts(out@) == expense_labels(all.take(i as int), container_id as int, prefix@),
        decreases rows.len() - i,
    {
        assert(all.take(i + 1).drop_last() =~= all.take(i as int));
        assert(all.take(i + 1).last() == rows@[i as int]@);
        if row_in_scope(&rows[i], container_id, &begin) && rows[i].amount < 0 {
            let ghost before = texts(out@);
            out.push(rows[i].category.clone());
            assert(texts(out@) =~= before.push(rows@[i as int]@.category));
        }
        i += 1;
    }
    assert(all.take(rows.len() as int) =~= all);
    out
}

/// The months of the rows of a container.
fn collect_month_labels(rows: &Vec<Transaction>, container_id: i64) -> (out: Vec<String>)
    ensures
        texts(out@) == month_labels(transaction_rows(rows@), container_id as int),
{
    let ghost all = transaction_rows(rows@);
    let mut out: Vec<String> = Vec::new();
    let mut i: usize = 0;
    assert(all.take(0) =~= Seq::<TransactionView>::empty());
    assert(texts(out@) =~= Seq::<Seq<char>>::empty());
    while i < rows.len()
        invariant
            i <= rows.len(),
            all == transaction_rows(rows@),
            texts(out@) == month_labels(all.take(i as int), container_id as int),
        decreases rows.len() - i,
    {
        assert(all.take(i + 1).drop_last() =~= all.take(i as int));
        assert(all.take(i + 1).last() == rows@[i as int]@);
        if rows[i].container_id == container_id {
            let date = rows[i].date.as_str();
            let n = date.unicode_len();
            let month = if n >= 7 {
                String::from_str(date.substring_char(0, 7))
            } else {
                rows[i].date.clone()
            };
            let ghost before = texts(out@);
            out.push(month);
            assert(texts(out@) =~= before.push(month_of(rows@[i as int]@.date)));
        }
        i += 1;
    }
    assert(all.take(rows.len() as int) =~= all);
    out
}

/// For each category with an expense in scope, the sum of its expenses, the largest expense
/// first. An error where one of the sums does not fit in 64 bits.
pub fn category_totals_of(rows: &Vec<Transaction>, container_id: i64, prefix: &str) -> (r: Result<
    Vec<(String, i64)>,
    LedgerError,
>)
    ensures
        match r {
            Ok(v) => totals_fit(transaction_rows(rows@), container_id as int, prefix@) && pairs(v@)
                == category_totals(transaction_rows(rows@), container_id as int, prefix@),
            Err(e) => e == LedgerError::Overflow && !totals_fit(
                transaction_rows(rows@),
                container_id as int,
                prefix@,
            ),
        },
{
    let ghost all = transaction_rows(rows@);
    let labels = collect_expense_labels(rows, container_id, prefix);
    let categories = distinct_texts(&labels);
    let ghost names = texts(categories@);
    let ghost wanted = total_keys(all, container_id as int, prefix@, names);
    let mut keys: Vec<SortKey> = Vec::new();
    let mut i: usize = 0;
    while i < categories.len()
        invariant
            i <= categories.len(),
            keys@.len() == i,
            all == transaction_rows(rows@),
            names == texts(categories@),
            names == distinct(expense_labels(all, container_id as int, prefix@)),
            wanted == total_keys(all, container_id as int, prefix@, names),
            forall|j: int| 0 <= j < i ==> (#[trigger] keys@[j])@ == wanted[j],
        decreases categories.len() - i,
    {
        match sum_amounts(rows, container_id, prefix, Some(&categories[i])) {
            Ok(sum) => {
                assert(names[i as int] == categories@[i as int]@);
                keys.push(SortKey { rank: sum, text: chars_of(categories[i].as_str()) });
            },
            Err(_) => {
                assert(names[i as int] == categories@[i as int]@);
                return Err(LedgerError::Overflow);
            },
        }
        i += 1;
    }
    assert(key_views(keys@) =~= wanted);
    assert forall|j: int| 0 <= j < names.len() implies i64::MIN <= total(
        all,
        container_id as int,
        prefix@,
        Some(#[trigger] names[j]),
    ) <= i64::MAX by {
        assert(keys@[j]@ == wanted[j]);
    }
    let order = sort_order(&keys, false);
    let ghost full = category_totals(all, container_id as int, prefix@);
    let mut out: Vec<(String, i64)> = Vec::new();
    let mut j: usize = 0;
    while j < order.len()
        invariant
            j <= order@.len(),
            out@.len() == j,
            order@.len() == keys@.len(),
            keys@.len() == categories@.len(),
            names == texts(categories@),
            full.len() == order@.len(),
            forall|k: int| 0 <= k < order@.len() ==> #[trigger] order@[k] < keys@.len(),
            forall|k: int| 0 <= k < keys@.len() ==> (#[trigger] keys@[k])@ == wanted[k],
            wanted.len() == keys@.len(),
            forall|k: int| 0 <= k < wanted.len() ==> (#[trigger] wanted[k]).1 == names[k],
            forall|k: int|
                0 <= k < order@.len() ==> full[k] == (
                    wanted[#[trigger] order@[k] as int].1,
                    wanted[order@[k] as int].0,
                ),
            forall|k: int| 0 <= k < j ==> pairs(out@)[k] == full[k],
        decreases order@.len() - j,
    {
        let at = order[j];
        let ghost before = pairs(out@);
        out.push((categories[at].clone(), keys[at].rank));
        assert(pairs(out@) =~= before.push((names[at as int], keys@[at as int].rank as int)));
        assert(keys@[at as int]@ == wanted[at as int]);
        j += 1;
    }
    assert(pairs(out@) =~= full);
    Ok(out)
}

/// The months in which a container has transactions, each once, the latest first.
pub fn months_of(rows: &Vec<Transaction>, container_id: i64) -> (out: Vec<String>)
    ensures
        texts(out@) == available_months(transaction_rows(rows@), container_id as int),
{
    let ghost all = transaction_rows(rows@);
    let labels = collect_month_labels(rows, container_id);
    let months = distinct_texts(&labels);
    let ghost names = texts(months@);
    let mut keys: Vec<SortKey> = Vec::new();
    let mut i: usize = 0;
    while i < months.len()
        invariant
            i <= months.len(),
            keys@.len() == i,
            names == texts(months@),
            forall|j: int| 0 <= j < i ==> (#[trigger] keys@[j])@ == (0int, names[j]),
        decreases months.len() - i,
    {
        assert(names[i as int] == months@[i as int]@);
        keys.push(SortKey { rank: 0, text: chars_of(months[i].as_str()) });
        i += 1;
    }
    assert(key_views(keys@) =~= month_keys(names));
    let order = sort_order(&keys, true);
    let ghost full = available_months(all, container_id as int);
    let mut out: Vec<String> = Vec::new();
    let mut j: usize = 0;
    while j < order.len()
        invariant
            j <= order@.len(),
            out@.len() == j,
            order@.len() == months@.len(),
            names == texts(months@),
            full.len() == order@.len(),
            forall|k: int| 0 <= k < order@.len() ==> #[trigger] order@[k] < months@.len(),
            forall|k: int| 0 <= k < order@.len() ==> full[k] == names[#[trigger] order@[k] as int],
            forall|k: int| 0 <= k < j ==> texts(out@)[k] == full[k],
        decreases order@.len() - j,
    {
        let at = order[j];
        let ghost before = texts(out@);
        out.push(months[at].clone());
        assert(texts(out@) =~= before.push(names[at as int]));
        j += 1;
    }
    assert(texts(out@) =~= full);
    out
}

/// The rows of the other containers, in the order of the table.
pub open spec fn outside(rows: Seq<TransactionView>, container_id: int) -> Seq<TransactionView>
    decreases rows.len(),
{
    if rows.len() == 0 {
        Seq::empty()
    } else if rows.last().container_id != container_id {
        outside(rows.drop_last(), container_id).push(rows.last())
    } else {
        outside(rows.drop_last(), container_id)
    }
}

/// The rows of the other containers.
pub fn rows_outside(rows: &Vec<Transaction>, container_id: i64) -> (out: Vec<Transaction>)
    ensures
        transaction_rows(out@) == outside(transaction_rows(rows@), container_id as int),
{
    let ghost all = transaction_rows(rows@);
    let mut out: Vec<Transaction> = Vec::new();
    let mut i: usize = 0;
    assert(all.take(0) =~= Seq::<TransactionView>::empty());
    assert(transaction_rows(out@) =~= Seq::<TransactionView>::empty());
    while i < rows.len()
        invariant
            i <= rows.len(),
            all == transaction_rows(rows@),
            transaction_rows(out@) == outside(all.take(i as int), container_id as int),
        decreases rows.len() - i,
    {
        assert(all.take(i + 1).drop_last() =~= all.take(i as int));
        assert(all.take(i + 1).last() == rows@[i as int]@);
        if rows[i].container_id != container_id {
            let ghost before = transaction_rows(out@);
            out.push(rows[i].clone());
            assert(transaction_rows(out@) =~= before.push(rows@[i as int]@));
        }
        i += 1;
    }
    assert(all.take(rows.len() as int) =~= all);
    out
}

/// The keys by which containers are listed: the default one first, then by time of creation.
pub open spec fn container_keys(containers: Seq<ContainerView>) -> Seq<(int, Seq<char>)> {
    Seq::new(
        containers.len(),
        |i: int|
            (
                if containers[i].is_default {
                    0int
                } else {
                    1int
                },
                containers[i].created_at,
            ),
    )
}

/// The containers as they are listed: the default one first, then the oldest first, and
/// containers of one moment in the order of the table.
pub open spec fn container_listing(containers: Seq<ContainerView>) -> Seq<ContainerView> {
    let order = sorted_order(container_keys(containers), false);
    Seq::new(order.len(), |j: int| containers[order[j]])
}

/// The keys by which categories are listed: the defaults first, then by name.
pub open spec fn category_keys(categories: Seq<CategoryView>) -> Seq<(int, Seq<char>)> {
    Seq::new(
        categories.len(),
        |i: int|
            (
                if categories[i].is_default {
                    0int
                } else {
                    1int
                },
                categories[i].name,
            ),
    )
}

/// The names of the categories as they are listed: the defaults first, each group by name.
pub open spec fn category_listing(categories: Seq<CategoryView>) -> Seq<Seq<char>> {
    let order = sorted_order(category_keys(categories), false);
    Seq::new(order.len(), |j: int| categories[order[j]].name)
}

/// The containers, the default one first, then the oldest first.
pub fn list_containers(containers: &Vec<Container>) -> (out: Vec<Container>)
    ensures
        container_rows(out@) == container_listing(container_rows(containers@)),
{
    let ghost all = container_rows(containers@);
    let mut keys: Vec<SortKey> = Vec::new();
    let mut i: usize = 0;
    while i < containers.len()
        invariant
            i <= containers.len(),
            keys@.len() == i,
            all == container_rows(containers@),
            forall|j: int| 0 <= j < i ==> (#[trigger] keys@[j])@ == container_keys(all)[j],
        decreases containers.len() - i,
    {
        let rank: i64 = if containers[i].is_default {
            0
        } else {
            1
        };
        keys.push(SortKey { rank, text: chars_of(containers[i].created_at.as_str()) });
        i += 1;
    }
    assert(key_views(keys@) =~= container_keys(all));
    let order = sort_order(&keys, false);
    let ghost full = container_listing(all);
    let mut out: Vec<Container> = Vec::new();
    let mut j: usize = 0;
    while j < order.len()
        invariant
            j <= order@.len(),
            out@.len() == j,
            order@.len() == containers@.len(),
            all == container_rows(containers@),
            full.len() == order@.len(),
            forall|k: int| 0 <= k < order@.len() ==> #[trigger] order@[k] < containers@.len(),
            forall|k: int| 0 <= k < order@.len() ==> full[k] == all[#[trigger] order@[k] as int],
            forall|k: int| 0 <= k < j ==> (#[trigger] out@[k])@ == full[k],
        decreases order@.len() - j,
    {
        out.push(containers[order[j]].clone());
        j += 1;
    }
    assert(container_rows(out@) =~= full);
    out
}

/// The names of the categories, the defaults first, each group by name.
pub fn list_category_names(categories: &Vec<Category>) -> (out: Vec<String>)
    ensures
        texts(out@) == category_listing(category_rows(categories@)),
{
    let ghost all = category_rows(categories@);
    let mut keys: Vec<SortKey> = Vec::new();
    let mut i: usize = 0;
    while i < categories.len()
        invariant
            i <= categories.len(),
            keys@.len() == i,
            all == category_rows(categories@),
            forall|j: int| 0 <= j < i ==> (#[trigger] keys@[j])@ == category_keys(all)[j],
        decreases categories.len() - i,
    {
        let rank: i64 = if categories[i].is_default {
            0
        } else {
            1
        };
        keys.push(SortKey { rank, text: chars_of(categories[i].name.as_str()) });
        i += 1;
    }
    assert(key_views(keys@) =~= category_keys(all));
    let order = sort_order(&keys, false);
    let ghost full = category_listing(all);
    let mut out: Vec<String> = Vec::new();
    let mut j: usize = 0;
    while j < order.len()
        invariant
            j <= order@.len(),
            out@.len() == j,
            order@.len() == categories@.len(),
            all == category_rows(categories@),
            full.len() == order@.len(),
            forall|k: int| 0 <= k < order@.len() ==> #[trigger] order@[k] < categories@.len(),
            forall|k: int|
                0 <= k < order@.len() ==> full[k] == all[#[trigger] order@[k] as int].name,
            forall|k: int| 0 <= k < j ==> texts(out@)[k] == full[k],
        decreases order@.len() - j,
    {
        let at = order[j];
        let ghost before = texts(out@);
        out.push(categories[at].name.clone());
        assert(texts(out@) =~= before.push(all[at as int].name));
        j += 1;
    }
    assert(texts(out@) =~= full);
    out
}

} // verus!
