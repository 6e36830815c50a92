//! The tables of a ledger as they are kept in a store: what is checked of them when a ledger
//! is opened, and what a new ledger is seeded with.

use vstd::prelude::*;
use vstd::string::*;
use crate::calendar::is_canonical_text;
use crate::database::{
    consistent_categories, consistent_containers, consistent_transactions, container_exists,
    default_category_names, Ledger,
};
use crate::model::{
    category_rows, container_rows, transaction_rows, Category, CategoryView, Container,
    Transaction,
};

verus! {

/// The tables of a ledger as plain rows, and the id that each table hands out next.
#[derive(Debug, PartialEq, Eq)]
pub struct Snapshot {
    pub containers: Vec<Container>,
    pub categories: Vec<Category>,
    pub transactions: Vec<Transaction>,
    pub next_container_id: i64,
    pub next_category_id: i64,
    pub next_transaction_id: i64,
}

impl View for Snapshot {
    type V = Ledger;

    open spec fn view(&self) -> Ledger {
        Ledger {
            containers: container_rows(self.containers@),
            categories: category_rows(self.categories@),
            transactions: transaction_rows(self.transactions@),
            next_container_id: self.next_container_id as int,
            next_category_id: self.next_category_id as int,
            next_transaction_id: self.next_transaction_id as int,
        }
    }
}

impl Snapshot {
    /// The tables of a store in which nothing was ever kept.
    pub fn empty() -> (s: Snapshot)
        ensures
            s@ == (Ledger {
                containers: Seq::empty(),
                categories: Seq::empty(),
                transactions: Seq::empty(),
                next_container_id: 1,
                next_category_id: 1,
                next_transaction_id: 1,
            }),
    {
        let s = Snapshot {
            containers: Vec::new(),
            categories: Vec::new(),
            transactions: Vec::new(),
            next_container_id: 1,
            next_category_id: 1,
            next_transaction_id: 1,
        };
        assert(s@.containers =~= Seq::empty());
        assert(s@.categories =~= Seq::empty());
        assert(s@.transactions =~= Seq::empty());
        s
    }
}

/// The default categories, as they are seeded from the id `first_id` on.
pub open spec fn default_categories(first_id: int) -> Seq<CategoryView> {
    Seq::new(
        8,
        |i: int| CategoryView { id: first_id + i, name: default_category_names()[i], is_default: true },
    )
}

/// No two default categories share a name.
pub proof fn lemma_default_names_distinct()
    ensures
        default_category_names().len() == 8,
        forall|i: int, j: int|
            0 <= i < j < 8 ==> #[trigger] default_category_names()[i]
                != #[trigger] default_category_names()[j],
{
    reveal_strlit("Food & Dining");
    reveal_strlit("Transportation");
    reveal_strlit("Shopping");
    reveal_strlit("Entertainment");
    reveal_strlit("Bills & Utilities");
    reveal_strlit("Healthcare");
    reveal_strlit("Income");
    reveal_strlit("Other");
    let names = default_category_names();
    assert forall|i: int, j: int| 0 <= i < j < 8 implies #[trigger] names[i] != #[trigger] names[j] by {
        if names[i].len() == names[j].len() {
            assert(names[i][0] != names[j][0]);
        }
    }
}

/// The default categories, with ids from `first_id` on.
pub(crate) fn seed_categories(first_id: i64) -> (rows: Vec<Category>)
    requires
        first_id <= i64::MAX - 8,
    ensures
        category_rows(rows@) == default_categories(first_id as int),
{
    let mut rows: Vec<Category> = Vec::new();
    rows.push(Category { id: first_id, name: String::from_str("Food & Dining"), is_default: true });
    rows.push(
        Category { id: first_id + 1, name: String::from_str("Transportation"), is_default: true },
    );
    rows.push(Category { id: first_id + 2, name: String::from_str("Shopping"), is_default: true });
    rows.push(
        Category { id: first_id + 3, name: String::from_str("Entertainment"), is_default: true },
    );
    rows.push(
        Category { id: first_id + 4, name: String::from_str("Bills & Utilities"), is_default: true },
    );
    rows.push(Category { id: first_id + 5, name: String::from_str("Healthcare"), is_default: true });
    rows.push(Category { id: first_id + 6, name: String::from_str("Income"), is_default: true });
    rows.push(Category { id: first_id + 7, name: String::from_str("Other"), is_default: true });
    assert(category_rows(rows@) =~= default_categories(first_id as int));
    rows
}

/// Whether a table of containers is consistent.
pub fn containers_consistent(rows: &Vec<Container>, next_id: i64) -> (b: bool)
    ensures
        b == consistent_containers(container_rows(rows@), next_id as int),
{
    let ghost all = container_rows(rows@);
    if rows.len() == 0 {
        return false;
    }
    let mut i: usize = 0;
    while i < rows.len()
        invariant
            i <= rows.len(),
            all == container_rows(rows@),
            forall|a: int| 0 <= a < i ==> (#[trigger] all[a]).id < next_id,
            forall|a: int| 0 <= a < i ==> ((#[trigger] all[a]).is_default <==> a == 0),
            forall|a: int, b: int| 0 <= a < b < i ==> (#[trigger] all[a]).id < (#[trigger] all[b]).id,
            forall|a: int, b: int|
                0 <= a < b < i ==> (#[trigger] all[a]).name != (#[trigger] all[b]).name,
        decreases rows.len() - i,
    {
        if rows[i].id >= next_id || rows[i].is_default != (i == 0) {
            assert(!(all[i as int].id < next_id && (all[i as int].is_default <==> i == 0)));
            return false;
        }
        if i > 0 && rows[i - 1].id >= rows[i].id {
            assert(!(all[i - 1].id < all[i as int].id));
            return false;
        }
        let mut j: usize = 0;
        while j < i
            invariant
                j <= i < rows.len(),
                all == container_rows(rows@),
                i > 0 ==> all[i - 1].id < all[i as int].id,
                forall|a: int| 0 <= a < j ==> (#[trigger] all[a]).name != all[i as int].name,
            decreases i - j,
        {
            if rows[j].name == rows[i].name {
                assert(all[j as int].name == all[i as int].name);
                return false;
            }
            j += 1;
        }
        proof {
            assert forall|a: int, b: int| 0 <= a < b < i + 1 implies (#[trigger] all[a]).id < (
            #[trigger] all[b]).id by {
                if b == i {
                    assert(all[i - 1].id < all[i as int].id);
                    if a < i - 1 {
                        assert(all[a].id < all[i - 1].id);
                    }
                }
            }
        }
        i += 1;
    }
    true
}

/// Whether a table of categories is consistent.
pub fn categories_consistent(rows: &Vec<Category>, next_id: i64) -> (b: bool)
    ensures
        b == consistent_categories(category_rows(rows@), next_id as int),
{
    let ghost all = category_rows(rows@);
    let mut i: usize = 0;
    while i < rows.len()
        invariant
            i <= rows.len(),
            all == category_rows(rows@),
            forall|a: int| 0 <= a < i ==> (#[trigger] all[a]).id < next_id,
            forall|a: int, b: int| 0 <= a < b < i ==> (#[trigger] all[a]).id < (#[trigger] all[b]).id,
            forall|a: int, b: int|
                0 <= a < b < i ==> (#[trigger] all[a]).name != (#[trigger] all[b]).name,
        decreases rows.len() - i,
    {
        if rows[i].id >= next_id {
            assert(!(all[i as int].id < next_id));
            return false;
        }
        if i > 0 && rows[i - 1].id >= rows[i].id {
            assert(!(all[i - 1].id < all[i as int].id));
            return false;
        }
        let mut j: usize = 0;
        while j < i
            invariant
                j <= i < rows.len(),
                all == category_rows(rows@),
                i > 0 ==> all[i - 1].id < all[i as int].id,
                forall|a: int| 0 <= a < j ==> (#[trigger] all[a]).name != all[i as int].name,
            decreases i - j,
        {
            if rows[j].name == rows[i].name {
                assert(all[j as int].name == all[i as int].name);
                return false;
            }
            j += 1;
        }
        proof {
            assert forall|a: int, b: int| 0 <= a < b < i + 1 implies (#[trigger] all[a]).id < (
            #[trigger] all[b]).id by {
                if b == i {
                    assert(all[i - 1].id < all[i as int].id);
                    if a < i - 1 {
                        assert(all[a].id < all[i - 1].id);
                    }
                }
            }
        }
        i += 1;
    }
    true
}

/// Whether a table of containers holds this id.
fn holds_container(containers: &Vec<Container>, id: i64) -> (b: bool)
    ensures
        b == container_exists(container_rows(containers@), id as int),
{
    let ghost all = container_rows(containers@);
    let mut i: usize = 0;
    while i < containers.len()
        invariant
            i <= containers.len(),
            all == container_rows(containers@),
            forall|a: int| 0 <= a < i ==> (#[trigger] all[a]).id != id,
        decreases containers.len() - i,
    {
        if containers[i].id == id {
            assert(all[i as int].id == id);
            return true;
        }
        i += 1;
    }
    false
}

/// Whether a table of transactions is consistent with a table of containers.
pub fn transactions_consistent(rows: &Vec<Transaction>, containers: &Vec<Container>, next_id: i64) -> (b:
    bool)
    ensures
        b == consistent_transactions(
            transaction_rows(rows@),
            container_rows(containers@),
            next_id as int,
        ),
{
    let ghost all = transaction_rows(rows@);
    let ghost owners = container_rows(containers@);
    let mut i: usize = 0;
    while i < rows.len()
        invariant
            i <= rows.len(),
            all == transaction_rows(rows@),
            owners == container_rows(containers@),
            forall|a: int| 0 <= a < i ==> (#[trigger] all[a]).id < next_id,
            forall|a: int, b: int| 0 <= a < b < i ==> (#[trigger] all[a]).id < (#[trigger] all[b]).id,
            forall|a: int|
                0 <= a < i ==> container_exists(owners, (#[trigger] all[a]).container_id)
                    && crate::calendar::is_canonical(all[a].date),
        decreases rows.len() - i,
    {
        if rows[i].id >= next_id {
            assert(!(all[i as int].id < next_id));
            return false;
        }
        if i > 0 && rows[i - 1].id >= rows[i].id {
            assert(!(all[i - 1].id < all[i as int].id));
            return false;
        }
        if !holds_container(containers, rows[i].container_id) {
            assert(!container_exists(owners, all[i as int].container_id));
            return false;
        }
        if !is_canonical_text(rows[i].date.as_str()) {
            assert(!crate::calendar::is_canonical(all[i as int].date));
            return false;
        }
        proof {
            assert forall|a: int, b: int| 0 <= a < b < i + 1 implies (#[trigger] all[a]).id < (
            #[trigger] all[b]).id by {
                if b == i {
                    assert(all[i - 1].id < all[i as int].id);
                    if a < i - 1 {
                        assert(all[a].id < all[i - 1].id);
                    }
                }
            }
        }
        i += 1;
    }
    true
}

} // verus!
