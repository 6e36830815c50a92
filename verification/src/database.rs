//! The ledger itself: its state, what makes a state consistent, and the operations on it.

use vstd::prelude::*;
use vstd::string::*;
use crate::calendar::{is_canonical, is_canonical_text, Timestamp};
use crate::export::{export_rows, export_text};
pub use crate::model::{
    Category, Container, ImportResult, ImportedTransaction, LedgerError, NewTransaction,
    Transaction,
};
use crate::model::{
    category_rows, container_rows, text_or, texts, transaction_rows, CategoryView, ContainerView,
    NewTransactionView, TransactionView,
};
use crate::schema::{
    categories_consistent, containers_consistent, default_categories, lemma_default_names_distinct,
    seed_categories, transactions_consistent, Snapshot,
};
use crate::laws::{
    lemma_container_listing, lemma_default_category_stays, lemma_default_container_protected,
    lemma_expenses_listed, lemma_months_listed, lemma_transactions_listed,
};
use crate::query::{
    available_months, category_listing, category_totals, category_totals_of, container_listing,
    is_expense_list, is_listed, is_month_list, limited, list_category_names, list_containers,
    list_rows, listing, months_of, outside, pairs, rows_outside, sum_amounts, total, totals_fit,
};

verus! {

/// The state of a ledger: its three tables in the order of their ids, and the id that each
/// table hands out next.
pub struct Ledger {
    pub containers: Seq<ContainerView>,
    pub categories: Seq<CategoryView>,
    pub transactions: Seq<TransactionView>,
    pub next_container_id: int,
    pub next_category_id: int,
    pub next_transaction_id: int,
}

/// The names of the categories that a new ledger starts with.
pub open spec fn default_category_names() -> Seq<Seq<char>> {
    seq![
        "Food & Dining"@,
        "Transportation"@,
        "Shopping"@,
        "Entertainment"@,
        "Bills & Utilities"@,
        "Healthcare"@,
        "Income"@,
        "Other"@,
    ]
}

/// A new ledger: the default container `Personal`, the default categories, no transactions.
pub open spec fn seeded(created_at: Seq<char>) -> Ledger {
    Ledger {
        containers: seq![
            ContainerView { id: 1, name: "Personal"@, created_at, is_default: true },
        ],
        categories: default_categories(1),
        transactions: Seq::empty(),
        next_container_id: 2,
        next_category_id: 9,
        next_transaction_id: 1,
    }
}

/// Whether a table of containers holds this id.
pub open spec fn container_exists(containers: Seq<ContainerView>, id: int) -> bool {
    exists|i: int| 0 <= i < containers.len() && (#[trigger] containers[i]).id == id
}

/// A consistent table of containers: in the order of their ids, which lie below the next
/// id; no two share a name; the oldest is the default one, and the only default.
pub open spec fn consistent_containers(containers: Seq<ContainerView>, next_id: int) -> bool {
    &&& containers.len() > 0
    &&& i64::MIN <= next_id <= i64::MAX
    &&& forall|i: int|
        0 <= i < containers.len() ==> i64::MIN <= (#[trigger] containers[i]).id < next_id
    &&& forall|i: int, j: int|
        0 <= i < j < containers.len() ==> (#[trigger] containers[i]).id < (
        #[trigger] containers[j]).id
    &&& forall|i: int, j: int|
        0 <= i < j < containers.len() ==> (#[trigger] containers[i]).name != (
        #[trigger] containers[j]).name
    &&& forall|i: int|
        0 <= i < containers.len() ==> ((#[trigger] containers[i]).is_default <==> i == 0)
}

/// A consistent table of categories: in the order of their ids, which lie below the next
/// id, and no two share a name.
pub open spec fn consistent_categories(categories: Seq<CategoryView>, next_id: int) -> bool {
    &&& i64::MIN <= next_id <= i64::MAX
    &&& forall|i: int|
        0 <= i < categories.len() ==> i64::MIN <= (#[trigger] categories[i]).id < next_id
    &&& forall|i: int, j: int|
        0 <= i < j < categories.len() ==> (#[trigger] categories[i]).id < (
        #[trigger] categories[j]).id
    &&& forall|i: int, j: int|
        0 <= i < j < categories.len() ==> (#[trigger] categories[i]).name != (
        #[trigger] categories[j]).name
}

/// A consistent table of transactions: in the order of their ids, which lie below the next
/// id; each belongs to a container that exists, holds an amount of 64 bits and a canonical
/// date.
pub open spec fn consistent_transactions(
    transactions: Seq<TransactionView>,
    containers: Seq<ContainerView>,
    next_id: int,
) -> bool {
    &&& i64::MIN <= next_id <= i64::MAX
    &&& forall|i: int|
        0 <= i < transactions.len() ==> i64::MIN <= (#[trigger] transactions[i]).id < next_id
    &&& forall|i: int, j: int|
        0 <= i < j < transactions.len() ==> (#[trigger] transactions[i]).id < (
        #[trigger] transactions[j]).id
    &&& forall|i: int|
        0 <= i < transactions.len() ==> {
            &&& container_exists(containers, (#[trigger] transactions[i]).container_id)
            &&& is_canonical(transactions[i].date)
            &&& i64::MIN <= transactions[i].amount <= i64::MAX
        }
}

impl Ledger {
    /// Whether a container has this id.
    pub open spec fn has_container(self, id: int) -> bool {
        container_exists(self.containers, id)
    }

    /// Whether a container has this name.
    pub open spec fn has_container_named(self, name: Seq<char>) -> bool {
        exists|i: int|
            0 <= i < self.containers.len() && (#[trigger] self.containers[i]).name == name
    }

    /// Whether a container other than the one with this id has this name.
    pub open spec fn name_taken_by_other(self, id: int, name: Seq<char>) -> bool {
        exists|i: int|
            0 <= i < self.containers.len() && (#[trigger] self.containers[i]).name == name
                && self.containers[i].id != id
    }

    /// Whether a category has this name.
    pub open spec fn has_category(self, name: Seq<char>) -> bool {
        exists|i: int|
            0 <= i < self.categories.len() && (#[trigger] self.categories[i]).name == name
    }

    /// Whether a transaction has this id.
    pub open spec fn has_transaction(self, id: int) -> bool {
        exists|i: int|
            0 <= i < self.transactions.len() && (#[trigger] self.transactions[i]).id == id
    }

    /// Where the container with this id stands.
    pub open spec fn container_at(self, id: int) -> int {
        choose|i: int| 0 <= i < self.containers.len() && (#[trigger] self.containers[i]).id == id
    }

    /// Where the category with this name stands.
    pub open spec fn category_at(self, name: Seq<char>) -> int {
        choose|i: int|
            0 <= i < self.categories.len() && (#[trigger] self.categories[i]).name == name
    }

    /// Where the transaction with this id stands.
    pub open spec fn transaction_at(self, id: int) -> int {
        choose|i: int|
            0 <= i < self.transactions.len() && (#[trigger] self.transactions[i]).id == id
    }

    /// The table of containers is consistent.
    pub open spec fn containers_wf(self) -> bool {
        consistent_containers(self.containers, self.next_container_id)
    }

    /// The table of categories is consistent.
    pub open spec fn categories_wf(self) -> bool {
        consistent_categories(self.categories, self.next_category_id)
    }

    /// The table of transactions is consistent.
    pub open spec fn transactions_wf(self) -> bool {
        consistent_transactions(self.transactions, self.containers, self.next_transaction_id)
    }

    /// A consistent ledger.
    pub open spec fn wf(self) -> bool {
        &&& self.containers_wf()
        &&& self.categories_wf()
        &&& self.transactions_wf()
    }

    /// The ledger with the default container `Personal` where it has no container at all.
    pub open spec fn with_default_container(self, created_at: Seq<char>) -> Ledger {
        if self.containers.len() == 0 {
            Ledger {
                containers: seq![
                    ContainerView {
                        id: self.next_container_id,
                        name: "Personal"@,
                        created_at,
                        is_default: true,
                    },
                ],
                next_container_id: self.next_container_id + 1,
                ..self
            }
        } else {
            self
        }
    }

    /// The ledger with the default categories where it has no category at all.
    pub open spec fn with_default_categories(self) -> Ledger {
        if self.categories.len() == 0 {
            Ledger {
                categories: default_categories(self.next_category_id),
                next_category_id: self.next_category_id + 8,
                ..self
            }
        } else {
            self
        }
    }

    /// Why a transaction cannot be recorded, if it cannot: its container does not exist, its
    /// date is not canonical, or the ids have run out.
    pub open spec fn insert_refusal(self, container_id: int, dated: bool) -> Option<LedgerError> {
        if !self.has_container(container_id) {
            Some(LedgerError::UnknownContainer)
        } else if !dated {
            Some(LedgerError::InvalidDate)
        } else if self.next_transaction_id >= i64::MAX {
            Some(LedgerError::Full)
        } else {
            None
        }
    }

    /// The ledger with one more transaction, under the next id.
    pub open spec fn with_transaction(
        self,
        amount: int,
        description: Seq<char>,
        category: Seq<char>,
        date: Seq<char>,
        container_id: int,
    ) -> Ledger {
        Ledger {
            transactions: self.transactions.push(
                TransactionView {
                    id: self.next_transaction_id,
                    amount,
                    description,
                    category,
                    date,
                    container_id,
                },
            ),
            next_transaction_id: self.next_transaction_id + 1,
            ..self
        }
    }

    /// The ledger without the transaction of this id; the same ledger if there is none.
    pub open spec fn without_transaction(self, id: int) -> Ledger {
        if self.has_transaction(id) {
            Ledger { transactions: self.transactions.remove(self.transaction_at(id)), ..self }
        } else {
            self
        }
    }

    /// The ledger with amount, description and category of one transaction replaced.
    pub open spec fn with_transaction_changed(
        self,
        id: int,
        amount: int,
        description: Seq<char>,
        category: Seq<char>,
    ) -> Ledger {
        let at = self.transaction_at(id);
        Ledger {
            transactions: self.transactions.update(
                at,
                TransactionView { amount, description, category, ..self.transactions[at] },
            ),
            ..self
        }
    }

    /// Why a container cannot be created, if it cannot.
    pub open spec fn container_refusal(self, name: Seq<char>, dated: bool) -> Option<LedgerError> {
        if self.has_container_named(name) {
            Some(LedgerError::DuplicateName)
        } else if !dated {
            Some(LedgerError::InvalidDate)
        } else if self.next_container_id >= i64::MAX {
            Some(LedgerError::Full)
        } else {
            None
        }
    }

    /// The ledger with one more container, under the next id.
    pub open spec fn with_container(self, name: Seq<char>, created_at: Seq<char>) -> Ledger {
        Ledger {
            containers: self.containers.push(
                ContainerView { id: self.next_container_id, name, created_at, is_default: false },
            ),
            next_container_id: self.next_container_id + 1,
            ..self
        }
    }

    /// Why a container cannot be deleted, if it cannot: there is none of this id, or it is
    /// the default one.
    pub open spec fn removal_refusal(self, id: int) -> Option<LedgerError> {
        if !self.has_container(id) {
            Some(LedgerError::NotFound)
        } else if self.containers[self.container_at(id)].is_default {
            Some(LedgerError::ProtectedResource)
        } else {
            None
        }
    }

    /// The ledger without a container and without the transactions that belonged to it.
    pub open spec fn without_container(self, id: int) -> Ledger {
        Ledger {
            containers: self.containers.remove(self.container_at(id)),
            transactions: outside(self.transactions, id),
            ..self
        }
    }

    /// Why a container cannot be renamed, if it cannot.
    pub open spec fn rename_refusal(self, id: int, name: Seq<char>) -> Option<LedgerError> {
        if !self.has_container(id) {
            Some(LedgerError::NotFound)
        } else if self.name_taken_by_other(id, name) {
            Some(LedgerError::DuplicateName)
        } else {
            None
        }
    }

    /// The ledger with one container renamed.
    pub open spec fn with_container_renamed(self, id: int, name: Seq<char>) -> Ledger {
        let at = self.container_at(id);
        Ledger {
            containers: self.containers.update(at, ContainerView { name, ..self.containers[at] }),
            ..self
        }
    }

    /// Why a category cannot be added, if it cannot.
    pub open spec fn category_refusal(self, name: Seq<char>) -> Option<LedgerError> {
        if self.has_category(name) {
            Some(LedgerError::DuplicateName)
        } else if self.next_category_id >= i64::MAX {
            Some(LedgerError::Full)
        } else {
            None
        }
    }

    /// The ledger with one more category, which is no default.
    pub open spec fn with_category(self, name: Seq<char>) -> Ledger {
        Ledger {
            categories: self.categories.push(
                CategoryView { id: self.next_category_id, name, is_default: false },
            ),
            next_category_id: self.next_category_id + 1,
            ..self
        }
    }

    /// The ledger without the category of this name, unless that is a default or does not
    /// exist: then the same ledger.
    pub open spec fn without_category(self, name: Seq<char>) -> Ledger {
        if self.has_category(name) && !self.categories[self.category_at(name)].is_default {
            Ledger { categories: self.categories.remove(self.category_at(name)), ..self }
        } else {
            self
        }
    }

    /// The balance of a container over the dates that begin with `prefix`: the sum of the
    /// amounts, or an overflow where the sum does not fit in 64 bits.
    pub open spec fn balance(self, container_id: int, prefix: Seq<char>) -> Result<
        i64,
        LedgerError,
    > {
        let sum = total(self.transactions, container_id, prefix, None);
        if i64::MIN <= sum <= i64::MAX {
            Ok(sum as i64)
        } else {
            Err(LedgerError::Overflow)
        }
    }

    /// The balance of a container over the month of `now`.
    pub open spec fn monthly_balance(self, container_id: int, now: Timestamp) -> Result<
        i64,
        LedgerError,
    > {
        self.balance(container_id, now.month_text())
    }

    /// Each container is found where it stands.
    pub proof fn lemma_container_at(self, k: int)
        requires
            self.containers_wf(),
            0 <= k < self.containers.len(),
        ensures
            self.has_container(self.containers[k].id),
            self.container_at(self.containers[k].id) == k,
    {
        let id = self.containers[k].id;
        let i = self.container_at(id);
        assert(self.containers[i].id == id);
    }

    /// Each category is found where it stands.
    pub proof fn lemma_category_at(self, k: int)
        requires
            self.categories_wf(),
            0 <= k < self.categories.len(),
        ensures
            self.has_category(self.categories[k].name),
            self.category_at(self.categories[k].name) == k,
    {
        let name = self.categories[k].name;
        let i = self.category_at(name);
        assert(self.categories[i].name == name);
    }

    /// Each transaction is found where it stands.
    pub proof fn lemma_transaction_at(self, k: int)
        requires
            self.transactions_wf(),
            0 <= k < self.transactions.len(),
        ensures
            self.has_transaction(self.transactions[k].id),
            self.transaction_at(self.transactions[k].id) == k,
    {
        let id = self.transactions[k].id;
        let i = self.transaction_at(id);
        assert(self.transactions[i].id == id);
    }

    /// What holds of the containers of one ledger holds of another with the same containers.
    proof fn lemma_same_containers(self, other: Ledger, id: int)
        requires
            self.containers == other.containers,
            self.has_container(id),
        ensures
            other.has_container(id),
    {
        let w = choose|w: int| 0 <= w < self.containers.len() && (#[trigger] self.containers[w]).id
            == id;
        assert(other.containers[w].id == id);
    }

    /// The transactions stay consistent where neither they nor the containers change.
    proof fn lemma_same_transactions(self, other: Ledger)
        requires
            self.transactions_wf(),
            self.containers == other.containers,
            self.transactions == other.transactions,
            self.next_transaction_id == other.next_transaction_id,
        ensures
            other.transactions_wf(),
    {
        assert forall|i: int| 0 <= i < other.transactions.len() implies other.has_container(
            (#[trigger] other.transactions[i]).container_id,
        ) by {
            assert(self.has_container(self.transactions[i].container_id));
            self.lemma_same_containers(other, self.transactions[i].container_id);
        }
    }

    /// A new ledger is consistent.
    pub proof fn lemma_seeded_wf(created_at: Seq<char>)
        ensures
            seeded(created_at).wf(),
    {
        lemma_default_names_distinct();
        let l = seeded(created_at);
        let names = default_category_names();
        assert forall|i: int, j: int| 0 <= i < j < l.categories.len() implies (
        #[trigger] l.categories[i]).name != (#[trigger] l.categories[j]).name by {
            assert(l.categories[i].name == names[i]);
            assert(l.categories[j].name == names[j]);
        }
    }

    /// Seeding is idempotent: a ledger that was seeded is left as it is when seeded again.
    pub proof fn lemma_seeding_idempotent(self, first: Seq<char>, second: Seq<char>)
        ensures
            self.with_default_container(first).with_default_categories().with_default_container(
                second,
            ).with_default_categories() == self.with_default_container(
                first,
            ).with_default_categories(),
    {
    }

    /// Seeding an empty store gives a new ledger.
    pub proof fn lemma_seeding_of_nothing(created_at: Seq<char>)
        ensures
            (Ledger {
                containers: Seq::empty(),
                categories: Seq::empty(),
                transactions: Seq::empty(),
                next_container_id: 1,
                next_category_id: 1,
                next_transaction_id: 1,
            }).with_default_container(created_at).with_default_categories() == seeded(created_at),
    {
    }

    /// Recording a transaction keeps the ledger consistent.
    pub proof fn lemma_with_transaction_wf(
        self,
        amount: int,
        description: Seq<char>,
        category: Seq<char>,
        date: Seq<char>,
        container_id: int,
    )
        requires
            self.wf(),
            self.insert_refusal(container_id, is_canonical(date)) is None,
            i64::MIN <= amount <= i64::MAX,
        ensures
            self.with_transaction(amount, description, category, date, container_id).wf(),
    {
        let next = self.with_transaction(amount, description, category, date, container_id);
        let n = self.transactions.len() as int;
        assert forall|i: int| 0 <= i < next.transactions.len() implies {
            &&& i64::MIN <= (#[trigger] next.transactions[i]).id < next.next_transaction_id
            &&& next.has_container(next.transactions[i].container_id)
            &&& is_canonical(next.transactions[i].date)
            &&& i64::MIN <= next.transactions[i].amount <= i64::MAX
        } by {
            if i < n {
                assert(next.transactions[i] == self.transactions[i]);
                assert(self.has_container(self.transactions[i].container_id));
            }
            self.lemma_same_containers(next, next.transactions[i].container_id);
        }
        assert forall|i: int, j: int| 0 <= i < j < next.transactions.len() implies (
        #[trigger] next.transactions[i]).id < (#[trigger] next.transactions[j]).id by {
            assert(next.transactions[i] == self.transactions[i]);
            if j < n {
                assert(next.transactions[j] == self.transactions[j]);
            }
        }
    }

    /// Deleting a transaction keeps the ledger consistent.
    pub proof fn lemma_without_transaction_wf(self, id: int)
        requires
            self.wf(),
        ensures
            self.without_transaction(id).wf(),
    {
        if self.has_transaction(id) {
            let at = self.transaction_at(id);
            let next = self.without_transaction(id);
            assert(0 <= at < self.transactions.len() && self.transactions[at].id == id);
            assert forall|i: int| 0 <= i < next.transactions.len() implies (
            #[trigger] next.transactions[i]) == self.transactions[if i < at {
                i
            } else {
                i + 1
            }] by {}
            assert forall|i: int, j: int| 0 <= i < j < next.transactions.len() implies (
            #[trigger] next.transactions[i]).id < (#[trigger] next.transactions[j]).id by {
                let a = if i < at {
                    i
                } else {
                    i + 1
                };
                let b = if j < at {
                    j
                } else {
                    j + 1
                };
                assert(next.transactions[i] == self.transactions[a]);
                assert(next.transactions[j] == self.transactions[b]);
            }
            assert forall|i: int| 0 <= i < next.transactions.len() implies {
                &&& i64::MIN <= (#[trigger] next.transactions[i]).id < next.next_transaction_id
                &&& next.has_container(next.transactions[i].container_id)
                &&& is_canonical(next.transactions[i].date)
                &&& i64::MIN <= next.transactions[i].amount <= i64::MAX
            } by {
                let a = if i < at {
                    i
                } else {
                    i + 1
                };
                assert(next.transactions[i] == self.transactions[a]);
                assert(self.has_container(self.transactions[a].container_id));
                self.lemma_same_containers(next, self.transactions[a].container_id);
            }
        }
    }

    /// Changing a transaction keeps the ledger consistent.
    pub proof fn lemma_with_transaction_changed_wf(
        self,
        id: int,
        amount: int,
        description: Seq<char>,
        category: Seq<char>,
    )
        requires
            self.wf(),
            self.has_transaction(id),
            i64::MIN <= amount <= i64::MAX,
        ensures
            self.with_transaction_changed(id, amount, description, category).wf(),
    {
        let at = self.transaction_at(id);
        let next = self.with_transaction_changed(id, amount, description, category);
        assert(0 <= at < self.transactions.len() && self.transactions[at].id == id);
        assert forall|i: int| 0 <= i < next.transactions.len() implies {
            &&& (#[trigger] next.transactions[i]).id == self.transactions[i].id
            &&& next.transactions[i].container_id == self.transactions[i].container_id
            &&& next.transactions[i].date == self.transactions[i].date
            &&& i64::MIN <= next.transactions[i].amount <= i64::MAX
        } by {}
        assert forall|i: int, j: int| 0 <= i < j < next.transactions.len() implies (
        #[trigger] next.transactions[i]).id < (#[trigger] next.transactions[j]).id by {
            assert(self.transactions[i].id < self.transactions[j].id);
        }
        assert forall|i: int| 0 <= i < next.transactions.len() implies next.has_container(
            (#[trigger] next.transactions[i]).container_id,
        ) by {
            assert(self.has_container(self.transactions[i].container_id));
            self.lemma_same_containers(next, self.transactions[i].container_id);
        }
    }

    /// Creating a container keeps the ledger consistent.
    pub proof fn lemma_with_container_wf(self, name: Seq<char>, created_at: Seq<char>)
        requires
            self.wf(),
            self.container_refusal(name, true) is None,
        ensures
            self.with_container(name, created_at).wf(),
    {
        let next = self.with_container(name, created_at);
        let n = self.containers.len() as int;
        assert forall|i: int| 0 <= i < n implies (#[trigger] next.containers[i])
            == self.containers[i] by {}
        assert forall|i: int, j: int| 0 <= i < j < next.containers.len() implies (
        #[trigger] next.containers[i]).id < (#[trigger] next.containers[j]).id && next.containers[i].name
            != next.containers[j].name by {
            assert(next.containers[i] == self.containers[i]);
            if j < n {
                assert(next.containers[j] == self.containers[j]);
            }
        }
        assert forall|i: int| 0 <= i < next.transactions.len() implies next.has_container(
            (#[trigger] next.transactions[i]).container_id,
        ) by {
            let c = self.transactions[i].container_id;
            assert(self.has_container(c));
            let w = choose|w: int| 0 <= w < self.containers.len() && (
            #[trigger] self.containers[w]).id == c;
            assert(next.containers[w].id == c);
        }
    }

    /// Deleting a container that is not the default one, together with its transactions,
    /// keeps the ledger consistent.
    pub proof fn lemma_without_container_wf(self, id: int)
        requires
            self.wf(),
            self.removal_refusal(id) is None,
        ensures
            self.without_container(id).wf(),
    {
        let at = self.container_at(id);
        let next = self.without_container(id);
        assert(0 <= at < self.containers.len() && self.containers[at].id == id);
        assert(at != 0);
        assert forall|i: int| 0 <= i < next.containers.len() implies (
        #[trigger] next.containers[i]) == self.containers[if i < at {
            i
        } else {
            i + 1
        }] by {}
        assert forall|i: int, j: int| 0 <= i < j < next.containers.len() implies (
        #[trigger] next.containers[i]).id < (#[trigger] next.containers[j]).id && next.containers[i].name
            != next.containers[j].name by {
            let a = if i < at {
                i
            } else {
                i + 1
            };
            let b = if j < at {
                j
            } else {
                j + 1
            };
            assert(next.containers[i] == self.containers[a]);
            assert(next.containers[j] == self.containers[b]);
        }
        lemma_outside(self.transactions, id);
        assert forall|i: int| 0 <= i < next.transactions.len() implies {
            &&& i64::MIN <= (#[trigger] next.transactions[i]).id < next.next_transaction_id
            &&& next.has_container(next.transactions[i].container_id)
            &&& is_canonical(next.transactions[i].date)
            &&& i64::MIN <= next.transactions[i].amount <= i64::MAX
        } by {
            let t = next.transactions[i];
            let k = choose|k: int|
                0 <= k < self.transactions.len() && #[trigger] self.transactions[k] == t;
            let c = t.container_id;
            assert(self.has_container(c));
            let w = choose|w: int| 0 <= w < self.containers.len() && (
            #[trigger] self.containers[w]).id == c;
            assert(w != at);
            if w < at {
                assert(next.containers[w].id == c);
            } else {
                assert(next.containers[w - 1].id == c);
            }
        }
    }

    /// Renaming a container keeps the ledger consistent.
    pub proof fn lemma_with_container_renamed_wf(self, id: int, name: Seq<char>)
        requires
            self.wf(),
            self.rename_refusal(id, name) is None,
        ensures
            self.with_container_renamed(id, name).wf(),
    {
        let at = self.container_at(id);
        let next = self.with_container_renamed(id, name);
        assert(0 <= at < self.containers.len() && self.containers[at].id == id);
        assert forall|i: int| 0 <= i < next.containers.len() implies {
            &&& (#[trigger] next.containers[i]).id == self.containers[i].id
            &&& next.containers[i].is_default == self.containers[i].is_default
            &&& i != at ==> next.containers[i].name == self.containers[i].name
        } by {}
        assert forall|i: int, j: int| 0 <= i < j < next.containers.len() implies (
        #[trigger] next.containers[i]).id < (#[trigger] next.containers[j]).id && next.containers[i].name
            != next.containers[j].name by {
            assert(self.containers[i].id < self.containers[j].id);
            assert(self.containers[i].name != self.containers[j].name);
        }
        assert forall|i: int| 0 <= i < next.transactions.len() implies next.has_container(
            (#[trigger] next.transactions[i]).container_id,
        ) by {
            let c = self.transactions[i].container_id;
            assert(self.has_container(c));
            let w = choose|w: int| 0 <= w < self.containers.len() && (
            #[trigger] self.containers[w]).id == c;
            assert(next.containers[w].id == c);
        }
    }

    /// Adding a category keeps the ledger consistent.
    pub proof fn lemma_with_category_wf(self, name: Seq<char>)
        requires
            self.wf(),
            self.category_refusal(name) is None,
        ensures
            self.with_category(name).wf(),
    {
        let next = self.with_category(name);
        let n = self.categories.len() as int;
        self.lemma_same_transactions(next);
        assert forall|i: int| 0 <= i < n implies (#[trigger] next.categories[i])
            == self.categories[i] by {}
        assert forall|i: int, j: int| 0 <= i < j < next.categories.len() implies (
        #[trigger] next.categories[i]).id < (#[trigger] next.categories[j]).id && next.categories[i].name
            != next.categories[j].name by {
            assert(next.categories[i] == self.categories[i]);
            if j < n {
                assert(next.categories[j] == self.categories[j]);
            }
        }
    }

    /// Deleting a category keeps the ledger consistent.
    pub proof fn lemma_without_category_wf(self, name: Seq<char>)
        requires
            self.wf(),
        ensures
            self.without_category(name).wf(),
    {
        if self.has_category(name) && !self.categories[self.category_at(name)].is_default {
            let at = self.category_at(name);
            let next = self.without_category(name);
            self.lemma_same_transactions(next);
            assert(0 <= at < self.categories.len() && self.categories[at].name == name);
            assert forall|i: int| 0 <= i < next.categories.len() implies (
            #[trigger] next.categories[i]) == self.categories[if i < at {
                i
            } else {
                i + 1
            }] by {}
            assert forall|i: int, j: int| 0 <= i < j < next.categories.len() implies (
            #[trigger] next.categories[i]).id < (#[trigger] next.categories[j]).id
                && next.categories[i].name != next.categories[j].name by {
                let a = if i < at {
                    i
                } else {
                    i + 1
                };
                let b = if j < at {
                    j
                } else {
                    j + 1
                };
                assert(next.categories[i] == self.categories[a]);
                assert(next.categories[j] == self.categories[b]);
            }
        }
    }
}

/// The rows of the other containers are rows of the table, none of them of the container,
/// and they keep the order of their ids.
pub proof fn lemma_outside(rows: Seq<TransactionView>, container_id: int)
    ensures
        outside(rows, container_id).len() <= rows.len(),
        forall|j: int|
            0 <= j < outside(rows, container_id).len() ==> {
                &&& (#[trigger] outside(rows, container_id)[j]).container_id != container_id
                &&& exists|k: int|
                    0 <= k < rows.len() && #[trigger] rows[k] == outside(rows, container_id)[j]
            },
        (forall|i: int, j: int|
            0 <= i < j < rows.len() ==> (#[trigger] rows[i]).id < (#[trigger] rows[j]).id) ==> (
        forall|i: int, j: int|
            0 <= i < j < outside(rows, container_id).len() ==> (#[trigger] outside(
                rows,
                container_id,
            )[i]).id < (#[trigger] outside(rows, container_id)[j]).id),
    decreases rows.len(),
{
    if rows.len() > 0 {
        let front = rows.drop_last();
        let kept = outside(front, container_id);
        let out = outside(rows, container_id);
        lemma_outside(front, container_id);
        assert forall|j: int| 0 <= j < out.len() implies {
            &&& (#[trigger] out[j]).container_id != container_id
            &&& exists|k: int| 0 <= k < rows.len() && #[trigger] rows[k] == out[j]
        } by {
            if j < kept.len() {
                assert(out[j] == kept[j]);
                let k = choose|k: int| 0 <= k < front.len() && #[trigger] front[k] == kept[j];
                assert(rows[k] == out[j]);
            } else {
                assert(rows[rows.len() - 1] == out[j]);
            }
        }
        if forall|i: int, j: int|
            0 <= i < j < rows.len() ==> (#[trigger] rows[i]).id < (#[trigger] rows[j]).id {
            assert forall|i: int, j: int| 0 <= i < j < front.len() implies (#[trigger] front[i]).id
                < (#[trigger] front[j]).id by {
                assert(front[i] == rows[i]);
                assert(front[j] == rows[j]);
            }
            assert forall|i: int, j: int| 0 <= i < j < out.len() implies (#[trigger] out[i]).id < (
            #[trigger] out[j]).id by {
                assert(out[i] == kept[i]);
                if j < kept.len() {
                    assert(out[j] == kept[j]);
                } else {
                    let k = choose|k: int| 0 <= k < front.len() && #[trigger] front[k] == kept[i];
                    assert(rows[k] == kept[i]);
                    assert(rows[k].id < rows[rows.len() - 1].id);
                }
            }
        }
    }
}

/// What recording a transaction at the moment `now` gives: a refusal and the same ledger, or
/// the new row and the ledger with it. A missing description reads `Untitled`, a missing
/// category `Other`.
pub open spec fn transaction_added(
    before: Ledger,
    transaction: NewTransactionView,
    now: Timestamp,
    r: Result<Transaction, LedgerError>,
    after: Ledger,
) -> bool {
    match before.insert_refusal(transaction.container_id, now.fits()) {
        Some(e) => r == Err::<Transaction, LedgerError>(e) && after == before,
        None => {
            &&& r is Ok
            &&& after == before.with_transaction(
                transaction.amount,
                text_or(transaction.description, "Untitled"@),
                text_or(transaction.category, "Other"@),
                now.canonical_text(),
                transaction.container_id,
            )
            &&& r->Ok_0@ == after.transactions.last()
        },
    }
}

/// What creating a container at the moment `now` gives.
pub open spec fn container_added(
    before: Ledger,
    name: Seq<char>,
    now: Timestamp,
    r: Result<Container, LedgerError>,
    after: Ledger,
) -> bool {
    match before.container_refusal(name, now.fits()) {
        Some(e) => r == Err::<Container, LedgerError>(e) && after == before,
        None => {
            &&& r is Ok
            &&& after == before.with_container(name, now.canonical_text())
            &&& r->Ok_0@ == after.containers.last()
        },
    }
}

/// What the totals by category report: the totals, or an overflow where one of them does not
/// fit in 64 bits.
pub open spec fn totals_reported(
    rows: Seq<TransactionView>,
    container_id: int,
    prefix: Seq<char>,
    r: Result<Vec<(String, i64)>, LedgerError>,
) -> bool {
    match r {
        Ok(v) => totals_fit(rows, container_id, prefix) && pairs(v@) == category_totals(
            rows,
            container_id,
            prefix,
        ),
        Err(e) => e == LedgerError::Overflow && !totals_fit(rows, container_id, prefix),
    }
}

/// What opening a new ledger at the moment `now` gives.
pub open spec fn opened(now: Timestamp, r: Result<Database, LedgerError>) -> bool {
    match r {
        Ok(db) => now.fits() && db.wf() && db@ == seeded(now.canonical_text()),
        Err(e) => !now.fits() && e == LedgerError::InvalidDate,
    }
}

/// What opening a ledger from stored tables at the moment `now` gives. Where the store has
/// no container, the default one is created then; where it has no category, the default
/// ones are added. The ledger is handed out if it is consistent, and refused if it is not.
pub open spec fn opened_from(stored: Ledger, now: Timestamp, r: Result<Database, LedgerError>) -> bool {
    if stored.containers.len() == 0 && !now.fits() {
        r is Err && r->Err_0 == LedgerError::InvalidDate
    } else {
        let ledger = stored.with_default_container(now.canonical_text()).with_default_categories();
        match r {
            Ok(db) => ledger.wf() && db.wf() && db@ == ledger,
            Err(e) => e == LedgerError::Inconsistent && !ledger.wf(),
        }
    }
}

/// The ledger.
pub struct Database {
    containers: Vec<Container>,
    categories: Vec<Category>,
    transactions: Vec<Transaction>,
    next_container_id: i64,
    next_category_id: i64,
    next_transaction_id: i64,
}

impl View for Database {
    type V = Ledger;

    closed spec fn view(&self) -> Ledger {
        Ledger {
            containers: container_rows(self.containers@),
            categories: category_rows(self.categories@),
            transactions: transaction_rows(self.transactions@),
            next_container_id: self.next_container_id as int,
            next_category_id: self.next_category_id as int,
            next_transaction_id: self.next_transaction_id as int,
        }
    }
}

impl Database {
    /// Whether the ledger is consistent; every operation keeps it so.
    pub open spec fn wf(&self) -> bool {
        self@.wf()
    }

    fn find_container(&self, id: i64) -> (r: Option<usize>)
        requires
            self.wf(),
        ensures
            match r {
                Some(k) => k < self.containers@.len() && self.containers@[k as int].id == id
                    && self@.has_container(id as int) && self@.container_at(id as int) == k,
                None => !self@.has_container(id as int),
            },
    {
        let mut i: usize = 0;
        while i < self.containers.len()
            invariant
                self.wf(),
                i <= self.containers@.len(),
                forall|j: int| 0 <= j < i ==> self@.containers[j].id != id,
            decreases self.containers@.len() - i,
        {
            if self.containers[i].id == id {
                proof {
                    self@.lemma_container_at(i as int);
                }
                return Some(i);
            }
            i += 1;
        }
        None
    }

    fn find_container_named(&self, name: &String) -> (r: Option<usize>)
        ensures
            match r {
                Some(k) => k < self.containers@.len() && self.containers@[k as int].name@ == name@
                    && self@.has_container_named(name@),
                None => !self@.has_container_named(name@),
            },
    {
        let mut i: usize = 0;
        while i < self.containers.len()
            invariant
                i <= self.containers@.len(),
                forall|j: int| 0 <= j < i ==> self@.containers[j].name != name@,
            decreases self.containers@.len() - i,
        {
            if self.containers[i].name == *name {
                assert(self@.containers[i as int].name == name@);
                return Some(i);
            }
            i += 1;
        }
        None
    }

    fn other_container_named(&self, id: i64, name: &String) -> (b: bool)
        ensures
            b == self@.name_taken_by_other(id as int, name@),
    {
        let mut i: usize = 0;
        while i < self.containers.len()
            invariant
                i <= self.containers@.len(),
                forall|j: int|
                    0 <= j < i ==> !(self@.containers[j].name == name@ && self@.containers[j].id
                        != id),
            decreases self.containers@.len() - i,
        {
            if self.containers[i].name == *name && self.containers[i].id != id {
                assert(self@.containers[i as int].name == name@ && self@.containers[i as int].id
                    != id);
                return true;
            }
            i += 1;
        }
        false
    }

    fn find_category(&self, name: &String) -> (r: Option<usize>)
        requires
            self.wf(),
        ensures
            match r {
                Some(k) => k < self.categories@.len() && self.categories@[k as int].name@ == name@
                    && self@.has_category(name@) && self@.category_at(name@) == k,
                None => !self@.has_category(name@),
            },
    {
        let mut i: usize = 0;
        while i < self.categories.len()
            invariant
                self.wf(),
                i <= self.categories@.len(),
                forall|j: int| 0 <= j < i ==> self@.categories[j].name != name@,
            decreases self.categories@.len() - i,
        {
            if self.categories[i].name == *name {
                proof {
                    self@.lemma_category_at(i as int);
                }
                return Some(i);
            }
            i += 1;
        }
        None
    }

    fn find_transaction(&self, id: i64) -> (r: Option<usize>)
        requires
            self.wf(),
        ensures
            match r {
                Some(k) => k < self.transactions@.len() && self.transactions@[k as int].id == id
                    && self@.has_transaction(id as int) && self@.transaction_at(id as int) == k,
                None => !self@.has_transaction(id as int),
            },
    {
        let mut i: usize = 0;
        while i < self.transactions.len()
            invariant
                self.wf(),
                i <= self.transactions@.len(),
                forall|j: int| 0 <= j < i ==> self@.transactions[j].id != id,
            decreases self.transactions@.len() - i,
        {
            if self.transactions[i].id == id {
                proof {
                    self@.lemma_transaction_at(i as int);
                }
                return Some(i);
            }
            i += 1;
        }
        None
    }

    /// A new ledger, opened at the moment `now`: the default container `Personal`, created
    /// then, and the default categories. Refused where `now` does not fit the canonical form.
    pub fn new(now: &Timestamp) -> (r: Result<Database, LedgerError>)
        ensures
            opened(*now, r),
    {
        let r = Database::open(Snapshot::empty(), now);
        proof {
            Ledger::lemma_seeding_of_nothing(now.canonical_text());
            Ledger::lemma_seeded_wf(now.canonical_text());
        }
        r
    }

    /// The ledger that stored tables make, if they make a consistent one.
    pub fn restore(snapshot: Snapshot) -> (r: Result<Database, LedgerError>)
        ensures
            match r {
                Ok(db) => snapshot@.wf() && db.wf() && db@ == snapshot@,
                Err(e) => e == LedgerError::Inconsistent && !snapshot@.wf(),
            },
    {
        if !containers_consistent(&snapshot.containers, snapshot.next_container_id) {
            return Err(LedgerError::Inconsistent);
        }
        if !categories_consistent(&snapshot.categories, snapshot.next_category_id) {
            return Err(LedgerError::Inconsistent);
        }
        if !transactions_consistent(
            &snapshot.transactions,
            &snapshot.containers,
            snapshot.next_transaction_id,
        ) {
            return Err(LedgerError::Inconsistent);
        }
        Ok(
            Database {
                containers: snapshot.containers,
                categories: snapshot.categories,
                transactions: snapshot.transactions,
                next_container_id: snapshot.next_container_id,
                next_category_id: snapshot.next_category_id,
                next_transaction_id: snapshot.next_transaction_id,
            },
        )
    }

    /// Opens a ledger from stored tables at the moment `now`: seeds the default container
    /// and the default categories where the store has none, and checks what the store holds.
    /// Opening what was opened before changes nothing.
    pub fn open(snapshot: Snapshot, now: &Timestamp) -> (r: Result<Database, LedgerError>)
        ensures
            opened_from(snapshot@, *now, r),
    {
        let ghost stored = snapshot@;
        let mut containers = snapshot.containers;
        let mut categories = snapshot.categories;
        let transactions = snapshot.transactions;
        let mut next_container_id = snapshot.next_container_id;
        let mut next_category_id = snapshot.next_category_id;
        let next_transaction_id = snapshot.next_transaction_id;
        if containers.len() == 0 {
            let created_at = match now.canonical() {
                Some(s) => s,
                None => {
                    return Err(LedgerError::InvalidDate);
                },
            };
            if next_container_id == i64::MAX {
                return Err(LedgerError::Inconsistent);
            }
            containers.push(
                Container {
                    id: next_container_id,
                    name: String::from_str("Personal"),
                    created_at,
                    is_default: true,
                },
            );
            next_container_id = next_container_id + 1;
        }
        let ghost half = stored.with_default_container(now.canonical_text());
        assert(container_rows(containers@) =~= half.containers);
        if categories.len() == 0 {
            if next_category_id > i64::MAX - 8 {
                return Err(LedgerError::Inconsistent);
            }
            categories = seed_categories(next_category_id);
            next_category_id = next_category_id + 8;
        }
        let seeded = Snapshot {
            containers,
            categories,
            transactions,
            next_container_id,
            next_category_id,
            next_transaction_id,
        };
        assert(seeded@.categories =~= half.with_default_categories().categories);
        assert(seeded@ == half.with_default_categories());
        Database::restore(seeded)
    }

    /// The tables of the ledger, to be kept in a store.
    pub fn into_snapshot(self) -> (snapshot: Snapshot)
        ensures
            snapshot@ == self@,
    {
        Snapshot {
            containers: self.containers,
            categories: self.categories,
            transactions: self.transactions,
            next_container_id: self.next_container_id,
            next_category_id: self.next_category_id,
            next_transaction_id: self.next_transaction_id,
        }
    }

    /// Puts a row into the table of transactions, under the next id.
    fn insert_row(
        &mut self,
        container_id: i64,
        amount: i64,
        description: String,
        category: String,
        date: String,
    ) -> (row: Transaction)
        requires
            old(self).wf(),
            old(self)@.insert_refusal(container_id as int, is_canonical(date@)) is None,
        ensures
            final(self).wf(),
            final(self)@ == old(self)@.with_transaction(
                amount as int,
                description@,
                category@,
                date@,
                container_id as int,
            ),
            row@ == final(self)@.transactions.last(),
    {
        let id = self.next_transaction_id;
        let row = Transaction { id, amount, description, category, date, container_id };
        let copy = row.clone();
        self.transactions.push(row);
        self.next_transaction_id = id + 1;
        proof {
            let next = old(self)@.with_transaction(
                amount as int,
                description@,
                category@,
                date@,
                container_id as int,
            );
            assert(self@.transactions =~= next.transactions);
            assert(self@.containers =~= next.containers);
            assert(self@.categories =~= next.categories);
            old(self)@.lemma_with_transaction_wf(
                amount as int,
                description@,
                category@,
                date@,
                container_id as int,
            );
        }
        copy
    }

    /// Records a transaction at the moment `now`. It is refused where its container does not
    /// exist, where `now` does not fit the canonical form, and where the ids have run out.
    pub fn add_transaction(&mut self, transaction: NewTransaction, now: &Timestamp) -> (r:
        Result<Transaction, LedgerError>)
        requires
            old(self).wf(),
        ensures
            final(self).wf(),
            transaction_added(old(self)@, transaction@, *now, r, final(self)@),
    {
        let ghost wanted = transaction@;
        let container_id = transaction.container_id;
        let amount = transaction.amount;
        let description = match transaction.description {
            Some(d) => d,
            None => String::from_str("Untitled"),
        };
        let category = match transaction.category {
            Some(c) => c,
            None => String::from_str("Other"),
        };
        assert(description@ == text_or(wanted.description, "Untitled"@));
        assert(category@ == text_or(wanted.category, "Other"@));
        if self.find_container(container_id).is_none() {
            return Err(LedgerError::UnknownContainer);
        }
        let date = match now.canonical() {
            Some(d) => d,
            None => {
                return Err(LedgerError::InvalidDate);
            },
        };
        if self.next_transaction_id == i64::MAX {
            return Err(LedgerError::Full);
        }
        let row = self.insert_row(container_id, amount, description, category, date);
        Ok(row)
    }

    /// Records a transaction of an import, with the date that the file gave it. It is refused
    /// where its container does not exist, where the date is not canonical, and where the
    /// ids have run out.
    pub fn insert_imported_transaction(
        &mut self,
        container_id: i64,
        amount: i64,
        description: String,
        category: String,
        date: String,
    ) -> (r: Result<(), LedgerError>)
        requires
            old(self).wf(),
        ensures
            final(self).wf(),
            match old(self)@.insert_refusal(container_id as int, is_canonical(date@)) {
                Some(e) => r == Err::<(), LedgerError>(e) && final(self)@ == old(self)@,
                None => r is Ok && final(self)@ == old(self)@.with_transaction(
                    amount as int,
                    description@,
                    category@,
                    date@,
                    container_id as int,
                ),
            },
    {
        if self.find_container(container_id).is_none() {
            return Err(LedgerError::UnknownContainer);
        }
        if !is_canonical_text(date.as_str()) {
            return Err(LedgerError::InvalidDate);
        }
        if self.next_transaction_id == i64::MAX {
            return Err(LedgerError::Full);
        }
        let _ = self.insert_row(container_id, amount, description, category, date);
        Ok(())
    }

    /// The transactions of a container, latest first, at most `limit` of them; a negative
    /// limit is none.
    pub fn get_transactions(&self, container_id: i64, limit: Option<i64>) -> (r: Result<
        Vec<Transaction>,
        LedgerError,
    >)
        ensures
            r is Ok,
            transaction_rows(r->Ok_0@) == limited(
                listing(self@.transactions, container_id as int, Seq::empty()),
                limit,
            ),
            is_listed(
                self@.transactions,
                container_id as int,
                Seq::empty(),
                limit,
                transaction_rows(r->Ok_0@),
            ),
    {
        proof {
            reveal_strlit("");
            lemma_transactions_listed(
                self@.transactions,
                container_id as int,
                Seq::empty(),
                limit,
            );
        }
        assert(""@ =~= Seq::<char>::empty());
        Ok(list_rows(&self.transactions, container_id, "", limit))
    }

    /// The transactions of a container whose date begins with `month`, latest first, at most
    /// `limit` of them.
    pub fn get_transactions_for_month(
        &self,
        container_id: i64,
        month: String,
        limit: Option<i64>,
    ) -> (r: Result<Vec<Transaction>, LedgerError>)
        ensures
            r is Ok,
            transaction_rows(r->Ok_0@) == limited(
                listing(self@.transactions, container_id as int, month@),
                limit,
            ),
            is_listed(
                self@.transactions,
                container_id as int,
                month@,
                limit,
                transaction_rows(r->Ok_0@),
            ),
    {
        proof {
            lemma_transactions_listed(self@.transactions, container_id as int, month@, limit);
        }
        Ok(list_rows(&self.transactions, container_id, month.as_str(), limit))
    }

    /// The transactions of a container as CSV text: a header line, then one line for each
    /// transaction, latest first, with the amount in major units to two places. Commas within
    /// a description or a category are written as they stand.
    pub fn export_transactions_csv(&self, container_id: i64) -> (r: Result<String, LedgerError>)
        ensures
            r is Ok,
            r->Ok_0@ == export_text(self@.transactions, container_id as int),
    {
        Ok(export_rows(&self.transactions, container_id))
    }

    /// Replaces amount, description and category of a transaction; its date and container
    /// stay. Refused where no transaction has the id.
    pub fn update_transaction(
        &mut self,
        id: i64,
        amount: i64,
        description: String,
        category: String,
    ) -> (r: Result<Transaction, LedgerError>)
        requires
            old(self).wf(),
        ensures
            final(self).wf(),
            if old(self)@.has_transaction(id as int) {
                &&& r is Ok
                &&& final(self)@ == old(self)@.with_transaction_changed(
                    id as int,
                    amount as int,
                    description@,
                    category@,
                )
                &&& r->Ok_0@ == final(self)@.transactions[old(self)@.transaction_at(id as int)]
            } else {
                r == Err::<Transaction, LedgerError>(LedgerError::NotFound) && final(self)@ == old(
                    self,
                )@
            },
    {
        match self.find_transaction(id) {
            None => Err(LedgerError::NotFound),
            Some(k) => {
                let current = &self.transactions[k];
                let updated = Transaction {
                    id: current.id,
                    amount,
                    description,
                    category,
                    date: current.date.clone(),
                    container_id: current.container_id,
                };
                let copy = updated.clone();
                self.transactions[k] = updated;
                proof {
                    let next = old(self)@.with_transaction_changed(
                        id as int,
                        amount as int,
                        description@,
                        category@,
                    );
                    assert(self@.transactions =~= next.transactions);
                    assert(self@.containers =~= next.containers);
                    assert(self@.categories =~= next.categories);
                    old(self)@.lemma_with_transaction_changed_wf(
                        id as int,
                        amount as int,
                        description@,
                        category@,
                    );
                }
                Ok(copy)
            },
        }
    }

    /// Deletes a transaction; where no transaction has the id, nothing happens.
    pub fn delete_transaction(&mut self, id: i64) -> (r: Result<(), LedgerError>)
        requires
            old(self).wf(),
        ensures
            final(self).wf(),
            r is Ok,
            final(self)@ == old(self)@.without_transaction(id as int),
    {
        match self.find_transaction(id) {
            None => {},
            Some(k) => {
                let _ = self.transactions.remove(k);
                proof {
                    let next = old(self)@.without_transaction(id as int);
                    assert(self@.transactions =~= next.transactions);
                    assert(self@.containers =~= next.containers);
                    assert(self@.categories =~= next.categories);
                }
            },
        }
        proof {
            old(self)@.lemma_without_transaction_wf(id as int);
        }
        Ok(())
    }

    /// The balance of a container over the month of `now`, the current moment: what
    /// `get_balance_for_month` gives for that month.
    pub fn get_monthly_balance(&self, container_id: i64, now: &Timestamp) -> (r: Result<
        i64,
        LedgerError,
    >)
        ensures
            r == self@.monthly_balance(container_id as int, *now),
            r == self@.balance(container_id as int, now.month_text()),
    {
        self.get_balance_for_month(container_id, now.month_key())
    }

    /// The balance of a container over all time: the sum of the amounts of its transactions.
    pub fn get_all_time_balance(&self, container_id: i64) -> (r: Result<i64, LedgerError>)
        ensures
            r == self@.balance(container_id as int, Seq::empty()),
    {
        proof {
            reveal_strlit("");
        }
        assert(""@ =~= Seq::<char>::empty());
        sum_amounts(&self.transactions, container_id, "", None)
    }

    /// The balance of a container over the transactions whose date begins with `month`.
    pub fn get_balance_for_month(&self, container_id: i64, month: String) -> (r: Result<
        i64,
        LedgerError,
    >)
        ensures
            r == self@.balance(container_id as int, month@),
    {
        sum_amounts(&self.transactions, container_id, month.as_str(), None)
    }

    /// The expenses of a container over all time, summed by category: only negative amounts
    /// count, and the largest expense comes first.
    pub fn get_category_totals(&self, container_id: i64) -> (r: Result<
        Vec<(String, i64)>,
        LedgerError,
    >)
        ensures
            totals_reported(self@.transactions, container_id as int, Seq::empty(), r),
            r matches Ok(v) ==> is_expense_list(
                self@.transactions,
                container_id as int,
                Seq::empty(),
                pairs(v@),
            ),
    {
        proof {
            reveal_strlit("");
            lemma_expenses_listed(self@.transactions, container_id as int, Seq::empty());
        }
        assert(""@ =~= Seq::<char>::empty());
        category_totals_of(&self.transactions, container_id, "")
    }

    /// The expenses of a container whose date begins with `month`, summed by category: only
    /// negative amounts count, and the largest expense comes first.
    pub fn get_category_totals_for_month(&self, container_id: i64, month: String) -> (r: Result<
        Vec<(String, i64)>,
        LedgerError,
    >)
        ensures
            totals_reported(self@.transactions, container_id as int, month@, r),
            r matches Ok(v) ==> is_expense_list(
                self@.transactions,
                container_id as int,
                month@,
                pairs(v@),
            ),
    {
        proof {
            lemma_expenses_listed(self@.transactions, container_id as int, month@);
        }
        category_totals_of(&self.transactions, container_id, month.as_str())
    }

    /// The names of the categories, the defaults first, each group by name.
    pub fn get_categories(&self) -> (r: Result<Vec<String>, LedgerError>)
        ensures
            r is Ok,
            texts(r->Ok_0@) == category_listing(self@.categories),
    {
        Ok(list_category_names(&self.categories))
    }

    /// Adds a category. Refused where one of that name exists.
    pub fn add_category(&mut self, name: String) -> (r: Result<(), LedgerError>)
        requires
            old(self).wf(),
        ensures
            final(self).wf(),
            match old(self)@.category_refusal(name@) {
                Some(e) => r == Err::<(), LedgerError>(e) && final(self)@ == old(self)@,
                None => r is Ok && final(self)@ == old(self)@.with_category(name@),
            },
    {
        if self.find_category(&name).is_some() {
            return Err(LedgerError::DuplicateName);
        }
        if self.next_category_id == i64::MAX {
            return Err(LedgerError::Full);
        }
        let id = self.next_category_id;
        self.categories.push(Category { id, name, is_default: false });
        self.next_category_id = id + 1;
        proof {
            let next = old(self)@.with_category(name@);
            assert(self@.categories =~= next.categories);
            assert(self@.containers =~= next.containers);
            assert(self@.transactions =~= next.transactions);
            old(self)@.lemma_with_category_wf(name@);
        }
        Ok(())
    }

    /// Deletes a category, unless it is a default: a default stays, and that is no error.
    pub fn delete_category(&mut self, name: String) -> (r: Result<(), LedgerError>)
        requires
            old(self).wf(),
        ensures
            final(self).wf(),
            r is Ok,
            final(self)@ == old(self)@.without_category(name@),
            old(self)@.has_category(name@) && old(self)@.categories[old(self)@.category_at(
                name@,
            )].is_default ==> final(self)@ == old(self)@ && category_listing(
                final(self)@.categories,
            ).contains(name@),
    {
        proof {
            if old(self)@.has_category(name@) && old(self)@.categories[old(self)@.category_at(
                name@,
            )].is_default {
                lemma_default_category_stays(old(self)@, name@);
            }
        }
        match self.find_category(&name) {
            None => {},
            Some(k) => {
                if !self.categories[k].is_default {
                    let _ = self.categories.remove(k);
                    proof {
                        let next = old(self)@.without_category(name@);
                        assert(self@.categories =~= next.categories);
                        assert(self@.containers =~= next.containers);
                        assert(self@.transactions =~= next.transactions);
                    }
                }
            },
        }
        proof {
            old(self)@.lemma_without_category_wf(name@);
        }
        Ok(())
    }

    /// The months in which a container has transactions, each once, the latest first.
    pub fn get_available_months(&self, container_id: i64) -> (r: Result<Vec<String>, LedgerError>)
        ensures
            r is Ok,
            texts(r->Ok_0@) == available_months(self@.transactions, container_id as int),
            is_month_list(self@.transactions, container_id as int, texts(r->Ok_0@)),
    {
        proof {
            lemma_months_listed(self@.transactions, container_id as int);
        }
        Ok(months_of(&self.transactions, container_id))
    }

    /// The containers, the default one first, then the oldest first.
    pub fn get_containers(&self) -> (r: Result<Vec<Container>, LedgerError>)
        ensures
            r is Ok,
            container_rows(r->Ok_0@) == container_listing(self@.containers),
            self.wf() ==> container_rows(r->Ok_0@).len() == self@.containers.len()
                && container_rows(r->Ok_0@)[0] == self@.containers[0] && container_rows(
                r->Ok_0@,
            )[0].is_default,
    {
        proof {
            if self.wf() {
                lemma_container_listing(self@);
            }
        }
        Ok(list_containers(&self.containers))
    }

    /// Creates a container at the moment `now`. Refused where one of that name exists, where
    /// `now` does not fit the canonical form, and where the ids have run out.
    pub fn add_container(&mut self, name: String, now: &Timestamp) -> (r: Result<
        Container,
        LedgerError,
    >)
        requires
            old(self).wf(),
        ensures
            final(self).wf(),
            container_added(old(self)@, name@, *now, r, final(self)@),
    {
        if self.find_container_named(&name).is_some() {
            return Err(LedgerError::DuplicateName);
        }
        let created_at = match now.canonical() {
            Some(d) => d,
            None => {
                return Err(LedgerError::InvalidDate);
            },
        };
        if self.next_container_id == i64::MAX {
            return Err(LedgerError::Full);
        }
        let id = self.next_container_id;
        let row = Container { id, name, created_at, is_default: false };
        let copy = row.clone();
        self.containers.push(row);
        self.next_container_id = id + 1;
        proof {
            let next = old(self)@.with_container(name@, now.canonical_text());
            assert(self@.containers =~= next.containers);
            assert(self@.categories =~= next.categories);
            assert(self@.transactions =~= next.transactions);
            old(self)@.lemma_with_container_wf(name@, now.canonical_text());
        }
        Ok(copy)
    }

    /// Deletes a container and with it every transaction that belongs to it. The default
    /// container is protected: deleting it is always refused.
    pub fn delete_container(&mut self, id: i64) -> (r: Result<(), LedgerError>)
        requires
            old(self).wf(),
        ensures
            final(self).wf(),
            match old(self)@.removal_refusal(id as int) {
                Some(e) => r == Err::<(), LedgerError>(e) && final(self)@ == old(self)@,
                None => r is Ok && final(self)@ == old(self)@.without_container(id as int),
            },
            id == old(self)@.containers[0].id ==> r == Err::<(), LedgerError>(
                LedgerError::ProtectedResource,
            ),
            final(self)@.containers[0] == old(self)@.containers[0],
            final(self)@.containers[0].is_default,
    {
        proof {
            lemma_default_container_protected(old(self)@);
        }
        match self.find_container(id) {
            None => Err(LedgerError::NotFound),
            Some(k) => {
                if self.containers[k].is_default {
                    return Err(LedgerError::ProtectedResource);
                }
                let kept = rows_outside(&self.transactions, id);
                let _ = self.containers.remove(k);
                self.transactions = kept;
                proof {
                    let next = old(self)@.without_container(id as int);
                    assert(self@.containers =~= next.containers);
                    assert(self@.categories =~= next.categories);
                    assert(self@.transactions =~= next.transactions);
                    old(self)@.lemma_without_container_wf(id as int);
                }
                Ok(())
            },
        }
    }

    /// Renames a container. Refused where no container has the id, and where another
    /// container has the name.
    pub fn update_container(&mut self, id: i64, name: String) -> (r: Result<Container, LedgerError>)
        requires
            old(self).wf(),
        ensures
            final(self).wf(),
            match old(self)@.rename_refusal(id as int, name@) {
                Some(e) => r == Err::<Container, LedgerError>(e) && final(self)@ == old(self)@,
                None => {
                    &&& r is Ok
                    &&& final(self)@ == old(self)@.with_container_renamed(id as int, name@)
                    &&& r->Ok_0@ == final(self)@.containers[old(self)@.container_at(id as int)]
                },
            },
    {
        match self.find_container(id) {
            None => Err(LedgerError::NotFound),
            Some(k) => {
                if self.other_container_named(id, &name) {
                    return Err(LedgerError::DuplicateName);
                }
                let current = &self.containers[k];
                let updated = Container {
                    id: current.id,
                    name,
                    created_at: current.created_at.clone(),
                    is_default: current.is_default,
                };
                let copy = updated.clone();
                self.containers[k] = updated;
                proof {
                    let next = old(self)@.with_container_renamed(id as int, name@);
                    assert(self@.containers =~= next.containers);
                    assert(self@.categories =~= next.categories);
                    assert(self@.transactions =~= next.transactions);
                    old(self)@.lemma_with_container_renamed_wf(id as int, name@);
                }
                Ok(copy)
            },
        }
    }
}

} // verus!
