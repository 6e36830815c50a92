use spent::calendar::Timestamp;
use spent::database::Database;
use spent::model::{Container, LedgerError, NewTransaction, Transaction};
use spent::schema::Snapshot;

fn at(year: i32, month: u32, day: u32, hour: u32, minute: u32, second: u32) -> Timestamp {
    Timestamp { year, month, day, hour, minute, second, nanosecond: 0 }
}

fn fresh() -> Database {
    Database::new(&at(2024, 1, 1, 9, 0, 0)).unwrap()
}

fn entry(amount: i64, container_id: i64) -> NewTransaction {
    NewTransaction { amount, description: None, category: None, container_id }
}

fn dated(db: &mut Database, container_id: i64, amount: i64, category: &str, date: &str) {
    db.insert_imported_transaction(
        container_id,
        amount,
        "item".to_string(),
        category.to_string(),
        date.to_string(),
    )
    .unwrap();
}

#[test]
fn new_ledger_has_the_default_container_and_categories() {
    let db = fresh();
    assert_eq!(
        db.get_containers().unwrap(),
        vec![Container {
            id: 1,
            name: "Personal".to_string(),
            created_at: "2024-01-01 09:00:00".to_string(),
            is_default: true,
        }]
    );
    assert_eq!(
        db.get_categories().unwrap(),
        vec![
            "Bills & Utilities",
            "Entertainment",
            "Food & Dining",
            "Healthcare",
            "Income",
            "Other",
            "Shopping",
            "Transportation",
        ]
    );
    assert_eq!(db.get_transactions(1, None).unwrap(), Vec::<Transaction>::new());
    assert_eq!(db.get_all_time_balance(1), Ok(0));
}

#[test]
fn new_ledger_is_refused_beyond_the_canonical_years() {
    assert_eq!(Database::new(&at(10000, 1, 1, 0, 0, 0)).err(), Some(LedgerError::InvalidDate));
}

#[test]
fn added_transaction_gets_defaults_and_the_next_id() {
    let mut db = fresh();
    let now = at(2024, 3, 15, 10, 20, 30);
    let first = db.add_transaction(entry(-1250, 1), &now).unwrap();
    assert_eq!(
        first,
        Transaction {
            id: 1,
            amount: -1250,
            description: "Untitled".to_string(),
            category: "Other".to_string(),
            date: "2024-03-15 10:20:30".to_string(),
            container_id: 1,
        }
    );
    let second = db
        .add_transaction(
            NewTransaction {
                amount: 5000,
                description: Some("Pay".to_string()),
                category: Some("Income".to_string()),
                container_id: 1,
            },
            &now,
        )
        .unwrap();
    assert_eq!(second.id, 2);
    assert_eq!(second.description, "Pay");
    assert_eq!(second.category, "Income");
}

#[test]
fn added_transaction_is_refused_without_its_container() {
    let mut db = fresh();
    let now = at(2024, 3, 15, 10, 20, 30);
    assert_eq!(db.add_transaction(entry(1, 7), &now), Err(LedgerError::UnknownContainer));
    assert_eq!(
        db.add_transaction(entry(1, 1), &at(12000, 1, 1, 0, 0, 0)),
        Err(LedgerError::InvalidDate)
    );
    assert_eq!(db.get_transactions(1, None).unwrap().len(), 0);
}

#[test]
fn imported_transaction_needs_a_canonical_date() {
    let mut db = fresh();
    assert_eq!(
        db.insert_imported_transaction(
            1,
            5,
            "a".to_string(),
            "b".to_string(),
            "15/03/2024".to_string()
        ),
        Err(LedgerError::InvalidDate)
    );
    assert_eq!(
        db.insert_imported_transaction(
            9,
            5,
            "a".to_string(),
            "b".to_string(),
            "2024-03-15 00:00:00".to_string()
        ),
        Err(LedgerError::UnknownContainer)
    );
}

#[test]
fn all_time_balance_follows_adds_and_deletes() {
    let mut db = fresh();
    let now = at(2024, 3, 15, 10, 20, 30);
    let other = db.add_container("Work".to_string(), &now).unwrap().id;
    assert_eq!(db.get_all_time_balance(1), Ok(0));
    let a = db.add_transaction(entry(1000, 1), &now).unwrap();
    let b = db.add_transaction(entry(-300, 1), &now).unwrap();
    let c = db.add_transaction(entry(70, other), &now).unwrap();
    assert_eq!(db.get_all_time_balance(1), Ok(700));
    assert_eq!(db.get_all_time_balance(other), Ok(70));
    db.delete_transaction(b.id).unwrap();
    assert_eq!(db.get_all_time_balance(1), Ok(1000));
    db.delete_transaction(c.id).unwrap();
    assert_eq!(db.get_all_time_balance(other), Ok(0));
    db.delete_transaction(a.id).unwrap();
    assert_eq!(db.get_all_time_balance(1), Ok(0));
    let d = db.add_transaction(entry(5, 1), &now).unwrap();
    assert_eq!(d.id, 4);
    assert_eq!(db.get_all_time_balance(1), Ok(5));
}

#[test]
fn deleting_a_transaction_that_does_not_exist_is_no_error() {
    let mut db = fresh();
    db.add_transaction(entry(10, 1), &at(2024, 3, 1, 0, 0, 0)).unwrap();
    assert_eq!(db.delete_transaction(99), Ok(()));
    assert_eq!(db.delete_transaction(1), Ok(()));
    assert_eq!(db.delete_transaction(1), Ok(()));
    assert_eq!(db.get_transactions(1, None).unwrap().len(), 0);
}

#[test]
fn balance_that_does_not_fit_is_an_overflow() {
    let mut db = fresh();
    let now = at(2024, 3, 15, 10, 20, 30);
    db.add_transaction(entry(i64::MAX, 1), &now).unwrap();
    assert_eq!(db.get_all_time_balance(1), Ok(i64::MAX));
    db.add_transaction(entry(1, 1), &now).unwrap();
    assert_eq!(db.get_all_time_balance(1), Err(LedgerError::Overflow));
    db.add_transaction(entry(-2, 1), &now).unwrap();
    assert_eq!(db.get_all_time_balance(1), Ok(i64::MAX - 1));
}

#[test]
fn monthly_balance_is_the_balance_of_the_current_month() {
    let mut db = fresh();
    dated(&mut db, 1, 100, "Income", "2024-03-01 08:00:00");
    dated(&mut db, 1, -40, "Food", "2024-03-31 23:59:59");
    dated(&mut db, 1, -7, "Food", "2024-02-29 12:00:00");
    dated(&mut db, 1, 9, "Income", "2023-03-15 12:00:00");
    let now = at(2024, 3, 20, 12, 0, 0);
    assert_eq!(db.get_monthly_balance(1, &now), Ok(60));
    assert_eq!(db.get_monthly_balance(1, &now), db.get_balance_for_month(1, "2024-03".to_string()));
    assert_eq!(db.get_balance_for_month(1, "2024-02".to_string()), Ok(-7));
    assert_eq!(db.get_balance_for_month(1, "2024".to_string()), Ok(53));
    assert_eq!(db.get_balance_for_month(1, "2025-01".to_string()), Ok(0));
    assert_eq!(db.get_all_time_balance(1), Ok(62));
    assert_eq!(db.get_monthly_balance(1, &at(10000, 1, 1, 0, 0, 0)), Ok(0));
    assert_eq!(db.get_monthly_balance(1, &at(-2024, 3, 1, 0, 0, 0)), Ok(0));
    assert_eq!(db.get_monthly_balance(1, &at(2024, 2, 1, 0, 0, 0)), Ok(-7));
}

#[test]
fn transactions_are_listed_latest_first() {
    let mut db = fresh();
    dated(&mut db, 1, 1, "a", "2024-03-10 08:00:00");
    dated(&mut db, 1, 2, "b", "2024-03-12 08:00:00");
    dated(&mut db, 1, 3, "c", "2024-02-01 08:00:00");
    dated(&mut db, 1, 4, "d", "2024-03-12 08:00:00");
    dated(&mut db, 1, 5, "e", "2024-03-12 09:00:00");
    let ids = |rows: Vec<Transaction>| rows.iter().map(|t| t.id).collect::<Vec<i64>>();
    assert_eq!(ids(db.get_transactions(1, None).unwrap()), vec![5, 2, 4, 1, 3]);
    assert_eq!(ids(db.get_transactions(1, Some(2)).unwrap()), vec![5, 2]);
    assert_eq!(ids(db.get_transactions(1, Some(0)).unwrap()), Vec::<i64>::new());
    assert_eq!(ids(db.get_transactions(1, Some(50)).unwrap()), vec![5, 2, 4, 1, 3]);
    assert_eq!(ids(db.get_transactions(1, Some(-1)).unwrap()), vec![5, 2, 4, 1, 3]);
    assert_eq!(ids(db.get_transactions(2, None).unwrap()), Vec::<i64>::new());
    assert_eq!(
        ids(db.get_transactions_for_month(1, "2024-03".to_string(), None).unwrap()),
        vec![5, 2, 4, 1]
    );
    assert_eq!(
        ids(db.get_transactions_for_month(1, "2024-03".to_string(), Some(3)).unwrap()),
        vec![5, 2, 4]
    );
    assert_eq!(
        ids(db.get_transactions_for_month(1, "2024-02".to_string(), None).unwrap()),
        vec![3]
    );
    assert_eq!(
        ids(db.get_transactions_for_month(1, "2024-04".to_string(), None).unwrap()),
        Vec::<i64>::new()
    );
}

#[test]
fn updated_transaction_keeps_its_date_and_container() {
    let mut db = fresh();
    dated(&mut db, 1, -500, "Food", "2024-03-10 08:00:00");
    let changed = db
        .update_transaction(1, -750, "Dinner".to_string(), "Food & Dining".to_string())
        .unwrap();
    assert_eq!(
        changed,
        Transaction {
            id: 1,
            amount: -750,
            description: "Dinner".to_string(),
            category: "Food & Dining".to_string(),
            date: "2024-03-10 08:00:00".to_string(),
            container_id: 1,
        }
    );
    assert_eq!(db.get_transactions(1, None).unwrap(), vec![changed]);
    assert_eq!(
        db.update_transaction(2, 1, "x".to_string(), "y".to_string()),
        Err(LedgerError::NotFound)
    );
}

#[test]
fn default_container_is_never_deleted() {
    let mut db = fresh();
    assert_eq!(db.delete_container(1), Err(LedgerError::ProtectedResource));
    db.add_container("Work".to_string(), &at(2024, 2, 1, 0, 0, 0)).unwrap();
    assert_eq!(db.delete_container(1), Err(LedgerError::ProtectedResource));
    assert_eq!(db.get_containers().unwrap().len(), 2);
    assert_eq!(db.get_containers().unwrap()[0].id, 1);
}

#[test]
fn deleting_a_container_takes_its_transactions_along() {
    let mut db = fresh();
    let work = db.add_container("Work".to_string(), &at(2024, 2, 1, 0, 0, 0)).unwrap();
    assert_eq!(work.id, 2);
    assert!(!work.is_default);
    dated(&mut db, 1, 10, "a", "2024-03-10 08:00:00");
    dated(&mut db, 2, 20, "b", "2024-03-11 08:00:00");
    dated(&mut db, 2, 30, "c", "2024-03-12 08:00:00");
    dated(&mut db, 1, 40, "d", "2024-03-13 08:00:00");
    assert_eq!(db.delete_container(5), Err(LedgerError::NotFound));
    assert_eq!(db.delete_container(2), Ok(()));
    assert_eq!(db.get_containers().unwrap().len(), 1);
    assert_eq!(db.get_all_time_balance(2), Ok(0));
    assert_eq!(db.get_all_time_balance(1), Ok(50));
    assert_eq!(db.get_transactions(2, None).unwrap().len(), 0);
    assert_eq!(db.delete_container(2), Err(LedgerError::NotFound));
    assert_eq!(
        db.insert_imported_transaction(
            2,
            1,
            "x".to_string(),
            "y".to_string(),
            "2024-03-14 08:00:00".to_string()
        ),
        Err(LedgerError::UnknownContainer)
    );
    let again = db.add_container("Work".to_string(), &at(2024, 2, 2, 0, 0, 0)).unwrap();
    assert_eq!(again.id, 3);
}

#[test]
fn container_names_are_unique() {
    let mut db = fresh();
    let now = at(2024, 2, 1, 0, 0, 0);
    assert_eq!(db.add_container("Personal".to_string(), &now), Err(LedgerError::DuplicateName));
    db.add_container("Work".to_string(), &now).unwrap();
    assert_eq!(db.add_container("Work".to_string(), &now), Err(LedgerError::DuplicateName));
    assert_eq!(db.update_container(2, "Personal".to_string()), Err(LedgerError::DuplicateName));
    assert_eq!(db.update_container(9, "Else".to_string()), Err(LedgerError::NotFound));
    assert_eq!(db.update_container(9, "Work".to_string()), Err(LedgerError::NotFound));
    let same = db.update_container(2, "Work".to_string()).unwrap();
    assert_eq!(same.name, "Work");
    let renamed = db.update_container(2, "Office".to_string()).unwrap();
    assert_eq!(
        renamed,
        Container {
            id: 2,
            name: "Office".to_string(),
            created_at: "2024-02-01 00:00:00".to_string(),
            is_default: false,
        }
    );
    let home = db.update_container(1, "Home".to_string()).unwrap();
    assert!(home.is_default);
    assert_eq!(db.add_container("Work".to_string(), &now).unwrap().id, 3);
}

#[test]
fn containers_are_listed_default_first_then_oldest_first() {
    let mut db = Database::new(&at(2024, 6, 1, 0, 0, 0)).unwrap();
    db.add_container("C".to_string(), &at(2024, 3, 1, 0, 0, 0)).unwrap();
    db.add_container("B".to_string(), &at(2024, 1, 1, 0, 0, 0)).unwrap();
    db.add_container("A".to_string(), &at(2024, 3, 1, 0, 0, 0)).unwrap();
    let names: Vec<String> = db.get_containers().unwrap().into_iter().map(|c| c.name).collect();
    assert_eq!(names, vec!["Personal", "B", "C", "A"]);
}

#[test]
fn default_categories_are_never_deleted() {
    let mut db = fresh();
    assert_eq!(db.delete_category("Food & Dining".to_string()), Ok(()));
    assert!(db.get_categories().unwrap().contains(&"Food & Dining".to_string()));
    assert_eq!(db.get_categories().unwrap().len(), 8);
}

#[test]
fn categories_are_added_deleted_and_listed_defaults_first() {
    let mut db = fresh();
    assert_eq!(db.add_category("Zoo".to_string()), Ok(()));
    assert_eq!(db.add_category("Art".to_string()), Ok(()));
    assert_eq!(db.add_category("Art".to_string()), Err(LedgerError::DuplicateName));
    assert_eq!(db.add_category("Other".to_string()), Err(LedgerError::DuplicateName));
    assert_eq!(
        db.get_categories().unwrap(),
        vec![
            "Bills & Utilities",
            "Entertainment",
            "Food & Dining",
            "Healthcare",
            "Income",
            "Other",
            "Shopping",
            "Transportation",
            "Art",
            "Zoo",
        ]
    );
    assert_eq!(db.delete_category("Zoo".to_string()), Ok(()));
    assert_eq!(db.delete_category("Nothing".to_string()), Ok(()));
    assert_eq!(db.get_categories().unwrap().len(), 9);
    assert!(!db.get_categories().unwrap().contains(&"Zoo".to_string()));
    assert_eq!(db.add_category("Zoo".to_string()), Ok(()));
}

#[test]
fn category_totals_hold_expenses_only() {
    let mut db = fresh();
    dated(&mut db, 1, -1000, "Food", "2024-03-01 08:00:00");
    dated(&mut db, 1, -500, "Food", "2024-03-02 08:00:00");
    dated(&mut db, 1, -2000, "Rent", "2024-03-03 08:00:00");
    dated(&mut db, 1, 500, "Income", "2024-03-04 08:00:00");
    dated(&mut db, 1, 500, "Food", "2024-03-05 08:00:00");
    dated(&mut db, 1, 0, "Zero", "2024-03-05 09:00:00");
    dated(&mut db, 1, -300, "Food", "2024-02-05 08:00:00");
    let march = db.get_category_totals_for_month(1, "2024-03".to_string()).unwrap();
    assert_eq!(march, vec![("Rent".to_string(), -2000), ("Food".to_string(), -1500)]);
    assert!(march.iter().all(|(name, _)| name != "Income" && name != "Zero"));
    assert_eq!(
        db.get_category_totals_for_month(1, "2024-02".to_string()),
        Ok(vec![("Food".to_string(), -300)])
    );
    assert_eq!(db.get_category_totals_for_month(1, "2024-01".to_string()), Ok(vec![]));
    assert_eq!(db.get_category_totals_for_month(2, "2024-03".to_string()), Ok(vec![]));
}

#[test]
fn category_totals_over_all_time_take_every_month() {
    let mut db = fresh();
    db.add_container("Work".to_string(), &at(2024, 2, 1, 0, 0, 0)).unwrap();
    dated(&mut db, 1, -1000, "Food", "2024-03-01 08:00:00");
    dated(&mut db, 1, -300, "Food", "2024-02-05 08:00:00");
    dated(&mut db, 1, -2000, "Rent", "2023-11-03 08:00:00");
    dated(&mut db, 1, -50, "Gifts", "1999-12-24 18:00:00");
    dated(&mut db, 1, 500, "Income", "2024-03-04 08:00:00");
    dated(&mut db, 1, 700, "Food", "2024-03-05 08:00:00");
    dated(&mut db, 2, -9, "Food", "2024-03-05 08:00:00");
    assert_eq!(
        db.get_category_totals(1),
        Ok(vec![
            ("Rent".to_string(), -2000),
            ("Food".to_string(), -1300),
            ("Gifts".to_string(), -50),
        ])
    );
    assert_eq!(db.get_category_totals(2), Ok(vec![("Food".to_string(), -9)]));
    assert_eq!(db.get_category_totals(3), Ok(vec![]));
    dated(&mut db, 1, i64::MIN, "Rent", "2024-03-06 08:00:00");
    assert_eq!(db.get_category_totals(1), Err(LedgerError::Overflow));
}

#[test]
fn category_totals_of_equal_size_come_by_name() {
    let mut db = fresh();
    dated(&mut db, 1, -100, "b", "2024-03-01 08:00:00");
    dated(&mut db, 1, -100, "a", "2024-03-02 08:00:00");
    dated(&mut db, 1, -100, "c", "2024-03-03 08:00:00");
    assert_eq!(
        db.get_category_totals_for_month(1, "2024-03".to_string()),
        Ok(vec![("a".to_string(), -100), ("b".to_string(), -100), ("c".to_string(), -100)])
    );
}

#[test]
fn category_total_that_does_not_fit_is_an_overflow() {
    let mut db = fresh();
    dated(&mut db, 1, i64::MIN, "Big", "2024-03-01 08:00:00");
    dated(&mut db, 1, -1, "Big", "2024-03-02 08:00:00");
    assert_eq!(
        db.get_category_totals_for_month(1, "2024-03".to_string()),
        Err(LedgerError::Overflow)
    );
}

#[test]
fn available_months_come_once_each_latest_first() {
    let mut db = fresh();
    db.add_container("Work".to_string(), &at(2024, 2, 1, 0, 0, 0)).unwrap();
    dated(&mut db, 1, 1, "a", "2024-01-10 08:00:00");
    dated(&mut db, 1, 1, "a", "2024-03-10 08:00:00");
    dated(&mut db, 1, 1, "a", "2023-12-31 23:59:59");
    dated(&mut db, 1, 1, "a", "2024-03-11 08:00:00");
    dated(&mut db, 1, 1, "a", "2024-01-01 00:00:00");
    dated(&mut db, 2, 1, "a", "2022-05-01 00:00:00");
    assert_eq!(db.get_available_months(1), Ok(vec![
        "2024-03".to_string(),
        "2024-01".to_string(),
        "2023-12".to_string(),
    ]));
    assert_eq!(db.get_available_months(2), Ok(vec!["2022-05".to_string()]));
    assert_eq!(db.get_available_months(3), Ok(vec![]));
}

#[test]
fn export_has_a_header_and_a_line_for_each_transaction() {
    let mut db = fresh();
    assert_eq!(
        db.export_transactions_csv(1),
        Ok("ID,Amount,Description,Category,Date\n".to_string())
    );
    db.insert_imported_transaction(
        1,
        -1250,
        "Coffee".to_string(),
        "Food".to_string(),
        "2024-03-15 00:00:00".to_string(),
    )
    .unwrap();
    db.insert_imported_transaction(
        1,
        500000,
        "Pay, March".to_string(),
        "Income".to_string(),
        "2024-03-31 18:00:00".to_string(),
    )
    .unwrap();
    db.insert_imported_transaction(
        1,
        -5,
        "Gum".to_string(),
        "Food".to_string(),
        "2024-01-02 03:04:05".to_string(),
    )
    .unwrap();
    assert_eq!(
        db.export_transactions_csv(1).unwrap(),
        "ID,Amount,Description,Category,Date\n\
         2,5000.00,Pay, March,Income,2024-03-31 18:00:00\n\
         1,-12.50,Coffee,Food,2024-03-15 00:00:00\n\
         3,-0.05,Gum,Food,2024-01-02 03:04:05\n"
    );
}

#[test]
fn export_read_back_gives_the_same_amounts_and_dates() {
    let mut db = fresh();
    let target = db.add_container("Copy".to_string(), &at(2024, 2, 1, 0, 0, 0)).unwrap().id;
    dated(&mut db, 1, -1250, "Food", "2024-03-15 10:20:30");
    dated(&mut db, 1, 500000, "Income", "2024-03-31 18:00:00");
    dated(&mut db, 1, -5, "Food", "2023-01-02 03:04:05");
    dated(&mut db, 1, 0, "None", "1999-12-31 23:59:59");
    let text = db.export_transactions_csv(1).unwrap();
    let tally = db.import_transactions_from_csv(text, target, 1, 2, 3, 4, true).unwrap();
    assert_eq!(tally.success_count, 4);
    assert_eq!(tally.error_count, 0);
    let shape = |rows: Vec<Transaction>| {
        rows.into_iter().map(|t| (t.amount, t.category, t.date)).collect::<Vec<_>>()
    };
    assert_eq!(
        shape(db.get_transactions(target, None).unwrap()),
        shape(db.get_transactions(1, None).unwrap())
    );
}

#[test]
fn error_messages() {
    assert_eq!(LedgerError::ProtectedResource.message(), "Cannot delete default container");
    assert_eq!(LedgerError::DuplicateName.message(), "UNIQUE constraint failed");
    assert_eq!(LedgerError::NotFound.message(), "Query returned no rows");
    assert_eq!(LedgerError::UnknownContainer.message(), "FOREIGN KEY constraint failed");
    assert_eq!(LedgerError::InvalidDate.message(), "Timestamp is not in canonical form");
    assert_eq!(LedgerError::Overflow.message(), "integer overflow");
    assert_eq!(LedgerError::Full.message(), "database or disk is full");
    assert_eq!(LedgerError::Inconsistent.message(), "database disk image is malformed");
}

#[test]
fn ledger_is_restored_from_its_tables() {
    let mut db = fresh();
    db.add_container("Work".to_string(), &at(2024, 2, 1, 0, 0, 0)).unwrap();
    db.add_category("Pets".to_string()).unwrap();
    dated(&mut db, 2, -700, "Pets", "2024-03-10 08:00:00");
    dated(&mut db, 1, 100, "Income", "2024-03-11 08:00:00");
    db.delete_transaction(2).unwrap();
    let tables = db.into_snapshot();
    assert_eq!(tables.next_container_id, 3);
    assert_eq!(tables.next_category_id, 10);
    assert_eq!(tables.next_transaction_id, 3);
    assert_eq!(tables.transactions.len(), 1);
    let mut again = Database::restore(tables).unwrap();
    assert_eq!(again.get_all_time_balance(2), Ok(-700));
    assert_eq!(again.get_categories().unwrap().len(), 9);
    let next = again.add_transaction(entry(1, 1), &at(2024, 4, 1, 0, 0, 0)).unwrap();
    assert_eq!(next.id, 3);
}

#[test]
fn tables_that_make_no_ledger_are_refused() {
    let broken = |change: fn(&mut Snapshot)| {
        let mut tables = fresh().into_snapshot();
        change(&mut tables);
        Database::restore(tables).err()
    };
    assert_eq!(broken(|_| {}), None);
    assert_eq!(broken(|t| t.containers.clear()), Some(LedgerError::Inconsistent));
    assert_eq!(broken(|t| t.containers[0].is_default = false), Some(LedgerError::Inconsistent));
    assert_eq!(broken(|t| t.next_container_id = 1), Some(LedgerError::Inconsistent));
    assert_eq!(
        broken(|t| t.categories[3].name = "Other".to_string()),
        Some(LedgerError::Inconsistent)
    );
    assert_eq!(broken(|t| t.categories.swap(0, 1)), Some(LedgerError::Inconsistent));
    assert_eq!(
        broken(|t| t.transactions.push(Transaction {
            id: 1,
            amount: 1,
            description: "a".to_string(),
            category: "b".to_string(),
            date: "2024-03-10 08:00:00".to_string(),
            container_id: 4,
        })),
        Some(LedgerError::Inconsistent)
    );
    assert_eq!(
        broken(|t| {
            t.next_transaction_id = 2;
            t.transactions.push(Transaction {
                id: 1,
                amount: 1,
                description: "a".to_string(),
                category: "b".to_string(),
                date: "10 March".to_string(),
                container_id: 1,
            })
        }),
        Some(LedgerError::Inconsistent)
    );
    assert_eq!(
        broken(|t| {
            t.next_transaction_id = 2;
            t.transactions.push(Transaction {
                id: 1,
                amount: 1,
                description: "a".to_string(),
                category: "b".to_string(),
                date: "2024-03-10 08:00:00".to_string(),
                container_id: 1,
            })
        }),
        None
    );
}

#[test]
fn opening_an_empty_store_seeds_it_and_opening_again_changes_nothing() {
    let now = at(2024, 1, 1, 9, 0, 0);
    let opened = Database::open(Snapshot::empty(), &now).unwrap();
    let tables = opened.into_snapshot();
    assert_eq!(tables, fresh().into_snapshot());
    let later = at(2025, 6, 7, 8, 9, 10);
    let reopened = Database::open(fresh().into_snapshot(), &later).unwrap();
    assert_eq!(reopened.into_snapshot(), tables);
    assert_eq!(
        Database::open(Snapshot::empty(), &at(10000, 1, 1, 0, 0, 0)).err(),
        Some(LedgerError::InvalidDate)
    );
}

#[test]
fn opening_a_store_without_categories_seeds_them_after_the_last_id() {
    let mut tables = fresh().into_snapshot();
    tables.categories.clear();
    let db = Database::open(tables, &at(2025, 1, 1, 0, 0, 0)).unwrap();
    let tables = db.into_snapshot();
    assert_eq!(tables.categories.len(), 8);
    assert_eq!(tables.categories[0].id, 9);
    assert_eq!(tables.categories[7].id, 16);
    assert_eq!(tables.next_category_id, 17);
    assert_eq!(tables.containers[0].created_at, "2024-01-01 09:00:00");
}

#[test]
fn table_that_has_handed_out_its_last_id_is_full() {
    let now = at(2024, 3, 15, 10, 20, 30);
    let mut tables = fresh().into_snapshot();
    tables.next_transaction_id = i64::MAX;
    tables.next_category_id = i64::MAX;
    tables.next_container_id = i64::MAX;
    let mut db = Database::restore(tables).unwrap();
    assert_eq!(db.add_transaction(entry(1, 1), &now), Err(LedgerError::Full));
    assert_eq!(
        db.insert_imported_transaction(
            1,
            1,
            "a".to_string(),
            "b".to_string(),
            "2024-03-10 08:00:00".to_string()
        ),
        Err(LedgerError::Full)
    );
    assert_eq!(db.add_category("Pets".to_string()), Err(LedgerError::Full));
    assert_eq!(db.add_container("Work".to_string(), &now), Err(LedgerError::Full));
    let result = db
        .import_transactions_from_csv("2024-03-15,1,a,b".to_string(), 1, 1, 2, 3, 0, false)
        .unwrap();
    assert_eq!(
        result.errors,
        vec!["Row 1: Failed to insert - database or disk is full".to_string()]
    );
    let mut tables = fresh().into_snapshot();
    tables.next_transaction_id = i64::MAX - 1;
    let mut db = Database::restore(tables).unwrap();
    assert_eq!(db.add_transaction(entry(1, 1), &now).unwrap().id, i64::MAX - 1);
    assert_eq!(db.add_transaction(entry(1, 1), &now), Err(LedgerError::Full));
}
