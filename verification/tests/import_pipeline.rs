use spent::calendar::Timestamp;
use spent::database::Database;
use spent::model::{ImportResult, ImportedTransaction};

fn noon() -> Timestamp {
    Timestamp { year: 2024, month: 3, day: 20, hour: 12, minute: 0, second: 0, nanosecond: 0 }
}

fn fresh() -> Database {
    Database::new(&noon()).unwrap()
}

fn fields(values: &[&str]) -> Vec<String> {
    values.iter().map(|v| v.to_string()).collect()
}

#[test]
fn import_single_row_with_currency_symbol() {
    let mut db = fresh();
    let result = db
        .import_transactions_from_csv(
            "2024-03-15,$12.50,Coffee,Food".to_string(),
            1,
            1,
            2,
            3,
            0,
            false,
        )
        .unwrap();
    assert_eq!(result.success_count, 1);
    assert_eq!(result.error_count, 0);
    assert!(result.errors.is_empty());
    let rows = db.get_transactions(1, None).unwrap();
    assert_eq!(rows.len(), 1);
    assert_eq!(rows[0].amount, 1250);
    assert_eq!(rows[0].date, "2024-03-15 00:00:00");
    assert_eq!(rows[0].description, "Coffee");
    assert_eq!(rows[0].category, "Food");
    assert_eq!(rows[0].container_id, 1);
}

#[test]
fn import_keeps_valid_rows_when_one_amount_is_bad() {
    let mut db = fresh();
    let csv = "2024-03-15,12.50,Coffee,Food\n2024-03-16,-4.20,Bus,Transportation\n2024-03-17,abc,Broken,Other\n2024-03-18,100,Salary,Income\n";
    let result = db
        .import_transactions_from_csv(csv.to_string(), 1, 1, 2, 3, 0, false)
        .unwrap();
    assert_eq!(result.success_count, 3);
    assert_eq!(result.error_count, 1);
    assert_eq!(
        result.errors,
        vec!["Row 3: Invalid amount 'abc' - Cannot parse as number".to_string()]
    );
    let rows = db.get_transactions(1, None).unwrap();
    assert_eq!(rows.len(), 3);
    assert_eq!(db.get_all_time_balance(1), Ok(1250 - 420 + 10000));
}

#[test]
fn import_skips_the_header_and_numbers_rows_as_a_spreadsheet_does() {
    let mut db = fresh();
    let csv = "Date,Amount,What,Kind\n03/15/2024,$1.00,Tea,Food\n2024-03-16,oops,Bus,Travel\nnever,2.00,Bus,Travel\n";
    let result = db
        .import_transactions_from_csv(csv.to_string(), 1, 1, 2, 3, 0, true)
        .unwrap();
    assert_eq!(
        result,
        ImportResult {
            success_count: 1,
            error_count: 2,
            errors: vec![
                "Row 3: Invalid amount 'oops' - Cannot parse as number".to_string(),
                "Row 4: Invalid date 'never' - Unsupported date format".to_string(),
            ],
        }
    );
    assert_eq!(db.get_transactions(1, None).unwrap()[0].date, "2024-03-15 00:00:00");
}

#[test]
fn import_without_header_takes_the_first_record_as_a_row() {
    let mut db = fresh();
    let csv = "Date,Amount,What,Kind\n2024-03-15,1.00,Tea,Food\n";
    let result = db
        .import_transactions_from_csv(csv.to_string(), 1, 1, 2, 3, 0, false)
        .unwrap();
    assert_eq!(result.success_count, 1);
    assert_eq!(
        result.errors,
        vec!["Row 1: Invalid amount 'Amount' - Cannot parse as number".to_string()]
    );
}

#[test]
fn import_trims_fields_and_fills_missing_columns() {
    let mut db = fresh();
    let csv = " 2024-03-15 ,  7 ,  Tea  \n";
    let result = db
        .import_transactions_from_csv(csv.to_string(), 1, 1, 2, 9, 0, false)
        .unwrap();
    assert_eq!(result.success_count, 1);
    let rows = db.get_transactions(1, None).unwrap();
    assert_eq!(rows[0].amount, 700);
    assert_eq!(rows[0].description, "Tea");
    assert_eq!(rows[0].category, "Other");
    let result = db
        .import_transactions_from_csv("2024-03-16,8".to_string(), 1, 1, 5, 6, 0, false)
        .unwrap();
    assert_eq!(result.success_count, 1);
    let rows = db.get_transactions(1, None).unwrap();
    assert_eq!(rows[0].description, "Imported");
    assert_eq!(rows[0].category, "Other");
    let result = db
        .import_transactions_from_csv("2024-03-16,8".to_string(), 1, 7, 5, 6, 0, false)
        .unwrap();
    assert_eq!(result.errors, vec!["Row 1: Invalid amount '' - Cannot parse as number".to_string()]);
    let result = db
        .import_transactions_from_csv("2024-03-16,8".to_string(), 1, 1, 5, 6, 7, false)
        .unwrap();
    assert_eq!(result.errors, vec!["Row 1: Invalid date '' - Unsupported date format".to_string()]);
}

#[test]
fn import_notes_a_malformed_record_and_goes_on() {
    let mut db = fresh();
    let csv = "2024-03-15,1,a,b\n2024-03-16,2\n2024-03-17,3,c,d\n";
    let result = db
        .import_transactions_from_csv(csv.to_string(), 1, 1, 2, 3, 0, false)
        .unwrap();
    assert_eq!(result.success_count, 2);
    assert_eq!(result.error_count, 1);
    assert_eq!(result.errors.len(), 1);
    assert!(result.errors[0].starts_with("Row 2: Failed to parse CSV - CSV error:"));
    assert!(result.errors[0]
        .ends_with("found record with 2 fields, but the previous record has 4 fields"));
    assert_eq!(db.get_all_time_balance(1), Ok(400));
}

#[test]
fn import_into_a_container_that_does_not_exist_fails_row_by_row() {
    let mut db = fresh();
    let csv = "2024-03-15,1,a,b\n2024-03-16,2,c,d\n";
    let result = db
        .import_transactions_from_csv(csv.to_string(), 5, 1, 2, 3, 0, false)
        .unwrap();
    assert_eq!(
        result,
        ImportResult {
            success_count: 0,
            error_count: 2,
            errors: vec![
                "Row 1: Failed to insert - FOREIGN KEY constraint failed".to_string(),
                "Row 2: Failed to insert - FOREIGN KEY constraint failed".to_string(),
            ],
        }
    );
}

#[test]
fn import_of_nothing_counts_nothing() {
    let mut db = fresh();
    for text in ["", "Date,Amount\n"] {
        let result = db
            .import_transactions_from_csv(text.to_string(), 1, 1, 2, 3, 0, true)
            .unwrap();
        assert_eq!(result, ImportResult { success_count: 0, error_count: 0, errors: vec![] });
    }
}

#[test]
fn import_reads_quoted_fields() {
    let mut db = fresh();
    let csv = "2024-03-15,\"1,234.50\",\"Rent, March\",Housing\n";
    let result = db
        .import_transactions_from_csv(csv.to_string(), 1, 1, 2, 3, 0, false)
        .unwrap();
    assert_eq!(result.success_count, 1);
    let rows = db.get_transactions(1, None).unwrap();
    assert_eq!(rows[0].amount, 123450);
    assert_eq!(rows[0].description, "Rent, March");
}

#[test]
fn columns_are_taken_out_of_a_record() {
    let row = Database::extract_columns(&fields(&[" 1.5 ", "x", " 2024-01-02"]), 0, 1, 7, 2);
    assert_eq!(
        row,
        ImportedTransaction {
            amount: "1.5".to_string(),
            description: "x".to_string(),
            category: "Other".to_string(),
            date: "2024-01-02".to_string(),
        }
    );
}

#[test]
fn row_goes_in_or_says_why_not() {
    let mut db = fresh();
    let row = |amount: &str, date: &str| ImportedTransaction {
        amount: amount.to_string(),
        description: "d".to_string(),
        category: "c".to_string(),
        date: date.to_string(),
    };
    assert_eq!(db.import_row(1, row("1.50", "2024-01-02"), 12), Ok(()));
    assert_eq!(
        db.import_row(1, row("x", "2024-01-02"), 12),
        Err("Row 12: Invalid amount 'x' - Cannot parse as number".to_string())
    );
    assert_eq!(
        db.import_row(1, row("1", "soon"), 340282366920938463463374607431768211455),
        Err("Row 340282366920938463463374607431768211455: Invalid date 'soon' - Unsupported date format".to_string())
    );
    assert_eq!(
        db.import_row(3, row("1", "2024-01-02"), 1),
        Err("Row 1: Failed to insert - FOREIGN KEY constraint failed".to_string())
    );
    assert_eq!(db.get_all_time_balance(1), Ok(150));
}

#[test]
fn records_are_imported_one_by_one() {
    let mut db = fresh();
    let records = vec![
        Ok(fields(&["2024-03-15", "1"])),
        Err("broken".to_string()),
        Ok(fields(&["2024-03-16", "2"])),
    ];
    let result = db.import_records(records, 1, 1, 5, 5, 0, true);
    assert_eq!(
        result,
        ImportResult {
            success_count: 2,
            error_count: 1,
            errors: vec!["Row 3: Failed to parse CSV - broken".to_string()],
        }
    );
    assert_eq!(db.get_all_time_balance(1), Ok(300));
}
