use schema_diff::diff::{compare, DiffStatus};
use schema_diff::{ColInfo, DBInfo, TableInfo};

fn col(name: &str, ty: &str) -> ColInfo {
    ColInfo { col_name: name.to_string(), col_type: ty.to_string(), is_nullable: true }
}

fn table(name: &str, cols: Vec<ColInfo>) -> TableInfo {
    TableInfo { table_name: name.to_string(), col_infos: cols }
}

fn db(name: &str, tables: Vec<TableInfo>) -> DBInfo {
    DBInfo { db_name: name.to_string(), table_infos: tables }
}

#[test]
fn self_diff_yields_only_success_rows() {
    let s = db(
        "shop",
        vec![
            table("orders", vec![col("id", "int"), col("amt", "decimal")]),
            table("users", vec![col("id", "int")]),
        ],
    );
    let (rows, alters) = compare(&s, &s, true);
    assert_eq!(rows.len(), 3);
    for r in &rows {
        assert_eq!(r.status, DiffStatus::Success);
        assert_eq!(r.message, "");
    }
    assert!(alters.is_empty());
}

#[test]
fn case_insensitive_table_and_column_identity() {
    let baseline = db("shop", vec![table("Users", vec![col("Id", "int")])]);
    let current = db("shop", vec![table("users", vec![col("id", "int")])]);
    let (rows, alters) = compare(&baseline, &current, true);
    assert_eq!(rows.len(), 1);
    assert_eq!(rows[0].status, DiffStatus::Success);
    assert_eq!(rows[0].message, "");
    // Display casing comes from the current snapshot when both sides exist.
    assert_eq!(rows[0].table, "users");
    assert_eq!(rows[0].column, "id");
    assert!(alters.is_empty());
}

#[test]
fn column_coverage_counts_the_union_once() {
    let baseline = db("d", vec![table("t", vec![col("a", "int"), col("b", "int")])]);
    let current = db("d", vec![table("t", vec![col("b", "int"), col("c", "int")])]);
    let (rows, _) = compare(&baseline, &current, false);
    // Union of {a, b} and {b, c} has three keys: each classified exactly once.
    assert_eq!(rows.len(), 3);
}

#[test]
fn mismatch_added_and_success_rows() {
    let baseline = db("shop", vec![table("orders", vec![col("id", "int"), col("amt", "decimal")])]);
    let current = db(
        "shop",
        vec![table("orders", vec![col("id", "int"), col("amt", "varchar(10)"), col("note", "text")])],
    );
    let (rows, alters) = compare(&baseline, &current, true);
    assert_eq!(rows.len(), 3);
    assert_eq!(rows[0].database, "shop");
    assert_eq!(rows[0].table, "orders");
    assert_eq!(rows[0].column, "id");
    assert_eq!(rows[0].status, DiffStatus::Success);
    assert_eq!(rows[0].message, "");
    assert_eq!(rows[1].column, "amt");
    assert_eq!(rows[1].status, DiffStatus::Failure);
    assert_eq!(rows[1].message, "column definition mismatch: decimal --> varchar(10)");
    assert_eq!(rows[2].column, "note");
    assert_eq!(rows[2].status, DiffStatus::Failure);
    assert_eq!(rows[2].message, "column added");
    // No column is missing from the current schema: nothing to remediate.
    assert!(alters.is_empty());
}

#[test]
fn missing_column_yields_row_and_statement() {
    let baseline = db("shop", vec![table("users", vec![col("id", "int"), col("legacy_flag", "int")])]);
    let current = db("shop", vec![table("users", vec![col("id", "int")])]);
    let (rows, alters) = compare(&baseline, &current, true);
    assert_eq!(rows.len(), 2);
    assert_eq!(rows[1].column, "legacy_flag");
    assert_eq!(rows[1].status, DiffStatus::Failure);
    assert_eq!(rows[1].message, "column missing");
    assert_eq!(alters.len(), 1);
    assert_eq!(alters[0], "ALTER TABLE users ADD COLUMN legacy_flag int;");
}

#[test]
fn remediation_counts_match_missing_rows() {
    let baseline = db(
        "d",
        vec![
            table("t1", vec![col("a", "int"), col("b", "text")]),
            table("t2", vec![col("x", "int")]),
        ],
    );
    let current = db(
        "d",
        vec![table("T1", vec![]), table("t2", vec![col("x", "bigint")])],
    );
    let (rows, alters) = compare(&baseline, &current, true);
    let missing: Vec<_> = rows.iter().filter(|r| r.message == "column missing").collect();
    assert_eq!(alters.len(), missing.len());
    assert_eq!(alters.len(), 2);
    // The statements target the current table's real name and use the
    // baseline's column definitions.
    assert_eq!(alters[0], "ALTER TABLE T1 ADD COLUMN a int;");
    assert_eq!(alters[1], "ALTER TABLE T1 ADD COLUMN b text;");
}

#[test]
fn remediation_disabled_yields_no_statements() {
    let baseline = db("d", vec![table("t", vec![col("a", "int")])]);
    let current = db("d", vec![table("t", vec![])]);
    let (rows, alters) = compare(&baseline, &current, false);
    assert_eq!(rows.len(), 1);
    assert_eq!(rows[0].message, "column missing");
    assert!(alters.is_empty());
}

#[test]
fn table_missing_and_added_rows() {
    let baseline = db("d", vec![table("gone", vec![col("a", "int")])]);
    let current = db("d", vec![table("fresh", vec![col("b", "int")])]);
    let (rows, alters) = compare(&baseline, &current, true);
    assert_eq!(rows.len(), 2);
    assert_eq!(rows[0].table, "gone");
    assert_eq!(rows[0].column, "");
    assert_eq!(rows[0].status, DiffStatus::Failure);
    assert_eq!(rows[0].message, "table missing");
    assert_eq!(rows[1].table, "fresh");
    assert_eq!(rows[1].column, "");
    assert_eq!(rows[1].status, DiffStatus::Failure);
    assert_eq!(rows[1].message, "table added");
    // Table-level drift never produces remediation.
    assert!(alters.is_empty());
}

#[test]
fn missing_column_keeps_baseline_casing() {
    let baseline = db("d", vec![table("T", vec![col("OldCol", "int")])]);
    let current = db("d", vec![table("t", vec![])]);
    let (rows, alters) = compare(&baseline, &current, true);
    assert_eq!(rows.len(), 1);
    assert_eq!(rows[0].table, "t");
    assert_eq!(rows[0].column, "OldCol");
    assert_eq!(rows[0].message, "column missing");
    assert_eq!(alters[0], "ALTER TABLE t ADD COLUMN OldCol int;");
}

#[test]
fn result_text_words() {
    let s = db("d", vec![table("t", vec![col("a", "int")])]);
    let other = db("d", vec![table("t", vec![col("a", "text")])]);
    let (ok_rows, _) = compare(&s, &s, false);
    assert_eq!(ok_rows[0].result_text(), "success");
    let (bad_rows, _) = compare(&s, &other, false);
    assert_eq!(bad_rows[0].result_text(), "failure");
}

#[test]
fn nullability_indicator_is_the_literal_yes() {
    let a = ColInfo::from_metadata("a".to_string(), "int".to_string(), "YES");
    assert!(a.is_nullable);
    let b = ColInfo::from_metadata("b".to_string(), "int".to_string(), "NO");
    assert!(!b.is_nullable);
    let c = ColInfo::from_metadata("c".to_string(), "int".to_string(), "yes");
    assert!(!c.is_nullable);
}

#[test]
fn wf_checks_canonical_uniqueness() {
    let good = table("t", vec![col("a", "int"), col("b", "int")]);
    assert!(good.is_wf());
    let dup = table("t", vec![col("Name", "int"), col("name", "int")]);
    assert!(!dup.is_wf());
    let good_db = db("d", vec![table("t1", vec![]), table("t2", vec![])]);
    assert!(good_db.is_wf());
    let dup_db = db("d", vec![table("Tab", vec![]), table("tab", vec![])]);
    assert!(!dup_db.is_wf());
    let bad_inner = db("d", vec![table("t", vec![col("A", "int"), col("a", "int")])]);
    assert!(!bad_inner.is_wf());
}
