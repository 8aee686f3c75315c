use vstd::prelude::*;

use crate::diff::{
    alters_for_key, alters_upto, col_row, col_union, find_col, find_table, has_col, has_table,
    lemma_dedup_distinct, lemma_dedup_membership, lemma_find_table_at, lemma_has_col_iff,
    lemma_has_table_iff, matched_alters, matched_alters_upto, matched_rows, msg_column_added,
    msg_column_missing, msg_mismatch, msg_table_added, msg_table_missing, rows_for_key, rows_upto,
    spec_alters, spec_rows, stmt_of, RowModel,
};
use crate::model::{
    col_canon_keys, pairwise_distinct, table_canon_keys, tables_canonically_unique, TableModel,
};

verus! {

/// The lengths of the fixed report messages.
proof fn lemma_msgs()
    ensures
        msg_table_missing().len() == 13,
        msg_table_added().len() == 11,
        msg_column_missing().len() == 14,
        msg_column_added().len() == 12,
{
    reveal_strlit("table missing");
    reveal_strlit("table added");
    reveal_strlit("column missing");
    reveal_strlit("column added");
}

/// The length of a type-mismatch message.
proof fn lemma_mismatch_len(bty: Seq<char>, cty: Seq<char>)
    ensures
        msg_mismatch(bty, cty).len() == 33 + bty.len() + cty.len(),
{
    reveal_strlit("column definition mismatch: ");
    reveal_strlit(" --> ");
}

/// Deduplication of a sequence without repeats changes nothing.
proof fn lemma_dedup_of_distinct(a: Seq<Seq<char>>)
    requires
        pairwise_distinct(a),
    ensures
        crate::diff::dedup(a) == a,
    decreases a.len(),
{
    if a.len() > 0 {
        lemma_dedup_of_distinct(a.drop_last());
        if a.drop_last().contains(a.last()) {
            let i = choose|i: int| 0 <= i < a.drop_last().len() && a.drop_last()[i] == a.last();
            assert(a[i] == a.last());
            assert(false);
        }
        assert(crate::diff::dedup(a) =~= a);
    } else {
        assert(crate::diff::dedup(a) =~= a);
    }
}

/// Appending only keys that are already present changes nothing under
/// deduplication.
proof fn lemma_dedup_append_contained(a: Seq<Seq<char>>, b: Seq<Seq<char>>)
    requires
        forall|k: Seq<char>| #[trigger] b.contains(k) ==> a.contains(k),
    ensures
        crate::diff::dedup(a + b) == crate::diff::dedup(a),
    decreases b.len(),
{
    if b.len() == 0 {
        assert(a + b =~= a);
    } else {
        let b0 = b.drop_last();
        assert(forall|k: Seq<char>| #[trigger] b0.contains(k) ==> b.contains(k));
        lemma_dedup_append_contained(a, b0);
        assert((a + b).drop_last() =~= a + b0);
        assert((a + b).last() == b.last());
        assert(b.contains(b.last()));
        assert(a.contains(b.last()));
        let i = choose|i: int| 0 <= i < a.len() && a[i] == b.last();
        assert((a + b0)[i] == b.last());
        assert((a + b0).contains(b.last()));
    }
}

/// The self-union of the canonical table keys of a canonically unique
/// sequence of tables is those keys themselves.
proof fn lemma_self_union(tables: Seq<TableModel>)
    requires
        tables_canonically_unique(tables),
    ensures
        crate::diff::table_union(tables, tables) == table_canon_keys(tables),
{
    let a = table_canon_keys(tables);
    assert(forall|k: Seq<char>| #[trigger] a.contains(k) ==> a.contains(k));
    lemma_dedup_append_contained(a, a);
    lemma_dedup_of_distinct(a);
}

/// Within a self-comparison no remediation arises for any matched pair.
proof fn lemma_self_matched_alters(bt: TableModel, n: int)
    requires
        0 <= n <= col_union(bt, bt).len(),
    ensures
        matched_alters_upto(bt, bt, n) == Seq::<Seq<char>>::empty(),
    decreases n,
{
    if n > 0 {
        lemma_self_matched_alters(bt, n - 1);
        let key = col_union(bt, bt)[n - 1];
        match find_col(bt.cols, key) {
            Some(_) => {},
            None => {},
        }
    }
}

/// Every row of a self-compared matched pair is a success with an empty
/// message.
proof fn lemma_self_matched_rows(db: Seq<char>, bt: TableModel)
    ensures
        forall|i: int|
            0 <= i < matched_rows(db, bt, bt).len() ==> (#[trigger] matched_rows(
                db,
                bt,
                bt,
            )[i]).success && matched_rows(db, bt, bt)[i].message == Seq::<char>::empty(),
{
    assert forall|i: int| 0 <= i < matched_rows(db, bt, bt).len() implies (#[trigger] matched_rows(
        db,
        bt,
        bt,
    )[i]).success && matched_rows(db, bt, bt)[i].message == Seq::<char>::empty() by {
        let key = col_union(bt, bt)[i];
        let row = col_row(db, bt.name, bt, bt, key);
        match find_col(bt.cols, key) {
            Some(b) => {
                assert(row.success && row.message == Seq::<char>::empty());
            },
            None => {
                assert(row.success && row.message == Seq::<char>::empty());
            },
        }
    }
}

/// Rows and remediation statements of a self-comparison, over a prefix of
/// the table union: all rows succeed, no statement arises.
proof fn lemma_self_diff_upto(db: Seq<char>, tables: Seq<TableModel>, n: int)
    requires
        0 <= n <= crate::diff::table_union(tables, tables).len(),
    ensures
        forall|i: int|
            0 <= i < rows_upto(db, tables, tables, n).len() ==> (#[trigger] rows_upto(
                db,
                tables,
                tables,
                n,
            )[i]).success && rows_upto(db, tables, tables, n)[i].message == Seq::<char>::empty(),
        alters_upto(tables, tables, n) == Seq::<Seq<char>>::empty(),
    decreases n,
{
    if n > 0 {
        lemma_self_diff_upto(db, tables, n - 1);
        let key = crate::diff::table_union(tables, tables)[n - 1];
        let added = rows_for_key(db, tables, tables, key);
        match find_table(tables, key) {
            Some(bt) => {
                lemma_self_matched_rows(db, bt);
                lemma_self_matched_alters(bt, col_union(bt, bt).len() as int);
                assert(added == matched_rows(db, bt, bt));
                assert(alters_for_key(tables, tables, key) == Seq::<Seq<char>>::empty());
            },
            None => {
                assert(added == Seq::<RowModel>::empty());
                assert(alters_for_key(tables, tables, key) == Seq::<Seq<char>>::empty());
            },
        }
        assert(alters_upto(tables, tables, n) =~= Seq::<Seq<char>>::empty());
        assert forall|i: int| 0 <= i < rows_upto(db, tables, tables, n).len() implies (
        #[trigger] rows_upto(db, tables, tables, n)[i]).success && rows_upto(
            db,
            tables,
            tables,
            n,
        )[i].message == Seq::<char>::empty() by {
            let prev = rows_upto(db, tables, tables, n - 1);
            if i < prev.len() {
                assert(rows_upto(db, tables, tables, n)[i] == prev[i]);
            } else {
                assert(rows_upto(db, tables, tables, n)[i] == added[i - prev.len()]);
            }
        }
    }
}

/// Self-diff idempotence: comparing a snapshot with itself yields only
/// success rows with empty messages, and no remediation statement — no
/// missing or added classification of any kind.
pub proof fn lemma_self_diff(db: Seq<char>, tables: Seq<TableModel>)
    ensures
        forall|i: int|
            0 <= i < spec_rows(db, tables, tables).len() ==> (#[trigger] spec_rows(
                db,
                tables,
                tables,
            )[i]).success && spec_rows(db, tables, tables)[i].message == Seq::<char>::empty(),
        spec_alters(tables, tables) == Seq::<Seq<char>>::empty(),
{
    lemma_self_diff_upto(db, tables, crate::diff::table_union(tables, tables).len() as int);
}

/// The number of columns of all tables together.
pub open spec fn total_cols(tables: Seq<TableModel>) -> nat
    decreases tables.len(),
{
    if tables.len() == 0 {
        0
    } else {
        total_cols(tables.drop_last()) + tables.last().cols.len()
    }
}

/// Counting rows of a self-comparison over a prefix of the table union.
proof fn lemma_self_count_upto(db: Seq<char>, tables: Seq<TableModel>, n: int)
    requires
        tables_canonically_unique(tables),
        forall|i: int| 0 <= i < tables.len() ==> (#[trigger] tables[i]).wf(),
        0 <= n <= tables.len(),
    ensures
        rows_upto(db, tables, tables, n).len() == total_cols(tables.take(n)),
    decreases n,
{
    lemma_self_union(tables);
    if n > 0 {
        lemma_self_count_upto(db, tables, n - 1);
        let key = crate::diff::table_union(tables, tables)[n - 1];
        assert(key == table_canon_keys(tables)[n - 1]);
        assert forall|j: int|
            0 <= j < n - 1 implies crate::canon::lower_of(#[trigger] tables[j].name) != key by {
            assert(table_canon_keys(tables)[j] == crate::canon::lower_of(tables[j].name));
            assert(table_canon_keys(tables)[j] != table_canon_keys(tables)[n - 1]);
        }
        lemma_find_table_at(tables, key, n - 1);
        let bt = tables[n - 1];
        assert(rows_for_key(db, tables, tables, key) == matched_rows(db, bt, bt));
        assert(bt.wf());
        let a = col_canon_keys(bt.cols);
        assert(forall|k: Seq<char>| #[trigger] a.contains(k) ==> a.contains(k));
        lemma_dedup_append_contained(a, a);
        lemma_dedup_of_distinct(a);
        assert(col_union(bt, bt) == a);
        assert(matched_rows(db, bt, bt).len() == bt.cols.len());
        assert(tables.take(n).drop_last() =~= tables.take(n - 1));
        assert(tables.take(n).last() == bt);
    } else {
        assert(tables.take(0) =~= Seq::<TableModel>::empty());
    }
}

/// Self-diff coverage: comparing a well-formed snapshot with itself yields
/// exactly one (success) row per column of the snapshot.
pub proof fn lemma_self_diff_count(db: Seq<char>, tables: Seq<TableModel>)
    requires
        tables_canonically_unique(tables),
        forall|i: int| 0 <= i < tables.len() ==> (#[trigger] tables[i]).wf(),
    ensures
        spec_rows(db, tables, tables).len() == total_cols(tables),
{
    lemma_self_union(tables);
    lemma_self_count_upto(db, tables, tables.len() as int);
    assert(tables.take(tables.len() as int) =~= tables);
}

/// No message of a matched table pair is a table-level message.
proof fn lemma_matched_rows_not_table_level(db: Seq<char>, bt: TableModel, ct: TableModel)
    ensures
        forall|i: int|
            0 <= i < matched_rows(db, bt, ct).len() ==> (#[trigger] matched_rows(
                db,
                bt,
                ct,
            )[i]).message != msg_table_missing() && matched_rows(db, bt, ct)[i].message
                != msg_table_added(),
{
    lemma_msgs();
    assert forall|i: int| 0 <= i < matched_rows(db, bt, ct).len() implies (#[trigger] matched_rows(
        db,
        bt,
        ct,
    )[i]).message != msg_table_missing() && matched_rows(db, bt, ct)[i].message
        != msg_table_added() by {
        let key = col_union(bt, ct)[i];
        let row = col_row(db, ct.name, bt, ct, key);
        match (find_col(bt.cols, key), find_col(ct.cols, key)) {
            (Some(b), Some(c)) => {
                if b.ty == c.ty {
                } else {
                    lemma_mismatch_len(b.ty, c.ty);
                }
            },
            (Some(b), None) => {},
            (None, Some(c)) => {},
            (None, None) => {},
        }
    }
}

/// Case-insensitive identity: when each canonical table name is present in
/// the baseline exactly when it is present in the current snapshot, the
/// comparison emits no table-level row (no "table missing" and no
/// "table added"); only column-level rows remain.
pub proof fn lemma_case_insensitive_identity(
    db: Seq<char>,
    b: Seq<TableModel>,
    c: Seq<TableModel>,
)
    requires
        forall|key: Seq<char>| #[trigger] has_table(b, key) <==> has_table(c, key),
    ensures
        forall|i: int|
            0 <= i < spec_rows(db, b, c).len() ==> (#[trigger] spec_rows(db, b, c)[i]).message
                != msg_table_missing() && spec_rows(db, b, c)[i].message != msg_table_added(),
{
    lemma_case_insensitive_upto(db, b, c, crate::diff::table_union(b, c).len() as int);
}

/// The induction behind case-insensitive identity.
proof fn lemma_case_insensitive_upto(db: Seq<char>, b: Seq<TableModel>, c: Seq<TableModel>, n: int)
    requires
        forall|key: Seq<char>| #[trigger] has_table(b, key) <==> has_table(c, key),
        0 <= n <= crate::diff::table_union(b, c).len(),
    ensures
        forall|i: int|
            0 <= i < rows_upto(db, b, c, n).len() ==> (#[trigger] rows_upto(db, b, c, n)[i]).message
                != msg_table_missing() && rows_upto(db, b, c, n)[i].message != msg_table_added(),
    decreases n,
{
    if n > 0 {
        lemma_case_insensitive_upto(db, b, c, n - 1);
        let key = crate::diff::table_union(b, c)[n - 1];
        let added = rows_for_key(db, b, c, key);
        assert(has_table(b, key) <==> has_table(c, key));
        match (find_table(b, key), find_table(c, key)) {
            (Some(bt), Some(ct)) => {
                lemma_matched_rows_not_table_level(db, bt, ct);
            },
            (Some(bt), None) => {
                assert(false);
            },
            (None, Some(ct)) => {
                assert(false);
            },
            (None, None) => {},
        }
        assert forall|i: int| 0 <= i < rows_upto(db, b, c, n).len() implies (#[trigger] rows_upto(
            db,
            b,
            c,
            n,
        )[i]).message != msg_table_missing() && rows_upto(db, b, c, n)[i].message
            != msg_table_added() by {
            let prev = rows_upto(db, b, c, n - 1);
            if i < prev.len() {
                assert(rows_upto(db, b, c, n)[i] == prev[i]);
            } else {
                assert(rows_upto(db, b, c, n)[i] == added[i - prev.len()]);
            }
        }
    }
}

/// Case-insensitive identity, column level: when a matched table pair names
/// the same columns up to canonicalization, no presence row is emitted for
/// it — every column key matches on both sides, leaving only success or
/// type-mismatch rows.
pub proof fn lemma_case_insensitive_columns(db: Seq<char>, bt: TableModel, ct: TableModel)
    requires
        forall|key: Seq<char>| #[trigger] has_col(bt.cols, key) <==> has_col(ct.cols, key),
    ensures
        forall|i: int|
            0 <= i < matched_rows(db, bt, ct).len() ==> (#[trigger] matched_rows(
                db,
                bt,
                ct,
            )[i]).message != msg_column_missing() && matched_rows(db, bt, ct)[i].message
                != msg_column_added(),
{
    lemma_msgs();
    assert forall|i: int| 0 <= i < matched_rows(db, bt, ct).len() implies (#[trigger] matched_rows(
        db,
        bt,
        ct,
    )[i]).message != msg_column_missing() && matched_rows(db, bt, ct)[i].message
        != msg_column_added() by {
        let key = col_union(bt, ct)[i];
        assert(has_col(bt.cols, key) <==> has_col(ct.cols, key));
        match (find_col(bt.cols, key), find_col(ct.cols, key)) {
            (Some(b), Some(c)) => {
                if b.ty == c.ty {
                } else {
                    lemma_mismatch_len(b.ty, c.ty);
                }
            },
            (Some(b), None) => {
                assert(false);
            },
            (None, Some(c)) => {
                assert(false);
            },
            (None, None) => {},
        }
    }
}

/// Column coverage: a matched table pair emits exactly one column-level row
/// per key of the canonical-name union of its columns — the row count equals
/// the union's size, the union repeats no key, and its keys are exactly the
/// canonical column names present on either side.
pub proof fn lemma_column_coverage(db: Seq<char>, bt: TableModel, ct: TableModel)
    ensures
        matched_rows(db, bt, ct).len() == col_union(bt, ct).len(),
        pairwise_distinct(col_union(bt, ct)),
        forall|key: Seq<char>|
            #[trigger] col_union(bt, ct).contains(key) <==> (has_col(bt.cols, key) || has_col(
                ct.cols,
                key,
            )),
{
    let a = col_canon_keys(bt.cols);
    let b = col_canon_keys(ct.cols);
    lemma_dedup_distinct(a + b);
    lemma_dedup_membership(a + b);
    assert forall|key: Seq<char>| #[trigger] col_union(bt, ct).contains(key) <==> (has_col(
        bt.cols,
        key,
    ) || has_col(ct.cols, key)) by {
        lemma_has_col_iff(bt.cols, key);
        lemma_has_col_iff(ct.cols, key);
        if (a + b).contains(key) {
            let i = choose|i: int| 0 <= i < (a + b).len() && (a + b)[i] == key;
            if i < a.len() {
                assert(a[i] == key);
                assert(a.contains(key));
            } else {
                assert(b[i - a.len()] == key);
                assert(b.contains(key));
            }
        }
        if a.contains(key) {
            let i = choose|i: int| 0 <= i < a.len() && a[i] == key;
            assert((a + b)[i] == key);
            assert((a + b).contains(key));
        }
        if b.contains(key) {
            let i = choose|i: int| 0 <= i < b.len() && b[i] == key;
            assert((a + b)[a.len() + i] == key);
            assert((a + b).contains(key));
        }
    }
}

/// The rows whose message classifies a column as missing from the current
/// schema, in row order.
pub open spec fn missing_rows(rows: Seq<RowModel>) -> Seq<RowModel>
    decreases rows.len(),
{
    if rows.len() == 0 {
        Seq::empty()
    } else {
        missing_rows(rows.drop_last()) + (if rows.last().message == msg_column_missing() {
            seq![rows.last()]
        } else {
            Seq::empty()
        })
    }
}

/// The statement names the row's table and column.
pub open spec fn references(stmt: Seq<char>, row: RowModel) -> bool {
    exists|ty: Seq<char>| stmt == stmt_of(row.table, row.column, ty)
}

/// Filtering for missing-column rows distributes over concatenation.
proof fn lemma_missing_concat(a: Seq<RowModel>, b: Seq<RowModel>)
    ensures
        missing_rows(a + b) == missing_rows(a) + missing_rows(b),
    decreases b.len(),
{
    if b.len() == 0 {
        assert(a + b =~= a);
        assert(missing_rows(a) + missing_rows(b) =~= missing_rows(a));
    } else {
        lemma_missing_concat(a, b.drop_last());
        assert((a + b).drop_last() =~= a + b.drop_last());
        assert((a + b).last() == b.last());
        assert(missing_rows(a + b) =~= missing_rows(a) + missing_rows(b));
    }
}

/// The correspondence for one matched table pair, over a prefix of the
/// pair's column union.
proof fn lemma_matched_correspond(db: Seq<char>, bt: TableModel, ct: TableModel, n: int)
    requires
        0 <= n <= col_union(bt, ct).len(),
    ensures
        matched_alters_upto(bt, ct, n).len() == missing_rows(
            matched_rows(db, bt, ct).take(n),
        ).len(),
        forall|i: int|
            0 <= i < matched_alters_upto(bt, ct, n).len() ==> references(
                #[trigger] matched_alters_upto(bt, ct, n)[i],
                missing_rows(matched_rows(db, bt, ct).take(n))[i],
            ),
    decreases n,
{
    let rows = matched_rows(db, bt, ct);
    if n == 0 {
        assert(rows.take(0) =~= Seq::<RowModel>::empty());
    } else {
        lemma_matched_correspond(db, bt, ct, n - 1);
        lemma_msgs();
        let key = col_union(bt, ct)[n - 1];
        let row = rows[n - 1];
        assert(row == col_row(db, ct.name, bt, ct, key));
        assert(rows.take(n).drop_last() =~= rows.take(n - 1));
        assert(rows.take(n).last() == row);
        let prev_alters = matched_alters_upto(bt, ct, n - 1);
        let prev_missing = missing_rows(rows.take(n - 1));
        match (find_col(bt.cols, key), find_col(ct.cols, key)) {
            (Some(b), Some(c)) => {
                if b.ty == c.ty {
                } else {
                    lemma_mismatch_len(b.ty, c.ty);
                }
                assert(row.message != msg_column_missing());
                assert(missing_rows(rows.take(n)) == prev_missing);
                assert(matched_alters_upto(bt, ct, n) == prev_alters);
            },
            (Some(b), None) => {
                assert(row.message == msg_column_missing());
                assert(missing_rows(rows.take(n)) =~= prev_missing.push(row));
                let stmt = stmt_of(ct.name, b.name, b.ty);
                assert(matched_alters_upto(bt, ct, n) == prev_alters.push(stmt));
                assert(row.table == ct.name && row.column == b.name);
                assert(stmt == stmt_of(row.table, row.column, b.ty));
                assert(references(stmt, row));
                assert forall|i: int| 0 <= i < matched_alters_upto(bt, ct, n).len() implies
                    references(
                    #[trigger] matched_alters_upto(bt, ct, n)[i],
                    missing_rows(rows.take(n))[i],
                ) by {
                    if i < prev_alters.len() {
                        assert(matched_alters_upto(bt, ct, n)[i] == prev_alters[i]);
                        assert(missing_rows(rows.take(n))[i] == prev_missing[i]);
                    } else {
                        assert(matched_alters_upto(bt, ct, n)[i] == stmt);
                        assert(missing_rows(rows.take(n))[i] == row);
                    }
                }
            },
            (None, Some(c)) => {
                assert(row.message != msg_column_missing());
                assert(missing_rows(rows.take(n)) == prev_missing);
                assert(matched_alters_upto(bt, ct, n) == prev_alters);
            },
            (None, None) => {
                assert(row.message != msg_column_missing());
                assert(missing_rows(rows.take(n)) == prev_missing);
                assert(matched_alters_upto(bt, ct, n) == prev_alters);
            },
        }
    }
}

/// The correspondence over a prefix of the table union.
proof fn lemma_correspond_upto(db: Seq<char>, b: Seq<TableModel>, c: Seq<TableModel>, n: int)
    requires
        0 <= n <= crate::diff::table_union(b, c).len(),
    ensures
        alters_upto(b, c, n).len() == missing_rows(rows_upto(db, b, c, n)).len(),
        forall|i: int|
            0 <= i < alters_upto(b, c, n).len() ==> references(
                #[trigger] alters_upto(b, c, n)[i],
                missing_rows(rows_upto(db, b, c, n))[i],
            ),
    decreases n,
{
    if n > 0 {
        lemma_correspond_upto(db, b, c, n - 1);
        lemma_msgs();
        let key = crate::diff::table_union(b, c)[n - 1];
        let prev_rows = rows_upto(db, b, c, n - 1);
        let added_rows = rows_for_key(db, b, c, key);
        let prev_alters = alters_upto(b, c, n - 1);
        let added_alters = alters_for_key(b, c, key);
        lemma_missing_concat(prev_rows, added_rows);
        match (find_table(b, key), find_table(c, key)) {
            (Some(bt), Some(ct)) => {
                lemma_matched_correspond(db, bt, ct, col_union(bt, ct).len() as int);
                assert(matched_rows(db, bt, ct).take(col_union(bt, ct).len() as int)
                    =~= matched_rows(db, bt, ct));
                assert(added_alters.len() == missing_rows(added_rows).len());
                assert(forall|i: int|
                    0 <= i < added_alters.len() ==> references(
                        #[trigger] added_alters[i],
                        missing_rows(added_rows)[i],
                    ));
            },
            (Some(bt), None) => {
                assert(added_rows.drop_last() =~= Seq::<RowModel>::empty());
                assert(missing_rows(added_rows.drop_last()) == Seq::<RowModel>::empty());
                assert(added_rows.last().message == msg_table_missing());
                assert(missing_rows(added_rows) =~= Seq::<RowModel>::empty());
                assert(added_alters == Seq::<Seq<char>>::empty());
            },
            (None, Some(ct)) => {
                assert(added_rows.drop_last() =~= Seq::<RowModel>::empty());
                assert(missing_rows(added_rows.drop_last()) == Seq::<RowModel>::empty());
                assert(added_rows.last().message == msg_table_added());
                assert(missing_rows(added_rows) =~= Seq::<RowModel>::empty());
                assert(added_alters == Seq::<Seq<char>>::empty());
            },
            (None, None) => {
                assert(missing_rows(added_rows) == Seq::<RowModel>::empty());
                assert(added_alters == Seq::<Seq<char>>::empty());
            },
        }
        assert(missing_rows(rows_upto(db, b, c, n)) == missing_rows(prev_rows) + missing_rows(
            added_rows,
        ));
        assert forall|i: int| 0 <= i < alters_upto(b, c, n).len() implies references(
            #[trigger] alters_upto(b, c, n)[i],
            missing_rows(rows_upto(db, b, c, n))[i],
        ) by {
            if i < prev_alters.len() {
                assert(alters_upto(b, c, n)[i] == prev_alters[i]);
                assert(missing_rows(rows_upto(db, b, c, n))[i] == missing_rows(prev_rows)[i]);
            } else {
                assert(alters_upto(b, c, n)[i] == added_alters[i - prev_alters.len()]);
                assert(missing_rows(rows_upto(db, b, c, n))[i] == missing_rows(
                    added_rows,
                )[i - prev_alters.len()]);
            }
        }
    }
}

/// Remediation completeness: the number of remediation statements equals the
/// number of "column missing" rows, and the i-th statement names the i-th
/// such row's table and column.
pub proof fn lemma_remediation_completeness(db: Seq<char>, b: Seq<TableModel>, c: Seq<TableModel>)
    ensures
        spec_alters(b, c).len() == missing_rows(spec_rows(db, b, c)).len(),
        forall|i: int|
            0 <= i < spec_alters(b, c).len() ==> references(
                #[trigger] spec_alters(b, c)[i],
                missing_rows(spec_rows(db, b, c))[i],
            ),
{
    lemma_correspond_upto(db, b, c, crate::diff::table_union(b, c).len() as int);
}

} // verus!
