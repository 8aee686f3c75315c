use vstd::prelude::*;
use vstd::string::StringExecFns;

use crate::canon::lower_of;
use crate::canon::lowercase;
use crate::model::{
    canon_col_keys, canon_table_keys, col_canon_keys, col_models, pairwise_distinct,
    table_canon_keys, table_models, ColInfo, ColModel, DBInfo, TableInfo, TableModel,
};

verus! {

/// Binary outcome of one comparison.
#[derive(Clone, Copy, Debug, PartialEq, Eq, Structural)]
pub enum DiffStatus {
    Success,
    Failure,
}

/// One classified comparison outcome for a table or column pair.
pub struct DiffRow {
    pub database: String,
    pub table: String,
    pub column: String,
    pub status: DiffStatus,
    pub message: String,
}

/// Mathematical model of a report row.
#[verifier::ext_equal]
pub struct RowModel {
    pub database: Seq<char>,
    pub table: Seq<char>,
    pub column: Seq<char>,
    pub success: bool,
    pub message: Seq<char>,
}

impl View for DiffRow {
    type V = RowModel;

    open spec fn view(&self) -> RowModel {
        RowModel {
            database: self.database@,
            table: self.table@,
            column: self.column@,
            success: self.status is Success,
            message: self.message@,
        }
    }
}

impl DiffRow {
    /// The status as the report's literal result word.
    pub fn result_text(&self) -> (r: &'static str)
        ensures
            self@.success ==> r@ == "success"@,
            !self@.success ==> r@ == "failure"@,
    {
        match self.status {
            DiffStatus::Success => "success",
            DiffStatus::Failure => "failure",
        }
    }
}

pub open spec fn msg_table_missing() -> Seq<char> {
    "table missing"@
}

pub open spec fn msg_table_added() -> Seq<char> {
    "table added"@
}

pub open spec fn msg_column_missing() -> Seq<char> {
    "column missing"@
}

pub open spec fn msg_column_added() -> Seq<char> {
    "column added"@
}

/// Message of a row whose column exists on both sides with unequal types.
pub open spec fn msg_mismatch(bty: Seq<char>, cty: Seq<char>) -> Seq<char> {
    "column definition mismatch: "@ + bty + " --> "@ + cty
}

/// The remediation statement for one column missing from the current schema:
/// the current table's real name is the target, the baseline's column name
/// and type literal are the definition.
pub open spec fn stmt_of(table: Seq<char>, column: Seq<char>, ty: Seq<char>) -> Seq<char> {
    "ALTER TABLE "@ + table + " ADD COLUMN "@ + column + " "@ + ty + ";"@
}

/// Keeps the first occurrence of each key, in order of first occurrence.
pub open spec fn dedup(keys: Seq<Seq<char>>) -> Seq<Seq<char>>
    decreases keys.len(),
{
    if keys.len() == 0 {
        Seq::empty()
    } else {
        let prev = dedup(keys.drop_last());
        if keys.drop_last().contains(keys.last()) {
            prev
        } else {
            prev.push(keys.last())
        }
    }
}

/// The first table whose canonical name is `key`, if any.
pub open spec fn find_table(tables: Seq<TableModel>, key: Seq<char>) -> Option<TableModel>
    decreases tables.len(),
{
    if tables.len() == 0 {
        None
    } else if lower_of(tables[0].name) == key {
        Some(tables[0])
    } else {
        find_table(tables.drop_first(), key)
    }
}

/// The first column whose canonical name is `key`, if any.
pub open spec fn find_col(cols: Seq<ColModel>, key: Seq<char>) -> Option<ColModel>
    decreases cols.len(),
{
    if cols.len() == 0 {
        None
    } else if lower_of(cols[0].name) == key {
        Some(cols[0])
    } else {
        find_col(cols.drop_first(), key)
    }
}

pub open spec fn has_table(tables: Seq<TableModel>, key: Seq<char>) -> bool {
    find_table(tables, key) is Some
}

pub open spec fn has_col(cols: Seq<ColModel>, key: Seq<char>) -> bool {
    find_col(cols, key) is Some
}

/// Canonical-name union of the columns of a matched table pair:
/// the baseline's column keys first, then the current table's new ones.
pub open spec fn col_union(bt: TableModel, ct: TableModel) -> Seq<Seq<char>> {
    dedup(col_canon_keys(bt.cols) + col_canon_keys(ct.cols))
}

/// Canonical-name union of the tables of the two snapshots.
pub open spec fn table_union(b: Seq<TableModel>, c: Seq<TableModel>) -> Seq<Seq<char>> {
    dedup(table_canon_keys(b) + table_canon_keys(c))
}

/// The row classifying one column key of a matched table pair. Display
/// casing comes from the current side where it exists, else the baseline.
pub open spec fn col_row(
    db: Seq<char>,
    table: Seq<char>,
    bt: TableModel,
    ct: TableModel,
    key: Seq<char>,
) -> RowModel {
    match (find_col(bt.cols, key), find_col(ct.cols, key)) {
        (Some(b), Some(c)) => if b.ty == c.ty {
            RowModel {
                database: db,
                table: table,
                column: c.name,
                success: true,
                message: Seq::empty(),
            }
        } else {
            RowModel {
                database: db,
                table: table,
                column: c.name,
                success: false,
                message: msg_mismatch(b.ty, c.ty),
            }
        },
        (Some(b), None) => RowModel {
            database: db,
            table: table,
            column: b.name,
            success: false,
            message: msg_column_missing(),
        },
        (None, Some(c)) => RowModel {
            database: db,
            table: table,
            column: c.name,
            success: false,
            message: msg_column_added(),
        },
        // A key of the column union is present on at least one side,
        // so this case never arises for such keys.
        (None, None) => RowModel {
            database: db,
            table: table,
            column: key,
            success: true,
            message: Seq::empty(),
        },
    }
}

/// All column-level rows of a matched table pair, one per union key.
pub open spec fn matched_rows(db: Seq<char>, bt: TableModel, ct: TableModel) -> Seq<RowModel> {
    Seq::new(col_union(bt, ct).len(), |i: int| col_row(db, ct.name, bt, ct, col_union(bt, ct)[i]))
}

/// Remediation statements of a matched table pair, over the first `n` union
/// keys: one statement per column present only on the baseline side.
pub open spec fn matched_alters_upto(bt: TableModel, ct: TableModel, n: int) -> Seq<Seq<char>>
    decreases n,
{
    if n <= 0 {
        Seq::empty()
    } else {
        let prev = matched_alters_upto(bt, ct, n - 1);
        let key = col_union(bt, ct)[n - 1];
        match (find_col(bt.cols, key), find_col(ct.cols, key)) {
            (Some(b), None) => prev.push(stmt_of(ct.name, b.name, b.ty)),
            _ => prev,
        }
    }
}

/// All remediation statements of a matched table pair.
pub open spec fn matched_alters(bt: TableModel, ct: TableModel) -> Seq<Seq<char>> {
    matched_alters_upto(bt, ct, col_union(bt, ct).len() as int)
}

/// The rows emitted for one key of the table union.
pub open spec fn rows_for_key(
    db: Seq<char>,
    b: Seq<TableModel>,
    c: Seq<TableModel>,
    key: Seq<char>,
) -> Seq<RowModel> {
    match (find_table(b, key), find_table(c, key)) {
        (Some(bt), Some(ct)) => matched_rows(db, bt, ct),
        (Some(bt), None) => seq![
            RowModel {
                database: db,
                table: bt.name,
                column: Seq::empty(),
                success: false,
                message: msg_table_missing(),
            },
        ],
        (None, Some(ct)) => seq![
            RowModel {
                database: db,
                table: ct.name,
                column: Seq::empty(),
                success: false,
                message: msg_table_added(),
            },
        ],
        (None, None) => Seq::empty(),
    }
}

/// The remediation statements emitted for one key of the table union.
pub open spec fn alters_for_key(
    b: Seq<TableModel>,
    c: Seq<TableModel>,
    key: Seq<char>,
) -> Seq<Seq<char>> {
    match (find_table(b, key), find_table(c, key)) {
        (Some(bt), Some(ct)) => matched_alters(bt, ct),
        _ => Seq::empty(),
    }
}

/// All rows over the first `n` keys of the table union.
pub open spec fn rows_upto(db: Seq<char>, b: Seq<TableModel>, c: Seq<TableModel>, n: int) -> Seq<
    RowModel,
>
    decreases n,
{
    if n <= 0 {
        Seq::empty()
    } else {
        rows_upto(db, b, c, n - 1) + rows_for_key(db, b, c, table_union(b, c)[n - 1])
    }
}

/// All remediation statements over the first `n` keys of the table union.
pub open spec fn alters_upto(b: Seq<TableModel>, c: Seq<TableModel>, n: int) -> Seq<Seq<char>>
    decreases n,
{
    if n <= 0 {
        Seq::empty()
    } else {
        alters_upto(b, c, n - 1) + alters_for_key(b, c, table_union(b, c)[n - 1])
    }
}

/// The full report: one classified row per key of the table union, the
/// matched pairs expanded to one row per key of their column union.
pub open spec fn spec_rows(db: Seq<char>, b: Seq<TableModel>, c: Seq<TableModel>) -> Seq<
    RowModel,
> {
    rows_upto(db, b, c, table_union(b, c).len() as int)
}

/// All remediation statements of the comparison.
pub open spec fn spec_alters(b: Seq<TableModel>, c: Seq<TableModel>) -> Seq<Seq<char>> {
    alters_upto(b, c, table_union(b, c).len() as int)
}

/// What `compare` returns: the report rows, and — when remediation is
/// enabled — the remediation statements, else none.
pub open spec fn spec_compare(
    db: Seq<char>,
    b: Seq<TableModel>,
    c: Seq<TableModel>,
    fix_lost_cols: bool,
) -> (Seq<RowModel>, Seq<Seq<char>>) {
    (spec_rows(db, b, c), if fix_lost_cols {
        spec_alters(b, c)
    } else {
        Seq::empty()
    })
}

/// The views of a sequence of strings.
pub open spec fn str_views(v: Seq<String>) -> Seq<Seq<char>> {
    v.map_values(|s: String| s@)
}

/// The views of a sequence of rows.
pub open spec fn row_views(v: Seq<DiffRow>) -> Seq<RowModel> {
    v.map_values(|r: DiffRow| r@)
}

/// Deduplication keeps exactly the members of the input.
pub proof fn lemma_dedup_membership(keys: Seq<Seq<char>>)
    ensures
        forall|k: Seq<char>| dedup(keys).contains(k) <==> keys.contains(k),
    decreases keys.len(),
{
    if keys.len() > 0 {
        lemma_dedup_membership(keys.drop_last());
        assert forall|k: Seq<char>| keys.contains(k) implies dedup(keys).contains(k) by {
            let i = choose|i: int| 0 <= i < keys.len() && keys[i] == k;
            if i < keys.len() - 1 {
                assert(keys.drop_last()[i] == k);
                assert(keys.drop_last().contains(k));
                let j = choose|j: int|
                    0 <= j < dedup(keys.drop_last()).len() && dedup(keys.drop_last())[j] == k;
                assert(dedup(keys)[j] == k);
            } else {
                if keys.drop_last().contains(keys.last()) {
                    let j = choose|j: int|
                        0 <= j < dedup(keys.drop_last()).len() && dedup(keys.drop_last())[j] == k;
                    assert(dedup(keys)[j] == k);
                } else {
                    assert(dedup(keys).last() == k);
                }
            }
        }
        assert forall|k: Seq<char>| dedup(keys).contains(k) implies keys.contains(k) by {
            let j = choose|j: int| 0 <= j < dedup(keys).len() && dedup(keys)[j] == k;
            if j < dedup(keys.drop_last()).len() {
                assert(dedup(keys.drop_last())[j] == k);
                assert(keys.drop_last().contains(k));
                let i = choose|i: int|
                    0 <= i < keys.drop_last().len() && keys.drop_last()[i] == k;
                assert(keys[i] == k);
            } else {
                assert(k == keys.last());
            }
        }
    }
}

/// Deduplication leaves no two equal entries.
pub proof fn lemma_dedup_distinct(keys: Seq<Seq<char>>)
    ensures
        pairwise_distinct(dedup(keys)),
    decreases keys.len(),
{
    if keys.len() > 0 {
        lemma_dedup_distinct(keys.drop_last());
        lemma_dedup_membership(keys.drop_last());
        let d = dedup(keys);
        let prev = dedup(keys.drop_last());
        if !keys.drop_last().contains(keys.last()) {
            assert forall|i: int, j: int| 0 <= i < j < d.len() implies d[i] != d[j] by {
                if j < prev.len() {
                } else {
                    assert(d[j] == keys.last());
                    assert(prev.contains(d[i]) || d[i] == keys.last());
                    if d[i] == keys.last() {
                        assert(prev[i] == d[i]);
                        assert(prev.contains(keys.last()));
                        assert(keys.drop_last().contains(keys.last()));
                    }
                }
            }
        }
    }
}

/// Membership in a deduplicated sequence of a prefix.
proof fn lemma_dedup_take_step(keys: Seq<Seq<char>>, k: int)
    requires
        0 <= k < keys.len(),
    ensures
        dedup(keys.take(k + 1)) == if keys.take(k).contains(keys[k]) {
            dedup(keys.take(k))
        } else {
            dedup(keys.take(k)).push(keys[k])
        },
{
    let t = keys.take(k + 1);
    assert(t.drop_last() =~= keys.take(k));
    assert(t.last() == keys[k]);
}

/// A table is found under a key exactly when the key is one of the
/// canonical table keys.
pub proof fn lemma_has_table_iff(tables: Seq<TableModel>, key: Seq<char>)
    ensures
        has_table(tables, key) <==> table_canon_keys(tables).contains(key),
    decreases tables.len(),
{
    if tables.len() > 0 {
        lemma_has_table_iff(tables.drop_first(), key);
        assert(table_canon_keys(tables.drop_first()) =~= table_canon_keys(tables).drop_first());
        if lower_of(tables[0].name) == key {
            assert(table_canon_keys(tables)[0] == key);
        } else {
            if table_canon_keys(tables).contains(key) {
                let i = choose|i: int|
                    0 <= i < table_canon_keys(tables).len() && table_canon_keys(tables)[i] == key;
                assert(i > 0);
                assert(table_canon_keys(tables).drop_first()[i - 1] == key);
            }
            if table_canon_keys(tables).drop_first().contains(key) {
                let i = choose|i: int|
                    0 <= i < table_canon_keys(tables).drop_first().len()
                        && table_canon_keys(tables).drop_first()[i] == key;
                assert(table_canon_keys(tables)[i + 1] == key);
            }
        }
    }
}

/// A column is found under a key exactly when the key is one of the
/// canonical column keys.
pub proof fn lemma_has_col_iff(cols: Seq<ColModel>, key: Seq<char>)
    ensures
        has_col(cols, key) <==> col_canon_keys(cols).contains(key),
    decreases cols.len(),
{
    if cols.len() > 0 {
        lemma_has_col_iff(cols.drop_first(), key);
        assert(col_canon_keys(cols.drop_first()) =~= col_canon_keys(cols).drop_first());
        if lower_of(cols[0].name) == key {
            assert(col_canon_keys(cols)[0] == key);
        } else {
            if col_canon_keys(cols).contains(key) {
                let i = choose|i: int|
                    0 <= i < col_canon_keys(cols).len() && col_canon_keys(cols)[i] == key;
                assert(i > 0);
                assert(col_canon_keys(cols).drop_first()[i - 1] == key);
            }
            if col_canon_keys(cols).drop_first().contains(key) {
                let i = choose|i: int|
                    0 <= i < col_canon_keys(cols).drop_first().len()
                        && col_canon_keys(cols).drop_first()[i] == key;
                assert(col_canon_keys(cols)[i + 1] == key);
            }
        }
    }
}

/// `find_table` returns the entry at the first matching index.
pub proof fn lemma_find_table_at(tables: Seq<TableModel>, key: Seq<char>, i: int)
    requires
        0 <= i < tables.len(),
        lower_of(tables[i].name) == key,
        forall|j: int| 0 <= j < i ==> lower_of(tables[j].name) != key,
    ensures
        find_table(tables, key) == Some(tables[i]),
    decreases i,
{
    if i > 0 {
        lemma_find_table_at(tables.drop_first(), key, i - 1);
    }
}

/// `find_col` returns the entry at the first matching index.
pub proof fn lemma_find_col_at(cols: Seq<ColModel>, key: Seq<char>, i: int)
    requires
        0 <= i < cols.len(),
        lower_of(cols[i].name) == key,
        forall|j: int| 0 <= j < i ==> lower_of(cols[j].name) != key,
    ensures
        find_col(cols, key) == Some(cols[i]),
    decreases i,
{
    if i > 0 {
        lemma_find_col_at(cols.drop_first(), key, i - 1);
    }
}

/// When no index matches, nothing is found.
pub proof fn lemma_find_table_none(tables: Seq<TableModel>, key: Seq<char>)
    requires
        forall|j: int| 0 <= j < tables.len() ==> lower_of(tables[j].name) != key,
    ensures
        find_table(tables, key) is None,
    decreases tables.len(),
{
    if tables.len() > 0 {
        lemma_find_table_none(tables.drop_first(), key);
    }
}

/// When no index matches, nothing is found.
pub proof fn lemma_find_col_none(cols: Seq<ColModel>, key: Seq<char>)
    requires
        forall|j: int| 0 <= j < cols.len() ==> lower_of(cols[j].name) != key,
    ensures
        find_col(cols, key) is None,
    decreases cols.len(),
{
    if cols.len() > 0 {
        lemma_find_col_none(cols.drop_first(), key);
    }
}

/// True exactly when some entry of `v` views as `x`'s characters.
fn contains_string(v: &Vec<String>, x: &String) -> (r: bool)
    ensures
        r == str_views(v@).contains(x@),
{
    let mut i: usize = 0;
    while i < v.len()
        invariant
            i <= v@.len(),
            forall|a: int| 0 <= a < i ==> str_views(v@)[a] != x@,
        decreases v@.len() - i,
    {
        if v[i].eq(x) {
            assert(str_views(v@)[i as int] == x@);
            return true;
        }
        assert(str_views(v@)[i as int] == v@[i as int]@);
        i = i + 1;
    }
    false
}

/// Keeps the first occurrence of each entry, in order of first occurrence.
fn dedup_exec(keys: &Vec<String>) -> (r: Vec<String>)
    ensures
        str_views(r@) == dedup(str_views(keys@)),
{
    let ghost m = str_views(keys@);
    let mut r: Vec<String> = Vec::new();
    let mut k: usize = 0;
    proof {
        assert(m.take(0) =~= Seq::<Seq<char>>::empty());
        assert(str_views(r@) =~= dedup(m.take(0)));
    }
    while k < keys.len()
        invariant
            k <= keys@.len(),
            m == str_views(keys@),
            m.len() == keys@.len(),
            str_views(r@) == dedup(m.take(k as int)),
        decreases keys@.len() - k,
    {
        let present = contains_string(&r, &keys[k]);
        proof {
            lemma_dedup_membership(m.take(k as int));
            assert(m[k as int] == keys@[k as int]@);
            assert(present == m.take(k as int).contains(m[k as int]));
            lemma_dedup_take_step(m, k as int);
        }
        if !present {
            let ghost old_r = r@;
            r.push(keys[k].clone());
            proof {
                assert(str_views(r@) =~= str_views(old_r).push(keys@[k as int]@));
            }
        }
        k = k + 1;
    }
    proof {
        assert(m.take(keys@.len() as int) =~= m);
    }
    r
}

/// Index of the first table whose canonical name is `key`, if any.
fn find_table_idx(tables: &Vec<TableInfo>, key: &String) -> (r: Option<usize>)
    ensures
        match r {
            Some(i) => i < tables@.len() && find_table(table_models(tables@), key@) == Some(
                tables@[i as int]@,
            ),
            None => find_table(table_models(tables@), key@) is None,
        },
{
    let ghost ms = table_models(tables@);
    let mut i: usize = 0;
    while i < tables.len()
        invariant
            i <= tables@.len(),
            ms == table_models(tables@),
            ms.len() == tables@.len(),
            forall|j: int| 0 <= j < i ==> lower_of(ms[j].name) != key@,
        decreases tables@.len() - i,
    {
        let k = lowercase(tables[i].table_name.as_str());
        if k.eq(key) {
            proof {
                assert(ms[i as int] == tables@[i as int]@);
                assert(lower_of(ms[i as int].name) == key@);
                lemma_find_table_at(ms, key@, i as int);
            }
            return Some(i);
        }
        assert(ms[i as int] == tables@[i as int]@);
        i = i + 1;
    }
    proof {
        lemma_find_table_none(ms, key@);
    }
    None
}

/// Index of the first column whose canonical name is `key`, if any.
fn find_col_idx(cols: &Vec<ColInfo>, key: &String) -> (r: Option<usize>)
    ensures
        match r {
            Some(i) => i < cols@.len() && find_col(col_models(cols@), key@) == Some(
                cols@[i as int]@,
            ),
            None => find_col(col_models(cols@), key@) is None,
        },
{
    let ghost ms = col_models(cols@);
    let mut i: usize = 0;
    while i < cols.len()
        invariant
            i <= cols@.len(),
            ms == col_models(cols@),
            ms.len() == cols@.len(),
            forall|j: int| 0 <= j < i ==> lower_of(ms[j].name) != key@,
        decreases cols@.len() - i,
    {
        let k = lowercase(cols[i].col_name.as_str());
        if k.eq(key) {
            proof {
                assert(ms[i as int] == cols@[i as int]@);
                assert(lower_of(ms[i as int].name) == key@);
                lemma_find_col_at(ms, key@, i as int);
            }
            return Some(i);
        }
        assert(ms[i as int] == cols@[i as int]@);
        i = i + 1;
    }
    proof {
        lemma_find_col_none(ms, key@);
    }
    None
}

/// Builds the type-mismatch message for a column pair.
fn mismatch_message(bty: &String, cty: &String) -> (r: String)
    ensures
        r@ == msg_mismatch(bty@, cty@),
{
    let mut m = "column definition mismatch: ".to_owned();
    m.append(bty.as_str());
    m.append(" --> ");
    m.append(cty.as_str());
    m
}

/// Builds the remediation statement for one missing column.
fn alter_statement(table: &String, column: &String, ty: &String) -> (r: String)
    ensures
        r@ == stmt_of(table@, column@, ty@),
{
    let mut m = "ALTER TABLE ".to_owned();
    m.append(table.as_str());
    m.append(" ADD COLUMN ");
    m.append(column.as_str());
    m.append(" ");
    m.append(ty.as_str());
    m.append(";");
    m
}

/// Classifies every column of a matched table pair, appending one row per
/// key of the pair's column union and, when remediation is enabled, one
/// statement per column missing from the current side.
fn compare_matched_tables(
    db_name: &String,
    bt: &TableInfo,
    ct: &TableInfo,
    fix_lost_cols: bool,
    rows: &mut Vec<DiffRow>,
    alters: &mut Vec<String>,
)
    ensures
        row_views(final(rows)@) == row_views(old(rows)@) + matched_rows(db_name@, bt@, ct@),
        str_views(final(alters)@) == str_views(old(alters)@) + (if fix_lost_cols {
            matched_alters(bt@, ct@)
        } else {
            Seq::<Seq<char>>::empty()
        }),
{
    let ghost btm = bt@;
    let ghost ctm = ct@;
    let ghost db = db_name@;
    let ghost base_rows = rows@;
    let ghost base_alters = alters@;
    let mut all = canon_col_keys(&bt.col_infos);
    let ghost bpart = all@;
    let mut ckeys = canon_col_keys(&ct.col_infos);
    all.append(&mut ckeys);
    proof {
        assert forall|i: int|
            0 <= i < all@.len() implies str_views(all@)[i] == (col_canon_keys(btm.cols)
            + col_canon_keys(ctm.cols))[i] by {
            if i < bpart.len() {
                assert(all@[i] == bpart[i]);
                assert(str_views(all@)[i] == lower_of(bt.col_infos@[i]@.name));
                assert(btm.cols[i] == bt.col_infos@[i]@);
            } else {
                let k = i - bpart.len();
                assert(str_views(all@)[i] == lower_of(ct.col_infos@[k]@.name));
                assert(ctm.cols[k] == ct.col_infos@[k]@);
            }
        }
        assert(str_views(all@) =~= col_canon_keys(btm.cols) + col_canon_keys(ctm.cols));
    }
    let keys = dedup_exec(&all);
    let ghost u = col_union(btm, ctm);
    proof {
        assert(str_views(keys@) == u);
        assert(keys@.len() == u.len());
        assert(matched_rows(db, btm, ctm).take(0) =~= Seq::<RowModel>::empty());
        assert(row_views(rows@) =~= row_views(base_rows) + matched_rows(db, btm, ctm).take(0));
        assert(str_views(alters@) =~= str_views(base_alters) + matched_alters_upto(btm, ctm, 0));
        assert(str_views(alters@) =~= str_views(base_alters) + Seq::<Seq<char>>::empty());
    }
    let mut j: usize = 0;
    while j < keys.len()
        invariant
            j <= keys@.len(),
            btm == bt@,
            ctm == ct@,
            db == db_name@,
            u == col_union(btm, ctm),
            str_views(keys@) == u,
            keys@.len() == u.len(),
            row_views(rows@) == row_views(base_rows) + matched_rows(db, btm, ctm).take(j as int),
            str_views(alters@) == str_views(base_alters) + (if fix_lost_cols {
                matched_alters_upto(btm, ctm, j as int)
            } else {
                Seq::<Seq<char>>::empty()
            }),
        decreases keys@.len() - j,
    {
        let key = &keys[j];
        proof {
            assert(key@ == u[j as int]);
        }
        let ghost expected = col_row(db, ctm.name, btm, ctm, u[j as int]);
        proof {
            assert(matched_rows(db, btm, ctm)[j as int] == expected);
            assert(matched_rows(db, btm, ctm).take(j as int + 1) =~= matched_rows(
                db,
                btm,
                ctm,
            ).take(j as int).push(expected));
        }
        let fb = find_col_idx(&bt.col_infos, key);
        let fc = find_col_idx(&ct.col_infos, key);
        let ghost old_rows = rows@;
        let ghost old_alters = alters@;
        match (fb, fc) {
            (Some(bi), Some(ci)) => {
                let bcol = &bt.col_infos[bi];
                let ccol = &ct.col_infos[ci];
                let equal_ty = bcol.col_type.eq(&ccol.col_type);
                let row = DiffRow {
                    database: db_name.clone(),
                    table: ct.table_name.clone(),
                    column: ccol.col_name.clone(),
                    status: if equal_ty {
                        DiffStatus::Success
                    } else {
                        DiffStatus::Failure
                    },
                    message: if equal_ty {
                        String::new()
                    } else {
                        mismatch_message(&bcol.col_type, &ccol.col_type)
                    },
                };
                proof {
                    assert(row@ =~= expected);
                }
                rows.push(row);
                proof {
                    assert(row_views(rows@) =~= row_views(old_rows).push(expected));
                }
            },
            (Some(bi), None) => {
                let bcol = &bt.col_infos[bi];
                let row = DiffRow {
                    database: db_name.clone(),
                    table: ct.table_name.clone(),
                    column: bcol.col_name.clone(),
                    status: DiffStatus::Failure,
                    message: "column missing".to_owned(),
                };
                proof {
                    assert(row@ =~= expected);
                }
                rows.push(row);
                proof {
                    assert(row_views(rows@) =~= row_views(old_rows).push(expected));
                }
                if fix_lost_cols {
                    let stmt = alter_statement(&ct.table_name, &bcol.col_name, &bcol.col_type);
                    alters.push(stmt);
                    proof {
                        assert(str_views(alters@) =~= str_views(old_alters).push(
                            stmt_of(ctm.name, bcol@.name, bcol@.ty),
                        ));
                    }
                }
            },
            (None, Some(ci)) => {
                let ccol = &ct.col_infos[ci];
                let row = DiffRow {
                    database: db_name.clone(),
                    table: ct.table_name.clone(),
                    column: ccol.col_name.clone(),
                    status: DiffStatus::Failure,
                    message: "column added".to_owned(),
                };
                proof {
                    assert(row@ =~= expected);
                }
                rows.push(row);
                proof {
                    assert(row_views(rows@) =~= row_views(old_rows).push(expected));
                }
            },
            (None, None) => {
                proof {
                    let both = col_canon_keys(btm.cols) + col_canon_keys(ctm.cols);
                    lemma_dedup_membership(both);
                    assert(u[j as int] == u[j as int]);
                    assert(u.contains(u[j as int]));
                    assert(both.contains(u[j as int]));
                    let i = choose|i: int| 0 <= i < both.len() && both[i] == u[j as int];
                    if i < col_canon_keys(btm.cols).len() {
                        assert(col_canon_keys(btm.cols)[i] == u[j as int]);
                        assert(col_canon_keys(btm.cols).contains(u[j as int]));
                        lemma_has_col_iff(btm.cols, u[j as int]);
                    } else {
                        assert(col_canon_keys(ctm.cols)[i - col_canon_keys(btm.cols).len()]
                            == u[j as int]);
                        assert(col_canon_keys(ctm.cols).contains(u[j as int]));
                        lemma_has_col_iff(ctm.cols, u[j as int]);
                    }
                    assert(false);
                }
            },
        }
        j = j + 1;
    }
    proof {
        assert(matched_rows(db, btm, ctm).take(u.len() as int) =~= matched_rows(db, btm, ctm));
    }
}

/// Compares a fresh snapshot against a stored baseline and classifies the
/// drift: one failure row per table present on only one side, and, for each
/// matched table pair, one row per column of the pair's canonical column
/// union — success for equal type literals, failure for a type mismatch or
/// a column present on only one side. When `fix_lost_cols` is set, one
/// `ALTER TABLE ... ADD COLUMN ...;` statement is returned for each column
/// missing from the current schema, in row order. Neither snapshot is
/// changed; rows and statements follow baseline table and column order,
/// with the current snapshot's additions after them.
pub fn compare(baseline: &DBInfo, current: &DBInfo, fix_lost_cols: bool) -> (r: (
    Vec<DiffRow>,
    Vec<String>,
))
    ensures
        row_views(r.0@) == spec_compare(
            current@.name,
            baseline@.tables,
            current@.tables,
            fix_lost_cols,
        ).0,
        str_views(r.1@) == spec_compare(
            current@.name,
            baseline@.tables,
            current@.tables,
            fix_lost_cols,
        ).1,
{
    let ghost bm = baseline@.tables;
    let ghost cm = current@.tables;
    let ghost db = current@.name;
    let mut all = canon_table_keys(&baseline.table_infos);
    let ghost bpart = all@;
    let mut ckeys = canon_table_keys(&current.table_infos);
    all.append(&mut ckeys);
    proof {
        assert forall|i: int|
            0 <= i < all@.len() implies str_views(all@)[i] == (table_canon_keys(bm)
            + table_canon_keys(cm))[i] by {
            if i < bpart.len() {
                assert(all@[i] == bpart[i]);
                assert(str_views(all@)[i] == lower_of(baseline.table_infos@[i]@.name));
                assert(bm[i] == baseline.table_infos@[i]@);
            } else {
                let k = i - bpart.len();
                assert(str_views(all@)[i] == lower_of(current.table_infos@[k]@.name));
                assert(cm[k] == current.table_infos@[k]@);
            }
        }
        assert(str_views(all@) =~= table_canon_keys(bm) + table_canon_keys(cm));
    }
    let keys = dedup_exec(&all);
    let ghost u = table_union(bm, cm);
    proof {
        assert(str_views(keys@) == u);
        assert(keys@.len() == u.len());
    }
    let mut rows: Vec<DiffRow> = Vec::new();
    let mut alters: Vec<String> = Vec::new();
    proof {
        assert(row_views(rows@) =~= rows_upto(db, bm, cm, 0));
        assert(str_views(alters@) =~= alters_upto(bm, cm, 0));
        assert(str_views(alters@) =~= Seq::<Seq<char>>::empty());
    }
    let mut k: usize = 0;
    while k < keys.len()
        invariant
            k <= keys@.len(),
            bm == baseline@.tables,
            cm == current@.tables,
            db == current@.name,
            u == table_union(bm, cm),
            str_views(keys@) == u,
            keys@.len() == u.len(),
            row_views(rows@) == rows_upto(db, bm, cm, k as int),
            str_views(alters@) == (if fix_lost_cols {
                alters_upto(bm, cm, k as int)
            } else {
                Seq::<Seq<char>>::empty()
            }),
        decreases keys@.len() - k,
    {
        let key = &keys[k];
        proof {
            assert(key@ == u[k as int]);
        }
        let fb = find_table_idx(&baseline.table_infos, key);
        let fc = find_table_idx(&current.table_infos, key);
        let ghost old_rows = rows@;
        let ghost old_alters = alters@;
        match (fb, fc) {
            (Some(bi), Some(ci)) => {
                compare_matched_tables(
                    &current.db_name,
                    &baseline.table_infos[bi],
                    &current.table_infos[ci],
                    fix_lost_cols,
                    &mut rows,
                    &mut alters,
                );
                proof {
                    assert(row_views(rows@) =~= rows_upto(db, bm, cm, k as int + 1));
                    if fix_lost_cols {
                        assert(str_views(alters@) =~= alters_upto(bm, cm, k as int + 1));
                    } else {
                        assert(str_views(alters@) =~= Seq::<Seq<char>>::empty());
                    }
                }
            },
            (Some(bi), None) => {
                let bt = &baseline.table_infos[bi];
                let row = DiffRow {
                    database: current.db_name.clone(),
                    table: bt.table_name.clone(),
                    column: String::new(),
                    status: DiffStatus::Failure,
                    message: "table missing".to_owned(),
                };
                rows.push(row);
                proof {
                    assert(row_views(rows@) =~= rows_upto(db, bm, cm, k as int + 1));
                }
            },
            (None, Some(ci)) => {
                let ct = &current.table_infos[ci];
                let row = DiffRow {
                    database: current.db_name.clone(),
                    table: ct.table_name.clone(),
                    column: String::new(),
                    status: DiffStatus::Failure,
                    message: "table added".to_owned(),
                };
                rows.push(row);
                proof {
                    assert(row_views(rows@) =~= rows_upto(db, bm, cm, k as int + 1));
                }
            },
            (None, None) => {
                proof {
                    let both = table_canon_keys(bm) + table_canon_keys(cm);
                    lemma_dedup_membership(both);
                    assert(u.contains(u[k as int]));
                    assert(both.contains(u[k as int]));
                    let i = choose|i: int| 0 <= i < both.len() && both[i] == u[k as int];
                    if i < table_canon_keys(bm).len() {
                        assert(table_canon_keys(bm)[i] == u[k as int]);
                        assert(table_canon_keys(bm).contains(u[k as int]));
                        lemma_has_table_iff(bm, u[k as int]);
                    } else {
                        assert(table_canon_keys(cm)[i - table_canon_keys(bm).len()]
                            == u[k as int]);
                        assert(table_canon_keys(cm).contains(u[k as int]));
                        lemma_has_table_iff(cm, u[k as int]);
                    }
                    assert(false);
                }
            },
        }
        k = k + 1;
    }
    (rows, alters)
}

} // verus!
