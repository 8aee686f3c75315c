use vstd::prelude::*;
use vstd::string::StrSliceExecFns;

use crate::canon::lower_of;
use crate::canon::lowercase;

verus! {

/// Mathematical model of one column: its name, its engine-reported type
/// literal, and whether it admits NULL.
pub struct ColModel {
    pub name: Seq<char>,
    pub ty: Seq<char>,
    pub nullable: bool,
}

/// Mathematical model of one table: its name and its columns.
pub struct TableModel {
    pub name: Seq<char>,
    pub cols: Seq<ColModel>,
}

/// Mathematical model of one database snapshot: its name and its tables.
pub struct DbModel {
    pub name: Seq<char>,
    pub tables: Seq<TableModel>,
}

/// A column's structural description. The type literal is compared as an
/// opaque string. Nullability is captured but takes no part in comparison.
#[derive(Debug, Clone, PartialEq)]
pub struct ColInfo {
    pub col_name: String,
    pub col_type: String,
    pub is_nullable: bool,
}

/// A table's structural description: its name and its columns.
#[derive(Debug, Clone, PartialEq)]
pub struct TableInfo {
    pub table_name: String,
    pub col_infos: Vec<ColInfo>,
}

/// A point-in-time snapshot of one schema's structural metadata.
/// Once constructed it is only ever read.
#[derive(Debug, Clone, PartialEq)]
pub struct DBInfo {
    pub db_name: String,
    pub table_infos: Vec<TableInfo>,
}

impl View for ColInfo {
    type V = ColModel;

    open spec fn view(&self) -> ColModel {
        ColModel { name: self.col_name@, ty: self.col_type@, nullable: self.is_nullable }
    }
}

/// The models of a sequence of columns.
pub open spec fn col_models(v: Seq<ColInfo>) -> Seq<ColModel> {
    v.map_values(|c: ColInfo| c@)
}

impl View for TableInfo {
    type V = TableModel;

    open spec fn view(&self) -> TableModel {
        TableModel { name: self.table_name@, cols: col_models(self.col_infos@) }
    }
}

/// The models of a sequence of tables.
pub open spec fn table_models(v: Seq<TableInfo>) -> Seq<TableModel> {
    v.map_values(|t: TableInfo| t@)
}

impl View for DBInfo {
    type V = DbModel;

    open spec fn view(&self) -> DbModel {
        DbModel { name: self.db_name@, tables: table_models(self.table_infos@) }
    }
}

/// All entries of the sequence differ from one another.
pub open spec fn pairwise_distinct(keys: Seq<Seq<char>>) -> bool {
    forall|i: int, j: int| 0 <= i < j < keys.len() ==> keys[i] != keys[j]
}

/// The canonical (lowercased) key of each column, in column order.
pub open spec fn col_canon_keys(cols: Seq<ColModel>) -> Seq<Seq<char>> {
    cols.map_values(|c: ColModel| lower_of(c.name))
}

/// The canonical (lowercased) key of each table, in table order.
pub open spec fn table_canon_keys(tables: Seq<TableModel>) -> Seq<Seq<char>> {
    tables.map_values(|t: TableModel| lower_of(t.name))
}

/// No two columns share a canonical (lowercased) name.
pub open spec fn cols_canonically_unique(cols: Seq<ColModel>) -> bool {
    pairwise_distinct(col_canon_keys(cols))
}

/// No two tables share a canonical (lowercased) name.
pub open spec fn tables_canonically_unique(tables: Seq<TableModel>) -> bool {
    pairwise_distinct(table_canon_keys(tables))
}

impl TableModel {
    /// A well-formed table names each column once, up to canonicalization.
    pub open spec fn wf(self) -> bool {
        cols_canonically_unique(self.cols)
    }
}

impl DbModel {
    /// A well-formed snapshot names each table once, up to canonicalization,
    /// and each of its tables is well formed.
    pub open spec fn wf(self) -> bool {
        &&& tables_canonically_unique(self.tables)
        &&& forall|i: int| 0 <= i < self.tables.len() ==> self.tables[i as int].wf()
    }
}

impl ColInfo {
    pub fn new(col_name: String, col_type: String, is_nullable: bool) -> (r: ColInfo)
        ensures
            r@ == (ColModel { name: col_name@, ty: col_type@, nullable: is_nullable }),
    {
        ColInfo { col_name, col_type, is_nullable }
    }

    /// Builds a column from one information-schema metadata triple. The
    /// nullability indicator is the literal word `YES` exactly when the
    /// column admits NULL.
    pub fn from_metadata(col_name: String, col_type: String, indicator: &str) -> (r: ColInfo)
        ensures
            r@ == (ColModel {
                name: col_name@,
                ty: col_type@,
                nullable: indicator@ == "YES"@,
            }),
    {
        proof {
            reveal_strlit("YES");
        }
        let n = indicator.unicode_len();
        let is_nullable = n == 3 && indicator.get_char(0) == 'Y' && indicator.get_char(1) == 'E'
            && indicator.get_char(2) == 'S';
        proof {
            if is_nullable {
                assert(indicator@ =~= "YES"@);
            } else {
                if indicator@ == "YES"@ {
                    assert(indicator@[0] == 'Y');
                    assert(indicator@[1] == 'E');
                    assert(indicator@[2] == 'S');
                    assert(false);
                }
            }
        }
        ColInfo { col_name, col_type, is_nullable }
    }
}

impl TableInfo {
    pub fn new(table_name: String, col_infos: Vec<ColInfo>) -> (r: TableInfo)
        ensures
            r@.name == table_name@,
            r@.cols == col_models(col_infos@),
    {
        TableInfo { table_name, col_infos }
    }
}

impl DBInfo {
    pub fn new(db_name: String, table_infos: Vec<TableInfo>) -> (r: DBInfo)
        ensures
            r@.name == db_name@,
            r@.tables == table_models(table_infos@),
    {
        DBInfo { db_name, table_infos }
    }
}

/// The canonical key of each column, in column order.
pub(crate) fn canon_col_keys(cols: &Vec<ColInfo>) -> (r: Vec<String>)
    ensures
        r@.len() == cols@.len(),
        forall|i: int| 0 <= i < cols@.len() ==> r@[i]@ == lower_of(cols@[i]@.name),
{
    let mut r: Vec<String> = Vec::new();
    let mut k: usize = 0;
    while k < cols.len()
        invariant
            k <= cols@.len(),
            r@.len() == k,
            forall|i: int| 0 <= i < k ==> r@[i]@ == lower_of(cols@[i]@.name),
        decreases cols@.len() - k,
    {
        r.push(lowercase(cols[k].col_name.as_str()));
        k = k + 1;
    }
    r
}

/// The canonical key of each table, in table order.
pub(crate) fn canon_table_keys(tables: &Vec<TableInfo>) -> (r: Vec<String>)
    ensures
        r@.len() == tables@.len(),
        forall|i: int| 0 <= i < tables@.len() ==> r@[i]@ == lower_of(tables@[i]@.name),
{
    let mut r: Vec<String> = Vec::new();
    let mut k: usize = 0;
    while k < tables.len()
        invariant
            k <= tables@.len(),
            r@.len() == k,
            forall|i: int| 0 <= i < k ==> r@[i]@ == lower_of(tables@[i]@.name),
        decreases tables@.len() - k,
    {
        r.push(lowercase(tables[k].table_name.as_str()));
        k = k + 1;
    }
    r
}

/// True exactly when no two entries are equal.
pub(crate) fn all_distinct(keys: &Vec<String>) -> (r: bool)
    ensures
        r == pairwise_distinct(keys@.map_values(|s: String| s@)),
{
    let ghost m = keys@.map_values(|s: String| s@);
    proof {
        assert(m.len() == keys@.len());
        assert(forall|a: int| 0 <= a < keys@.len() ==> m[a] == keys@[a]@);
    }
    let n = keys.len();
    let mut i: usize = 0;
    while i < n
        invariant
            n == keys@.len(),
            m == keys@.map_values(|s: String| s@),
            m.len() == n,
            forall|a: int| 0 <= a < n ==> m[a] == keys@[a]@,
            i <= n,
            forall|a: int, b: int| 0 <= a < b < n && a < i ==> m[a] != m[b],
        decreases n - i,
    {
        let mut j: usize = i + 1;
        while j < n
            invariant
                n == keys@.len(),
                m == keys@.map_values(|s: String| s@),
                m.len() == n,
                forall|a: int| 0 <= a < n ==> m[a] == keys@[a]@,
                i < n,
                i < j,
                j <= n,
                forall|a: int, b: int| 0 <= a < b < n && a < i ==> m[a] != m[b],
                forall|b: int| i < b < j ==> m[i as int] != m[b],
            decreases n - j,
        {
            let equal = keys[i].eq(&keys[j]);
            if equal {
                proof {
                    assert(m[i as int] == keys@[i as int]@);
                    assert(m[j as int] == keys@[j as int]@);
                    assert(m[i as int] == m[j as int]);
                    assert(0 <= i < j < m.len());
                    assert(!pairwise_distinct(m));
                }
                return false;
            }
            j = j + 1;
        }
        i = i + 1;
    }
    true
}

impl TableInfo {
    /// Decides the table's well-formedness: column names unique under
    /// case-insensitive canonicalization.
    pub fn is_wf(&self) -> (r: bool)
        ensures
            r == self@.wf(),
    {
        let keys = canon_col_keys(&self.col_infos);
        let r = all_distinct(&keys);
        proof {
            let m = keys@.map_values(|s: String| s@);
            assert(forall|i: int|
                0 <= i < m.len() ==> m[i] == keys@[i]@);
            assert(forall|i: int|
                0 <= i < self@.cols.len() ==> self@.cols[i] == self.col_infos@[i]@);
            assert(m =~= col_canon_keys(self@.cols));
        }
        r
    }
}

impl DBInfo {
    /// Decides the snapshot's well-formedness: table names unique under
    /// case-insensitive canonicalization, and every table well formed.
    pub fn is_wf(&self) -> (r: bool)
        ensures
            r == self@.wf(),
    {
        let keys = canon_table_keys(&self.table_infos);
        proof {
            let m = keys@.map_values(|s: String| s@);
            assert(forall|i: int|
                0 <= i < m.len() ==> m[i] == keys@[i]@);
            assert(forall|i: int|
                0 <= i < self@.tables.len() ==> self@.tables[i] == self.table_infos@[i]@);
            assert(m =~= table_canon_keys(self@.tables));
        }
        if !all_distinct(&keys) {
            return false;
        }
        let mut k: usize = 0;
        while k < self.table_infos.len()
            invariant
                k <= self@.tables.len(),
                self@.tables.len() == self.table_infos@.len(),
                tables_canonically_unique(self@.tables),
                forall|i: int| 0 <= i < k ==> self@.tables[i].wf(),
            decreases self@.tables.len() - k,
        {
            assert(self@.tables[k as int] == self.table_infos@[k as int]@);
            if !self.table_infos[k].is_wf() {
                return false;
            }
            k = k + 1;
        }
        true
    }
}

} // verus!
