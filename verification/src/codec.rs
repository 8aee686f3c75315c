use vstd::bytes::{spec_u64_from_le_bytes, spec_u64_to_le_bytes, u64_from_le_bytes, u64_to_le_bytes};
use vstd::prelude::*;
use vstd::slice::{slice_subrange, slice_to_vec};
use vstd::string::StrSliceExecFns;
use vstd::utf8::{decode_utf8, encode_utf8, encode_utf8_decode_utf8, encode_utf8_valid_utf8, valid_utf8};

use crate::model::{col_models, table_models, ColInfo, ColModel, DBInfo, DbModel, TableInfo, TableModel};

verus! {

/// Why a stored snapshot could not be read back.
#[derive(Clone, Copy, Debug, PartialEq, Eq, Structural)]
pub enum StoreError {
    /// No stored snapshot was found at the given location.
    NotFound,
    /// The bytes are not the encoding of any snapshot.
    Corrupt,
}

/// A string's encoding: its UTF-8 byte length as eight little-endian bytes,
/// then its UTF-8 bytes.
pub open spec fn enc_str(s: Seq<char>) -> Seq<u8> {
    spec_u64_to_le_bytes(encode_utf8(s).len() as u64) + encode_utf8(s)
}

/// A boolean's encoding: one byte, one or zero.
pub open spec fn enc_bool(v: bool) -> Seq<u8> {
    seq![if v { 1u8 } else { 0u8 }]
}

/// A column's encoding: name, type literal, nullability.
pub open spec fn enc_col(c: ColModel) -> Seq<u8> {
    enc_str(c.name) + enc_str(c.ty) + enc_bool(c.nullable)
}

/// The columns' encodings, in order.
pub open spec fn enc_cols(cols: Seq<ColModel>) -> Seq<u8>
    decreases cols.len(),
{
    if cols.len() == 0 {
        Seq::empty()
    } else {
        enc_col(cols[0]) + enc_cols(cols.drop_first())
    }
}

/// A table's encoding: name, column count, the columns.
pub open spec fn enc_table(t: TableModel) -> Seq<u8> {
    enc_str(t.name) + spec_u64_to_le_bytes(t.cols.len() as u64) + enc_cols(t.cols)
}

/// The tables' encodings, in order.
pub open spec fn enc_tables(tables: Seq<TableModel>) -> Seq<u8>
    decreases tables.len(),
{
    if tables.len() == 0 {
        Seq::empty()
    } else {
        enc_table(tables[0]) + enc_tables(tables.drop_first())
    }
}

/// A snapshot's encoding: name, table count, the tables.
pub open spec fn spec_encode(d: DbModel) -> Seq<u8> {
    enc_str(d.name) + spec_u64_to_le_bytes(d.tables.len() as u64) + enc_tables(d.tables)
}

/// The string's byte length fits the length field.
pub open spec fn str_encodable(s: Seq<char>) -> bool {
    encode_utf8(s).len() <= u64::MAX
}

pub open spec fn col_encodable(c: ColModel) -> bool {
    str_encodable(c.name) && str_encodable(c.ty)
}

pub open spec fn table_encodable(t: TableModel) -> bool {
    &&& str_encodable(t.name)
    &&& t.cols.len() <= u64::MAX
    &&& forall|i: int| 0 <= i < t.cols.len() ==> col_encodable(#[trigger] t.cols[i])
}

/// Every length of the snapshot fits its length field. Every snapshot held
/// in memory satisfies this.
pub open spec fn db_encodable(d: DbModel) -> bool {
    &&& str_encodable(d.name)
    &&& d.tables.len() <= u64::MAX
    &&& forall|i: int| 0 <= i < d.tables.len() ==> table_encodable(#[trigger] d.tables[i])
}

pub open spec fn parse_u64(b: Seq<u8>) -> Option<(u64, Seq<u8>)> {
    if b.len() >= 8 {
        Some((spec_u64_from_le_bytes(b.take(8)), b.skip(8)))
    } else {
        None
    }
}

pub open spec fn parse_str(b: Seq<u8>) -> Option<(Seq<char>, Seq<u8>)> {
    match parse_u64(b) {
        None => None,
        Some((n, rest)) => if rest.len() >= n as int && valid_utf8(rest.take(n as int)) {
            Some((decode_utf8(rest.take(n as int)), rest.skip(n as int)))
        } else {
            None
        },
    }
}

pub open spec fn parse_bool(b: Seq<u8>) -> Option<(bool, Seq<u8>)> {
    if b.len() >= 1 && (b[0] == 0 || b[0] == 1) {
        Some((b[0] == 1, b.skip(1)))
    } else {
        None
    }
}

pub open spec fn parse_col(b: Seq<u8>) -> Option<(ColModel, Seq<u8>)> {
    match parse_str(b) {
        None => None,
        Some((name, b1)) => match parse_str(b1) {
            None => None,
            Some((ty, b2)) => match parse_bool(b2) {
                None => None,
                Some((nullable, b3)) => Some((ColModel { name, ty, nullable }, b3)),
            },
        },
    }
}

pub open spec fn parse_cols(b: Seq<u8>, n: nat) -> Option<(Seq<ColModel>, Seq<u8>)>
    decreases n,
{
    if n == 0 {
        Some((Seq::empty(), b))
    } else {
        match parse_col(b) {
            None => None,
            Some((c, b1)) => match parse_cols(b1, (n - 1) as nat) {
                None => None,
                Some((cs, b2)) => Some((seq![c] + cs, b2)),
            },
        }
    }
}

pub open spec fn parse_table(b: Seq<u8>) -> Option<(TableModel, Seq<u8>)> {
    match parse_str(b) {
        None => None,
        Some((name, b1)) => match parse_u64(b1) {
            None => None,
            Some((n, b2)) => match parse_cols(b2, n as nat) {
                None => None,
                Some((cols, b3)) => Some((TableModel { name, cols }, b3)),
            },
        },
    }
}

pub open spec fn parse_tables(b: Seq<u8>, n: nat) -> Option<(Seq<TableModel>, Seq<u8>)>
    decreases n,
{
    if n == 0 {
        Some((Seq::empty(), b))
    } else {
        match parse_table(b) {
            None => None,
            Some((t, b1)) => match parse_tables(b1, (n - 1) as nat) {
                None => None,
                Some((ts, b2)) => Some((seq![t] + ts, b2)),
            },
        }
    }
}

pub open spec fn parse_db(b: Seq<u8>) -> Option<(DbModel, Seq<u8>)> {
    match parse_str(b) {
        None => None,
        Some((name, b1)) => match parse_u64(b1) {
            None => None,
            Some((n, b2)) => match parse_tables(b2, n as nat) {
                None => None,
                Some((tables, b3)) => Some((DbModel { name, tables }, b3)),
            },
        },
    }
}

/// What decoding returns: the snapshot whose encoding the bytes are, whole,
/// or nothing.
pub open spec fn spec_decode(b: Seq<u8>) -> Option<DbModel> {
    match parse_db(b) {
        None => None,
        Some((d, rest)) => if rest.len() == 0 {
            Some(d)
        } else {
            None
        },
    }
}

proof fn lemma_parse_u64_enc(x: u64, rest: Seq<u8>)
    ensures
        parse_u64(spec_u64_to_le_bytes(x) + rest) == Some((x, rest)),
{
    vstd::bytes::lemma_auto_spec_u64_to_from_le_bytes();
    let b = spec_u64_to_le_bytes(x) + rest;
    assert(b.take(8) =~= spec_u64_to_le_bytes(x));
    assert(b.skip(8) =~= rest);
}

proof fn lemma_parse_str_enc(s: Seq<char>, rest: Seq<u8>)
    requires
        str_encodable(s),
    ensures
        parse_str(enc_str(s) + rest) == Some((s, rest)),
{
    let u = encode_utf8(s);
    let n = u.len() as u64;
    assert(enc_str(s) + rest =~= spec_u64_to_le_bytes(n) + (u + rest));
    lemma_parse_u64_enc(n, u + rest);
    assert(n as int == u.len());
    assert((u + rest).take(n as int) =~= u);
    assert((u + rest).skip(n as int) =~= rest);
    encode_utf8_valid_utf8(s);
    encode_utf8_decode_utf8(s);
}

proof fn lemma_parse_bool_enc(v: bool, rest: Seq<u8>)
    ensures
        parse_bool(enc_bool(v) + rest) == Some((v, rest)),
{
    let b = enc_bool(v) + rest;
    assert(b[0] == if v { 1u8 } else { 0u8 });
    assert(b.skip(1) =~= rest);
}

proof fn lemma_parse_col_enc(c: ColModel, rest: Seq<u8>)
    requires
        col_encodable(c),
    ensures
        parse_col(enc_col(c) + rest) == Some((c, rest)),
{
    assert(enc_col(c) + rest =~= enc_str(c.name) + (enc_str(c.ty) + (enc_bool(c.nullable)
        + rest)));
    lemma_parse_str_enc(c.name, enc_str(c.ty) + (enc_bool(c.nullable) + rest));
    lemma_parse_str_enc(c.ty, enc_bool(c.nullable) + rest);
    lemma_parse_bool_enc(c.nullable, rest);
}

proof fn lemma_parse_cols_enc(cols: Seq<ColModel>, rest: Seq<u8>)
    requires
        forall|i: int| 0 <= i < cols.len() ==> col_encodable(#[trigger] cols[i]),
    ensures
        parse_cols(enc_cols(cols) + rest, cols.len()) == Some((cols, rest)),
    decreases cols.len(),
{
    if cols.len() == 0 {
        assert(enc_cols(cols) + rest =~= rest);
        assert(parse_cols(rest, 0) == Some((Seq::<ColModel>::empty(), rest)));
        assert(cols =~= Seq::<ColModel>::empty());
    } else {
        let tail = cols.drop_first();
        assert(enc_cols(cols) + rest =~= enc_col(cols[0]) + (enc_cols(tail) + rest));
        lemma_parse_col_enc(cols[0], enc_cols(tail) + rest);
        assert(forall|i: int| 0 <= i < tail.len() ==> col_encodable(#[trigger] tail[i])) by {
            assert(forall|i: int| 0 <= i < tail.len() ==> tail[i] == cols[i + 1]);
        }
        lemma_parse_cols_enc(tail, rest);
        assert(seq![cols[0]] + tail =~= cols);
    }
}

proof fn lemma_parse_table_enc(t: TableModel, rest: Seq<u8>)
    requires
        table_encodable(t),
    ensures
        parse_table(enc_table(t) + rest) == Some((t, rest)),
{
    let n = t.cols.len() as u64;
    assert(enc_table(t) + rest =~= enc_str(t.name) + (spec_u64_to_le_bytes(n) + (enc_cols(t.cols)
        + rest)));
    lemma_parse_str_enc(t.name, spec_u64_to_le_bytes(n) + (enc_cols(t.cols) + rest));
    lemma_parse_u64_enc(n, enc_cols(t.cols) + rest);
    assert(n as nat == t.cols.len());
    lemma_parse_cols_enc(t.cols, rest);
}

proof fn lemma_parse_tables_enc(tables: Seq<TableModel>, rest: Seq<u8>)
    requires
        forall|i: int| 0 <= i < tables.len() ==> table_encodable(#[trigger] tables[i]),
    ensures
        parse_tables(enc_tables(tables) + rest, tables.len()) == Some((tables, rest)),
    decreases tables.len(),
{
    if tables.len() == 0 {
        assert(enc_tables(tables) + rest =~= rest);
        assert(parse_tables(rest, 0) == Some((Seq::<TableModel>::empty(), rest)));
        assert(tables =~= Seq::<TableModel>::empty());
    } else {
        let tail = tables.drop_first();
        assert(enc_tables(tables) + rest =~= enc_table(tables[0]) + (enc_tables(tail) + rest));
        lemma_parse_table_enc(tables[0], enc_tables(tail) + rest);
        assert(forall|i: int| 0 <= i < tail.len() ==> table_encodable(#[trigger] tail[i])) by {
            assert(forall|i: int| 0 <= i < tail.len() ==> tail[i] == tables[i + 1]);
        }
        lemma_parse_tables_enc(tail, rest);
        assert(seq![tables[0]] + tail =~= tables);
    }
}

/// Round-trip fidelity: decoding the encoding of any snapshot whose lengths
/// fit their length fields — as every snapshot held in memory does — returns
/// that snapshot, structurally unchanged.
pub proof fn lemma_round_trip(d: DbModel)
    requires
        db_encodable(d),
    ensures
        spec_decode(spec_encode(d)) == Some(d),
{
    let n = d.tables.len() as u64;
    let empty = Seq::<u8>::empty();
    assert(spec_encode(d) =~= enc_str(d.name) + (spec_u64_to_le_bytes(n) + (enc_tables(d.tables)
        + empty)));
    lemma_parse_str_enc(d.name, spec_u64_to_le_bytes(n) + (enc_tables(d.tables) + empty));
    lemma_parse_u64_enc(n, enc_tables(d.tables) + empty);
    assert(n as nat == d.tables.len());
    lemma_parse_tables_enc(d.tables, empty);
}

/// Relies on `core::str::from_utf8` from std: it succeeds exactly on valid
/// UTF-8 input, and the resulting string views the given bytes.
#[verifier::external_body]
pub(crate) fn utf8_to_string(v: &Vec<u8>) -> (r: Option<String>)
    ensures
        r is Some <==> valid_utf8(v@),
        r matches Some(s) ==> s@ == decode_utf8(v@),
{
    match core::str::from_utf8(v.as_slice()) {
        Ok(s) => Some(s.to_string()),
        Err(_) => None,
    }
}

fn encode_u64_into(out: &mut Vec<u8>, x: u64)
    ensures
        final(out)@ == old(out)@ + spec_u64_to_le_bytes(x),
{
    let mut b = u64_to_le_bytes(x);
    out.append(&mut b);
}

fn encode_str_into(out: &mut Vec<u8>, s: &String)
    ensures
        final(out)@ == old(out)@ + enc_str(s@),
        str_encodable(s@),
{
    let ghost base = out@;
    let mut bytes = s.as_str().as_bytes_vec();
    let n: u64 = bytes.len() as u64;
    proof {
        assert(bytes@ == encode_utf8(s@));
        assert(n == encode_utf8(s@).len() as u64);
    }
    encode_u64_into(out, n);
    out.append(&mut bytes);
    proof {
        assert(out@ =~= base + enc_str(s@));
    }
}

fn encode_bool_into(out: &mut Vec<u8>, v: bool)
    ensures
        final(out)@ == old(out)@ + enc_bool(v),
{
    let ghost base = out@;
    out.push(if v { 1u8 } else { 0u8 });
    proof {
        assert(out@ =~= base + enc_bool(v));
    }
}

fn encode_col_into(out: &mut Vec<u8>, c: &ColInfo)
    ensures
        final(out)@ == old(out)@ + enc_col(c@),
        col_encodable(c@),
{
    let ghost base = out@;
    encode_str_into(out, &c.col_name);
    encode_str_into(out, &c.col_type);
    encode_bool_into(out, c.is_nullable);
    proof {
        assert(out@ =~= base + enc_col(c@));
    }
}

proof fn lemma_enc_cols_push(cols: Seq<ColModel>, c: ColModel)
    ensures
        enc_cols(cols.push(c)) == enc_cols(cols) + enc_col(c),
    decreases cols.len(),
{
    if cols.len() == 0 {
        assert(cols.push(c).drop_first() =~= Seq::<ColModel>::empty());
        assert(cols.push(c)[0] == c);
        assert(enc_cols(cols.push(c)) == enc_col(c) + enc_cols(Seq::<ColModel>::empty()));
        assert(enc_cols(cols.push(c)) =~= enc_cols(cols) + enc_col(c));
    } else {
        assert(cols.push(c).drop_first() =~= cols.drop_first().push(c));
        assert(cols.push(c)[0] == cols[0]);
        assert(enc_cols(cols.push(c)) == enc_col(cols[0]) + enc_cols(cols.drop_first().push(c)));
        lemma_enc_cols_push(cols.drop_first(), c);
        assert(enc_cols(cols.push(c)) =~= enc_cols(cols) + enc_col(c));
    }
}

proof fn lemma_enc_tables_push(tables: Seq<TableModel>, t: TableModel)
    ensures
        enc_tables(tables.push(t)) == enc_tables(tables) + enc_table(t),
    decreases tables.len(),
{
    if tables.len() == 0 {
        assert(tables.push(t).drop_first() =~= Seq::<TableModel>::empty());
        assert(tables.push(t)[0] == t);
        assert(enc_tables(tables.push(t)) == enc_table(t) + enc_tables(
            Seq::<TableModel>::empty(),
        ));
        assert(enc_tables(tables.push(t)) =~= enc_tables(tables) + enc_table(t));
    } else {
        assert(tables.push(t).drop_first() =~= tables.drop_first().push(t));
        assert(tables.push(t)[0] == tables[0]);
        assert(enc_tables(tables.push(t)) == enc_table(tables[0]) + enc_tables(
            tables.drop_first().push(t),
        ));
        lemma_enc_tables_push(tables.drop_first(), t);
        assert(enc_tables(tables.push(t)) =~= enc_tables(tables) + enc_table(t));
    }
}

fn encode_table_into(out: &mut Vec<u8>, t: &TableInfo)
    ensures
        final(out)@ == old(out)@ + enc_table(t@),
        table_encodable(t@),
{
    let ghost base = out@;
    encode_str_into(out, &t.table_name);
    encode_u64_into(out, t.col_infos.len() as u64);
    let ghost cols = t@.cols;
    let mut i: usize = 0;
    proof {
        assert(cols.take(0) =~= Seq::<ColModel>::empty());
        assert(out@ =~= base + enc_str(t@.name) + spec_u64_to_le_bytes(cols.len() as u64)
            + enc_cols(cols.take(0)));
    }
    while i < t.col_infos.len()
        invariant
            i <= t.col_infos@.len(),
            cols == t@.cols,
            cols.len() == t.col_infos@.len(),
            out@ == base + enc_str(t@.name) + spec_u64_to_le_bytes(cols.len() as u64) + enc_cols(
                cols.take(i as int),
            ),
            str_encodable(t@.name),
            forall|j: int| 0 <= j < i ==> col_encodable(#[trigger] cols[j]),
        decreases t.col_infos@.len() - i,
    {
        encode_col_into(out, &t.col_infos[i]);
        proof {
            assert(cols[i as int] == t.col_infos@[i as int]@);
            assert(cols.take(i as int + 1) =~= cols.take(i as int).push(cols[i as int]));
            lemma_enc_cols_push(cols.take(i as int), cols[i as int]);
        }
        i = i + 1;
    }
    proof {
        assert(cols.take(cols.len() as int) =~= cols);
        assert(out@ =~= base + enc_table(t@));
        assert(cols.len() <= usize::MAX);
    }
}

/// Encodes a snapshot for the store. Decoding the result returns a snapshot
/// structurally equal to this one.
pub fn encode_snapshot(d: &DBInfo) -> (r: Vec<u8>)
    ensures
        r@ == spec_encode(d@),
        spec_decode(r@) == Some(d@),
{
    let mut out: Vec<u8> = Vec::new();
    encode_str_into(&mut out, &d.db_name);
    encode_u64_into(&mut out, d.table_infos.len() as u64);
    let ghost tables = d@.tables;
    let ghost base = out@;
    let mut i: usize = 0;
    proof {
        assert(tables.take(0) =~= Seq::<TableModel>::empty());
        assert(out@ =~= base + enc_tables(tables.take(0)));
    }
    while i < d.table_infos.len()
        invariant
            i <= d.table_infos@.len(),
            tables == d@.tables,
            tables.len() == d.table_infos@.len(),
            base == Seq::<u8>::empty() + enc_str(d@.name) + spec_u64_to_le_bytes(
                tables.len() as u64,
            ),
            out@ == base + enc_tables(tables.take(i as int)),
            str_encodable(d@.name),
            forall|j: int| 0 <= j < i ==> table_encodable(#[trigger] tables[j]),
        decreases d.table_infos@.len() - i,
    {
        encode_table_into(&mut out, &d.table_infos[i]);
        proof {
            assert(tables[i as int] == d.table_infos@[i as int]@);
            assert(tables.take(i as int + 1) =~= tables.take(i as int).push(tables[i as int]));
            lemma_enc_tables_push(tables.take(i as int), tables[i as int]);
        }
        i = i + 1;
    }
    proof {
        assert(tables.take(tables.len() as int) =~= tables);
        assert(out@ =~= spec_encode(d@));
        assert(tables.len() <= usize::MAX);
        assert(db_encodable(d@));
        lemma_round_trip(d@);
    }
    out
}

fn decode_u64(bytes: &Vec<u8>, pos: usize) -> (r: Option<(u64, usize)>)
    requires
        pos <= bytes@.len(),
    ensures
        match r {
            Some(t) => t.1 <= bytes@.len() && pos <= t.1 && parse_u64(bytes@.skip(pos as int))
                == Some((t.0, bytes@.skip(t.1 as int))),
            None => parse_u64(bytes@.skip(pos as int)) is None,
        },
{
    if bytes.len() - pos >= 8 {
        let s = slice_subrange(bytes.as_slice(), pos, pos + 8);
        let x = u64_from_le_bytes(s);
        proof {
            assert(bytes@.skip(pos as int).take(8) =~= bytes@.subrange(pos as int, pos as int + 8));
            assert(bytes@.skip(pos as int).skip(8) =~= bytes@.skip(pos as int + 8));
        }
        Some((x, pos + 8))
    } else {
        None
    }
}

fn decode_str(bytes: &Vec<u8>, pos: usize) -> (r: Option<(String, usize)>)
    requires
        pos <= bytes@.len(),
    ensures
        match r {
            Some(t) => t.1 <= bytes@.len() && pos <= t.1 && parse_str(bytes@.skip(pos as int))
                == Some((t.0@, bytes@.skip(t.1 as int))),
            None => parse_str(bytes@.skip(pos as int)) is None,
        },
{
    match decode_u64(bytes, pos) {
        None => None,
        Some((n, p1)) => {
            if n > (bytes.len() - p1) as u64 {
                proof {
                    assert(bytes@.skip(p1 as int).len() < n as int);
                }
                None
            } else {
                let m = n as usize;
                let sub = slice_to_vec(slice_subrange(bytes.as_slice(), p1, p1 + m));
                proof {
                    assert(sub@ =~= bytes@.skip(p1 as int).take(n as int));
                }
                match utf8_to_string(&sub) {
                    None => None,
                    Some(s) => {
                        proof {
                            assert(bytes@.skip(p1 as int).skip(n as int) =~= bytes@.skip(
                                p1 as int + m as int,
                            ));
                        }
                        Some((s, p1 + m))
                    },
                }
            }
        },
    }
}

fn decode_bool(bytes: &Vec<u8>, pos: usize) -> (r: Option<(bool, usize)>)
    requires
        pos <= bytes@.len(),
    ensures
        match r {
            Some(t) => t.1 <= bytes@.len() && pos <= t.1 && parse_bool(bytes@.skip(pos as int))
                == Some((t.0, bytes@.skip(t.1 as int))),
            None => parse_bool(bytes@.skip(pos as int)) is None,
        },
{
    if bytes.len() - pos >= 1 {
        let v = bytes[pos];
        proof {
            assert(bytes@.skip(pos as int)[0] == bytes@[pos as int]);
            assert(bytes@.skip(pos as int).skip(1) =~= bytes@.skip(pos as int + 1));
        }
        if v == 0 {
            Some((false, pos + 1))
        } else if v == 1 {
            Some((true, pos + 1))
        } else {
            None
        }
    } else {
        None
    }
}

fn decode_col(bytes: &Vec<u8>, pos: usize) -> (r: Option<(ColInfo, usize)>)
    requires
        pos <= bytes@.len(),
    ensures
        match r {
            Some(t) => t.1 <= bytes@.len() && pos <= t.1 && parse_col(bytes@.skip(pos as int))
                == Some((t.0@, bytes@.skip(t.1 as int))),
            None => parse_col(bytes@.skip(pos as int)) is None,
        },
{
    match decode_str(bytes, pos) {
        None => None,
        Some((name, p1)) => match decode_str(bytes, p1) {
            None => None,
            Some((ty, p2)) => match decode_bool(bytes, p2) {
                None => None,
                Some((nullable, p3)) => {
                    let c = ColInfo { col_name: name, col_type: ty, is_nullable: nullable };
                    Some((c, p3))
                },
            },
        },
    }
}

fn decode_cols(bytes: &Vec<u8>, pos: usize, n: u64) -> (r: Option<(Vec<ColInfo>, usize)>)
    requires
        pos <= bytes@.len(),
    ensures
        match r {
            Some(t) => t.1 <= bytes@.len() && pos <= t.1 && parse_cols(
                bytes@.skip(pos as int),
                n as nat,
            ) == Some((col_models(t.0@), bytes@.skip(t.1 as int))),
            None => parse_cols(bytes@.skip(pos as int), n as nat) is None,
        },
{
    let mut acc: Vec<ColInfo> = Vec::new();
    let mut cur: usize = pos;
    let mut i: u64 = 0;
    proof {
        assert(col_models(acc@) =~= Seq::<ColModel>::empty());
    }
    while i < n
        invariant
            pos <= cur <= bytes@.len(),
            i <= n,
            ({
                let whole = parse_cols(bytes@.skip(pos as int), n as nat);
                let rest = parse_cols(bytes@.skip(cur as int), (n - i) as nat);
                match rest {
                    Some(t) => whole == Some((col_models(acc@) + t.0, t.1)),
                    None => whole is None,
                }
            }),
        decreases n - i,
    {
        let ghost whole = parse_cols(bytes@.skip(pos as int), n as nat);
        match decode_col(bytes, cur) {
            None => {
                proof {
                    assert(parse_cols(bytes@.skip(cur as int), (n - i) as nat) is None);
                }
                return None;
            },
            Some((c, p2)) => {
                proof {
                    let here = parse_cols(bytes@.skip(cur as int), (n - i) as nat);
                    let next = parse_cols(bytes@.skip(p2 as int), (n - i - 1) as nat);
                    match next {
                        Some(t) => {
                            assert(here == Some((seq![c@] + t.0, t.1)));
                            assert(col_models(acc@.push(c)) =~= col_models(acc@).push(c@));
                            assert(col_models(acc@) + (seq![c@] + t.0) =~= col_models(acc@.push(c))
                                + t.0);
                        },
                        None => {
                            assert(here is None);
                        },
                    }
                }
                acc.push(c);
                cur = p2;
            },
        }
        i = i + 1;
    }
    proof {
        assert(parse_cols(bytes@.skip(cur as int), 0) == Some(
            (Seq::<ColModel>::empty(), bytes@.skip(cur as int)),
        ));
        assert(col_models(acc@) + Seq::<ColModel>::empty() =~= col_models(acc@));
    }
    Some((acc, cur))
}

fn decode_table(bytes: &Vec<u8>, pos: usize) -> (r: Option<(TableInfo, usize)>)
    requires
        pos <= bytes@.len(),
    ensures
        match r {
            Some(t) => t.1 <= bytes@.len() && pos <= t.1 && parse_table(bytes@.skip(pos as int))
                == Some((t.0@, bytes@.skip(t.1 as int))),
            None => parse_table(bytes@.skip(pos as int)) is None,
        },
{
    match decode_str(bytes, pos) {
        None => None,
        Some((name, p1)) => match decode_u64(bytes, p1) {
            None => None,
            Some((n, p2)) => match decode_cols(bytes, p2, n) {
                None => None,
                Some((cols, p3)) => {
                    let t = TableInfo { table_name: name, col_infos: cols };
                    Some((t, p3))
                },
            },
        },
    }
}

fn decode_tables(bytes: &Vec<u8>, pos: usize, n: u64) -> (r: Option<(Vec<TableInfo>, usize)>)
    requires
        pos <= bytes@.len(),
    ensures
        match r {
            Some(t) => t.1 <= bytes@.len() && pos <= t.1 && parse_tables(
                bytes@.skip(pos as int),
                n as nat,
            ) == Some((table_models(t.0@), bytes@.skip(t.1 as int))),
            None => parse_tables(bytes@.skip(pos as int), n as nat) is None,
        },
{
    let mut acc: Vec<TableInfo> = Vec::new();
    let mut cur: usize = pos;
    let mut i: u64 = 0;
    proof {
        assert(table_models(acc@) =~= Seq::<TableModel>::empty());
    }
    while i < n
        invariant
            pos <= cur <= bytes@.len(),
            i <= n,
            ({
                let whole = parse_tables(bytes@.skip(pos as int), n as nat);
                let rest = parse_tables(bytes@.skip(cur as int), (n - i) as nat);
                match rest {
                    Some(t) => whole == Some((table_models(acc@) + t.0, t.1)),
                    None => whole is None,
                }
            }),
        decreases n - i,
    {
        match decode_table(bytes, cur) {
            None => {
                proof {
                    assert(parse_tables(bytes@.skip(cur as int), (n - i) as nat) is None);
                }
                return None;
            },
            Some((t, p2)) => {
                proof {
                    let here = parse_tables(bytes@.skip(cur as int), (n - i) as nat);
                    let next = parse_tables(bytes@.skip(p2 as int), (n - i - 1) as nat);
                    match next {
                        Some(tt) => {
                            assert(here == Some((seq![t@] + tt.0, tt.1)));
                            assert(table_models(acc@.push(t)) =~= table_models(acc@).push(t@));
                            assert(table_models(acc@) + (seq![t@] + tt.0) =~= table_models(
                                acc@.push(t),
                            ) + tt.0);
                        },
                        None => {
                            assert(here is None);
                        },
                    }
                }
                acc.push(t);
                cur = p2;
            },
        }
        i = i + 1;
    }
    proof {
        assert(parse_tables(bytes@.skip(cur as int), 0) == Some(
            (Seq::<TableModel>::empty(), bytes@.skip(cur as int)),
        ));
        assert(table_models(acc@) + Seq::<TableModel>::empty() =~= table_models(acc@));
    }
    Some((acc, cur))
}

/// Decodes a stored snapshot. Succeeds exactly on the bytes that are the
/// whole encoding of a snapshot, returning that snapshot; on any other
/// bytes the store content counts as corrupt.
pub fn decode_snapshot(bytes: &Vec<u8>) -> (r: Result<DBInfo, StoreError>)
    ensures
        match r {
            Ok(d) => spec_decode(bytes@) == Some(d@),
            Err(e) => spec_decode(bytes@) is None && e == StoreError::Corrupt,
        },
{
    proof {
        assert(bytes@.skip(0) =~= bytes@);
    }
    match decode_str(bytes, 0) {
        None => Err(StoreError::Corrupt),
        Some((name, p1)) => match decode_u64(bytes, p1) {
            None => Err(StoreError::Corrupt),
            Some((n, p2)) => match decode_tables(bytes, p2, n) {
                None => Err(StoreError::Corrupt),
                Some((tables, p3)) => {
                    if p3 == bytes.len() {
                        proof {
                            assert(bytes@.skip(p3 as int).len() == 0);
                        }
                        Ok(DBInfo { db_name: name, table_infos: tables })
                    } else {
                        proof {
                            assert(bytes@.skip(p3 as int).len() > 0);
                        }
                        Err(StoreError::Corrupt)
                    }
                },
            },
        },
    }
}

} // verus!
