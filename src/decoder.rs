//! The record decoder: a CSV capture log, header row first, to a sequence
//! of capture records in file order, or the first failure met.
//!
//! Columns are found by header name, in any order. The header must hold
//! every declared column exactly once and nothing else: a declared name that
//! it lacks or repeats, or a name that the schema does not declare, is a
//! schema mismatch naming that column.
//!
//! Rows are numbered as they stand in the file with the header as row 0,
//! so the first data row is row 1. Decoding fails fast: a declared column
//! missing from the header is reported before any row is looked at, and
//! otherwise the first malformed row or cell ends the decode.
use vstd::prelude::*;
use crate::codec::{Cell, CellModel, ColumnKind, decode_cell, decode_spec};
use crate::record::{CaptureRecord, cells_view, record_wf};
use crate::schema::{Column, columns_view, schema, schema_spec};

verus! {

/// Why a capture log could not be decoded.
#[derive(Clone, Debug, PartialEq)]
pub enum DecodeError {
    /// A declared column is not in the header.
    SchemaMismatch { column: String },
    /// A row is not valid CSV text, or holds another number of cells than
    /// the header; its number, where the CSV reader could tell it.
    RowFormat { row: Option<u64> },
    /// A numeric cell holds text that is neither a sentinel nor a number.
    SentinelParse { row: u64, column: String },
}

/// The mathematical value of a [`DecodeError`].
pub enum DecodeErrorModel {
    SchemaMismatch(Seq<char>),
    RowFormat(Option<u64>),
    SentinelParse(u64, Seq<char>),
}

impl View for DecodeError {
    type V = DecodeErrorModel;

    open spec fn view(&self) -> DecodeErrorModel {
        match self {
            DecodeError::SchemaMismatch { column } => DecodeErrorModel::SchemaMismatch(column@),
            DecodeError::RowFormat { row } => DecodeErrorModel::RowFormat(*row),
            DecodeError::SentinelParse { row, column } => DecodeErrorModel::SentinelParse(
                *row,
                column@,
            ),
        }
    }
}

pub open spec fn records_view(rs: Seq<CaptureRecord>) -> Seq<Seq<CellModel>> {
    rs.map_values(|r: CaptureRecord| r@)
}

pub open spec fn decode_result_view(r: Result<Vec<CaptureRecord>, DecodeError>) -> Result<
    Seq<Seq<CellModel>>,
    DecodeErrorModel,
> {
    match r {
        Ok(rs) => Ok(records_view(rs@)),
        Err(e) => Err(e@),
    }
}

/// The header row of a table of cells; empty for an empty table.
pub open spec fn header_of(t: Seq<Seq<Seq<char>>>) -> Seq<Seq<char>> {
    if t.len() > 0 {
        t[0]
    } else {
        Seq::empty()
    }
}

pub open spec fn has_name(h: Seq<Seq<char>>, name: Seq<char>) -> bool {
    exists|i: int| 0 <= i < h.len() && h[i] == name
}

/// `i` is the one place where `name` stands in the header `h`.
pub open spec fn is_only_index(h: Seq<Seq<char>>, name: Seq<char>, i: int) -> bool {
    0 <= i < h.len() && h[i] == name && forall|j: int| 0 <= j < h.len() && j != i ==> h[j] != name
}

/// `name` stands in the header `h` exactly once.
pub open spec fn resolves_once(h: Seq<Seq<char>>, name: Seq<char>) -> bool {
    exists|i: int| is_only_index(h, name, i)
}

/// Where `name` stands in the header `h`, when it stands there once.
pub open spec fn index_of(h: Seq<Seq<char>>, name: Seq<char>) -> int {
    choose|i: int| is_only_index(h, name, i)
}

/// The position in `cols` of the first column that the header `h` lacks or
/// repeats.
pub open spec fn unresolved_column(h: Seq<Seq<char>>, cols: Seq<(Seq<char>, ColumnKind)>) -> Option<
    int,
>
    decreases cols.len(),
{
    if cols.len() == 0 {
        None
    } else {
        match unresolved_column(h, cols.drop_last()) {
            Some(j) => Some(j),
            None => if resolves_once(h, cols.last().0) {
                None
            } else {
                Some(cols.len() - 1)
            },
        }
    }
}

/// `name` is the name of a column of `cols`.
pub open spec fn is_declared(cols: Seq<(Seq<char>, ColumnKind)>, name: Seq<char>) -> bool {
    exists|k: int| 0 <= k < cols.len() && cols[k].0 == name
}

/// The position of the first name of the header `h` that `cols` does not
/// declare.
pub open spec fn undeclared_name(h: Seq<Seq<char>>, cols: Seq<(Seq<char>, ColumnKind)>) -> Option<
    int,
>
    decreases h.len(),
{
    if h.len() == 0 {
        None
    } else {
        match undeclared_name(h.drop_last(), cols) {
            Some(i) => Some(i),
            None => if is_declared(cols, h.last()) {
                None
            } else {
                Some(h.len() - 1)
            },
        }
    }
}

/// The cells of `row` under the first `n` columns of `cols`, each read from
/// the header position of its column; or the position in `cols` of the
/// first column whose cell is malformed.
pub open spec fn decode_cells(
    h: Seq<Seq<char>>,
    row: Seq<Seq<char>>,
    cols: Seq<(Seq<char>, ColumnKind)>,
    n: nat,
) -> Result<Seq<CellModel>, int>
    decreases n,
{
    if n == 0 {
        Ok(Seq::empty())
    } else {
        match decode_cells(h, row, cols, (n - 1) as nat) {
            Err(j) => Err(j),
            Ok(cs) => match decode_spec(cols[n - 1].1, row[index_of(h, cols[n - 1].0)]) {
                Some(c) => Ok(cs.push(c)),
                None => Err(n - 1),
            },
        }
    }
}

/// The records of data rows `1` to `n` of the table `t`, or the failure of
/// the first of them that fails.
pub open spec fn decode_rows(t: Seq<Seq<Seq<char>>>, n: nat) -> Result<
    Seq<Seq<CellModel>>,
    DecodeErrorModel,
>
    decreases n,
{
    if n == 0 {
        Ok(Seq::empty())
    } else {
        match decode_rows(t, (n - 1) as nat) {
            Err(e) => Err(e),
            Ok(rs) => if t[n as int].len() != header_of(t).len() {
                Err(DecodeErrorModel::RowFormat(Some(n as u64)))
            } else {
                match decode_cells(header_of(t), t[n as int], schema_spec(), schema_spec().len()) {
                    Err(j) => Err(DecodeErrorModel::SentinelParse(n as u64, schema_spec()[j].0)),
                    Ok(cs) => Ok(rs.push(cs)),
                }
            },
        }
    }
}

/// What a table of cells, header row first, decodes to.
pub open spec fn decode_table_spec(t: Seq<Seq<Seq<char>>>) -> Result<
    Seq<Seq<CellModel>>,
    DecodeErrorModel,
> {
    match unresolved_column(header_of(t), schema_spec()) {
        Some(j) => Err(DecodeErrorModel::SchemaMismatch(schema_spec()[j].0)),
        None => match undeclared_name(header_of(t), schema_spec()) {
            Some(i) => Err(DecodeErrorModel::SchemaMismatch(header_of(t)[i])),
            None => if t.len() == 0 {
                Ok(Seq::empty())
            } else {
                decode_rows(t, (t.len() - 1) as nat)
            },
        },
    }
}

proof fn lemma_only_index(h: Seq<Seq<char>>, name: Seq<char>, i: int)
    requires
        is_only_index(h, name, i),
    ensures
        resolves_once(h, name),
        index_of(h, name) == i,
{
    let k = index_of(h, name);
    assert(is_only_index(h, name, k));
}

proof fn lemma_unresolved_prefix(h: Seq<Seq<char>>, cols: Seq<(Seq<char>, ColumnKind)>, k: int)
    requires
        0 <= k <= cols.len(),
        unresolved_column(h, cols.take(k)) is Some,
    ensures
        unresolved_column(h, cols) == unresolved_column(h, cols.take(k)),
    decreases cols.len(),
{
    if k == cols.len() {
        assert(cols.take(k) =~= cols);
    } else {
        assert(cols.drop_last().take(k) =~= cols.take(k));
        lemma_unresolved_prefix(h, cols.drop_last(), k);
    }
}

proof fn lemma_cells_fail_persists(
    h: Seq<Seq<char>>,
    row: Seq<Seq<char>>,
    cols: Seq<(Seq<char>, ColumnKind)>,
    m: nat,
    n: nat,
)
    requires
        m <= n,
        decode_cells(h, row, cols, m) is Err,
    ensures
        decode_cells(h, row, cols, n) == decode_cells(h, row, cols, m),
    decreases n - m,
{
    if m < n {
        lemma_cells_fail_persists(h, row, cols, m, (n - 1) as nat);
    }
}

proof fn lemma_rows_fail_persists(t: Seq<Seq<Seq<char>>>, m: nat, n: nat)
    requires
        m <= n,
        decode_rows(t, m) is Err,
    ensures
        decode_rows(t, n) == decode_rows(t, m),
    decreases n - m,
{
    if m < n {
        lemma_rows_fail_persists(t, m, (n - 1) as nat);
    }
}

proof fn lemma_cells_wf(
    h: Seq<Seq<char>>,
    row: Seq<Seq<char>>,
    cols: Seq<(Seq<char>, ColumnKind)>,
    n: nat,
)
    requires
        decode_cells(h, row, cols, n) is Ok,
    ensures
        decode_cells(h, row, cols, n)->Ok_0.len() == n,
        forall|k: int|
            0 <= k < n ==> crate::codec::cell_wf(
                cols[k].1,
                #[trigger] decode_cells(h, row, cols, n)->Ok_0[k],
            ),
    decreases n,
{
    if n > 0 {
        lemma_cells_wf(h, row, cols, (n - 1) as nat);
        crate::codec::lemma_decoded_wf(cols[n - 1].1, row[index_of(h, cols[n - 1].0)]);
    }
}

/// The one position of `name` in the header; `None` where the header lacks
/// it or holds it more than once.
fn find_column(header: &Vec<String>, name: &String) -> (r: Option<usize>)
    ensures
        match r {
            Some(i) => is_only_index(header.deep_view(), name@, i as int),
            None => !resolves_once(header.deep_view(), name@),
        },
{
    let ghost h = header.deep_view();
    let mut found: Option<usize> = None;
    let mut i: usize = 0;
    while i < header.len()
        invariant
            i <= header.len(),
            h == header.deep_view(),
            found is None ==> forall|j: int| 0 <= j < i ==> h[j] != name@,
            found matches Some(f) ==> f < i && h[f as int] == name@ && forall|j: int|
                0 <= j < i && j != f ==> h[j] != name@,
        decreases header.len() - i,
    {
        if header[i] == *name {
            match found {
                Some(f) => {
                    assert forall|k: int| !is_only_index(h, name@, k) by {
                        if k != f {
                            assert(h[f as int] == name@);
                        } else {
                            assert(h[i as int] == name@);
                        }
                    }
                    return None;
                },
                None => {
                    found = Some(i);
                },
            }
        }
        i = i + 1;
    }
    found
}

/// `name` is the name of a column of `cols`.
fn declares(cols: &Vec<Column>, name: &String) -> (r: bool)
    ensures
        r == is_declared(columns_view(cols@), name@),
{
    let ghost cv = columns_view(cols@);
    let mut k: usize = 0;
    while k < cols.len()
        invariant
            k <= cols@.len(),
            cv == columns_view(cols@),
            forall|m: int| 0 <= m < k ==> cv[m].0 != name@,
        decreases cols@.len() - k,
    {
        if cols[k].name == *name {
            assert(cv[k as int].0 == name@);
            return true;
        }
        k = k + 1;
    }
    false
}

proof fn lemma_undeclared_prefix(h: Seq<Seq<char>>, cols: Seq<(Seq<char>, ColumnKind)>, k: int)
    requires
        0 <= k <= h.len(),
        undeclared_name(h.take(k), cols) is Some,
    ensures
        undeclared_name(h, cols) == undeclared_name(h.take(k), cols),
    decreases h.len(),
{
    if k == h.len() {
        assert(h.take(k) =~= h);
    } else {
        assert(h.drop_last().take(k) =~= h.take(k));
        lemma_undeclared_prefix(h.drop_last(), cols, k);
    }
}

/// The position of the first header name that `cols` does not declare.
fn first_undeclared(header: &Vec<String>, cols: &Vec<Column>) -> (r: Option<usize>)
    ensures
        match r {
            Some(i) => i < header@.len() && undeclared_name(
                header.deep_view(),
                columns_view(cols@),
            ) == Some(i as int),
            None => undeclared_name(header.deep_view(), columns_view(cols@)) is None,
        },
{
    let ghost h = header.deep_view();
    let ghost cv = columns_view(cols@);
    let mut i: usize = 0;
    assert(h.take(0) =~= Seq::<Seq<char>>::empty());
    while i < header.len()
        invariant
            i <= header@.len(),
            h == header.deep_view(),
            cv == columns_view(cols@),
            undeclared_name(h.take(i as int), cv) is None,
        decreases header@.len() - i,
    {
        assert(h.take(i + 1).drop_last() =~= h.take(i as int));
        assert(h.take(i + 1).last() == h[i as int]);
        if !declares(cols, &header[i]) {
            proof {
                lemma_undeclared_prefix(h, cv, i + 1);
            }
            return Some(i);
        }
        i = i + 1;
    }
    assert(h.take(i as int) =~= h);
    None
}

/// The header position of every column of `cols`, or the position in `cols`
/// of the first column that the header lacks or repeats.
fn resolve_columns(header: &Vec<String>, cols: &Vec<Column>) -> (r: Result<Vec<usize>, usize>)
    ensures
        match r {
            Ok(idx) => unresolved_column(header.deep_view(), columns_view(cols@)) is None && idx@.len()
                == cols@.len() && forall|k: int|
                0 <= k < idx@.len() ==> is_only_index(
                    header.deep_view(),
                    cols@[k].name@,
                    #[trigger] idx@[k] as int,
                ),
            Err(j) => unresolved_column(header.deep_view(), columns_view(cols@)) == Some(j as int) && j
                < cols@.len(),
        },
{
    let ghost h = header.deep_view();
    let ghost cv = columns_view(cols@);
    let mut idx: Vec<usize> = Vec::new();
    let mut j: usize = 0;
    assert(cv.take(0) =~= Seq::<(Seq<char>, ColumnKind)>::empty());
    while j < cols.len()
        invariant
            j <= cols@.len(),
            h == header.deep_view(),
            cv == columns_view(cols@),
            unresolved_column(h, cv.take(j as int)) is None,
            idx@.len() == j,
            forall|k: int| 0 <= k < j ==> is_only_index(h, cols@[k].name@, #[trigger] idx@[k] as int),
        decreases cols@.len() - j,
    {
        assert(cv.take(j + 1).drop_last() =~= cv.take(j as int));
        assert(cv.take(j + 1).last() == cv[j as int]);
        match find_column(header, &cols[j].name) {
            Some(i) => {
                idx.push(i);
            },
            None => {
                proof {
                    lemma_unresolved_prefix(h, cv, j + 1);
                }
                return Err(j);
            },
        }
        j = j + 1;
    }
    assert(cv.take(j as int) =~= cv);
    Ok(idx)
}

/// The cells of `row` under the declared columns, or the position of the
/// first declared column whose cell is malformed.
fn decode_row(row: &Vec<String>, idx: &Vec<usize>, cols: &Vec<Column>, Ghost(h): Ghost<
    Seq<Seq<char>>,
>) -> (r: Result<Vec<Cell>, usize>)
    requires
        idx@.len() == cols@.len(),
        row@.len() == h.len(),
        forall|k: int|
            0 <= k < idx@.len() ==> is_only_index(h, cols@[k].name@, #[trigger] idx@[k] as int),
    ensures
        match r {
            Ok(cells) => decode_cells(h, row.deep_view(), columns_view(cols@), cols@.len())
                == Ok::<Seq<CellModel>, int>(cells_view(cells@)),
            Err(j) => j < cols@.len() && decode_cells(h, row.deep_view(), columns_view(cols@), cols@.len())
                == Err::<Seq<CellModel>, int>(j as int),
        },
{
    let ghost cv = columns_view(cols@);
    let ghost rv = row.deep_view();
    let mut cells: Vec<Cell> = Vec::new();
    let mut k: usize = 0;
    assert(cells_view(cells@) =~= Seq::<CellModel>::empty());
    while k < cols.len()
        invariant
            k <= cols@.len(),
            idx@.len() == cols@.len(),
            row@.len() == h.len(),
            cv == columns_view(cols@),
            rv == row.deep_view(),
            forall|m: int|
                0 <= m < idx@.len() ==> is_only_index(h, cols@[m].name@, #[trigger] idx@[m] as int),
            decode_cells(h, rv, cv, k as nat) == Ok::<Seq<CellModel>, int>(cells_view(cells@)),
        decreases cols@.len() - k,
    {
        let i = idx[k];
        proof {
            assert(is_only_index(h, cols@[k as int].name@, idx@[k as int] as int));
            lemma_only_index(h, cv[k as int].0, i as int);
        }
        match decode_cell(cols[k].kind, row[i].as_str()) {
            Ok(c) => {
                let ghost before = cells@;
                cells.push(c);
                assert(cells_view(cells@) =~= cells_view(before).push(c@));
            },
            Err(_) => {
                proof {
                    lemma_cells_fail_persists(h, rv, cv, (k + 1) as nat, cols@.len());
                }
                return Err(k);
            },
        }
        k = k + 1;
    }
    Ok(cells)
}

/// Decodes a table of cells, header row first, as the CSV reader gives it.
pub fn decode_table(table: &Vec<Vec<String>>) -> (r: Result<Vec<CaptureRecord>, DecodeError>)
    ensures
        decode_result_view(r) == decode_table_spec(table.deep_view()),
{
    let ghost t = table.deep_view();
    let cols = schema();
    let empty: Vec<String> = Vec::new();
    let header: &Vec<String> = if table.len() > 0 {
        &table[0]
    } else {
        &empty
    };
    assert(header.deep_view() =~= header_of(t));
    let idx = match resolve_columns(header, &cols) {
        Ok(idx) => idx,
        Err(j) => {
            return Err(DecodeError::SchemaMismatch { column: cols[j].name.clone() });
        },
    };
    if let Some(i) = first_undeclared(header, &cols) {
        return Err(DecodeError::SchemaMismatch { column: header[i].clone() });
    }
    let mut out: Vec<CaptureRecord> = Vec::new();
    if table.len() == 0 {
        assert(records_view(out@) =~= Seq::<Seq<CellModel>>::empty());
        return Ok(out);
    }
    let mut n: usize = 1;
    assert(records_view(out@) =~= Seq::<Seq<CellModel>>::empty());
    while n < table.len()
        invariant
            1 <= n <= table@.len(),
            t == table.deep_view(),
            columns_view(cols@) == schema_spec(),
            unresolved_column(header_of(t), schema_spec()) is None,
            undeclared_name(header_of(t), schema_spec()) is None,
            header.deep_view() == header_of(t),
            idx@.len() == cols@.len(),
            forall|k: int|
                0 <= k < idx@.len() ==> is_only_index(
                    header_of(t),
                    cols@[k].name@,
                    #[trigger] idx@[k] as int,
                ),
            decode_rows(t, (n - 1) as nat) == Ok::<Seq<Seq<CellModel>>, DecodeErrorModel>(
                records_view(out@),
            ),
        decreases table@.len() - n,
    {
        let row = &table[n];
        assert(t[n as int] == row.deep_view());
        assert(t[n as int].len() == row@.len());
        if row.len() != header.len() {
            proof {
                lemma_rows_fail_persists(t, n as nat, (t.len() - 1) as nat);
            }
            return Err(DecodeError::RowFormat { row: Some(n as u64) });
        }
        match decode_row(row, &idx, &cols, Ghost(header_of(t))) {
            Ok(cells) => {
                proof {
                    lemma_cells_wf(header_of(t), t[n as int], schema_spec(), schema_spec().len());
                    assert(record_wf(cells_view(cells@)));
                }
                let rec = CaptureRecord::from_cells(cells);
                let ghost before = out@;
                out.push(rec);
                assert(records_view(out@) =~= records_view(before).push(rec@));
            },
            Err(j) => {
                proof {
                    lemma_rows_fail_persists(t, n as nat, (t.len() - 1) as nat);
                }
                return Err(
                    DecodeError::SentinelParse { row: n as u64, column: cols[j].name.clone() },
                );
            },
        }
        n = n + 1;
    }
    Ok(out)
}

/// The records that the `csv` crate reads from `data` with headers off and
/// records of any length, each as its fields of text; or, at the first
/// record that is not valid UTF-8, that record's index as the error's
/// position gives it.
pub uninterp spec fn csv_table(data: Seq<u8>) -> Result<Seq<Seq<Seq<char>>>, Option<u64>>;

pub open spec fn table_result_view(r: Result<Vec<Vec<String>>, Option<u64>>) -> Result<
    Seq<Seq<Seq<char>>>,
    Option<u64>,
> {
    match r {
        Ok(t) => Ok(t.deep_view()),
        Err(p) => Err(p),
    }
}

/// Relies on `csv::ReaderBuilder` (`has_headers(false)`, `flexible(true)`)
/// and `Reader::records` to split `data` into records of fields, and on
/// `csv::Error::position` for the record where reading failed. The reader
/// closes a quoted field left open at the end of the input without an
/// error.
#[verifier::external_body]
fn read_csv(data: &[u8]) -> (r: Result<Vec<Vec<String>>, Option<u64>>)
    ensures
        table_result_view(r) == csv_table(data@),
{
    let mut reader = csv::ReaderBuilder::new().has_headers(false).flexible(true).from_reader(data);
    reader
        .records()
        .map(|rec| rec.map(|fields| fields.iter().map(String::from).collect()))
        .collect::<Result<Vec<Vec<String>>, csv::Error>>()
        .map_err(|e| e.position().map(|p| p.record()))
}

/// What a capture log held in `data` decodes to.
pub open spec fn decode_capture_spec(data: Seq<u8>) -> Result<Seq<Seq<CellModel>>, DecodeErrorModel> {
    match csv_table(data) {
        Ok(t) => decode_table_spec(t),
        Err(p) => Err(DecodeErrorModel::RowFormat(p)),
    }
}

/// Decodes a capture log held in memory: CSV text, header row first.
///
/// A row that is not valid UTF-8 is a row-format error. A quote left open
/// at the end of the input is not one by itself: the CSV reader ends the
/// field there, and the row fails only if its number of cells then differs
/// from the header's.
pub fn decode_capture(data: &[u8]) -> (r: Result<Vec<CaptureRecord>, DecodeError>)
    ensures
        decode_result_view(r) == decode_capture_spec(data@),
{
    match read_csv(data) {
        Ok(table) => decode_table(&table),
        Err(row) => Err(DecodeError::RowFormat { row }),
    }
}

proof fn lemma_unresolved_facts(h: Seq<Seq<char>>, cols: Seq<(Seq<char>, ColumnKind)>)
    ensures
        match unresolved_column(h, cols) {
            Some(k) => 0 <= k < cols.len() && !resolves_once(h, cols[k].0) && forall|m: int|
                0 <= m < k ==> resolves_once(h, #[trigger] cols[m].0),
            None => forall|m: int| 0 <= m < cols.len() ==> resolves_once(h, #[trigger] cols[m].0),
        },
    decreases cols.len(),
{
    if cols.len() > 0 {
        lemma_unresolved_facts(h, cols.drop_last());
        assert(forall|m: int| 0 <= m < cols.len() - 1 ==> cols.drop_last()[m] == cols[m]);
    }
}

/// A log whose header lacks a declared column fails with a schema mismatch,
/// whatever its rows hold. The column named is the first declared column
/// that the header lacks or repeats, so it is the missing column where no
/// other column is missing or repeated.
pub proof fn lemma_missing_column_fails(t: Seq<Seq<Seq<char>>>, j: int)
    requires
        0 <= j < schema_spec().len(),
        !has_name(header_of(t), schema_spec()[j].0),
    ensures
        exists|k: int|
            0 <= k <= j && !resolves_once(header_of(t), #[trigger] schema_spec()[k].0) && (forall|
                m: int,
            | 0 <= m < k ==> resolves_once(header_of(t), #[trigger] schema_spec()[m].0))
                && decode_table_spec(t) == Err::<Seq<Seq<CellModel>>, DecodeErrorModel>(
                DecodeErrorModel::SchemaMismatch(schema_spec()[k].0),
            ),
{
    let h = header_of(t);
    lemma_unresolved_facts(h, schema_spec());
    if resolves_once(h, schema_spec()[j].0) {
        let i = choose|i: int| is_only_index(h, schema_spec()[j].0, i);
        assert(h[i] == schema_spec()[j].0);
    }
    let k = unresolved_column(h, schema_spec())->0;
    assert(!resolves_once(h, schema_spec()[k].0));
}

proof fn lemma_undeclared_facts(h: Seq<Seq<char>>, cols: Seq<(Seq<char>, ColumnKind)>)
    ensures
        undeclared_name(h, cols) is None ==> forall|i: int|
            0 <= i < h.len() ==> is_declared(cols, #[trigger] h[i]),
    decreases h.len(),
{
    if h.len() > 0 {
        lemma_undeclared_facts(h.drop_last(), cols);
        assert(forall|i: int| 0 <= i < h.len() - 1 ==> h.drop_last()[i] == h[i]);
    }
}

/// `p` and `q` are permutations of `0..n`, each the inverse of the other.
pub open spec fn is_permutation(p: Seq<int>, q: Seq<int>, n: int) -> bool {
    &&& p.len() == n
    &&& q.len() == n
    &&& forall|i: int| 0 <= i < n ==> 0 <= #[trigger] p[i] < n && q[p[i]] == i
    &&& forall|i: int| 0 <= i < n ==> 0 <= #[trigger] q[i] < n && p[q[i]] == i
}

/// `t2` is the table `t` with its columns moved by `p`: cell `i` of each row
/// of `t2` is cell `p[i]` of the same row of `t`.
pub open spec fn moves_columns(t: Seq<Seq<Seq<char>>>, t2: Seq<Seq<Seq<char>>>, p: Seq<int>) -> bool {
    t2.len() == t.len() && forall|r: int|
        0 <= r < t.len() ==> (#[trigger] t2[r]).len() == t[r].len() && forall|i: int|
            0 <= i < t[r].len() ==> t2[r][i] == t[r][p[i]]
}

proof fn lemma_moved_index(h: Seq<Seq<char>>, h2: Seq<Seq<char>>, p: Seq<int>, q: Seq<int>, name: Seq<char>)
    requires
        is_permutation(p, q, h.len() as int),
        h2.len() == h.len(),
        forall|i: int| 0 <= i < h.len() ==> h2[i] == h[p[i]],
        resolves_once(h, name),
    ensures
        resolves_once(h2, name),
        index_of(h2, name) == q[index_of(h, name)],
{
    let a = index_of(h, name);
    assert(is_only_index(h, name, a));
    let b = q[a];
    assert(p[b] == a);
    assert forall|j: int| 0 <= j < h2.len() && j != b implies h2[j] != name by {
        if p[j] == a {
            assert(q[p[j]] == j);
        }
    }
    lemma_only_index(h2, name, b);
}

proof fn lemma_moved_cells(
    h: Seq<Seq<char>>,
    h2: Seq<Seq<char>>,
    row: Seq<Seq<char>>,
    row2: Seq<Seq<char>>,
    p: Seq<int>,
    q: Seq<int>,
    m: nat,
)
    requires
        is_permutation(p, q, h.len() as int),
        h2.len() == h.len(),
        row.len() == h.len(),
        row2.len() == row.len(),
        forall|i: int| 0 <= i < h.len() ==> h2[i] == h[p[i]],
        forall|i: int| 0 <= i < row.len() ==> row2[i] == row[p[i]],
        m <= schema_spec().len(),
        forall|k: int| 0 <= k < schema_spec().len() ==> resolves_once(h, #[trigger] schema_spec()[k].0),
    ensures
        decode_cells(h2, row2, schema_spec(), m) == decode_cells(h, row, schema_spec(), m),
    decreases m,
{
    if m > 0 {
        lemma_moved_cells(h, h2, row, row2, p, q, (m - 1) as nat);
        let name = schema_spec()[m - 1].0;
        lemma_moved_index(h, h2, p, q, name);
        let a = index_of(h, name);
        assert(is_only_index(h, name, a));
        assert(row2[q[a]] == row[p[q[a]]]);
    }
}

proof fn lemma_moved_rows(t: Seq<Seq<Seq<char>>>, t2: Seq<Seq<Seq<char>>>, p: Seq<int>, q: Seq<int>, n: nat)
    requires
        0 < t.len(),
        n < t.len(),
        moves_columns(t, t2, p),
        is_permutation(p, q, header_of(t).len() as int),
        forall|k: int|
            0 <= k < schema_spec().len() ==> resolves_once(header_of(t), #[trigger] schema_spec()[k].0),
    ensures
        decode_rows(t2, n) == decode_rows(t, n),
    decreases n,
{
    if n > 0 {
        lemma_moved_rows(t, t2, p, q, (n - 1) as nat);
        assert(t2[0].len() == t[0].len());
        assert(t2[n as int].len() == t[n as int].len());
        assert(forall|i: int| 0 <= i < t[0].len() ==> t2[0][i] == t[0][p[i]]);
        if t[n as int].len() == header_of(t).len() {
            assert(forall|i: int| 0 <= i < t[n as int].len() ==> t2[n as int][i] == t[n as int][p[i]]);
            lemma_moved_cells(
                header_of(t),
                header_of(t2),
                t[n as int],
                t2[n as int],
                p,
                q,
                schema_spec().len(),
            );
        }
    }
}

/// Columns are matched by header name, not by position: moving the columns
/// of a log that decodes, header and rows alike, gives the same records.
pub proof fn lemma_column_order_irrelevant(
    t: Seq<Seq<Seq<char>>>,
    t2: Seq<Seq<Seq<char>>>,
    p: Seq<int>,
    q: Seq<int>,
)
    requires
        decode_table_spec(t) is Ok,
        is_permutation(p, q, header_of(t).len() as int),
        moves_columns(t, t2, p),
    ensures
        decode_table_spec(t2) == decode_table_spec(t),
{
    let h = header_of(t);
    let cols = schema_spec();
    lemma_unresolved_facts(h, cols);
    assert(cols.len() > 0);
    if t.len() == 0 {
        assert(resolves_once(h, cols[0].0));
        assert(false);
    }
    let h2 = header_of(t2);
    assert(h2.len() == h.len());
    assert(forall|i: int| 0 <= i < h.len() ==> h2[i] == h[p[i]]);
    assert forall|k: int| 0 <= k < cols.len() implies resolves_once(h2, #[trigger] cols[k].0) by {
        lemma_moved_index(h, h2, p, q, cols[k].0);
    }
    lemma_unresolved_facts(h2, cols);
    lemma_undeclared_facts(h, cols);
    if undeclared_name(h2, cols) is Some {
        let i = undeclared_name(h2, cols)->0;
        lemma_undeclared_some(h2, cols);
        assert(is_declared(cols, h[p[i]]));
    }
    lemma_moved_rows(t, t2, p, q, (t.len() - 1) as nat);
}

proof fn lemma_undeclared_some(h: Seq<Seq<char>>, cols: Seq<(Seq<char>, ColumnKind)>)
    ensures
        undeclared_name(h, cols) matches Some(i) ==> 0 <= i < h.len() && !is_declared(cols, h[i]),
    decreases h.len(),
{
    if h.len() > 0 {
        lemma_undeclared_some(h.drop_last(), cols);
    }
}

} // verus!
