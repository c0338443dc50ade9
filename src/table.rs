use vstd::prelude::*;

use crate::error::IngestError;
use crate::schema::{field_views, names_unique, types_of, ColumnType, Field, Schema};
use crate::infer::{infer_schema, inferred_schema};
use crate::text::{
    boolean_value, decode_text, decoded, float_text, integer_value, is_float_text, parse_boolean,
    parse_integer, row_views, rows_of, split_rows,
};

verus! {

/// One value of a column. A floating-point value is kept as the text it was
/// read from, which arrow's float parser accepts.
#[derive(Debug)]
pub enum Cell {
    Boolean(bool),
    Integer(i64),
    Float(String),
    Text(String),
}

/// What a cell holds.
pub enum CellValue {
    Boolean(bool),
    Integer(i64),
    Float(Seq<char>),
    Text(Seq<char>),
}

impl View for Cell {
    type V = CellValue;

    open spec fn view(&self) -> CellValue {
        match self {
            Cell::Boolean(b) => CellValue::Boolean(*b),
            Cell::Integer(n) => CellValue::Integer(*n),
            Cell::Float(s) => CellValue::Float(s@),
            Cell::Text(s) => CellValue::Text(s@),
        }
    }
}

/// The value a field holds as a column of type `ty`; `None` where it holds none.
pub open spec fn cell_value(ty: ColumnType, b: Seq<u8>) -> Option<CellValue> {
    match ty {
        ColumnType::Boolean => match boolean_value(b) {
            Some(v) => Some(CellValue::Boolean(v)),
            None => None,
        },
        ColumnType::Integer => match integer_value(b) {
            Some(v) => Some(CellValue::Integer(v)),
            None => None,
        },
        ColumnType::Float => if float_text(b) {
            Some(CellValue::Float(decoded(b)))
        } else {
            None
        },
        ColumnType::Text => Some(CellValue::Text(decoded(b))),
    }
}

/// Reads a field as a value of type `ty`.
pub fn parse_cell(ty: ColumnType, b: &[u8]) -> (r: Option<Cell>)
    ensures
        r is Some <==> cell_value(ty, b@) is Some,
        r matches Some(c) ==> c@ == cell_value(ty, b@).unwrap(),
{
    match ty {
        ColumnType::Boolean => match parse_boolean(b) {
            Some(v) => Some(Cell::Boolean(v)),
            None => None,
        },
        ColumnType::Integer => match parse_integer(b) {
            Some(v) => Some(Cell::Integer(v)),
            None => None,
        },
        ColumnType::Float => if is_float_text(b) {
            Some(Cell::Float(decode_text(b)))
        } else {
            None
        },
        ColumnType::Text => Some(Cell::Text(decode_text(b))),
    }
}

/// The index of the first column named `name`, or -1.
pub open spec fn position(cols: Seq<(Seq<char>, ColumnType)>, name: Seq<char>) -> int
    decreases cols.len(),
{
    if cols.len() == 0 {
        -1
    } else {
        let p = position(cols.drop_last(), name);
        if p >= 0 {
            p
        } else if cols.last().0 == name {
            cols.len() - 1
        } else {
            -1
        }
    }
}

pub proof fn lemma_position_bounds(cols: Seq<(Seq<char>, ColumnType)>, name: Seq<char>)
    ensures
        -1 <= position(cols, name) < cols.len(),
        position(cols, name) >= 0 ==> cols[position(cols, name)].0 == name,
        position(cols, name) == -1 ==> forall|i: int| 0 <= i < cols.len() ==> (#[trigger] cols[i]).0 != name,
    decreases cols.len(),
{
    if cols.len() > 0 {
        lemma_position_bounds(cols.drop_last(), name);
        let d = cols.drop_last();
        assert forall|i: int| 0 <= i < d.len() implies #[trigger] d[i] == cols[i] by {}
        if position(cols, name) == -1 {
            assert forall|i: int| 0 <= i < cols.len() implies (#[trigger] cols[i]).0 != name by {
                if i < d.len() {
                    assert(d[i] == cols[i]);
                }
            }
        }
    }
}

/// The columns that a projection keeps, by index in the schema: all of them
/// in order where there is no projection; `None` where a name is missing.
pub open spec fn column_ids(cols: Seq<(Seq<char>, ColumnType)>, projection: Option<Seq<Seq<char>>>) -> Option<Seq<int>> {
    match projection {
        None => Some(Seq::new(cols.len(), |i: int| i)),
        Some(names) => if forall|q: int| 0 <= q < names.len() ==> position(cols, #[trigger] names[q]) >= 0 {
            Some(names.map_values(|nm: Seq<char>| position(cols, nm)))
        } else {
            None
        },
    }
}

pub open spec fn names_view(v: Seq<String>) -> Seq<Seq<char>> {
    v.map_values(|s: String| s@)
}

fn find_column(schema: &Schema, name: &String) -> (r: Option<usize>)
    ensures
        r matches Some(i) ==> i == position(schema@, name@),
        r is None ==> position(schema@, name@) == -1,
{
    let fields = schema.fields();
    let mut i: usize = 0;
    while i < fields.len()
        invariant
            i <= fields@.len(),
            schema@ == crate::schema::field_views(fields@),
            position(schema@.subrange(0, i as int), name@) == -1,
        decreases fields@.len() - i,
    {
        let ghost p = schema@.subrange(0, i as int + 1);
        proof {
            assert(p.drop_last() =~= schema@.subrange(0, i as int));
            assert(p.last() == fields@[i as int]@);
        }
        if fields[i].name == *name {
            proof {
                lemma_position_prefix(schema@, name@, i as int + 1);
            }
            return Some(i);
        }
        i = i + 1;
    }
    proof {
        assert(schema@.subrange(0, i as int) =~= schema@);
    }
    None
}

/// A column found in a prefix keeps its position in the whole.
proof fn lemma_position_prefix(cols: Seq<(Seq<char>, ColumnType)>, name: Seq<char>, k: int)
    requires
        0 <= k <= cols.len(),
        position(cols.subrange(0, k), name) >= 0,
    ensures
        position(cols, name) == position(cols.subrange(0, k), name),
    decreases cols.len() - k,
{
    if k < cols.len() {
        let p = cols.subrange(0, k + 1);
        assert(p.drop_last() =~= cols.subrange(0, k));
        lemma_position_prefix(cols, name, k + 1);
    } else {
        assert(cols.subrange(0, k) =~= cols);
    }
}

/// Checks a projection against the schema and gives the indices of the
/// columns it keeps; fails with the first name that the schema lacks.
pub fn resolve_projection(schema: &Schema, projection: &Option<Vec<String>>) -> (r: Result<Vec<usize>, IngestError>)
    ensures
        r is Ok <==> column_ids(schema@, projection_view(projection)) is Some,
        r matches Ok(ids) ==> ids@.map_values(|i: usize| i as int) == column_ids(schema@, projection_view(projection)).unwrap(),
        r matches Err(e) ==> e matches IngestError::ProjectionError { name } && missing_first(schema@, projection_view(projection).unwrap(), name@),
{
    match projection {
        None => {
            let mut ids: Vec<usize> = Vec::new();
            let mut i: usize = 0;
            while i < schema.len()
                invariant
                    i <= schema@.len(),
                    ids@.map_values(|x: usize| x as int) =~= Seq::new(i as nat, |q: int| q),
                decreases schema@.len() - i,
            {
                let ghost before = ids@;
                ids.push(i);
                proof {
                    assert(ids@ =~= before.push(i));
                    assert(ids@.map_values(|x: usize| x as int) =~= before.map_values(|x: usize| x as int).push(i as int));
                }
                i = i + 1;
            }
            Ok(ids)
        },
        Some(names) => {
            let ghost nv = names_view(names@);
            let mut ids: Vec<usize> = Vec::new();
            let mut q: usize = 0;
            while q < names.len()
                invariant
                    q <= names@.len(),
                    nv == names_view(names@),
                    projection_view(projection) == Some(nv),
                    ids@.map_values(|x: usize| x as int) =~= Seq::new(q as nat, |k: int| position(schema@, nv[k])),
                    forall|k: int| 0 <= k < q ==> position(schema@, #[trigger] nv[k]) >= 0,
                decreases names@.len() - q,
            {
                match find_column(schema, &names[q]) {
                    Some(i) => {
                        let ghost before = ids@;
                        ids.push(i);
                        proof {
                            assert(ids@ =~= before.push(i));
                            assert(ids@.map_values(|x: usize| x as int) =~= before.map_values(|x: usize| x as int).push(i as int));
                        }
                    },
                    None => {
                        let name = names[q].clone();
                        proof {
                            assert(nv[q as int] == names@[q as int]@);
                            assert(position(schema@, nv[q as int]) == -1);
                            assert(missing_first(schema@, nv, name@));
                        }
                        return Err(IngestError::ProjectionError { name });
                    },
                }
                q = q + 1;
            }
            proof {
                assert(nv.map_values(|nm: Seq<char>| position(schema@, nm)) =~= Seq::new(q as nat, |k: int| position(schema@, nv[k])));
            }
            Ok(ids)
        },
    }
}

/// The names of a projection, if there is one.
pub open spec fn projection_view(projection: &Option<Vec<String>>) -> Option<Seq<Seq<char>>> {
    match projection {
        None => None,
        Some(v) => Some(names_view(v@)),
    }
}

/// `name` is the first name of `names` that the schema lacks.
pub open spec fn missing_first(cols: Seq<(Seq<char>, ColumnType)>, names: Seq<Seq<char>>, name: Seq<char>) -> bool {
    exists|q: int|
        0 <= q < names.len() && #[trigger] names[q] == name && position(cols, name) == -1
            && forall|k: int| 0 <= k < q ==> position(cols, #[trigger] names[k]) >= 0
}

pub open spec fn cells_view(v: Seq<Cell>) -> Seq<CellValue> {
    v.map_values(|c: Cell| c@)
}

pub open spec fn columns_view(v: Seq<Vec<Cell>>) -> Seq<Seq<CellValue>> {
    v.map_values(|col: Vec<Cell>| cells_view(col@))
}

/// Up to `batch_size` rows, held column by column; every column has
/// `num_rows` values.
#[derive(Debug)]
pub struct RecordBatch {
    columns: Vec<Vec<Cell>>,
    num_rows: usize,
}

/// What a batch holds: its columns' values, and its number of rows.
pub struct BatchView {
    pub columns: Seq<Seq<CellValue>>,
    pub num_rows: nat,
}

impl View for RecordBatch {
    type V = BatchView;

    closed spec fn view(&self) -> BatchView {
        BatchView { columns: columns_view(self.columns@), num_rows: self.num_rows as nat }
    }
}

impl RecordBatch {
    pub fn num_rows(&self) -> (r: usize)
        ensures
            r == self@.num_rows,
    {
        self.num_rows
    }

    pub fn num_columns(&self) -> (r: usize)
        ensures
            r == self@.columns.len(),
    {
        self.columns.len()
    }

    pub fn column(&self, j: usize) -> (r: &Vec<Cell>)
        requires
            j < self@.columns.len(),
        ensures
            cells_view(r@) == self@.columns[j as int],
    {
        &self.columns[j]
    }
}

pub open spec fn batch_views(v: Seq<RecordBatch>) -> Seq<BatchView> {
    v.map_values(|b: RecordBatch| b@)
}

/// The recognised options of a delimited text.
#[derive(Debug)]
pub struct CsvOptions {
    /// The first line names the columns and is no data row.
    pub has_header: bool,
    /// The byte between fields.
    pub delimiter: u8,
    /// The most rows a batch holds.
    pub batch_size: usize,
    /// The names of the columns to keep, in order; all of them where absent.
    pub projection: Option<Vec<String>>,
}

impl Default for CsvOptions {
    fn default() -> (r: CsvOptions)
        ensures
            r.has_header,
            r.delimiter == 44,
            r.batch_size == 1024,
            r.projection is None,
    {
        CsvOptions { has_header: true, delimiter: 44u8, batch_size: 1024, projection: None }
    }
}

/// The data rows of a text: its lines split into fields, less the first
/// where it is a header.
pub open spec fn data_rows(text: Seq<u8>, delimiter: u8, has_header: bool) -> Seq<Seq<Seq<u8>>> {
    let rows = rows_of(text, delimiter);
    if has_header && rows.len() > 0 {
        rows.subrange(1, rows.len() as int)
    } else {
        rows
    }
}

/// The row has a field for each column, and each field reads as its type.
pub open spec fn row_fits(types: Seq<ColumnType>, row: Seq<Seq<u8>>) -> bool {
    row.len() == types.len() && forall|j: int| 0 <= j < row.len() ==> (#[trigger] cell_value(types[j], row[j])) is Some
}

pub open spec fn rows_fit(types: Seq<ColumnType>, rows: Seq<Seq<Seq<u8>>>) -> bool {
    forall|q: int| 0 <= q < rows.len() ==> row_fits(types, #[trigger] rows[q])
}

/// The batch of rows `lo` to `hi`, with the columns `ids`.
pub open spec fn chunk(rows: Seq<Seq<Seq<u8>>>, types: Seq<ColumnType>, ids: Seq<int>, lo: int, hi: int) -> BatchView {
    BatchView {
        columns: Seq::new(ids.len(), |c: int| Seq::new((hi - lo) as nat, |x: int| cell_value(types[ids[c]], rows[lo + x][ids[c]]).unwrap())),
        num_rows: (hi - lo) as nat,
    }
}

/// How many batches of `n` rows hold `m` rows.
pub open spec fn batch_count(m: nat, n: nat) -> nat {
    if n == 0 {
        0
    } else {
        ((m + n - 1) / n as int) as nat
    }
}

/// The `k`-th batch: rows `k * n` up to `k * n + n`, or to the last row.
pub open spec fn batch_of(rows: Seq<Seq<Seq<u8>>>, types: Seq<ColumnType>, ids: Seq<int>, n: nat, k: int) -> BatchView {
    let lo = k * n;
    let hi = if lo + n < rows.len() { lo + n } else { rows.len() as int };
    chunk(rows, types, ids, lo, hi)
}

/// The rows, in order, cut into batches of `n`.
pub open spec fn batches_of(rows: Seq<Seq<Seq<u8>>>, types: Seq<ColumnType>, ids: Seq<int>, n: nat) -> Seq<BatchView> {
    Seq::new(batch_count(rows.len(), n), |k: int| batch_of(rows, types, ids, n, k))
}

/// What a table holds: its schema, and the batches of its one partition.
pub struct TableView {
    pub schema: Seq<(Seq<char>, ColumnType)>,
    pub batches: Seq<BatchView>,
}

/// The table that ingesting `rows` gives, keeping the columns `ids`.
pub open spec fn table_of(cols: Seq<(Seq<char>, ColumnType)>, rows: Seq<Seq<Seq<u8>>>, ids: Seq<int>, n: nat) -> TableView {
    TableView {
        schema: Seq::new(ids.len(), |c: int| cols[ids[c]]),
        batches: batches_of(rows, types_of(cols), ids, n),
    }
}

/// The error that ingesting `rows` reports: the first missing projected
/// name, else the first row that does not fit, at its first bad field.
pub open spec fn error_fits(cols: Seq<(Seq<char>, ColumnType)>, rows: Seq<Seq<Seq<u8>>>, projection: Option<Seq<Seq<char>>>, e: IngestError) -> bool {
    let types = types_of(cols);
    match e {
        IngestError::ProjectionError { name } => column_ids(cols, projection) is None && missing_first(cols, projection.unwrap(), name@),
        IngestError::RowShapeError { row, expected, found } => column_ids(cols, projection) is Some && row < rows.len()
            && rows_fit(types, rows.subrange(0, row as int)) && expected == types.len() && found == rows[row as int].len() && found != expected,
        IngestError::FieldTypeError { row, column } => column_ids(cols, projection) is Some && row < rows.len()
            && rows_fit(types, rows.subrange(0, row as int)) && rows[row as int].len() == types.len() && column < types.len()
            && cell_value(types[column as int], rows[row as int][column as int]) is None
            && forall|j: int| 0 <= j < column ==> (#[trigger] cell_value(types[j], rows[row as int][j])) is Some,
        _ => false,
    }
}

/// Checks every row from `start` on against the column types, in order.
fn check_rows(all: &Vec<Vec<Vec<u8>>>, start: usize, types: &Vec<ColumnType>) -> (r: Result<(), IngestError>)
    requires
        start <= all@.len(),
    ensures
        ({
            let rows = row_views(all@).subrange(start as int, all@.len() as int);
            &&& r is Ok <==> rows_fit(types@, rows)
            &&& r matches Err(e) ==> match e {
                IngestError::RowShapeError { row, expected, found } => row < rows.len()
                    && rows_fit(types@, rows.subrange(0, row as int)) && expected == types@.len() && found == rows[row as int].len() && found != expected,
                IngestError::FieldTypeError { row, column } => row < rows.len()
                    && rows_fit(types@, rows.subrange(0, row as int)) && rows[row as int].len() == types@.len() && column < types@.len()
                    && cell_value(types@[column as int], rows[row as int][column as int]) is None
                    && forall|j: int| 0 <= j < column ==> (#[trigger] cell_value(types@[j], rows[row as int][j])) is Some,
                _ => false,
            }
        }),
{
    let ghost rows = row_views(all@).subrange(start as int, all@.len() as int);
    let mut q: usize = start;
    while q < all.len()
        invariant
            start <= q <= all@.len(),
            rows == row_views(all@).subrange(start as int, all@.len() as int),
            rows_fit(types@, rows.subrange(0, q - start)),
        decreases all@.len() - q,
    {
        let ghost row = rows[q - start];
        proof {
            assert(row == all@[q as int]@.map_values(|x: Vec<u8>| x@));
        }
        if all[q].len() != types.len() {
            return Err(IngestError::RowShapeError { row: q - start, expected: types.len(), found: all[q].len() });
        }
        let mut j: usize = 0;
        while j < types.len()
            invariant
                start <= q < all@.len(),
                rows == row_views(all@).subrange(start as int, all@.len() as int),
                rows_fit(types@, rows.subrange(0, q - start)),
                row == rows[q - start],
                row == all@[q as int]@.map_values(|x: Vec<u8>| x@),
                row.len() == types@.len(),
                j <= types@.len(),
                forall|i: int| 0 <= i < j ==> (#[trigger] cell_value(types@[i], row[i])) is Some,
            decreases types@.len() - j,
        {
            proof {
                assert(row[j as int] == all@[q as int]@[j as int]@);
            }
            if parse_cell(types[j], all[q][j].as_slice()).is_none() {
                proof {
                    assert(!row_fits(types@, row));
                }
                return Err(IngestError::FieldTypeError { row: q - start, column: j });
            }
            j = j + 1;
        }
        proof {
            assert(row_fits(types@, row));
            assert(rows.subrange(0, q + 1 - start) =~= rows.subrange(0, q - start).push(row));
        }
        q = q + 1;
    }
    proof {
        assert(rows.subrange(0, q - start) =~= rows);
    }
    Ok(())
}

pub open spec fn ids_view(ids: Seq<usize>) -> Seq<int> {
    ids.map_values(|i: usize| i as int)
}

/// The batch of rows `lo` to `hi` after `start`, with the columns `ids`.
fn build_batch(
    all: &Vec<Vec<Vec<u8>>>,
    start: usize,
    lo: usize,
    hi: usize,
    types: &Vec<ColumnType>,
    ids: &Vec<usize>,
) -> (r: RecordBatch)
    requires
        start <= all@.len(),
        lo <= hi <= all@.len() - start,
        rows_fit(types@, row_views(all@).subrange(start as int, all@.len() as int)),
        forall|c: int| 0 <= c < ids@.len() ==> #[trigger] ids@[c] < types@.len(),
    ensures
        r@ == chunk(row_views(all@).subrange(start as int, all@.len() as int), types@, ids_view(ids@), lo as int, hi as int),
{
    let ghost rows = row_views(all@).subrange(start as int, all@.len() as int);
    let ghost want = chunk(rows, types@, ids_view(ids@), lo as int, hi as int);
    let total = all.len();
    let mut columns: Vec<Vec<Cell>> = Vec::new();
    let mut c: usize = 0;
    while c < ids.len()
        invariant
            start <= all@.len(),
            lo <= hi <= all@.len() - start,
            rows == row_views(all@).subrange(start as int, all@.len() as int),
            rows_fit(types@, rows),
            forall|c: int| 0 <= c < ids@.len() ==> #[trigger] ids@[c] < types@.len(),
            want == chunk(rows, types@, ids_view(ids@), lo as int, hi as int),
            c <= ids@.len(),
            total == all@.len(),
            columns_view(columns@) =~= want.columns.subrange(0, c as int),
        decreases ids@.len() - c,
    {
        let col_id = ids[c];
        let ty = types[col_id];
        let mut col: Vec<Cell> = Vec::new();
        let mut x: usize = lo;
        while x < hi
            invariant
                start <= all@.len(),
                lo <= x <= hi,
                total == all@.len(),
                start + hi <= total,
                rows == row_views(all@).subrange(start as int, all@.len() as int),
                rows_fit(types@, rows),
                col_id < types@.len(),
                ty == types@[col_id as int],
                cells_view(col@) =~= Seq::new((x - lo) as nat, |y: int| cell_value(ty, rows[lo + y][col_id as int]).unwrap()),
            decreases hi - x,
        {
            proof {
                assert(rows[x as int] == row_views(all@)[start + x]);
                assert(rows[x as int][col_id as int] == all@[start + x]@[col_id as int]@);
                assert(row_fits(types@, rows[x as int]));
            }
            let cell = parse_cell(ty, all[start + x][col_id].as_slice());
            let cell = cell.unwrap();
            let ghost before = col@;
            col.push(cell);
            proof {
                assert(col@ =~= before.push(cell));
                assert(cells_view(col@) =~= cells_view(before).push(cell@));
            }
            x = x + 1;
        }
        proof {
            assert(ids_view(ids@)[c as int] == col_id as int);
            assert(cells_view(col@) =~= want.columns[c as int]);
        }
        let ghost before = columns@;
        columns.push(col);
        proof {
            assert(columns@ =~= before.push(col));
            assert(columns_view(columns@) =~= columns_view(before).push(cells_view(col@)));
        }
        c = c + 1;
    }
    proof {
        assert(want.columns.subrange(0, c as int) =~= want.columns);
    }
    RecordBatch { columns, num_rows: hi - lo }
}

/// `batch_count` is the least number of batches of `n` that holds `m` rows.
proof fn lemma_batch_count(m: nat, n: nat, k: nat)
    requires
        n > 0,
        (k == 0 && m == 0) || (k > 0 && (k - 1) * n < m && m <= k * n),
    ensures
        batch_count(m, n) == k,
{
    if k > 0 {
        assert((k - 1) * n == k * n - n) by (nonlinear_arith);
        let q = (m + n - 1) / n as int;
        vstd::arithmetic::div_mod::lemma_fundamental_div_mod((m + n - 1) as int, n as int);
        let rem = (m + n - 1) % n as int;
        assert(0 <= rem < n);
        assert(n * q + rem == m + n - 1);
        assert(q == k) by (nonlinear_arith)
            requires
                n * q + rem == m + n - 1,
                0 <= rem < n,
                k * n - n < m,
                m <= k * n,
                n > 0,
        ;
    } else {
        assert((n - 1) / n as int == 0) by (nonlinear_arith)
            requires
                n > 0,
        ;
    }
}

/// Cuts the rows from `start` on into batches of `n`, in order.
fn build_batches(all: &Vec<Vec<Vec<u8>>>, start: usize, types: &Vec<ColumnType>, ids: &Vec<usize>, n: usize) -> (r: Vec<RecordBatch>)
    requires
        start <= all@.len(),
        n > 0,
        rows_fit(types@, row_views(all@).subrange(start as int, all@.len() as int)),
        forall|c: int| 0 <= c < ids@.len() ==> #[trigger] ids@[c] < types@.len(),
    ensures
        batch_views(r@) == batches_of(row_views(all@).subrange(start as int, all@.len() as int), types@, ids_view(ids@), n as nat),
{
    let ghost rows = row_views(all@).subrange(start as int, all@.len() as int);
    let m = all.len() - start;
    let mut batches: Vec<RecordBatch> = Vec::new();
    let mut lo: usize = 0;
    let ghost mut k: nat = 0;
    while lo < m
        invariant
            start <= all@.len(),
            m == all@.len() - start,
            n > 0,
            rows == row_views(all@).subrange(start as int, all@.len() as int),
            rows.len() == m,
            rows_fit(types@, rows),
            forall|c: int| 0 <= c < ids@.len() ==> #[trigger] ids@[c] < types@.len(),
            lo <= m,
            lo < m ==> lo == k * n,
            lo == m ==> (k == 0 && m == 0) || (k > 0 && (k - 1) * n < m && m <= k * n),
            batch_views(batches@) =~= Seq::new(k, |q: int| batch_of(rows, types@, ids_view(ids@), n as nat, q)),
        decreases m - lo,
    {
        let hi = if m - lo > n { lo + n } else { m };
        let b = build_batch(all, start, lo, hi, types, ids);
        proof {
            assert(batch_of(rows, types@, ids_view(ids@), n as nat, k as int) == chunk(rows, types@, ids_view(ids@), lo as int, hi as int));
            assert((k + 1) * n == k * n + n) by (nonlinear_arith);
        }
        let ghost before = batches@;
        batches.push(b);
        proof {
            assert(batches@ =~= before.push(b));
            assert(batch_views(batches@) =~= batch_views(before).push(b@));
            k = k + 1;
        }
        lo = hi;
    }
    proof {
        lemma_batch_count(m as nat, n as nat, k);
    }
    batches
}

/// A schema and the batches of its one partition, in the order of the rows.
#[derive(Debug)]
pub struct Table {
    schema: Schema,
    partitions: Vec<Vec<RecordBatch>>,
}

impl View for Table {
    type V = TableView;

    closed spec fn view(&self) -> TableView {
        TableView {
            schema: self.schema@,
            batches: if self.partitions@.len() == 1 {
                batch_views(self.partitions@[0]@)
            } else {
                Seq::empty()
            },
        }
    }
}

impl Table {
    /// There is exactly one partition.
    pub closed spec fn wf(&self) -> bool {
        self.partitions@.len() == 1
    }

    pub fn schema(&self) -> (r: &Schema)
        ensures
            r@ == self@.schema,
    {
        &self.schema
    }

    /// The partitions; there is one.
    pub fn partitions(&self) -> (r: &Vec<Vec<RecordBatch>>)
        requires
            self.wf(),
        ensures
            r@.len() == 1,
            batch_views(r@[0]@) == self@.batches,
    {
        &self.partitions
    }

    /// The batches, in order.
    pub fn scan(&self) -> (r: &Vec<RecordBatch>)
        requires
            self.wf(),
        ensures
            batch_views(r@) == self@.batches,
    {
        &self.partitions[0]
    }
}

/// The table that ingesting a text gives; `None` where it fails.
pub open spec fn ingest_view(
    text: Seq<u8>,
    cols: Seq<(Seq<char>, ColumnType)>,
    delimiter: u8,
    has_header: bool,
    projection: Option<Seq<Seq<char>>>,
    n: nat,
) -> Option<TableView> {
    let rows = data_rows(text, delimiter, has_header);
    match column_ids(cols, projection) {
        Some(ids) => if rows_fit(types_of(cols), rows) {
            Some(table_of(cols, rows, ids, n))
        } else {
            None
        },
        None => None,
    }
}

/// Reads the rows of a text into a table of the given schema, in batches of
/// `options.batch_size` rows. Fails on the first projected name that the
/// schema lacks, before any row is read; else on the first row whose number
/// of fields differs from the schema's, or that has a field that does not
/// read as its column's type.
pub fn ingest(text: &[u8], schema: &Schema, options: &CsvOptions) -> (r: Result<Table, IngestError>)
    requires
        options.batch_size > 0,
    ensures
        r is Ok <==> ingest_view(text@, schema@, options.delimiter, options.has_header, projection_view(&options.projection), options.batch_size as nat) is Some,
        r matches Ok(t) ==> t.wf() && t@ == ingest_view(text@, schema@, options.delimiter, options.has_header, projection_view(&options.projection), options.batch_size as nat).unwrap(),
        r matches Err(e) ==> error_fits(schema@, data_rows(text@, options.delimiter, options.has_header), projection_view(&options.projection), e),
{
    let ids = match resolve_projection(schema, &options.projection) {
        Ok(ids) => ids,
        Err(e) => return Err(e),
    };
    let ghost idv = column_ids(schema@, projection_view(&options.projection)).unwrap();
    let types = schema.column_types();
    proof {
        assert forall|c: int| 0 <= c < ids@.len() implies #[trigger] ids@[c] < types@.len() by {
            assert(ids_view(ids@)[c] == ids@[c] as int);
            match projection_view(&options.projection) {
                Some(names) => {
                    lemma_position_bounds(schema@, names[c]);
                },
                None => {},
            }
        }
    }
    let all = split_rows(text, options.delimiter);
    let start: usize = if options.has_header && all.len() > 0 { 1 } else { 0 };
    let ghost rows = data_rows(text@, options.delimiter, options.has_header);
    proof {
        assert(row_views(all@).subrange(start as int, all@.len() as int) =~= rows);
    }
    match check_rows(&all, start, &types) {
        Ok(()) => {},
        Err(e) => return Err(e),
    }
    let batches = build_batches(&all, start, &types, &ids, options.batch_size);
    let out_schema = schema.project(&ids);
    let mut partitions: Vec<Vec<RecordBatch>> = Vec::new();
    partitions.push(batches);
    let t = Table { schema: out_schema, partitions };
    proof {
        assert(t.partitions@[0] == batches);
        assert(out_schema@ =~= Seq::new(idv.len(), |c: int| schema@[idv[c]]));
    }
    Ok(t)
}

/// A delimited text file, and the schema declared for it, if any.
#[derive(Debug)]
pub struct TableSource {
    pub uri: String,
    pub schema: Option<Vec<Field>>,
}

/// The columns declared for a source, if any.
pub open spec fn declared_view(source: &TableSource) -> Option<Seq<(Seq<char>, ColumnType)>> {
    match source.schema {
        Some(fields) => Some(field_views(fields@)),
        None => None,
    }
}

/// The schema a source resolves to: the declared columns, where their names
/// are unique; else the schema inferred from the text.
pub open spec fn resolved_schema(declared: Option<Seq<(Seq<char>, ColumnType)>>, text: Seq<u8>, delimiter: u8) -> Option<Seq<(Seq<char>, ColumnType)>> {
    match declared {
        Some(cols) => if names_unique(cols) {
            Some(cols)
        } else {
            None
        },
        None => inferred_schema(text, delimiter),
    }
}

fn copy_fields(fields: &Vec<Field>) -> (r: Vec<Field>)
    ensures
        field_views(r@) == field_views(fields@),
{
    let mut out: Vec<Field> = Vec::new();
    let mut i: usize = 0;
    while i < fields.len()
        invariant
            i <= fields@.len(),
            field_views(out@) =~= field_views(fields@).subrange(0, i as int),
        decreases fields@.len() - i,
    {
        let f = fields[i].duplicate();
        let ghost before = out@;
        out.push(f);
        proof {
            assert(out@ =~= before.push(f));
            assert(field_views(out@) =~= field_views(before).push(f@));
        }
        i = i + 1;
    }
    assert(field_views(fields@).subrange(0, i as int) =~= field_views(fields@));
    out
}

/// The schema of a source: its declared schema, or else one inferred from
/// its text. Fails with `SchemaError` where `resolved_schema` says `None`.
pub fn resolve_schema(source: &TableSource, text: &[u8], delimiter: u8) -> (r: Result<Schema, IngestError>)
    ensures
        r is Ok <==> resolved_schema(declared_view(source), text@, delimiter) is Some,
        r matches Ok(s) ==> s.wf() && s@ == resolved_schema(declared_view(source), text@, delimiter).unwrap(),
        r matches Err(e) ==> e is SchemaError,
{
    match &source.schema {
        Some(fields) => Schema::try_new(copy_fields(fields)),
        None => infer_schema(text, delimiter),
    }
}

/// Resolves the schema of a source whose file holds `text`, then ingests
/// the text with it.
pub fn to_table(source: &TableSource, text: &[u8], options: &CsvOptions) -> (r: Result<Table, IngestError>)
    requires
        options.batch_size > 0,
    ensures
        ({
            let cols = resolved_schema(declared_view(source), text@, options.delimiter);
            let want = ingest_view(text@, cols.unwrap(), options.delimiter, options.has_header, projection_view(&options.projection), options.batch_size as nat);
            &&& r is Ok <==> cols is Some && want is Some
            &&& r matches Ok(t) ==> t.wf() && t@ == want.unwrap()
            &&& r matches Err(e) ==> (cols is None && e is SchemaError) || (cols is Some
                && error_fits(cols.unwrap(), data_rows(text@, options.delimiter, options.has_header), projection_view(&options.projection), e))
        }),
{
    let schema = match resolve_schema(source, text, options.delimiter) {
        Ok(s) => s,
        Err(e) => return Err(e),
    };
    ingest(text, &schema, options)
}

} // verus!
