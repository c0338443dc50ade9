use vstd::prelude::*;

use crate::infer::inferred_schema;
use crate::schema::{types_of, ColumnType, Schema};
use crate::table::{
    batch_count, batch_of, batches_of, cell_value, column_ids, data_rows, ingest_view, BatchView,
    CellValue, Table,
};

verus! {

/// The number of rows over a sequence of batches.
pub open spec fn total_rows(bs: Seq<BatchView>) -> nat
    decreases bs.len(),
{
    if bs.len() == 0 {
        0
    } else {
        total_rows(bs.drop_last()) + bs.last().num_rows
    }
}

/// The values of column `c` over a sequence of batches, batch after batch.
pub open spec fn column_values(bs: Seq<BatchView>, c: int) -> Seq<CellValue>
    decreases bs.len(),
{
    if bs.len() == 0 {
        Seq::empty()
    } else {
        column_values(bs.drop_last(), c) + bs.last().columns[c]
    }
}

/// `m` rows make `batch_count(m, n)` batches: none for no rows, else as
/// many as leave the last one with 1 to `n` rows.
pub proof fn lemma_count_bounds(m: nat, n: nat)
    requires
        n > 0,
    ensures
        (m == 0) == (batch_count(m, n) == 0),
        batch_count(m, n) > 0 ==> (batch_count(m, n) - 1) * n < m && m <= batch_count(m, n) * n,
{
    let q = (m + n - 1) / n as int;
    vstd::arithmetic::div_mod::lemma_fundamental_div_mod((m + n - 1) as int, n as int);
    let rem = (m + n - 1) % n as int;
    assert(0 <= rem < n);
    assert(q >= 0) by (nonlinear_arith)
        requires
            n * q + rem == m + n - 1,
            0 <= rem < n,
            n > 0,
    ;
    assert(q * n < m + n && m + n <= q * n + n) by (nonlinear_arith)
        requires
            n * q + rem == m + n - 1,
            0 <= rem < n,
    ;
    assert((m == 0) == (q == 0)) by (nonlinear_arith)
        requires
            q * n < m + n,
            m + n <= q * n + n,
            q >= 0,
            n > 0,
    ;
    assert((q - 1) * n == q * n - n) by (nonlinear_arith);
}

proof fn lemma_full_batches(m: nat, n: nat, k: int)
    requires
        n > 0,
        0 <= k < batch_count(m, n) - 1,
    ensures
        k * n + n < m,
{
    lemma_count_bounds(m, n);
    let cnt = batch_count(m, n) as int;
    assert(k * n + n <= (cnt - 1) * n) by (nonlinear_arith)
        requires
            k + 1 <= cnt - 1,
            n > 0,
    ;
}

proof fn lemma_total_prefix(rows: Seq<Seq<Seq<u8>>>, types: Seq<ColumnType>, ids: Seq<int>, n: nat, k: int)
    requires
        n > 0,
        0 <= k < batch_count(rows.len(), n),
    ensures
        total_rows(batches_of(rows, types, ids, n).subrange(0, k)) == k * n,
    decreases k,
{
    let bs = batches_of(rows, types, ids, n);
    if k > 0 {
        lemma_total_prefix(rows, types, ids, n, k - 1);
        lemma_full_batches(rows.len(), n, k - 1);
        assert(bs.subrange(0, k).drop_last() =~= bs.subrange(0, k - 1));
        assert(bs[k - 1] == batch_of(rows, types, ids, n, k - 1));
        assert((k - 1) * n + n == k * n) by (nonlinear_arith);
    } else {
        assert(bs.subrange(0, 0).len() == 0);
    }
}

/// Ingesting `n` rows at a time, every batch but the last holds `n` rows,
/// the last holds 1 to `n`, there is none where there are no rows, and the
/// batches hold as many rows as the data does.
pub proof fn lemma_batch_sizes(rows: Seq<Seq<Seq<u8>>>, types: Seq<ColumnType>, ids: Seq<int>, n: nat)
    requires
        n > 0,
    ensures
        ({
            let bs = batches_of(rows, types, ids, n);
            &&& total_rows(bs) == rows.len()
            &&& forall|k: int| 0 <= k < bs.len() - 1 ==> (#[trigger] bs[k]).num_rows == n
            &&& bs.len() > 0 ==> 1 <= bs.last().num_rows <= n
            &&& (rows.len() == 0) == (bs.len() == 0)
        }),
{
    let bs = batches_of(rows, types, ids, n);
    let m = rows.len();
    lemma_count_bounds(m, n);
    assert forall|k: int| 0 <= k < bs.len() - 1 implies (#[trigger] bs[k]).num_rows == n by {
        lemma_full_batches(m, n, k);
    }
    if bs.len() > 0 {
        let cnt = bs.len() as int;
        assert((cnt - 1) * n + n == cnt * n) by (nonlinear_arith);
        lemma_total_prefix(rows, types, ids, n, cnt - 1);
        assert(bs.drop_last() =~= bs.subrange(0, cnt - 1));
        assert(bs.last() == batch_of(rows, types, ids, n, cnt - 1));
    }
}

proof fn lemma_column_prefix(rows: Seq<Seq<Seq<u8>>>, types: Seq<ColumnType>, ids: Seq<int>, n: nat, c: int, k: int)
    requires
        n > 0,
        0 <= c < ids.len(),
        0 <= k <= batch_count(rows.len(), n),
    ensures
        column_values(batches_of(rows, types, ids, n).subrange(0, k), c) =~= Seq::new(
            if k * n < rows.len() { (k * n) as nat } else { rows.len() },
            |r: int| cell_value(types[ids[c]], rows[r][ids[c]]).unwrap(),
        ),
    decreases k,
{
    let bs = batches_of(rows, types, ids, n);
    let m = rows.len();
    lemma_count_bounds(m, n);
    if k > 0 {
        lemma_column_prefix(rows, types, ids, n, c, k - 1);
        assert(bs.subrange(0, k).drop_last() =~= bs.subrange(0, k - 1));
        assert(bs[k - 1] == batch_of(rows, types, ids, n, k - 1));
        let cnt = batch_count(m, n) as int;
        assert((k - 1) * n <= (cnt - 1) * n) by (nonlinear_arith)
            requires
                k <= cnt,
                n > 0,
        ;
        assert((k - 1) * n + n == k * n) by (nonlinear_arith);
        let f = |r: int| cell_value(types[ids[c]], rows[r][ids[c]]).unwrap();
        let lo = (k - 1) * n;
        let hi = if lo + n < m { lo + n } else { m as int };
        assert(lo < m);
        let prev = column_values(bs.subrange(0, k - 1), c);
        let cur = bs[k - 1].columns[c];
        assert(prev =~= Seq::new(lo as nat, f));
        assert(cur =~= Seq::new((hi - lo) as nat, |x: int| f(lo + x)));
        assert(column_values(bs.subrange(0, k), c) == prev + cur);
        assert(prev + cur =~= Seq::new(hi as nat, f));
    } else {
        assert(k * n == 0) by (nonlinear_arith)
            requires
                k == 0,
        ;
    }
}

/// Ingesting keeps the order of the rows: column `c` over the batches, in
/// order, holds the values of its fields in the order of the rows.
pub proof fn lemma_column_order(rows: Seq<Seq<Seq<u8>>>, types: Seq<ColumnType>, ids: Seq<int>, n: nat, c: int)
    requires
        n > 0,
        0 <= c < ids.len(),
    ensures
        column_values(batches_of(rows, types, ids, n), c) =~= Seq::new(
            rows.len(),
            |r: int| cell_value(types[ids[c]], rows[r][ids[c]]).unwrap(),
        ),
{
    let bs = batches_of(rows, types, ids, n);
    let cnt = batch_count(rows.len(), n) as int;
    lemma_count_bounds(rows.len(), n);
    lemma_column_prefix(rows, types, ids, n, c, cnt);
    assert(bs.subrange(0, cnt) =~= bs);
}

/// Ingesting in batches of `n`: every batch but the last holds `n` rows, the
/// last holds 1 to `n`, there is no batch where there is no data row, and the
/// batches hold as many rows as the text has data rows.
pub proof fn law_ingest_batch_sizes(
    text: Seq<u8>,
    cols: Seq<(Seq<char>, ColumnType)>,
    delimiter: u8,
    has_header: bool,
    projection: Option<Seq<Seq<char>>>,
    n: nat,
)
    requires
        n > 0,
        ingest_view(text, cols, delimiter, has_header, projection, n) is Some,
    ensures
        ({
            let bs = ingest_view(text, cols, delimiter, has_header, projection, n).unwrap().batches;
            let m = data_rows(text, delimiter, has_header).len();
            &&& total_rows(bs) == m
            &&& forall|k: int| 0 <= k < bs.len() - 1 ==> (#[trigger] bs[k]).num_rows == n
            &&& bs.len() > 0 ==> 1 <= bs.last().num_rows <= n
            &&& (m == 0) == (bs.len() == 0)
        }),
{
    let ids = column_ids(cols, projection).unwrap();
    lemma_batch_sizes(data_rows(text, delimiter, has_header), types_of(cols), ids, n);
}

/// Ingesting keeps the order of the rows: the `c`-th column of the table,
/// read batch after batch, holds the fields of the column it was taken from,
/// in the order of the data rows.
pub proof fn law_ingest_column_order(
    text: Seq<u8>,
    cols: Seq<(Seq<char>, ColumnType)>,
    delimiter: u8,
    has_header: bool,
    projection: Option<Seq<Seq<char>>>,
    n: nat,
    c: int,
)
    requires
        n > 0,
        ingest_view(text, cols, delimiter, has_header, projection, n) is Some,
        0 <= c < ingest_view(text, cols, delimiter, has_header, projection, n).unwrap().schema.len(),
    ensures
        ({
            let rows = data_rows(text, delimiter, has_header);
            let j = column_ids(cols, projection).unwrap()[c];
            column_values(ingest_view(text, cols, delimiter, has_header, projection, n).unwrap().batches, c)
                =~= Seq::new(rows.len(), |r: int| cell_value(types_of(cols)[j], rows[r][j]).unwrap())
        }),
{
    let ids = column_ids(cols, projection).unwrap();
    lemma_column_order(data_rows(text, delimiter, has_header), types_of(cols), ids, n, c);
}

/// Without a projection, the table that ingesting gives has the schema it
/// was given.
pub proof fn law_schema_kept(text: Seq<u8>, cols: Seq<(Seq<char>, ColumnType)>, delimiter: u8, has_header: bool, n: nat)
    requires
        n > 0,
        ingest_view(text, cols, delimiter, has_header, None, n) is Some,
    ensures
        ingest_view(text, cols, delimiter, has_header, None, n).unwrap().schema == cols,
{
    assert(ingest_view(text, cols, delimiter, has_header, None, n).unwrap().schema =~= cols);
}

/// Two ingestions of the same text with the same schema and options give
/// tables of the same schema and the same batches.
pub proof fn law_reingest_same(
    text: Seq<u8>,
    cols: Seq<(Seq<char>, ColumnType)>,
    delimiter: u8,
    has_header: bool,
    projection: Option<Seq<Seq<char>>>,
    n: nat,
    a: &Table,
    b: &Table,
)
    requires
        ingest_view(text, cols, delimiter, has_header, projection, n) is Some,
        a@ == ingest_view(text, cols, delimiter, has_header, projection, n).unwrap(),
        b@ == ingest_view(text, cols, delimiter, has_header, projection, n).unwrap(),
    ensures
        a@.schema == b@.schema,
        a@.batches == b@.batches,
{
}

/// Two schemas inferred from the same text with the same delimiter have the
/// same column types.
pub proof fn law_inference_deterministic(text: Seq<u8>, delimiter: u8, a: &Schema, b: &Schema)
    requires
        inferred_schema(text, delimiter) is Some,
        a@ == inferred_schema(text, delimiter).unwrap(),
        b@ == inferred_schema(text, delimiter).unwrap(),
    ensures
        types_of(a@) == types_of(b@),
{
}

} // verus!
