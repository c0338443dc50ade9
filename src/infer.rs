use vstd::prelude::*;

use crate::error::IngestError;
use crate::schema::{field_views, names_unique, ColumnType, Field, Schema};
use crate::text::{
    boolean_value, decode_text, decoded, float_text, integer_value, is_float_text, parse_boolean,
    parse_integer, rows_of, split_rows, row_views,
};

verus! {

/// The narrowest type for a field, given which types read it.
pub open spec fn narrowest(boolean: bool, integer: bool, float: bool) -> ColumnType {
    if boolean {
        ColumnType::Boolean
    } else if integer {
        ColumnType::Integer
    } else if float {
        ColumnType::Float
    } else {
        ColumnType::Text
    }
}

/// The narrowest type that holds one field.
pub open spec fn token_type(b: Seq<u8>) -> ColumnType {
    narrowest(boolean_value(b) is Some, integer_value(b) is Some, float_text(b))
}

/// The narrowest type that holds the values of both types: integers widen to
/// floats, and any other mix is text.
pub open spec fn join(a: ColumnType, b: ColumnType) -> ColumnType {
    if a == b {
        a
    } else if (a == ColumnType::Integer && b == ColumnType::Float) || (a == ColumnType::Float
        && b == ColumnType::Integer) {
        ColumnType::Float
    } else {
        ColumnType::Text
    }
}

/// The join of the types of column `j` over the rows, if there are any.
pub open spec fn fold_type(rows: Seq<Seq<Seq<u8>>>, j: int) -> Option<ColumnType>
    decreases rows.len(),
{
    if rows.len() == 0 {
        None
    } else {
        let t = token_type(rows.last()[j]);
        match fold_type(rows.drop_last(), j) {
            None => Some(t),
            Some(p) => Some(join(p, t)),
        }
    }
}

/// The type inferred for column `j`. No value rules any type out of a
/// column with no values, so it gets the narrowest, boolean.
pub open spec fn column_type(rows: Seq<Seq<Seq<u8>>>, j: int) -> ColumnType {
    match fold_type(rows, j) {
        Some(t) => t,
        None => ColumnType::Boolean,
    }
}

/// The schema inferred from a text: the first line names the columns, every
/// other line is a data row with as many fields, and each column gets the
/// narrowest type that holds all its fields. `None` where there is no first
/// line, a data row has another number of fields, or two names repeat.
pub open spec fn inferred_schema(text: Seq<u8>, delimiter: u8) -> Option<
    Seq<(Seq<char>, ColumnType)>,
> {
    let rows = rows_of(text, delimiter);
    if rows.len() == 0 {
        None
    } else {
        let header = rows[0];
        let data = rows.subrange(1, rows.len() as int);
        let cols = Seq::new(header.len(), |j: int| (decoded(header[j]), column_type(data, j)));
        if (forall|r: int| 0 <= r < data.len() ==> (#[trigger] data[r]).len() == header.len())
            && names_unique(cols) {
            Some(cols)
        } else {
            None
        }
    }
}

/// The narrowest type for a field that reads as a boolean, an integer or a
/// float as the flags say.
pub fn narrowest_type(boolean: bool, integer: bool, float: bool) -> (r: ColumnType)
    ensures
        r == narrowest(boolean, integer, float),
{
    if boolean {
        ColumnType::Boolean
    } else if integer {
        ColumnType::Integer
    } else if float {
        ColumnType::Float
    } else {
        ColumnType::Text
    }
}

/// The narrowest type that holds one field.
pub fn classify(b: &[u8]) -> (r: ColumnType)
    ensures
        r == token_type(b@),
{
    let boolean = parse_boolean(b).is_some();
    let integer = parse_integer(b).is_some();
    let float = is_float_text(b);
    narrowest_type(boolean, integer, float)
}

/// The narrowest type that holds the values of both types.
pub fn join_types(a: ColumnType, b: ColumnType) -> (r: ColumnType)
    ensures
        r == join(a, b),
{
    if a == b {
        a
    } else if (a == ColumnType::Integer && b == ColumnType::Float) || (a == ColumnType::Float
        && b == ColumnType::Integer) {
        ColumnType::Float
    } else {
        ColumnType::Text
    }
}

/// The type of column `j` over the data rows, which start at row 1.
fn infer_column(rows: &Vec<Vec<Vec<u8>>>, j: usize) -> (r: ColumnType)
    requires
        rows@.len() >= 1,
        forall|k: int| 1 <= k < rows@.len() ==> j < (#[trigger] rows@[k])@.len(),
    ensures
        r == column_type(row_views(rows@).subrange(1, rows@.len() as int), j as int),
{
    let ghost data = row_views(rows@).subrange(1, rows@.len() as int);
    let mut acc: Option<ColumnType> = None;
    let mut i: usize = 1;
    while i < rows.len()
        invariant
            1 <= i <= rows@.len(),
            data == row_views(rows@).subrange(1, rows@.len() as int),
            forall|k: int| 1 <= k < rows@.len() ==> j < (#[trigger] rows@[k])@.len(),
            acc == fold_type(data.subrange(0, i - 1), j as int),
        decreases rows@.len() - i,
    {
        let t = classify(rows[i][j].as_slice());
        proof {
            let p = data.subrange(0, i as int);
            assert(p.drop_last() =~= data.subrange(0, i - 1));
            assert(p.last() == data[i - 1]);
            assert(data[i - 1] == row_views(rows@)[i as int]);
            assert(row_views(rows@)[i as int][j as int] == rows@[i as int]@[j as int]@);
        }
        acc = match acc {
            None => Some(t),
            Some(p) => Some(join_types(p, t)),
        };
        i = i + 1;
    }
    proof {
        assert(data.subrange(0, rows@.len() - 1) =~= data);
    }
    match acc {
        Some(t) => t,
        None => ColumnType::Boolean,
    }
}

/// Infers a schema from a text, as `inferred_schema` says; fails with
/// `SchemaError` where it says `None`.
pub fn infer_schema(text: &[u8], delimiter: u8) -> (r: Result<Schema, IngestError>)
    ensures
        r is Ok <==> inferred_schema(text@, delimiter) is Some,
        r matches Ok(s) ==> s.wf() && s@ == inferred_schema(text@, delimiter).unwrap(),
        r matches Err(e) ==> e is SchemaError,
{
    let rows = split_rows(text, delimiter);
    let ghost rv = rows_of(text@, delimiter);
    if rows.len() == 0 {
        return Err(IngestError::SchemaError);
    }
    let ghost data = rv.subrange(1, rv.len() as int);
    let width = rows[0].len();
    proof {
        assert(rv[0] == row_views(rows@)[0]);
        assert(rv[0].len() == width);
    }
    let mut i: usize = 1;
    while i < rows.len()
        invariant
            1 <= i <= rows@.len(),
            rv == row_views(rows@),
            rv == rows_of(text@, delimiter),
            data == rv.subrange(1, rv.len() as int),
            rv.len() >= 1,
            rv[0].len() == width,
            forall|k: int| 1 <= k < i ==> (#[trigger] rows@[k])@.len() == width,
        decreases rows@.len() - i,
    {
        if rows[i].len() != width {
            proof {
                assert(data[i - 1] == rv[i as int]);
                assert(rv[i as int].len() == rows@[i as int]@.len());
                assert(data[i - 1].len() != rv[0].len());
            }
            return Err(IngestError::SchemaError);
        }
        i = i + 1;
    }
    proof {
        assert forall|r: int| 0 <= r < data.len() implies (#[trigger] data[r]).len() == rv[0].len() by {
            assert(data[r] == rv[r + 1]);
            assert(rv[r + 1].len() == rows@[r + 1]@.len());
        }
    }
    let ghost cols = Seq::new(rv[0].len(), |j: int| (decoded(rv[0][j]), column_type(data, j)));
    let mut fields: Vec<Field> = Vec::new();
    let mut j: usize = 0;
    while j < width
        invariant
            j <= width,
            rows@.len() >= 1,
            width == rows@[0]@.len(),
            rv == row_views(rows@),
            data == rv.subrange(1, rv.len() as int),
            rv[0].len() == width,
            forall|k: int| 1 <= k < rows@.len() ==> (#[trigger] rows@[k])@.len() == width,
            cols == Seq::new(rv[0].len(), |q: int| (decoded(rv[0][q]), column_type(data, q))),
            field_views(fields@) =~= cols.subrange(0, j as int),
        decreases width - j,
    {
        let name = decode_text(rows[0][j].as_slice());
        let t = infer_column(&rows, j);
        proof {
            assert(rv[0][j as int] == rows@[0]@[j as int]@);
        }
        let f = Field { name, column_type: t };
        let ghost before = fields@;
        fields.push(f);
        proof {
            assert(fields@ =~= before.push(f));
            assert(field_views(fields@) =~= field_views(before).push(f@));
        }
        j = j + 1;
    }
    assert(field_views(fields@) =~= cols);
    Schema::try_new(fields)
}

} // verus!
