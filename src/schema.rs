use vstd::prelude::*;

use crate::error::IngestError;

verus! {

/// The type a column's values are held as, from narrowest to widest.
#[derive(Clone, Copy, Debug, PartialEq, Eq, Structural)]
pub enum ColumnType {
    Boolean,
    Integer,
    Float,
    Text,
}

/// A named, typed column.
#[derive(Debug)]
pub struct Field {
    pub name: String,
    pub column_type: ColumnType,
}

impl View for Field {
    type V = (Seq<char>, ColumnType);

    open spec fn view(&self) -> (Seq<char>, ColumnType) {
        (self.name@, self.column_type)
    }
}

impl Field {
    pub fn new(name: &str, column_type: ColumnType) -> (r: Field)
        ensures
            r.name@ == name@,
            r.column_type == column_type,
    {
        Field { name: name.to_owned(), column_type }
    }

    pub fn duplicate(&self) -> (r: Field)
        ensures
            r@ == self@,
    {
        Field { name: self.name.clone(), column_type: self.column_type }
    }
}

pub open spec fn field_views(fields: Seq<Field>) -> Seq<(Seq<char>, ColumnType)> {
    fields.map_values(|f: Field| f@)
}

/// No two columns share a name.
pub open spec fn names_unique(cols: Seq<(Seq<char>, ColumnType)>) -> bool {
    forall|i: int, j: int| 0 <= i < j < cols.len() ==> (#[trigger] cols[i]).0 != (#[trigger] cols[j]).0
}

pub open spec fn types_of(cols: Seq<(Seq<char>, ColumnType)>) -> Seq<ColumnType> {
    cols.map_values(|c: (Seq<char>, ColumnType)| c.1)
}

/// The ordered columns of a table; names are unique.
#[derive(Debug)]
pub struct Schema {
    fields: Vec<Field>,
}

impl View for Schema {
    type V = Seq<(Seq<char>, ColumnType)>;

    closed spec fn view(&self) -> Seq<(Seq<char>, ColumnType)> {
        field_views(self.fields@)
    }
}

impl Schema {
    pub open spec fn wf(&self) -> bool {
        names_unique(self@)
    }

    /// Takes the declared columns as a schema; fails with `SchemaError` where
    /// two of them share a name.
    pub fn try_new(fields: Vec<Field>) -> (r: Result<Schema, IngestError>)
        ensures
            r is Ok <==> names_unique(field_views(fields@)),
            r matches Ok(s) ==> s@ == field_views(fields@) && s.wf(),
            r matches Err(e) ==> e is SchemaError,
    {
        let ghost v = field_views(fields@);
        let mut i: usize = 0;
        while i < fields.len()
            invariant
                v == field_views(fields@),
                i <= fields@.len(),
                forall|a: int, b: int| 0 <= a < b < fields@.len() && a < i ==> (#[trigger] v[a]).0 != (#[trigger] v[b]).0,
            decreases fields@.len() - i,
        {
            let mut j: usize = i + 1;
            while j < fields.len()
                invariant
                    v == field_views(fields@),
                    i < j <= fields@.len(),
                    forall|a: int, b: int| 0 <= a < b < fields@.len() && a < i ==> (#[trigger] v[a]).0 != (#[trigger] v[b]).0,
                    forall|b: int| i < b < j ==> v[i as int].0 != (#[trigger] v[b]).0,
                decreases fields@.len() - j,
            {
                if fields[i].name == fields[j].name {
                    proof {
                        assert(v[i as int] == fields@[i as int]@);
                        assert(v[j as int] == fields@[j as int]@);
                        assert(!names_unique(v));
                    }
                    return Err(IngestError::SchemaError);
                }
                j = j + 1;
            }
            i = i + 1;
        }
        Ok(Schema { fields })
    }

    pub fn fields(&self) -> (r: &Vec<Field>)
        ensures
            field_views(r@) == self@,
    {
        &self.fields
    }

    pub fn column_types(&self) -> (r: Vec<ColumnType>)
        ensures
            r@ == types_of(self@),
    {
        let mut out: Vec<ColumnType> = Vec::new();
        let mut i: usize = 0;
        while i < self.fields.len()
            invariant
                i <= self.fields@.len(),
                out@ =~= types_of(self@).subrange(0, i as int),
            decreases self.fields@.len() - i,
        {
            out.push(self.fields[i].column_type);
            i = i + 1;
        }
        assert(types_of(self@).subrange(0, i as int) =~= types_of(self@));
        out
    }

    pub fn len(&self) -> (r: usize)
        ensures
            r == self@.len(),
    {
        self.fields.len()
    }

    /// A schema of the given columns of this one, in the order given.
    pub fn project(&self, ids: &Vec<usize>) -> (r: Schema)
        requires
            forall|k: int| 0 <= k < ids@.len() ==> #[trigger] ids@[k] < self@.len(),
        ensures
            r@ == Seq::new(ids@.len(), |k: int| self@[ids@[k] as int]),
    {
        let mut out: Vec<Field> = Vec::new();
        let mut k: usize = 0;
        while k < ids.len()
            invariant
                k <= ids@.len(),
                forall|q: int| 0 <= q < ids@.len() ==> #[trigger] ids@[q] < self@.len(),
                field_views(out@) =~= Seq::new(k as nat, |q: int| self@[ids@[q] as int]),
            decreases ids@.len() - k,
        {
            let f = self.fields[ids[k]].duplicate();
            proof {
                assert(self@[ids@[k as int] as int] == self.fields@[ids@[k as int] as int]@);
            }
            let ghost before = out@;
            out.push(f);
            proof {
                assert(out@ =~= before.push(f));
                assert(field_views(out@) =~= field_views(before).push(f@));
            }
            k = k + 1;
        }
        Schema { fields: out }
    }
}

} // verus!
