//! Table schemas and batches of columns.

use crate::scalar::{DataType, ScalarModel, ScalarValue, TypeModel};
use vstd::prelude::*;

verus! {

/// One column of a table.
#[derive(Debug, PartialEq, Eq)]
pub struct Field {
    /// Name.
    pub name: String,
    /// Type.
    pub data_type: DataType,
    /// Whether nulls are allowed.
    pub nullable: bool,
}

/// What a column declaration says.
#[verifier::ext_equal]
pub struct FieldModel {
    /// Name.
    pub name: Seq<char>,
    /// Type.
    pub ty: TypeModel,
    /// Whether nulls are allowed.
    pub nullable: bool,
}

impl View for Field {
    type V = FieldModel;

    open spec fn view(&self) -> FieldModel {
        FieldModel { name: self.name@, ty: self.data_type@, nullable: self.nullable }
    }
}

impl Clone for Field {
    fn clone(&self) -> (r: Self)
        ensures
            r@ == self@,
    {
        Field {
            name: self.name.clone(),
            data_type: self.data_type.clone(),
            nullable: self.nullable,
        }
    }
}

impl Field {
    /// Creates a column declaration.
    pub fn new(name: &str, data_type: DataType, nullable: bool) -> (r: Self)
        ensures
            r@ == (FieldModel { name: name@, ty: data_type@, nullable }),
    {
        Field { name: name.to_owned(), data_type, nullable }
    }
}

/// The columns of a table, in order.
#[derive(Debug, PartialEq, Eq)]
pub struct Schema {
    /// Columns.
    pub fields: Vec<Field>,
}

impl View for Schema {
    type V = Seq<FieldModel>;

    open spec fn view(&self) -> Seq<FieldModel> {
        self.fields@.map_values(|f: Field| f@)
    }
}

/// The types of the columns.
pub open spec fn types_of(fs: Seq<FieldModel>) -> Seq<TypeModel> {
    fs.map_values(|f: FieldModel| f.ty)
}

impl Clone for Schema {
    fn clone(&self) -> (r: Self)
        ensures
            r@ == self@,
    {
        let mut fields: Vec<Field> = Vec::new();
        let mut i: usize = 0;
        while i < self.fields.len()
            invariant
                i <= self.fields@.len(),
                fields@.map_values(|f: Field| f@) == self@.take(i as int),
            decreases self.fields@.len() - i,
        {
            let ghost before = fields@;
            let f = self.fields[i].clone();
            fields.push(f);
            assert(fields@.map_values(|f: Field| f@) =~= before.map_values(|f: Field| f@).push(f@));
            assert(self@.take(i + 1) =~= self@.take(i as int).push(self@[i as int]));
            i += 1;
        }
        assert(self@.take(i as int) =~= self@);
        Schema { fields }
    }
}

impl Schema {
    /// Creates a schema.
    pub fn new(fields: Vec<Field>) -> (r: Self)
        ensures
            r@ == fields@.map_values(|f: Field| f@),
    {
        Schema { fields }
    }

    /// Returns the number of columns.
    pub fn len(&self) -> (r: usize)
        ensures
            r == self@.len(),
    {
        self.fields.len()
    }

    /// Returns the place of the first column called `name`.
    pub fn index_of(&self, name: &str) -> (r: Option<usize>)
        ensures
            r matches Some(i) ==> {
                &&& i < self@.len()
                &&& self@[i as int].name == name@
                &&& forall|j: int| 0 <= j < i ==> (#[trigger] self@[j]).name != name@
            },
            r is None ==> forall|j: int| 0 <= j < self@.len() ==> (#[trigger] self@[j]).name
                != name@,
    {
        let wanted: String = name.to_owned();
        let mut i: usize = 0;
        while i < self.fields.len()
            invariant
                i <= self.fields@.len(),
                wanted@ == name@,
                forall|j: int| 0 <= j < i ==> (#[trigger] self@[j]).name != name@,
            decreases self.fields@.len() - i,
        {
            assert(self@[i as int].name == self.fields@[i as int].name@);
            if self.fields[i].name == wanted {
                return Some(i);
            }
            i += 1;
        }
        None
    }
}

/// Columns of equal length under a schema.
#[derive(Debug, PartialEq, Eq)]
pub struct ColumnBatch {
    /// Columns' names and types.
    pub schema: Schema,
    /// One list of values per column.
    pub columns: Vec<Vec<ScalarValue>>,
    /// Number of rows.
    pub num_rows: usize,
}

/// The values of a batch, column by column.
pub open spec fn column_models(columns: Seq<Vec<ScalarValue>>) -> Seq<Seq<ScalarModel>> {
    columns.map_values(|c: Vec<ScalarValue>| c@.map_values(|v: ScalarValue| v@))
}

impl ColumnBatch {
    /// The values, column by column.
    pub open spec fn cells(&self) -> Seq<Seq<ScalarModel>> {
        column_models(self.columns@)
    }

    /// One column per field, each as long as the batch.
    pub open spec fn wf(&self) -> bool {
        &&& self.columns@.len() == self.schema@.len()
        &&& forall|c: int|
            0 <= c < self.columns@.len() ==> (#[trigger] self.columns@[c])@.len() == self.num_rows
    }

    /// The values of one row.
    pub open spec fn row(&self, i: int) -> Seq<ScalarModel> {
        self.cells().map_values(|c: Seq<ScalarModel>| c[i])
    }
}

} // verus!
