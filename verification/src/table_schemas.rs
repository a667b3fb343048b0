//! The schemas of the tables, as the sidecar beside the files keeps them.
//!
//! The sidecar is a JSON object from table names to Arrow schemas. An engine
//! that opens a directory starts from the schemas in it, so that the tables
//! can be scanned by columns before the first ingest.

use crate::column_stats::schema_map;
use crate::name_map::NameMap;
use crate::scalar::{clone_text, opt_text, DataType, IntervalUnit, TimeUnit, TypeModel};
use crate::schema::{Field, FieldModel, Schema};
use arrow_schema::{DataType as ArrowType, Field as ArrowField, Schema as ArrowSchema};
use std::collections::BTreeMap;
use vstd::prelude::*;

verus! {

/// A column as the sidecar declares it.
#[derive(Debug, PartialEq, Eq)]
pub struct FieldText {
    /// Name of the column.
    pub name: String,
    /// Name of its type, without a time zone.
    pub type_text: String,
    /// Time zone, for timestamps that have one.
    pub zone: Option<String>,
    /// Whether nulls are allowed.
    pub nullable: bool,
}

/// What a column of the sidecar says.
#[verifier::ext_equal]
pub struct FieldTextModel {
    /// Name of the column.
    pub name: Seq<char>,
    /// Name of its type, without a time zone.
    pub type_text: Seq<char>,
    /// Time zone, for timestamps that have one.
    pub zone: Option<Seq<char>>,
    /// Whether nulls are allowed.
    pub nullable: bool,
}

impl View for FieldText {
    type V = FieldTextModel;

    open spec fn view(&self) -> FieldTextModel {
        FieldTextModel {
            name: self.name@,
            type_text: self.type_text@,
            zone: opt_text(self.zone),
            nullable: self.nullable,
        }
    }
}

/// What the tables of a sidecar say.
pub open spec fn sidecar_model(tables: Seq<(String, Vec<FieldText>)>) -> Seq<
    (Seq<char>, Seq<FieldTextModel>),
> {
    tables.map_values(
        |t: (String, Vec<FieldText>)| (t.0@, t.1@.map_values(|f: FieldText| f@)),
    )
}

/// The tables of a sidecar with these bytes, in the order of their names, with
/// the names that Arrow displays for their types; nothing where the bytes are
/// no JSON object from names to Arrow schemas.
pub uninterp spec fn sidecar_schemas(bytes: Seq<u8>) -> Option<
    Seq<(Seq<char>, Seq<FieldTextModel>)>,
>;

/// `serde_json::from_slice`, into a `BTreeMap` from names to
/// `arrow_schema::Schema`. The claim is that what it gives, or that it fails,
/// depends on the bytes alone. Of each column the name, the type and whether it
/// takes nulls are handed out. The type goes by the text that
/// `arrow_schema::DataType` displays: it lists the metadata of nested columns by
/// key. The zone of a timestamp stands apart from that text. The metadata of
/// the schemas and of their columns is left out.
#[verifier::external_body]
fn parse_schemas(bytes: &[u8]) -> (r: Option<Vec<(String, Vec<FieldText>)>>)
    ensures
        match r {
            Some(tables) => sidecar_schemas(bytes@) == Some(sidecar_model(tables@)),
            None => sidecar_schemas(bytes@) is None,
        },
{
    let parsed: BTreeMap<String, ArrowSchema> = serde_json::from_slice(bytes).ok()?;
    let column = |field: &ArrowField| {
        let (shown, zone) = match field.data_type() {
            ArrowType::Timestamp(u, z) => (ArrowType::Timestamp(*u, None), z.as_ref()),
            other => (other.clone(), None),
        };
        FieldText {
            name: field.name().clone(),
            type_text: shown.to_string(),
            zone: zone.map(|z| z.to_string()),
            nullable: field.is_nullable(),
        }
    };
    let table = |(n, s): (String, ArrowSchema)| (n, s.fields.iter().map(|f| column(f)).collect());
    Some(parsed.into_iter().map(table).collect())
}

/// The type with this name, among those whose name says all.
pub open spec fn plain_type(text: Seq<char>) -> Option<TypeModel> {
    if text == "Null"@ {
        Some(TypeModel::Null)
    } else if text == "Int8"@ {
        Some(TypeModel::Int8)
    } else if text == "Int16"@ {
        Some(TypeModel::Int16)
    } else if text == "Int32"@ {
        Some(TypeModel::Int32)
    } else if text == "Int64"@ {
        Some(TypeModel::Int64)
    } else if text == "UInt8"@ {
        Some(TypeModel::UInt8)
    } else if text == "UInt16"@ {
        Some(TypeModel::UInt16)
    } else if text == "UInt32"@ {
        Some(TypeModel::UInt32)
    } else if text == "UInt64"@ {
        Some(TypeModel::UInt64)
    } else if text == "Float32"@ {
        Some(TypeModel::Float32)
    } else if text == "Float64"@ {
        Some(TypeModel::Float64)
    } else if text == "Boolean"@ {
        Some(TypeModel::Boolean)
    } else if text == "Utf8"@ {
        Some(TypeModel::Utf8)
    } else if text == "LargeUtf8"@ {
        Some(TypeModel::LargeUtf8)
    } else if text == "Binary"@ {
        Some(TypeModel::Binary)
    } else if text == "LargeBinary"@ {
        Some(TypeModel::LargeBinary)
    } else if text == "Date32"@ {
        Some(TypeModel::Date32)
    } else if text == "Date64"@ {
        Some(TypeModel::Date64)
    } else {
        None
    }
}

/// The type with this name, among those with a unit.
pub open spec fn unit_type(text: Seq<char>, zone: Option<Seq<char>>) -> Option<TypeModel> {
    if text == "Timestamp(s)"@ {
        Some(TypeModel::Timestamp(TimeUnit::Second, zone))
    } else if text == "Timestamp(ms)"@ {
        Some(TypeModel::Timestamp(TimeUnit::Millisecond, zone))
    } else if text == "Timestamp(µs)"@ {
        Some(TypeModel::Timestamp(TimeUnit::Microsecond, zone))
    } else if text == "Timestamp(ns)"@ {
        Some(TypeModel::Timestamp(TimeUnit::Nanosecond, zone))
    } else if text == "Time32(s)"@ {
        Some(TypeModel::Time32(TimeUnit::Second))
    } else if text == "Time32(ms)"@ {
        Some(TypeModel::Time32(TimeUnit::Millisecond))
    } else if text == "Time32(µs)"@ {
        Some(TypeModel::Time32(TimeUnit::Microsecond))
    } else if text == "Time32(ns)"@ {
        Some(TypeModel::Time32(TimeUnit::Nanosecond))
    } else if text == "Time64(s)"@ {
        Some(TypeModel::Time64(TimeUnit::Second))
    } else if text == "Time64(ms)"@ {
        Some(TypeModel::Time64(TimeUnit::Millisecond))
    } else if text == "Time64(µs)"@ {
        Some(TypeModel::Time64(TimeUnit::Microsecond))
    } else if text == "Time64(ns)"@ {
        Some(TypeModel::Time64(TimeUnit::Nanosecond))
    } else if text == "Duration(s)"@ {
        Some(TypeModel::Duration(TimeUnit::Second))
    } else if text == "Duration(ms)"@ {
        Some(TypeModel::Duration(TimeUnit::Millisecond))
    } else if text == "Duration(µs)"@ {
        Some(TypeModel::Duration(TimeUnit::Microsecond))
    } else if text == "Duration(ns)"@ {
        Some(TypeModel::Duration(TimeUnit::Nanosecond))
    } else if text == "Interval(YearMonth)"@ {
        Some(TypeModel::Interval(IntervalUnit::YearMonth))
    } else if text == "Interval(DayTime)"@ {
        Some(TypeModel::Interval(IntervalUnit::DayTime))
    } else if text == "Interval(MonthDayNano)"@ {
        Some(TypeModel::Interval(IntervalUnit::MonthDayNano))
    } else {
        None
    }
}

/// The type with this name and, for a timestamp, this zone. Any other name is
/// that of a type that rows cannot hold.
pub open spec fn type_named(text: Seq<char>, zone: Option<Seq<char>>) -> TypeModel {
    match plain_type(text) {
        Some(ty) => ty,
        None => match unit_type(text, zone) {
            Some(ty) => ty,
            None => TypeModel::Other(text, text),
        },
    }
}

/// The name of a type, without a time zone.
pub open spec fn type_text(ty: TypeModel) -> Seq<char> {
    match ty {
        TypeModel::Null => "Null"@,
        TypeModel::Int8 => "Int8"@,
        TypeModel::Int16 => "Int16"@,
        TypeModel::Int32 => "Int32"@,
        TypeModel::Int64 => "Int64"@,
        TypeModel::UInt8 => "UInt8"@,
        TypeModel::UInt16 => "UInt16"@,
        TypeModel::UInt32 => "UInt32"@,
        TypeModel::UInt64 => "UInt64"@,
        TypeModel::Float32 => "Float32"@,
        TypeModel::Float64 => "Float64"@,
        TypeModel::Boolean => "Boolean"@,
        TypeModel::Utf8 => "Utf8"@,
        TypeModel::LargeUtf8 => "LargeUtf8"@,
        TypeModel::Binary => "Binary"@,
        TypeModel::LargeBinary => "LargeBinary"@,
        TypeModel::Date32 => "Date32"@,
        TypeModel::Date64 => "Date64"@,
        TypeModel::Timestamp(TimeUnit::Second, _) => "Timestamp(s)"@,
        TypeModel::Timestamp(TimeUnit::Millisecond, _) => "Timestamp(ms)"@,
        TypeModel::Timestamp(TimeUnit::Microsecond, _) => "Timestamp(µs)"@,
        TypeModel::Timestamp(TimeUnit::Nanosecond, _) => "Timestamp(ns)"@,
        TypeModel::Time32(TimeUnit::Second) => "Time32(s)"@,
        TypeModel::Time32(TimeUnit::Millisecond) => "Time32(ms)"@,
        TypeModel::Time32(TimeUnit::Microsecond) => "Time32(µs)"@,
        TypeModel::Time32(TimeUnit::Nanosecond) => "Time32(ns)"@,
        TypeModel::Time64(TimeUnit::Second) => "Time64(s)"@,
        TypeModel::Time64(TimeUnit::Millisecond) => "Time64(ms)"@,
        TypeModel::Time64(TimeUnit::Microsecond) => "Time64(µs)"@,
        TypeModel::Time64(TimeUnit::Nanosecond) => "Time64(ns)"@,
        TypeModel::Duration(TimeUnit::Second) => "Duration(s)"@,
        TypeModel::Duration(TimeUnit::Millisecond) => "Duration(ms)"@,
        TypeModel::Duration(TimeUnit::Microsecond) => "Duration(µs)"@,
        TypeModel::Duration(TimeUnit::Nanosecond) => "Duration(ns)"@,
        TypeModel::Interval(IntervalUnit::YearMonth) => "Interval(YearMonth)"@,
        TypeModel::Interval(IntervalUnit::DayTime) => "Interval(DayTime)"@,
        TypeModel::Interval(IntervalUnit::MonthDayNano) => "Interval(MonthDayNano)"@,
        TypeModel::Other(name, _) => name,
    }
}

/// The time zone of a timestamp.
pub open spec fn type_zone(ty: TypeModel) -> Option<Seq<char>> {
    match ty {
        TypeModel::Timestamp(_, zone) => zone,
        _ => None,
    }
}

/// No two types have one name: a type is found again by its name and zone.
pub proof fn law_types_go_by_their_names(ty: TypeModel)
    requires
        ty !is Other,
    ensures
        type_named(type_text(ty), type_zone(ty)) == ty,
{
    reveal_strlit("Null");
    reveal_strlit("Int8");
    reveal_strlit("Int16");
    reveal_strlit("Int32");
    reveal_strlit("Int64");
    reveal_strlit("UInt8");
    reveal_strlit("UInt16");
    reveal_strlit("UInt32");
    reveal_strlit("UInt64");
    reveal_strlit("Float32");
    reveal_strlit("Float64");
    reveal_strlit("Boolean");
    reveal_strlit("Utf8");
    reveal_strlit("LargeUtf8");
    reveal_strlit("Binary");
    reveal_strlit("LargeBinary");
    reveal_strlit("Date32");
    reveal_strlit("Date64");
    reveal_strlit("Timestamp(s)");
    reveal_strlit("Timestamp(ms)");
    reveal_strlit("Timestamp(µs)");
    reveal_strlit("Timestamp(ns)");
    reveal_strlit("Time32(s)");
    reveal_strlit("Time32(ms)");
    reveal_strlit("Time32(µs)");
    reveal_strlit("Time32(ns)");
    reveal_strlit("Time64(s)");
    reveal_strlit("Time64(ms)");
    reveal_strlit("Time64(µs)");
    reveal_strlit("Time64(ns)");
    reveal_strlit("Duration(s)");
    reveal_strlit("Duration(ms)");
    reveal_strlit("Duration(µs)");
    reveal_strlit("Duration(ns)");
    reveal_strlit("Interval(YearMonth)");
    reveal_strlit("Interval(DayTime)");
    reveal_strlit("Interval(MonthDayNano)");
    assert("Null"@.len() == 4 && "Null"@[0] == 'N');
    assert("Int8"@.len() == 4 && "Int8"@[0] == 'I');
    assert("Int16"@.len() == 5 && "Int16"@[3] == '1');
    assert("Int32"@.len() == 5 && "Int32"@[3] == '3');
    assert("Int64"@.len() == 5 && "Int64"@[3] == '6');
    assert("UInt8"@.len() == 5 && "UInt8"@[3] == 't');
    assert("UInt16"@.len() == 6 && "UInt16"@[0] == 'U' && "UInt16"@[4] == '1');
    assert("UInt32"@.len() == 6 && "UInt32"@[0] == 'U' && "UInt32"@[4] == '3');
    assert("UInt64"@.len() == 6 && "UInt64"@[0] == 'U' && "UInt64"@[4] == '6');
    assert("Float32"@.len() == 7 && "Float32"@[5] == '3');
    assert("Float64"@.len() == 7 && "Float64"@[5] == '6');
    assert("Boolean"@.len() == 7 && "Boolean"@[5] == 'a');
    assert("Utf8"@.len() == 4 && "Utf8"@[0] == 'U');
    assert("LargeUtf8"@.len() == 9 && "LargeUtf8"@[4] == 'e');
    assert("Binary"@.len() == 6 && "Binary"@[0] == 'B' && "Binary"@[4] == 'r');
    assert("LargeBinary"@.len() == 11 && "LargeBinary"@[0] == 'L');
    assert("Date32"@.len() == 6 && "Date32"@[0] == 'D' && "Date32"@[4] == '3');
    assert("Date64"@.len() == 6 && "Date64"@[0] == 'D' && "Date64"@[4] == '6');
    assert("Timestamp(s)"@.len() == 12 && "Timestamp(s)"@[9] == '(');
    assert("Timestamp(ms)"@.len() == 13 && "Timestamp(ms)"@[10] == 'm');
    assert("Timestamp(µs)"@.len() == 13 && "Timestamp(µs)"@[10] == 'µ');
    assert("Timestamp(ns)"@.len() == 13 && "Timestamp(ns)"@[10] == 'n');
    assert("Time32(s)"@.len() == 9 && "Time32(s)"@[4] == '3');
    assert("Time32(ms)"@.len() == 10 && "Time32(ms)"@[4] == '3' && "Time32(ms)"@[7] == 'm');
    assert("Time32(µs)"@.len() == 10 && "Time32(µs)"@[4] == '3' && "Time32(µs)"@[7] == 'µ');
    assert("Time32(ns)"@.len() == 10 && "Time32(ns)"@[4] == '3' && "Time32(ns)"@[7] == 'n');
    assert("Time64(s)"@.len() == 9 && "Time64(s)"@[4] == '6');
    assert("Time64(ms)"@.len() == 10 && "Time64(ms)"@[4] == '6' && "Time64(ms)"@[7] == 'm');
    assert("Time64(µs)"@.len() == 10 && "Time64(µs)"@[4] == '6' && "Time64(µs)"@[7] == 'µ');
    assert("Time64(ns)"@.len() == 10 && "Time64(ns)"@[4] == '6' && "Time64(ns)"@[7] == 'n');
    assert("Duration(s)"@.len() == 11 && "Duration(s)"@[0] == 'D');
    assert("Duration(ms)"@.len() == 12 && "Duration(ms)"@[9] == 'm');
    assert("Duration(µs)"@.len() == 12 && "Duration(µs)"@[9] == 'µ');
    assert("Duration(ns)"@.len() == 12 && "Duration(ns)"@[9] == 'n');
    assert("Interval(YearMonth)"@.len() == 19);
    assert("Interval(DayTime)"@.len() == 17);
    assert("Interval(MonthDayNano)"@.len() == 22);
}

/// The column that the sidecar declares.
pub open spec fn declared_field(f: FieldTextModel) -> FieldModel {
    FieldModel { name: f.name, ty: type_named(f.type_text, f.zone), nullable: f.nullable }
}

/// The schema that the sidecar declares.
pub open spec fn declared_schema(fs: Seq<FieldTextModel>) -> Seq<FieldModel> {
    fs.map_values(|f: FieldTextModel| declared_field(f))
}

/// The schemas of the tables, by name. Of two tables with one name the later
/// counts.
pub open spec fn map_of(tables: Seq<(Seq<char>, Seq<FieldTextModel>)>) -> Map<
    Seq<char>,
    Seq<FieldModel>,
>
    decreases tables.len(),
{
    if tables.len() == 0 {
        Map::empty()
    } else {
        map_of(tables.drop_last()).insert(tables.last().0, declared_schema(tables.last().1))
    }
}

/// The schemas that a sidecar gives; none where it could not be parsed.
pub open spec fn registry_model(parsed: Option<Seq<(Seq<char>, Seq<FieldTextModel>)>>) -> Map<
    Seq<char>,
    Seq<FieldModel>,
> {
    match parsed {
        Some(tables) => map_of(tables),
        None => Map::empty(),
    }
}

fn find_plain_type(text: &String) -> (r: Option<DataType>)
    ensures
        match r {
            Some(ty) => plain_type(text@) == Some(ty@),
            None => plain_type(text@) is None,
        },
{
    if *text == "Null".to_owned() {
        Some(DataType::Null)
    } else if *text == "Int8".to_owned() {
        Some(DataType::Int8)
    } else if *text == "Int16".to_owned() {
        Some(DataType::Int16)
    } else if *text == "Int32".to_owned() {
        Some(DataType::Int32)
    } else if *text == "Int64".to_owned() {
        Some(DataType::Int64)
    } else if *text == "UInt8".to_owned() {
        Some(DataType::UInt8)
    } else if *text == "UInt16".to_owned() {
        Some(DataType::UInt16)
    } else if *text == "UInt32".to_owned() {
        Some(DataType::UInt32)
    } else if *text == "UInt64".to_owned() {
        Some(DataType::UInt64)
    } else if *text == "Float32".to_owned() {
        Some(DataType::Float32)
    } else if *text == "Float64".to_owned() {
        Some(DataType::Float64)
    } else if *text == "Boolean".to_owned() {
        Some(DataType::Boolean)
    } else if *text == "Utf8".to_owned() {
        Some(DataType::Utf8)
    } else if *text == "LargeUtf8".to_owned() {
        Some(DataType::LargeUtf8)
    } else if *text == "Binary".to_owned() {
        Some(DataType::Binary)
    } else if *text == "LargeBinary".to_owned() {
        Some(DataType::LargeBinary)
    } else if *text == "Date32".to_owned() {
        Some(DataType::Date32)
    } else if *text == "Date64".to_owned() {
        Some(DataType::Date64)
    } else {
        None
    }
}

fn find_unit_type(text: &String, zone: &Option<String>) -> (r: Option<DataType>)
    ensures
        match r {
            Some(ty) => unit_type(text@, opt_text(*zone)) == Some(ty@),
            None => unit_type(text@, opt_text(*zone)) is None,
        },
{
    if *text == "Timestamp(s)".to_owned() {
        Some(DataType::Timestamp(TimeUnit::Second, clone_text(zone)))
    } else if *text == "Timestamp(ms)".to_owned() {
        Some(DataType::Timestamp(TimeUnit::Millisecond, clone_text(zone)))
    } else if *text == "Timestamp(µs)".to_owned() {
        Some(DataType::Timestamp(TimeUnit::Microsecond, clone_text(zone)))
    } else if *text == "Timestamp(ns)".to_owned() {
        Some(DataType::Timestamp(TimeUnit::Nanosecond, clone_text(zone)))
    } else if *text == "Time32(s)".to_owned() {
        Some(DataType::Time32(TimeUnit::Second))
    } else if *text == "Time32(ms)".to_owned() {
        Some(DataType::Time32(TimeUnit::Millisecond))
    } else if *text == "Time32(µs)".to_owned() {
        Some(DataType::Time32(TimeUnit::Microsecond))
    } else if *text == "Time32(ns)".to_owned() {
        Some(DataType::Time32(TimeUnit::Nanosecond))
    } else if *text == "Time64(s)".to_owned() {
        Some(DataType::Time64(TimeUnit::Second))
    } else if *text == "Time64(ms)".to_owned() {
        Some(DataType::Time64(TimeUnit::Millisecond))
    } else if *text == "Time64(µs)".to_owned() {
        Some(DataType::Time64(TimeUnit::Microsecond))
    } else if *text == "Time64(ns)".to_owned() {
        Some(DataType::Time64(TimeUnit::Nanosecond))
    } else if *text == "Duration(s)".to_owned() {
        Some(DataType::Duration(TimeUnit::Second))
    } else if *text == "Duration(ms)".to_owned() {
        Some(DataType::Duration(TimeUnit::Millisecond))
    } else if *text == "Duration(µs)".to_owned() {
        Some(DataType::Duration(TimeUnit::Microsecond))
    } else if *text == "Duration(ns)".to_owned() {
        Some(DataType::Duration(TimeUnit::Nanosecond))
    } else if *text == "Interval(YearMonth)".to_owned() {
        Some(DataType::Interval(IntervalUnit::YearMonth))
    } else if *text == "Interval(DayTime)".to_owned() {
        Some(DataType::Interval(IntervalUnit::DayTime))
    } else if *text == "Interval(MonthDayNano)".to_owned() {
        Some(DataType::Interval(IntervalUnit::MonthDayNano))
    } else {
        None
    }
}

/// Returns the column that the sidecar declares.
pub fn field_of(field: &FieldText) -> (r: Field)
    ensures
        r@ == declared_field(field@),
{
    let data_type = match find_plain_type(&field.type_text) {
        Some(ty) => ty,
        None => match find_unit_type(&field.type_text, &field.zone) {
            Some(ty) => ty,
            None => DataType::Other(field.type_text.clone()),
        },
    };
    Field { name: field.name.clone(), data_type, nullable: field.nullable }
}

/// Returns the schema that the sidecar declares.
pub fn schema_of(fields: &Vec<FieldText>) -> (r: Schema)
    ensures
        r@ == declared_schema(fields@.map_values(|f: FieldText| f@)),
{
    let mut out: Vec<Field> = Vec::new();
    let ghost declared = declared_schema(fields@.map_values(|f: FieldText| f@));
    let mut i: usize = 0;
    while i < fields.len()
        invariant
            i <= fields@.len(),
            declared == declared_schema(fields@.map_values(|f: FieldText| f@)),
            out@.map_values(|f: Field| f@) == declared.take(i as int),
        decreases fields@.len() - i,
    {
        let ghost before = out@;
        let field = field_of(&fields[i]);
        out.push(field);
        assert(out@.map_values(|f: Field| f@) =~= before.map_values(|f: Field| f@).push(field@));
        assert(declared.take(i + 1) =~= declared.take(i as int).push(declared[i as int]));
        i += 1;
    }
    assert(declared.take(i as int) =~= declared);
    Schema::new(out)
}

/// Returns the schemas of a parsed sidecar, by table; none where it could not
/// be parsed.
pub fn registry_of(parsed: Option<Vec<(String, Vec<FieldText>)>>) -> (r: NameMap<Schema>)
    ensures
        r.wf(),
        schema_map(r@) == (match parsed {
            Some(tables) => map_of(sidecar_model(tables@)),
            None => Map::empty(),
        }),
{
    let mut out: NameMap<Schema> = NameMap::new();
    assert(schema_map(out@) =~= Map::<Seq<char>, Seq<FieldModel>>::empty());
    let tables = match parsed {
        Some(tables) => tables,
        None => return out,
    };
    let ghost model = sidecar_model(tables@);
    assert(model.take(0) =~= Seq::empty());
    let mut i: usize = 0;
    while i < tables.len()
        invariant
            i <= tables@.len(),
            model == sidecar_model(tables@),
            out.wf(),
            schema_map(out@) == map_of(model.take(i as int)),
        decreases tables@.len() - i,
    {
        let ghost before = out@;
        let name = &tables[i].0;
        let schema = schema_of(&tables[i].1);
        out.insert(name.as_str(), schema);
        assert(schema_map(out@) =~= schema_map(before).insert(name@, schema@));
        assert(model.take(i + 1).drop_last() =~= model.take(i as int));
        assert(model.take(i + 1).last() == model[i as int]);
        i += 1;
    }
    assert(model.take(i as int) =~= model);
    out
}

/// Returns the schemas of the tables from the bytes of the sidecar. A sidecar
/// that is missing or cannot be decoded holds none.
pub fn load_table_schemas(bytes: Option<&[u8]>) -> (r: NameMap<Schema>)
    ensures
        r.wf(),
        schema_map(r@) == (match bytes {
            Some(b) => registry_model(sidecar_schemas(b@)),
            None => Map::empty(),
        }),
{
    match bytes {
        Some(b) => registry_of(parse_schemas(b)),
        None => registry_of(None),
    }
}

} // verus!
