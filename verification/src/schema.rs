//! Column types, fields and table schemas.
use vstd::prelude::*;

verus! {

/// The type of the values in a column.
#[derive(Debug, Clone, Copy, PartialEq, Eq, Structural)]
pub enum DataType {
    Int64,
    Float64,
    Utf8,
    Timestamp,
}

/// A named, typed column of a schema.
#[derive(Debug)]
pub struct Field {
    pub name: String,
    pub data_type: DataType,
    pub nullable: bool,
}

impl Clone for Field {
    fn clone(&self) -> (r: Self)
        ensures
            r == *self,
    {
        Field { name: self.name.clone(), data_type: self.data_type, nullable: self.nullable }
    }
}

/// A field as plain values: its name, type and nullability.
pub open spec fn spec_field_view(f: Field) -> (Seq<char>, DataType, bool) {
    (f.name@, f.data_type, f.nullable)
}

/// The fields as plain values.
pub open spec fn spec_fields_view(fields: Seq<Field>) -> Seq<(Seq<char>, DataType, bool)> {
    fields.map_values(|f: Field| spec_field_view(f))
}

impl Field {
    pub fn new(name: &str, data_type: DataType, nullable: bool) -> (f: Field)
        ensures
            f.name@ == name@,
            f.data_type == data_type,
            f.nullable == nullable,
    {
        Field { name: name.to_owned(), data_type, nullable }
    }
}

/// The ordered fields of a table.
#[derive(Debug)]
pub struct Schema {
    pub fields: Vec<Field>,
}

/// A copy of each field.
pub fn clone_fields(fields: &Vec<Field>) -> (r: Vec<Field>)
    ensures
        r@ == fields@,
{
    let mut r: Vec<Field> = Vec::new();
    let mut i: usize = 0;
    while i < fields.len()
        invariant
            i <= fields@.len(),
            r@ == fields@.take(i as int),
        decreases fields@.len() - i,
    {
        r.push(fields[i].clone());
        i = i + 1;
        assert(r@ =~= fields@.take(i as int));
    }
    assert(fields@.take(i as int) =~= fields@);
    r
}

impl Clone for Schema {
    fn clone(&self) -> (r: Self)
        ensures
            r.fields@ == self.fields@,
    {
        Schema { fields: clone_fields(&self.fields) }
    }
}

/// The names of the fields, in order.
pub open spec fn spec_field_names(fields: Seq<Field>) -> Seq<Seq<char>> {
    fields.map_values(|f: Field| f.name@)
}

/// The position of the first field called `name`, if any.
pub open spec fn spec_index_of(fields: Seq<Field>, name: Seq<char>) -> Option<int> {
    if exists|i: int| 0 <= i < fields.len() && fields[i].name@ == name {
        Some(choose|i: int| 0 <= i < fields.len() && fields[i].name@ == name
            && forall|j: int| 0 <= j < i ==> fields[j].name@ != name)
    } else {
        None
    }
}

impl Schema {
    pub fn new(fields: Vec<Field>) -> (s: Schema)
        ensures
            s.fields@ == fields@,
    {
        Schema { fields }
    }

    /// The position of the first field called `name`.
    pub fn index_of(&self, name: &str) -> (r: Option<usize>)
        ensures
            match r {
                Some(i) => i < self.fields.len() && self.fields@[i as int].name@ == name@
                    && forall|j: int| 0 <= j < i ==> self.fields@[j].name@ != name@,
                None => forall|j: int| 0 <= j < self.fields.len() ==> self.fields@[j].name@ != name@,
            },
    {
        let wanted = name.to_owned();
        let mut i: usize = 0;
        while i < self.fields.len()
            invariant
                i <= self.fields.len(),
                wanted@ == name@,
                forall|j: int| 0 <= j < i ==> self.fields@[j].name@ != name@,
            decreases self.fields.len() - i,
        {
            if self.fields[i].name == wanted {
                return Some(i);
            }
            i = i + 1;
        }
        None
    }
}

/// The first field called `name` is at `i`.
pub proof fn lemma_index_of_at(fields: Seq<Field>, name: Seq<char>, i: int)
    requires
        0 <= i < fields.len(),
        fields[i].name@ == name,
        forall|j: int| 0 <= j < i ==> fields[j].name@ != name,
    ensures
        spec_index_of(fields, name) == Some(i),
{
    let w = choose|w: int| 0 <= w < fields.len() && fields[w].name@ == name && forall|v: int| 0 <= v < w ==> fields[v].name@ != name;
    if w < i {
        assert(fields[w].name@ != name);
    }
    if w > i {
        assert(fields[i].name@ != name);
    }
}

} // verus!
