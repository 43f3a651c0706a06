use std::time::Duration;

use vstd::prelude::*;

verus! {

/// What `Duration::from_secs` returns for a whole number of seconds.
pub uninterp spec fn duration_from_secs(secs: u64) -> Duration;

/// Relies on `core::time::Duration::from_secs`: a duration of `secs` whole
/// seconds, which depends on `secs` alone.
pub assume_specification[ core::time::Duration::from_secs ](secs: u64) -> (r: Duration)
    ensures
        r == duration_from_secs(secs),
;

/// Relies on `Duration`'s `Clone`: `Duration` is `Copy`, so a clone is the
/// same value.
pub assume_specification[ <core::time::Duration as Clone>::clone ](d: &Duration) -> (r: Duration)
    ensures
        r == *d,
;

/// Where the HTTP front end listens, and how long a request may run.
#[derive(Clone, Debug)]
pub struct HttpOptions {
    pub addr: String,
    pub timeout: Duration,
}

impl Default for HttpOptions {
    fn default() -> (r: HttpOptions)
        ensures
            r.addr@ == "127.0.0.1:4000"@,
            r.timeout == duration_from_secs(30),
    {
        HttpOptions { addr: "127.0.0.1:4000".to_owned(), timeout: Duration::from_secs(30) }
    }
}

/// Name and type name of one column of a query result.
#[derive(Debug, PartialEq, Eq)]
pub struct ColumnSchema {
    name: String,
    data_type: String,
}

/// Mathematical view of a [`ColumnSchema`]: its name and its type name.
pub struct ColumnSchemaView {
    pub name: Seq<char>,
    pub data_type: Seq<char>,
}

impl View for ColumnSchema {
    type V = ColumnSchemaView;

    closed spec fn view(&self) -> ColumnSchemaView {
        ColumnSchemaView { name: self.name@, data_type: self.data_type@ }
    }
}

impl ColumnSchema {
    pub fn new(name: String, data_type: String) -> (r: ColumnSchema)
        ensures
            r@.name == name@,
            r@.data_type == data_type@,
    {
        ColumnSchema { name, data_type }
    }

    pub fn name(&self) -> (r: &String)
        ensures
            r@ == self@.name,
    {
        &self.name
    }

    pub fn data_type(&self) -> (r: &String)
        ensures
            r@ == self@.data_type,
    {
        &self.data_type
    }
}

/// The columns of a query result, in order.
#[derive(Debug, PartialEq, Eq)]
pub struct Schema {
    column_schemas: Vec<ColumnSchema>,
}

impl View for Schema {
    type V = Seq<ColumnSchemaView>;

    closed spec fn view(&self) -> Seq<ColumnSchemaView> {
        self.column_schemas@.map_values(|c: ColumnSchema| c@)
    }
}

impl Schema {
    pub fn new(columns: Vec<ColumnSchema>) -> (r: Schema)
        ensures
            r@ == columns@.map_values(|c: ColumnSchema| c@),
    {
        Schema { column_schemas: columns }
    }

    pub fn column_schemas(&self) -> (r: &Vec<ColumnSchema>)
        ensures
            r@.map_values(|c: ColumnSchema| c@) == self@,
    {
        &self.column_schemas
    }

    /// The number of columns.
    pub fn num_cols(&self) -> (r: usize)
        ensures
            r == self@.len(),
    {
        self.column_schemas.len()
    }
}

} // verus!
