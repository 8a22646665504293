//! A query: the table it scans, the columns it keeps and its filter.
use vstd::prelude::*;
use crate::text::{spec_views, strings_of};

verus! {

/// A query over one table.
pub struct Query {
    table: String,
    projection: Vec<String>,
    filter: Option<String>,
}

impl Query {
    /// The table the query scans.
    pub closed spec fn spec_table(&self) -> Seq<char> {
        self.table@
    }

    /// The columns the query keeps; none for all of them.
    pub closed spec fn spec_projection(&self) -> Seq<Seq<char>> {
        spec_views(self.projection@)
    }

    /// The query's filter, if any.
    pub closed spec fn spec_filter(&self) -> Option<Seq<char>> {
        match self.filter {
            Some(f) => Some(f@),
            None => None,
        }
    }

    /// A query of every row and column of `table`.
    pub fn scan(table: &str) -> (q: Query)
        ensures
            q.spec_table() == table@,
            q.spec_projection() == Seq::<Seq<char>>::empty(),
            q.spec_filter() is None,
    {
        let projection: Vec<String> = Vec::new();
        assert(spec_views(projection@) =~= Seq::<Seq<char>>::empty());
        Query { table: table.to_owned(), projection, filter: None }
    }

    /// The query keeping only the given columns.
    pub fn project(self, columns: &[&str]) -> (q: Query)
        ensures
            q.spec_table() == self.spec_table(),
            q.spec_projection() == columns@.map_values(|c: &str| c@),
            q.spec_filter() == self.spec_filter(),
    {
        Query { projection: strings_of(columns), ..self }
    }

    /// The query with the given filter, in place of any other.
    pub fn filter(self, predicate: &str) -> (q: Query)
        ensures
            q.spec_table() == self.spec_table(),
            q.spec_projection() == self.spec_projection(),
            q.spec_filter() == Some(predicate@),
    {
        Query { filter: Some(predicate.to_owned()), ..self }
    }
}

} // verus!
