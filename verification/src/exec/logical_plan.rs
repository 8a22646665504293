//! Logical query plans.
use vstd::prelude::*;
use crate::exec::expr::Expr;
use crate::text::spec_views;

verus! {

/// An aggregate function.
#[derive(Debug, Clone, Copy, PartialEq, Eq, Structural)]
pub enum AggOp {
    Sum,
    Count,
    Avg,
    Min,
    Max,
}

/// A logical plan: a scan of a table, with the columns it reads and the
/// filter it applies, or a filter, projection or aggregation of a plan.
#[derive(Debug)]
pub enum LogicalPlan {
    Scan { table: String, projection: Vec<String>, filter: Option<Expr> },
    Filter { input: Box<LogicalPlan>, predicate: Expr },
    Project { input: Box<LogicalPlan>, columns: Vec<String> },
    Aggregate { input: Box<LogicalPlan>, aggs: Vec<(AggOp, String, String)>, group_by: Vec<String> },
}

/// A logical plan with its names as character sequences.
pub enum PlanView {
    Scan { table: Seq<char>, projection: Seq<Seq<char>>, filter: Option<Expr> },
    Filter { input: Box<PlanView>, predicate: Expr },
    Project { input: Box<PlanView>, columns: Seq<Seq<char>> },
    Aggregate { input: Box<PlanView>, aggs: Seq<(AggOp, Seq<char>, Seq<char>)>, group_by: Seq<Seq<char>> },
}

/// The aggregates with their names as character sequences.
pub open spec fn spec_aggs_view(aggs: Seq<(AggOp, String, String)>) -> Seq<(AggOp, Seq<char>, Seq<char>)> {
    aggs.map_values(|a: (AggOp, String, String)| (a.0, a.1@, a.2@))
}

/// The plan with its names as character sequences.
pub open spec fn view_plan(p: LogicalPlan) -> PlanView
    decreases p,
{
    match p {
        LogicalPlan::Scan { table, projection, filter } => PlanView::Scan {
            table: table@,
            projection: spec_views(projection@),
            filter,
        },
        LogicalPlan::Filter { input, predicate } => PlanView::Filter { input: Box::new(view_plan(*input)), predicate },
        LogicalPlan::Project { input, columns } => PlanView::Project {
            input: Box::new(view_plan(*input)),
            columns: spec_views(columns@),
        },
        LogicalPlan::Aggregate { input, aggs, group_by } => PlanView::Aggregate {
            input: Box::new(view_plan(*input)),
            aggs: spec_aggs_view(aggs@),
            group_by: spec_views(group_by@),
        },
    }
}

/// Owned copies of the names.
fn names_of(names: &[&str]) -> (r: Vec<String>)
    ensures
        spec_views(r@) == names@.map_values(|c: &str| c@),
{
    crate::text::strings_of(names)
}

impl LogicalPlan {
    /// A scan of every column of `table`, unfiltered.
    pub fn scan(table: &str) -> (r: LogicalPlan)
        ensures
            view_plan(r) == (PlanView::Scan { table: table@, projection: seq![], filter: None }),
    {
        let projection: Vec<String> = Vec::new();
        assert(spec_views(projection@) =~= Seq::<Seq<char>>::empty());
        LogicalPlan::Scan { table: table.to_owned(), projection, filter: None }
    }

    /// This plan, filtered by `predicate`.
    pub fn filter(self, predicate: Expr) -> (r: LogicalPlan)
        ensures
            view_plan(r) == (PlanView::Filter { input: Box::new(view_plan(self)), predicate }),
    {
        LogicalPlan::Filter { input: Box::new(self), predicate }
    }

    /// This plan, reduced to the given columns.
    pub fn project(self, columns: &[&str]) -> (r: LogicalPlan)
        ensures
            view_plan(r) == (PlanView::Project {
                input: Box::new(view_plan(self)),
                columns: columns@.map_values(|c: &str| c@),
            }),
    {
        LogicalPlan::Project { input: Box::new(self), columns: names_of(columns) }
    }

    /// This plan, aggregated: each aggregate is its function, its input
    /// column and its output name.
    pub fn aggregate(self, aggs: Vec<(AggOp, &str, &str)>, group_by: Vec<String>) -> (r: LogicalPlan)
        ensures
            view_plan(r) == (PlanView::Aggregate {
                input: Box::new(view_plan(self)),
                aggs: aggs@.map_values(|a: (AggOp, &str, &str)| (a.0, a.1@, a.2@)),
                group_by: spec_views(group_by@),
            }),
    {
        let mut owned: Vec<(AggOp, String, String)> = Vec::new();
        let mut i: usize = 0;
        while i < aggs.len()
            invariant
                i <= aggs@.len(),
                spec_aggs_view(owned@) == aggs@.take(i as int).map_values(|a: (AggOp, &str, &str)| (a.0, a.1@, a.2@)),
            decreases aggs@.len() - i,
        {
            let (op, c, name) = aggs[i];
            let ghost before = owned@;
            owned.push((op, c.to_owned(), name.to_owned()));
            assert(spec_aggs_view(owned@) =~= spec_aggs_view(before).push((op, c@, name@)));
            assert(aggs@.take(i + 1).map_values(|a: (AggOp, &str, &str)| (a.0, a.1@, a.2@)) =~= aggs@.take(i as int).map_values(
                |a: (AggOp, &str, &str)| (a.0, a.1@, a.2@),
            ).push((op, c@, name@)));
            i = i + 1;
        }
        assert(aggs@.take(i as int) =~= aggs@);
        LogicalPlan::Aggregate { input: Box::new(self), aggs: owned, group_by }
    }
}

} // verus!
