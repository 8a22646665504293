//! Rewrites of logical plans that let scans read less.
use vstd::prelude::*;
use crate::exec::expr::Expr;
use crate::exec::logical_plan::{LogicalPlan, PlanView, view_plan};
use crate::schema::{Field, Schema, spec_index_of};
use crate::text::spec_views;

verus! {

/// Whether the schema's fields have a column called `c`.
pub open spec fn spec_known(fields: Seq<Field>) -> spec_fn(Seq<char>) -> bool {
    |c: Seq<char>| spec_index_of(fields, c) is Some
}

/// The plan with every projection directly over a scan also given to the
/// scan, as those of its columns that the schema has.
pub open spec fn spec_push_projection(p: PlanView, fields: Seq<Field>) -> PlanView
    decreases p,
{
    match p {
        PlanView::Project { input, columns } => match spec_push_projection(*input, fields) {
            PlanView::Scan { table, projection: _, filter } => PlanView::Project {
                input: Box::new(
                    PlanView::Scan {
                        table,
                        projection: columns.filter(spec_known(fields)),
                        filter,
                    },
                ),
                columns,
            },
            other => PlanView::Project { input: Box::new(other), columns },
        },
        PlanView::Filter { input, predicate } => PlanView::Filter {
            input: Box::new(spec_push_projection(*input, fields)),
            predicate,
        },
        PlanView::Aggregate { input, aggs, group_by } => PlanView::Aggregate {
            input: Box::new(spec_push_projection(*input, fields)),
            aggs,
            group_by,
        },
        other => other,
    }
}

/// The plan with every filter directly over a scan moved into the scan,
/// joined by `And` after the scan's own filter.
pub open spec fn spec_push_filter(p: PlanView) -> PlanView
    decreases p,
{
    match p {
        PlanView::Filter { input, predicate } => match spec_push_filter(*input) {
            PlanView::Scan { table, projection, filter } => PlanView::Scan {
                table,
                projection,
                filter: Some(
                    match filter {
                        Some(e) => Expr::And(Box::new(e), Box::new(predicate)),
                        None => predicate,
                    },
                ),
            },
            other => PlanView::Filter { input: Box::new(other), predicate },
        },
        PlanView::Project { input, columns } => PlanView::Project { input: Box::new(spec_push_filter(*input)), columns },
        PlanView::Aggregate { input, aggs, group_by } => PlanView::Aggregate {
            input: Box::new(spec_push_filter(*input)),
            aggs,
            group_by,
        },
        other => other,
    }
}

/// How many projections and aggregations a plan's rows have passed: the
/// stage at which its top filter sees them.
pub open spec fn spec_stage(p: PlanView) -> nat
    decreases p,
{
    match p {
        PlanView::Scan { .. } => 0,
        PlanView::Filter { input, .. } => spec_stage(*input),
        PlanView::Project { input, .. } => spec_stage(*input) + 1,
        PlanView::Aggregate { input, .. } => spec_stage(*input) + 1,
    }
}

/// Whether a row at stage `stage` satisfies `e`, where `atom` decides each
/// condition that is not a conjunction: a conjunction holds when both of
/// its sides hold.
pub open spec fn spec_holds(e: Expr, stage: nat, atom: spec_fn(nat, Expr) -> bool) -> bool
    decreases e,
{
    match e {
        Expr::And(a, b) => spec_holds(*a, stage, atom) && spec_holds(*b, stage, atom),
        _ => atom(stage, e),
    }
}

/// Whether every filter of a plan, its scan's included, accepts the row it
/// sees at its stage.
pub open spec fn spec_filters_accept(p: PlanView, atom: spec_fn(nat, Expr) -> bool) -> bool
    decreases p,
{
    match p {
        PlanView::Scan { filter, .. } => match filter {
            Some(e) => spec_holds(e, 0, atom),
            None => true,
        },
        PlanView::Filter { input, predicate } => spec_filters_accept(*input, atom) && spec_holds(
            predicate,
            spec_stage(*input),
            atom,
        ),
        PlanView::Project { input, .. } => spec_filters_accept(*input, atom),
        PlanView::Aggregate { input, .. } => spec_filters_accept(*input, atom),
    }
}

/// The plan without its filters: what it reads, projects and aggregates.
pub open spec fn spec_unfiltered(p: PlanView) -> PlanView
    decreases p,
{
    match p {
        PlanView::Scan { table, projection, .. } => PlanView::Scan { table, projection, filter: None },
        PlanView::Filter { input, .. } => spec_unfiltered(*input),
        PlanView::Project { input, columns } => PlanView::Project { input: Box::new(spec_unfiltered(*input)), columns },
        PlanView::Aggregate { input, aggs, group_by } => PlanView::Aggregate {
            input: Box::new(spec_unfiltered(*input)),
            aggs,
            group_by,
        },
    }
}

/// Moving filters into scans keeps what a plan means: the same scans,
/// projections and aggregations, every row at every stage accepted by the
/// filters exactly when the original filters accept it, whatever decides
/// the conditions, and no filter moved past a projection or aggregation.
pub proof fn lemma_push_filter_keeps_meaning(p: PlanView, atom: spec_fn(nat, Expr) -> bool)
    ensures
        spec_filters_accept(spec_push_filter(p), atom) == spec_filters_accept(p, atom),
        spec_stage(spec_push_filter(p)) == spec_stage(p),
        spec_unfiltered(spec_push_filter(p)) == spec_unfiltered(p),
    decreases p,
{
    match p {
        PlanView::Filter { input, predicate } => {
            lemma_push_filter_keeps_meaning(*input, atom);
        },
        PlanView::Project { input, columns } => {
            lemma_push_filter_keeps_meaning(*input, atom);
        },
        PlanView::Aggregate { input, aggs, group_by } => {
            lemma_push_filter_keeps_meaning(*input, atom);
        },
        PlanView::Scan { .. } => {},
    }
}

/// Giving a projection's columns to the scan below it changes no filter,
/// no stage and no projection or aggregation above the scan.
pub proof fn lemma_push_projection_keeps_filters(p: PlanView, fields: Seq<Field>, atom: spec_fn(nat, Expr) -> bool)
    ensures
        spec_filters_accept(spec_push_projection(p, fields), atom) == spec_filters_accept(p, atom),
        spec_stage(spec_push_projection(p, fields)) == spec_stage(p),
    decreases p,
{
    match p {
        PlanView::Filter { input, predicate } => {
            lemma_push_projection_keeps_filters(*input, fields, atom);
            assert(spec_push_projection(p, fields) == PlanView::Filter {
                input: Box::new(spec_push_projection(*input, fields)),
                predicate,
            });
        },
        PlanView::Project { input, columns } => {
            lemma_push_projection_keeps_filters(*input, fields, atom);
            let q = spec_push_projection(*input, fields);
            match q {
                PlanView::Scan { table, projection, filter } => {
                    let s = PlanView::Scan { table, projection: columns.filter(spec_known(fields)), filter };
                    assert(spec_push_projection(p, fields) == PlanView::Project { input: Box::new(s), columns });
                    assert(spec_filters_accept(s, atom) == spec_filters_accept(q, atom));
                    assert(spec_stage(s) == spec_stage(q));
                },
                _ => {
                    assert(spec_push_projection(p, fields) == PlanView::Project { input: Box::new(q), columns });
                },
            }
        },
        PlanView::Aggregate { input, aggs, group_by } => {
            lemma_push_projection_keeps_filters(*input, fields, atom);
            assert(spec_push_projection(p, fields) == PlanView::Aggregate {
                input: Box::new(spec_push_projection(*input, fields)),
                aggs,
                group_by,
            });
        },
        PlanView::Scan { .. } => {},
    }
}

/// Optimizing keeps which rows a plan's filters accept: for every way of
/// deciding conditions, the optimized plan's filters accept a row at a
/// stage exactly when the original plan's filters do.
pub proof fn lemma_optimize_keeps_filters(p: PlanView, fields: Seq<Field>, atom: spec_fn(nat, Expr) -> bool)
    ensures
        spec_filters_accept(spec_push_filter(spec_push_projection(p, fields)), atom) == spec_filters_accept(p, atom),
        spec_stage(spec_push_filter(spec_push_projection(p, fields))) == spec_stage(p),
{
    lemma_push_projection_keeps_filters(p, fields, atom);
    lemma_push_filter_keeps_meaning(spec_push_projection(p, fields), atom);
}

/// The columns that the schema has, in order.
fn known_columns(columns: &Vec<String>, schema: &Schema) -> (r: Vec<String>)
    ensures
        spec_views(r@) == spec_views(columns@).filter(spec_known(schema.fields@)),
{
    let ghost pred = spec_known(schema.fields@);
    let mut r: Vec<String> = Vec::new();
    let mut i: usize = 0;
    proof {
        reveal(Seq::filter);
    }
    assert(spec_views(columns@).take(0).filter(pred) =~= Seq::<Seq<char>>::empty());
    while i < columns.len()
        invariant
            i <= columns@.len(),
            pred == spec_known(schema.fields@),
            spec_views(r@) == spec_views(columns@).take(i as int).filter(pred),
        decreases columns@.len() - i,
    {
        proof {
            reveal(Seq::filter);
        }
        let ghost before = spec_views(r@);
        let c = &columns[i];
        assert(spec_views(columns@).take(i + 1).drop_last() =~= spec_views(columns@).take(i as int));
        assert(spec_views(columns@).take(i + 1).last() == c@);
        let found = schema.index_of(c.as_str());
        proof {
            let fs = schema.fields@;
            if exists|j: int| 0 <= j < fs.len() && fs[j].name@ == c@ {
                let j = choose|j: int| 0 <= j < fs.len() && fs[j].name@ == c@;
                assert(found is Some);
            }
            if found is Some {
                let j = found->0 as int;
                assert(fs[j].name@ == c@);
            }
        }
        if found.is_some() {
            r.push(c.clone());
            assert(spec_views(r@) =~= before.push(c@));
        }
        i = i + 1;
    }
    assert(spec_views(columns@).take(i as int) =~= spec_views(columns@));
    r
}

/// Rewrites plans so that scans read only the columns and rows needed.
pub struct Optimizer;

impl Optimizer {
    /// The plan with projections given to the scans below them, then filters
    /// moved into the scans below them.
    pub fn optimize(plan: LogicalPlan, schema: &Schema) -> (r: LogicalPlan)
        ensures
            view_plan(r) == spec_push_filter(spec_push_projection(view_plan(plan), schema.fields@)),
    {
        let plan = Self::push_projection_into_scan(plan, schema);
        Self::push_filter_into_scan(plan)
    }

    /// Push projections into Scan nodes so only needed columns are read.
    fn push_projection_into_scan(plan: LogicalPlan, schema: &Schema) -> (r: LogicalPlan)
        ensures
            view_plan(r) == spec_push_projection(view_plan(plan), schema.fields@),
        decreases plan,
    {
        proof {
            reveal_with_fuel(view_plan, 2);
        }
        match plan {
            LogicalPlan::Project { input, columns } => {
                let new_input = Self::push_projection_into_scan(*input, schema);
                match new_input {
                    LogicalPlan::Scan { table, projection: _, filter } => {
                        let new_proj = known_columns(&columns, schema);
                        LogicalPlan::Project {
                            input: Box::new(LogicalPlan::Scan { table, projection: new_proj, filter }),
                            columns,
                        }
                    },
                    other => LogicalPlan::Project { input: Box::new(other), columns },
                }
            },
            LogicalPlan::Filter { input, predicate } => {
                let new_input = Self::push_projection_into_scan(*input, schema);
                LogicalPlan::Filter { input: Box::new(new_input), predicate }
            },
            LogicalPlan::Aggregate { input, aggs, group_by } => {
                let new_input = Self::push_projection_into_scan(*input, schema);
                LogicalPlan::Aggregate { input: Box::new(new_input), aggs, group_by }
            },
            other => other,
        }
    }

    /// Push Filter predicates into Scan nodes to enable chunk skipping.
    fn push_filter_into_scan(plan: LogicalPlan) -> (r: LogicalPlan)
        ensures
            view_plan(r) == spec_push_filter(view_plan(plan)),
        decreases plan,
    {
        proof {
            reveal_with_fuel(view_plan, 2);
        }
        match plan {
            LogicalPlan::Filter { input, predicate } => {
                let new_input = Self::push_filter_into_scan(*input);
                match new_input {
                    LogicalPlan::Scan { table, projection, filter: existing } => {
                        let combined = match existing {
                            Some(e) => Expr::And(Box::new(e), Box::new(predicate)),
                            None => predicate,
                        };
                        LogicalPlan::Scan { table, projection, filter: Some(combined) }
                    },
                    other => LogicalPlan::Filter { input: Box::new(other), predicate },
                }
            },
            LogicalPlan::Project { input, columns } => {
                let new_input = Self::push_filter_into_scan(*input);
                LogicalPlan::Project { input: Box::new(new_input), columns }
            },
            LogicalPlan::Aggregate { input, aggs, group_by } => {
                let new_input = Self::push_filter_into_scan(*input);
                LogicalPlan::Aggregate { input: Box::new(new_input), aggs, group_by }
            },
            other => other,
        }
    }
}

} // verus!
