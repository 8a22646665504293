//! SQL text to plans: sqlparser reads the statements, and the library plans
//! the parts of them that it reads.
use vstd::prelude::*;
use sqlparser::ast::{Expr as AstExpr, ObjectNamePart, SelectItem, SetExpr, Statement, TableFactor, Value as AstValue};
use sqlparser::dialect::GenericDialect;
use sqlparser::parser::Parser;
use crate::api::sql::{
    SqlBinaryOp, SqlExpr, SqlExprView, SqlSelect, SqlSelectItem, SqlSelectItemView, SqlSelectView, SqlStatement,
    SqlStatementView, SqlTable, SqlTableView, spec_floats_view, spec_plan_is, spec_statements_plan,
    spec_statements_view, statements_to_plan, has_point,
};
use crate::exec::logical_plan::LogicalPlan;
use crate::text::spec_views;

verus! {

#[verifier::external_type_specification]
#[verifier::external_body]
pub struct ExStatement(sqlparser::ast::Statement);

#[verifier::external_type_specification]
#[verifier::external_body]
pub struct ExSetExpr(sqlparser::ast::SetExpr);

#[verifier::external_type_specification]
#[verifier::external_body]
pub struct ExTableWithJoins(sqlparser::ast::TableWithJoins);

#[verifier::external_type_specification]
#[verifier::external_body]
pub struct ExObjectNamePart(sqlparser::ast::ObjectNamePart);

#[verifier::external_type_specification]
#[verifier::external_body]
pub struct ExSelectItem(sqlparser::ast::SelectItem);

#[verifier::external_type_specification]
#[verifier::external_body]
pub struct ExExpr(AstExpr);

#[verifier::external_type_specification]
#[verifier::external_body]
pub struct ExValue(AstValue);

#[verifier::external_type_specification]
#[verifier::external_body]
pub struct ExBinaryOperator(sqlparser::ast::BinaryOperator);

/// A part of a table's name, as parsed: an identifier, or anything else.
pub enum RawNamePart {
    Identifier(String),
    Other,
}

/// A relation of a `FROM` clause, as parsed: a table by the parts of its
/// name, or any other relation.
pub enum RawTable {
    Table(Vec<RawNamePart>),
    Other,
}

/// An item of a `SELECT` list, as parsed.
pub enum RawSelectItem {
    /// An expression without an alias.
    UnnamedExpr(SqlExpr),
    /// An expression and its alias.
    ExprWithAlias(SqlExpr, String),
    /// `*`.
    Wildcard,
    /// Any other item.
    Other,
}

/// A `SELECT` body, as parsed.
pub struct RawSelect {
    pub from: Vec<RawTable>,
    pub projection: Vec<RawSelectItem>,
    pub selection: Option<SqlExpr>,
}

/// The body of a query, as parsed: a `SELECT`, or any other body.
pub enum RawSetExpr {
    Select(RawSelect),
    Other,
}

/// A statement, as parsed: a query by its body, or any other statement.
pub enum RawStatement {
    Query(RawSetExpr),
    Other,
}

/// A part of a name as plain values.
pub enum RawNamePartView {
    Identifier(Seq<char>),
    Other,
}

/// A relation as plain values.
pub enum RawTableView {
    Table(Seq<RawNamePartView>),
    Other,
}

/// An item of a `SELECT` list as plain values.
pub enum RawSelectItemView {
    UnnamedExpr(SqlExprView),
    ExprWithAlias(SqlExprView, Seq<char>),
    Wildcard,
    Other,
}

/// A `SELECT` body as plain values.
pub struct RawSelectView {
    pub from: Seq<RawTableView>,
    pub projection: Seq<RawSelectItemView>,
    pub selection: Option<SqlExprView>,
}

/// A statement as plain values.
pub enum RawStatementView {
    Query(Option<RawSelectView>),
    Other,
}

impl View for RawNamePart {
    type V = RawNamePartView;

    open spec fn view(&self) -> RawNamePartView {
        match self {
            RawNamePart::Identifier(s) => RawNamePartView::Identifier(s@),
            RawNamePart::Other => RawNamePartView::Other,
        }
    }
}

impl View for RawTable {
    type V = RawTableView;

    open spec fn view(&self) -> RawTableView {
        match self {
            RawTable::Table(parts) => RawTableView::Table(parts@.map_values(|p: RawNamePart| p@)),
            RawTable::Other => RawTableView::Other,
        }
    }
}

impl View for RawSelectItem {
    type V = RawSelectItemView;

    open spec fn view(&self) -> RawSelectItemView {
        match self {
            RawSelectItem::UnnamedExpr(e) => RawSelectItemView::UnnamedExpr(e@),
            RawSelectItem::ExprWithAlias(e, a) => RawSelectItemView::ExprWithAlias(e@, a@),
            RawSelectItem::Wildcard => RawSelectItemView::Wildcard,
            RawSelectItem::Other => RawSelectItemView::Other,
        }
    }
}

impl View for RawSelect {
    type V = RawSelectView;

    open spec fn view(&self) -> RawSelectView {
        RawSelectView {
            from: self.from@.map_values(|t: RawTable| t@),
            projection: self.projection@.map_values(|i: RawSelectItem| i@),
            selection: match self.selection {
                Some(e) => Some(e@),
                None => None,
            },
        }
    }
}

impl View for RawStatement {
    type V = RawStatementView;

    open spec fn view(&self) -> RawStatementView {
        match self {
            RawStatement::Query(RawSetExpr::Select(s)) => RawStatementView::Query(Some(s@)),
            RawStatement::Query(RawSetExpr::Other) => RawStatementView::Query(None),
            RawStatement::Other => RawStatementView::Other,
        }
    }
}

/// What sqlparser's `Parser::parse_sql` with the generic dialect reads in
/// `sql`: its statements, each taken apart one level at a time down to the
/// parts the planner reads, or the text of the error it reports.
pub uninterp spec fn parsed_sql(sql: Seq<char>) -> Result<Seq<RawStatementView>, Seq<char>>;

/// The statements of a parse as plain values, or the error's text.
pub open spec fn spec_raw_parse_view(r: Result<Vec<RawStatement>, String>) -> Result<Seq<RawStatementView>, Seq<char>> {
    match r {
        Ok(v) => Ok(v@.map_values(|st: RawStatement| st@)),
        Err(m) => Err(m@),
    }
}

/// Calls sqlparser's `Parser::parse_sql` with the generic dialect; what
/// comes back, its statements taken apart or its error as text, is the
/// result named by `parsed_sql`.
#[verifier::external_body]
fn parse_sql(sql: &str) -> (r: Result<Vec<RawStatement>, String>)
    ensures
        spec_raw_parse_view(r) == parsed_sql(sql@),
{
    match Parser::parse_sql(&GenericDialect, sql) {
        Ok(stmts) => Ok(stmts.iter().map(statement_part).collect()),
        Err(e) => Err(e.to_string()),
    }
}

/// A statement taken apart for `parse_sql`: a query by its body.
#[verifier::external_body]
fn statement_part(stmt: &Statement) -> RawStatement {
    match stmt {
        Statement::Query(q) => RawStatement::Query(set_expr_part(&q.body)),
        _ => RawStatement::Other,
    }
}

/// The body of a query taken apart for `parse_sql`.
#[verifier::external_body]
fn set_expr_part(body: &SetExpr) -> RawSetExpr {
    match body {
        SetExpr::Select(s) => RawSetExpr::Select(RawSelect {
            from: s.from.iter().map(table_part).collect(),
            projection: s.projection.iter().map(item_part).collect(),
            selection: s.selection.as_ref().map(expr_parts),
        }),
        _ => RawSetExpr::Other,
    }
}

/// A relation of a `FROM` clause taken apart for `parse_sql`.
#[verifier::external_body]
fn table_part(t: &sqlparser::ast::TableWithJoins) -> RawTable {
    match &t.relation {
        TableFactor::Table { name, .. } => RawTable::Table(name.0.iter().map(name_part).collect()),
        _ => RawTable::Other,
    }
}

/// A part of a table's name taken apart for `parse_sql`.
#[verifier::external_body]
fn name_part(p: &ObjectNamePart) -> RawNamePart {
    match p {
        ObjectNamePart::Identifier(id) => RawNamePart::Identifier(id.value.clone()),
        _ => RawNamePart::Other,
    }
}

/// An item of a `SELECT` list taken apart for `parse_sql`.
#[verifier::external_body]
fn item_part(item: &SelectItem) -> RawSelectItem {
    match item {
        SelectItem::UnnamedExpr(e) => RawSelectItem::UnnamedExpr(expr_parts(e)),
        SelectItem::ExprWithAlias { expr, alias } => RawSelectItem::ExprWithAlias(expr_parts(expr), alias.value.clone()),
        SelectItem::Wildcard(_) => RawSelectItem::Wildcard,
        _ => RawSelectItem::Other,
    }
}

/// An expression taken apart for `parse_sql`.
#[verifier::external_body]
fn expr_parts(e: &AstExpr) -> SqlExpr {
    match e {
        AstExpr::Identifier(id) => SqlExpr::Identifier(id.value.clone()),
        AstExpr::Value(v) => value_part(&v.value),
        AstExpr::BinaryOp { left, op, right } => SqlExpr::BinaryOp(
            Box::new(expr_parts(left)),
            operator_part(op),
            Box::new(expr_parts(right)),
        ),
        AstExpr::Nested(inner) => SqlExpr::Nested(Box::new(expr_parts(inner))),
        _ => SqlExpr::Other,
    }
}

/// A literal taken apart for `parse_sql`; a number keeps its text.
#[verifier::external_body]
fn value_part(v: &AstValue) -> SqlExpr {
    match v {
        AstValue::Number(n, _) => SqlExpr::Number(n.clone()),
        AstValue::SingleQuotedString(s) => SqlExpr::SingleQuoted(s.clone()),
        _ => SqlExpr::OtherValue,
    }
}

/// A binary operator taken apart for `parse_sql`.
#[verifier::external_body]
fn operator_part(op: &sqlparser::ast::BinaryOperator) -> SqlBinaryOp {
    match op {
        sqlparser::ast::BinaryOperator::Eq => SqlBinaryOp::Eq,
        sqlparser::ast::BinaryOperator::NotEq => SqlBinaryOp::NotEq,
        sqlparser::ast::BinaryOperator::Gt => SqlBinaryOp::Gt,
        sqlparser::ast::BinaryOperator::GtEq => SqlBinaryOp::GtEq,
        sqlparser::ast::BinaryOperator::Lt => SqlBinaryOp::Lt,
        sqlparser::ast::BinaryOperator::LtEq => SqlBinaryOp::LtEq,
        sqlparser::ast::BinaryOperator::And => SqlBinaryOp::And,
        sqlparser::ast::BinaryOperator::Or => SqlBinaryOp::Or,
        _ => SqlBinaryOp::Other,
    }
}

/// The table a relation names: the first part of its name, where that is
/// an identifier.
pub open spec fn spec_table_of(t: RawTableView) -> SqlTableView {
    match t {
        RawTableView::Table(parts) => if parts.len() > 0 && parts[0] is Identifier {
            SqlTableView::Named(parts[0]->Identifier_0)
        } else {
            SqlTableView::Other
        },
        RawTableView::Other => SqlTableView::Other,
    }
}

/// What the planner reads of a `SELECT` item: a bare column, or a column
/// under an alias.
pub open spec fn spec_item_of(i: RawSelectItemView) -> SqlSelectItemView {
    match i {
        RawSelectItemView::UnnamedExpr(SqlExprView::Identifier(id)) => SqlSelectItemView::Column(id),
        RawSelectItemView::ExprWithAlias(SqlExprView::Identifier(_), a) => SqlSelectItemView::Aliased(a),
        RawSelectItemView::Wildcard => SqlSelectItemView::Wildcard,
        _ => SqlSelectItemView::Other,
    }
}

/// What the planner reads of a statement: a query whose body is a
/// `SELECT`.
pub open spec fn spec_statement_of(s: RawStatementView) -> SqlStatementView {
    match s {
        RawStatementView::Query(Some(sel)) => SqlStatementView::Select(
            SqlSelectView {
                from: sel.from.map_values(|t: RawTableView| spec_table_of(t)),
                projection: sel.projection.map_values(|i: RawSelectItemView| spec_item_of(i)),
                selection: sel.selection,
            },
        ),
        _ => SqlStatementView::Other,
    }
}

/// The statements `sql` parses to, as the planner reads them, or the text
/// of the parser's error.
pub open spec fn spec_parsed_statements(sql: Seq<char>) -> Result<Seq<SqlStatementView>, Seq<char>> {
    match parsed_sql(sql) {
        Ok(raws) => Ok(raws.map_values(|r: RawStatementView| spec_statement_of(r))),
        Err(m) => Err(m),
    }
}

/// The table a relation names.
fn table_of(t: &RawTable) -> (r: SqlTable)
    ensures
        r@ == spec_table_of(t@),
{
    match t {
        RawTable::Table(parts) => {
            if parts.len() > 0 {
                match &parts[0] {
                    RawNamePart::Identifier(s) => SqlTable::Named(s.clone()),
                    RawNamePart::Other => SqlTable::Other,
                }
            } else {
                SqlTable::Other
            }
        },
        RawTable::Other => SqlTable::Other,
    }
}

/// What the planner reads of a `SELECT` item.
fn item_of(i: &RawSelectItem) -> (r: SqlSelectItem)
    ensures
        r@ == spec_item_of(i@),
{
    match i {
        RawSelectItem::UnnamedExpr(SqlExpr::Identifier(id)) => SqlSelectItem::Column(id.clone()),
        RawSelectItem::ExprWithAlias(SqlExpr::Identifier(_), a) => SqlSelectItem::Aliased(a.clone()),
        RawSelectItem::Wildcard => SqlSelectItem::Wildcard,
        _ => SqlSelectItem::Other,
    }
}

/// What the planner reads of a statement.
fn statement_of(s: RawStatement) -> (r: SqlStatement)
    ensures
        r@ == spec_statement_of(s@),
{
    match s {
        RawStatement::Query(RawSetExpr::Select(sel)) => {
            let ghost sv = sel@;
            let RawSelect { from, projection, selection } = sel;
            let mut tables: Vec<SqlTable> = Vec::new();
            let mut i: usize = 0;
            while i < from.len()
                invariant
                    i <= from@.len(),
                    tables@.len() == i,
                    forall|j: int| 0 <= j < i ==> (#[trigger] tables@[j])@ == spec_table_of(from@[j]@),
                decreases from@.len() - i,
            {
                tables.push(table_of(&from[i]));
                i = i + 1;
            }
            let mut items: Vec<SqlSelectItem> = Vec::new();
            let mut k: usize = 0;
            while k < projection.len()
                invariant
                    k <= projection@.len(),
                    items@.len() == k,
                    forall|j: int| 0 <= j < k ==> (#[trigger] items@[j])@ == spec_item_of(projection@[j]@),
                decreases projection@.len() - k,
            {
                items.push(item_of(&projection[k]));
                k = k + 1;
            }
            let r = SqlStatement::Select(SqlSelect { from: tables, projection: items, selection });
            proof {
                assert(r@ == spec_statement_of(RawStatementView::Query(Some(sv)))) by {
                    if let SqlStatement::Select(q) = r {
                        assert(q@.from =~= sv.from.map_values(|t: RawTableView| spec_table_of(t)));
                        assert(q@.projection =~= sv.projection.map_values(|i: RawSelectItemView| spec_item_of(i)));
                    }
                }
            }
            r
        },
        _ => SqlStatement::Other,
    }
}

/// The statements `sql` parses to, as the planner reads them, or the text
/// of the parser's error.
fn parse_statements(sql: &str) -> (r: Result<Vec<SqlStatement>, String>)
    ensures
        match r {
            Ok(v) => spec_parsed_statements(sql@) == Ok::<Seq<SqlStatementView>, Seq<char>>(spec_statements_view(v@)),
            Err(m) => spec_parsed_statements(sql@) == Err::<Seq<SqlStatementView>, Seq<char>>(m@),
        },
{
    let raws = match parse_sql(sql) {
        Ok(v) => v,
        Err(m) => {
            return Err(m);
        },
    };
    let ghost rv = raws@.map_values(|st: RawStatement| st@);
    let mut out: Vec<SqlStatement> = Vec::new();
    let mut rest = raws;
    let ghost n = rv.len();
    // The statements are taken from the back and put back in order.
    let mut taken: Vec<SqlStatement> = Vec::new();
    while rest.len() > 0
        invariant
            rest@.len() + taken@.len() == n,
            forall|j: int| 0 <= j < rest@.len() ==> (#[trigger] rest@[j])@ == rv[j],
            forall|j: int| 0 <= j < taken@.len() ==> (#[trigger] taken@[j])@ == spec_statement_of(rv[n - 1 - j]),
        decreases rest@.len(),
    {
        let st = rest.pop().unwrap();
        taken.push(statement_of(st));
    }
    while taken.len() > 0
        invariant
            out@.len() + taken@.len() == n,
            forall|j: int| 0 <= j < taken@.len() ==> (#[trigger] taken@[j])@ == spec_statement_of(rv[n - 1 - j]),
            forall|j: int| 0 <= j < out@.len() ==> (#[trigger] out@[j])@ == spec_statement_of(rv[j]),
        decreases taken@.len(),
    {
        let st = taken.pop().unwrap();
        out.push(st);
    }
    assert(spec_statements_view(out@) =~= rv.map_values(|r: RawStatementView| spec_statement_of(r)));
    Ok(out)
}

/// The message of SQL that does not parse.
pub open spec fn spec_parse_error(m: Seq<char>) -> Seq<char> {
    "SQL parse error: "@ + m
}

/// The plan of the SQL query `sql` over the table `default_table`, with
/// float literals read as `floats` gives them: that of the statements it
/// parses to, or the parser's error with a prefix.
pub fn sql_to_logical_plan(
    sql: &str,
    default_table: &str,
    floats: &Vec<(String, Result<u64, String>)>,
) -> (r: Result<LogicalPlan, String>)
    ensures
        match spec_parsed_statements(sql@) {
            Err(m) => r matches Err(e) && e@ == spec_parse_error(m),
            Ok(stmts) => spec_plan_is(r, spec_statements_plan(stmts, default_table@, spec_floats_view(floats@))),
        },
{
    let stmts = match parse_statements(sql) {
        Ok(s) => s,
        Err(m) => {
            let mut e = String::from_str("SQL parse error: ");
            e.append(m.as_str());
            return Err(e);
        },
    };
    statements_to_plan(&stmts, default_table, floats)
}

/// The texts of the number literals with a point in an expression, left
/// to right.
pub open spec fn spec_expr_floats(e: SqlExprView) -> Seq<Seq<char>>
    decreases e,
{
    match e {
        SqlExprView::Number(t) => if t.contains('.') {
            seq![t]
        } else {
            seq![]
        },
        SqlExprView::BinaryOp(l, _, r) => spec_expr_floats(*l) + spec_expr_floats(*r),
        SqlExprView::Nested(inner) => spec_expr_floats(*inner),
        _ => seq![],
    }
}

/// The texts of the number literals with a point in the `WHERE`
/// conditions of the statements, in order.
pub open spec fn spec_statement_floats(stmts: Seq<SqlStatementView>) -> Seq<Seq<char>>
    decreases stmts.len(),
{
    if stmts.len() == 0 {
        seq![]
    } else {
        spec_statement_floats(stmts.drop_last()) + match stmts.last() {
            SqlStatementView::Select(s) => match s.selection {
                Some(w) => spec_expr_floats(w),
                None => seq![],
            },
            SqlStatementView::Other => seq![],
        }
    }
}

/// Appends the texts of the number literals with a point in `e`.
fn collect_floats(e: &SqlExpr, out: &mut Vec<String>)
    ensures
        spec_views(final(out)@) == spec_views(old(out)@) + spec_expr_floats(e@),
    decreases e,
{
    match e {
        SqlExpr::Number(t) => {
            if has_point(t.as_str()) {
                let ghost before = spec_views(out@);
                out.push(t.clone());
                assert(spec_views(out@) =~= before + seq![t@]);
            } else {
                assert(spec_views(out@) =~= spec_views(out@) + Seq::<Seq<char>>::empty());
            }
        },
        SqlExpr::BinaryOp(l, _, r) => {
            let ghost start = spec_views(out@);
            collect_floats(l, out);
            collect_floats(r, out);
            assert(spec_views(out@) =~= start + (spec_expr_floats(l@) + spec_expr_floats(r@)));
        },
        SqlExpr::Nested(inner) => {
            collect_floats(inner, out);
        },
        _ => {
            assert(spec_views(out@) =~= spec_views(out@) + Seq::<Seq<char>>::empty());
        },
    }
}

/// The texts of the number literals with a point in the `WHERE`
/// conditions of the statements that `sql` parses to, in order: those the
/// caller reads as floats for `sql_to_logical_plan`. None for SQL that
/// does not parse.
pub fn sql_float_literals(sql: &str) -> (r: Vec<String>)
    ensures
        match spec_parsed_statements(sql@) {
            Ok(stmts) => spec_views(r@) == spec_statement_floats(stmts),
            Err(_) => r@.len() == 0,
        },
{
    let mut out: Vec<String> = Vec::new();
    let stmts = match parse_statements(sql) {
        Ok(s) => s,
        Err(_) => {
            return out;
        },
    };
    let ghost sv = spec_statements_view(stmts@);
    let mut i: usize = 0;
    assert(sv.take(0) =~= Seq::<SqlStatementView>::empty());
    assert(spec_views(out@) =~= Seq::<Seq<char>>::empty());
    while i < stmts.len()
        invariant
            i <= stmts@.len(),
            sv == spec_statements_view(stmts@),
            spec_views(out@) == spec_statement_floats(sv.take(i as int)),
        decreases stmts@.len() - i,
    {
        assert(sv.take(i + 1).drop_last() =~= sv.take(i as int));
        assert(sv.take(i + 1).last() == stmts@[i as int]@);
        match &stmts[i] {
            SqlStatement::Select(s) => match &s.selection {
                Some(w) => {
                    collect_floats(w, &mut out);
                },
                None => {
                    assert(spec_views(out@) =~= spec_views(out@) + Seq::<Seq<char>>::empty());
                },
            },
            SqlStatement::Other => {
                assert(spec_views(out@) =~= spec_views(out@) + Seq::<Seq<char>>::empty());
            },
        }
        i = i + 1;
    }
    assert(sv.take(i as int) =~= sv);
    out
}

} // verus!
