//! The SQL the C interface accepts, a single `SELECT` over the table,
//! turned into a logical plan. The statement comes as the parts of a parsed
//! query that the planner reads.
use vstd::prelude::*;
use crate::exec::expr::{Expr, ExprView, Value, view_expr};
use crate::exec::logical_plan::LogicalPlan;
use crate::text::spec_views;

verus! {

/// A binary operator of SQL.
#[derive(Debug, Clone, Copy, PartialEq, Eq, Structural)]
pub enum SqlBinaryOp {
    Eq,
    NotEq,
    Gt,
    GtEq,
    Lt,
    LtEq,
    And,
    Or,
    /// Any other operator.
    Other,
}

/// A SQL expression, as far as the planner reads it.
#[derive(Debug)]
pub enum SqlExpr {
    /// A column name.
    Identifier(String),
    /// A number literal, by its text.
    Number(String),
    /// A single-quoted string literal.
    SingleQuoted(String),
    /// Any other literal.
    OtherValue,
    BinaryOp(Box<SqlExpr>, SqlBinaryOp, Box<SqlExpr>),
    /// An expression in parentheses.
    Nested(Box<SqlExpr>),
    /// Any other expression.
    Other,
}

/// An item of a `SELECT` list.
#[derive(Debug)]
pub enum SqlSelectItem {
    /// A column, unaliased.
    Column(String),
    /// A column under an alias: the alias.
    Aliased(String),
    /// `*`.
    Wildcard,
    /// Any other item.
    Other,
}

/// A table a query reads from.
#[derive(Debug)]
pub enum SqlTable {
    /// A table by name: the first part of the name.
    Named(String),
    /// Any other kind of relation.
    Other,
}

/// A `SELECT`: its relations, its list and its `WHERE` condition.
#[derive(Debug)]
pub struct SqlSelect {
    pub from: Vec<SqlTable>,
    pub projection: Vec<SqlSelectItem>,
    pub selection: Option<SqlExpr>,
}

/// A statement: a query whose body is a `SELECT`, or anything else.
#[derive(Debug)]
pub enum SqlStatement {
    Select(SqlSelect),
    Other,
}

/// A SQL expression as plain values.
pub enum SqlExprView {
    Identifier(Seq<char>),
    Number(Seq<char>),
    SingleQuoted(Seq<char>),
    OtherValue,
    BinaryOp(Box<SqlExprView>, SqlBinaryOp, Box<SqlExprView>),
    Nested(Box<SqlExprView>),
    Other,
}

/// An item of a `SELECT` list as plain values.
pub enum SqlSelectItemView {
    Column(Seq<char>),
    Aliased(Seq<char>),
    Wildcard,
    Other,
}

/// A table of a query as plain values.
pub enum SqlTableView {
    Named(Seq<char>),
    Other,
}

/// A `SELECT` as plain values.
pub struct SqlSelectView {
    pub from: Seq<SqlTableView>,
    pub projection: Seq<SqlSelectItemView>,
    pub selection: Option<SqlExprView>,
}

/// A statement as plain values.
pub enum SqlStatementView {
    Select(SqlSelectView),
    Other,
}

/// The plain values of an expression.
pub open spec fn spec_expr_view(e: SqlExpr) -> SqlExprView
    decreases e,
{
    match e {
        SqlExpr::Identifier(s) => SqlExprView::Identifier(s@),
        SqlExpr::Number(t) => SqlExprView::Number(t@),
        SqlExpr::SingleQuoted(s) => SqlExprView::SingleQuoted(s@),
        SqlExpr::OtherValue => SqlExprView::OtherValue,
        SqlExpr::BinaryOp(l, op, r) => SqlExprView::BinaryOp(
            Box::new(spec_expr_view(*l)),
            op,
            Box::new(spec_expr_view(*r)),
        ),
        SqlExpr::Nested(inner) => SqlExprView::Nested(Box::new(spec_expr_view(*inner))),
        SqlExpr::Other => SqlExprView::Other,
    }
}

impl View for SqlExpr {
    type V = SqlExprView;

    open spec fn view(&self) -> SqlExprView {
        spec_expr_view(*self)
    }
}

impl View for SqlSelectItem {
    type V = SqlSelectItemView;

    open spec fn view(&self) -> SqlSelectItemView {
        match self {
            SqlSelectItem::Column(s) => SqlSelectItemView::Column(s@),
            SqlSelectItem::Aliased(s) => SqlSelectItemView::Aliased(s@),
            SqlSelectItem::Wildcard => SqlSelectItemView::Wildcard,
            SqlSelectItem::Other => SqlSelectItemView::Other,
        }
    }
}

impl View for SqlTable {
    type V = SqlTableView;

    open spec fn view(&self) -> SqlTableView {
        match self {
            SqlTable::Named(s) => SqlTableView::Named(s@),
            SqlTable::Other => SqlTableView::Other,
        }
    }
}

/// The plain values of the items of a `SELECT` list.
pub open spec fn spec_items_view(items: Seq<SqlSelectItem>) -> Seq<SqlSelectItemView> {
    items.map_values(|i: SqlSelectItem| i@)
}

impl View for SqlSelect {
    type V = SqlSelectView;

    open spec fn view(&self) -> SqlSelectView {
        SqlSelectView {
            from: self.from@.map_values(|t: SqlTable| t@),
            projection: spec_items_view(self.projection@),
            selection: match self.selection {
                Some(e) => Some(e@),
                None => None,
            },
        }
    }
}

impl View for SqlStatement {
    type V = SqlStatementView;

    open spec fn view(&self) -> SqlStatementView {
        match self {
            SqlStatement::Select(s) => SqlStatementView::Select(s@),
            SqlStatement::Other => SqlStatementView::Other,
        }
    }
}

/// The plain values of statements.
pub open spec fn spec_statements_view(stmts: Seq<SqlStatement>) -> Seq<SqlStatementView> {
    stmts.map_values(|st: SqlStatement| st@)
}

/// The value that the caller read for each float literal, by its text:
/// the bits of the `f64`, or why the text does not read as one.
pub open spec fn spec_floats_view(floats: Seq<(String, Result<u64, String>)>) -> Seq<(Seq<char>, Result<u64, Seq<char>>)> {
    floats.map_values(|f: (String, Result<u64, String>)| (f.0@, spec_err_view(f.1)))
}

/// The value given for the float literal `text`: that of its first entry,
/// or, without one, an error that names the text.
pub open spec fn spec_float_lookup(floats: Seq<(Seq<char>, Result<u64, Seq<char>>)>, text: Seq<char>) -> Result<u64, Seq<char>>
    decreases floats.len(),
{
    if floats.len() == 0 {
        Err(text)
    } else if floats[0].0 == text {
        floats[0].1
    } else {
        spec_float_lookup(floats.drop_first(), text)
    }
}

/// What `str::parse::<i64>` gives for `s`: the value, or the text of the
/// error it reports.
pub uninterp spec fn parsed_i64(s: Seq<char>) -> Result<i64, Seq<char>>;

/// Calls `str::parse::<i64>`; the result, its error as text, is the one
/// named by `parsed_i64`.
#[verifier::external_body]
fn parse_i64(s: &str) -> (r: Result<i64, String>)
    ensures
        match parsed_i64(s@) {
            Ok(v) => r == Ok::<i64, String>(v),
            Err(m) => r matches Err(e) && e@ == m,
        },
{
    match s.parse::<i64>() {
        Ok(v) => Ok(v),
        Err(e) => Err(e.to_string()),
    }
}

/// The text `msg` with the prefix of an invalid number.
pub open spec fn spec_invalid_number(msg: Seq<char>) -> Seq<char> {
    "Invalid number: "@ + msg
}

/// The literal of a parsed integer, or the error of a number that did not
/// parse.
pub open spec fn spec_int_literal(parsed: Result<i64, Seq<char>>) -> Result<ExprView, Seq<char>> {
    match parsed {
        Ok(v) => Ok(ExprView::Int(v)),
        Err(m) => Err(spec_invalid_number(m)),
    }
}

/// The literal of a parsed float, or the error of a number that did not
/// parse.
pub open spec fn spec_float_literal(parsed: Result<u64, Seq<char>>) -> Result<ExprView, Seq<char>> {
    match parsed {
        Ok(b) => Ok(ExprView::Float(b)),
        Err(m) => Err(spec_invalid_number(m)),
    }
}

/// The error with its message as characters.
pub open spec fn spec_err_view<T>(r: Result<T, String>) -> Result<T, Seq<char>> {
    match r {
        Ok(v) => Ok(v),
        Err(m) => Err(m@),
    }
}

/// The expression as plain values, or the error's message.
pub open spec fn spec_expr_result(r: Result<Expr, String>) -> Result<ExprView, Seq<char>> {
    match r {
        Ok(e) => Ok(view_expr(e)),
        Err(m) => Err(m@),
    }
}

/// The names as plain values, or the error's message.
pub open spec fn spec_names_result(r: Result<Vec<String>, String>) -> Result<Seq<Seq<char>>, Seq<char>> {
    match r {
        Ok(v) => Ok(spec_views(v@)),
        Err(m) => Err(m@),
    }
}

/// The prefix of an invalid number before `msg`.
fn invalid_number(msg: &str) -> (r: String)
    ensures
        r@ == spec_invalid_number(msg@),
{
    let mut r = String::from_str("Invalid number: ");
    r.append(msg);
    r
}

/// The literal of a parsed integer, or the error of a number that did not
/// parse.
pub fn int_literal(parsed: Result<i64, String>) -> (r: Result<Expr, String>)
    ensures
        spec_expr_result(r) == spec_int_literal(spec_err_view(parsed)),
{
    match parsed {
        Ok(v) => Ok(Expr::Literal(Value::Int(v))),
        Err(m) => Err(invalid_number(m.as_str())),
    }
}

/// The literal of a parsed float, or the error of a number that did not
/// parse.
pub fn float_literal(parsed: &Result<u64, String>) -> (r: Result<Expr, String>)
    ensures
        spec_expr_result(r) == spec_float_literal(spec_err_view(*parsed)),
{
    match parsed {
        Ok(b) => Ok(Expr::Literal(Value::Float(*b))),
        Err(m) => Err(invalid_number(m.as_str())),
    }
}

/// The expression of an operator applied to two operands.
pub open spec fn spec_apply_op(op: SqlBinaryOp, l: ExprView, r: ExprView) -> Result<ExprView, Seq<char>> {
    match op {
        SqlBinaryOp::Eq => Ok(ExprView::Eq(Box::new(l), Box::new(r))),
        SqlBinaryOp::NotEq => Ok(ExprView::Neq(Box::new(l), Box::new(r))),
        SqlBinaryOp::Gt => Ok(ExprView::Gt(Box::new(l), Box::new(r))),
        SqlBinaryOp::GtEq => Ok(ExprView::Gte(Box::new(l), Box::new(r))),
        SqlBinaryOp::Lt => Ok(ExprView::Lt(Box::new(l), Box::new(r))),
        SqlBinaryOp::LtEq => Ok(ExprView::Lte(Box::new(l), Box::new(r))),
        SqlBinaryOp::And => Ok(ExprView::And(Box::new(l), Box::new(r))),
        SqlBinaryOp::Or => Ok(ExprView::Or(Box::new(l), Box::new(r))),
        SqlBinaryOp::Other => Err("Unsupported binary operator"@),
    }
}

/// Which outcomes of comparing the left value with the right one (below
/// zero: less, zero: equal, above zero: greater) a comparison accepts.
pub open spec fn spec_accepts(e: ExprView, outcome: int) -> bool {
    match e {
        ExprView::Eq(_, _) => outcome == 0,
        ExprView::Neq(_, _) => outcome != 0,
        ExprView::Lt(_, _) => outcome < 0,
        ExprView::Lte(_, _) => outcome <= 0,
        ExprView::Gt(_, _) => outcome > 0,
        ExprView::Gte(_, _) => outcome >= 0,
        _ => false,
    }
}

/// The outcomes that SQL's comparison operator `op` accepts: `=` equal,
/// `<>` unequal, `<` less, `<=` less or equal, `>` greater, `>=` greater
/// or equal.
pub open spec fn spec_sql_accepts(op: SqlBinaryOp, outcome: int) -> bool {
    match op {
        SqlBinaryOp::Eq => outcome == 0,
        SqlBinaryOp::NotEq => outcome != 0,
        SqlBinaryOp::Lt => outcome < 0,
        SqlBinaryOp::LtEq => outcome <= 0,
        SqlBinaryOp::Gt => outcome > 0,
        SqlBinaryOp::GtEq => outcome >= 0,
        _ => false,
    }
}

/// The left and right operands of a binary expression.
pub open spec fn spec_operands(e: ExprView) -> Option<(ExprView, ExprView)> {
    match e {
        ExprView::Eq(a, b) => Some((*a, *b)),
        ExprView::Neq(a, b) => Some((*a, *b)),
        ExprView::Lt(a, b) => Some((*a, *b)),
        ExprView::Lte(a, b) => Some((*a, *b)),
        ExprView::Gt(a, b) => Some((*a, *b)),
        ExprView::Gte(a, b) => Some((*a, *b)),
        ExprView::And(a, b) => Some((*a, *b)),
        ExprView::Or(a, b) => Some((*a, *b)),
        _ => None,
    }
}

/// A SQL comparison of two expressions that translate becomes a comparison
/// of their translations, in the same order, that accepts exactly the
/// outcomes SQL's operator accepts; `AND` and `OR` become conjunction and
/// disjunction of the translations.
pub proof fn lemma_sql_operators_keep_meaning(
    l: SqlExprView,
    op: SqlBinaryOp,
    r: SqlExprView,
    floats: Seq<(Seq<char>, Result<u64, Seq<char>>)>,
)
    requires
        spec_sql_expr(l, floats) is Ok,
        spec_sql_expr(r, floats) is Ok,
    ensures
        ({
            let lv = spec_sql_expr(l, floats)->Ok_0;
            let rv = spec_sql_expr(r, floats)->Ok_0;
            let t = spec_sql_expr(SqlExprView::BinaryOp(Box::new(l), op, Box::new(r)), floats);
            &&& op != SqlBinaryOp::Other ==> (t matches Ok(e) && spec_operands(e) == Some((lv, rv)))
            &&& op == SqlBinaryOp::Other ==> t == Err::<ExprView, Seq<char>>("Unsupported binary operator"@)
            &&& op == SqlBinaryOp::And ==> t == Ok::<ExprView, Seq<char>>(ExprView::And(Box::new(lv), Box::new(rv)))
            &&& op == SqlBinaryOp::Or ==> t == Ok::<ExprView, Seq<char>>(ExprView::Or(Box::new(lv), Box::new(rv)))
            &&& op != SqlBinaryOp::And && op != SqlBinaryOp::Or && op != SqlBinaryOp::Other ==> (t matches Ok(e)
                && forall|outcome: int| spec_accepts(e, outcome) == spec_sql_accepts(op, outcome))
        }),
{
}

/// The expression a SQL expression stands for: identifiers are columns,
/// numbers with a point are floats, read as `floats` gives them, and
/// others integers, parentheses are dropped; an error for what is not
/// supported, the left operand's before the right one's before the
/// operator's.
pub open spec fn spec_sql_expr(e: SqlExprView, floats: Seq<(Seq<char>, Result<u64, Seq<char>>)>) -> Result<ExprView, Seq<char>>
    decreases e,
{
    match e {
        SqlExprView::Identifier(id) => Ok(ExprView::Column(id)),
        SqlExprView::Number(text) => if text.contains('.') {
            spec_float_literal(spec_float_lookup(floats, text))
        } else {
            spec_int_literal(parsed_i64(text))
        },
        SqlExprView::SingleQuoted(s) => Ok(ExprView::Str(s)),
        SqlExprView::OtherValue => Err("Unsupported literal value"@),
        SqlExprView::BinaryOp(l, op, r) => match spec_sql_expr(*l, floats) {
            Err(m) => Err(m),
            Ok(lv) => match spec_sql_expr(*r, floats) {
                Err(m) => Err(m),
                Ok(rv) => spec_apply_op(op, lv, rv),
            },
        },
        SqlExprView::Nested(inner) => spec_sql_expr(*inner, floats),
        SqlExprView::Other => Err("Unsupported SQL expression"@),
    }
}

/// The value given for the float literal `text`.
fn float_lookup(floats: &Vec<(String, Result<u64, String>)>, text: &str) -> (r: Result<u64, String>)
    ensures
        spec_err_view(r) == spec_float_lookup(spec_floats_view(floats@), text@),
{
    let ghost fv = spec_floats_view(floats@);
    let wanted = text.to_owned();
    let mut i: usize = 0;
    assert(fv.skip(0) =~= fv);
    while i < floats.len()
        invariant
            i <= floats@.len(),
            fv == spec_floats_view(floats@),
            wanted@ == text@,
            spec_float_lookup(fv, text@) == spec_float_lookup(fv.skip(i as int), text@),
        decreases floats@.len() - i,
    {
        assert(fv.skip(i as int)[0] == fv[i as int]);
        assert(fv.skip(i as int).drop_first() =~= fv.skip(i + 1));
        if floats[i].0 == wanted {
            return match &floats[i].1 {
                Ok(b) => Ok(*b),
                Err(m) => Err(m.clone()),
            };
        }
        i = i + 1;
    }
    assert(fv.skip(i as int).len() == 0);
    Err(wanted)
}

/// Whether `s` holds a point.
pub(crate) fn has_point(s: &str) -> (b: bool)
    ensures
        b == s@.contains('.'),
{
    let n = s.unicode_len();
    let mut i: usize = 0;
    while i < n
        invariant
            i <= n,
            n == s@.len(),
            forall|j: int| 0 <= j < i ==> s@[j] != '.',
        decreases n - i,
    {
        if s.get_char(i) == '.' {
            return true;
        }
        i = i + 1;
    }
    false
}

/// The expression a SQL expression stands for, with float literals read
/// as `floats` gives them.
pub fn sql_to_tk_expr(e: &SqlExpr, floats: &Vec<(String, Result<u64, String>)>) -> (r: Result<Expr, String>)
    ensures
        spec_expr_result(r) == spec_sql_expr(e@, spec_floats_view(floats@)),
    decreases e,
{
    match e {
        SqlExpr::Identifier(id) => Ok(Expr::Column(id.clone())),
        SqlExpr::Number(text) => {
            if has_point(text.as_str()) {
                float_literal(&float_lookup(floats, text.as_str()))
            } else {
                int_literal(parse_i64(text.as_str()))
            }
        },
        SqlExpr::SingleQuoted(s) => Ok(Expr::Literal(Value::Str(s.clone()))),
        SqlExpr::OtherValue => Err(String::from_str("Unsupported literal value")),
        SqlExpr::BinaryOp(l, op, r) => {
            let lv = match sql_to_tk_expr(l, floats) {
                Ok(x) => x,
                Err(m) => {
                    return Err(m);
                },
            };
            let rv = match sql_to_tk_expr(r, floats) {
                Ok(x) => x,
                Err(m) => {
                    return Err(m);
                },
            };
            match op {
                SqlBinaryOp::Eq => Ok(Expr::Eq(Box::new(lv), Box::new(rv))),
                SqlBinaryOp::NotEq => Ok(Expr::Neq(Box::new(lv), Box::new(rv))),
                SqlBinaryOp::Gt => Ok(Expr::Gt(Box::new(lv), Box::new(rv))),
                SqlBinaryOp::GtEq => Ok(Expr::Gte(Box::new(lv), Box::new(rv))),
                SqlBinaryOp::Lt => Ok(Expr::Lt(Box::new(lv), Box::new(rv))),
                SqlBinaryOp::LtEq => Ok(Expr::Lte(Box::new(lv), Box::new(rv))),
                SqlBinaryOp::And => Ok(Expr::And(Box::new(lv), Box::new(rv))),
                SqlBinaryOp::Or => Ok(Expr::Or(Box::new(lv), Box::new(rv))),
                SqlBinaryOp::Other => Err(String::from_str("Unsupported binary operator")),
            }
        },
        SqlExpr::Nested(inner) => sql_to_tk_expr(inner, floats),
        SqlExpr::Other => Err(String::from_str("Unsupported SQL expression")),
    }
}

/// The message for a query over another table than `expected`.
pub open spec fn spec_table_not_found(found: Seq<char>, expected: Seq<char>) -> Seq<char> {
    "Table '"@ + found + "' not found (expected '"@ + expected + "')"@
}

/// Whether an item is `*`.
pub open spec fn spec_is_wildcard(item: SqlSelectItemView) -> bool {
    item is Wildcard
}

/// The columns a `SELECT` list names: none for an empty list or one with
/// `*`; otherwise each item's column or alias, and an error for any other
/// item.
pub open spec fn spec_projection(items: Seq<SqlSelectItemView>) -> Result<Seq<Seq<char>>, Seq<char>> {
    if items.len() == 0 || exists|i: int| 0 <= i < items.len() && spec_is_wildcard(#[trigger] items[i]) {
        Ok(seq![])
    } else {
        spec_item_names(items)
    }
}

/// The column or alias of each item, or the error of the first other one.
pub open spec fn spec_item_names(items: Seq<SqlSelectItemView>) -> Result<Seq<Seq<char>>, Seq<char>>
    decreases items.len(),
{
    if items.len() == 0 {
        Ok(seq![])
    } else {
        match spec_item_names(items.drop_last()) {
            Err(m) => Err(m),
            Ok(ns) => match items.last() {
                SqlSelectItemView::Column(n) => Ok(ns.push(n)),
                SqlSelectItemView::Aliased(a) => Ok(ns.push(a)),
                _ => Err("Only column references are supported in SELECT"@),
            },
        }
    }
}

/// The scan the statements ask for, by its table, columns and condition:
/// one `SELECT` from `table`, with its list and its condition, whose float
/// literals read as `floats` gives them; an error otherwise.
pub open spec fn spec_statements_plan(
    stmts: Seq<SqlStatementView>,
    table: Seq<char>,
    floats: Seq<(Seq<char>, Result<u64, Seq<char>>)>,
) -> Result<(Seq<char>, Seq<Seq<char>>, Option<ExprView>), Seq<char>> {
    if stmts.len() != 1 {
        Err("Expected a single SQL statement"@)
    } else {
        match stmts[0] {
            SqlStatementView::Other => Err("Only SELECT queries are supported"@),
            SqlStatementView::Select(sel) => if sel.from.len() == 0 {
                Err("FROM clause is required"@)
            } else {
                match sel.from[0] {
                    SqlTableView::Other => Err("Only simple table references are supported"@),
                    SqlTableView::Named(t) => if t != table {
                        Err(spec_table_not_found(t, table))
                    } else {
                        match spec_projection(sel.projection) {
                            Err(m) => Err(m),
                            Ok(cols) => match sel.selection {
                                None => Ok((table, cols, None)),
                                Some(w) => match spec_sql_expr(w, floats) {
                                    Err(m) => Err(m),
                                    Ok(f) => Ok((table, cols, Some(f))),
                                },
                            },
                        }
                    },
                }
            },
        }
    }
}

/// The columns a `SELECT` list names.
fn projection_of(items: &Vec<SqlSelectItem>) -> (r: Result<Vec<String>, String>)
    ensures
        spec_names_result(r) == spec_projection(spec_items_view(items@)),
{
    let ghost iv = spec_items_view(items@);
    let mut w: usize = 0;
    while w < items.len()
        invariant
            w <= items@.len(),
            iv == spec_items_view(items@),
            forall|i: int| 0 <= i < w ==> !spec_is_wildcard(#[trigger] iv[i]),
        decreases items@.len() - w,
    {
        if let SqlSelectItem::Wildcard = items[w] {
            let r: Vec<String> = Vec::new();
            assert(spec_is_wildcard(iv[w as int]));
            assert(spec_views(r@) =~= Seq::<Seq<char>>::empty());
            return Ok(r);
        }
        w = w + 1;
    }
    let mut cols: Vec<String> = Vec::new();
    if items.len() == 0 {
        assert(spec_views(cols@) =~= Seq::<Seq<char>>::empty());
        return Ok(cols);
    }
    let mut i: usize = 0;
    assert(iv.take(0) =~= Seq::<SqlSelectItemView>::empty());
    assert(spec_views(cols@) =~= Seq::<Seq<char>>::empty());
    while i < items.len()
        invariant
            i <= items@.len(),
            items@.len() > 0,
            iv == spec_items_view(items@),
            forall|j: int| 0 <= j < items@.len() ==> !spec_is_wildcard(#[trigger] iv[j]),
            spec_item_names(iv.take(i as int)) == Ok::<Seq<Seq<char>>, Seq<char>>(spec_views(cols@)),
        decreases items@.len() - i,
    {
        proof {
            assert(iv.take(i + 1).drop_last() =~= iv.take(i as int));
            assert(iv.take(i + 1).last() == iv[i as int]);
        }
        let ghost before = spec_views(cols@);
        match &items[i] {
            SqlSelectItem::Column(n) => {
                cols.push(n.clone());
                assert(spec_views(cols@) =~= before.push(n@));
            },
            SqlSelectItem::Aliased(a) => {
                cols.push(a.clone());
                assert(spec_views(cols@) =~= before.push(a@));
            },
            _ => {
                proof {
                    lemma_item_names_prefix_err(iv, i + 1);
                }
                return Err(String::from_str("Only column references are supported in SELECT"));
            },
        }
        i = i + 1;
    }
    assert(iv.take(i as int) =~= iv);
    Ok(cols)
}

/// An error in a prefix of the items is the error of all of them.
proof fn lemma_item_names_prefix_err(items: Seq<SqlSelectItemView>, n: int)
    requires
        0 <= n <= items.len(),
        spec_item_names(items.take(n)) is Err,
    ensures
        spec_item_names(items) == spec_item_names(items.take(n)),
    decreases items.len(),
{
    if n < items.len() {
        assert(items.drop_last().take(n) =~= items.take(n));
        lemma_item_names_prefix_err(items.drop_last(), n);
    } else {
        assert(items.take(n) =~= items);
    }
}

/// The plan of parsed statements over the table `default_table`, with
/// float literals read as `floats` gives them.
pub fn statements_to_plan(
    stmts: &Vec<SqlStatement>,
    default_table: &str,
    floats: &Vec<(String, Result<u64, String>)>,
) -> (r: Result<LogicalPlan, String>)
    ensures
        spec_plan_is(r, spec_statements_plan(spec_statements_view(stmts@), default_table@, spec_floats_view(floats@))),
{
    if stmts.len() != 1 {
        return Err(String::from_str("Expected a single SQL statement"));
    }
    let ghost sv = spec_statements_view(stmts@);
    assert(sv[0] == stmts@[0]@);
    let select = match &stmts[0] {
        SqlStatement::Select(s) => s,
        SqlStatement::Other => {
            return Err(String::from_str("Only SELECT queries are supported"));
        },
    };
    if select.from.len() == 0 {
        return Err(String::from_str("FROM clause is required"));
    }
    assert(select@.from[0] == select.from@[0]@);
    let sql_table = match &select.from[0] {
        SqlTable::Named(t) => t,
        SqlTable::Other => {
            return Err(String::from_str("Only simple table references are supported"));
        },
    };
    let expected = default_table.to_owned();
    if *sql_table != expected {
        let mut msg = String::from_str("Table '");
        msg.append(sql_table.as_str());
        msg.append("' not found (expected '");
        msg.append(default_table);
        msg.append("')");
        return Err(msg);
    }
    let projection = match projection_of(&select.projection) {
        Ok(p) => p,
        Err(m) => {
            return Err(m);
        },
    };
    let filter = match &select.selection {
        Some(w) => match sql_to_tk_expr(w, floats) {
            Ok(f) => Some(f),
            Err(m) => {
                return Err(m);
            },
        },
        None => None,
    };
    Ok(LogicalPlan::Scan { table: expected, projection, filter })
}

/// Whether `r` is the scan that `want` describes by its table, columns
/// and condition, or the error whose message `want` holds.
pub open spec fn spec_plan_is(
    r: Result<LogicalPlan, String>,
    want: Result<(Seq<char>, Seq<Seq<char>>, Option<ExprView>), Seq<char>>,
) -> bool {
    match want {
        Ok((t, cols, f)) => r matches Ok(LogicalPlan::Scan { table, projection, filter }) && table@ == t
            && spec_views(projection@) == cols && match filter {
                Some(x) => f == Some(view_expr(x)),
                None => f is None,
            },
        Err(m) => r matches Err(e) && e@ == m,
    }
}

} // verus!
