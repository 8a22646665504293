//! Expressions over the columns of a batch.
use vstd::prelude::*;

verus! {

/// A literal value. A float is given by the bit pattern of its `f64`.
#[derive(Debug, Clone, PartialEq)]
pub enum Value {
    Int(i64),
    Float(u64),
    Str(String),
}

/// An expression: a column, a literal, a comparison or a connective.
#[derive(Debug, PartialEq)]
pub enum Expr {
    Column(String),
    Literal(Value),
    Eq(Box<Expr>, Box<Expr>),
    Neq(Box<Expr>, Box<Expr>),
    Gt(Box<Expr>, Box<Expr>),
    Gte(Box<Expr>, Box<Expr>),
    Lt(Box<Expr>, Box<Expr>),
    Lte(Box<Expr>, Box<Expr>),
    And(Box<Expr>, Box<Expr>),
    Or(Box<Expr>, Box<Expr>),
}

/// An expression as plain values: names and strings as character
/// sequences.
pub enum ExprView {
    Column(Seq<char>),
    Int(i64),
    Float(u64),
    Str(Seq<char>),
    Eq(Box<ExprView>, Box<ExprView>),
    Neq(Box<ExprView>, Box<ExprView>),
    Gt(Box<ExprView>, Box<ExprView>),
    Gte(Box<ExprView>, Box<ExprView>),
    Lt(Box<ExprView>, Box<ExprView>),
    Lte(Box<ExprView>, Box<ExprView>),
    And(Box<ExprView>, Box<ExprView>),
    Or(Box<ExprView>, Box<ExprView>),
}

/// The expression as plain values.
pub open spec fn view_expr(e: Expr) -> ExprView
    decreases e,
{
    match e {
        Expr::Column(n) => ExprView::Column(n@),
        Expr::Literal(Value::Int(v)) => ExprView::Int(v),
        Expr::Literal(Value::Float(b)) => ExprView::Float(b),
        Expr::Literal(Value::Str(s)) => ExprView::Str(s@),
        Expr::Eq(a, b) => ExprView::Eq(Box::new(view_expr(*a)), Box::new(view_expr(*b))),
        Expr::Neq(a, b) => ExprView::Neq(Box::new(view_expr(*a)), Box::new(view_expr(*b))),
        Expr::Gt(a, b) => ExprView::Gt(Box::new(view_expr(*a)), Box::new(view_expr(*b))),
        Expr::Gte(a, b) => ExprView::Gte(Box::new(view_expr(*a)), Box::new(view_expr(*b))),
        Expr::Lt(a, b) => ExprView::Lt(Box::new(view_expr(*a)), Box::new(view_expr(*b))),
        Expr::Lte(a, b) => ExprView::Lte(Box::new(view_expr(*a)), Box::new(view_expr(*b))),
        Expr::And(a, b) => ExprView::And(Box::new(view_expr(*a)), Box::new(view_expr(*b))),
        Expr::Or(a, b) => ExprView::Or(Box::new(view_expr(*a)), Box::new(view_expr(*b))),
    }
}

impl Expr {
    pub fn eq(self, other: Expr) -> (r: Expr)
        ensures
            r == Expr::Eq(Box::new(self), Box::new(other)),
    {
        Expr::Eq(Box::new(self), Box::new(other))
    }

    pub fn neq(self, other: Expr) -> (r: Expr)
        ensures
            r == Expr::Neq(Box::new(self), Box::new(other)),
    {
        Expr::Neq(Box::new(self), Box::new(other))
    }

    pub fn gt(self, other: Expr) -> (r: Expr)
        ensures
            r == Expr::Gt(Box::new(self), Box::new(other)),
    {
        Expr::Gt(Box::new(self), Box::new(other))
    }

    pub fn gte(self, other: Expr) -> (r: Expr)
        ensures
            r == Expr::Gte(Box::new(self), Box::new(other)),
    {
        Expr::Gte(Box::new(self), Box::new(other))
    }

    pub fn lt(self, other: Expr) -> (r: Expr)
        ensures
            r == Expr::Lt(Box::new(self), Box::new(other)),
    {
        Expr::Lt(Box::new(self), Box::new(other))
    }

    pub fn lte(self, other: Expr) -> (r: Expr)
        ensures
            r == Expr::Lte(Box::new(self), Box::new(other)),
    {
        Expr::Lte(Box::new(self), Box::new(other))
    }

    pub fn and(self, other: Expr) -> (r: Expr)
        ensures
            r == Expr::And(Box::new(self), Box::new(other)),
    {
        Expr::And(Box::new(self), Box::new(other))
    }

    pub fn or(self, other: Expr) -> (r: Expr)
        ensures
            r == Expr::Or(Box::new(self), Box::new(other)),
    {
        Expr::Or(Box::new(self), Box::new(other))
    }
}

/// The column called `name`.
pub fn col(name: &str) -> (r: Expr)
    ensures
        r matches Expr::Column(n) && n@ == name@,
{
    Expr::Column(name.to_owned())
}

/// The integer literal `v`.
pub fn lit_int(v: i64) -> (r: Expr)
    ensures
        r == Expr::Literal(Value::Int(v)),
{
    Expr::Literal(Value::Int(v))
}

/// The string literal `v`.
pub fn lit_str(v: &str) -> (r: Expr)
    ensures
        r matches Expr::Literal(Value::Str(s)) && s@ == v@,
{
    Expr::Literal(Value::Str(v.to_owned()))
}

/// The columns that `e` names, added to `acc` in the order of their first
/// occurrence, left operand before right, each once.
pub open spec fn spec_collect(e: Expr, acc: Seq<Seq<char>>) -> Seq<Seq<char>>
    decreases e,
{
    match e {
        Expr::Column(name) => if acc.contains(name@) {
            acc
        } else {
            acc.push(name@)
        },
        Expr::Literal(_) => acc,
        Expr::Eq(a, b) => spec_collect(*b, spec_collect(*a, acc)),
        Expr::Neq(a, b) => spec_collect(*b, spec_collect(*a, acc)),
        Expr::Gt(a, b) => spec_collect(*b, spec_collect(*a, acc)),
        Expr::Gte(a, b) => spec_collect(*b, spec_collect(*a, acc)),
        Expr::Lt(a, b) => spec_collect(*b, spec_collect(*a, acc)),
        Expr::Lte(a, b) => spec_collect(*b, spec_collect(*a, acc)),
        Expr::And(a, b) => spec_collect(*b, spec_collect(*a, acc)),
        Expr::Or(a, b) => spec_collect(*b, spec_collect(*a, acc)),
    }
}

/// Whether `cols` holds a string equal to `name`.
fn contains_name(cols: &Vec<String>, name: &String) -> (r: bool)
    ensures
        r == cols@.map_values(|s: String| s@).contains(name@),
{
    let mut i: usize = 0;
    while i < cols.len()
        invariant
            i <= cols@.len(),
            forall|j: int| 0 <= j < i ==> cols@[j]@ != name@,
        decreases cols@.len() - i,
    {
        if cols[i] == *name {
            assert(cols@.map_values(|s: String| s@)[i as int] == name@);
            return true;
        }
        i = i + 1;
    }
    false
}

fn collect_columns(expr: &Expr, cols: &mut Vec<String>)
    ensures
        final(cols)@.map_values(|s: String| s@) == spec_collect(*expr, old(cols)@.map_values(|s: String| s@)),
    decreases expr,
{
    match expr {
        Expr::Column(name) => {
            if !contains_name(cols, name) {
                let ghost before = cols@;
                cols.push(name.clone());
                assert(cols@.map_values(|s: String| s@) =~= before.map_values(|s: String| s@).push(name@));
            }
        },
        Expr::Literal(_) => {},
        Expr::Eq(a, b) => {
            collect_columns(a, cols);
            collect_columns(b, cols);
        },
        Expr::Neq(a, b) => {
            collect_columns(a, cols);
            collect_columns(b, cols);
        },
        Expr::Gt(a, b) => {
            collect_columns(a, cols);
            collect_columns(b, cols);
        },
        Expr::Gte(a, b) => {
            collect_columns(a, cols);
            collect_columns(b, cols);
        },
        Expr::Lt(a, b) => {
            collect_columns(a, cols);
            collect_columns(b, cols);
        },
        Expr::Lte(a, b) => {
            collect_columns(a, cols);
            collect_columns(b, cols);
        },
        Expr::And(a, b) => {
            collect_columns(a, cols);
            collect_columns(b, cols);
        },
        Expr::Or(a, b) => {
            collect_columns(a, cols);
            collect_columns(b, cols);
        },
    }
}

/// The columns that `expr` names, in the order of their first occurrence,
/// each once.
pub fn referenced_columns(expr: &Expr) -> (r: Vec<String>)
    ensures
        r@.map_values(|s: String| s@) == spec_collect(*expr, seq![]),
{
    let mut cols: Vec<String> = Vec::new();
    assert(cols@.map_values(|s: String| s@) =~= Seq::<Seq<char>>::empty());
    collect_columns(expr, &mut cols);
    cols
}

/// Collecting never repeats a column, and keeps what was there.
pub proof fn lemma_collect_no_duplicates(e: Expr, acc: Seq<Seq<char>>)
    requires
        acc.no_duplicates(),
    ensures
        spec_collect(e, acc).no_duplicates(),
        spec_collect(e, acc).len() >= acc.len(),
        spec_collect(e, acc).subrange(0, acc.len() as int) == acc,
    decreases e,
{
    match e {
        Expr::Column(name) => {
            if !acc.contains(name@) {
                assert(acc.push(name@).subrange(0, acc.len() as int) =~= acc);
                assert forall|i: int, j: int| 0 <= i < acc.len() + 1 && 0 <= j < acc.len() + 1 && i != j implies acc.push(
                    name@,
                )[i] != acc.push(name@)[j] by {
                    if i == acc.len() {
                        assert(acc[j] != name@);
                    } else if j == acc.len() {
                        assert(acc[i] != name@);
                    }
                }
            } else {
                assert(acc.subrange(0, acc.len() as int) =~= acc);
            }
        },
        Expr::Literal(_) => {
            assert(acc.subrange(0, acc.len() as int) =~= acc);
        },
        Expr::Eq(a, b) => {
            lemma_collect_no_duplicates(*a, acc);
            lemma_collect_no_duplicates(*b, spec_collect(*a, acc));
            lemma_prefix_of_prefix(spec_collect(*b, spec_collect(*a, acc)), spec_collect(*a, acc), acc);
        },
        Expr::Neq(a, b) => {
            lemma_collect_no_duplicates(*a, acc);
            lemma_collect_no_duplicates(*b, spec_collect(*a, acc));
            lemma_prefix_of_prefix(spec_collect(*b, spec_collect(*a, acc)), spec_collect(*a, acc), acc);
        },
        Expr::Gt(a, b) => {
            lemma_collect_no_duplicates(*a, acc);
            lemma_collect_no_duplicates(*b, spec_collect(*a, acc));
            lemma_prefix_of_prefix(spec_collect(*b, spec_collect(*a, acc)), spec_collect(*a, acc), acc);
        },
        Expr::Gte(a, b) => {
            lemma_collect_no_duplicates(*a, acc);
            lemma_collect_no_duplicates(*b, spec_collect(*a, acc));
            lemma_prefix_of_prefix(spec_collect(*b, spec_collect(*a, acc)), spec_collect(*a, acc), acc);
        },
        Expr::Lt(a, b) => {
            lemma_collect_no_duplicates(*a, acc);
            lemma_collect_no_duplicates(*b, spec_collect(*a, acc));
            lemma_prefix_of_prefix(spec_collect(*b, spec_collect(*a, acc)), spec_collect(*a, acc), acc);
        },
        Expr::Lte(a, b) => {
            lemma_collect_no_duplicates(*a, acc);
            lemma_collect_no_duplicates(*b, spec_collect(*a, acc));
            lemma_prefix_of_prefix(spec_collect(*b, spec_collect(*a, acc)), spec_collect(*a, acc), acc);
        },
        Expr::And(a, b) => {
            lemma_collect_no_duplicates(*a, acc);
            lemma_collect_no_duplicates(*b, spec_collect(*a, acc));
            lemma_prefix_of_prefix(spec_collect(*b, spec_collect(*a, acc)), spec_collect(*a, acc), acc);
        },
        Expr::Or(a, b) => {
            lemma_collect_no_duplicates(*a, acc);
            lemma_collect_no_duplicates(*b, spec_collect(*a, acc));
            lemma_prefix_of_prefix(spec_collect(*b, spec_collect(*a, acc)), spec_collect(*a, acc), acc);
        },
    }
}

proof fn lemma_prefix_of_prefix(fin: Seq<Seq<char>>, mid: Seq<Seq<char>>, acc: Seq<Seq<char>>)
    requires
        fin.len() >= mid.len() >= acc.len(),
        fin.subrange(0, mid.len() as int) == mid,
        mid.subrange(0, acc.len() as int) == acc,
    ensures
        fin.subrange(0, acc.len() as int) == acc,
{
    assert(fin.subrange(0, acc.len() as int) =~= fin.subrange(0, mid.len() as int).subrange(0, acc.len() as int));
}

} // verus!
