//! The flat form of a block's expressions: every subexpression in a list,
//! children before their parents, each named by its index.

use vstd::prelude::*;
use crate::ast::{lemma_exprs_view, ExprAst, ExprView};
use crate::value::{clone_value, Value, ValueView};

verus! {

/// An expression whose operands are indices of earlier expressions.
#[derive(Debug)]
pub enum ExprIr {
    Constant(Value),
    Variable(String),
    Function(FunctionIr),
    /// The value that the entity at the first index has for the attribute
    /// at the second.
    Dot(usize, usize),
}

/// The application of a named function to the expressions at `args`.
#[derive(Debug)]
pub struct FunctionIr {
    pub name: String,
    pub args: Vec<usize>,
}

/// The mathematical model of an [`ExprIr`].
pub enum IrView {
    Constant(ValueView),
    Variable(Seq<char>),
    Function(Seq<char>, Seq<usize>),
    Dot(usize, usize),
}

impl View for ExprIr {
    type V = IrView;

    open spec fn view(&self) -> IrView {
        match *self {
            ExprIr::Constant(v) => IrView::Constant(v@),
            ExprIr::Variable(name) => IrView::Variable(name@),
            ExprIr::Function(f) => IrView::Function(f.name@, f.args@),
            ExprIr::Dot(e, a) => IrView::Dot(e, a),
        }
    }
}

/// The models of a list of flat expressions.
pub open spec fn irs_view(exprs: Seq<ExprIr>) -> Seq<IrView> {
    exprs.map_values(|e: ExprIr| e@)
}

impl ExprIr {
    /// Whether this is a constant.
    pub fn is_constant(&self) -> (r: bool)
        ensures
            r == (self@ is Constant),
    {
        match self {
            ExprIr::Constant(_) => true,
            _ => false,
        }
    }

    /// Whether this is a variable.
    pub fn is_variable(&self) -> (r: bool)
        ensures
            r == (self@ is Variable),
    {
        match self {
            ExprIr::Variable(_) => true,
            _ => false,
        }
    }

    /// Whether this is a function application.
    pub fn is_function(&self) -> (r: bool)
        ensures
            r == (self@ is Function),
    {
        match self {
            ExprIr::Function(_) => true,
            _ => false,
        }
    }
}

/// The operands of the node at index `at` stand before it, and those of a
/// `Dot` in the order entity, attribute.
pub open spec fn node_ok(node: IrView, at: int) -> bool {
    match node {
        IrView::Dot(e, a) => e < a < at,
        IrView::Function(_, args) => forall|j: int| 0 <= j < args.len() ==> #[trigger] args[j] < at,
        _ => true,
    }
}

/// Every expression of the list has its operands before it.
pub open spec fn ir_ok(exprs: Seq<IrView>) -> bool {
    forall|i: int| 0 <= i < exprs.len() ==> node_ok(#[trigger] exprs[i], i)
}

/// The flat expressions that `e` gives when `base` expressions precede it:
/// those of its operands, left to right, then `e` itself.
pub open spec fn flatten(e: ExprView, base: int) -> Seq<IrView>
    decreases e, 0int,
{
    match e {
        ExprView::Constant(v) => seq![IrView::Constant(v)],
        ExprView::Variable(name) => seq![IrView::Variable(name)],
        ExprView::Function(name, args) => flatten_all(args, base).push(
            IrView::Function(name, roots(args, base)),
        ),
        ExprView::Dot(a, b) => {
            let left = flatten(*a, base);
            let right = flatten(*b, base + left.len());
            (left + right).push(
                IrView::Dot(
                    (base + left.len() - 1) as usize,
                    (base + left.len() + right.len() - 1) as usize,
                ),
            )
        },
    }
}

/// The flat expressions that a list of expressions gives, one expression
/// after the other.
pub open spec fn flatten_all(es: Seq<ExprView>, base: int) -> Seq<IrView>
    decreases es, 1int,
{
    if es.len() == 0 {
        Seq::empty()
    } else {
        let before = flatten_all(es.drop_last(), base);
        before + flatten(es.last(), base + before.len())
    }
}

/// The indices at which the expressions of a list end up.
pub open spec fn roots(es: Seq<ExprView>, base: int) -> Seq<usize>
    decreases es, 2int,
{
    if es.len() == 0 {
        Seq::empty()
    } else {
        roots(es.drop_last(), base).push((base + flatten_all(es, base).len() - 1) as usize)
    }
}

/// Appends the flat form of `expr` to `exprs` and returns the index at
/// which `expr` itself stands, which is the last.
#[verifier::loop_isolation(false)]
pub fn translate(expr: &ExprAst, exprs: &mut Vec<ExprIr>) -> (r: usize)
    ensures
        irs_view(final(exprs)@) == irs_view(old(exprs)@) + flatten(expr@, old(exprs)@.len() as int),
        r == final(exprs)@.len() - 1,
        final(exprs)@.len() > old(exprs)@.len(),
        ir_ok(irs_view(old(exprs)@)) ==> ir_ok(irs_view(final(exprs)@)),
    decreases expr,
{
    let ghost before = irs_view(exprs@);
    let ghost base = exprs@.len() as int;
    let ghost mut body = Seq::<IrView>::empty();
    let ir = match expr {
        ExprAst::Constant(value) => {
            assert(flatten(expr@, base) == seq![IrView::Constant(value@)]);
            ExprIr::Constant(clone_value(value))
        },
        ExprAst::Variable(variable) => {
            assert(flatten(expr@, base) == seq![IrView::Variable(variable@)]);
            ExprIr::Variable(variable.clone())
        },
        ExprAst::Function(f) => {
            let mut args: Vec<usize> = Vec::new();
            let mut i: usize = 0;
            proof {
                lemma_exprs_view(f.args@);
            }
            let ghost views = crate::ast::exprs_view(f.args@);
            while i < f.args.len()
                invariant
                    i <= f.args@.len(),
                    views == crate::ast::exprs_view(f.args@),
                    views.len() == f.args@.len(),
                    forall|k: int| 0 <= k < f.args@.len() ==> #[trigger] views[k] == f.args@[k]@,
                    irs_view(exprs@) == before + flatten_all(views.take(i as int), base),
                    args@ == roots(views.take(i as int), base),
                    before.len() == base,
                    ir_ok(before) ==> ir_ok(irs_view(exprs@)),
                    forall|k: int| 0 <= k < args@.len() ==> #[trigger] args@[k] < exprs@.len(),
                decreases f.args@.len() - i,
            {
                let ghost done = flatten_all(views.take(i as int), base);
                let r = translate(&f.args[i], exprs);
                args.push(r);
                proof {
                    let next = views.take(i + 1);
                    assert(next.drop_last() =~= views.take(i as int));
                    assert(next.last() == f.args@[i as int]@);
                    assert(irs_view(exprs@) =~= before + flatten_all(next, base));
                }
                i += 1;
            }
            proof {
                assert(views.take(i as int) =~= views);
                assert(flatten(expr@, base) == flatten_all(views, base).push(
                    IrView::Function(f.name@, roots(views, base)),
                ));
                body = flatten_all(views, base);
            }
            ExprIr::Function(FunctionIr { name: f.name.clone(), args })
        },
        ExprAst::Dot(expr1, expr2) => {
            let e = translate(expr1, exprs);
            let ghost left = flatten(expr1@, base);
            assert(irs_view(exprs@) == before + left);
            let a = translate(expr2, exprs);
            let ghost right = flatten(expr2@, base + left.len());
            assert(irs_view(exprs@) =~= before + (left + right));
            assert(flatten(expr@, base) == (left + right).push(IrView::Dot(e, a)));
            proof {
                body = left + right;
            }
            ExprIr::Dot(e, a)
        },
    };
    assert(irs_view(exprs@) =~= before + body);
    assert(flatten(expr@, base) =~= body.push(ir@));
    assert(node_ok(ir@, exprs@.len() as int));
    exprs.push(ir);
    proof {
        assert(irs_view(exprs@) =~= (before + body).push(ir@));
        assert(irs_view(exprs@) =~= before + flatten(expr@, base));
    }
    exprs.len() - 1
}

/// In the flat form of an expression every node has its operands before
/// it.
pub proof fn lemma_flatten_ok(e: ExprView, base: int)
    requires
        0 <= base,
        base + flatten(e, base).len() <= usize::MAX,
    ensures
        flatten(e, base).len() >= 1,
        forall|k: int|
            0 <= k < flatten(e, base).len() ==> node_ok(#[trigger] flatten(e, base)[k], base + k),
    decreases e, 0int,
{
    match e {
        ExprView::Constant(_) => {},
        ExprView::Variable(_) => {},
        ExprView::Function(name, args) => {
            lemma_flatten_all_ok(args, base);
            let body = flatten_all(args, base);
            let all = flatten(e, base);
            assert forall|k: int| 0 <= k < all.len() implies node_ok(#[trigger] all[k], base + k) by {
                if k < body.len() {
                    assert(all[k] == body[k]);
                }
            }
        },
        ExprView::Dot(a, b) => {
            let left = flatten(*a, base);
            let right = flatten(*b, base + left.len());
            lemma_flatten_ok(*a, base);
            lemma_flatten_ok(*b, base + left.len());
            let all = flatten(e, base);
            assert forall|k: int| 0 <= k < all.len() implies node_ok(#[trigger] all[k], base + k) by {
                if k < left.len() {
                    assert(all[k] == left[k]);
                } else if k < left.len() + right.len() {
                    assert(all[k] == right[k - left.len()]);
                }
            }
        },
    }
}

/// In the flat form of a list of expressions every node has its operands
/// before it, and the expressions of the list end up within it.
pub proof fn lemma_flatten_all_ok(es: Seq<ExprView>, base: int)
    requires
        0 <= base,
        base + flatten_all(es, base).len() <= usize::MAX,
    ensures
        forall|k: int|
            0 <= k < flatten_all(es, base).len() ==> node_ok(
                #[trigger] flatten_all(es, base)[k],
                base + k,
            ),
        roots(es, base).len() == es.len(),
        forall|j: int|
            0 <= j < es.len() ==> #[trigger] roots(es, base)[j] < base + flatten_all(
                es,
                base,
            ).len(),
    decreases es, 1int,
{
    if es.len() > 0 {
        let before = flatten_all(es.drop_last(), base);
        let last = flatten(es.last(), base + before.len());
        lemma_flatten_all_ok(es.drop_last(), base);
        lemma_flatten_ok(es.last(), base + before.len());
        lemma_roots_len(es, base);
        let all = flatten_all(es, base);
        assert forall|k: int| 0 <= k < all.len() implies node_ok(#[trigger] all[k], base + k) by {
            if k < before.len() {
                assert(all[k] == before[k]);
            } else {
                assert(all[k] == last[k - before.len()]);
            }
        }
        let r = roots(es, base);
        let rb = roots(es.drop_last(), base);
        assert forall|j: int| 0 <= j < es.len() implies #[trigger] r[j] < base + all.len() by {
            if j < es.len() - 1 {
                assert(r[j] == rb[j]);
            }
        }
    }
}

/// There is one root for each expression of a list.
pub proof fn lemma_roots_len(es: Seq<ExprView>, base: int)
    ensures
        roots(es, base).len() == es.len(),
    decreases es.len(),
{
    if es.len() > 0 {
        lemma_roots_len(es.drop_last(), base);
    }
}

} // verus!
