//! Translation of typed definitions into control flow graphs.
//!
//! The shape of the graph built for an expression is described by the relation
//! [`evaluates`]: starting at a block, the graph computes the expression into a
//! variable and then leaves through a given terminator.

use vstd::prelude::*;
use crate::location::Range;
use crate::mir::{
    ArgumentIndex, BasicBlock, BasicBlockId, ControlFlowGraph, DefinitionM, SourceFileMIR, LocalVariableId, LocalVariableInfo,
    LocalVariableName, LocalVariableTable, NameMap, Operand, Place, PlaceSegment, Rvalue, Statement,
    StatementKind, Terminator, TerminatorKind, is_var_place, jumps_closed, jumps_to, moves_var,
};
use crate::typed::{
    Definition, DefinitionCase, Expression, ExpressionContents, ImmediateValue, Pattern, SourceFileHIR,
    expr_size, exprs_size, fields_size, spec_expr_range,
};
use crate::types::{PrimitiveType, Type, same_type};

verus! {

broadcast use vstd::std_specs::hash::group_hash_axioms;

/// A terminator that jumps to block `b`.
pub open spec fn goto_term(b: u64, r: Range) -> Terminator {
    Terminator { range: r, kind: TerminatorKind::Goto(BasicBlockId(b)) }
}

/// Block `b` is in the graph and among the blocks `dom` the relation may use.
pub open spec fn has_block(g: Map<u64, BasicBlock>, dom: Set<u64>, b: u64) -> bool {
    dom.contains(b) && g.contains_key(b)
}

/// `v` is a local that records the given span and type and has no name.
pub open spec fn intermediate_var(
    vars: Map<LocalVariableName, LocalVariableInfo>,
    v: LocalVariableName,
    range: Range,
    ty: Type,
) -> bool {
    &&& v is Local
    &&& vars.contains_key(v)
    &&& vars[v] == (LocalVariableInfo { range, ty, name: None })
}

/// `v` is a local that records the given span, a copy of the given type, and no name.
pub open spec fn intermediate_var_copy(
    vars: Map<LocalVariableName, LocalVariableInfo>,
    v: LocalVariableName,
    range: Range,
    ty: Type,
) -> bool {
    &&& v is Local
    &&& vars.contains_key(v)
    &&& vars[v].range == range
    &&& vars[v].name is None
    &&& same_type(ty, vars[v].ty)
}

/// Block `b` holds no statements and leaves through `term`.
pub open spec fn empty_block(g: Map<u64, BasicBlock>, dom: Set<u64>, b: u64, term: Terminator) -> bool {
    &&& has_block(g, dom, b)
    &&& g[b].statements@.len() == 0
    &&& g[b].terminator == term
}

/// Block `b` applies the function in `vl` to the argument in `vr`, storing the result in `v`.
pub open spec fn apply_block(
    g: Map<u64, BasicBlock>,
    dom: Set<u64>,
    b: u64,
    vl: LocalVariableName,
    vr: LocalVariableName,
    v: LocalVariableName,
    range: Range,
    term: Terminator,
) -> bool {
    &&& has_block(g, dom, b)
    &&& g[b].terminator == term
    &&& g[b].statements@.len() == 1
    &&& g[b].statements@[0].range == range
    &&& g[b].statements@[0].kind matches StatementKind::Apply { argument, function, target }
        && moves_var(argument, vr) && moves_var(function, vl) && is_var_place(target, v)
}

/// Block `b` moves the value of `vr` into the let-bound variable `x`, then brings `v`
/// to life and stores the unit value in it: a `let` yields the unit value.
pub open spec fn let_block(
    g: Map<u64, BasicBlock>,
    dom: Set<u64>,
    b: u64,
    x: LocalVariableName,
    vr: LocalVariableName,
    v: LocalVariableName,
    range: Range,
    term: Terminator,
) -> bool {
    &&& has_block(g, dom, b)
    &&& g[b].terminator == term
    &&& g[b].statements@.len() == 3
    &&& g[b].statements@[0].range == range
    &&& g[b].statements@[0].kind matches StatementKind::Assign { target, source }
        && is_var_place(target, x) && moves_var(source, vr)
    &&& v matches LocalVariableName::Local(id)
        && g[b].statements@[1] == (Statement { range, kind: StatementKind::StorageLive(id) })
    &&& g[b].statements@[2].range == range
    &&& g[b].statements@[2].kind matches StatementKind::Assign { target, source }
        && is_var_place(target, v)
        && (source matches Rvalue::Use(Operand::Constant(c)) && c == ImmediateValue::Unit)
}

/// Block `b` brings `v` to life and stores the constant `c` in it.
pub open spec fn constant_block(
    g: Map<u64, BasicBlock>,
    dom: Set<u64>,
    b: u64,
    v: LocalVariableName,
    c: ImmediateValue,
    range: Range,
    term: Terminator,
) -> bool {
    &&& has_block(g, dom, b)
    &&& g[b].terminator == term
    &&& g[b].statements@.len() == 2
    &&& v matches LocalVariableName::Local(id)
        && g[b].statements@[0] == (Statement { range, kind: StatementKind::StorageLive(id) })
    &&& g[b].statements@[1].range == range
    &&& g[b].statements@[1].kind matches StatementKind::Assign { target, source }
        && is_var_place(target, v)
        && (source matches Rvalue::Use(Operand::Constant(c2)) && c2 == c)
}

/// The names of the fields of a constructor, as text.
pub open spec fn field_name_texts(fields: Seq<(crate::types::NameP, Expression)>) -> Seq<Seq<char>> {
    fields.map_values(|f: (crate::types::NameP, Expression)| f.0.name@)
}

/// The fields a value is built from when field `i` is named `names[i]` and its value
/// is in `vs[i]`: one per name, holding the value of the last field of that name, in
/// the order of those last fields.
pub open spec fn last_fields(names: Seq<Seq<char>>, vs: Seq<LocalVariableName>) -> Seq<(Seq<char>, LocalVariableName)>
    decreases names.len(),
{
    if names.len() == 0 {
        Seq::empty()
    } else {
        let rest = last_fields(names.drop_first(), vs.drop_first());
        if names.drop_first().contains(names[0]) {
            rest
        } else {
            seq![(names[0], vs[0])] + rest
        }
    }
}

/// The fields of a construct statement are `lf`: each named alike and moved out of
/// its variable.
pub open spec fn fields_match(fs: Seq<(String, Rvalue)>, lf: Seq<(Seq<char>, LocalVariableName)>) -> bool {
    &&& fs.len() == lf.len()
    &&& forall|i: int| 0 <= i < fs.len() ==> (#[trigger] fs[i]).0@ == lf[i].0 && moves_var(fs[i].1, lf[i].1)
}

/// Block `b` brings `v` to life and builds in it a value of type `ty` from the fields
/// `fields`, whose values are in `vs`; a field name given twice keeps the value of
/// its last field, as the statement holds one value per name.
pub open spec fn construct_block(
    g: Map<u64, BasicBlock>,
    dom: Set<u64>,
    b: u64,
    v: LocalVariableName,
    ty: Type,
    fields: Seq<(crate::types::NameP, Expression)>,
    vs: Seq<LocalVariableName>,
    range: Range,
    term: Terminator,
) -> bool {
    &&& has_block(g, dom, b)
    &&& g[b].terminator == term
    &&& g[b].statements@.len() == 2
    &&& v matches LocalVariableName::Local(id)
        && g[b].statements@[0] == (Statement { range, kind: StatementKind::StorageLive(id) })
    &&& g[b].statements@[1].range == range
    &&& g[b].statements@[1].kind matches StatementKind::ConstructData { ty: t, fields: fs, target }
        && t == ty && is_var_place(target, v)
        && fields_match(fs@, last_fields(field_name_texts(fields), vs))
}

/// A name occurs among the kept fields exactly when some field has it.
proof fn lemma_last_fields_names(names: Seq<Seq<char>>, vs: Seq<LocalVariableName>, x: Seq<char>)
    ensures
        (exists|j: int| 0 <= j < last_fields(names, vs).len() && #[trigger] last_fields(names, vs)[j].0 == x)
            <==> names.contains(x),
    decreases names.len(),
{
    if names.len() > 0 {
        let rest = last_fields(names.drop_first(), vs.drop_first());
        lemma_last_fields_names(names.drop_first(), vs.drop_first(), x);
        if names.contains(x) {
            let i = choose|i: int| 0 <= i < names.len() && names[i] == x;
            if i > 0 {
                assert(names.drop_first()[i - 1] == x);
            }
            if names.drop_first().contains(x) {
                let j = choose|j: int| 0 <= j < rest.len() && #[trigger] rest[j].0 == x;
                if !names.drop_first().contains(names[0]) {
                    assert(last_fields(names, vs)[j + 1] == rest[j]);
                }
            } else {
                assert(i == 0);
                if names.drop_first().contains(names[0]) {
                    assert(false);
                } else {
                    assert(last_fields(names, vs)[0].0 == x);
                }
            }
        }
        if exists|j: int| 0 <= j < last_fields(names, vs).len() && #[trigger] last_fields(names, vs)[j].0 == x {
            let j = choose|j: int| 0 <= j < last_fields(names, vs).len() && #[trigger] last_fields(names, vs)[j].0 == x;
            if names.drop_first().contains(names[0]) {
                assert(rest[j].0 == x);
                let k = choose|k: int| 0 <= k < names.drop_first().len() && names.drop_first()[k] == x;
                assert(names[k + 1] == x);
            } else if j == 0 {
                assert(names[0] == x);
            } else {
                assert(rest[j - 1].0 == x);
                let k = choose|k: int| 0 <= k < names.drop_first().len() && names.drop_first()[k] == x;
                assert(names[k + 1] == x);
            }
        }
    }
}

/// Whether some field of `built` has the name `name`.
fn has_field_named(built: &Vec<(String, Rvalue)>, name: &String) -> (res: bool)
    ensures
        res == (exists|j: int| 0 <= j < built@.len() && #[trigger] built@[j].0@ == name@),
{
    let mut i: usize = 0;
    while i < built.len()
        invariant
            i <= built@.len(),
            forall|j: int| 0 <= j < i ==> #[trigger] built@[j].0@ != name@,
        decreases built@.len() - i,
    {
        if built[i].0 == *name {
            return true;
        }
        i = i + 1;
    }
    false
}

/// Marks a value chosen by an existential quantifier.
pub open spec fn witness<A>(a: A) -> bool {
    true
}

/// Starting at block `entry`, the graph `g` computes expression `e` into variable `v`
/// and then leaves through `term`, using only the blocks in `dom`. Names are looked up
/// in `names`, and the intermediate variables it introduces are recorded in `vars`.
/// The new variables are numbered from `nl` in the order the translation makes them:
/// `v` is `result_var(e, nl, names)`, and each part of `e` is computed into its own
/// such variable, numbered from where the translation of that part starts.
pub open spec fn evaluates(
    g: Map<u64, BasicBlock>,
    dom: Set<u64>,
    names: Map<Seq<char>, LocalVariableName>,
    vars: Map<LocalVariableName, LocalVariableInfo>,
    entry: u64,
    e: Expression,
    v: LocalVariableName,
    term: Terminator,
    nl: int,
) -> bool
    decreases e,
{
    let range = spec_expr_range(e);
    has_block(g, dom, entry) && v == result_var(e, nl, names) && match e.contents {
        ExpressionContents::Argument(n) => {
            &&& empty_block(g, dom, entry, term)
            &&& names.contains_key(n.name@)
            &&& v == names[n.name@]
        },
        ExpressionContents::Local(n) => {
            &&& empty_block(g, dom, entry, term)
            &&& names.contains_key(n.name@)
            &&& v == names[n.name@]
        },
        ExpressionContents::Symbol { name, range: r, type_variables } => {
            &&& intermediate_var(vars, v, r, e.ty)
            &&& g[entry].terminator == term
            &&& g[entry].statements@.len() == 1
            &&& g[entry].statements@[0].range == r
            &&& g[entry].statements@[0].kind matches StatementKind::InstanceSymbol {
                name: n2,
                type_variables: t2,
                target,
            } && n2 == name && t2 == type_variables && is_var_place(target, v)
        },
        ExpressionContents::Apply(l, r) => {
            &&& intermediate_var(vars, v, range, e.ty)
            &&& exists|br: u64, bapp: u64, vl: LocalVariableName, vr: LocalVariableName|
                #![trigger apply_block(g, dom, bapp, vl, vr, v, range, term), goto_term(br, range)]
                {
                    &&& evaluates(g, dom, names, vars, entry, *l, vl, goto_term(br, range), nl + 1 + vars_made(*r))
                    &&& evaluates(g, dom, names, vars, br, *r, vr, goto_term(bapp, range), nl + 1)
                    &&& apply_block(g, dom, bapp, vl, vr, v, range, term)
                }
        },
        ExpressionContents::Lambda { params, expr, .. } => {
            &&& intermediate_var_copy(vars, v, range, e.ty)
            &&& g[entry].terminator == term
            &&& g[entry].statements@.len() == 1
            &&& g[entry].statements@[0].range == range
            &&& g[entry].statements@[0].kind matches StatementKind::CreateLambda {
                ty: t,
                params: p,
                expr: x,
                target,
            } && t == e.ty && p == params && x == *expr && is_var_place(target, v)
        },
        ExpressionContents::Let { name, expr, .. } => {
            &&& names.contains_key(name.name@)
            &&& intermediate_var(vars, v, range, Type::Primitive(PrimitiveType::Unit))
            &&& exists|b2: u64, vr: LocalVariableName|
                #![trigger let_block(g, dom, b2, names[name.name@], vr, v, range, term)]
                {
                    &&& evaluates(g, dom, names, vars, entry, *expr, vr, goto_term(b2, range), nl)
                    &&& let_block(g, dom, b2, names[name.name@], vr, v, range, term)
                }
        },
        ExpressionContents::Block { statements, final_semicolon, .. } => {
            if final_semicolon is None && statements@.len() > 0 {
                exists|bf: u64, vs: Seq<LocalVariableName>|
                    #![trigger goto_term(bf, range), witness(vs)]
                    {
                        &&& witness(vs)
                        &&& evaluates_seq(g, dom, names, vars, entry, statements@.drop_last(), vs, goto_term(bf, range), nl + vars_made(statements@.last()))
                        &&& evaluates(g, dom, names, vars, bf, statements@.last(), v, term, nl)
                    }
            } else {
                &&& intermediate_var(vars, v, range, Type::Primitive(PrimitiveType::Unit))
                &&& exists|bi: u64, vs: Seq<LocalVariableName>|
                    #![trigger constant_block(g, dom, bi, v, ImmediateValue::Unit, range, term), witness(vs)]
                    {
                        &&& witness(vs)
                        &&& evaluates_seq(g, dom, names, vars, entry, statements@, vs, goto_term(bi, range), nl + 1)
                        &&& constant_block(g, dom, bi, v, ImmediateValue::Unit, range, term)
                    }
            }
        },
        ExpressionContents::ConstructData { fields, .. } => {
            &&& intermediate_var_copy(vars, v, range, e.ty)
            &&& exists|bc: u64, vs: Seq<LocalVariableName>|
                #![trigger construct_block(g, dom, bc, v, e.ty, fields@, vs, range, term)]
                {
                    &&& evaluates_fields(g, dom, names, vars, entry, fields@, vs, goto_term(bc, range), nl + 1)
                    &&& construct_block(g, dom, bc, v, e.ty, fields@, vs, range, term)
                }
        },
        ExpressionContents::ImmediateValue { value, range: r } => {
            &&& intermediate_var(vars, v, r, e.ty)
            &&& constant_block(g, dom, entry, v, value, r, term)
        },
        ExpressionContents::Borrow { .. } => false,
        ExpressionContents::Copy { .. } => false,
    }
}

/// Starting at block `entry`, the graph computes the expressions `es` in order into the
/// variables `vs`, and then leaves through `term`; with no expressions, `entry` is an
/// empty block. The last expression's new variables are numbered from `nl`, and each
/// other's after those of the expressions that follow it.
pub open spec fn evaluates_seq(
    g: Map<u64, BasicBlock>,
    dom: Set<u64>,
    names: Map<Seq<char>, LocalVariableName>,
    vars: Map<LocalVariableName, LocalVariableInfo>,
    entry: u64,
    es: Seq<Expression>,
    vs: Seq<LocalVariableName>,
    term: Terminator,
    nl: int,
) -> bool
    decreases es,
{
    if es.len() == 0 {
        vs.len() == 0 && empty_block(g, dom, entry, term)
    } else if es.len() == 1 {
        vs.len() == 1 && evaluates(g, dom, names, vars, entry, es[0], vs[0], term, nl)
    } else {
        &&& vs.len() == es.len()
        &&& exists|bl: u64|
            #![trigger goto_term(bl, term.range)]
            {
                &&& evaluates_seq(g, dom, names, vars, entry, es.drop_last(), vs.drop_last(), goto_term(bl, term.range), nl + vars_made(es.last()))
                &&& evaluates(g, dom, names, vars, bl, es.last(), vs.last(), term, nl)
            }
    }
}

/// The expressions `es` are computed one after the other from the blocks `bs`: each
/// into its variable, the first from `bs[0]`, each passing on to the block of the next,
/// and the last leaving through `term`. The variables of the last expression are
/// numbered from `nl`, those of each other one after those of the expressions that
/// follow it, which are translated before it.
pub open spec fn evaluated_in_order(
    g: Map<u64, BasicBlock>,
    dom: Set<u64>,
    names: Map<Seq<char>, LocalVariableName>,
    vars: Map<LocalVariableName, LocalVariableInfo>,
    bs: Seq<u64>,
    es: Seq<Expression>,
    vs: Seq<LocalVariableName>,
    term: Terminator,
    nl: int,
) -> bool {
    &&& es.len() > 0
    &&& bs.len() == es.len()
    &&& vs.len() == es.len()
    &&& forall|i: int| 0 <= i < es.len() - 1 ==> #[trigger] evaluates(
        g,
        dom,
        names,
        vars,
        bs[i],
        es[i],
        vs[i],
        goto_term(bs[i + 1], term.range),
        nl + sum_vars(es.skip(i + 1)),
    )
    &&& evaluates(g, dom, names, vars, bs.last(), es.last(), vs.last(), term, nl)
}

/// A chain of expressions is computed in the order in which the expressions are
/// written: entered at its entry block, the first expression is computed first, each
/// one then passes on to the next, and the last leaves through the chain's terminator.
pub proof fn lemma_chain_in_order(
    g: Map<u64, BasicBlock>,
    dom: Set<u64>,
    names: Map<Seq<char>, LocalVariableName>,
    vars: Map<LocalVariableName, LocalVariableInfo>,
    entry: u64,
    es: Seq<Expression>,
    vs: Seq<LocalVariableName>,
    term: Terminator,
    nl: int,
)
    requires
        evaluates_seq(g, dom, names, vars, entry, es, vs, term, nl),
        es.len() > 0,
    ensures
        exists|bs: Seq<u64>| bs[0] == entry && #[trigger] evaluated_in_order(g, dom, names, vars, bs, es, vs, term, nl),
    decreases es.len(),
{
    if es.len() == 1 {
        let bs = seq![entry];
        assert(evaluated_in_order(g, dom, names, vars, bs, es, vs, term, nl));
    } else {
        let bl = choose|bl: u64| #![trigger goto_term(bl, term.range)]
            {
                &&& evaluates_seq(g, dom, names, vars, entry, es.drop_last(), vs.drop_last(), goto_term(bl, term.range), nl + vars_made(es.last()))
                &&& evaluates(g, dom, names, vars, bl, es.last(), vs.last(), term, nl)
            };
        let t0 = goto_term(bl, term.range);
        let nl0 = nl + vars_made(es.last());
        lemma_chain_in_order(g, dom, names, vars, entry, es.drop_last(), vs.drop_last(), t0, nl0);
        let bs0 = choose|bs0: Seq<u64>| bs0[0] == entry && #[trigger] evaluated_in_order(g, dom, names, vars, bs0, es.drop_last(), vs.drop_last(), t0, nl0);
        let bs = bs0.push(bl);
        assert forall|i: int| 0 <= i < es.len() - 1 implies #[trigger] evaluates(
            g,
            dom,
            names,
            vars,
            bs[i],
            es[i],
            vs[i],
            goto_term(bs[i + 1], term.range),
            nl + sum_vars(es.skip(i + 1)),
        ) by {
            assert(es[i] == es.drop_last()[i]);
            assert(vs[i] == vs.drop_last()[i]);
            assert(bs[i] == bs0[i]);
            let tail = es.skip(i + 1);
            assert(tail.len() > 0);
            lemma_sum_vars_last(tail);
            assert(tail.drop_last() =~= es.drop_last().skip(i + 1));
            assert(tail.last() == es.last());
            if i < es.len() - 2 {
                assert(bs[i + 1] == bs0[i + 1]);
                assert(evaluates(g, dom, names, vars, bs0[i], es.drop_last()[i], vs.drop_last()[i], goto_term(bs0[i + 1], t0.range), nl0 + sum_vars(es.drop_last().skip(i + 1))));
            } else {
                assert(es.drop_last().skip(i + 1) =~= Seq::<Expression>::empty());
            }
        }
        assert(bs.last() == bl);
        assert(evaluated_in_order(g, dom, names, vars, bs, es, vs, term, nl));
    }
}

/// As `evaluates_seq`, for the expressions of the fields of a constructor.
pub open spec fn evaluates_fields(
    g: Map<u64, BasicBlock>,
    dom: Set<u64>,
    names: Map<Seq<char>, LocalVariableName>,
    vars: Map<LocalVariableName, LocalVariableInfo>,
    entry: u64,
    fs: Seq<(crate::types::NameP, Expression)>,
    vs: Seq<LocalVariableName>,
    term: Terminator,
    nl: int,
) -> bool
    decreases fs,
{
    if fs.len() == 0 {
        vs.len() == 0 && empty_block(g, dom, entry, term)
    } else if fs.len() == 1 {
        vs.len() == 1 && evaluates(g, dom, names, vars, entry, fs[0].1, vs[0], term, nl)
    } else {
        &&& vs.len() == fs.len()
        &&& exists|bl: u64|
            #![trigger goto_term(bl, term.range)]
            {
                &&& evaluates_fields(g, dom, names, vars, entry, fs.drop_last(), vs.drop_last(), goto_term(bl, term.range), nl + vars_made(fs.last().1))
                &&& evaluates(g, dom, names, vars, bl, fs.last().1, vs.last(), term, nl)
            }
    }
}

/// Every variable recorded in `vars1` is recorded alike in `vars2`.
pub open spec fn keeps_vars(
    vars1: Map<LocalVariableName, LocalVariableInfo>,
    vars2: Map<LocalVariableName, LocalVariableInfo>,
) -> bool {
    forall|k: LocalVariableName| #[trigger] vars1.contains_key(k) ==> vars2.contains_key(k) && vars2[k] == vars1[k]
}

/// Graph `g2` holds the same blocks as `g1` at every ID of `dom` that `g1` has.
pub open spec fn agrees_on(g1: Map<u64, BasicBlock>, g2: Map<u64, BasicBlock>, dom: Set<u64>) -> bool {
    forall|k: u64| #[trigger] dom.contains(k) && g1.contains_key(k) ==> g2.contains_key(k) && g2[k] == g1[k]
}

/// What a graph computes depends only on the blocks it uses: adding blocks, or
/// variables, or changing other blocks keeps it.
pub proof fn lemma_evaluates_frame(
    g1: Map<u64, BasicBlock>,
    g2: Map<u64, BasicBlock>,
    dom1: Set<u64>,
    dom2: Set<u64>,
    names: Map<Seq<char>, LocalVariableName>,
    vars1: Map<LocalVariableName, LocalVariableInfo>,
    vars2: Map<LocalVariableName, LocalVariableInfo>,
    entry: u64,
    e: Expression,
    v: LocalVariableName,
    term: Terminator,
    nl: int,
)
    requires
        evaluates(g1, dom1, names, vars1, entry, e, v, term, nl),
        dom1.subset_of(dom2),
        agrees_on(g1, g2, dom1),
        keeps_vars(vars1, vars2),
    ensures
        evaluates(g2, dom2, names, vars2, entry, e, v, term, nl),
    decreases e,
{
    let range = spec_expr_range(e);
    assert(g2.contains_key(entry) && g2[entry] == g1[entry]);
    match e.contents {
        ExpressionContents::Apply(l, r) => {
            let (br, bapp, vl, vr) = choose|br: u64, bapp: u64, vl: LocalVariableName, vr: LocalVariableName|
                #![trigger apply_block(g1, dom1, bapp, vl, vr, v, range, term), goto_term(br, range)]
                {
                    &&& evaluates(g1, dom1, names, vars1, entry, *l, vl, goto_term(br, range), nl + 1 + vars_made(*r))
                    &&& evaluates(g1, dom1, names, vars1, br, *r, vr, goto_term(bapp, range), nl + 1)
                    &&& apply_block(g1, dom1, bapp, vl, vr, v, range, term)
                };
            lemma_evaluates_frame(g1, g2, dom1, dom2, names, vars1, vars2, entry, *l, vl, goto_term(br, range), nl + 1 + vars_made(*r));
            lemma_evaluates_frame(g1, g2, dom1, dom2, names, vars1, vars2, br, *r, vr, goto_term(bapp, range), nl + 1);
            assert(g2[bapp] == g1[bapp]);
            assert(apply_block(g2, dom2, bapp, vl, vr, v, range, term));
        },
        ExpressionContents::Let { name, expr, .. } => {
            let x = names[name.name@];
            let (b2, vr) = choose|b2: u64, vr: LocalVariableName|
                #![trigger let_block(g1, dom1, b2, x, vr, v, range, term)]
                {
                    &&& evaluates(g1, dom1, names, vars1, entry, *expr, vr, goto_term(b2, range), nl)
                    &&& let_block(g1, dom1, b2, x, vr, v, range, term)
                };
            lemma_evaluates_frame(g1, g2, dom1, dom2, names, vars1, vars2, entry, *expr, vr, goto_term(b2, range), nl);
            assert(g2[b2] == g1[b2]);
            assert(let_block(g2, dom2, b2, x, vr, v, range, term));
        },
        ExpressionContents::Block { statements, final_semicolon, .. } => {
            if final_semicolon is None && statements@.len() > 0 {
                let (bf, vs) = choose|bf: u64, vs: Seq<LocalVariableName>|
                    #![trigger goto_term(bf, range), witness(vs)]
                    {
                        &&& witness(vs)
                        &&& evaluates_seq(g1, dom1, names, vars1, entry, statements@.drop_last(), vs, goto_term(bf, range), nl + vars_made(statements@.last()))
                        &&& evaluates(g1, dom1, names, vars1, bf, statements@.last(), v, term, nl)
                    };
                lemma_evaluates_seq_frame(g1, g2, dom1, dom2, names, vars1, vars2, entry, statements@.drop_last(), vs, goto_term(bf, range), nl + vars_made(statements@.last()));
                lemma_evaluates_frame(g1, g2, dom1, dom2, names, vars1, vars2, bf, statements@.last(), v, term, nl);
            } else {
                let (bi, vs) = choose|bi: u64, vs: Seq<LocalVariableName>|
                    #![trigger constant_block(g1, dom1, bi, v, ImmediateValue::Unit, range, term), witness(vs)]
                    {
                        &&& witness(vs)
                        &&& evaluates_seq(g1, dom1, names, vars1, entry, statements@, vs, goto_term(bi, range), nl + 1)
                        &&& constant_block(g1, dom1, bi, v, ImmediateValue::Unit, range, term)
                    };
                lemma_evaluates_seq_frame(g1, g2, dom1, dom2, names, vars1, vars2, entry, statements@, vs, goto_term(bi, range), nl + 1);
                assert(g2[bi] == g1[bi]);
                assert(constant_block(g2, dom2, bi, v, ImmediateValue::Unit, range, term));
            }
        },
        ExpressionContents::ConstructData { fields, .. } => {
            let (bc, vs) = choose|bc: u64, vs: Seq<LocalVariableName>|
                #![trigger construct_block(g1, dom1, bc, v, e.ty, fields@, vs, range, term)]
                {
                    &&& evaluates_fields(g1, dom1, names, vars1, entry, fields@, vs, goto_term(bc, range), nl + 1)
                    &&& construct_block(g1, dom1, bc, v, e.ty, fields@, vs, range, term)
                };
            lemma_evaluates_fields_frame(g1, g2, dom1, dom2, names, vars1, vars2, entry, fields@, vs, goto_term(bc, range), nl + 1);
            assert(g2[bc] == g1[bc]);
            assert(construct_block(g2, dom2, bc, v, e.ty, fields@, vs, range, term));
        },
        _ => {},
    }
}

/// The frame property of `evaluates_seq`.
pub proof fn lemma_evaluates_seq_frame(
    g1: Map<u64, BasicBlock>,
    g2: Map<u64, BasicBlock>,
    dom1: Set<u64>,
    dom2: Set<u64>,
    names: Map<Seq<char>, LocalVariableName>,
    vars1: Map<LocalVariableName, LocalVariableInfo>,
    vars2: Map<LocalVariableName, LocalVariableInfo>,
    entry: u64,
    es: Seq<Expression>,
    vs: Seq<LocalVariableName>,
    term: Terminator,
    nl: int,
)
    requires
        evaluates_seq(g1, dom1, names, vars1, entry, es, vs, term, nl),
        dom1.subset_of(dom2),
        agrees_on(g1, g2, dom1),
        keeps_vars(vars1, vars2),
    ensures
        evaluates_seq(g2, dom2, names, vars2, entry, es, vs, term, nl),
    decreases es,
{
    if es.len() == 0 {
        assert(g2[entry] == g1[entry]);
    } else if es.len() == 1 {
        lemma_evaluates_frame(g1, g2, dom1, dom2, names, vars1, vars2, entry, es[0], vs[0], term, nl);
    } else {
        let bl = choose|bl: u64|
            #![trigger goto_term(bl, term.range)]
            {
                &&& evaluates_seq(g1, dom1, names, vars1, entry, es.drop_last(), vs.drop_last(), goto_term(bl, term.range), nl + vars_made(es.last()))
                &&& evaluates(g1, dom1, names, vars1, bl, es.last(), vs.last(), term, nl)
            };
        lemma_evaluates_seq_frame(g1, g2, dom1, dom2, names, vars1, vars2, entry, es.drop_last(), vs.drop_last(), goto_term(bl, term.range), nl + vars_made(es.last()));
        lemma_evaluates_frame(g1, g2, dom1, dom2, names, vars1, vars2, bl, es.last(), vs.last(), term, nl);
    }
}

/// The frame property of `evaluates_fields`.
pub proof fn lemma_evaluates_fields_frame(
    g1: Map<u64, BasicBlock>,
    g2: Map<u64, BasicBlock>,
    dom1: Set<u64>,
    dom2: Set<u64>,
    names: Map<Seq<char>, LocalVariableName>,
    vars1: Map<LocalVariableName, LocalVariableInfo>,
    vars2: Map<LocalVariableName, LocalVariableInfo>,
    entry: u64,
    fs: Seq<(crate::types::NameP, Expression)>,
    vs: Seq<LocalVariableName>,
    term: Terminator,
    nl: int,
)
    requires
        evaluates_fields(g1, dom1, names, vars1, entry, fs, vs, term, nl),
        dom1.subset_of(dom2),
        agrees_on(g1, g2, dom1),
        keeps_vars(vars1, vars2),
    ensures
        evaluates_fields(g2, dom2, names, vars2, entry, fs, vs, term, nl),
    decreases fs,
{
    if fs.len() == 0 {
        assert(g2[entry] == g1[entry]);
    } else if fs.len() == 1 {
        lemma_evaluates_frame(g1, g2, dom1, dom2, names, vars1, vars2, entry, fs[0].1, vs[0], term, nl);
    } else {
        let bl = choose|bl: u64|
            #![trigger goto_term(bl, term.range)]
            {
                &&& evaluates_fields(g1, dom1, names, vars1, entry, fs.drop_last(), vs.drop_last(), goto_term(bl, term.range), nl + vars_made(fs.last().1))
                &&& evaluates(g1, dom1, names, vars1, bl, fs.last().1, vs.last(), term, nl)
            };
        lemma_evaluates_fields_frame(g1, g2, dom1, dom2, names, vars1, vars2, entry, fs.drop_last(), vs.drop_last(), goto_term(bl, term.range), nl + vars_made(fs.last().1));
        lemma_evaluates_frame(g1, g2, dom1, dom2, names, vars1, vars2, bl, fs.last().1, vs.last(), term, nl);
    }
}


/// Every name that the translation of `e` looks up is in `names`, and `e` holds no
/// borrow or copy, which the translation into control flow graphs does not handle.
pub open spec fn names_bound(e: Expression, names: Set<Seq<char>>) -> bool
    decreases e,
{
    match e.contents {
        ExpressionContents::Argument(n) => names.contains(n.name@),
        ExpressionContents::Local(n) => names.contains(n.name@),
        ExpressionContents::Apply(l, r) => names_bound(*l, names) && names_bound(*r, names),
        ExpressionContents::Let { name, expr, .. } => names.contains(name.name@) && names_bound(
            *expr,
            names,
        ),
        ExpressionContents::Block { statements, .. } => forall|i: int|
            0 <= i < statements@.len() ==> names_bound(#[trigger] statements@[i], names),
        ExpressionContents::ConstructData { fields, .. } => forall|i: int|
            0 <= i < fields@.len() ==> names_bound(#[trigger] fields@[i].1, names),
        ExpressionContents::Borrow { .. } => false,
        ExpressionContents::Copy { .. } => false,
        _ => true,
    }
}

proof fn lemma_exprs_size_elem(s: Seq<Expression>, i: int)
    requires
        0 <= i < s.len(),
    ensures
        expr_size(s[i]) < exprs_size(s),
    decreases s.len(),
{
    if i < s.len() - 1 {
        lemma_exprs_size_elem(s.drop_last(), i);
        assert(s.drop_last()[i] == s[i]);
    }
}

proof fn lemma_exprs_size_take(s: Seq<Expression>, k: int)
    requires
        0 < k <= s.len(),
    ensures
        exprs_size(s.take(k)) == exprs_size(s.take(k - 1)) + expr_size(s[k - 1]) + 1,
{
    assert(s.take(k).drop_last() =~= s.take(k - 1));
}

proof fn lemma_fields_exprs(fs: Seq<(crate::types::NameP, Expression)>, es: Seq<Expression>)
    requires
        fs.len() == es.len(),
        forall|i: int| 0 <= i < fs.len() ==> #[trigger] es[i] == fs[i].1,
    ensures
        exprs_size(es) == fields_size(fs),
    decreases fs.len(),
{
    if fs.len() > 0 {
        lemma_fields_exprs(fs.drop_last(), es.drop_last());
    }
}

/// Computing `e` and then the expressions `s` is computing the sequence `[e] + s`.
proof fn lemma_seq_cons(
    g: Map<u64, BasicBlock>,
    dom: Set<u64>,
    names: Map<Seq<char>, LocalVariableName>,
    vars: Map<LocalVariableName, LocalVariableInfo>,
    b_new: u64,
    e: Expression,
    v: LocalVariableName,
    b: u64,
    s: Seq<Expression>,
    vs: Seq<LocalVariableName>,
    term: Terminator,
    nl: int,
)
    requires
        s.len() >= 1,
        evaluates(g, dom, names, vars, b_new, e, v, goto_term(b, term.range), nl + sum_vars(s)),
        evaluates_seq(g, dom, names, vars, b, s, vs, term, nl),
    ensures
        evaluates_seq(g, dom, names, vars, b_new, seq![e] + s, seq![v] + vs, term, nl),
    decreases s.len(),
{
    let es = seq![e] + s;
    let ws = seq![v] + vs;
    lemma_sum_vars_last(s);
    if s.len() == 1 {
        assert(es.drop_last() =~= seq![e]);
        assert(ws.drop_last() =~= seq![v]);
        assert(s.drop_last() =~= Seq::<Expression>::empty());
        assert(evaluates_seq(g, dom, names, vars, b_new, es.drop_last(), ws.drop_last(), goto_term(b, term.range), nl + vars_made(es.last())));
        assert(es.last() == s[0]);
        assert(ws.last() == vs[0]);
        assert(goto_term(b, term.range) == goto_term(b, term.range));
    } else {
        let bl = choose|bl: u64|
            #![trigger goto_term(bl, term.range)]
            {
                &&& evaluates_seq(g, dom, names, vars, b, s.drop_last(), vs.drop_last(), goto_term(bl, term.range), nl + vars_made(s.last()))
                &&& evaluates(g, dom, names, vars, bl, s.last(), vs.last(), term, nl)
            };
        lemma_seq_cons(g, dom, names, vars, b_new, e, v, b, s.drop_last(), vs.drop_last(), goto_term(bl, term.range), nl + vars_made(s.last()));
        assert(es.drop_last() =~= seq![e] + s.drop_last());
        assert(ws.drop_last() =~= seq![v] + vs.drop_last());
        assert(es.last() == s.last());
        assert(ws.last() == vs.last());
    }
}

/// Computing the field expressions of a constructor is computing them as a sequence.
proof fn lemma_seq_fields(
    g: Map<u64, BasicBlock>,
    dom: Set<u64>,
    names: Map<Seq<char>, LocalVariableName>,
    vars: Map<LocalVariableName, LocalVariableInfo>,
    entry: u64,
    fs: Seq<(crate::types::NameP, Expression)>,
    es: Seq<Expression>,
    vs: Seq<LocalVariableName>,
    term: Terminator,
    nl: int,
)
    requires
        fs.len() == es.len(),
        forall|i: int| 0 <= i < fs.len() ==> #[trigger] es[i] == fs[i].1,
        evaluates_seq(g, dom, names, vars, entry, es, vs, term, nl),
    ensures
        evaluates_fields(g, dom, names, vars, entry, fs, vs, term, nl),
    decreases fs.len(),
{
    if fs.len() == 1 {
        assert(es[0] == fs[0].1);
    } else if fs.len() > 1 {
        let bl = choose|bl: u64|
            #![trigger goto_term(bl, term.range)]
            {
                &&& evaluates_seq(g, dom, names, vars, entry, es.drop_last(), vs.drop_last(), goto_term(bl, term.range), nl + vars_made(es.last()))
                &&& evaluates(g, dom, names, vars, bl, es.last(), vs.last(), term, nl)
            };
        lemma_seq_fields(g, dom, names, vars, entry, fs.drop_last(), es.drop_last(), vs.drop_last(), goto_term(bl, term.range), nl + vars_made(es.last()));
        assert(es.last() == fs.last().1);
    }
}

proof fn lemma_seq_entry(
    g: Map<u64, BasicBlock>,
    dom: Set<u64>,
    names: Map<Seq<char>, LocalVariableName>,
    vars: Map<LocalVariableName, LocalVariableInfo>,
    entry: u64,
    es: Seq<Expression>,
    vs: Seq<LocalVariableName>,
    term: Terminator,
    nl: int,
)
    requires
        evaluates_seq(g, dom, names, vars, entry, es, vs, term, nl),
    ensures
        has_block(g, dom, entry),
    decreases es.len(),
{
    if es.len() == 1 {
        assert(evaluates(g, dom, names, vars, entry, es[0], vs[0], term, nl));
    }
    if es.len() > 1 {
        let bl = choose|bl: u64|
            #![trigger goto_term(bl, term.range)]
            {
                &&& evaluates_seq(g, dom, names, vars, entry, es.drop_last(), vs.drop_last(), goto_term(bl, term.range), nl + vars_made(es.last()))
                &&& evaluates(g, dom, names, vars, bl, es.last(), vs.last(), term, nl)
            };
        lemma_seq_entry(g, dom, names, vars, entry, es.drop_last(), vs.drop_last(), goto_term(bl, term.range), nl + vars_made(es.last()));
    }
}

proof fn lemma_fields_entry(
    g: Map<u64, BasicBlock>,
    dom: Set<u64>,
    names: Map<Seq<char>, LocalVariableName>,
    vars: Map<LocalVariableName, LocalVariableInfo>,
    entry: u64,
    fs: Seq<(crate::types::NameP, Expression)>,
    vs: Seq<LocalVariableName>,
    term: Terminator,
    nl: int,
)
    requires
        evaluates_fields(g, dom, names, vars, entry, fs, vs, term, nl),
    ensures
        has_block(g, dom, entry),
    decreases fs.len(),
{
    if fs.len() == 1 {
        assert(evaluates(g, dom, names, vars, entry, fs[0].1, vs[0], term, nl));
    }
    if fs.len() > 1 {
        let bl = choose|bl: u64|
            #![trigger goto_term(bl, term.range)]
            {
                &&& evaluates_fields(g, dom, names, vars, entry, fs.drop_last(), vs.drop_last(), goto_term(bl, term.range), nl + vars_made(fs.last().1))
                &&& evaluates(g, dom, names, vars, bl, fs.last().1, vs.last(), term, nl)
            };
        lemma_fields_entry(g, dom, names, vars, entry, fs.drop_last(), vs.drop_last(), goto_term(bl, term.range), nl + vars_made(fs.last().1));
    }
}

/// While a definition is translated, the log of its variables, its names and its graph.
struct DefinitionTranslationContext {
    next_local_variable_id: LocalVariableId,
    /// Retrieves the unique name of a named local variable.
    local_name_map: NameMap,
    pub local_variable_names: LocalVariableTable,
    pub control_flow_graph: ControlFlowGraph,
}

impl DefinitionTranslationContext {
    pub closed spec fn g(&self) -> Map<u64, BasicBlock> {
        self.control_flow_graph@
    }

    pub closed spec fn vars(&self) -> Map<LocalVariableName, LocalVariableInfo> {
        self.local_variable_names@
    }

    pub closed spec fn names(&self) -> Map<Seq<char>, LocalVariableName> {
        self.local_name_map@
    }

    pub closed spec fn next_block(&self) -> u64 {
        self.control_flow_graph.next_block()
    }

    pub closed spec fn next_local(&self) -> u64 {
        self.next_local_variable_id.0
    }

    /// Block and variable IDs in use are below the next ones to be given out.
    pub closed spec fn wf(&self) -> bool {
        &&& self.control_flow_graph.ids_fresh()
        &&& forall|l: LocalVariableId| #[trigger]
            self.vars().contains_key(LocalVariableName::Local(l)) ==> l.0 < self.next_local()
    }

    /// Creates a new local variable with the given information; if it has a name,
    /// the name now refers to it.
    pub fn new_local_variable(&mut self, info: LocalVariableInfo) -> (res: LocalVariableId)
        requires
            old(self).wf(),
            old(self).next_local() < u64::MAX,
        ensures
            final(self).wf(),
            res.0 == old(self).next_local(),
            final(self).next_local() == old(self).next_local() + 1,
            !old(self).vars().contains_key(LocalVariableName::Local(res)),
            final(self).vars() == old(self).vars().insert(LocalVariableName::Local(res), info),
            final(self).names() == (match info.name {
                Some(n) => old(self).names().insert(n@, LocalVariableName::Local(res)),
                None => old(self).names(),
            }),
            final(self).g() == old(self).g(),
            final(self).next_block() == old(self).next_block(),
    {
        let id = self.next_local_variable_id;
        self.next_local_variable_id = LocalVariableId(id.0 + 1);
        match &info.name {
            Some(name) => {
                self.local_name_map.insert(name.clone(), LocalVariableName::Local(id));
            },
            None => {},
        }
        self.local_variable_names.insert(LocalVariableName::Local(id), info);
        assert(forall|l: LocalVariableId| #[trigger]
            old(self).vars().contains_key(LocalVariableName::Local(l)) ==> l.0 < old(self).next_local());
        assert forall|l: LocalVariableId| #[trigger]
            self.vars().contains_key(LocalVariableName::Local(l)) implies l.0 < self.next_local() by {
            if l != id {
                assert(old(self).vars().contains_key(LocalVariableName::Local(l)));
            }
        }
        id
    }

    /// The variable that the given name refers to.
    pub fn get_name_of_local(&self, local: &String) -> (res: LocalVariableName)
        requires
            self.names().contains_key(local@),
        ensures
            res == self.names()[local@],
    {
        match self.local_name_map.get(local) {
            Some(v) => v,
            None => {
                assert(false);
                LocalVariableName::Argument(ArgumentIndex(0))
            },
        }
    }

    /// Adds a block.
    fn new_block(&mut self, block: BasicBlock) -> (res: BasicBlockId)
        requires
            old(self).wf(),
            old(self).next_block() < u64::MAX,
        ensures
            final(self).wf(),
            res.0 == old(self).next_block(),
            !old(self).g().contains_key(res.0),
            final(self).g() == old(self).g().insert(res.0, block),
            final(self).next_block() == old(self).next_block() + 1,
            final(self).vars() == old(self).vars(),
            final(self).names() == old(self).names(),
            final(self).next_local() == old(self).next_local(),
    {
        let res = self.control_flow_graph.new_basic_block(block);
        assert(self.control_flow_graph.ids_fresh());
        assert(self.vars() == old(self).vars());
        assert(self.next_local() == old(self).next_local());
        assert(forall|l: LocalVariableId| #[trigger]
            old(self).vars().contains_key(LocalVariableName::Local(l)) ==> l.0 < old(self).next_local());
        assert(forall|l: LocalVariableId| #[trigger]
            self.vars().contains_key(LocalVariableName::Local(l)) ==> l.0 < self.next_local());
        res
    }

    /// Appends a statement to a block.
    fn push_statement(&mut self, id: BasicBlockId, statement: Statement)
        requires
            old(self).wf(),
            old(self).g().contains_key(id.0),
        ensures
            final(self).wf(),
            final(self).g().dom() == old(self).g().dom(),
            forall|k: u64| k != id.0 && old(self).g().contains_key(k) ==> #[trigger] final(self).g()[k] == old(self).g()[k],
            final(self).g()[id.0].statements@ == old(self).g()[id.0].statements@.push(statement),
            final(self).g()[id.0].terminator == old(self).g()[id.0].terminator,
            final(self).next_block() == old(self).next_block(),
            final(self).vars() == old(self).vars(),
            final(self).names() == old(self).names(),
            final(self).next_local() == old(self).next_local(),
    {
        let ghost g0 = self.g();
        self.control_flow_graph.push_statement(id, statement);
        assert(self.vars() == old(self).vars());
        assert(forall|l: LocalVariableId| #[trigger]
            old(self).vars().contains_key(LocalVariableName::Local(l)) ==> l.0 < old(self).next_local());
    }
}

/// How many blocks the translation of `e` creates.
pub open spec fn blocks_made(e: Expression) -> nat
    decreases e,
{
    match e.contents {
        ExpressionContents::Apply(l, r) => 1 + blocks_made(*l) + blocks_made(*r),
        ExpressionContents::Let { expr, .. } => 1 + blocks_made(*expr),
        ExpressionContents::Block { statements, final_semicolon, .. } => if final_semicolon is None
            && statements@.len() > 0 {
            blocks_made(statements@.last()) + (if statements@.len() == 1 {
                1
            } else {
                sum_blocks(statements@.drop_last())
            })
        } else if statements@.len() == 0 {
            2
        } else {
            1 + sum_blocks(statements@)
        },
        ExpressionContents::ConstructData { fields, .. } => 1 + (if fields@.len() == 0 {
            1
        } else {
            sum_field_blocks(fields@)
        }),
        _ => 1,
    }
}

/// How many blocks the translations of the field expressions create together.
pub open spec fn sum_field_blocks(fs: Seq<(crate::types::NameP, Expression)>) -> nat
    decreases fs,
{
    if fs.len() == 0 {
        0
    } else {
        blocks_made(fs[0].1) + sum_field_blocks(fs.drop_first())
    }
}

/// How many variables the translations of the field expressions create together.
pub open spec fn sum_field_vars(fs: Seq<(crate::types::NameP, Expression)>) -> nat
    decreases fs,
{
    if fs.len() == 0 {
        0
    } else {
        vars_made(fs[0].1) + sum_field_vars(fs.drop_first())
    }
}

proof fn lemma_field_sums(fs: Seq<(crate::types::NameP, Expression)>, es: Seq<Expression>)
    requires
        fs.len() == es.len(),
        forall|i: int| 0 <= i < fs.len() ==> #[trigger] es[i] == fs[i].1,
    ensures
        sum_blocks(es) == sum_field_blocks(fs),
        sum_vars(es) == sum_field_vars(fs),
        forall|nb: int, nl: int| #[trigger] chain_entry(es, nb, nl) == chain_field_entry(fs, nb, nl),
    decreases fs.len(),
{
    if fs.len() > 0 {
        assert(es[0] == fs[0].1);
        assert forall|i: int| 0 <= i < fs.drop_first().len() implies #[trigger] es.drop_first()[i] == fs.drop_first()[i].1 by {
            assert(es[i + 1] == fs[i + 1].1);
        }
        lemma_field_sums(fs.drop_first(), es.drop_first());
    }
}

proof fn lemma_field_paths(fs: Seq<(crate::types::NameP, Expression)>, es: Seq<Expression>, nb: int, nl: int)
    requires
        fs.len() == es.len(),
        forall|i: int| 0 <= i < fs.len() ==> #[trigger] es[i] == fs[i].1,
    ensures
        chain_path(es, nb, nl) == chain_field_path(fs, nb, nl),
    decreases fs.len(),
{
    if fs.len() > 1 {
        assert(es[0] == fs[0].1);
        assert forall|i: int| 0 <= i < fs.drop_first().len() implies #[trigger] es.drop_first()[i] == fs.drop_first()[i].1 by {
            assert(es[i + 1] == fs[i + 1].1);
        }
        lemma_field_sums(fs.drop_first(), es.drop_first());
        lemma_field_paths(fs.drop_first(), es.drop_first(), nb, nl);
    } else if fs.len() == 1 {
        assert(es[0] == fs[0].1);
    }
}

proof fn lemma_sum_vars_last(s: Seq<Expression>)
    requires
        s.len() > 0,
    ensures
        sum_vars(s) == sum_vars(s.drop_last()) + vars_made(s.last()),
    decreases s.len(),
{
    if s.len() > 1 {
        lemma_sum_vars_last(s.drop_first());
        assert(s.drop_first().drop_last() =~= s.drop_last().drop_first());
        assert(s.drop_last()[0] == s[0]);
        assert(s.drop_first().last() == s.last());
        assert(sum_vars(s.drop_last()) == vars_made(s[0]) + sum_vars(s.drop_last().drop_first()));
    } else {
        assert(s.drop_first().len() == 0);
        assert(s.drop_last().len() == 0);
        assert(sum_vars(s.drop_first()) == 0);
        assert(sum_vars(s.drop_last()) == 0);
        assert(s.last() == s[0]);
    }
}

/// How many blocks the translations of `es` create together.
pub open spec fn sum_blocks(es: Seq<Expression>) -> nat
    decreases es,
{
    if es.len() == 0 {
        0
    } else {
        blocks_made(es[0]) + sum_blocks(es.drop_first())
    }
}

/// How many blocks a chain of `es` creates: those of the expressions, or one empty
/// block when there are none.
pub open spec fn chain_blocks(es: Seq<Expression>) -> nat {
    if es.len() == 0 {
        1
    } else {
        sum_blocks(es)
    }
}

/// How many variables the translation of `e` creates.
pub open spec fn vars_made(e: Expression) -> nat
    decreases e,
{
    match e.contents {
        ExpressionContents::Argument(_) => 0,
        ExpressionContents::Local(_) => 0,
        ExpressionContents::Apply(l, r) => 1 + vars_made(*l) + vars_made(*r),
        ExpressionContents::Let { expr, .. } => 1 + vars_made(*expr),
        ExpressionContents::Block { statements, final_semicolon, .. } => if final_semicolon is None
            && statements@.len() > 0 {
            vars_made(statements@.last()) + sum_vars(statements@.drop_last())
        } else {
            1 + sum_vars(statements@)
        },
        ExpressionContents::ConstructData { fields, .. } => 1 + sum_field_vars(fields@),
        _ => 1,
    }
}

/// How many variables the translations of `es` create together.
pub open spec fn sum_vars(es: Seq<Expression>) -> nat
    decreases es,
{
    if es.len() == 0 {
        0
    } else {
        vars_made(es[0]) + sum_vars(es.drop_first())
    }
}

/// The blocks added between two states are exactly those numbered from the first
/// free ID of the first state to that of the second, and every local numbered in
/// between is recorded.
spec fn filled(c0: DefinitionTranslationContext, c1: DefinitionTranslationContext) -> bool {
    &&& forall|k: u64| #[trigger] added(c0, c1).contains(k) <==> c0.next_block() <= k < c1.next_block()
    &&& forall|n: u64| c0.next_local() <= n < c1.next_local()
        ==> #[trigger] c1.vars().contains_key(LocalVariableName::Local(LocalVariableId(n)))
}

/// The variable that holds the value of `e` when its translation starts with `nl` as
/// the first free local ID: the named variable for an argument or local, the value of
/// the last statement for a block that ends without a semicolon, and otherwise the
/// new local it creates (for a `let`, after those of its value).
pub open spec fn result_var(e: Expression, nl: int, names: Map<Seq<char>, LocalVariableName>) -> LocalVariableName
    decreases e,
{
    match e.contents {
        ExpressionContents::Argument(n) => names[n.name@],
        ExpressionContents::Local(n) => names[n.name@],
        ExpressionContents::Let { expr, .. } => LocalVariableName::Local(LocalVariableId((nl + vars_made(*expr)) as u64)),
        ExpressionContents::Block { statements, final_semicolon, .. } => if final_semicolon is None
            && statements@.len() > 0 {
            result_var(statements@.last(), nl, names)
        } else {
            LocalVariableName::Local(LocalVariableId(nl as u64))
        },
        _ => LocalVariableName::Local(LocalVariableId(nl as u64)),
    }
}

/// The block that the translation of `e` is entered at, when it starts with `nb` and
/// `nl` as the first free block and local IDs. Each expression makes its own block
/// first, then translates its parts from the last to the first, so the entry is that
/// of its first part.
pub open spec fn result_entry(e: Expression, nb: int, nl: int) -> int
    decreases e,
{
    match e.contents {
        ExpressionContents::Apply(l, r) => result_entry(*l, nb + 1 + blocks_made(*r), nl + 1 + vars_made(*r)),
        ExpressionContents::Let { expr, .. } => result_entry(*expr, nb + 1, nl),
        ExpressionContents::Block { statements, final_semicolon, .. } => if final_semicolon is None
            && statements@.len() > 0 {
            chain_entry(
                statements@.drop_last(),
                nb + blocks_made(statements@.last()),
                nl + vars_made(statements@.last()),
            )
        } else {
            chain_entry(statements@, nb + 1, nl + 1)
        },
        ExpressionContents::ConstructData { fields, .. } => chain_field_entry(fields@, nb + 1, nl + 1),
        _ => nb,
    }
}

/// The block a chain of `es` is entered at: the entry of the first expression, which
/// is translated last; an empty chain is one new empty block.
pub open spec fn chain_entry(es: Seq<Expression>, nb: int, nl: int) -> int
    decreases es,
{
    if es.len() == 0 {
        nb
    } else {
        result_entry(es[0], nb + sum_blocks(es.drop_first()), nl + sum_vars(es.drop_first()))
    }
}

/// As `chain_entry`, for the expressions of the fields of a constructor.
pub open spec fn chain_field_entry(fs: Seq<(crate::types::NameP, Expression)>, nb: int, nl: int) -> int
    decreases fs,
{
    if fs.len() == 0 {
        nb
    } else {
        result_entry(fs[0].1, nb + sum_field_blocks(fs.drop_first()), nl + sum_field_vars(fs.drop_first()))
    }
}

/// The blocks that the translation of `e` creates, when it starts with `nb` and `nl`
/// as the first free block and local IDs, listed in the order in which they run: the
/// blocks of its parts from the first part to the last, then its own block.
pub open spec fn block_path(e: Expression, nb: int, nl: int) -> Seq<int>
    decreases e,
{
    match e.contents {
        ExpressionContents::Apply(l, r) => block_path(*l, nb + 1 + blocks_made(*r), nl + 1 + vars_made(*r))
            + block_path(*r, nb + 1, nl + 1) + seq![nb],
        ExpressionContents::Let { expr, .. } => block_path(*expr, nb + 1, nl) + seq![nb],
        ExpressionContents::Block { statements, final_semicolon, .. } => if final_semicolon is None
            && statements@.len() > 0 {
            chain_path(
                statements@.drop_last(),
                nb + blocks_made(statements@.last()),
                nl + vars_made(statements@.last()),
            ) + block_path(statements@.last(), nb, nl)
        } else {
            chain_path(statements@, nb + 1, nl + 1) + seq![nb]
        },
        ExpressionContents::ConstructData { fields, .. } => chain_field_path(fields@, nb + 1, nl + 1) + seq![nb],
        _ => seq![nb],
    }
}

/// The blocks a chain of `es` creates, in the order in which they run: those of each
/// expression in turn; an empty chain is one empty block.
pub open spec fn chain_path(es: Seq<Expression>, nb: int, nl: int) -> Seq<int>
    decreases es,
{
    if es.len() == 0 {
        seq![nb]
    } else if es.len() == 1 {
        block_path(es[0], nb, nl)
    } else {
        block_path(es[0], nb + sum_blocks(es.drop_first()), nl + sum_vars(es.drop_first()))
            + chain_path(es.drop_first(), nb, nl)
    }
}

/// As `chain_path`, for the expressions of the fields of a constructor.
pub open spec fn chain_field_path(fs: Seq<(crate::types::NameP, Expression)>, nb: int, nl: int) -> Seq<int>
    decreases fs,
{
    if fs.len() == 0 {
        seq![nb]
    } else if fs.len() == 1 {
        block_path(fs[0].1, nb, nl)
    } else {
        block_path(fs[0].1, nb + sum_field_blocks(fs.drop_first()), nl + sum_field_vars(fs.drop_first()))
            + chain_field_path(fs.drop_first(), nb, nl)
    }
}

/// The blocks `p` run straight through: each is in the graph and jumps to the next,
/// and the last leaves through `term`.
pub open spec fn straight_run(g: Map<u64, BasicBlock>, p: Seq<int>, term: Terminator) -> bool {
    &&& p.len() > 0
    &&& forall|i: int| 0 <= i < p.len() ==> 0 <= #[trigger] p[i] <= u64::MAX && g.contains_key(p[i] as u64)
    &&& forall|i: int| 0 <= i < p.len() - 1 ==> #[trigger] g[p[i] as u64].terminator.kind
        == TerminatorKind::Goto(BasicBlockId(p[i + 1] as u64))
    &&& g[p.last() as u64].terminator == term
}

/// `p` lists each of the numbers from `a` to `a + n` (excluded) once.
pub open spec fn lists_range(p: Seq<int>, a: int, n: int) -> bool {
    &&& p.len() == n
    &&& forall|i: int| 0 <= i < p.len() ==> a <= #[trigger] p[i] < a + n
    &&& forall|i: int, j: int| 0 <= i < j < p.len() ==> p[i] != p[j]
    &&& forall|k: int| a <= k < a + n ==> #[trigger] p.contains(k)
}

proof fn lemma_lists_concat(p1: Seq<int>, a1: int, n1: int, p2: Seq<int>, a2: int, n2: int)
    requires
        lists_range(p1, a1, n1),
        lists_range(p2, a2, n2),
        a2 == a1 + n1 || a1 == a2 + n2,
    ensures
        lists_range(p1 + p2, if a2 == a1 + n1 { a1 } else { a2 }, n1 + n2),
{
    let p = p1 + p2;
    let a = if a2 == a1 + n1 { a1 } else { a2 };
    assert forall|i: int| 0 <= i < p.len() implies a <= #[trigger] p[i] < a + n1 + n2 by {
        if i < p1.len() {
            assert(p[i] == p1[i]);
        } else {
            assert(p[i] == p2[i - p1.len()]);
        }
    }
    assert forall|i: int, j: int| 0 <= i < j < p.len() implies p[i] != p[j] by {
        if i < p1.len() {
            assert(p[i] == p1[i]);
        } else {
            assert(p[i] == p2[i - p1.len()]);
        }
        if j < p1.len() {
            assert(p[j] == p1[j]);
        } else {
            assert(p[j] == p2[j - p1.len()]);
        }
    }
    assert forall|k: int| a <= k < a + n1 + n2 implies #[trigger] p.contains(k) by {
        if a1 <= k < a1 + n1 {
            assert(p1.contains(k));
            let i = choose|i: int| 0 <= i < p1.len() && p1[i] == k;
            assert(p[i] == k);
        } else {
            assert(p2.contains(k));
            let i = choose|i: int| 0 <= i < p2.len() && p2[i] == k;
            assert(p[p1.len() + i] == k);
        }
    }
}

proof fn lemma_lists_one(nb: int)
    ensures
        lists_range(seq![nb], nb, 1),
{
    assert(seq![nb][0] == nb);
    assert forall|k: int| nb <= k < nb + 1 implies #[trigger] seq![nb].contains(k) by {
        assert(seq![nb][0] == k);
    }
}

/// The blocks of `block_path` are those the translation creates, each once, and the
/// first is the one it is entered at.
proof fn lemma_path_shape(e: Expression, nb: int, nl: int)
    ensures
        blocks_made(e) >= 1,
        lists_range(block_path(e, nb, nl), nb, blocks_made(e) as int),
        block_path(e, nb, nl)[0] == result_entry(e, nb, nl),
    decreases e,
{
    lemma_lists_one(nb);
    match e.contents {
        ExpressionContents::Apply(l, r) => {
            let bl = blocks_made(*l) as int;
            let br = blocks_made(*r) as int;
            lemma_path_shape(*l, nb + 1 + br, nl + 1 + vars_made(*r));
            lemma_path_shape(*r, nb + 1, nl + 1);
            let pl = block_path(*l, nb + 1 + br, nl + 1 + vars_made(*r));
            let pr = block_path(*r, nb + 1, nl + 1);
            lemma_lists_concat(pl, nb + 1 + br, bl, pr, nb + 1, br);
            lemma_lists_concat(pl + pr, nb + 1, bl + br, seq![nb], nb, 1);
            assert((pl + pr + seq![nb])[0] == pl[0]);
        },
        ExpressionContents::Let { expr, .. } => {
            lemma_path_shape(*expr, nb + 1, nl);
            let px = block_path(*expr, nb + 1, nl);
            lemma_lists_concat(px, nb + 1, blocks_made(*expr) as int, seq![nb], nb, 1);
            assert((px + seq![nb])[0] == px[0]);
        },
        ExpressionContents::Block { statements, final_semicolon, .. } => {
            let s = statements@;
            if final_semicolon is None && s.len() > 0 {
                let bl = blocks_made(s.last()) as int;
                lemma_path_shape(s.last(), nb, nl);
                lemma_chain_path_shape(s.drop_last(), nb + bl, nl + vars_made(s.last()));
                let pc = chain_path(s.drop_last(), nb + bl, nl + vars_made(s.last()));
                let pl = block_path(s.last(), nb, nl);
                lemma_lists_concat(pc, nb + bl, chain_blocks(s.drop_last()) as int, pl, nb, bl);
                assert((pc + pl)[0] == pc[0]);
            } else {
                lemma_chain_path_shape(s, nb + 1, nl + 1);
                let pc = chain_path(s, nb + 1, nl + 1);
                lemma_lists_concat(pc, nb + 1, chain_blocks(s) as int, seq![nb], nb, 1);
                assert((pc + seq![nb])[0] == pc[0]);
            }
        },
        ExpressionContents::ConstructData { fields, .. } => {
            lemma_field_path_shape(fields@, nb + 1, nl + 1);
            let pc = chain_field_path(fields@, nb + 1, nl + 1);
            let n = if fields@.len() == 0 { 1 } else { sum_field_blocks(fields@) as int };
            lemma_lists_concat(pc, nb + 1, n, seq![nb], nb, 1);
            assert((pc + seq![nb])[0] == pc[0]);
        },
        _ => {},
    }
}

proof fn lemma_chain_path_shape(es: Seq<Expression>, nb: int, nl: int)
    ensures
        lists_range(chain_path(es, nb, nl), nb, chain_blocks(es) as int),
        chain_path(es, nb, nl)[0] == chain_entry(es, nb, nl),
        es.len() > 0 ==> sum_blocks(es) >= 1,
    decreases es,
{
    if es.len() == 0 {
        lemma_lists_one(nb);
    } else if es.len() == 1 {
        lemma_path_shape(es[0], nb, nl);
        assert(es.drop_first().len() == 0);
        assert(sum_blocks(es.drop_first()) == 0);
        assert(sum_blocks(es) == blocks_made(es[0]));
    } else {
        let rest = es.drop_first();
        let b0 = blocks_made(es[0]) as int;
        let br = sum_blocks(rest) as int;
        lemma_path_shape(es[0], nb + br, nl + sum_vars(rest));
        lemma_chain_path_shape(rest, nb, nl);
        let p0 = block_path(es[0], nb + br, nl + sum_vars(rest));
        let pr = chain_path(rest, nb, nl);
        lemma_lists_concat(p0, nb + br, b0, pr, nb, br);
        assert((p0 + pr)[0] == p0[0]);
        assert(sum_blocks(es) == b0 + br);
    }
}

proof fn lemma_field_path_shape(fs: Seq<(crate::types::NameP, Expression)>, nb: int, nl: int)
    ensures
        lists_range(chain_field_path(fs, nb, nl), nb, if fs.len() == 0 { 1 } else { sum_field_blocks(fs) as int }),
        chain_field_path(fs, nb, nl)[0] == chain_field_entry(fs, nb, nl),
        fs.len() > 0 ==> sum_field_blocks(fs) >= 1,
    decreases fs,
{
    if fs.len() == 0 {
        lemma_lists_one(nb);
    } else if fs.len() == 1 {
        lemma_path_shape(fs[0].1, nb, nl);
        assert(fs.drop_first().len() == 0);
        assert(sum_field_blocks(fs.drop_first()) == 0);
        assert(sum_field_blocks(fs) == blocks_made(fs[0].1));
    } else {
        let rest = fs.drop_first();
        let b0 = blocks_made(fs[0].1) as int;
        let br = sum_field_blocks(rest) as int;
        lemma_path_shape(fs[0].1, nb + br, nl + sum_field_vars(rest));
        lemma_field_path_shape(rest, nb, nl);
        let p0 = block_path(fs[0].1, nb + br, nl + sum_field_vars(rest));
        let pr = chain_field_path(rest, nb, nl);
        lemma_lists_concat(p0, nb + br, b0, pr, nb, br);
        assert((p0 + pr)[0] == p0[0]);
        assert(sum_field_blocks(fs) == b0 + br);
    }
}

/// A run stays a run in a graph that keeps its blocks.
proof fn lemma_run_frame(g1: Map<u64, BasicBlock>, g2: Map<u64, BasicBlock>, s: Set<u64>, p: Seq<int>, a: int, n: int, t: Terminator)
    requires
        straight_run(g1, p, t),
        lists_range(p, a, n),
        agrees_on(g1, g2, s),
        forall|k: u64| a <= k < a + n ==> #[trigger] s.contains(k),
    ensures
        straight_run(g2, p, t),
{
    assert forall|i: int| 0 <= i < p.len() implies 0 <= #[trigger] p[i] <= u64::MAX && g2.contains_key(p[i] as u64)
        && g2[p[i] as u64] == g1[p[i] as u64] by {
        assert(s.contains(p[i] as u64));
    }
    assert forall|i: int| 0 <= i < p.len() - 1 implies #[trigger] g2[p[i] as u64].terminator.kind
        == TerminatorKind::Goto(BasicBlockId(p[i + 1] as u64)) by {
        assert(g2[p[i] as u64] == g1[p[i] as u64]);
    }
    assert(g2[p[p.len() - 1] as u64] == g1[p[p.len() - 1] as u64]);
}

/// A run that jumps to the start of another run, followed by that run, is a run.
proof fn lemma_run_concat(g: Map<u64, BasicBlock>, p1: Seq<int>, p2: Seq<int>, t1: Terminator, t: Terminator)
    requires
        straight_run(g, p1, t1),
        straight_run(g, p2, t),
        t1.kind == TerminatorKind::Goto(BasicBlockId(p2[0] as u64)),
    ensures
        straight_run(g, p1 + p2, t),
{
    let p = p1 + p2;
    assert forall|i: int| 0 <= i < p.len() implies 0 <= #[trigger] p[i] <= u64::MAX && g.contains_key(p[i] as u64) by {
        if i < p1.len() {
            assert(p[i] == p1[i]);
        } else {
            assert(p[i] == p2[i - p1.len()]);
        }
    }
    assert forall|i: int| 0 <= i < p.len() - 1 implies #[trigger] g[p[i] as u64].terminator.kind
        == TerminatorKind::Goto(BasicBlockId(p[i + 1] as u64)) by {
        if i < p1.len() - 1 {
            assert(p[i] == p1[i]);
            assert(p[i + 1] == p1[i + 1]);
        } else if i == p1.len() - 1 {
            assert(p[i] == p1[i]);
            assert(p[i + 1] == p2[0]);
        } else {
            assert(p[i] == p2[i - p1.len()]);
            assert(p[i + 1] == p2[i + 1 - p1.len()]);
        }
    }
    assert(p.last() == p2.last());
}

proof fn lemma_filled_small(a: DefinitionTranslationContext, b: DefinitionTranslationContext)
    requires
        (b.next_block() == a.next_block() && b.g().dom() == a.g().dom())
            || (b.next_block() == a.next_block() + 1 && b.g().dom() == a.g().dom().insert(a.next_block())
                && !a.g().contains_key(a.next_block())),
        b.next_local() == a.next_local()
            || (b.next_local() == a.next_local() + 1
                && b.vars().contains_key(LocalVariableName::Local(LocalVariableId(a.next_local())))),
    ensures
        filled(a, b),
{
    assert forall|k: u64| #[trigger] added(a, b).contains(k) <==> a.next_block() <= k < b.next_block() by {
    }
}

proof fn lemma_filled_trans(
    a: DefinitionTranslationContext,
    b: DefinitionTranslationContext,
    c: DefinitionTranslationContext,
)
    requires
        grows(a, b),
        grows(b, c),
        filled(a, b),
        filled(b, c),
    ensures
        filled(a, c),
{
    assert forall|k: u64| #[trigger] added(a, c).contains(k) <==> a.next_block() <= k < c.next_block() by {
        if a.next_block() <= k < b.next_block() {
            assert(added(a, b).contains(k));
        }
        if b.next_block() <= k < c.next_block() {
            assert(added(b, c).contains(k));
            if a.g().contains_key(k) {
                assert(b.g().contains_key(k));
            }
        }
        if added(a, c).contains(k) {
            if b.g().contains_key(k) {
                assert(added(a, b).contains(k));
            } else {
                assert(added(b, c).contains(k));
            }
        }
    }
    assert forall|n: u64| a.next_local() <= n < c.next_local()
        implies #[trigger] c.vars().contains_key(LocalVariableName::Local(LocalVariableId(n))) by {
        if n < b.next_local() {
            assert(b.vars().contains_key(LocalVariableName::Local(LocalVariableId(n))));
        }
    }
}

/// The variables added between two states are locals numbered from the first free ID
/// of the first state up to that of the second.
spec fn fresh_locals(c0: DefinitionTranslationContext, c1: DefinitionTranslationContext) -> bool {
    &&& c0.next_local() <= c1.next_local()
    &&& forall|k: LocalVariableName| #[trigger] c1.vars().contains_key(k) && !c0.vars().contains_key(k)
        ==> (k matches LocalVariableName::Local(l) && c0.next_local() <= l.0 < c1.next_local())
}

proof fn lemma_fresh_locals_trans(
    a: DefinitionTranslationContext,
    b: DefinitionTranslationContext,
    c: DefinitionTranslationContext,
)
    requires
        fresh_locals(a, b),
        fresh_locals(b, c),
        a.next_local() <= b.next_local(),
    ensures
        fresh_locals(a, c),
{
    assert forall|k: LocalVariableName| #[trigger] c.vars().contains_key(k) && !a.vars().contains_key(k)
        implies (k matches LocalVariableName::Local(l) && a.next_local() <= l.0 < c.next_local()) by {
        if b.vars().contains_key(k) {
        } else {
        }
    }
}

/// What translating an expression may do to the context: blocks and variables are
/// only added, and new blocks and variables get IDs that were free.
spec fn grows(c0: DefinitionTranslationContext, c1: DefinitionTranslationContext) -> bool {
    &&& agrees_on(c0.g(), c1.g(), c0.g().dom())
    &&& keeps_vars(c0.vars(), c1.vars())
    &&& fresh_locals(c0, c1)
    &&& c0.next_block() <= c1.next_block()
    &&& c0.next_local() <= c1.next_local()
    &&& forall|k: u64| #[trigger] c1.g().contains_key(k) && !c0.g().contains_key(k) ==> c0.next_block() <= k
}

/// Every block added between `c0` and `c1` leaves through `term` or jumps.
spec fn new_blocks_leave(c0: DefinitionTranslationContext, c1: DefinitionTranslationContext, term: Terminator) -> bool {
    forall|k: u64| #[trigger] c1.g().contains_key(k) && !c0.g().contains_key(k) ==> c1.g()[k].terminator == term
        || c1.g()[k].terminator.kind is Goto
}

/// The blocks added between two states.
spec fn added(c0: DefinitionTranslationContext, c1: DefinitionTranslationContext) -> Set<u64> {
    c1.g().dom().difference(c0.g().dom())
}


spec fn gen_pre(c0: DefinitionTranslationContext, e: Expression, term: Terminator) -> bool {
    &&& c0.wf()
    &&& names_bound(e, c0.names().dom())
    &&& c0.next_block() + 2 * expr_size(e) <= u64::MAX
    &&& c0.next_local() + expr_size(e) <= u64::MAX
}

spec fn gen_post(
    c0: DefinitionTranslationContext,
    c1: DefinitionTranslationContext,
    e: Expression,
    term: Terminator,
    entry: u64,
    v: LocalVariableName,
) -> bool {
    &&& c1.wf()
    &&& grows(c0, c1)
    &&& c1.names() == c0.names()
    &&& c1.next_block() <= c0.next_block() + 2 * expr_size(e)
    &&& c1.next_local() <= c0.next_local() + expr_size(e)
    &&& c1.next_block() == c0.next_block() + blocks_made(e)
    &&& c1.next_local() == c0.next_local() + vars_made(e)
    &&& entry == result_entry(e, c0.next_block() as int, c0.next_local() as int)
    &&& v == result_var(e, c0.next_local() as int, c0.names())
    &&& lists_range(block_path(e, c0.next_block() as int, c0.next_local() as int), c0.next_block() as int, blocks_made(e) as int)
    &&& block_path(e, c0.next_block() as int, c0.next_local() as int)[0] == entry
    &&& straight_run(c1.g(), block_path(e, c0.next_block() as int, c0.next_local() as int), term)
    &&& filled(c0, c1)
    &&& new_blocks_leave(c0, c1, term)
    &&& evaluates(c1.g(), added(c0, c1), c0.names(), c1.vars(), entry, e, v, term, c0.next_local() as int)
}

spec fn seq_pre(c0: DefinitionTranslationContext, es: Seq<Expression>, term: Terminator) -> bool {
    &&& c0.wf()
    &&& forall|i: int| 0 <= i < es.len() ==> names_bound(#[trigger] es[i], c0.names().dom())
    &&& c0.next_block() + 2 * exprs_size(es) <= u64::MAX
    &&& c0.next_local() + exprs_size(es) <= u64::MAX
}

spec fn seq_post(
    c0: DefinitionTranslationContext,
    c1: DefinitionTranslationContext,
    es: Seq<Expression>,
    term: Terminator,
    entry: u64,
    vs: Seq<LocalVariableName>,
) -> bool {
    &&& c1.wf()
    &&& grows(c0, c1)
    &&& c1.names() == c0.names()
    &&& c1.next_block() + 1 <= c0.next_block() + 2 * exprs_size(es)
    &&& c1.next_local() + 1 <= c0.next_local() + exprs_size(es)
    &&& c1.next_block() == c0.next_block() + chain_blocks(es)
    &&& c1.next_local() == c0.next_local() + sum_vars(es)
    &&& entry == chain_entry(es, c0.next_block() as int, c0.next_local() as int)
    &&& lists_range(chain_path(es, c0.next_block() as int, c0.next_local() as int), c0.next_block() as int, chain_blocks(es) as int)
    &&& chain_path(es, c0.next_block() as int, c0.next_local() as int)[0] == entry
    &&& straight_run(c1.g(), chain_path(es, c0.next_block() as int, c0.next_local() as int), term)
    &&& filled(c0, c1)
    &&& new_blocks_leave(c0, c1, term)
    &&& evaluates_seq(c1.g(), added(c0, c1), c0.names(), c1.vars(), entry, es, vs, term, c0.next_local() as int)
}

proof fn lemma_grows_trans(
    a: DefinitionTranslationContext,
    b: DefinitionTranslationContext,
    c: DefinitionTranslationContext,
)
    requires
        grows(a, b),
        grows(b, c),
    ensures
        grows(a, c),
        added(a, b).subset_of(added(a, c)),
        added(b, c).subset_of(added(a, c)),
{
    assert forall|k: u64| #[trigger] c.g().contains_key(k) && !a.g().contains_key(k) implies a.next_block() <= k by {
        if !b.g().contains_key(k) {
        } else {
        }
    }
    assert forall|k: LocalVariableName| #[trigger] c.vars().contains_key(k) && !a.vars().contains_key(k)
        implies (k matches LocalVariableName::Local(l) && a.next_local() <= l.0 < c.next_local()) by {
        if b.vars().contains_key(k) {
        } else {
        }
    }
}

/// Translates an application `left right`: the function, then the argument, then
/// the application itself.
fn generate_apply(
    ctx: &mut DefinitionTranslationContext,
    Ghost(e): Ghost<Expression>,
    ty: Type,
    range: Range,
    left: Box<Expression>,
    right: Box<Expression>,
    terminator: Terminator,
) -> (res: (BasicBlockId, LocalVariableName))
    requires
        gen_pre(*old(ctx), e, terminator),
        e.contents == ExpressionContents::Apply(left, right),
        e.ty == ty,
        range == spec_expr_range(e),
    ensures
        gen_post(*old(ctx), *final(ctx), e, terminator, res.0.0, res.1),
    decreases expr_size(e), 0nat,
{
    let ghost c0 = *ctx;
    let ghost t = terminator;
    let variable = ctx.new_local_variable(LocalVariableInfo { range, ty, name: None });
    let block = ctx.new_block(BasicBlock { statements: Vec::new(), terminator });
    let ghost c1 = *ctx;
    proof {
        lemma_grows_trans(c0, c0, c1);
    }
    let (right_block, right_var) = generate_expr(
        ctx,
        *right,
        Terminator { range, kind: TerminatorKind::Goto(block) },
    );
    let ghost c2 = *ctx;
    let (left_block, left_var) = generate_expr(
        ctx,
        *left,
        Terminator { range, kind: TerminatorKind::Goto(right_block) },
    );
    let ghost c3 = *ctx;
    proof {
        lemma_grows_trans(c1, c2, c3);
        lemma_grows_trans(c0, c1, c3);
        lemma_filled_small(c0, c1);
        lemma_filled_trans(c0, c1, c2);
        lemma_grows_trans(c0, c1, c2);
        lemma_filled_trans(c0, c2, c3);
        assert(c1.g().dom().contains(block.0));
        assert(c3.g()[block.0] == c1.g()[block.0]);
        assert(c1.vars().contains_key(LocalVariableName::Local(variable)));
    }
    ctx.push_statement(
        block,
        Statement {
            range,
            kind: StatementKind::Apply {
                argument: Rvalue::Use(Operand::Move(Place::new(right_var))),
                function: Rvalue::Use(Operand::Move(Place::new(left_var))),
                target: Place::new(LocalVariableName::Local(variable)),
            },
        },
    );
    proof {
        let c4 = *ctx;
        assert(agrees_on(c3.g(), c4.g(), added(c1, c3)));
        assert(added(c0, c4) == added(c0, c3));
        assert(filled(c0, c4));
        assert(grows(c0, c4));
        lemma_evaluates_frame(c2.g(), c4.g(), added(c1, c2), added(c0, c4), c0.names(), c2.vars(), c4.vars(), right_block.0, *right, right_var, goto_term(block.0, range), c1.next_local() as int);
        lemma_evaluates_frame(c3.g(), c4.g(), added(c2, c3), added(c0, c4), c0.names(), c3.vars(), c4.vars(), left_block.0, *left, left_var, goto_term(right_block.0, range), c2.next_local() as int);
        assert(apply_block(c4.g(), added(c0, c4), block.0, left_var, right_var, LocalVariableName::Local(variable), range, t));
        let nb0 = c0.next_block() as int;
        lemma_path_shape(e, nb0, c0.next_local() as int);
        let pr = block_path(*right, c1.next_block() as int, c1.next_local() as int);
        let pl = block_path(*left, c2.next_block() as int, c2.next_local() as int);
        lemma_run_frame(c2.g(), c4.g(), added(c1, c2), pr, c1.next_block() as int, blocks_made(*right) as int, goto_term(block.0, range));
        lemma_run_frame(c3.g(), c4.g(), added(c2, c3), pl, c2.next_block() as int, blocks_made(*left) as int, goto_term(right_block.0, range));
        assert(c4.g()[block.0].terminator == t);
        assert(straight_run(c4.g(), seq![nb0], t));
        lemma_run_concat(c4.g(), pr, seq![nb0], goto_term(block.0, range), t);
        assert((pr + seq![nb0])[0] == pr[0]);
        lemma_run_concat(c4.g(), pl, pr + seq![nb0], goto_term(right_block.0, range), t);
        assert(block_path(e, nb0, c0.next_local() as int) =~= pl + (pr + seq![nb0]));
        assert(new_blocks_leave(c0, c4, t));
        assert(evaluates(c4.g(), added(c0, c4), c0.names(), c4.vars(), left_block.0, e, LocalVariableName::Local(variable), t, c0.next_local() as int));
    }
    (left_block, LocalVariableName::Local(variable))
}

/// Translates `let name = expr`: the value, then its move into the named variable;
/// the `let` itself yields the unit value, in a new variable.
fn generate_let(
    ctx: &mut DefinitionTranslationContext,
    Ghost(e): Ghost<Expression>,
    range: Range,
    name: crate::types::NameP,
    right_expr: Box<Expression>,
    terminator: Terminator,
) -> (res: (BasicBlockId, LocalVariableName))
    requires
        gen_pre(*old(ctx), e, terminator),
        e.contents matches ExpressionContents::Let { name: n, expr: x, .. } && n == name && x == right_expr,
        range == spec_expr_range(e),
    ensures
        gen_post(*old(ctx), *final(ctx), e, terminator, res.0.0, res.1),
    decreases expr_size(e), 0nat,
{
    let ghost c0 = *ctx;
    let ghost t = terminator;
    let variable = ctx.get_name_of_local(&name.name);
    let block = ctx.new_block(BasicBlock { statements: Vec::new(), terminator });
    let ghost c1 = *ctx;
    proof {
        lemma_grows_trans(c0, c0, c1);
    }
    let (rvalue_block, rvalue_name) = generate_expr(
        ctx,
        *right_expr,
        Terminator { range, kind: TerminatorKind::Goto(block) },
    );
    let ghost c2 = *ctx;
    proof {
        lemma_grows_trans(c0, c1, c2);
        assert(c1.g().dom().contains(block.0));
        assert(c2.g()[block.0] == c1.g()[block.0]);
    }
    let unit = ctx.new_local_variable(LocalVariableInfo {
        range,
        ty: Type::Primitive(PrimitiveType::Unit),
        name: None,
    });
    let ghost c2b = *ctx;
    proof {
        assert(grows(c2, c2b));
        lemma_grows_trans(c0, c2, c2b);
        lemma_filled_small(c0, c1);
        lemma_filled_trans(c0, c1, c2);
        lemma_filled_small(c2, c2b);
        lemma_filled_trans(c0, c2, c2b);
    }
    ctx.push_statement(
        block,
        Statement {
            range,
            kind: StatementKind::Assign {
                target: Place::new(variable),
                source: Rvalue::Use(Operand::Move(Place::new(rvalue_name))),
            },
        },
    );
    ctx.push_statement(block, Statement { range, kind: StatementKind::StorageLive(unit) });
    ctx.push_statement(
        block,
        Statement {
            range,
            kind: StatementKind::Assign {
                target: Place::new(LocalVariableName::Local(unit)),
                source: Rvalue::Use(Operand::Constant(ImmediateValue::Unit)),
            },
        },
    );
    proof {
        let c3 = *ctx;
        assert(agrees_on(c2b.g(), c3.g(), added(c1, c2)));
        assert(added(c0, c3) == added(c0, c2));
        assert(grows(c0, c3));
        lemma_evaluates_frame(c2.g(), c3.g(), added(c1, c2), added(c0, c3), c0.names(), c2.vars(), c3.vars(), rvalue_block.0, *right_expr, rvalue_name, goto_term(block.0, range), c1.next_local() as int);
        assert(let_block(c3.g(), added(c0, c3), block.0, variable, rvalue_name, LocalVariableName::Local(unit), range, t));
        let nb0 = c0.next_block() as int;
        lemma_path_shape(e, nb0, c0.next_local() as int);
        let px = block_path(*right_expr, c1.next_block() as int, c1.next_local() as int);
        lemma_run_frame(c2.g(), c3.g(), added(c1, c2), px, c1.next_block() as int, blocks_made(*right_expr) as int, goto_term(block.0, range));
        assert(c3.g()[block.0].terminator == t);
        assert(straight_run(c3.g(), seq![nb0], t));
        lemma_run_concat(c3.g(), px, seq![nb0], goto_term(block.0, range), t);
        assert(filled(c0, c3));
        assert(intermediate_var(c3.vars(), LocalVariableName::Local(unit), range, Type::Primitive(PrimitiveType::Unit)));
        assert(new_blocks_leave(c0, c3, t));
        assert(evaluates(c3.g(), added(c0, c3), c0.names(), c3.vars(), rvalue_block.0, e, LocalVariableName::Local(unit), t, c0.next_local() as int));
    }
    (rvalue_block, LocalVariableName::Local(unit))
}

/// Translates a block of statements: each statement in order, then either the value
/// of the last statement, or the unit value when there is none or it ends with a semicolon.
fn generate_block(
    ctx: &mut DefinitionTranslationContext,
    Ghost(e): Ghost<Expression>,
    range: Range,
    statements: Vec<Expression>,
    final_semicolon: Option<Range>,
    terminator: Terminator,
) -> (res: (BasicBlockId, LocalVariableName))
    requires
        gen_pre(*old(ctx), e, terminator),
        e.contents matches ExpressionContents::Block { statements: s, final_semicolon: f, .. }
            && s == statements && f == final_semicolon,
        range == spec_expr_range(e),
    ensures
        gen_post(*old(ctx), *final(ctx), e, terminator, res.0.0, res.1),
    decreases expr_size(e), 0nat,
{
    let ghost c0 = *ctx;
    let ghost t = terminator;
    let ghost all = statements@;
    let mut statements = statements;
    let final_expression = if final_semicolon.is_none() {
        statements.pop()
    } else {
        None
    };
    match final_expression {
        Some(final_expression) => {
            proof {
                assert(statements@ == all.drop_last());
                lemma_exprs_size_elem(all, all.len() - 1);
                assert(names_bound(all[all.len() - 1], c0.names().dom()));
            }
            let (final_expr_block, variable) = generate_expr(ctx, final_expression, terminator);
            let ghost c1 = *ctx;
            proof {
                assert forall|i: int| 0 <= i < statements@.len() implies names_bound(#[trigger] statements@[i], c1.names().dom()) by {
                    assert(statements@[i] == all[i]);
                }
            }
            let (previous_block_chain, vs) = generate_chain_with_terminator(
                ctx,
                statements,
                Terminator { range, kind: TerminatorKind::Goto(final_expr_block) },
            );
            proof {
                let c2 = *ctx;
                lemma_grows_trans(c0, c1, c2);
                lemma_filled_trans(c0, c1, c2);
                assert(all.last() == all[all.len() - 1]);
                assert(c2.next_block() == c0.next_block() + blocks_made(e));
                assert(c2.next_local() == c0.next_local() + vars_made(e));
                lemma_evaluates_frame(c1.g(), c2.g(), added(c0, c1), added(c0, c2), c0.names(), c1.vars(), c2.vars(), final_expr_block.0, all.last(), variable, t, c0.next_local() as int);
                lemma_evaluates_seq_frame(c2.g(), c2.g(), added(c1, c2), added(c0, c2), c0.names(), c2.vars(), c2.vars(), previous_block_chain.0, all.drop_last(), vs@, goto_term(final_expr_block.0, range), c1.next_local() as int);
                assert(final_semicolon is None && all.len() > 0);
                lemma_seq_entry(c2.g(), added(c0, c2), c0.names(), c2.vars(), previous_block_chain.0, all.drop_last(), vs@, goto_term(final_expr_block.0, range), c1.next_local() as int);
                assert(witness(vs@));
                assert(evaluates(c2.g(), added(c0, c2), c0.names(), c2.vars(), previous_block_chain.0, e, variable, t, c0.next_local() as int));
                let nb0 = c0.next_block() as int;
                lemma_path_shape(e, nb0, c0.next_local() as int);
                let pl = block_path(all.last(), nb0, c0.next_local() as int);
                let pc = chain_path(all.drop_last(), c1.next_block() as int, c1.next_local() as int);
                lemma_run_frame(c1.g(), c2.g(), added(c0, c1), pl, nb0, blocks_made(all.last()) as int, t);
                lemma_run_concat(c2.g(), pc, pl, goto_term(final_expr_block.0, range), t);
            }
            (previous_block_chain, variable)
        },
        None => {
            let variable = ctx.new_local_variable(
                LocalVariableInfo { range, ty: Type::Primitive(PrimitiveType::Unit), name: None },
            );
            let storage_live = Statement { range, kind: StatementKind::StorageLive(variable) };
            let assign = Statement {
                range,
                kind: StatementKind::Assign {
                    target: Place::new(LocalVariableName::Local(variable)),
                    source: Rvalue::Use(Operand::Constant(ImmediateValue::Unit)),
                },
            };
            let initialise_variable = ctx.new_block(
                BasicBlock { statements: vec![storage_live, assign], terminator },
            );
            let ghost c1 = *ctx;
            proof {
                lemma_grows_trans(c0, c0, c1);
                assert(c1.vars().contains_key(LocalVariableName::Local(variable)));
                assert(c1.g().dom().contains(initialise_variable.0));
            }
            let (previous_block_chain, vs) = generate_chain_with_terminator(
                ctx,
                statements,
                Terminator { range, kind: TerminatorKind::Goto(initialise_variable) },
            );
            proof {
                let c2 = *ctx;
                lemma_grows_trans(c0, c1, c2);
                lemma_filled_small(c0, c1);
                lemma_filled_trans(c0, c1, c2);
                assert(c2.next_block() == c0.next_block() + blocks_made(e));
                assert(c2.next_local() == c0.next_local() + vars_made(e));
                assert(constant_block(c2.g(), added(c0, c2), initialise_variable.0, LocalVariableName::Local(variable), ImmediateValue::Unit, range, t));
                lemma_evaluates_seq_frame(c2.g(), c2.g(), added(c1, c2), added(c0, c2), c0.names(), c2.vars(), c2.vars(), previous_block_chain.0, all, vs@, goto_term(initialise_variable.0, range), c1.next_local() as int);
                assert(!(final_semicolon is None && all.len() > 0));
                lemma_seq_entry(c2.g(), added(c0, c2), c0.names(), c2.vars(), previous_block_chain.0, all, vs@, goto_term(initialise_variable.0, range), c1.next_local() as int);
                assert(witness(vs@));
                assert(evaluates(c2.g(), added(c0, c2), c0.names(), c2.vars(), previous_block_chain.0, e, LocalVariableName::Local(variable), t, c0.next_local() as int));
                let nb0 = c0.next_block() as int;
                lemma_path_shape(e, nb0, c0.next_local() as int);
                let pc = chain_path(all, c1.next_block() as int, c1.next_local() as int);
                assert(c2.g()[initialise_variable.0] == c1.g()[initialise_variable.0]);
                assert(straight_run(c2.g(), seq![nb0], t));
                lemma_run_concat(c2.g(), pc, seq![nb0], goto_term(initialise_variable.0, range), t);
            }
            (previous_block_chain, LocalVariableName::Local(variable))
        },
    }
}

/// Moves the field names and the field expressions of a constructor apart.
fn unzip_fields(fields: Vec<(crate::types::NameP, Expression)>) -> (res: (Vec<crate::types::NameP>, Vec<Expression>))
    ensures
        res.0@.len() == fields@.len(),
        res.1@.len() == fields@.len(),
        forall|i: int| 0 <= i < fields@.len() ==> #[trigger] res.0@[i] == fields@[i].0,
        forall|i: int| 0 <= i < fields@.len() ==> #[trigger] res.1@[i] == fields@[i].1,
{
    let ghost all = fields@;
    let mut fields = fields;
    let mut names: Vec<crate::types::NameP> = Vec::new();
    let mut exprs: Vec<Expression> = Vec::new();
    while fields.len() > 0
        invariant
            fields@ == all.take(fields@.len() as int),
            names@.len() == exprs@.len(),
            names@.len() + fields@.len() == all.len(),
            forall|i: int| 0 <= i < names@.len() ==> #[trigger] names@[i] == all[fields@.len() + i].0,
            forall|i: int| 0 <= i < exprs@.len() ==> #[trigger] exprs@[i] == all[fields@.len() + i].1,
        decreases fields@.len(),
    {
        let ghost k = fields@.len();
        let ghost prev_names = names@;
        let ghost prev_exprs = exprs@;
        let (n, x) = fields.pop().unwrap();
        names.insert(0, n);
        exprs.insert(0, x);
        proof {
            assert(fields@ =~= all.take(fields@.len() as int));
            assert forall|i: int| 0 <= i < names@.len() implies #[trigger] names@[i] == all[fields@.len() + i].0 by {
                if i > 0 {
                    assert(names@[i] == prev_names[i - 1]);
                }
            }
            assert forall|i: int| 0 <= i < exprs@.len() implies #[trigger] exprs@[i] == all[fields@.len() + i].1 by {
                if i > 0 {
                    assert(exprs@[i] == prev_exprs[i - 1]);
                }
            }
        }
    }
    (names, exprs)
}

/// Translates a constructor: each field in order, then the value built from them.
#[verifier::spinoff_prover]
#[verifier::rlimit(40)]
fn generate_construct(
    ctx: &mut DefinitionTranslationContext,
    Ghost(e): Ghost<Expression>,
    ty: Type,
    range: Range,
    fields: Vec<(crate::types::NameP, Expression)>,
    terminator: Terminator,
) -> (res: (BasicBlockId, LocalVariableName))
    requires
        gen_pre(*old(ctx), e, terminator),
        e.contents matches ExpressionContents::ConstructData { fields: f, .. } && f == fields,
        e.ty == ty,
        range == spec_expr_range(e),
    ensures
        gen_post(*old(ctx), *final(ctx), e, terminator, res.0.0, res.1),
    decreases expr_size(e), 0nat,
{
    let ghost c0 = *ctx;
    let ghost t = terminator;
    let ghost fs = fields@;
    let (names, expressions) = unzip_fields(fields);
    proof {
        lemma_fields_exprs(fs, expressions@);
    }
    let variable = ctx.new_local_variable(
        LocalVariableInfo { range, ty: ty.duplicate(), name: None },
    );
    let storage_live = Statement { range, kind: StatementKind::StorageLive(variable) };
    let construct_variable = ctx.new_block(
        BasicBlock { statements: vec![storage_live], terminator },
    );
    let ghost c1 = *ctx;
    proof {
        lemma_grows_trans(c0, c0, c1);
        assert(c1.vars().contains_key(LocalVariableName::Local(variable)));
        assert(c1.g().dom().contains(construct_variable.0));
        assert forall|i: int| 0 <= i < expressions@.len() implies names_bound(#[trigger] expressions@[i], c1.names().dom()) by {
            assert(expressions@[i] == fs[i].1);
        }
    }
    let ghost es = expressions@;
    let (chained_fields, field_names) = generate_chain_with_terminator(
        ctx,
        expressions,
        Terminator { range, kind: TerminatorKind::Goto(construct_variable) },
    );
    let ghost c2 = *ctx;
    proof {
        lemma_grows_trans(c0, c1, c2);
        assert(c2.g()[construct_variable.0] == c1.g()[construct_variable.0]);
        lemma_field_sums(fs, es);
        lemma_filled_small(c0, c1);
        lemma_filled_trans(c0, c1, c2);
        assert(c2.next_block() == c0.next_block() + blocks_made(e));
        assert(c2.next_local() == c0.next_local() + vars_made(e));
    }
    let mut names = names;
    let mut field_names = field_names;
    let mut built: Vec<(String, Rvalue)> = Vec::new();
    let ghost ns = names@;
    let ghost vs = field_names@;
    let ghost fnames = field_name_texts(fs);
    proof {
        assert(fnames.skip(ns.len() as int) =~= Seq::<Seq<char>>::empty());
        assert(built@ =~= Seq::<(String, Rvalue)>::empty());
    }
    while names.len() > 0
        invariant
            names@.len() <= ns.len(),
            names@ == ns.take(names@.len() as int),
            field_names@ == vs.take(names@.len() as int),
            ns.len() == vs.len(),
            ns.len() == fs.len(),
            fnames == field_name_texts(fs),
            forall|i: int| 0 <= i < fs.len() ==> #[trigger] ns[i] == fs[i].0,
            fields_match(built@, last_fields(fnames.skip(names@.len() as int), vs.skip(names@.len() as int))),
        decreases names@.len(),
    {
        let ghost prev_built = built@;
        let ghost k = names@.len() as int;
        let n = names.pop().unwrap();
        let v = field_names.pop().unwrap();
        let ghost sn = fnames.skip(k - 1);
        let ghost sv = vs.skip(k - 1);
        proof {
            assert(names@ =~= ns.take(names@.len() as int));
            assert(field_names@ =~= vs.take(names@.len() as int));
            assert(n == ns[k - 1]);
            assert(v == vs[k - 1]);
            assert(ns[k - 1] == fs[k - 1].0);
            assert(sn[0] == n.name@);
            assert(sv[0] == v);
            assert(sn.drop_first() =~= fnames.skip(k));
            assert(sv.drop_first() =~= vs.skip(k));
            lemma_last_fields_names(fnames.skip(k), vs.skip(k), n.name@);
        }
        let known = has_field_named(&built, &n.name);
        if !known {
            built.insert(0, (n.name, Rvalue::Use(Operand::Move(Place::new(v)))));
        }
        proof {
            let lf = last_fields(sn, sv);
            let rest = last_fields(fnames.skip(k), vs.skip(k));
            if known {
                assert(exists|j: int| 0 <= j < rest.len() && #[trigger] rest[j].0 == sn[0]) by {
                    let j = choose|j: int| 0 <= j < prev_built.len() && #[trigger] prev_built[j].0@ == n.name@;
                    assert(rest[j].0 == sn[0]);
                }
                assert(lf == rest);
            } else {
                if exists|j: int| 0 <= j < rest.len() && #[trigger] rest[j].0 == sn[0] {
                    let j = choose|j: int| 0 <= j < rest.len() && #[trigger] rest[j].0 == sn[0];
                    assert(prev_built[j].0@ == n.name@);
                }
                assert(lf == seq![(sn[0], sv[0])] + rest);
                assert forall|i: int| 0 <= i < built@.len() implies (#[trigger] built@[i]).0@ == lf[i].0
                    && moves_var(built@[i].1, lf[i].1) by {
                    if i > 0 {
                        assert(built@[i] == prev_built[i - 1]);
                    }
                }
            }
        }
    }
    proof {
        assert(fnames.skip(0) =~= fnames);
        assert(vs.skip(0) =~= vs);
    }
    let construct = Statement {
        range,
        kind: StatementKind::ConstructData {
            ty,
            fields: built,
            target: Place::new(LocalVariableName::Local(variable)),
        },
    };
    ctx.push_statement(construct_variable, construct);
    proof {
        let c3 = *ctx;
        assert(agrees_on(c2.g(), c3.g(), added(c1, c2)));
        assert(added(c0, c3) == added(c0, c2));
        assert(grows(c0, c3));
        assert(filled(c0, c3));
        lemma_evaluates_seq_frame(c2.g(), c3.g(), added(c1, c2), added(c0, c3), c0.names(), c2.vars(), c3.vars(), chained_fields.0, es, vs, goto_term(construct_variable.0, range), c1.next_local() as int);
        lemma_seq_fields(c3.g(), added(c0, c3), c0.names(), c3.vars(), chained_fields.0, fs, es, vs, goto_term(construct_variable.0, range), c1.next_local() as int);
        lemma_fields_entry(c3.g(), added(c0, c3), c0.names(), c3.vars(), chained_fields.0, fs, vs, goto_term(construct_variable.0, range), c1.next_local() as int);
        assert(construct_block(c3.g(), added(c0, c3), construct_variable.0, LocalVariableName::Local(variable), e.ty, fs, vs, range, t));
        assert(new_blocks_leave(c0, c3, t));
        assert(evaluates(c3.g(), added(c0, c3), c0.names(), c3.vars(), chained_fields.0, e, LocalVariableName::Local(variable), t, c0.next_local() as int));
        let nb0 = c0.next_block() as int;
        lemma_path_shape(e, nb0, c0.next_local() as int);
        let pc = chain_path(es, c1.next_block() as int, c1.next_local() as int);
        lemma_field_paths(fs, es, c1.next_block() as int, c1.next_local() as int);
        lemma_run_frame(c2.g(), c3.g(), added(c1, c2), pc, c1.next_block() as int, chain_blocks(es) as int, goto_term(construct_variable.0, range));
        assert(c3.g()[construct_variable.0].terminator == t);
        assert(straight_run(c3.g(), seq![nb0], t));
        lemma_run_concat(c3.g(), pc, seq![nb0], goto_term(construct_variable.0, range), t);
    }
    (chained_fields, LocalVariableName::Local(variable))
}

/// Generates the blocks that compute `expr` into a variable and then leave through
/// `terminator`; returns the block to enter and the variable.
fn generate_expr(
    ctx: &mut DefinitionTranslationContext,
    expr: Expression,
    terminator: Terminator,
) -> (res: (BasicBlockId, LocalVariableName))
    requires
        gen_pre(*old(ctx), expr, terminator),
    ensures
        gen_post(*old(ctx), *final(ctx), expr, terminator, res.0.0, res.1),
    decreases expr_size(expr), 1nat,
{
    let ghost e = expr;
    let ghost c0 = *ctx;
    let ghost t = terminator;
    let range = expr.range();
    let ty = expr.ty;
    match expr.contents {
        ExpressionContents::Argument(arg) => {
            let block = ctx.new_block(BasicBlock { statements: Vec::new(), terminator });
            let variable = ctx.get_name_of_local(&arg.name);
            proof {
                lemma_grows_trans(c0, c0, *ctx);
                lemma_path_shape(e, c0.next_block() as int, c0.next_local() as int);
                assert(ctx.g().contains_key(block.0));
            }
            (block, variable)
        },
        ExpressionContents::Local(local) => {
            let block = ctx.new_block(BasicBlock { statements: Vec::new(), terminator });
            let variable = ctx.get_name_of_local(&local.name);
            proof {
                lemma_grows_trans(c0, c0, *ctx);
                lemma_path_shape(e, c0.next_block() as int, c0.next_local() as int);
                assert(ctx.g().contains_key(block.0));
            }
            (block, variable)
        },
        ExpressionContents::Symbol { name, range, type_variables } => {
            let variable = ctx.new_local_variable(LocalVariableInfo { range, ty, name: None });
            let block = ctx.new_block(
                BasicBlock {
                    statements: vec![
                        Statement {
                            range,
                            kind: StatementKind::InstanceSymbol {
                                name,
                                type_variables,
                                target: Place::new(LocalVariableName::Local(variable)),
                            },
                        },
                    ],
                    terminator,
                },
            );
            proof {
                lemma_grows_trans(c0, c0, *ctx);
                lemma_path_shape(e, c0.next_block() as int, c0.next_local() as int);
                assert(ctx.g().contains_key(block.0));
            }
            (block, LocalVariableName::Local(variable))
        },
        ExpressionContents::Apply(left, right) => generate_apply(
            ctx,
            Ghost(e),
            ty,
            range,
            left,
            right,
            terminator,
        ),
        ExpressionContents::Lambda { params, expr: substituted_expr, .. } => {
            let variable = ctx.new_local_variable(
                LocalVariableInfo { range, ty: ty.duplicate(), name: None },
            );
            let block = ctx.new_block(
                BasicBlock {
                    statements: vec![
                        Statement {
                            range,
                            kind: StatementKind::CreateLambda {
                                ty,
                                params,
                                expr: *substituted_expr,
                                target: Place::new(LocalVariableName::Local(variable)),
                            },
                        },
                    ],
                    terminator,
                },
            );
            proof {
                lemma_grows_trans(c0, c0, *ctx);
                lemma_path_shape(e, c0.next_block() as int, c0.next_local() as int);
                assert(ctx.g().contains_key(block.0));
            }
            (block, LocalVariableName::Local(variable))
        },
        ExpressionContents::Let { name, expr: right_expr, .. } => generate_let(
            ctx,
            Ghost(e),
            range,
            name,
            right_expr,
            terminator,
        ),
        ExpressionContents::Block { statements, final_semicolon, .. } => generate_block(
            ctx,
            Ghost(e),
            range,
            statements,
            final_semicolon,
            terminator,
        ),
        ExpressionContents::ConstructData { fields, .. } => generate_construct(
            ctx,
            Ghost(e),
            ty,
            range,
            fields,
            terminator,
        ),
        ExpressionContents::ImmediateValue { value, range } => {
            let variable = ctx.new_local_variable(LocalVariableInfo { range, ty, name: None });
            let storage_live = Statement { range, kind: StatementKind::StorageLive(variable) };
            let assign = Statement {
                range,
                kind: StatementKind::Assign {
                    target: Place::new(LocalVariableName::Local(variable)),
                    source: Rvalue::Use(Operand::Constant(value)),
                },
            };
            let block = ctx.new_block(
                BasicBlock { statements: vec![storage_live, assign], terminator },
            );
            proof {
                lemma_grows_trans(c0, c0, *ctx);
                lemma_path_shape(e, c0.next_block() as int, c0.next_local() as int);
                assert(ctx.g().contains_key(block.0));
            }
            (block, LocalVariableName::Local(variable))
        },
        ExpressionContents::Borrow { .. } | ExpressionContents::Copy { .. } => {
            proof {
                assert(false);
            }
            (BasicBlockId(0), LocalVariableName::Argument(ArgumentIndex(0)))
        },
    }
}

/// Generates a chain of expressions computed in order, ending with the given
/// terminator; returns the block to enter and the variable of each expression.
fn generate_chain_with_terminator(
    ctx: &mut DefinitionTranslationContext,
    exprs: Vec<Expression>,
    terminator: Terminator,
) -> (res: (BasicBlockId, Vec<LocalVariableName>))
    requires
        seq_pre(*old(ctx), exprs@, terminator),
    ensures
        seq_post(*old(ctx), *final(ctx), exprs@, terminator, res.0.0, res.1@),
    decreases exprs_size(exprs@), 1nat,
{
    let ghost c0 = *ctx;
    let ghost t = terminator;
    let ghost all = exprs@;
    let range = terminator.range;
    let mut exprs = exprs;
    let mut terminator = terminator;
    let mut first_block: Option<BasicBlockId> = None;
    let mut locals: Vec<LocalVariableName> = Vec::new();
    proof {
        lemma_grows_trans(c0, c0, c0);
    }
    #[verifier::loop_isolation(false)]
    while exprs.len() > 0
        invariant
            exprs@ == all.take(exprs@.len() as int),
            t.range == range,
            ctx.wf(),
            grows(c0, *ctx),
            ctx.names() == c0.names(),
            forall|i: int| 0 <= i < all.len() ==> names_bound(#[trigger] all[i], c0.names().dom()),
            ctx.next_block() + 2 * exprs_size(exprs@) <= c0.next_block() + 2 * exprs_size(all),
            ctx.next_local() + exprs_size(exprs@) <= c0.next_local() + exprs_size(all),
            c0.next_block() + 2 * exprs_size(all) <= u64::MAX,
            c0.next_local() + exprs_size(all) <= u64::MAX,
            new_blocks_leave(c0, *ctx, t),
            ctx.next_block() == c0.next_block() + sum_blocks(all.skip(exprs@.len() as int)),
            ctx.next_local() == c0.next_local() + sum_vars(all.skip(exprs@.len() as int)),
            filled(c0, *ctx),
            locals@.len() + exprs@.len() == all.len(),
            match first_block {
                None => exprs@.len() == all.len() && terminator == t,
                Some(b) => {
                    &&& exprs@.len() < all.len()
                    &&& terminator == goto_term(b.0, range)
                    &&& b.0 == chain_entry(all.skip(exprs@.len() as int), c0.next_block() as int, c0.next_local() as int)
                    &&& straight_run(ctx.g(), chain_path(all.skip(exprs@.len() as int), c0.next_block() as int, c0.next_local() as int), t)
                    &&& evaluates_seq(ctx.g(), added(c0, *ctx), c0.names(), ctx.vars(), b.0, all.skip(exprs@.len() as int), locals@, t, c0.next_local() as int)
                },
            },
        decreases exprs@.len(),
    {
        let ghost k = exprs@.len();
        let ghost c1 = *ctx;
        let ghost prev_locals = locals@;
        let ghost prev_first = first_block;
        let expr = exprs.pop().unwrap();
        proof {
            lemma_exprs_size_take(all, k as int);
            lemma_exprs_size_elem(all, k - 1);
            assert(all.take(k as int) =~= exprs@.push(expr));
            assert(exprs@ =~= all.take(k - 1));
            assert(expr == all[k - 1]);
            assert(names_bound(all[k - 1], c0.names().dom()));
        }
        let (block, local) = generate_expr(ctx, expr, terminator);
        let ghost c2 = *ctx;
        proof {
            lemma_grows_trans(c0, c1, c2);
            lemma_filled_trans(c0, c1, c2);
            let sk = all.skip(k - 1);
            assert(sk[0] == all[k - 1]);
            assert(sk.drop_first() =~= all.skip(k as int));
            assert(sum_blocks(sk) == blocks_made(all[k - 1]) + sum_blocks(all.skip(k as int)));
            assert(sum_vars(sk) == vars_made(all[k - 1]) + sum_vars(all.skip(k as int)));
            assert(block.0 == chain_entry(sk, c0.next_block() as int, c0.next_local() as int));
        }
        locals.insert(0, local);
        terminator = Terminator { range, kind: TerminatorKind::Goto(block) };
        first_block = Some(block);
        proof {
            assert(all.skip(k - 1) =~= seq![all[k - 1]] + all.skip(k as int));
            assert(locals@ =~= seq![local] + prev_locals);
            match prev_first {
                None => {
                    lemma_evaluates_frame(c2.g(), c2.g(), added(c1, c2), added(c0, c2), c0.names(), c2.vars(), c2.vars(), block.0, all[k - 1], local, t, c1.next_local() as int);
                    assert(all.skip(k - 1) =~= seq![all[k - 1]]);
                    assert(evaluates(c2.g(), added(c0, c2), c0.names(), c2.vars(), block.0, all[k - 1], local, t, c0.next_local() as int));
                },
                Some(b) => {
                    lemma_evaluates_seq_frame(c1.g(), c2.g(), added(c0, c1), added(c0, c2), c0.names(), c1.vars(), c2.vars(), b.0, all.skip(k as int), prev_locals, t, c0.next_local() as int);
                    lemma_evaluates_frame(c2.g(), c2.g(), added(c1, c2), added(c0, c2), c0.names(), c2.vars(), c2.vars(), block.0, all[k - 1], local, goto_term(b.0, range), c1.next_local() as int);
                    lemma_seq_cons(c2.g(), added(c0, c2), c0.names(), c2.vars(), block.0, all[k - 1], local, b.0, all.skip(k as int), prev_locals, t, c0.next_local() as int);
                },
            }
            assert(added(c1, c2).contains(block.0));
            let nb0 = c0.next_block() as int;
            let nl0 = c0.next_local() as int;
            let sk = all.skip(k - 1);
            let pn = block_path(all[k - 1], c1.next_block() as int, c1.next_local() as int);
            match prev_first {
                None => {
                    assert(sk.len() == 1);
                    assert(chain_path(sk, nb0, nl0) == pn);
                },
                Some(b) => {
                    let rest = all.skip(k as int);
                    let prev = chain_path(rest, nb0, nl0);
                    lemma_chain_path_shape(rest, nb0, nl0);
                    assert(chain_blocks(rest) == sum_blocks(rest));
                    assert(straight_run(c1.g(), prev, t));
                    lemma_run_frame(c1.g(), c2.g(), added(c0, c1), prev, nb0, sum_blocks(rest) as int, t);
                    lemma_run_concat(c2.g(), pn, prev, goto_term(b.0, range), t);
                    assert(sk.drop_first() =~= rest);
                    assert(chain_path(sk, nb0, nl0) == pn + prev);
                },
            }
        }
    }
    let ghost c8 = *ctx;
    proof {
        assert(all.skip(exprs@.len() as int) =~= all);
        if all.len() == 0 {
            assert(sum_blocks(all) == 0);
            assert(sum_vars(all) == 0);
        }
    }
    let first_block = match first_block {
        Some(b) => b,
        None => ctx.new_block(BasicBlock { statements: Vec::new(), terminator }),
    };
    proof {
        let c9 = *ctx;
        lemma_filled_small(c8, c9);
        lemma_grows_trans(c0, c8, c9);
        lemma_filled_trans(c0, c8, c9);
        assert(c9.next_block() == c0.next_block() + chain_blocks(all));
        assert(c9.next_local() == c0.next_local() + sum_vars(all));
        lemma_grows_trans(c0, c0, c9);
        assert(all.skip(0) =~= all);
        assert(c9.wf());
        assert(grows(c0, c9));
        assert(c9.names() == c0.names());
        assert(c9.next_local() + 1 <= c0.next_local() + exprs_size(all));
        assert(new_blocks_leave(c0, c9, t));
        assert(evaluates_seq(c9.g(), added(c0, c9), c0.names(), c9.vars(), first_block.0, all, locals@, t, c0.next_local() as int));
        lemma_chain_path_shape(all, c0.next_block() as int, c0.next_local() as int);
        if all.len() == 0 {
            assert(c9.g().contains_key(first_block.0));
            assert(straight_run(c9.g(), chain_path(all, c0.next_block() as int, c0.next_local() as int), t));
        }
    }
    (first_block, locals)
}


/// The `let` statements that `initialise_expr` declares for `e`, in order, each with
/// the type of its value: those outside lambdas and outside other `let` values.
pub open spec fn let_decls(e: Expression) -> Seq<(crate::types::NameP, Type)>
    decreases e,
{
    match e.contents {
        ExpressionContents::Apply(l, r) => let_decls(*l) + let_decls(*r),
        ExpressionContents::Let { name, expr, .. } => seq![(name, expr.ty)],
        ExpressionContents::Block { statements, .. } => let_decls_seq(statements@),
        ExpressionContents::ConstructData { fields, .. } => let_decls_fields(fields@),
        _ => Seq::empty(),
    }
}

pub open spec fn let_decls_seq(s: Seq<Expression>) -> Seq<(crate::types::NameP, Type)>
    decreases s,
{
    if s.len() == 0 {
        Seq::empty()
    } else {
        let_decls_seq(s.drop_last()) + let_decls(s.last())
    }
}

pub open spec fn let_decls_fields(s: Seq<(crate::types::NameP, Expression)>) -> Seq<(crate::types::NameP, Type)>
    decreases s,
{
    if s.len() == 0 {
        Seq::empty()
    } else {
        let_decls_fields(s.drop_last()) + let_decls(s.last().1)
    }
}

/// The names map after declaring the names `ds` in order as the locals numbered from `start`.
pub open spec fn declare(
    names: Map<Seq<char>, LocalVariableName>,
    ds: Seq<(crate::types::NameP, Type)>,
    start: int,
) -> Map<Seq<char>, LocalVariableName>
    decreases ds.len(),
{
    if ds.len() == 0 {
        names
    } else {
        declare(names, ds.drop_last(), start).insert(
            ds.last().0.name@,
            LocalVariableName::Local(LocalVariableId((start + ds.len() - 1) as u64)),
        )
    }
}

/// The variables after declaring `ds` in order as the locals numbered from `start`:
/// each records where its name was written and the name, and a copy of its type.
pub open spec fn declared_vars(
    vars: Map<LocalVariableName, LocalVariableInfo>,
    ds: Seq<(crate::types::NameP, Type)>,
    start: int,
) -> bool {
    forall|i: int| 0 <= i < ds.len() ==> #[trigger] declared_var_at(vars, ds, start, i)
}

/// The local numbered `start + i` is the variable of declaration `i`.
pub open spec fn declared_var_at(
    vars: Map<LocalVariableName, LocalVariableInfo>,
    ds: Seq<(crate::types::NameP, Type)>,
    start: int,
    i: int,
) -> bool {
    &&& vars.contains_key(local_var(start + i))
    &&& vars[local_var(start + i)].range == ds[i].0.range
    &&& vars[local_var(start + i)].name == Some(ds[i].0.name)
    &&& same_type(ds[i].1, vars[local_var(start + i)].ty)
}

/// The local variable numbered `n`.
pub open spec fn local_var(n: int) -> LocalVariableName {
    LocalVariableName::Local(LocalVariableId(n as u64))
}

pub(crate) proof fn lemma_declare_dom(names: Map<Seq<char>, LocalVariableName>, ds: Seq<(crate::types::NameP, Type)>, start: int, k: Seq<char>)
    ensures
        declare(names, ds, start).contains_key(k) <==> (names.contains_key(k) || exists|i: int| 0 <= i < ds.len() && #[trigger] ds[i].0.name@ == k),
    decreases ds.len(),
{
    if ds.len() > 0 {
        lemma_declare_dom(names, ds.drop_last(), start, k);
        if exists|i: int| 0 <= i < ds.len() && #[trigger] ds[i].0.name@ == k {
            let i = choose|i: int| 0 <= i < ds.len() && #[trigger] ds[i].0.name@ == k;
            if i < ds.len() - 1 {
                assert(ds.drop_last()[i].0.name@ == k);
            }
        }
        if exists|i: int| 0 <= i < ds.len() - 1 && #[trigger] ds.drop_last()[i].0.name@ == k {
            let i = choose|i: int| 0 <= i < ds.len() - 1 && #[trigger] ds.drop_last()[i].0.name@ == k;
            assert(ds[i].0.name@ == k);
        }
    }
}

proof fn lemma_declare_append(
    names: Map<Seq<char>, LocalVariableName>,
    a: Seq<(crate::types::NameP, Type)>,
    b: Seq<(crate::types::NameP, Type)>,
    start: int,
)
    ensures
        declare(names, a + b, start) == declare(declare(names, a, start), b, start + a.len()),
    decreases b.len(),
{
    if b.len() == 0 {
        assert(a + b =~= a);
    } else {
        lemma_declare_append(names, a, b.drop_last(), start);
        assert((a + b).drop_last() =~= a + b.drop_last());
    }
}

proof fn lemma_let_decls_len(e: Expression)
    ensures
        let_decls(e).len() <= expr_size(e),
    decreases e,
{
    match e.contents {
        ExpressionContents::Apply(l, r) => {
            lemma_let_decls_len(*l);
            lemma_let_decls_len(*r);
        },
        ExpressionContents::Block { statements, .. } => {
            lemma_let_decls_seq_len(statements@);
        },
        ExpressionContents::ConstructData { fields, .. } => {
            lemma_let_decls_fields_len(fields@);
        },
        _ => {},
    }
}

proof fn lemma_let_decls_seq_len(s: Seq<Expression>)
    ensures
        let_decls_seq(s).len() < exprs_size(s),
    decreases s,
{
    if s.len() > 0 {
        lemma_let_decls_seq_len(s.drop_last());
        lemma_let_decls_len(s.last());
    }
}

proof fn lemma_let_decls_fields_len(s: Seq<(crate::types::NameP, Expression)>)
    ensures
        let_decls_fields(s).len() < fields_size(s),
    decreases s,
{
    if s.len() > 0 {
        lemma_let_decls_fields_len(s.drop_last());
        lemma_let_decls_len(s.last().1);
    }
}

proof fn lemma_same_type_refl(t: Type)
    ensures
        same_type(t, t),
    decreases t,
{
    match t {
        Type::Named { parameters, .. } => {
            assert forall|i: int| 0 <= i < parameters@.len() implies same_type(#[trigger] parameters@[i], parameters@[i]) by {
                lemma_same_type_refl(parameters@[i]);
            }
        },
        Type::Variable { parameters, .. } => {
            assert forall|i: int| 0 <= i < parameters@.len() implies same_type(#[trigger] parameters@[i], parameters@[i]) by {
                lemma_same_type_refl(parameters@[i]);
            }
        },
        Type::Function(l, r) => {
            lemma_same_type_refl(*l);
            lemma_same_type_refl(*r);
        },
        Type::Borrow { ty } => {
            lemma_same_type_refl(*ty);
        },
        _ => {},
    }
}

/// The effect of declaring `ds` on the context: blocks untouched, names and
/// variables declared from the next free local on.
spec fn declares(c0: DefinitionTranslationContext, c1: DefinitionTranslationContext, ds: Seq<(crate::types::NameP, Type)>) -> bool {
    &&& c1.wf()
    &&& c1.g() == c0.g()
    &&& c1.next_block() == c0.next_block()
    &&& keeps_vars(c0.vars(), c1.vars())
    &&& fresh_locals(c0, c1)
    &&& c1.next_local() == c0.next_local() + ds.len()
    &&& c1.names() == declare(c0.names(), ds, c0.next_local() as int)
    &&& declared_vars(c1.vars(), ds, c0.next_local() as int)
}

proof fn lemma_declares_trans(
    a: DefinitionTranslationContext,
    b: DefinitionTranslationContext,
    c: DefinitionTranslationContext,
    d1: Seq<(crate::types::NameP, Type)>,
    d2: Seq<(crate::types::NameP, Type)>,
)
    requires
        declares(a, b, d1),
        declares(b, c, d2),
    ensures
        declares(a, c, d1 + d2),
{
    lemma_declare_append(a.names(), d1, d2, a.next_local() as int);
    let ds = d1 + d2;
    assert forall|i: int| 0 <= i < ds.len() implies #[trigger] declared_var_at(c.vars(), ds, a.next_local() as int, i) by {
        if i < d1.len() {
            assert(declared_var_at(b.vars(), d1, a.next_local() as int, i));
            assert(b.vars().contains_key(local_var(a.next_local() + i)));
        } else {
            let j = i - d1.len();
            assert(ds[i] == d2[j]);
            assert(declared_var_at(c.vars(), d2, b.next_local() as int, j));
            assert(local_var(b.next_local() + j) == local_var(a.next_local() + i));
        }
    }
}

/// Creates the named local variables of the `let` statements of an expression, so
/// that their names are known before the expression itself is translated.
fn initialise_expr(ctx: &mut DefinitionTranslationContext, expr: &Expression)
    requires
        old(ctx).wf(),
        old(ctx).next_local() + expr_size(*expr) <= u64::MAX,
    ensures
        declares(*old(ctx), *final(ctx), let_decls(*expr)),
    decreases expr_size(*expr),
{
    let ghost c0 = *ctx;
    proof {
        lemma_let_decls_len(*expr);
    }
    match &expr.contents {
        ExpressionContents::Apply(left, right) => {
            initialise_expr(ctx, left);
            let ghost c1 = *ctx;
            proof {
                lemma_let_decls_len(**left);
            }
            initialise_expr(ctx, right);
            proof {
                lemma_declares_trans(c0, c1, *ctx, let_decls(**left), let_decls(**right));
            }
        },
        ExpressionContents::Let { name, expr: value, .. } => {
            let id = ctx.new_local_variable(
                LocalVariableInfo { range: name.range, ty: value.ty.duplicate(), name: Some(name.name.clone()) },
            );
            proof {
                let ds = seq![(*name, value.ty)];
                assert(ds.drop_last() =~= Seq::<(crate::types::NameP, Type)>::empty());
                assert(declare(c0.names(), ds.drop_last(), c0.next_local() as int) == c0.names());
                assert(declare(c0.names(), ds, c0.next_local() as int) == c0.names().insert(name.name@, LocalVariableName::Local(id)));
                assert(ctx.vars().contains_key(LocalVariableName::Local(id)));
                assert(local_var(c0.next_local() + 0) == LocalVariableName::Local(id));
                lemma_same_type_refl(value.ty);
                assert(declared_var_at(ctx.vars(), ds, c0.next_local() as int, 0));
            }
        },
        ExpressionContents::Block { statements, .. } => {
            let mut i: usize = 0;
            #[verifier::loop_isolation(false)]
            while i < statements.len()
                invariant
                    i <= statements@.len(),
                    declares(c0, *ctx, let_decls_seq(statements@.take(i as int))),
                    c0.next_local() + exprs_size(statements@) <= u64::MAX,
                decreases statements@.len() - i,
            {
                let ghost c1 = *ctx;
                proof {
                    lemma_let_decls_seq_len(statements@.take(i as int));
                    lemma_exprs_size_elem(statements@, i as int);
                    lemma_exprs_size_prefix(statements@, i as int + 1);
                    lemma_exprs_size_take(statements@, i as int + 1);
                }
                initialise_expr(ctx, &statements[i]);
                proof {
                    lemma_declares_trans(c0, c1, *ctx, let_decls_seq(statements@.take(i as int)), let_decls(statements@[i as int]));
                    assert(statements@.take(i as int + 1).drop_last() =~= statements@.take(i as int));
                }
                i = i + 1;
            }
            proof {
                assert(statements@.take(statements@.len() as int) =~= statements@);
            }
        },
        ExpressionContents::ConstructData { fields, .. } => {
            let mut i: usize = 0;
            #[verifier::loop_isolation(false)]
            while i < fields.len()
                invariant
                    i <= fields@.len(),
                    declares(c0, *ctx, let_decls_fields(fields@.take(i as int))),
                    c0.next_local() + fields_size(fields@) <= u64::MAX,
                decreases fields@.len() - i,
            {
                let ghost c1 = *ctx;
                proof {
                    lemma_let_decls_fields_len(fields@.take(i as int));
                    lemma_fields_size_prefix(fields@, i as int + 1);
                    lemma_fields_size_elem(fields@, i as int);
                    assert(fields@.take(i as int + 1).drop_last() =~= fields@.take(i as int));
                    assert(fields@.take(i as int + 1).last() == fields@[i as int]);
                }
                initialise_expr(ctx, &fields[i].1);
                proof {
                    lemma_declares_trans(c0, c1, *ctx, let_decls_fields(fields@.take(i as int)), let_decls(fields@[i as int].1));
                }
                i = i + 1;
            }
            proof {
                assert(fields@.take(fields@.len() as int) =~= fields@);
            }
        },
        _ => {
            proof {
                assert(declare(c0.names(), Seq::<(crate::types::NameP, Type)>::empty(), c0.next_local() as int) == c0.names());
            }
        },
    }
}

proof fn lemma_exprs_size_prefix(s: Seq<Expression>, k: int)
    requires
        0 <= k <= s.len(),
    ensures
        exprs_size(s.take(k)) <= exprs_size(s),
    decreases s.len(),
{
    if k < s.len() {
        lemma_exprs_size_prefix(s.drop_last(), k);
        assert(s.drop_last().take(k) =~= s.take(k));
    } else {
        assert(s.take(k) =~= s);
    }
}

proof fn lemma_fields_size_elem(s: Seq<(crate::types::NameP, Expression)>, i: int)
    requires
        0 <= i < s.len(),
    ensures
        expr_size(s[i].1) < fields_size(s),
    decreases s.len(),
{
    if i < s.len() - 1 {
        lemma_fields_size_elem(s.drop_last(), i);
        assert(s.drop_last()[i] == s[i]);
    }
}

proof fn lemma_fields_size_prefix(s: Seq<(crate::types::NameP, Expression)>, k: int)
    requires
        0 <= k <= s.len(),
    ensures
        fields_size(s.take(k)) <= fields_size(s),
    decreases s.len(),
{
    if k < s.len() {
        lemma_fields_size_prefix(s.drop_last(), k);
        assert(s.drop_last().take(k) =~= s.take(k));
    } else {
        assert(s.take(k) =~= s);
    }
}


/// The IDs of the blocks `ids`.
pub open spec fn id_set(ids: Seq<BasicBlockId>) -> Set<u64> {
    Set::new(|k: u64| exists|j: int| 0 <= j < ids.len() && #[trigger] ids[j].0 == k)
}

/// The statements of the blocks `ids` of `g`, one block after the other.
pub open spec fn stmts_of(g: Map<u64, BasicBlock>, ids: Seq<BasicBlockId>) -> Seq<Statement>
    decreases ids.len(),
{
    if ids.len() == 0 {
        Seq::empty()
    } else {
        stmts_of(g, ids.drop_last()) + g[ids.last().0].statements@
    }
}

proof fn lemma_stmts_of_agree(g1: Map<u64, BasicBlock>, g2: Map<u64, BasicBlock>, ids: Seq<BasicBlockId>)
    requires
        forall|i: int| 0 <= i < ids.len() ==> g1[#[trigger] ids[i].0] == g2[ids[i].0],
    ensures
        stmts_of(g1, ids) == stmts_of(g2, ids),
    decreases ids.len(),
{
    if ids.len() > 0 {
        lemma_stmts_of_agree(g1, g2, ids.drop_last());
        assert(g1[ids[ids.len() - 1].0] == g2[ids[ids.len() - 1].0]);
    }
}

/// Chains a series of blocks that have no terminators yet into a single new block
/// holding all their statements in order, whose terminator is still unknown.
fn chain(ctx: &mut DefinitionTranslationContext, blocks: Vec<BasicBlockId>, range: Range) -> (res: BasicBlockId)
    requires
        old(ctx).wf(),
        old(ctx).next_block() < u64::MAX,
        forall|i: int| 0 <= i < blocks@.len() ==> old(ctx).g().contains_key(#[trigger] blocks@[i].0)
            && old(ctx).g()[blocks@[i].0].terminator.kind is Invalid,
        forall|i: int, j: int| 0 <= i < j < blocks@.len() ==> blocks@[i] != blocks@[j],
    ensures
        final(ctx).wf(),
        res.0 == old(ctx).next_block(),
        final(ctx).next_block() == old(ctx).next_block() + 1,
        final(ctx).g().dom() == old(ctx).g().dom().difference(id_set(blocks@)).insert(res.0),
        forall|k: u64| #[trigger] final(ctx).g().contains_key(k) && k != res.0 ==> final(ctx).g()[k] == old(ctx).g()[k],
        final(ctx).g()[res.0].statements@ == stmts_of(old(ctx).g(), blocks@),
        final(ctx).g()[res.0].terminator == (Terminator { range, kind: TerminatorKind::Invalid }),
        final(ctx).vars() == old(ctx).vars(),
        final(ctx).names() == old(ctx).names(),
        final(ctx).next_local() == old(ctx).next_local(),
{
    let ghost c0 = *ctx;
    let ghost ids = blocks@;
    let mut statements: Vec<Statement> = Vec::new();
    let mut i: usize = 0;
    while i < blocks.len()
        invariant
            i <= ids.len(),
            blocks@ == ids,
            c0.wf(),
            forall|j: int| 0 <= j < ids.len() ==> c0.g().contains_key(#[trigger] ids[j].0)
                && c0.g()[ids[j].0].terminator.kind is Invalid,
            forall|a: int, b: int| 0 <= a < b < ids.len() ==> ids[a] != ids[b],
            ctx.g() == c0.g().remove_keys(id_set(ids.take(i as int))),
            ctx.control_flow_graph.ids_fresh(),
            ctx.next_block() == c0.next_block(),
            ctx.vars() == c0.vars(),
            ctx.names() == c0.names(),
            ctx.next_local() == c0.next_local(),
            statements@ == stmts_of(c0.g(), ids.take(i as int)),
        decreases ids.len() - i,
    {
        let ghost before = ctx.g();
        proof {
            assert(!id_set(ids.take(i as int)).contains(ids[i as int].0)) by {
                if id_set(ids.take(i as int)).contains(ids[i as int].0) {
                    let j = choose|j: int| 0 <= j < i && #[trigger] ids.take(i as int)[j].0 == ids[i as int].0;
                    assert(ids[j] == ids[i as int]);
                }
            }
        }
        let removed = ctx.control_flow_graph.remove_block(blocks[i]);
        let mut block = removed.unwrap();
        statements.append(&mut block.statements);
        proof {
            assert(ids.take(i + 1).drop_last() =~= ids.take(i as int));
            assert forall|k: u64| #[trigger] id_set(ids.take(i + 1)).contains(k) <==> id_set(ids.take(i as int)).insert(ids[i as int].0).contains(k) by {
                if id_set(ids.take(i + 1)).contains(k) {
                    let j = choose|j: int| 0 <= j < i + 1 && #[trigger] ids.take(i + 1)[j].0 == k;
                    if j < i {
                        assert(ids.take(i as int)[j].0 == k);
                    }
                }
                if id_set(ids.take(i as int)).contains(k) {
                    let j = choose|j: int| 0 <= j < i && #[trigger] ids.take(i as int)[j].0 == k;
                    assert(ids.take(i + 1)[j].0 == k);
                }
                if k == ids[i as int].0 {
                    assert(ids.take(i + 1)[i as int].0 == k);
                }
            }
            assert(id_set(ids.take(i + 1)) =~= id_set(ids.take(i as int)).insert(ids[i as int].0));
            assert(ctx.g() =~= c0.g().remove_keys(id_set(ids.take(i + 1))));
        }
        i = i + 1;
    }
    proof {
        assert(ids.take(ids.len() as int) =~= ids);
        assert(forall|l: LocalVariableId| #[trigger]
            c0.vars().contains_key(LocalVariableName::Local(l)) ==> l.0 < c0.next_local());
        assert(ctx.wf());
    }
    let res = ctx.new_block(
        BasicBlock { statements, terminator: Terminator { range, kind: TerminatorKind::Invalid } },
    );
    proof {
        assert(ctx.g().dom() =~= c0.g().dom().difference(id_set(ids)).insert(res.0));
    }
    res
}


/// A name bound by a pattern, the variable whose part it binds, and the path to that part.
pub type Binding = (crate::types::NameP, LocalVariableName, Seq<PlaceSegment>);

/// The names a pattern binds, in order, when it is matched against the part `proj` of `root`.
pub open spec fn pattern_bindings(p: Pattern, root: LocalVariableName, proj: Seq<PlaceSegment>) -> Seq<Binding>
    decreases p,
{
    match p {
        Pattern::Named(n) => seq![(n, root, proj)],
        Pattern::TypeConstructor { fields, .. } => fields_bindings(fields@, root, proj),
        _ => Seq::empty(),
    }
}

/// The names the field patterns of a type constructor bind, field after field.
pub open spec fn fields_bindings(
    fs: Seq<(crate::types::NameP, Type, Pattern)>,
    root: LocalVariableName,
    proj: Seq<PlaceSegment>,
) -> Seq<Binding>
    decreases fs,
{
    if fs.len() == 0 {
        Seq::empty()
    } else {
        fields_bindings(fs.drop_last(), root, proj) + pattern_bindings(
            fs.last().2,
            root,
            proj.push(PlaceSegment::Field(fs.last().0.name)),
        )
    }
}

/// The pattern holds no function pattern, which only whole definitions may have, and
/// no constant pattern, which the translation into control flow graphs does not handle.
pub open spec fn no_function_pattern(p: Pattern) -> bool
    decreases p,
{
    match p {
        Pattern::Function { .. } => false,
        Pattern::Constant { .. } => false,
        Pattern::TypeConstructor { fields, .. } => forall|i: int|
            0 <= i < fields@.len() ==> no_function_pattern(#[trigger] fields@[i].2),
        _ => true,
    }
}

/// A measure of a pattern that bounds the blocks and variables binding it creates.
pub open spec fn pattern_size(p: Pattern) -> nat
    decreases p,
{
    match p {
        Pattern::TypeConstructor { fields, .. } => 1 + fields_pattern_size(fields@),
        _ => 1,
    }
}

pub open spec fn fields_pattern_size(fs: Seq<(crate::types::NameP, Type, Pattern)>) -> nat
    decreases fs,
{
    if fs.len() == 0 {
        0
    } else {
        fields_pattern_size(fs.drop_last()) + pattern_size(fs.last().2)
    }
}

/// Statements `2 i` and `2 i + 1` bring the local numbered `start + i` to life and move
/// the part of the value that binding `i` names into it.
pub open spec fn binding_at(stmts: Seq<Statement>, bs: Seq<Binding>, start: int, i: int) -> bool {
    &&& stmts[2 * i] == (Statement {
        range: bs[i].0.range,
        kind: StatementKind::StorageLive(LocalVariableId((start + i) as u64)),
    })
    &&& stmts[2 * i + 1].range == bs[i].0.range
    &&& stmts[2 * i + 1].kind matches StatementKind::Assign { target, source }
        && is_var_place(target, local_var(start + i))
        && (source matches Rvalue::Use(Operand::Move(p)) && p@ == (bs[i].1, bs[i].2))
}

/// The statements bind the names `bs`, in order, to the locals numbered from `start`.
pub open spec fn binds_stmts(stmts: Seq<Statement>, bs: Seq<Binding>, start: int) -> bool {
    &&& stmts.len() == 2 * bs.len()
    &&& forall|i: int| 0 <= i < bs.len() ==> #[trigger] binding_at(stmts, bs, start, i)
}

/// The names map after binding `bs` in order to the locals numbered from `start`.
pub open spec fn bind_names(names: Map<Seq<char>, LocalVariableName>, bs: Seq<Binding>, start: int) -> Map<
    Seq<char>,
    LocalVariableName,
>
    decreases bs.len(),
{
    if bs.len() == 0 {
        names
    } else {
        bind_names(names, bs.drop_last(), start).insert(bs.last().0.name@, local_var(start + bs.len() - 1))
    }
}

/// Each local numbered from `start` records the name of its binding and where it was written.
pub open spec fn bound_vars(vars: Map<LocalVariableName, LocalVariableInfo>, bs: Seq<Binding>, start: int) -> bool {
    forall|i: int| 0 <= i < bs.len() ==> #[trigger] bound_var_at(vars, bs, start, i)
}

/// The local numbered `start + i` records the name of binding `i` and where it was written.
pub open spec fn bound_var_at(vars: Map<LocalVariableName, LocalVariableInfo>, bs: Seq<Binding>, start: int, i: int) -> bool {
    &&& vars.contains_key(local_var(start + i))
    &&& vars[local_var(start + i)].range == bs[i].0.range
    &&& vars[local_var(start + i)].name == Some(bs[i].0.name)
}

proof fn lemma_binds_stmts_append(s1: Seq<Statement>, b1: Seq<Binding>, s2: Seq<Statement>, b2: Seq<Binding>, start: int)
    requires
        binds_stmts(s1, b1, start),
        binds_stmts(s2, b2, start + b1.len()),
    ensures
        binds_stmts(s1 + s2, b1 + b2, start),
{
    let s = s1 + s2;
    let b = b1 + b2;
    assert forall|i: int| 0 <= i < b.len() implies #[trigger] binding_at(s, b, start, i) by {
        if i < b1.len() {
            assert(binding_at(s1, b1, start, i));
            assert(s[2 * i] == s1[2 * i]);
            assert(s[2 * i + 1] == s1[2 * i + 1]);
        } else {
            let j = i - b1.len();
            assert(binding_at(s2, b2, start + b1.len(), j));
            assert(s[2 * i] == s2[2 * j]);
            assert(s[2 * i + 1] == s2[2 * j + 1]);
            assert(b[i] == b2[j]);
            assert(start + b1.len() + j == start + i);
        }
    }
}

proof fn lemma_bind_names_append(names: Map<Seq<char>, LocalVariableName>, a: Seq<Binding>, b: Seq<Binding>, start: int)
    ensures
        bind_names(names, a + b, start) == bind_names(bind_names(names, a, start), b, start + a.len()),
    decreases b.len(),
{
    if b.len() == 0 {
        assert(a + b =~= a);
    } else {
        lemma_bind_names_append(names, a, b.drop_last(), start);
        assert((a + b).drop_last() =~= a + b.drop_last());
    }
}

proof fn lemma_bindings_len(p: Pattern, root: LocalVariableName, proj: Seq<PlaceSegment>)
    ensures
        pattern_bindings(p, root, proj).len() <= pattern_size(p),
    decreases p,
{
    match p {
        Pattern::TypeConstructor { fields, .. } => {
            lemma_fields_bindings_len(fields@, root, proj);
        },
        _ => {},
    }
}

proof fn lemma_fields_bindings_len(fs: Seq<(crate::types::NameP, Type, Pattern)>, root: LocalVariableName, proj: Seq<PlaceSegment>)
    ensures
        fields_bindings(fs, root, proj).len() <= fields_pattern_size(fs),
    decreases fs,
{
    if fs.len() > 0 {
        lemma_fields_bindings_len(fs.drop_last(), root, proj);
        lemma_bindings_len(fs.last().2, root, proj.push(PlaceSegment::Field(fs.last().0.name)));
    }
}

proof fn lemma_fields_pattern_size_prefix(fs: Seq<(crate::types::NameP, Type, Pattern)>, k: int)
    requires
        0 <= k <= fs.len(),
    ensures
        fields_pattern_size(fs.take(k)) <= fields_pattern_size(fs),
    decreases fs.len(),
{
    if k < fs.len() {
        lemma_fields_pattern_size_prefix(fs.drop_last(), k);
        assert(fs.drop_last().take(k) =~= fs.take(k));
    } else {
        assert(fs.take(k) =~= fs);
    }
}

/// The effect on the context of binding `bs` to new locals, with `r` the block
/// that does it, if any: the last block created, which the other new blocks were
/// merged into.
spec fn binds(c0: DefinitionTranslationContext, c1: DefinitionTranslationContext, bs: Seq<Binding>, r: Option<BasicBlockId>) -> bool {
    &&& c1.wf()
    &&& keeps_vars(c0.vars(), c1.vars())
    &&& fresh_locals(c0, c1)
    &&& bound_vars(c1.vars(), bs, c0.next_local() as int)
    &&& c1.next_local() == c0.next_local() + bs.len()
    &&& c1.names() == bind_names(c0.names(), bs, c0.next_local() as int)
    &&& c0.next_block() <= c1.next_block()
    &&& match r {
        None => bs.len() == 0 && c1.g() == c0.g() && c1.vars() == c0.vars() && c1.next_block() == c0.next_block(),
        Some(b) => {
            &&& bs.len() > 0
            &&& c1.g().dom() == c0.g().dom().insert(b.0)
            &&& agrees_on(c0.g(), c1.g(), c0.g().dom())
            &&& c0.next_block() <= b.0
            &&& b.0 + 1 == c1.next_block()
            &&& !c0.g().contains_key(b.0)
            &&& c1.g()[b.0].terminator.kind is Invalid
            &&& binds_stmts(c1.g()[b.0].statements@, bs, c0.next_local() as int)
        },
    }
}


/// The types of the variables a pattern binds, in the order of its bindings: a name
/// is bound at the type the whole pattern has, a field's pattern at the field's type.
pub open spec fn pattern_types(p: Pattern, ty: Type) -> Seq<Type>
    decreases p,
{
    match p {
        Pattern::Named(_) => seq![ty],
        Pattern::TypeConstructor { fields, .. } => fields_types(fields@),
        _ => Seq::empty(),
    }
}

/// The types of the variables the field patterns of a constructor bind.
pub open spec fn fields_types(fs: Seq<(crate::types::NameP, Type, Pattern)>) -> Seq<Type>
    decreases fs,
{
    if fs.len() == 0 {
        Seq::empty()
    } else {
        fields_types(fs.drop_last()) + pattern_types(fs.last().2, fs.last().1)
    }
}

/// The local numbered `start + i` records a copy of type `i`.
pub open spec fn bound_type_at(vars: Map<LocalVariableName, LocalVariableInfo>, ts: Seq<Type>, start: int, i: int) -> bool {
    &&& vars.contains_key(local_var(start + i))
    &&& same_type(ts[i], vars[local_var(start + i)].ty)
}

/// The locals numbered from `start` record copies of the types `ts`.
pub open spec fn bound_types(vars: Map<LocalVariableName, LocalVariableInfo>, ts: Seq<Type>, start: int) -> bool {
    forall|i: int| 0 <= i < ts.len() ==> #[trigger] bound_type_at(vars, ts, start, i)
}

/// The block that binds a pattern's names carries the span of the name, or of the
/// type constructor.
pub open spec fn pattern_block_range(p: Pattern) -> Range {
    match p {
        Pattern::Named(n) => n.range,
        Pattern::TypeConstructor { type_ctor, .. } => type_ctor.range,
        Pattern::Unknown(r) => r,
        Pattern::Constant { range, .. } => range,
        Pattern::Function { .. } => Range { start: crate::location::Location { line: 0, col: 0 }, end: crate::location::Location { line: 0, col: 0 } },
    }
}

proof fn lemma_types_len(p: Pattern, ty: Type, root: LocalVariableName, proj: Seq<PlaceSegment>)
    ensures
        pattern_types(p, ty).len() == pattern_bindings(p, root, proj).len(),
    decreases p,
{
    match p {
        Pattern::TypeConstructor { fields, .. } => {
            lemma_fields_types_len(fields@, root, proj);
        },
        _ => {},
    }
}

proof fn lemma_fields_types_len(fs: Seq<(crate::types::NameP, Type, Pattern)>, root: LocalVariableName, proj: Seq<PlaceSegment>)
    ensures
        fields_types(fs).len() == fields_bindings(fs, root, proj).len(),
    decreases fs,
{
    if fs.len() > 0 {
        lemma_fields_types_len(fs.drop_last(), root, proj);
        lemma_types_len(fs.last().2, fs.last().1, root, proj.push(PlaceSegment::Field(fs.last().0.name)));
    }
}

proof fn lemma_same_type_trans(a: Type, b: Type, c: Type)
    requires
        same_type(a, b),
        same_type(b, c),
    ensures
        same_type(a, c),
    decreases a,
{
    match (a, b, c) {
        (Type::Named { parameters: p1, .. }, Type::Named { parameters: p2, .. }, Type::Named { parameters: p3, .. }) => {
            assert forall|i: int| 0 <= i < p1@.len() implies same_type(#[trigger] p1@[i], p3@[i]) by {
                lemma_same_type_trans(p1@[i], p2@[i], p3@[i]);
            }
        },
        (Type::Variable { parameters: p1, .. }, Type::Variable { parameters: p2, .. }, Type::Variable { parameters: p3, .. }) => {
            assert forall|i: int| 0 <= i < p1@.len() implies same_type(#[trigger] p1@[i], p3@[i]) by {
                lemma_same_type_trans(p1@[i], p2@[i], p3@[i]);
            }
        },
        (Type::Function(l1, r1), Type::Function(l2, r2), Type::Function(l3, r3)) => {
            lemma_same_type_trans(*l1, *l2, *l3);
            lemma_same_type_trans(*r1, *r2, *r3);
        },
        (Type::Borrow { ty: t1 }, Type::Borrow { ty: t2 }, Type::Borrow { ty: t3 }) => {
            lemma_same_type_trans(*t1, *t2, *t3);
        },
        _ => {},
    }
}

/// Binding a pattern at a copy of a type binds the same types.
proof fn lemma_pattern_types_copy(p: Pattern, t1: Type, t2: Type, vars: Map<LocalVariableName, LocalVariableInfo>, start: int)
    requires
        same_type(t1, t2),
        bound_types(vars, pattern_types(p, t2), start),
    ensures
        bound_types(vars, pattern_types(p, t1), start),
{
    match p {
        Pattern::Named(_) => {
            assert(bound_type_at(vars, pattern_types(p, t2), start, 0));
            lemma_same_type_trans(t1, t2, vars[local_var(start)].ty);
            assert(bound_type_at(vars, pattern_types(p, t1), start, 0));
        },
        _ => {},
    }
}

/// Bound types stay recorded when variables are only added.
proof fn lemma_bound_types_keep(v1: Map<LocalVariableName, LocalVariableInfo>, v2: Map<LocalVariableName, LocalVariableInfo>, ts: Seq<Type>, start: int)
    requires
        bound_types(v1, ts, start),
        keeps_vars(v1, v2),
    ensures
        bound_types(v2, ts, start),
{
    assert forall|i: int| 0 <= i < ts.len() implies #[trigger] bound_type_at(v2, ts, start, i) by {
        assert(bound_type_at(v1, ts, start, i));
        assert(v1.contains_key(local_var(start + i)));
    }
}

/// Creates a local variable for each name bound by a pattern that `value` is assumed
/// to match, and a block that initialises them, with no terminator yet; returns
/// `None` when the pattern binds no name.
#[verifier::rlimit(80)]
#[verifier::spinoff_prover]
fn bind_pattern_variables(ctx: &mut DefinitionTranslationContext, value: Place, pat: &Pattern, ty: Type) -> (res: Option<BasicBlockId>)
    requires
        old(ctx).wf(),
        no_function_pattern(*pat),
        old(ctx).next_local() + pattern_size(*pat) <= u64::MAX,
        old(ctx).next_block() + 2 * pattern_size(*pat) <= u64::MAX,
    ensures
        binds(*old(ctx), *final(ctx), pattern_bindings(*pat, value@.0, value@.1), res),
        bound_types(final(ctx).vars(), pattern_types(*pat, ty), old(ctx).next_local() as int),
        res matches Some(b) ==> final(ctx).g()[b.0].terminator.range == pattern_block_range(*pat),
        *pat is Named ==> final(ctx).next_block() == old(ctx).next_block() + 1,
        final(ctx).next_block() <= old(ctx).next_block() + 2 * pattern_size(*pat),
    decreases *pat,
{
    let ghost c0 = *ctx;
    match pat {
        Pattern::Named(name) => {
            let ghost v = value@;
            let ghost ty0 = ty;
            let var = ctx.new_local_variable(
                LocalVariableInfo { range: name.range, ty, name: Some(name.name.clone()) },
            );
            let storage_live = Statement { range: name.range, kind: StatementKind::StorageLive(var) };
            let assign = Statement {
                range: name.range,
                kind: StatementKind::Assign {
                    target: Place::new(LocalVariableName::Local(var)),
                    source: Rvalue::Use(Operand::Move(value)),
                },
            };
            let block = ctx.new_block(
                BasicBlock {
                    statements: vec![storage_live, assign],
                    terminator: Terminator { range: name.range, kind: TerminatorKind::Invalid },
                },
            );
            proof {
                let c1 = *ctx;
                let bs = pattern_bindings(*pat, v.0, v.1);
                assert(bs.drop_last() =~= Seq::<Binding>::empty());
                assert(bind_names(c0.names(), bs.drop_last(), c0.next_local() as int) == c0.names());
                assert(local_var(c0.next_local() + 0) == LocalVariableName::Local(var));
                assert(binding_at(c1.g()[block.0].statements@, bs, c0.next_local() as int, 0));
                assert(c1.vars().contains_key(local_var(c0.next_local() + 0)));
                assert(bound_var_at(c1.vars(), bs, c0.next_local() as int, 0));
                assert(c1.g().dom() =~= c0.g().dom().insert(block.0));
                assert(fresh_locals(c0, c1));
                lemma_same_type_refl(ty0);
                assert(bound_type_at(c1.vars(), seq![ty0], c0.next_local() as int, 0));
                assert(bound_types(c1.vars(), pattern_types(*pat, ty0), c0.next_local() as int));
            }
            Some(block)
        },
        Pattern::TypeConstructor { type_ctor, fields } => {
            let ghost root = value@.0;
            let ghost proj = value@.1;
            let ghost fs = fields@;
            let mut blocks: Vec<BasicBlockId> = Vec::new();
            let mut i: usize = 0;
            proof {
                assert(fs.take(0) =~= Seq::<(crate::types::NameP, Type, Pattern)>::empty());
                assert(stmts_of(ctx.g(), blocks@) =~= Seq::<Statement>::empty());
            }
            #[verifier::loop_isolation(false)]
            while i < fields.len()
                invariant
                    i <= fs.len(),
                    fields@ == fs,
                    value@ == (root, proj),
                    ctx.wf(),
                    keeps_vars(c0.vars(), ctx.vars()),
                    fresh_locals(c0, *ctx),
                    bound_vars(ctx.vars(), fields_bindings(fs.take(i as int), root, proj), c0.next_local() as int),
                    ctx.next_local() == c0.next_local() + fields_bindings(fs.take(i as int), root, proj).len(),
                    ctx.names() == bind_names(c0.names(), fields_bindings(fs.take(i as int), root, proj), c0.next_local() as int),
                    ctx.next_block() <= c0.next_block() + 2 * fields_pattern_size(fs.take(i as int)),
                    c0.next_block() <= ctx.next_block(),
                    ctx.g().dom() == c0.g().dom().union(id_set(blocks@)),
                    agrees_on(c0.g(), ctx.g(), c0.g().dom()),
                    forall|j: int| 0 <= j < blocks@.len() ==> {
                        &&& ctx.g().contains_key(#[trigger] blocks@[j].0)
                        &&& !c0.g().contains_key(blocks@[j].0)
                        &&& c0.next_block() <= blocks@[j].0 < ctx.next_block()
                        &&& ctx.g()[blocks@[j].0].terminator.kind is Invalid
                    },
                    forall|a: int, b: int| 0 <= a < b < blocks@.len() ==> blocks@[a] != blocks@[b],
                    binds_stmts(stmts_of(ctx.g(), blocks@), fields_bindings(fs.take(i as int), root, proj), c0.next_local() as int),
                    blocks@.len() == 0 <==> fields_bindings(fs.take(i as int), root, proj).len() == 0,
                    blocks@.len() == 0 ==> ctx.vars() == c0.vars() && ctx.next_block() == c0.next_block(),
                    bound_types(ctx.vars(), fields_types(fs.take(i as int)), c0.next_local() as int),
                decreases fs.len() - i,
            {
                let ghost c1 = *ctx;
                let ghost prev_blocks = blocks@;
                let field_name = &fields[i].0;
                let field_ty = &fields[i].1;
                let field_pat = &fields[i].2;
                proof {
                    assert(fs.take(i + 1).drop_last() =~= fs.take(i as int));
                    assert(fs.take(i + 1).last() == fs[i as int]);
                    lemma_fields_bindings_len(fs.take(i as int), root, proj);
                    lemma_fields_pattern_size_prefix(fs, i + 1);
                    assert(no_function_pattern(fs[i as int].2));
                }
                let part = value.duplicate().projected(PlaceSegment::Field(field_name.name.clone()));
                let field_copy = field_ty.duplicate();
                let ghost copy0 = field_copy;
                let sub = bind_pattern_variables(ctx, part, field_pat, field_copy);
                let ghost sub_bs = pattern_bindings(fs[i as int].2, root, proj.push(PlaceSegment::Field(fs[i as int].0.name)));
                proof {
                    lemma_bind_names_append(c0.names(), fields_bindings(fs.take(i as int), root, proj), sub_bs, c0.next_local() as int);
                    assert(fields_bindings(fs.take(i + 1), root, proj) == fields_bindings(fs.take(i as int), root, proj) + sub_bs);
                }
                match sub {
                    Some(b) => {
                        blocks.push(b);
                    },
                    None => {},
                }
                proof {
                    let c2 = *ctx;
                    lemma_fresh_locals_trans(c0, c1, c2);
                    let fty = fs[i as int].1;
                    let sub_ts = pattern_types(fs[i as int].2, fty);
                    lemma_pattern_types_copy(fs[i as int].2, fty, copy0, c2.vars(), c1.next_local() as int);
                    lemma_bound_types_keep(c1.vars(), c2.vars(), fields_types(fs.take(i as int)), c0.next_local() as int);
                    lemma_fields_types_len(fs.take(i as int), root, proj);
                    lemma_types_len(fs[i as int].2, fty, root, proj.push(PlaceSegment::Field(fs[i as int].0.name)));
                    let prev_ts = fields_types(fs.take(i as int));
                    assert(fields_types(fs.take(i + 1)) == prev_ts + sub_ts);
                    let all_ts = prev_ts + sub_ts;
                    assert forall|k: int| 0 <= k < all_ts.len() implies #[trigger] bound_type_at(c2.vars(), all_ts, c0.next_local() as int, k) by {
                        if k < prev_ts.len() {
                            assert(bound_type_at(c2.vars(), prev_ts, c0.next_local() as int, k));
                        } else {
                            let j = k - prev_ts.len();
                            assert(all_ts[k] == sub_ts[j]);
                            assert(bound_type_at(c2.vars(), sub_ts, c1.next_local() as int, j));
                            assert(local_var(c1.next_local() + j) == local_var(c0.next_local() + k));
                        }
                    }
                    let prev = fields_bindings(fs.take(i as int), root, proj);
                    let all_b = prev + sub_bs;
                    assert forall|k: int| 0 <= k < all_b.len() implies #[trigger] bound_var_at(c2.vars(), all_b, c0.next_local() as int, k) by {
                        if k < prev.len() {
                            assert(bound_var_at(c1.vars(), prev, c0.next_local() as int, k));
                            assert(c1.vars().contains_key(local_var(c0.next_local() + k)));
                        } else {
                            let j = k - prev.len();
                            assert(all_b[k] == sub_bs[j]);
                            assert(bound_var_at(c2.vars(), sub_bs, c1.next_local() as int, j));
                            assert(local_var(c1.next_local() + j) == local_var(c0.next_local() + k));
                        }
                    }
                    match sub {
                        Some(b) => {
                            assert(blocks@ == prev_blocks.push(b));
                            assert(blocks@.drop_last() =~= prev_blocks);
                            assert forall|j: int| 0 <= j < prev_blocks.len() implies c2.g()[#[trigger] prev_blocks[j].0] == c1.g()[prev_blocks[j].0] by {
                                assert(c1.g().dom().contains(prev_blocks[j].0));
                            }
                            lemma_stmts_of_agree(c1.g(), c2.g(), prev_blocks);
                            lemma_binds_stmts_append(stmts_of(c1.g(), prev_blocks), prev, c2.g()[b.0].statements@, sub_bs, c0.next_local() as int);
                            assert(forall|k: u64| #[trigger] id_set(blocks@).contains(k) <==> (id_set(prev_blocks).contains(k) || k == b.0)) by {
                                assert forall|k: u64| #[trigger] id_set(blocks@).contains(k) <==> (id_set(prev_blocks).contains(k) || k == b.0) by {
                                    if id_set(blocks@).contains(k) {
                                        let j = choose|j: int| 0 <= j < blocks@.len() && #[trigger] blocks@[j].0 == k;
                                        if j < prev_blocks.len() {
                                            assert(prev_blocks[j].0 == k);
                                        }
                                    }
                                    if id_set(prev_blocks).contains(k) {
                                        let j = choose|j: int| 0 <= j < prev_blocks.len() && #[trigger] prev_blocks[j].0 == k;
                                        assert(blocks@[j].0 == k);
                                    }
                                    if k == b.0 {
                                        assert(blocks@[blocks@.len() - 1].0 == k);
                                    }
                                }
                            }
                            assert(c2.g().dom() =~= c0.g().dom().union(id_set(blocks@)));
                            assert forall|j: int| 0 <= j < blocks@.len() implies {
                                &&& c2.g().contains_key(#[trigger] blocks@[j].0)
                                &&& !c0.g().contains_key(blocks@[j].0)
                                &&& c0.next_block() <= blocks@[j].0 < c2.next_block()
                                &&& c2.g()[blocks@[j].0].terminator.kind is Invalid
                            } by {
                                if j < prev_blocks.len() {
                                    assert(blocks@[j] == prev_blocks[j]);
                                    assert(c1.g().dom().contains(prev_blocks[j].0));
                                } else {
                                    assert(blocks@[j] == b);
                                    assert(!c1.g().contains_key(b.0));
                                    assert(c0.g().dom().subset_of(c1.g().dom()));
                                }
                            }
                            assert forall|a: int, b2: int| 0 <= a < b2 < blocks@.len() implies blocks@[a] != blocks@[b2] by {
                                if b2 == blocks@.len() - 1 {
                                    assert(c1.g().contains_key(blocks@[a].0));
                                }
                            }
                        },
                        None => {
                            assert(sub_bs.len() == 0);
                            assert(prev + sub_bs =~= prev);
                        },
                    }
                }
                i = i + 1;
            }
            proof {
                assert(fs.take(fs.len() as int) =~= fs);
                assert(pattern_types(*pat, ty) == fields_types(fs));
            }
            if blocks.len() == 0 {
                proof {
                    assert(id_set(blocks@) =~= Set::<u64>::empty());
                    assert(ctx.g() =~= c0.g());
                }
                None
            } else {
                let ghost c3 = *ctx;
                let res = chain(ctx, blocks, type_ctor.range);
                proof {
                    let c4 = *ctx;
                    assert(c4.vars() == c3.vars());
                    if c3.g().contains_key(res.0) {
                        c3.control_flow_graph.lemma_ids_below(res.0);
                    }
                    assert(!c3.g().contains_key(res.0));
                    assert(c4.g().dom() =~= c0.g().dom().insert(res.0));
                    assert forall|k: u64| #[trigger] c0.g().dom().contains(k) && c0.g().contains_key(k) implies c4.g().contains_key(k) && c4.g()[k] == c0.g()[k] by {
                        assert(c3.g()[k] == c0.g()[k]);
                        if id_set(blocks@).contains(k) {
                            let j = choose|j: int| 0 <= j < blocks@.len() && #[trigger] blocks@[j].0 == k;
                            assert(!c0.g().contains_key(blocks@[j].0));
                        }
                        assert(c4.g().contains_key(k));
                        assert(k != res.0);
                    }
                }
                Some(res)
            }
        },
        Pattern::Function { .. } | Pattern::Constant { .. } => {
            proof {
                assert(false);
            }
            None
        },
        Pattern::Unknown(_) => {
            proof {
                assert(ctx.g() == c0.g());
                assert(pattern_bindings(*pat, value@.0, value@.1) =~= Seq::<Binding>::empty());
            }
            None
        },
    }
}


proof fn lemma_bound_vars_keep(v1: Map<LocalVariableName, LocalVariableInfo>, v2: Map<LocalVariableName, LocalVariableInfo>, bs: Seq<Binding>, start: int)
    requires
        bound_vars(v1, bs, start),
        keeps_vars(v1, v2),
    ensures
        bound_vars(v2, bs, start),
{
    assert forall|i: int| 0 <= i < bs.len() implies #[trigger] bound_var_at(v2, bs, start, i) by {
        assert(bound_var_at(v1, bs, start, i));
        assert(v1.contains_key(local_var(start + i)));
    }
}

proof fn lemma_declared_vars_keep(v1: Map<LocalVariableName, LocalVariableInfo>, v2: Map<LocalVariableName, LocalVariableInfo>, ds: Seq<(crate::types::NameP, Type)>, start: int)
    requires
        declared_vars(v1, ds, start),
        keeps_vars(v1, v2),
    ensures
        declared_vars(v2, ds, start),
{
    assert forall|i: int| 0 <= i < ds.len() implies #[trigger] declared_var_at(v2, ds, start, i) by {
        assert(declared_var_at(v1, ds, start, i));
        assert(v1.contains_key(local_var(start + i)));
    }
}

/// The number of arguments whose patterns the first case of a definition binds:
/// those that have both a pattern and a type.
pub open spec fn bound_arity(def: Definition) -> int {
    let p = def.cases@[0].arg_patterns@.len();
    let t = def.arg_types@.len();
    if p < t { p as int } else { t as int }
}

/// The names the patterns of the first `n` arguments bind, argument after argument.
pub open spec fn args_bindings(pats: Seq<Pattern>, n: int) -> Seq<Binding>
    decreases n,
{
    if n <= 0 {
        Seq::empty()
    } else {
        args_bindings(pats, n - 1) + pattern_bindings(
            pats[n - 1],
            LocalVariableName::Argument(ArgumentIndex((n - 1) as u64)),
            Seq::empty(),
        )
    }
}

/// The types of the names the patterns of the first `n` arguments bind, argument
/// after argument: each pattern is bound at the type of its own argument.
pub open spec fn args_types(pats: Seq<Pattern>, tys: Seq<Type>, n: int) -> Seq<Type>
    decreases n,
{
    if n <= 0 {
        Seq::empty()
    } else {
        args_types(pats, tys, n - 1) + pattern_types(pats[n - 1], tys[n - 1])
    }
}

/// The types of the names the patterns of the first case of `def` bind.
pub open spec fn case_types(def: Definition) -> Seq<Type> {
    args_types(def.cases@[0].arg_patterns@, def.arg_types@, bound_arity(def))
}

proof fn lemma_args_types_len(pats: Seq<Pattern>, tys: Seq<Type>, n: int)
    ensures
        args_types(pats, tys, n).len() == args_bindings(pats, n).len(),
    decreases n,
{
    if n > 0 {
        lemma_args_types_len(pats, tys, n - 1);
        lemma_types_len(pats[n - 1], tys[n - 1], LocalVariableName::Argument(ArgumentIndex((n - 1) as u64)), Seq::empty());
    }
}

proof fn lemma_args_types_prefix(pats: Seq<Pattern>, tys: Seq<Type>, j: int, n: int)
    requires
        0 <= j <= n,
    ensures
        args_types(pats, tys, j).len() <= args_types(pats, tys, n).len(),
        forall|k: int| 0 <= k < args_types(pats, tys, j).len()
            ==> #[trigger] args_types(pats, tys, n)[k] == args_types(pats, tys, j)[k],
    decreases n - j,
{
    if j < n {
        lemma_args_types_prefix(pats, tys, j, n - 1);
    }
}

proof fn lemma_bound_types_append(vars: Map<LocalVariableName, LocalVariableInfo>, a: Seq<Type>, b: Seq<Type>, start: int)
    requires
        bound_types(vars, a, start),
        bound_types(vars, b, start + a.len()),
    ensures
        bound_types(vars, a + b, start),
{
    assert forall|i: int| 0 <= i < (a + b).len() implies #[trigger] bound_type_at(vars, a + b, start, i) by {
        if i < a.len() {
            assert(bound_type_at(vars, a, start, i));
        } else {
            assert(bound_type_at(vars, b, start + a.len(), i - a.len()));
            assert(start + a.len() + (i - a.len()) == start + i);
        }
    }
}

pub open spec fn args_pattern_size(pats: Seq<Pattern>, n: int) -> nat
    decreases n,
{
    if n <= 0 {
        0
    } else {
        args_pattern_size(pats, n - 1) + pattern_size(pats[n - 1])
    }
}

/// The bindings of the first case of a definition.
pub open spec fn case_bindings(def: Definition) -> Seq<Binding> {
    args_bindings(def.cases@[0].arg_patterns@, bound_arity(def))
}

/// The names known when the body of the first case of a definition is translated:
/// those its patterns bind, then those its `let` statements declare.
pub open spec fn case_names(def: Definition) -> Map<Seq<char>, LocalVariableName> {
    let bs = case_bindings(def);
    declare(bind_names(Map::empty(), bs, 0), let_decls(def.cases@[0].replacement), bs.len() as int)
}

/// The definitions that can be translated: the first case exists, has no function
/// patterns, names only what it binds, and is small enough for 64-bit counters.
pub open spec fn translatable(def: Definition) -> bool {
    let case = def.cases@[0];
    &&& def.cases@.len() > 0
    &&& forall|i: int| 0 <= i < bound_arity(def) ==> no_function_pattern(#[trigger] case.arg_patterns@[i])
    &&& names_bound(case.replacement, case_names(def).dom())
    &&& 2 * (args_pattern_size(case.arg_patterns@, bound_arity(def)) + expr_size(case.replacement)) + 2 <= u64::MAX
}

/// Each argument records the span of the definition, no name, and a copy of its type.
pub open spec fn argument_vars(vars: Map<LocalVariableName, LocalVariableInfo>, def: Definition) -> bool {
    forall|i: int| 0 <= i < def.arg_types@.len() ==> #[trigger] argument_var_at(vars, def, i)
}

/// Argument `i` records the span of the definition, no name, and a copy of its type.
pub open spec fn argument_var_at(vars: Map<LocalVariableName, LocalVariableInfo>, def: Definition, i: int) -> bool {
    let a = LocalVariableName::Argument(ArgumentIndex(i as u64));
    &&& vars.contains_key(a)
    &&& vars[a].range == def.range
    &&& vars[a].name is None
    &&& same_type(def.arg_types@[i], vars[a].ty)
}

/// A control flow graph ready for code generation: every block has a real terminator,
/// every jump lands on a block, and the entry block exists.
pub open spec fn cfg_complete(g: Map<u64, BasicBlock>, entry: u64) -> bool {
    &&& g.contains_key(entry)
    &&& jumps_closed(g)
    &&& forall|k: u64| #[trigger] g.contains_key(k) ==> !(g[k].terminator.kind is Invalid)
}

/// The graph of `m` is the translation of the first case of `def`, and holds nothing
/// else: the entry block binds the argument patterns and jumps to the blocks that
/// compute the body into a variable, which then jump to a block that returns that
/// variable. The blocks are numbered in a row from the entry: the entry, the return
/// block, then those of the body, which run straight from the first to the last.
pub open spec fn cfg_translates(def: Definition, g: Map<u64, BasicBlock>, vars: Map<LocalVariableName, LocalVariableInfo>, entry: u64, fb: u64, rb: u64, fv: LocalVariableName) -> bool {
    &&& g.contains_key(entry)
    &&& binds_stmts(g[entry].statements@, case_bindings(def), 0)
    &&& g[entry].terminator == goto_term(fb, def.range)
    &&& rb == entry + 1
    &&& forall|k: u64| #[trigger] g.contains_key(k)
        <==> entry <= k < entry + 2 + blocks_made(def.cases@[0].replacement)
    &&& fb == result_entry(def.cases@[0].replacement, entry + 2, body_first_local(def))
    &&& fv == result_var(def.cases@[0].replacement, body_first_local(def), case_names(def))
    &&& straight_run(g, block_path(def.cases@[0].replacement, entry + 2, body_first_local(def)), goto_term(rb, def.range))
    &&& g[rb].statements@.len() == 0
    &&& g[rb].terminator == (Terminator { range: def.range, kind: TerminatorKind::Return { value: fv } })
    &&& forall|k: u64| #[trigger] g.contains_key(k) && g[k].terminator.kind is Return ==> k == rb
    &&& evaluates(g, g.dom().remove(entry).remove(rb), case_names(def), vars, fb, def.cases@[0].replacement, fv, goto_term(rb, def.range), body_first_local(def))
}

/// The first local ID left for the translation of the body of `def`: those before it
/// hold the pattern bindings and the `let` declarations.
pub open spec fn body_first_local(def: Definition) -> int {
    (case_bindings(def).len() + let_decls(def.cases@[0].replacement).len()) as int
}

/// `m` is the translation of `def`.
pub open spec fn definition_translated(def: Definition, m: DefinitionM) -> bool {
    let g = m.control_flow_graph@;
    let vars = m.local_variable_names@;
    &&& m.range == def.range
    &&& m.type_variables@ == def.type_variables@
    &&& m.arity == def.arg_types@.len()
    &&& same_type(def.return_type, m.return_type)
    &&& argument_vars(vars, def)
    &&& forall|a: ArgumentIndex| #[trigger] vars.contains_key(LocalVariableName::Argument(a)) ==> a.0 < m.arity
    &&& bound_vars(vars, case_bindings(def), 0)
    &&& bound_types(vars, case_types(def), 0)
    &&& declared_vars(vars, let_decls(def.cases@[0].replacement), case_bindings(def).len() as int)
    &&& cfg_complete(g, m.entry_point.0)
    &&& exists|fb: u64, rb: u64, fv: LocalVariableName| #[trigger] cfg_translates(def, g, vars, m.entry_point.0, fb, rb, fv)
}

/// Each argument's pattern is bound at the type of that argument: where the pattern of
/// argument `i` is a plain name, the local it binds (the first after those of the
/// arguments before it) records a copy of the type of argument `i`.
pub proof fn lemma_named_pattern_has_its_argument_type(def: Definition, m: DefinitionM, i: int)
    requires
        definition_translated(def, m),
        0 <= i < bound_arity(def),
        def.cases@[0].arg_patterns@[i] is Named,
    ensures
        ({
            let v = local_var(args_bindings(def.cases@[0].arg_patterns@, i).len() as int);
            &&& m.local_variable_names@.contains_key(v)
            &&& same_type(def.arg_types@[i], m.local_variable_names@[v].ty)
        }),
{
    let pats = def.cases@[0].arg_patterns@;
    let tys = def.arg_types@;
    let vars = m.local_variable_names@;
    lemma_args_types_len(pats, tys, i);
    lemma_args_types_prefix(pats, tys, i + 1, bound_arity(def));
    let k = args_types(pats, tys, i).len() as int;
    assert(args_types(pats, tys, i + 1) == args_types(pats, tys, i) + seq![tys[i]]);
    assert(args_types(pats, tys, i + 1)[k] == tys[i]);
    assert(case_types(def)[k] == tys[i]);
    assert(bound_type_at(vars, case_types(def), 0, k));
}

impl DefinitionTranslationContext {
    /// Replaces the terminator of a block.
    fn set_terminator(&mut self, id: BasicBlockId, terminator: Terminator)
        requires
            old(self).wf(),
            old(self).g().contains_key(id.0),
        ensures
            final(self).wf(),
            final(self).g().dom() == old(self).g().dom(),
            forall|k: u64| k != id.0 && old(self).g().contains_key(k) ==> #[trigger] final(self).g()[k] == old(self).g()[k],
            final(self).g()[id.0].statements == old(self).g()[id.0].statements,
            final(self).g()[id.0].terminator == terminator,
            final(self).next_block() == old(self).next_block(),
            final(self).vars() == old(self).vars(),
            final(self).names() == old(self).names(),
            final(self).next_local() == old(self).next_local(),
    {
        self.control_flow_graph.set_terminator(id, terminator);
        assert(self.vars() == old(self).vars());
        assert(forall|l: LocalVariableId| #[trigger]
            old(self).vars().contains_key(LocalVariableName::Local(l)) ==> l.0 < old(self).next_local());
    }
}

proof fn lemma_args_pattern_size_mono(pats: Seq<Pattern>, i: int, n: int)
    requires
        0 <= i <= n,
    ensures
        args_pattern_size(pats, i) <= args_pattern_size(pats, n),
    decreases n - i,
{
    if i < n {
        lemma_args_pattern_size_mono(pats, i, n - 1);
    }
}

/// Creates the control flow graph of a definition, and returns its entry block.
/// Only the first case of the definition is translated.
fn create_cfg(ctx: &mut DefinitionTranslationContext, def: Definition) -> (res: BasicBlockId)
    requires
        old(ctx).wf(),
        old(ctx).g() == Map::<u64, BasicBlock>::empty(),
        old(ctx).next_block() == 0,
        old(ctx).next_local() == 0,
        old(ctx).names() == Map::<Seq<char>, LocalVariableName>::empty(),
        translatable(def),
    ensures
        final(ctx).wf(),
        keeps_vars(old(ctx).vars(), final(ctx).vars()),
        fresh_locals(*old(ctx), *final(ctx)),
        bound_vars(final(ctx).vars(), case_bindings(def), 0),
        bound_types(final(ctx).vars(), case_types(def), 0),
        declared_vars(final(ctx).vars(), let_decls(def.cases@[0].replacement), case_bindings(def).len() as int),
        cfg_complete(final(ctx).g(), res.0),
        exists|fb: u64, rb: u64, fv: LocalVariableName| #[trigger] cfg_translates(def, final(ctx).g(), final(ctx).vars(), res.0, fb, rb, fv),
{
    let ghost c0 = *ctx;
    let ghost d = def;
    let range = def.range;
    let arg_types = def.arg_types;
    let mut cases = def.cases;
    let case = cases.remove(0);
    let arg_patterns = case.arg_patterns;
    let replacement = case.replacement;
    let ghost pats = arg_patterns@;
    let ghost tys = arg_types@;
    let n: usize = if arg_patterns.len() < arg_types.len() {
        arg_patterns.len()
    } else {
        arg_types.len()
    };
    proof {
        assert(n == bound_arity(d));
    }
    let mut unwrap_patterns_blocks: Vec<BasicBlockId> = Vec::new();
    let mut i: usize = 0;
    proof {
        assert(stmts_of(ctx.g(), unwrap_patterns_blocks@) =~= Seq::<Statement>::empty());
        assert(id_set(unwrap_patterns_blocks@) =~= Set::<u64>::empty());
        assert(c0.g().dom() =~= Set::<u64>::empty());
    }
    #[verifier::loop_isolation(false)]
    while i < n
        invariant
            i <= n,
            n == bound_arity(d),
            arg_patterns@ == pats,
            ctx.wf(),
            keeps_vars(c0.vars(), ctx.vars()),
            fresh_locals(c0, *ctx),
            bound_vars(ctx.vars(), args_bindings(pats, i as int), 0),
            arg_types@ == tys,
            bound_types(ctx.vars(), args_types(pats, tys, i as int), 0),
            ctx.next_local() == args_bindings(pats, i as int).len(),
            ctx.names() == bind_names(c0.names(), args_bindings(pats, i as int), 0),
            ctx.next_block() <= 2 * args_pattern_size(pats, i as int),
            ctx.g().dom() == id_set(unwrap_patterns_blocks@),
            forall|j: int| 0 <= j < unwrap_patterns_blocks@.len() ==> {
                &&& ctx.g().contains_key(#[trigger] unwrap_patterns_blocks@[j].0)
                &&& unwrap_patterns_blocks@[j].0 < ctx.next_block()
                &&& ctx.g()[unwrap_patterns_blocks@[j].0].terminator.kind is Invalid
            },
            forall|a: int, b: int| 0 <= a < b < unwrap_patterns_blocks@.len() ==> unwrap_patterns_blocks@[a] != unwrap_patterns_blocks@[b],
            binds_stmts(stmts_of(ctx.g(), unwrap_patterns_blocks@), args_bindings(pats, i as int), 0),
        decreases n - i,
    {
        let ghost c1 = *ctx;
        let ghost prev_blocks = unwrap_patterns_blocks@;
        let ghost sub_bs = pattern_bindings(pats[i as int], LocalVariableName::Argument(ArgumentIndex(i as u64)), Seq::empty());
        proof {
            lemma_bindings_len(pats[i as int], LocalVariableName::Argument(ArgumentIndex(i as u64)), Seq::empty());
            lemma_args_pattern_size_mono(pats, i + 1, n as int);
            lemma_bindings_args_len(pats, i as int);
            assert(no_function_pattern(pats[i as int]));
        }
        let sub = bind_pattern_variables(
            ctx,
            Place::new(LocalVariableName::Argument(ArgumentIndex(i as u64))),
            &arg_patterns[i],
            arg_types[i].duplicate(),
        );
        proof {
            lemma_bind_names_append(c0.names(), args_bindings(pats, i as int), sub_bs, 0);
            assert(args_bindings(pats, i + 1) == args_bindings(pats, i as int) + sub_bs);
            let c2 = *ctx;
            let prev_t = args_types(pats, tys, i as int);
            assert(exists|t: Type| same_type(tys[i as int], t)
                && #[trigger] bound_types(c2.vars(), pattern_types(pats[i as int], t), c1.next_local() as int));
            let t = choose|t: Type| same_type(tys[i as int], t)
                && #[trigger] bound_types(c2.vars(), pattern_types(pats[i as int], t), c1.next_local() as int);
            lemma_pattern_types_copy(pats[i as int], tys[i as int], t, c2.vars(), c1.next_local() as int);
            lemma_args_types_len(pats, tys, i as int);
            lemma_bound_types_keep(c1.vars(), c2.vars(), prev_t, 0);
            lemma_bound_types_append(c2.vars(), prev_t, pattern_types(pats[i as int], tys[i as int]), 0);
            assert(args_types(pats, tys, i + 1) == prev_t + pattern_types(pats[i as int], tys[i as int]));
        }
        match sub {
            Some(b) => {
                unwrap_patterns_blocks.push(b);
            },
            None => {},
        }
        proof {
            let c2 = *ctx;
            lemma_fresh_locals_trans(c0, c1, c2);
            let prev = args_bindings(pats, i as int);
            let all_b = prev + sub_bs;
            assert forall|k: int| 0 <= k < all_b.len() implies #[trigger] bound_var_at(c2.vars(), all_b, 0, k) by {
                if k < prev.len() {
                    assert(bound_var_at(c1.vars(), prev, 0, k));
                    assert(c1.vars().contains_key(local_var(0 + k)));
                } else {
                    let j = k - prev.len();
                    assert(all_b[k] == sub_bs[j]);
                    assert(bound_var_at(c2.vars(), sub_bs, c1.next_local() as int, j));
                    assert(local_var(c1.next_local() + j) == local_var(0 + k));
                }
            }
            match sub {
                Some(b) => {
                    let blocks = unwrap_patterns_blocks@;
                    assert(blocks == prev_blocks.push(b));
                    assert(blocks.drop_last() =~= prev_blocks);
                    assert forall|j: int| 0 <= j < prev_blocks.len() implies c2.g()[#[trigger] prev_blocks[j].0] == c1.g()[prev_blocks[j].0] by {
                        assert(c1.g().dom().contains(prev_blocks[j].0));
                    }
                    lemma_stmts_of_agree(c1.g(), c2.g(), prev_blocks);
                    lemma_binds_stmts_append(stmts_of(c1.g(), prev_blocks), prev, c2.g()[b.0].statements@, sub_bs, 0);
                    assert forall|k: u64| #[trigger] id_set(blocks).contains(k) <==> (id_set(prev_blocks).contains(k) || k == b.0) by {
                        if id_set(blocks).contains(k) {
                            let j = choose|j: int| 0 <= j < blocks.len() && #[trigger] blocks[j].0 == k;
                            if j < prev_blocks.len() {
                                assert(prev_blocks[j].0 == k);
                            }
                        }
                        if id_set(prev_blocks).contains(k) {
                            let j = choose|j: int| 0 <= j < prev_blocks.len() && #[trigger] prev_blocks[j].0 == k;
                            assert(blocks[j].0 == k);
                        }
                        if k == b.0 {
                            assert(blocks[blocks.len() - 1].0 == k);
                        }
                    }
                    assert(c2.g().dom() =~= id_set(blocks));
                    assert forall|j: int| 0 <= j < blocks.len() implies {
                        &&& c2.g().contains_key(#[trigger] blocks[j].0)
                        &&& blocks[j].0 < c2.next_block()
                        &&& c2.g()[blocks[j].0].terminator.kind is Invalid
                    } by {
                        if j < prev_blocks.len() {
                            assert(blocks[j] == prev_blocks[j]);
                            assert(c1.g().dom().contains(prev_blocks[j].0));
                        }
                    }
                    assert forall|a: int, b2: int| 0 <= a < b2 < blocks.len() implies blocks[a] != blocks[b2] by {
                        if b2 == blocks.len() - 1 {
                            assert(c1.g().contains_key(blocks[a].0));
                        }
                    }
                },
                None => {
                    assert(sub_bs.len() == 0);
                    assert(prev + sub_bs =~= prev);
                },
            }
        }
        i = i + 1;
    }
    let ghost bs = args_bindings(pats, n as int);
    let ghost c3 = *ctx;
    proof {
        assert(bs == case_bindings(d));
        lemma_args_pattern_size_mono(pats, n as int, n as int);
    }
    let unwrap_patterns_block = chain(ctx, unwrap_patterns_blocks, range);
    let ghost c4 = *ctx;
    proof {
        assert(c4.g().dom() =~= Set::<u64>::empty().insert(unwrap_patterns_block.0));
    }
    let return_block = ctx.new_block(
        BasicBlock { statements: Vec::new(), terminator: Terminator { range, kind: TerminatorKind::Invalid } },
    );
    let ghost c5 = *ctx;
    proof {
        lemma_let_decls_len(replacement);
        lemma_bindings_args_len(pats, n as int);
    }
    initialise_expr(ctx, &replacement);
    let ghost c6 = *ctx;
    proof {
        assert(c6.names() == case_names(d));
        assert(c6.g().contains_key(return_block.0));
    }
    let (function_block, function_variable) = generate_expr(
        ctx,
        replacement,
        Terminator { range, kind: TerminatorKind::Goto(return_block) },
    );
    let ghost c7 = *ctx;
    proof {
        assert(c6.g().dom().contains(return_block.0));
        assert(c6.g().dom().contains(unwrap_patterns_block.0));
    }
    ctx.set_terminator(
        return_block,
        Terminator { range, kind: TerminatorKind::Return { value: function_variable } },
    );
    ctx.set_terminator(
        unwrap_patterns_block,
        Terminator { range, kind: TerminatorKind::Goto(function_block) },
    );
    proof {
        let c8 = *ctx;
        let entry = unwrap_patterns_block.0;
        let rb = return_block.0;
        let fb = function_block.0;
        let g = c8.g();
        assert(entry != rb);
        assert(g.dom() =~= added(c6, c7).insert(entry).insert(rb));
        assert(agrees_on(c7.g(), g, added(c6, c7)));
        lemma_evaluates_frame(c7.g(), g, added(c6, c7), g.dom().remove(entry).remove(rb), c6.names(), c7.vars(), c8.vars(), fb, d.cases@[0].replacement, function_variable, goto_term(rb, d.range), c6.next_local() as int);
        assert(g[entry].statements == c4.g()[entry].statements);
        assert(binds_stmts(g[entry].statements@, case_bindings(d), 0));
        assert forall|k: u64| #[trigger] g.contains_key(k) && g[k].terminator.kind is Return implies k == rb by {
            if k != entry && k != rb {
                assert(added(c6, c7).contains(k));
                assert(g[k] == c7.g()[k]);
            }
        }
        assert(c6.next_local() == body_first_local(d));
        assert forall|k: u64| #[trigger] g.contains_key(k)
            <==> entry <= k < entry + 2 + blocks_made(d.cases@[0].replacement) by {
            if entry + 2 <= k < entry + 2 + blocks_made(d.cases@[0].replacement) {
                assert(added(c6, c7).contains(k));
            }
        }
        lemma_run_frame(c7.g(), g, added(c6, c7), block_path(d.cases@[0].replacement, c6.next_block() as int, c6.next_local() as int), c6.next_block() as int, blocks_made(d.cases@[0].replacement) as int, goto_term(rb, d.range));
        assert(cfg_translates(d, g, c8.vars(), entry, fb, rb, function_variable));
        let bp = block_path(d.cases@[0].replacement, c6.next_block() as int, c6.next_local() as int);
        let nbody = blocks_made(d.cases@[0].replacement) as int;
        assert(straight_run(g, bp, goto_term(rb, d.range)));
        assert(lists_range(bp, entry + 2, nbody));
        assert forall|k: u64, b: u64| #![trigger jumps_to(g[k].terminator, b)]
            g.contains_key(k) && jumps_to(g[k].terminator, b) implies g.contains_key(b) by {
            if k == entry {
                assert(bp[0] == fb);
                assert(g.contains_key(bp[0] as u64));
            } else if k != rb {
                assert(bp.contains(k as int));
                let i = choose|i: int| 0 <= i < bp.len() && bp[i] == k as int;
                if i < bp.len() - 1 {
                    assert(g[bp[i] as u64].terminator.kind == TerminatorKind::Goto(BasicBlockId(bp[i + 1] as u64)));
                    assert(g.contains_key(bp[i + 1] as u64));
                } else {
                    assert(bp.last() == bp[i]);
                }
            }
        }
        assert forall|k: u64| #[trigger] g.contains_key(k) implies !(g[k].terminator.kind is Invalid) by {
            if k != entry && k != rb {
                assert(added(c6, c7).contains(k));
            }
        }
        lemma_grows_trans(c6, c6, c7);
        assert(keeps_vars(c0.vars(), c8.vars()));
        assert(fresh_locals(c3, c5));
        lemma_fresh_locals_trans(c0, c3, c5);
        lemma_fresh_locals_trans(c0, c5, c6);
        lemma_fresh_locals_trans(c0, c6, c7);
        assert(fresh_locals(c7, c8));
        lemma_fresh_locals_trans(c0, c7, c8);
        lemma_bound_vars_keep(c3.vars(), c8.vars(), bs, 0);
        assert(case_types(d) == args_types(pats, tys, n as int));
        lemma_bound_types_keep(c3.vars(), c8.vars(), case_types(d), 0);
        lemma_declared_vars_keep(c6.vars(), c8.vars(), let_decls(d.cases@[0].replacement), bs.len() as int);
    }
    unwrap_patterns_block
}

proof fn lemma_bindings_args_len(pats: Seq<Pattern>, n: int)
    requires
        n >= 0,
    ensures
        args_bindings(pats, n).len() <= args_pattern_size(pats, n),
    decreases n,
{
    if n > 0 {
        lemma_bindings_args_len(pats, n - 1);
        lemma_bindings_len(pats[n - 1], LocalVariableName::Argument(ArgumentIndex((n - 1) as u64)), Seq::empty());
    }
}


/// A copy of a list of strings.
fn copy_strings(v: &Vec<String>) -> (res: Vec<String>)
    ensures
        res@ == v@,
{
    let mut res: Vec<String> = Vec::new();
    let mut i: usize = 0;
    while i < v.len()
        invariant
            i <= v@.len(),
            res@ == v@.take(i as int),
        decreases v@.len() - i,
    {
        res.push(v[i].clone());
        i = i + 1;
        assert(res@ =~= v@.take(i as int));
    }
    assert(v@.take(v@.len() as int) =~= v@);
    res
}

/// Translates one definition into its control flow graph.
fn to_mir_def(def: Definition) -> (res: DefinitionM)
    requires
        translatable(def),
    ensures
        definition_translated(def, res),
{
    let ghost d = def;
    let mut ctx = DefinitionTranslationContext {
        next_local_variable_id: LocalVariableId(0),
        local_name_map: NameMap::new(),
        local_variable_names: LocalVariableTable::new(),
        control_flow_graph: ControlFlowGraph::new(),
    };
    let range = def.range;
    let type_variables = copy_strings(&def.type_variables);
    let arity = def.arg_types.len() as u64;
    let return_type = def.return_type.duplicate();
    let mut i: usize = 0;
    while i < def.arg_types.len()
        invariant
            i <= d.arg_types@.len(),
            def == d,
            range == d.range,
            ctx.wf(),
            ctx.g() == Map::<u64, BasicBlock>::empty(),
            ctx.next_block() == 0,
            ctx.next_local() == 0,
            ctx.names() == Map::<Seq<char>, LocalVariableName>::empty(),
            forall|j: int| 0 <= j < i ==> #[trigger] argument_var_at(ctx.vars(), d, j),
            forall|a: ArgumentIndex| #[trigger] ctx.vars().contains_key(LocalVariableName::Argument(a)) ==> a.0 < i,
        decreases d.arg_types@.len() - i,
    {
        let ghost before = ctx.vars();
        let ty = def.arg_types[i].duplicate();
        let ghost info = LocalVariableInfo { range, ty, name: None };
        ctx.local_variable_names.insert(
            LocalVariableName::Argument(ArgumentIndex(i as u64)),
            LocalVariableInfo { range, ty, name: None },
        );
        proof {
            assert forall|l: LocalVariableId| #[trigger]
                ctx.vars().contains_key(LocalVariableName::Local(l)) implies l.0 < ctx.next_local() by {
                assert(before.contains_key(LocalVariableName::Local(l)));
            }
            assert forall|a: ArgumentIndex| #[trigger] ctx.vars().contains_key(LocalVariableName::Argument(a)) implies a.0 < i + 1 by {
                if a.0 != i as u64 {
                    assert(before.contains_key(LocalVariableName::Argument(a)));
                }
            }
            assert forall|j: int| 0 <= j < i + 1 implies #[trigger] argument_var_at(ctx.vars(), d, j) by {
                if j == i {
                    assert(same_type(d.arg_types@[j], info.ty));
                    assert(ctx.vars()[LocalVariableName::Argument(ArgumentIndex(j as u64))] == info);
                }
                if j < i {
                    assert(argument_var_at(before, d, j));
                    assert(ArgumentIndex(j as u64) != ArgumentIndex(i as u64));
                    assert(before.contains_key(LocalVariableName::Argument(ArgumentIndex(j as u64))));
                }
            }
        }
        i = i + 1;
    }
    let ghost c1 = ctx;
    let entry_point = create_cfg(&mut ctx, def);
    proof {
        assert forall|j: int| 0 <= j < d.arg_types@.len() implies #[trigger] argument_var_at(ctx.vars(), d, j) by {
            assert(argument_var_at(c1.vars(), d, j));
            assert(c1.vars().contains_key(LocalVariableName::Argument(ArgumentIndex(j as u64))));
        }
        assert forall|a: ArgumentIndex| #[trigger] ctx.vars().contains_key(LocalVariableName::Argument(a)) implies a.0 < arity by {
            assert(c1.vars().contains_key(LocalVariableName::Argument(a)));
        }
    }
    DefinitionM {
        range,
        type_variables,
        arity,
        local_variable_names: ctx.local_variable_names,
        return_type,
        control_flow_graph: ctx.control_flow_graph,
        entry_point,
    }
}

/// Converts every definition of a file into a control flow graph, keeping the
/// definitions in order under their names.
pub fn to_mir(file: SourceFileHIR) -> (res: SourceFileMIR)
    requires
        forall|i: int| 0 <= i < file.definitions@.len() ==> translatable(#[trigger] file.definitions@[i].1),
    ensures
        res.definitions@.len() == file.definitions@.len(),
        forall|i: int| 0 <= i < file.definitions@.len() ==> (#[trigger] res.definitions@[i]).0 == file.definitions@[i].0
            && definition_translated(file.definitions@[i].1, res.definitions@[i].1),
{
    let ghost all = file.definitions@;
    let mut remaining = file.definitions;
    let mut definitions: Vec<(String, DefinitionM)> = Vec::new();
    while remaining.len() > 0
        invariant
            remaining@ == all.take(remaining@.len() as int),
            forall|i: int| 0 <= i < all.len() ==> translatable(#[trigger] all[i].1),
            definitions@.len() + remaining@.len() == all.len(),
            forall|i: int| 0 <= i < definitions@.len() ==> (#[trigger] definitions@[i]).0 == all[remaining@.len() + i].0
                && definition_translated(all[remaining@.len() + i].1, definitions@[i].1),
        decreases remaining@.len(),
    {
        let ghost prev = definitions@;
        let (name, def) = remaining.pop().unwrap();
        proof {
            assert(remaining@ =~= all.take(remaining@.len() as int));
            assert(def == all[remaining@.len() as int].1);
        }
        let m = to_mir_def(def);
        definitions.insert(0, (name, m));
        proof {
            assert forall|i: int| 0 <= i < definitions@.len() implies (#[trigger] definitions@[i]).0 == all[remaining@.len() + i].0
                && definition_translated(all[remaining@.len() + i].1, definitions@[i].1) by {
                if i > 0 {
                    assert(definitions@[i] == prev[i - 1]);
                }
            }
        }
    }
    SourceFileMIR { definitions }
}

} // verus!
