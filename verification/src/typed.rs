//! The typed high-level representation that the MIR is built from:
//! expressions whose types are known, argument patterns and definitions.

use vstd::prelude::*;
use crate::location::{Location, Range, spec_union, covers, lemma_union_covers};
use crate::types::{NameP, QualifiedName, Type};

verus! {

/// A raw value, such as the `unit` keyword or an integer literal.
#[derive(Debug, Clone)]
pub enum ImmediateValue {
    Unit,
    Bool(bool),
    Int(i64),
    Char(char),
    String(String),
}

/// An expression whose type is known.
#[derive(Debug)]
pub struct Expression {
    pub ty: Type,
    pub contents: ExpressionContents,
}

/// The contents of a typed expression.
#[derive(Debug)]
pub enum ExpressionContents {
    /// An argument to this function, e.g. `x`.
    Argument(NameP),
    /// A local variable declared by a `lambda` or `let` expression.
    Local(NameP),
    /// A symbol in global scope, with the types substituted into its type variables.
    Symbol { name: QualifiedName, range: Range, type_variables: Vec<Type> },
    /// Apply the left hand side to the right hand side, e.g. `a b`.
    Apply(Box<Expression>, Box<Expression>),
    /// A lambda abstraction `lambda params -> expr`.
    Lambda { lambda_token: Range, params: Vec<NameP>, expr: Box<Expression> },
    /// A let statement `let name = expr`.
    Let { let_token: Range, name: NameP, expr: Box<Expression> },
    /// A block of statements; unless it ends with a semicolon, its last statement is its value.
    Block {
        open_bracket: Range,
        close_bracket: Range,
        statements: Vec<Expression>,
        final_semicolon: Option<Range>,
    },
    /// Explicitly create a value of a data type.
    ConstructData {
        data_type_name: QualifiedName,
        variant: Option<String>,
        fields: Vec<(NameP, Expression)>,
        open_brace: Range,
        close_brace: Range,
    },
    /// A raw value.
    ImmediateValue { value: ImmediateValue, range: Range },
    /// A borrowed value, `&expr`.
    Borrow { borrow_token: Range, expr: Box<Expression> },
    /// A copy of a borrowed value.
    Copy { copy_token: Range, expr: Box<Expression> },
}

/// The type constructor named in a pattern, e.g. `Maybe` in `Maybe { value = a }`.
#[derive(Debug, Clone)]
pub struct TypeConstructorInvocation {
    pub data_type: QualifiedName,
    pub variant: Option<String>,
    pub range: Range,
}

/// A pattern made up of type constructors and potential unknowns.
#[derive(Debug)]
pub enum Pattern {
    /// A name representing the entire pattern, e.g. `a`.
    Named(NameP),
    /// A type constructor, with a pattern for each of its fields.
    TypeConstructor { type_ctor: TypeConstructorInvocation, fields: Vec<(NameP, Type, Pattern)> },
    /// A function pattern, only created for functions that have several patterns.
    Function { param_types: Vec<Type>, args: Vec<Pattern> },
    /// A constant value that the matched value must equal.
    Constant { range: Range, value: ImmediateValue },
    /// An underscore representing an ignored pattern.
    Unknown(Range),
}

/// One case of a definition: the patterns its arguments must match, and its body.
#[derive(Debug)]
pub struct DefinitionCase {
    pub range: Range,
    pub arg_patterns: Vec<Pattern>,
    pub replacement: Expression,
}

/// A definition of a symbol, with the types of its arguments and of its result.
#[derive(Debug)]
pub struct Definition {
    pub range: Range,
    pub type_variables: Vec<String>,
    pub arg_types: Vec<Type>,
    pub return_type: Type,
    pub cases: Vec<DefinitionCase>,
}

/// A parsed and type checked source file: its definitions, each under its name.
#[derive(Debug)]
pub struct SourceFileHIR {
    pub definitions: Vec<(String, Definition)>,
}

/// A measure of an expression that bounds the blocks and variables its translation creates.
pub open spec fn expr_size(e: Expression) -> nat
    decreases e,
{
    match e.contents {
        ExpressionContents::Apply(l, r) => 1 + expr_size(*l) + expr_size(*r),
        ExpressionContents::Let { expr, .. } => 1 + expr_size(*expr),
        ExpressionContents::Block { statements, .. } => 1 + exprs_size(statements@),
        ExpressionContents::ConstructData { fields, .. } => 1 + fields_size(fields@),
        _ => 1,
    }
}

/// The measure of a sequence of expressions.
pub open spec fn exprs_size(s: Seq<Expression>) -> nat
    decreases s,
{
    if s.len() == 0 {
        1
    } else {
        exprs_size(s.drop_last()) + expr_size(s.last()) + 1
    }
}

/// The measure of the field expressions of a constructor.
pub open spec fn fields_size(s: Seq<(NameP, Expression)>) -> nat
    decreases s,
{
    if s.len() == 0 {
        1
    } else {
        fields_size(s.drop_last()) + expr_size(s.last().1) + 1
    }
}

/// The span of an expression.
pub open spec fn spec_expr_range(e: Expression) -> Range
    decreases e,
{
    match e.contents {
        ExpressionContents::Argument(n) => n.range,
        ExpressionContents::Local(n) => n.range,
        ExpressionContents::Symbol { range, .. } => range,
        ExpressionContents::Apply(l, r) => spec_union(spec_expr_range(*l), spec_expr_range(*r)),
        ExpressionContents::Lambda { lambda_token, expr, .. } => spec_union(
            lambda_token,
            spec_expr_range(*expr),
        ),
        ExpressionContents::Let { let_token, expr, .. } => spec_union(
            let_token,
            spec_expr_range(*expr),
        ),
        ExpressionContents::Block { open_bracket, close_bracket, .. } => spec_union(
            open_bracket,
            close_bracket,
        ),
        ExpressionContents::ConstructData { open_brace, close_brace, .. } => spec_union(
            open_brace,
            close_brace,
        ),
        ExpressionContents::ImmediateValue { range, .. } => range,
        ExpressionContents::Borrow { borrow_token, expr } => spec_union(borrow_token, spec_expr_range(*expr)),
        ExpressionContents::Copy { copy_token, expr } => spec_union(copy_token, spec_expr_range(*expr)),
    }
}

impl Expression {
    /// The span of source code this expression was written in.
    pub fn range(&self) -> (res: Range)
        ensures
            res == spec_expr_range(*self),
        decreases *self,
    {
        match &self.contents {
            ExpressionContents::Argument(n) => n.range,
            ExpressionContents::Local(n) => n.range,
            ExpressionContents::Symbol { range, .. } => *range,
            ExpressionContents::Apply(l, r) => l.range().union(r.range()),
            ExpressionContents::Lambda { lambda_token, expr, .. } => lambda_token.union(
                expr.range(),
            ),
            ExpressionContents::Let { let_token, expr, .. } => let_token.union(expr.range()),
            ExpressionContents::Block { open_bracket, close_bracket, .. } => open_bracket.union(
                *close_bracket,
            ),
            ExpressionContents::ConstructData { open_brace, close_brace, .. } => open_brace.union(
                *close_brace,
            ),
            ExpressionContents::ImmediateValue { range, .. } => *range,
            ExpressionContents::Borrow { borrow_token, expr } => borrow_token.union(expr.range()),
            ExpressionContents::Copy { copy_token, expr } => copy_token.union(expr.range()),
        }
    }
}

/// Every function pattern inside `p` has at least one argument, so its span is defined.
pub open spec fn pattern_ranged(p: Pattern) -> bool
    decreases p,
{
    match p {
        Pattern::TypeConstructor { fields, .. } => forall|i: int|
            0 <= i < fields@.len() ==> pattern_ranged(#[trigger] fields@[i].2),
        Pattern::Function { args, .. } => args@.len() > 0 && forall|i: int|
            0 <= i < args@.len() ==> pattern_ranged(#[trigger] args@[i]),
        _ => true,
    }
}

/// The span of a pattern: for a type constructor, its own span joined with those of
/// its field patterns; for a function pattern, the span of its first argument joined
/// with those of all its arguments (one without arguments has none, and is given the
/// empty span at the start of the file).
pub open spec fn pattern_range(p: Pattern) -> Range
    decreases p,
{
    match p {
        Pattern::Named(n) => n.range,
        Pattern::TypeConstructor { type_ctor, fields } => fields_range(type_ctor.range, fields@),
        Pattern::Function { args, .. } => if args@.len() > 0 {
            args_range(pattern_range(args@[0]), args@)
        } else {
            Range { start: Location { line: 0, col: 0 }, end: Location { line: 0, col: 0 } }
        },
        Pattern::Constant { range, .. } => range,
        Pattern::Unknown(r) => r,
    }
}

/// `acc` joined with the spans of the field patterns, in order.
pub open spec fn fields_range(acc: Range, fs: Seq<(NameP, Type, Pattern)>) -> Range
    decreases fs,
{
    if fs.len() == 0 {
        acc
    } else {
        spec_union(fields_range(acc, fs.drop_last()), pattern_range(fs.last().2))
    }
}

/// `acc` joined with the spans of the patterns, in order.
pub open spec fn args_range(acc: Range, ps: Seq<Pattern>) -> Range
    decreases ps,
{
    if ps.len() == 0 {
        acc
    } else {
        spec_union(args_range(acc, ps.drop_last()), pattern_range(ps.last()))
    }
}

impl Pattern {
    /// The span of source code this pattern was written in.
    pub fn range(&self) -> (res: Range)
        requires
            pattern_ranged(*self),
        ensures
            res == pattern_range(*self),
        decreases *self,
    {
        match self {
            Pattern::Named(n) => n.range,
            Pattern::TypeConstructor { type_ctor, fields } => {
                let mut acc = type_ctor.range;
                let mut i: usize = 0;
                #[verifier::loop_isolation(false)]
                while i < fields.len()
                    invariant
                        i <= fields@.len(),
                        acc == fields_range(type_ctor.range, fields@.take(i as int)),
                    decreases fields@.len() - i,
                {
                    acc = acc.union(fields[i].2.range());
                    proof {
                        let t = fields@.take(i + 1);
                        assert(t.drop_last() =~= fields@.take(i as int));
                        assert(t.last() == fields@[i as int]);
                    }
                    i = i + 1;
                }
                assert(fields@.take(fields@.len() as int) =~= fields@);
                acc
            },
            Pattern::Function { args, .. } => {
                let first = args[0].range();
                let mut acc = first;
                let mut i: usize = 0;
                #[verifier::loop_isolation(false)]
                while i < args.len()
                    invariant
                        i <= args@.len(),
                        acc == args_range(first, args@.take(i as int)),
                    decreases args@.len() - i,
                {
                    acc = acc.union(args[i].range());
                    proof {
                        let t = args@.take(i + 1);
                        assert(t.drop_last() =~= args@.take(i as int));
                        assert(t.last() == args@[i as int]);
                    }
                    i = i + 1;
                }
                assert(args@.take(args@.len() as int) =~= args@);
                acc
            },
            Pattern::Constant { range, .. } => *range,
            Pattern::Unknown(r) => *r,
        }
    }
}

/// `acc` joined with spans covers whatever `acc` covers.
proof fn lemma_fields_range_covers_acc(acc: Range, fs: Seq<(NameP, Type, Pattern)>, l: Location)
    requires
        covers(acc, l),
    ensures
        covers(fields_range(acc, fs), l),
    decreases fs.len(),
{
    if fs.len() > 0 {
        lemma_fields_range_covers_acc(acc, fs.drop_last(), l);
        lemma_union_covers(fields_range(acc, fs.drop_last()), pattern_range(fs.last().2), l);
    }
}

/// `acc` joined with spans covers whatever the span of field `i` covers.
proof fn lemma_fields_range_covers(acc: Range, fs: Seq<(NameP, Type, Pattern)>, i: int, l: Location)
    requires
        0 <= i < fs.len(),
        covers(pattern_range(fs[i].2), l),
    ensures
        covers(fields_range(acc, fs), l),
    decreases fs.len(),
{
    if i == fs.len() - 1 {
        lemma_union_covers(fields_range(acc, fs.drop_last()), pattern_range(fs.last().2), l);
    } else {
        assert(fs.drop_last()[i] == fs[i]);
        lemma_fields_range_covers(acc, fs.drop_last(), i, l);
        lemma_union_covers(fields_range(acc, fs.drop_last()), pattern_range(fs.last().2), l);
    }
}

/// The span of a type constructor pattern covers its own span and the spans of all
/// its field patterns.
pub proof fn lemma_pattern_range_covers_fields(p: Pattern, l: Location)
    requires
        p is TypeConstructor,
    ensures
        covers(p->type_ctor.range, l) ==> covers(pattern_range(p), l),
        forall|i: int| 0 <= i < p->fields@.len() && covers(pattern_range(#[trigger] p->fields@[i].2), l)
            ==> covers(pattern_range(p), l),
{
    if covers(p->type_ctor.range, l) {
        lemma_fields_range_covers_acc(p->type_ctor.range, p->fields@, l);
    }
    assert forall|i: int| 0 <= i < p->fields@.len() && covers(pattern_range(#[trigger] p->fields@[i].2), l)
        implies covers(pattern_range(p), l) by {
        lemma_fields_range_covers(p->type_ctor.range, p->fields@, i, l);
    }
}

/// The span of an expression covers the spans of its parts: every location in the
/// span of the function or the argument of an application, of the token and the value
/// of a `let`, of the token and the body of a lambda, of the token and the operand of
/// a borrow or a copy, or of either bracket of a block or a constructor, is in the
/// span of the whole expression.
pub proof fn lemma_expr_range_covers_parts(e: Expression, l: Location)
    ensures
        (e.contents matches ExpressionContents::Apply(a, b)
            && (covers(spec_expr_range(*a), l) || covers(spec_expr_range(*b), l)))
            ==> covers(spec_expr_range(e), l),
        (e.contents matches ExpressionContents::Let { let_token, expr, .. }
            && (covers(let_token, l) || covers(spec_expr_range(*expr), l)))
            ==> covers(spec_expr_range(e), l),
        (e.contents matches ExpressionContents::Lambda { lambda_token, expr, .. }
            && (covers(lambda_token, l) || covers(spec_expr_range(*expr), l)))
            ==> covers(spec_expr_range(e), l),
        (e.contents matches ExpressionContents::Borrow { borrow_token, expr }
            && (covers(borrow_token, l) || covers(spec_expr_range(*expr), l)))
            ==> covers(spec_expr_range(e), l),
        (e.contents matches ExpressionContents::Copy { copy_token, expr }
            && (covers(copy_token, l) || covers(spec_expr_range(*expr), l)))
            ==> covers(spec_expr_range(e), l),
        (e.contents matches ExpressionContents::Block { open_bracket, close_bracket, .. }
            && (covers(open_bracket, l) || covers(close_bracket, l)))
            ==> covers(spec_expr_range(e), l),
        (e.contents matches ExpressionContents::ConstructData { open_brace, close_brace, .. }
            && (covers(open_brace, l) || covers(close_brace, l)))
            ==> covers(spec_expr_range(e), l),
{
    match e.contents {
        ExpressionContents::Apply(a, b) => {
            if covers(spec_expr_range(*a), l) || covers(spec_expr_range(*b), l) {
                lemma_union_covers(spec_expr_range(*a), spec_expr_range(*b), l);
            }
        },
        ExpressionContents::Let { let_token, expr, .. } => {
            if covers(let_token, l) || covers(spec_expr_range(*expr), l) {
                lemma_union_covers(let_token, spec_expr_range(*expr), l);
            }
        },
        ExpressionContents::Lambda { lambda_token, expr, .. } => {
            if covers(lambda_token, l) || covers(spec_expr_range(*expr), l) {
                lemma_union_covers(lambda_token, spec_expr_range(*expr), l);
            }
        },
        ExpressionContents::Borrow { borrow_token, expr } => {
            if covers(borrow_token, l) || covers(spec_expr_range(*expr), l) {
                lemma_union_covers(borrow_token, spec_expr_range(*expr), l);
            }
        },
        ExpressionContents::Copy { copy_token, expr } => {
            if covers(copy_token, l) || covers(spec_expr_range(*expr), l) {
                lemma_union_covers(copy_token, spec_expr_range(*expr), l);
            }
        },
        ExpressionContents::Block { open_bracket, close_bracket, .. } => {
            if covers(open_bracket, l) || covers(close_bracket, l) {
                lemma_union_covers(open_bracket, close_bracket, l);
            }
        },
        ExpressionContents::ConstructData { open_brace, close_brace, .. } => {
            if covers(open_brace, l) || covers(close_brace, l) {
                lemma_union_covers(open_brace, close_brace, l);
            }
        },
        _ => {},
    }
}

} // verus!
