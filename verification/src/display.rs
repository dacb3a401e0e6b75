//! How the MIR, types and patterns are written out as text, for debugging dumps.

use vstd::prelude::*;
use vstd::string::StringExecFns;
use crate::location::{Range, identifier_text};
use crate::types::{PrimitiveType, QualifiedName, Type};
use crate::typed::{ImmediateValue, Pattern};
use crate::mir::{
    BasicBlockId, LocalVariableId, LocalVariableInfo, LocalVariableName, Operand, Place,
    PlaceSegment, Rvalue, Statement, StatementKind, Terminator, TerminatorKind,
};
use crate::text::{decimal, signed_decimal, push_decimal, push_signed_decimal, char_text};

verus! {

/// A local variable: `_` and its number.
pub open spec fn local_id_text(id: LocalVariableId) -> Seq<char> {
    "_"@ + decimal(id.0 as nat)
}

/// A basic block: `bb` and its number.
pub open spec fn block_id_text(id: BasicBlockId) -> Seq<char> {
    "bb"@ + decimal(id.0 as nat)
}

/// An argument is `arg` and its index; a local is written as its identifier.
pub open spec fn var_name_text(v: LocalVariableName) -> Seq<char> {
    match v {
        LocalVariableName::Argument(a) => "arg"@ + decimal(a.0 as nat),
        LocalVariableName::Local(l) => local_id_text(l),
    }
}

/// A step into a field: `.` and the field's name.
pub open spec fn segment_text(s: PlaceSegment) -> Seq<char> {
    match s {
        PlaceSegment::Field(f) => "."@ + f@,
    }
}

/// The steps of a path, one after the other.
pub open spec fn segments_text(s: Seq<PlaceSegment>) -> Seq<char>
    decreases s.len(),
{
    if s.len() == 0 {
        Seq::empty()
    } else {
        segments_text(s.drop_last()) + segment_text(s.last())
    }
}

/// A place: its variable, then each step inside it.
pub open spec fn place_text(p: (LocalVariableName, Seq<PlaceSegment>)) -> Seq<char> {
    var_name_text(p.0) + segments_text(p.1)
}

/// A raw value: `unit`, `true` or `false`, a number, a quoted character or text.
pub open spec fn immediate_text(v: ImmediateValue) -> Seq<char> {
    match v {
        ImmediateValue::Unit => "unit"@,
        ImmediateValue::Bool(b) => if b { "true"@ } else { "false"@ },
        ImmediateValue::Int(i) => signed_decimal(i as int),
        ImmediateValue::Char(c) => "'"@ + seq![c] + "'"@,
        ImmediateValue::String(s) => "\""@ + s@ + "\""@,
    }
}

pub open spec fn operand_text(o: Operand) -> Seq<char> {
    match o {
        Operand::Copy(p) => "copy "@ + place_text(p@),
        Operand::Move(p) => "move "@ + place_text(p@),
        Operand::Constant(v) => "const "@ + immediate_text(v),
    }
}

pub open spec fn rvalue_text(r: Rvalue) -> Seq<char> {
    match r {
        Rvalue::Use(o) => "use "@ + operand_text(o),
    }
}

/// A qualified name: the file that defines it and its name there, joined by `::`.
pub open spec fn qualified_name_text(q: QualifiedName) -> Seq<char> {
    identifier_text(q.source_file) + "::"@ + q.name@
}

pub open spec fn primitive_text(p: PrimitiveType) -> Seq<char> {
    match p {
        PrimitiveType::Unit => "Unit"@,
        PrimitiveType::Bool => "Bool"@,
        PrimitiveType::Int => "Int"@,
    }
}

/// A type: a named type or variable with its parameters in brackets, `a -> b` for a
/// function (with a function on the left in parentheses), a primitive's name, or `&`
/// and the borrowed type.
pub open spec fn type_text(t: Type) -> Seq<char>
    decreases t,
{
    match t {
        Type::Named { name, parameters } => name.name@ + bracketed(types_joined(parameters@), parameters@.len()),
        Type::Function(a, b) => (if *a is Function {
            "("@ + type_text(*a) + ")"@
        } else {
            type_text(*a)
        }) + " -> "@ + type_text(*b),
        Type::Variable { variable, parameters } => variable@ + bracketed(types_joined(parameters@), parameters@.len()),
        Type::Primitive(p) => primitive_text(p),
        Type::Borrow { ty } => "&"@ + type_text(*ty),
    }
}

/// Type parameters, already joined: nothing when there are none, else in brackets.
pub open spec fn bracketed(joined: Seq<char>, count: nat) -> Seq<char> {
    if count == 0 {
        Seq::empty()
    } else {
        "["@ + joined + "]"@
    }
}

/// Types separated by `, `.
pub open spec fn types_joined(ps: Seq<Type>) -> Seq<char>
    decreases ps,
{
    if ps.len() == 0 {
        Seq::empty()
    } else if ps.len() == 1 {
        type_text(ps[0])
    } else {
        types_joined(ps.drop_last()) + ", "@ + type_text(ps.last())
    }
}

/// Types, each after a space.
pub open spec fn types_spaced(ps: Seq<Type>) -> Seq<char>
    decreases ps.len(),
{
    if ps.len() == 0 {
        Seq::empty()
    } else {
        types_spaced(ps.drop_last()) + " "@ + type_text(ps.last())
    }
}

/// Field values of a constructed object, each as `name = value `.
pub open spec fn field_values_text(fs: Seq<(String, Rvalue)>) -> Seq<char>
    decreases fs.len(),
{
    if fs.len() == 0 {
        Seq::empty()
    } else {
        field_values_text(fs.drop_last()) + fs.last().0@ + " = "@ + rvalue_text(fs.last().1) + " "@
    }
}

pub open spec fn statement_kind_text(k: StatementKind) -> Seq<char> {
    match k {
        StatementKind::Assign { target, source } => place_text(target@) + " = "@ + rvalue_text(source),
        StatementKind::Apply { argument, function, target } => place_text(target@) + " = apply "@
            + rvalue_text(argument) + " to "@ + rvalue_text(function),
        StatementKind::StorageLive(l) => "live "@ + local_id_text(l),
        StatementKind::StorageDead(l) => "dead "@ + local_id_text(l),
        StatementKind::InstanceSymbol { name, type_variables, target } => place_text(target@)
            + " = instance "@ + qualified_name_text(name) + (if type_variables@.len() == 0 {
            Seq::empty()
        } else {
            " with"@ + types_spaced(type_variables@)
        }),
        StatementKind::CreateLambda { target, .. } => place_text(target@) + " = lambda"@,
        StatementKind::ConstructData { ty, fields, target } => place_text(target@) + " = construct "@
            + type_text(ty) + " with { "@ + field_values_text(fields@) + "}"@,
    }
}

/// A span: one-based line and column of its start and of its end.
pub open spec fn range_text(r: Range) -> Seq<char> {
    decimal((r.start.line + 1) as nat) + ":"@ + decimal((r.start.col + 1) as nat) + "-"@
        + decimal((r.end.line + 1) as nat) + ":"@ + decimal((r.end.col + 1) as nat)
}

/// A statement: its span, `>>`, and what it does.
pub open spec fn statement_text(s: Statement) -> Seq<char> {
    range_text(s.range) + " >> "@ + statement_kind_text(s.kind)
}

/// The cases of a switch, each on a line of its own.
pub open spec fn cases_text(cs: Seq<(QualifiedName, BasicBlockId)>) -> Seq<char>
    decreases cs.len(),
{
    if cs.len() == 0 {
        Seq::empty()
    } else {
        cases_text(cs.drop_last()) + "        "@ + qualified_name_text(cs.last().0) + " -> "@
            + block_id_text(cs.last().1) + "\n"@
    }
}

pub open spec fn terminator_kind_text(k: TerminatorKind) -> Seq<char> {
    match k {
        TerminatorKind::Goto(t) => "goto "@ + block_id_text(t),
        TerminatorKind::SwitchDiscriminator { cases } => "switch {\n"@ + cases_text(cases@) + "}"@,
        TerminatorKind::Invalid => "invalid"@,
        TerminatorKind::Return { value } => "return "@ + var_name_text(value),
    }
}

/// A terminator: its span, `>>`, and where control goes.
pub open spec fn terminator_text(t: Terminator) -> Seq<char> {
    range_text(t.range) + " >> "@ + terminator_kind_text(t.kind)
}

/// What is known of a local variable: its type, and its name if it has one.
pub open spec fn variable_info_text(i: LocalVariableInfo) -> Seq<char> {
    type_text(i.ty) + (match i.name {
        Some(n) => " named "@ + n@,
        None => Seq::empty(),
    })
}

/// A pattern: a name, `_`, `const` and a constant, arguments separated by spaces, or
/// a type constructor with its field patterns.
pub open spec fn pattern_text(p: Pattern) -> Seq<char>
    decreases p,
{
    match p {
        Pattern::Named(n) => n.name@,
        Pattern::TypeConstructor { type_ctor, fields } => if fields@.len() == 0 {
            type_ctor.data_type.name@
        } else {
            type_ctor.data_type.name@ + " { "@ + field_patterns_text(fields@) + " }"@
        },
        Pattern::Function { args, .. } => patterns_spaced(args@),
        Pattern::Constant { value, .. } => "const "@ + immediate_text(value),
        Pattern::Unknown(_) => "_"@,
    }
}

/// Field patterns, separated by `, `, each as ` name = pattern`.
pub open spec fn field_patterns_text(fs: Seq<(crate::types::NameP, Type, Pattern)>) -> Seq<char>
    decreases fs,
{
    if fs.len() == 0 {
        Seq::empty()
    } else {
        let item = " "@ + fs.last().0.name@ + " = "@ + pattern_text(fs.last().2);
        if fs.len() == 1 {
            item
        } else {
            field_patterns_text(fs.drop_last()) + ", "@ + item
        }
    }
}

/// Patterns separated by spaces.
pub open spec fn patterns_spaced(ps: Seq<Pattern>) -> Seq<char>
    decreases ps,
{
    if ps.len() == 0 {
        Seq::empty()
    } else if ps.len() == 1 {
        pattern_text(ps[0])
    } else {
        patterns_spaced(ps.drop_last()) + " "@ + pattern_text(ps.last())
    }
}

fn push_var_name(out: &mut String, v: LocalVariableName)
    ensures
        final(out)@ == old(out)@ + var_name_text(v),
{
    match v {
        LocalVariableName::Argument(a) => {
            out.append("arg");
            push_decimal(out, a.0);
        },
        LocalVariableName::Local(l) => {
            out.append("_");
            push_decimal(out, l.0);
        },
    }
    assert(out@ =~= old(out)@ + var_name_text(v));
}

fn push_place(out: &mut String, p: &Place)
    ensures
        final(out)@ == old(out)@ + place_text(p@),
{
    push_var_name(out, p.local());
    let proj = p.projection();
    let mut i: usize = 0;
    while i < proj.len()
        invariant
            i <= proj@.len(),
            proj@ == p@.1,
            out@ == old(out)@ + var_name_text(p@.0) + segments_text(proj@.take(i as int)),
        decreases proj@.len() - i,
    {
        match &proj[i] {
            PlaceSegment::Field(f) => {
                out.append(".");
                out.append(f.as_str());
            },
        }
        proof {
            let t = proj@.take(i + 1);
            assert(t.drop_last() =~= proj@.take(i as int));
            assert(t.last() == proj@[i as int]);
            assert(out@ =~= old(out)@ + var_name_text(p@.0) + segments_text(t));
        }
        i = i + 1;
    }
    assert(proj@.take(proj@.len() as int) =~= proj@);
    assert(out@ =~= old(out)@ + place_text(p@));
}

fn push_immediate(out: &mut String, v: &ImmediateValue)
    ensures
        final(out)@ == old(out)@ + immediate_text(*v),
{
    match v {
        ImmediateValue::Unit => out.append("unit"),
        ImmediateValue::Bool(b) => if *b { out.append("true") } else { out.append("false") },
        ImmediateValue::Int(i) => push_signed_decimal(out, *i),
        ImmediateValue::Char(c) => {
            out.append("'");
            out.append(char_text(*c).as_str());
            out.append("'");
        },
        ImmediateValue::String(t) => {
            out.append("\"");
            out.append(t.as_str());
            out.append("\"");
        },
    }
    assert(out@ =~= old(out)@ + immediate_text(*v));
}

fn push_operand(out: &mut String, o: &Operand)
    ensures
        final(out)@ == old(out)@ + operand_text(*o),
{
    match o {
        Operand::Copy(p) => {
            out.append("copy ");
            push_place(out, p);
        },
        Operand::Move(p) => {
            out.append("move ");
            push_place(out, p);
        },
        Operand::Constant(v) => {
            out.append("const ");
            push_immediate(out, v);
        },
    }
    assert(out@ =~= old(out)@ + operand_text(*o));
}

fn push_rvalue(out: &mut String, r: &Rvalue)
    ensures
        final(out)@ == old(out)@ + rvalue_text(*r),
{
    match r {
        Rvalue::Use(o) => {
            out.append("use ");
            push_operand(out, o);
        },
    }
    assert(out@ =~= old(out)@ + rvalue_text(*r));
}

fn push_qualified_name(out: &mut String, q: &QualifiedName)
    ensures
        final(out)@ == old(out)@ + qualified_name_text(*q),
{
    out.append(q.source_file.to_string().as_str());
    out.append("::");
    out.append(q.name.as_str());
    assert(out@ =~= old(out)@ + qualified_name_text(*q));
}

fn push_type(out: &mut String, t: &Type)
    ensures
        final(out)@ == old(out)@ + type_text(*t),
    decreases *t,
{
    match t {
        Type::Named { name, parameters } => {
            out.append(name.name.as_str());
            push_type_params(out, parameters);
        },
        Type::Function(a, b) => {
            let ghost before = out@;
            if a.is_function() {
                out.append("(");
                push_type(out, a);
                out.append(")");
            } else {
                push_type(out, a);
            }
            out.append(" -> ");
            push_type(out, b);
            proof {
                if **a is Function {
                    assert(out@ =~= before + ("("@ + type_text(**a) + ")"@) + " -> "@ + type_text(**b));
                } else {
                    assert(out@ =~= before + type_text(**a) + " -> "@ + type_text(**b));
                }
            }
        },
        Type::Variable { variable, parameters } => {
            out.append(variable.as_str());
            push_type_params(out, parameters);
        },
        Type::Primitive(p) => match p {
            PrimitiveType::Unit => out.append("Unit"),
            PrimitiveType::Bool => out.append("Bool"),
            PrimitiveType::Int => out.append("Int"),
        },
        Type::Borrow { ty } => {
            out.append("&");
            push_type(out, ty);
        },
    }
    assert(out@ =~= old(out)@ + type_text(*t));
}

fn push_type_params(out: &mut String, ps: &Vec<Type>)
    ensures
        final(out)@ == old(out)@ + bracketed(types_joined(ps@), ps@.len()),
    decreases ps,
{
    if ps.len() == 0 {
        assert(out@ =~= old(out)@ + bracketed(types_joined(ps@), ps@.len()));
        return;
    }
    out.append("[");
    let ghost start = out@;
    let mut i: usize = 0;
    while i < ps.len()
        invariant
            i <= ps@.len(),
            out@ == start + types_joined(ps@.take(i as int)),
        decreases ps@.len() - i,
    {
        if i > 0 {
            out.append(", ");
        }
        push_type(out, &ps[i]);
        proof {
            let t = ps@.take(i + 1);
            assert(t.drop_last() =~= ps@.take(i as int));
            assert(t.last() == ps@[i as int]);
            if i == 0 {
                assert(t =~= seq![ps@[0]]);
            }
        }
        i = i + 1;
    }
    out.append("]");
    assert(ps@.take(ps@.len() as int) =~= ps@);
    assert(out@ =~= old(out)@ + bracketed(types_joined(ps@), ps@.len()));
}

impl Type {
    /// Is this a function type?
    pub fn is_function(&self) -> (res: bool)
        ensures
            res == (*self is Function),
    {
        match self {
            Type::Function(..) => true,
            _ => false,
        }
    }

    /// The type written out.
    pub fn to_string(&self) -> (res: String)
        ensures
            res@ == type_text(*self),
    {
        let mut out = String::new();
        push_type(&mut out, self);
        assert(out@ =~= type_text(*self));
        out
    }
}

fn push_range(out: &mut String, r: Range)
    ensures
        final(out)@ == old(out)@ + range_text(r),
{
    push_decimal(out, r.start.line as u64 + 1);
    out.append(":");
    push_decimal(out, r.start.col as u64 + 1);
    out.append("-");
    push_decimal(out, r.end.line as u64 + 1);
    out.append(":");
    push_decimal(out, r.end.col as u64 + 1);
    assert(out@ =~= old(out)@ + range_text(r));
}

fn push_statement_kind(out: &mut String, k: &StatementKind)
    ensures
        final(out)@ == old(out)@ + statement_kind_text(*k),
{
    match k {
        StatementKind::Assign { target, source } => {
            push_place(out, target);
            out.append(" = ");
            push_rvalue(out, source);
        },
        StatementKind::Apply { argument, function, target } => {
            push_place(out, target);
            out.append(" = apply ");
            push_rvalue(out, argument);
            out.append(" to ");
            push_rvalue(out, function);
        },
        StatementKind::StorageLive(l) => {
            out.append("live ");
            out.append("_");
            push_decimal(out, l.0);
        },
        StatementKind::StorageDead(l) => {
            out.append("dead ");
            out.append("_");
            push_decimal(out, l.0);
        },
        StatementKind::InstanceSymbol { name, type_variables, target } => {
            push_place(out, target);
            out.append(" = instance ");
            push_qualified_name(out, name);
            if type_variables.len() > 0 {
                out.append(" with");
                let ghost start = out@;
                let mut i: usize = 0;
                while i < type_variables.len()
                    invariant
                        i <= type_variables@.len(),
                        out@ == start + types_spaced(type_variables@.take(i as int)),
                    decreases type_variables@.len() - i,
                {
                    out.append(" ");
                    push_type(out, &type_variables[i]);
                    proof {
                        let t = type_variables@.take(i + 1);
                        assert(t.drop_last() =~= type_variables@.take(i as int));
                        assert(t.last() == type_variables@[i as int]);
                    }
                    i = i + 1;
                }
                assert(type_variables@.take(type_variables@.len() as int) =~= type_variables@);
            }
        },
        StatementKind::CreateLambda { target, .. } => {
            push_place(out, target);
            out.append(" = lambda");
        },
        StatementKind::ConstructData { ty, fields, target } => {
            push_place(out, target);
            out.append(" = construct ");
            push_type(out, ty);
            out.append(" with { ");
            let ghost start = out@;
            let mut i: usize = 0;
            while i < fields.len()
                invariant
                    i <= fields@.len(),
                    out@ == start + field_values_text(fields@.take(i as int)),
                decreases fields@.len() - i,
            {
                out.append(fields[i].0.as_str());
                out.append(" = ");
                push_rvalue(out, &fields[i].1);
                out.append(" ");
                proof {
                    let t = fields@.take(i + 1);
                    assert(t.drop_last() =~= fields@.take(i as int));
                    assert(t.last() == fields@[i as int]);
                }
                i = i + 1;
            }
            assert(fields@.take(fields@.len() as int) =~= fields@);
            out.append("}");
        },
    }
    assert(out@ =~= old(out)@ + statement_kind_text(*k));
}

fn push_terminator_kind(out: &mut String, k: &TerminatorKind)
    ensures
        final(out)@ == old(out)@ + terminator_kind_text(*k),
{
    match k {
        TerminatorKind::Goto(t) => {
            out.append("goto ");
            out.append("bb");
            push_decimal(out, t.0);
        },
        TerminatorKind::SwitchDiscriminator { cases } => {
            out.append("switch {\n");
            let ghost start = out@;
            let mut i: usize = 0;
            while i < cases.len()
                invariant
                    i <= cases@.len(),
                    out@ == start + cases_text(cases@.take(i as int)),
                decreases cases@.len() - i,
            {
                out.append("        ");
                push_qualified_name(out, &cases[i].0);
                out.append(" -> ");
                out.append("bb");
                push_decimal(out, cases[i].1.0);
                out.append("\n");
                proof {
                    let t = cases@.take(i + 1);
                    assert(t.drop_last() =~= cases@.take(i as int));
                    assert(t.last() == cases@[i as int]);
                }
                i = i + 1;
            }
            assert(cases@.take(cases@.len() as int) =~= cases@);
            out.append("}");
        },
        TerminatorKind::Invalid => out.append("invalid"),
        TerminatorKind::Return { value } => {
            out.append("return ");
            push_var_name(out, *value);
        },
    }
    assert(out@ =~= old(out)@ + terminator_kind_text(*k));
}

#[verifier::spinoff_prover]
#[verifier::rlimit(30)]
fn push_pattern(out: &mut String, p: &Pattern)
    ensures
        final(out)@ == old(out)@ + pattern_text(*p),
    decreases *p,
{
    match p {
        Pattern::Named(n) => out.append(n.name.as_str()),
        Pattern::TypeConstructor { type_ctor, fields } => {
            out.append(type_ctor.data_type.name.as_str());
            if fields.len() > 0 {
                out.append(" { ");
                let ghost start = out@;
                let mut i: usize = 0;
                #[verifier::loop_isolation(false)]
                while i < fields.len()
                    invariant
                        i <= fields@.len(),
                        out@ == start + field_patterns_text(fields@.take(i as int)),
                    decreases fields@.len() - i,
                {
                    if i > 0 {
                        out.append(", ");
                    }
                    out.append(" ");
                    out.append(fields[i].0.name.as_str());
                    out.append(" = ");
                    push_pattern(out, &fields[i].2);
                    proof {
                        let t = fields@.take(i + 1);
                        assert(t.drop_last() =~= fields@.take(i as int));
                        assert(t.last() == fields@[i as int]);
                    }
                    i = i + 1;
                }
                assert(fields@.take(fields@.len() as int) =~= fields@);
                out.append(" }");
            }
        },
        Pattern::Function { args, .. } => {
            let ghost start = out@;
            let mut i: usize = 0;
            #[verifier::loop_isolation(false)]
            while i < args.len()
                invariant
                    i <= args@.len(),
                    out@ == start + patterns_spaced(args@.take(i as int)),
                decreases args@.len() - i,
            {
                if i > 0 {
                    out.append(" ");
                }
                push_pattern(out, &args[i]);
                proof {
                    let t = args@.take(i + 1);
                    assert(t.drop_last() =~= args@.take(i as int));
                    assert(t.last() == args@[i as int]);
                    if i == 0 {
                        assert(t =~= seq![args@[0]]);
                    }
                }
                i = i + 1;
            }
            assert(args@.take(args@.len() as int) =~= args@);
        },
        Pattern::Constant { value, .. } => {
            out.append("const ");
            push_immediate(out, value);
        },
        Pattern::Unknown(_) => out.append("_"),
    }
    assert(out@ =~= old(out)@ + pattern_text(*p));
}

impl LocalVariableId {
    /// `_` and the number.
    pub fn to_string(&self) -> (res: String)
        ensures
            res@ == local_id_text(*self),
    {
        let mut out = String::from_str("_");
        push_decimal(&mut out, self.0);
        out
    }
}

impl BasicBlockId {
    /// `bb` and the number.
    pub fn to_string(&self) -> (res: String)
        ensures
            res@ == block_id_text(*self),
    {
        let mut out = String::from_str("bb");
        push_decimal(&mut out, self.0);
        out
    }
}

impl LocalVariableName {
    /// `arg` and the index of an argument, or the identifier of a local.
    pub fn to_string(&self) -> (res: String)
        ensures
            res@ == var_name_text(*self),
    {
        let mut out = String::new();
        push_var_name(&mut out, *self);
        assert(out@ =~= var_name_text(*self));
        out
    }
}

impl PlaceSegment {
    /// `.` and the field's name.
    pub fn to_string(&self) -> (res: String)
        ensures
            res@ == segment_text(*self),
    {
        match self {
            PlaceSegment::Field(f) => {
                let mut out = String::from_str(".");
                out.append(f.as_str());
                out
            },
        }
    }
}

impl Place {
    /// The variable, then each step inside it.
    pub fn to_string(&self) -> (res: String)
        ensures
            res@ == place_text(self@),
    {
        let mut out = String::new();
        push_place(&mut out, self);
        assert(out@ =~= place_text(self@));
        out
    }
}

impl Operand {
    /// `copy`, `move` or `const`, and what is read.
    pub fn to_string(&self) -> (res: String)
        ensures
            res@ == operand_text(*self),
    {
        let mut out = String::new();
        push_operand(&mut out, self);
        assert(out@ =~= operand_text(*self));
        out
    }
}

impl Rvalue {
    /// `use` and the operand.
    pub fn to_string(&self) -> (res: String)
        ensures
            res@ == rvalue_text(*self),
    {
        let mut out = String::new();
        push_rvalue(&mut out, self);
        assert(out@ =~= rvalue_text(*self));
        out
    }
}

impl StatementKind {
    /// What the statement does, written out.
    pub fn to_string(&self) -> (res: String)
        ensures
            res@ == statement_kind_text(*self),
    {
        let mut out = String::new();
        push_statement_kind(&mut out, self);
        assert(out@ =~= statement_kind_text(*self));
        out
    }
}

impl Statement {
    /// The span, `>>`, and what the statement does.
    pub fn to_string(&self) -> (res: String)
        ensures
            res@ == statement_text(*self),
    {
        let mut out = String::new();
        push_range(&mut out, self.range);
        out.append(" >> ");
        push_statement_kind(&mut out, &self.kind);
        assert(out@ =~= statement_text(*self));
        out
    }
}

impl TerminatorKind {
    /// Where control goes, written out.
    pub fn to_string(&self) -> (res: String)
        ensures
            res@ == terminator_kind_text(*self),
    {
        let mut out = String::new();
        push_terminator_kind(&mut out, self);
        assert(out@ =~= terminator_kind_text(*self));
        out
    }
}

impl Terminator {
    /// The span, `>>`, and where control goes.
    pub fn to_string(&self) -> (res: String)
        ensures
            res@ == terminator_text(*self),
    {
        let mut out = String::new();
        push_range(&mut out, self.range);
        out.append(" >> ");
        push_terminator_kind(&mut out, &self.kind);
        assert(out@ =~= terminator_text(*self));
        out
    }
}

impl LocalVariableInfo {
    /// The type, and ` named` and the name if the variable has one.
    pub fn to_string(&self) -> (res: String)
        ensures
            res@ == variable_info_text(*self),
    {
        let mut out = String::new();
        push_type(&mut out, &self.ty);
        match &self.name {
            Some(n) => {
                out.append(" named ");
                out.append(n.as_str());
            },
            None => {},
        }
        assert(out@ =~= variable_info_text(*self));
        out
    }
}

impl ImmediateValue {
    /// The value written out.
    pub fn to_string(&self) -> (res: String)
        ensures
            res@ == immediate_text(*self),
    {
        let mut out = String::new();
        push_immediate(&mut out, self);
        assert(out@ =~= immediate_text(*self));
        out
    }
}

impl QualifiedName {
    /// The defining file and the name, joined by `::`.
    pub fn to_string(&self) -> (res: String)
        ensures
            res@ == qualified_name_text(*self),
    {
        let mut out = String::new();
        push_qualified_name(&mut out, self);
        assert(out@ =~= qualified_name_text(*self));
        out
    }
}

impl Pattern {
    /// The pattern written out.
    pub fn to_string(&self) -> (res: String)
        ensures
            res@ == pattern_text(*self),
    {
        let mut out = String::new();
        push_pattern(&mut out, self);
        assert(out@ =~= pattern_text(*self));
        out
    }
}

/// Writing a place one step further in (`Place::then`) writes the step after it.
pub proof fn lemma_place_text_then(p: (LocalVariableName, Seq<PlaceSegment>), segment: PlaceSegment)
    ensures
        place_text((p.0, p.1.push(segment))) == place_text(p) + segment_text(segment),
{
    assert(p.1.push(segment).drop_last() =~= p.1);
    assert(place_text((p.0, p.1.push(segment))) =~= place_text(p) + segment_text(segment));
}

/// A boolean constant is written as its own value: `const true` or `const false`, so
/// constants of different values read differently.
pub proof fn lemma_bool_constant_text(b: bool)
    ensures
        operand_text(Operand::Constant(ImmediateValue::Bool(b)))
            == seq!['c', 'o', 'n', 's', 't', ' '] + (if b { seq!['t', 'r', 'u', 'e'] } else { seq!['f', 'a', 'l', 's', 'e'] }),
{
    reveal_strlit("const ");
    reveal_strlit("true");
    reveal_strlit("false");
    assert("const "@ =~= seq!['c', 'o', 'n', 's', 't', ' ']);
    assert("true"@ =~= seq!['t', 'r', 'u', 'e']);
    assert("false"@ =~= seq!['f', 'a', 'l', 's', 'e']);
}

/// The unit value and the two booleans are written differently from each other: the
/// text of such a constant tells which one it is.
pub proof fn lemma_simple_constants_differ(a: ImmediateValue, b: ImmediateValue)
    requires
        a is Unit || a is Bool,
        b is Unit || b is Bool,
        immediate_text(a) == immediate_text(b),
    ensures
        a == b,
{
    reveal_strlit("unit");
    reveal_strlit("true");
    reveal_strlit("false");
    assert("unit"@ =~= seq!['u', 'n', 'i', 't']);
    assert("true"@ =~= seq!['t', 'r', 'u', 'e']);
    assert("false"@ =~= seq!['f', 'a', 'l', 's', 'e']);
    if a != b {
        let ta = immediate_text(a);
        let tb = immediate_text(b);
        assert(ta.len() != tb.len() || ta[0] != tb[0]);
    }
}

/// A named type or a type variable is written as its bare name when it has no
/// parameters, and as its name followed by its parameters in square brackets when it
/// has some: brackets appear exactly when there are parameters.
pub proof fn lemma_type_parameters_bracketed(t: Type)
    ensures
        t is Variable && t->Variable_parameters@.len() == 0 ==> type_text(t) == t->Variable_variable@,
        t is Named && t->Named_parameters@.len() == 0 ==> type_text(t) == t->Named_name.name@,
        t is Variable && t->Variable_parameters@.len() > 0 ==> {
            let x = type_text(t);
            let v = t->Variable_variable@;
            &&& x.len() >= v.len() + 2
            &&& x.subrange(0, v.len() as int) == v
            &&& x[v.len() as int] == '['
            &&& x.last() == ']'
        },
        t is Named && t->Named_parameters@.len() > 0 ==> {
            let x = type_text(t);
            let v = t->Named_name.name@;
            &&& x.len() >= v.len() + 2
            &&& x.subrange(0, v.len() as int) == v
            &&& x[v.len() as int] == '['
            &&& x.last() == ']'
        },
{
    reveal_strlit("[");
    reveal_strlit("]");
    assert("["@ =~= seq!['[']);
    assert("]"@ =~= seq![']']);
    match t {
        Type::Variable { variable, parameters } => {
            let b = bracketed(types_joined(parameters@), parameters@.len());
            if parameters@.len() == 0 {
                assert(variable@ + b =~= variable@);
            } else {
                let x = variable@ + b;
                assert(x.subrange(0, variable@.len() as int) =~= variable@);
                assert(x[variable@.len() as int] == b[0]);
            }
        },
        Type::Named { name, parameters } => {
            let b = bracketed(types_joined(parameters@), parameters@.len());
            if parameters@.len() == 0 {
                assert(name.name@ + b =~= name.name@);
            } else {
                let x = name.name@ + b;
                assert(x.subrange(0, name.name@.len() as int) =~= name.name@);
                assert(x[name.name@.len() as int] == b[0]);
            }
        },
        _ => {},
    }
}

} // verus!
