use quill::location::{Location, ModuleIdentifier, Range, SourceFileIdentifier, SourceFileIdentifierSegment, SourceFileType};
use quill::mir::{
    ArgumentIndex, BasicBlockId, LocalVariableId, LocalVariableInfo, LocalVariableName, Operand, Place, PlaceSegment,
    Rvalue, Statement, StatementKind, Terminator, TerminatorKind,
};
use quill::typed::{ImmediateValue, Pattern, TypeConstructorInvocation};
use quill::types::{NameP, PrimitiveType, QualifiedName, Type};

fn r() -> Range {
    Range { start: Location { line: 0, col: 0 }, end: Location { line: 0, col: 3 } }
}

fn qname(name: &str) -> QualifiedName {
    QualifiedName {
        source_file: SourceFileIdentifier {
            module: ModuleIdentifier { segments: vec![SourceFileIdentifierSegment("core".to_string())] },
            file: SourceFileIdentifierSegment("list".to_string()),
            file_type: SourceFileType::Quill,
        },
        name: name.to_string(),
        range: r(),
    }
}

fn local(n: u64) -> Place {
    Place::new(LocalVariableName::Local(LocalVariableId(n)))
}

fn name(s: &str) -> NameP {
    NameP { name: s.to_string(), range: r() }
}

#[test]
fn names_of_variables_and_blocks() {
    assert_eq!(LocalVariableId(3).to_string(), "_3");
    assert_eq!(BasicBlockId(12).to_string(), "bb12");
    assert_eq!(LocalVariableName::Argument(ArgumentIndex(2)).to_string(), "arg2");
    assert_eq!(LocalVariableName::Local(LocalVariableId(0)).to_string(), "_0");
}

#[test]
fn places() {
    let p = local(1).then(PlaceSegment::Field("x".to_string())).then(PlaceSegment::Field("y".to_string()));
    assert_eq!(p.to_string(), "_1.x.y");
    assert_eq!(PlaceSegment::Field("z".to_string()).to_string(), ".z");
    assert_eq!(Place::new(LocalVariableName::Argument(ArgumentIndex(0))).to_string(), "arg0");
}

#[test]
fn operands_and_values() {
    assert_eq!(Operand::Copy(local(2)).to_string(), "copy _2");
    assert_eq!(Rvalue::Use(Operand::Move(local(2))).to_string(), "use move _2");
    assert_eq!(Operand::Constant(ImmediateValue::Int(-5)).to_string(), "const -5");
    assert_eq!(ImmediateValue::Unit.to_string(), "unit");
    assert_eq!(ImmediateValue::Bool(true).to_string(), "true");
    assert_eq!(ImmediateValue::Char('q').to_string(), "'q'");
    assert_eq!(ImmediateValue::String("hi".to_string()).to_string(), "\"hi\"");
}

#[test]
fn types() {
    let int_ty = || Type::Primitive(PrimitiveType::Int);
    let list = Type::Named { name: qname("List"), parameters: vec![int_ty()] };
    assert_eq!(list.to_string(), "List[Int]");
    let pair = Type::Variable { variable: "P".to_string(), parameters: vec![int_ty(), Type::Primitive(PrimitiveType::Bool)] };
    assert_eq!(pair.to_string(), "P[Int, Bool]");
    let f = Type::Function(Box::new(Type::Function(Box::new(int_ty()), Box::new(int_ty()))), Box::new(int_ty()));
    assert_eq!(f.to_string(), "(Int -> Int) -> Int");
    let g = Type::Function(Box::new(int_ty()), Box::new(Type::Function(Box::new(int_ty()), Box::new(int_ty()))));
    assert_eq!(g.to_string(), "Int -> Int -> Int");
    assert_eq!(Type::Borrow { ty: Box::new(Type::Primitive(PrimitiveType::Unit)) }.to_string(), "&Unit");
    assert_eq!(qname("fold").to_string(), "core::list::fold");
}

#[test]
fn statements() {
    let assign = StatementKind::Assign { target: local(1), source: Rvalue::Use(Operand::Move(local(0))) };
    assert_eq!(assign.to_string(), "_1 = use move _0");
    let apply = StatementKind::Apply {
        argument: Rvalue::Use(Operand::Move(local(1))),
        function: Rvalue::Use(Operand::Move(local(2))),
        target: local(3),
    };
    assert_eq!(apply.to_string(), "_3 = apply use move _1 to use move _2");
    assert_eq!(StatementKind::StorageLive(LocalVariableId(4)).to_string(), "live _4");
    assert_eq!(StatementKind::StorageDead(LocalVariableId(4)).to_string(), "dead _4");
    let inst = StatementKind::InstanceSymbol {
        name: qname("map"),
        type_variables: vec![Type::Primitive(PrimitiveType::Int), Type::Primitive(PrimitiveType::Bool)],
        target: local(5),
    };
    assert_eq!(inst.to_string(), "_5 = instance core::list::map with Int Bool");
    let plain = StatementKind::InstanceSymbol { name: qname("nil"), type_variables: vec![], target: local(6) };
    assert_eq!(plain.to_string(), "_6 = instance core::list::nil");
    let cons = StatementKind::ConstructData {
        ty: Type::Named { name: qname("Pair"), parameters: vec![] },
        fields: vec![
            ("a".to_string(), Rvalue::Use(Operand::Move(local(1)))),
            ("b".to_string(), Rvalue::Use(Operand::Constant(ImmediateValue::Int(2)))),
        ],
        target: local(7),
    };
    assert_eq!(cons.to_string(), "_7 = construct Pair with { a = use move _1 b = use const 2 }");
    let s = Statement { range: r(), kind: StatementKind::StorageLive(LocalVariableId(1)) };
    assert_eq!(s.to_string(), "1:1-1:4 >> live _1");
}

#[test]
fn terminators() {
    assert_eq!(TerminatorKind::Goto(BasicBlockId(2)).to_string(), "goto bb2");
    assert_eq!(TerminatorKind::Invalid.to_string(), "invalid");
    assert_eq!(
        TerminatorKind::Return { value: LocalVariableName::Argument(ArgumentIndex(1)) }.to_string(),
        "return arg1"
    );
    let switch = TerminatorKind::SwitchDiscriminator {
        cases: vec![(qname("Nil"), BasicBlockId(1)), (qname("Cons"), BasicBlockId(2))],
    };
    assert_eq!(switch.to_string(), "switch {\n        core::list::Nil -> bb1\n        core::list::Cons -> bb2\n}");
    let t = Terminator { range: r(), kind: TerminatorKind::Goto(BasicBlockId(0)) };
    assert_eq!(t.to_string(), "1:1-1:4 >> goto bb0");
}

#[test]
fn variable_info() {
    let named = LocalVariableInfo { range: r(), ty: Type::Primitive(PrimitiveType::Int), name: Some("x".to_string()) };
    assert_eq!(named.to_string(), "Int named x");
    let anon = LocalVariableInfo { range: r(), ty: Type::Primitive(PrimitiveType::Bool), name: None };
    assert_eq!(anon.to_string(), "Bool");
}

#[test]
fn patterns() {
    assert_eq!(Pattern::Named(name("a")).to_string(), "a");
    assert_eq!(Pattern::Unknown(r()).to_string(), "_");
    let ctor = TypeConstructorInvocation { data_type: qname("Maybe"), variant: None, range: r() };
    let empty = Pattern::TypeConstructor { type_ctor: ctor.clone(), fields: vec![] };
    assert_eq!(empty.to_string(), "Maybe");
    let full = Pattern::TypeConstructor {
        type_ctor: ctor,
        fields: vec![
            (name("value"), Type::Primitive(PrimitiveType::Int), Pattern::Named(name("a"))),
            (name("other"), Type::Primitive(PrimitiveType::Int), Pattern::Unknown(r())),
        ],
    };
    assert_eq!(full.to_string(), "Maybe {  value = a,  other = _ }");
    let f = Pattern::Function { param_types: vec![], args: vec![Pattern::Named(name("x")), Pattern::Unknown(r())] };
    assert_eq!(f.to_string(), "x _");
}
