use quill::location::{Location, ModuleIdentifier, Range, SourceFileIdentifier, SourceFileIdentifierSegment, SourceFileType};
use quill::mir::{
    ArgumentIndex, BasicBlock, ControlFlowGraph, LocalVariableId, LocalVariableInfo, LocalVariableName,
    LocalVariableTable, NameMap, Place, PlaceSegment, StatementKind, Terminator, TerminatorKind,
};
use quill::translate::to_mir;
use quill::check_hir::is_translatable;
use quill::typed::{Definition, DefinitionCase, Expression, ExpressionContents, ImmediateValue, Pattern, SourceFileHIR, TypeConstructorInvocation};
use quill::types::{NameP, PrimitiveType, QualifiedName, Type};

fn r(line: u32) -> Range {
    Range { start: Location { line, col: 0 }, end: Location { line, col: 5 } }
}

fn name(s: &str, line: u32) -> NameP {
    NameP { name: s.to_string(), range: r(line) }
}

fn int_ty() -> Type {
    Type::Primitive(PrimitiveType::Int)
}

fn block(kind: TerminatorKind) -> BasicBlock {
    BasicBlock { statements: vec![], terminator: Terminator { range: r(0), kind } }
}

fn qname(s: &str) -> QualifiedName {
    QualifiedName {
        source_file: SourceFileIdentifier {
            module: ModuleIdentifier { segments: vec![SourceFileIdentifierSegment("core".to_string())] },
            file: SourceFileIdentifierSegment("main".to_string()),
            file_type: SourceFileType::Quill,
        },
        name: s.to_string(),
        range: r(0),
    }
}

#[test]
fn places_grow_one_step_at_a_time() {
    let p = Place::new(LocalVariableName::Local(LocalVariableId(4)));
    assert_eq!(p.local(), LocalVariableName::Local(LocalVariableId(4)));
    assert!(p.projection().is_empty());
    let q = p.then(PlaceSegment::Field("a".to_string()));
    assert_eq!(q.projection().len(), 1);
    let c = q.duplicate();
    assert_eq!(c.to_string(), "_4.a");
}

#[test]
fn new_blocks_get_fresh_ids() {
    let mut g = ControlFlowGraph::new();
    let a = g.new_basic_block(block(TerminatorKind::Invalid));
    let b = g.new_basic_block(block(TerminatorKind::Goto(a)));
    assert_eq!(a.0, 0);
    assert_eq!(b.0, 1);
    assert_eq!(g.basic_blocks.len(), 2);
    assert!(matches!(g.basic_blocks[&1].terminator.kind, TerminatorKind::Goto(t) if t == a));
}

#[test]
fn variable_table_keeps_the_last_record() {
    let mut t = LocalVariableTable::new();
    let v = LocalVariableName::Argument(ArgumentIndex(0));
    assert!(t.get(&v).is_none());
    t.insert(v, LocalVariableInfo { range: r(1), ty: int_ty(), name: None });
    t.insert(v, LocalVariableInfo { range: r(2), ty: int_ty(), name: Some("x".to_string()) });
    assert_eq!(t.get(&v).unwrap().name, Some("x".to_string()));
    assert!(t.get(&LocalVariableName::Local(LocalVariableId(0))).is_none());
}

#[test]
fn name_map_later_entries_win() {
    let mut m = NameMap::new();
    assert_eq!(m.get(&"x".to_string()), None);
    m.insert("x".to_string(), LocalVariableName::Local(LocalVariableId(1)));
    m.insert("y".to_string(), LocalVariableName::Local(LocalVariableId(2)));
    m.insert("x".to_string(), LocalVariableName::Local(LocalVariableId(3)));
    assert_eq!(m.get(&"x".to_string()), Some(LocalVariableName::Local(LocalVariableId(3))));
    assert_eq!(m.get(&"y".to_string()), Some(LocalVariableName::Local(LocalVariableId(2))));
}

fn identity() -> Definition {
    Definition {
        range: r(0),
        type_variables: vec![],
        arg_types: vec![int_ty()],
        return_type: int_ty(),
        cases: vec![DefinitionCase {
            range: r(0),
            arg_patterns: vec![Pattern::Named(name("x", 0))],
            replacement: Expression { ty: int_ty(), contents: ExpressionContents::Local(name("x", 1)) },
        }],
    }
}

fn constant() -> Definition {
    Definition {
        range: r(3),
        type_variables: vec!["T".to_string()],
        arg_types: vec![],
        return_type: int_ty(),
        cases: vec![DefinitionCase {
            range: r(3),
            arg_patterns: vec![],
            replacement: Expression {
                ty: int_ty(),
                contents: ExpressionContents::ImmediateValue { value: ImmediateValue::Int(7), range: r(3) },
            },
        }],
    }
}

fn unwrap_pair() -> Definition {
    let pattern = Pattern::TypeConstructor {
        type_ctor: TypeConstructorInvocation { data_type: qname("Pair"), variant: None, range: r(5) },
        fields: vec![
            (name("first", 5), int_ty(), Pattern::Named(name("a", 5))),
            (name("second", 5), int_ty(), Pattern::Unknown(r(5))),
        ],
    };
    Definition {
        range: r(5),
        type_variables: vec![],
        arg_types: vec![Type::Named { name: qname("Pair"), parameters: vec![] }],
        return_type: int_ty(),
        cases: vec![DefinitionCase {
            range: r(5),
            arg_patterns: vec![pattern],
            replacement: Expression { ty: int_ty(), contents: ExpressionContents::Local(name("a", 6)) },
        }],
    }
}

fn check_complete(def: &quill::mir::DefinitionM) {
    assert!(def.control_flow_graph.basic_blocks.contains_key(&def.entry_point.0));
    let mut returns = 0;
    for (_, b) in &def.control_flow_graph.basic_blocks {
        match &b.terminator.kind {
            TerminatorKind::Invalid => panic!("block left without a terminator"),
            TerminatorKind::Goto(t) => assert!(def.control_flow_graph.basic_blocks.contains_key(&t.0)),
            TerminatorKind::SwitchDiscriminator { cases } => {
                for (_, t) in cases {
                    assert!(def.control_flow_graph.basic_blocks.contains_key(&t.0));
                }
            }
            TerminatorKind::Return { .. } => returns += 1,
        }
    }
    assert!(returns >= 1);
}

#[test]
fn to_mir_keeps_names_and_order() {
    let file = SourceFileHIR {
        definitions: vec![
            ("id".to_string(), identity()),
            ("seven".to_string(), constant()),
            ("first".to_string(), unwrap_pair()),
        ],
    };
    let mir = to_mir(file);
    assert_eq!(mir.definitions.len(), 3);
    assert_eq!(mir.definitions[0].0, "id");
    assert_eq!(mir.definitions[1].0, "seven");
    assert_eq!(mir.definitions[2].0, "first");
    assert_eq!(mir.definitions[0].1.arity, 1);
    assert_eq!(mir.definitions[1].1.arity, 0);
    assert_eq!(mir.definitions[1].1.type_variables, vec!["T".to_string()]);
    assert_eq!(mir.definitions[1].1.range(), r(3));
    for (_, d) in &mir.definitions {
        check_complete(d);
    }
}

#[test]
fn arguments_are_recorded() {
    let mir = to_mir(SourceFileHIR { definitions: vec![("id".to_string(), identity())] });
    let d = &mir.definitions[0].1;
    let arg = d.local_variable_names.get(&LocalVariableName::Argument(ArgumentIndex(0))).unwrap();
    assert_eq!(arg.range, r(0));
    assert_eq!(arg.name, None);
    assert_eq!(arg.ty.to_string(), "Int");
}

#[test]
fn pattern_bindings_become_locals() {
    let mir = to_mir(SourceFileHIR { definitions: vec![("first".to_string(), unwrap_pair())] });
    let d = &mir.definitions[0].1;
    let entry = &d.control_flow_graph.basic_blocks[&d.entry_point.0];
    let texts: Vec<String> = entry.statements.iter().map(|s| s.kind.to_string()).collect();
    assert_eq!(texts[0], "live _0");
    assert_eq!(texts[1], "_0 = use move arg0.first");
}

#[test]
fn pattern_ranges() {
    let p = match &unwrap_pair().cases[0].arg_patterns[0] {
        Pattern::TypeConstructor { type_ctor, .. } => Pattern::TypeConstructor {
            type_ctor: type_ctor.clone(),
            fields: vec![(name("first", 5), int_ty(), Pattern::Named(name("a", 9)))],
        },
        _ => unreachable!(),
    };
    assert_eq!(p.range(), Range { start: Location { line: 5, col: 0 }, end: Location { line: 9, col: 5 } });
    let f = Pattern::Function { param_types: vec![], args: vec![Pattern::Unknown(r(4)), Pattern::Named(name("b", 2))] };
    assert_eq!(f.range(), Range { start: Location { line: 2, col: 0 }, end: Location { line: 4, col: 5 } });
}

#[test]
fn expression_ranges() {
    let e = Expression {
        ty: int_ty(),
        contents: ExpressionContents::Apply(
            Box::new(Expression { ty: int_ty(), contents: ExpressionContents::Local(name("f", 2)) }),
            Box::new(Expression { ty: int_ty(), contents: ExpressionContents::Argument(name("x", 7)) }),
        ),
    };
    assert_eq!(e.range(), Range { start: Location { line: 2, col: 0 }, end: Location { line: 7, col: 5 } });
}

#[test]
fn translatable_definitions() {
    assert!(is_translatable(&identity()));
    assert!(is_translatable(&constant()));
    assert!(is_translatable(&unwrap_pair()));
}

#[test]
fn definitions_without_cases_are_refused() {
    let mut d = identity();
    d.cases.clear();
    assert!(!is_translatable(&d));
}

#[test]
fn unknown_names_are_refused() {
    let mut d = identity();
    d.cases[0].replacement = Expression { ty: int_ty(), contents: ExpressionContents::Local(name("y", 1)) };
    assert!(!is_translatable(&d));
}

#[test]
fn let_names_are_known() {
    let mut d = identity();
    let block = ExpressionContents::Block {
        open_bracket: r(1),
        close_bracket: r(2),
        statements: vec![
            Expression {
                ty: int_ty(),
                contents: ExpressionContents::Let {
                    let_token: r(1),
                    name: name("y", 1),
                    expr: Box::new(Expression { ty: int_ty(), contents: ExpressionContents::Argument(name("x", 1)) }),
                },
            },
            Expression { ty: int_ty(), contents: ExpressionContents::Local(name("y", 2)) },
        ],
        final_semicolon: None,
    };
    d.cases[0].replacement = Expression { ty: int_ty(), contents: block };
    assert!(is_translatable(&d));
    let mir = to_mir(SourceFileHIR { definitions: vec![("let".to_string(), d)] });
    check_complete(&mir.definitions[0].1);
}

#[test]
fn function_patterns_are_refused() {
    let mut d = identity();
    d.cases[0].arg_patterns = vec![Pattern::Function { param_types: vec![], args: vec![Pattern::Named(name("x", 0))] }];
    assert!(!is_translatable(&d));
}

fn unit_value(line: u32) -> Expression {
    Expression {
        ty: Type::Primitive(PrimitiveType::Unit),
        contents: ExpressionContents::ImmediateValue { value: ImmediateValue::Unit, range: r(line) },
    }
}

fn texts(d: &quill::mir::DefinitionM, id: u64) -> Vec<String> {
    d.control_flow_graph.basic_blocks[&id].statements.iter().map(|s| s.kind.to_string()).collect()
}

fn goto_target(d: &quill::mir::DefinitionM, id: u64) -> u64 {
    match &d.control_flow_graph.basic_blocks[&id].terminator.kind {
        TerminatorKind::Goto(t) => t.0,
        _ => panic!("block {} does not jump", id),
    }
}

#[test]
fn application_blocks_run_in_a_row() {
    let body = Expression {
        ty: Type::Primitive(PrimitiveType::Unit),
        contents: ExpressionContents::Apply(Box::new(unit_value(1)), Box::new(unit_value(2))),
    };
    let d = Definition {
        range: r(0),
        type_variables: vec![],
        arg_types: vec![],
        return_type: Type::Primitive(PrimitiveType::Unit),
        cases: vec![DefinitionCase { range: r(0), arg_patterns: vec![], replacement: body }],
    };
    assert!(is_translatable(&d));
    let mir = to_mir(SourceFileHIR { definitions: vec![("app".to_string(), d)] });
    let m = &mir.definitions[0].1;
    // The entry, the return block, then the application's own block, the argument's
    // and the function's, numbered in that order.
    assert_eq!(m.entry_point.0, 0);
    assert_eq!(m.control_flow_graph.basic_blocks.len(), 5);
    assert!(texts(m, 0).is_empty());
    assert_eq!(goto_target(m, 0), 4);
    assert_eq!(texts(m, 4), vec!["live _2".to_string(), "_2 = use const unit".to_string()]);
    assert_eq!(goto_target(m, 4), 3);
    assert_eq!(texts(m, 3), vec!["live _1".to_string(), "_1 = use const unit".to_string()]);
    assert_eq!(goto_target(m, 3), 2);
    assert_eq!(texts(m, 2), vec!["_0 = apply use move _1 to use move _2".to_string()]);
    assert_eq!(goto_target(m, 2), 1);
    assert!(texts(m, 1).is_empty());
    assert!(matches!(
        m.control_flow_graph.basic_blocks[&1].terminator.kind,
        TerminatorKind::Return { value: LocalVariableName::Local(LocalVariableId(0)) }
    ));
    for n in 0..3 {
        assert!(m.local_variable_names.get(&LocalVariableName::Local(LocalVariableId(n))).is_some());
    }
    assert!(m.local_variable_names.get(&LocalVariableName::Local(LocalVariableId(3))).is_none());
}

#[test]
fn a_let_yields_a_new_unit_variable() {
    let mut d = identity();
    let block = ExpressionContents::Block {
        open_bracket: r(1),
        close_bracket: r(2),
        statements: vec![Expression {
            ty: int_ty(),
            contents: ExpressionContents::Let {
                let_token: r(1),
                name: name("y", 1),
                expr: Box::new(Expression { ty: int_ty(), contents: ExpressionContents::Argument(name("x", 1)) }),
            },
        }],
        final_semicolon: None,
    };
    d.cases[0].replacement = Expression { ty: Type::Primitive(PrimitiveType::Unit), contents: block };
    assert!(is_translatable(&d));
    let mir = to_mir(SourceFileHIR { definitions: vec![("let".to_string(), d)] });
    let m = &mir.definitions[0].1;
    check_complete(m);
    let entry = m.entry_point.0;
    let ret = entry + 1;
    let value = match &m.control_flow_graph.basic_blocks[&ret].terminator.kind {
        TerminatorKind::Return { value } => *value,
        _ => panic!("the block after the entry does not return"),
    };
    // Pattern `x` is `_0`, the `let` name `y` is `_1`, the unit the `let` yields is `_2`.
    assert_eq!(value, LocalVariableName::Local(LocalVariableId(2)));
    let info = m.local_variable_names.get(&value).unwrap();
    assert!(matches!(info.ty, Type::Primitive(PrimitiveType::Unit)));
    assert_eq!(info.name, None);
    assert_eq!(m.local_variable_names.get(&LocalVariableName::Local(LocalVariableId(1))).unwrap().name, Some("y".to_string()));
    // The body's blocks: an empty one, the value of `x`, then the `let` itself.
    assert_eq!(m.control_flow_graph.basic_blocks.len() as u64, 5);
    let first = goto_target(m, entry);
    assert_eq!(first, entry + 4);
    assert!(texts(m, first).is_empty());
    assert_eq!(goto_target(m, first), entry + 3);
    assert!(texts(m, entry + 3).is_empty());
    assert_eq!(goto_target(m, entry + 3), entry + 2);
    assert_eq!(
        texts(m, entry + 2),
        vec!["_1 = use move _0".to_string(), "live _2".to_string(), "_2 = use const unit".to_string()]
    );
    assert_eq!(goto_target(m, entry + 2), ret);
}

#[test]
fn borrows_and_constant_patterns_are_not_translated() {
    let mut d = identity();
    d.cases[0].replacement = Expression {
        ty: int_ty(),
        contents: ExpressionContents::Borrow {
            borrow_token: r(1),
            expr: Box::new(Expression { ty: int_ty(), contents: ExpressionContents::Local(name("x", 3)) }),
        },
    };
    assert_eq!(d.cases[0].replacement.range(), Range { start: Location { line: 1, col: 0 }, end: Location { line: 3, col: 5 } });
    assert!(!is_translatable(&d));
    let mut c = identity();
    c.cases[0].arg_patterns = vec![Pattern::Constant { range: r(4), value: ImmediateValue::Int(3) }];
    assert_eq!(c.cases[0].arg_patterns[0].range(), r(4));
    assert_eq!(c.cases[0].arg_patterns[0].to_string(), "const 3");
    assert!(!is_translatable(&c));
}

#[test]
fn a_field_named_twice_keeps_its_last_value() {
    let pair = Type::Named { name: qname("Pair"), parameters: vec![] };
    let body = Expression {
        ty: pair.duplicate(),
        contents: ExpressionContents::ConstructData {
            data_type_name: qname("Pair"),
            variant: None,
            fields: vec![(name("a", 1), unit_value(1)), (name("b", 2), unit_value(2)), (name("a", 3), unit_value(3))],
            open_brace: r(1),
            close_brace: r(3),
        },
    };
    let d = Definition {
        range: r(0),
        type_variables: vec![],
        arg_types: vec![],
        return_type: pair,
        cases: vec![DefinitionCase { range: r(0), arg_patterns: vec![], replacement: body }],
    };
    assert!(is_translatable(&d));
    let mir = to_mir(SourceFileHIR { definitions: vec![("dup".to_string(), d)] });
    let m = &mir.definitions[0].1;
    check_complete(m);
    // The constructor's own block is the first after the return block; its fields are
    // computed from the last to the first, into `_1`, `_2` and `_3`.
    let own = &m.control_flow_graph.basic_blocks[&(m.entry_point.0 + 2)];
    match &own.statements[1].kind {
        StatementKind::ConstructData { fields, .. } => {
            let texts: Vec<(String, String)> = fields.iter().map(|(n, v)| (n.clone(), v.to_string())).collect();
            assert_eq!(texts, vec![
                ("b".to_string(), "use move _2".to_string()),
                ("a".to_string(), "use move _1".to_string()),
            ]);
        },
        _ => panic!("expected the construct statement"),
    }
}
