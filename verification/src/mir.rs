//! The mid-level intermediate representation of code: each definition becomes a
//! control flow graph of basic blocks that operate on local variables.

use std::collections::HashMap;
use vstd::prelude::*;
use crate::location::Range;
use crate::typed::{Expression, ImmediateValue};
use crate::types::{NameP, QualifiedName, Type};

verus! {

broadcast use vstd::std_specs::hash::group_hash_axioms;

/// The index of an argument of a function.
#[derive(Debug, PartialEq, Eq, Hash, Clone, Copy, Structural)]
pub struct ArgumentIndex(pub u64);

/// The unique identifier of a local variable inside one definition.
#[derive(Debug, PartialEq, Eq, Hash, Clone, Copy, Structural)]
pub struct LocalVariableId(pub u64);

/// The unique identifier of a basic block inside one control flow graph.
#[derive(Debug, PartialEq, Eq, Hash, Clone, Copy, Structural)]
pub struct BasicBlockId(pub u64);

/// A value that functions and expressions can operate on: an argument, or a local.
#[derive(Debug, PartialEq, Eq, Hash, Clone, Copy, Structural)]
pub enum LocalVariableName {
    /// An argument starts as being owned; parts of it are retrieved explicitly.
    Argument(ArgumentIndex),
    /// Local variables, such as intermediate values, each with a unique ID.
    Local(LocalVariableId),
}

/// Information about a local variable, either explicitly or implicitly defined.
#[derive(Debug)]
pub struct LocalVariableInfo {
    /// Where the variable was defined; for an intermediate value, the span of its expression.
    pub range: Range,
    /// The exact type of this variable.
    pub ty: Type,
    /// If this variable had a name, what was it?
    pub name: Option<String>,
}

/// The local variables of a definition, each with its information.
/// Arguments and locals are kept under their indices.
#[derive(Debug)]
pub struct LocalVariableTable {
    arguments: HashMap<u64, LocalVariableInfo>,
    locals: HashMap<u64, LocalVariableInfo>,
}

impl View for LocalVariableTable {
    type V = Map<LocalVariableName, LocalVariableInfo>;

    closed spec fn view(&self) -> Map<LocalVariableName, LocalVariableInfo> {
        Map::new(
            |k: LocalVariableName|
                match k {
                    LocalVariableName::Argument(a) => self.arguments@.contains_key(a.0),
                    LocalVariableName::Local(l) => self.locals@.contains_key(l.0),
                },
            |k: LocalVariableName|
                match k {
                    LocalVariableName::Argument(a) => self.arguments@[a.0],
                    LocalVariableName::Local(l) => self.locals@[l.0],
                },
        )
    }
}

impl LocalVariableTable {
    /// A table with no variables.
    pub fn new() -> (res: LocalVariableTable)
        ensures
            res@ == Map::<LocalVariableName, LocalVariableInfo>::empty(),
    {
        let res = LocalVariableTable { arguments: HashMap::new(), locals: HashMap::new() };
        assert(res@ =~= Map::<LocalVariableName, LocalVariableInfo>::empty());
        res
    }

    /// Records the information of a variable, replacing any earlier record of it.
    pub fn insert(&mut self, name: LocalVariableName, info: LocalVariableInfo)
        ensures
            final(self)@ == old(self)@.insert(name, info),
    {
        match name {
            LocalVariableName::Argument(a) => {
                self.arguments.insert(a.0, info);
            },
            LocalVariableName::Local(l) => {
                self.locals.insert(l.0, info);
            },
        }
        assert(self@ =~= old(self)@.insert(name, info));
    }

    /// The information recorded for a variable, if any.
    pub fn get(&self, name: &LocalVariableName) -> (res: Option<&LocalVariableInfo>)
        ensures
            match res {
                Some(info) => self@.contains_key(*name) && *info == self@[*name],
                None => !self@.contains_key(*name),
            },
    {
        match name {
            LocalVariableName::Argument(a) => self.arguments.get(&a.0),
            LocalVariableName::Local(l) => self.locals.get(&l.0),
        }
    }
}

/// Maps the names of named local variables to the variables; a later entry for a
/// name replaces an earlier one.
#[derive(Debug)]
pub struct NameMap {
    entries: Vec<(String, LocalVariableName)>,
}

/// The map that a list of name entries denotes: later entries win.
pub open spec fn entries_map(s: Seq<(String, LocalVariableName)>) -> Map<Seq<char>, LocalVariableName>
    decreases s.len(),
{
    if s.len() == 0 {
        Map::empty()
    } else {
        entries_map(s.drop_last()).insert(s.last().0@, s.last().1)
    }
}

impl View for NameMap {
    type V = Map<Seq<char>, LocalVariableName>;

    closed spec fn view(&self) -> Map<Seq<char>, LocalVariableName> {
        entries_map(self.entries@)
    }
}

proof fn lemma_entries_map_latest(s: Seq<(String, LocalVariableName)>, i: int)
    requires
        0 <= i < s.len(),
        forall|j: int| i < j < s.len() ==> (#[trigger] s[j]).0@ != s[i].0@,
    ensures
        entries_map(s).contains_key(s[i].0@),
        entries_map(s)[s[i].0@] == s[i].1,
    decreases s.len(),
{
    if i < s.len() - 1 {
        lemma_entries_map_latest(s.drop_last(), i);
        assert(s.drop_last()[i] == s[i]);
        assert(s[s.len() - 1].0@ != s[i].0@);
    }
}

proof fn lemma_entries_map_absent(s: Seq<(String, LocalVariableName)>, k: Seq<char>)
    requires
        forall|j: int| 0 <= j < s.len() ==> (#[trigger] s[j]).0@ != k,
    ensures
        !entries_map(s).contains_key(k),
    decreases s.len(),
{
    if s.len() > 0 {
        lemma_entries_map_absent(s.drop_last(), k);
        assert(s[s.len() - 1].0@ != k);
    }
}

impl NameMap {
    /// A map with no names.
    pub fn new() -> (res: NameMap)
        ensures
            res@ == Map::<Seq<char>, LocalVariableName>::empty(),
    {
        NameMap { entries: Vec::new() }
    }

    /// Maps `name` to `var`, replacing any earlier variable of that name.
    pub fn insert(&mut self, name: String, var: LocalVariableName)
        ensures
            final(self)@ == old(self)@.insert(name@, var),
    {
        self.entries.push((name, var));
        assert(self.entries@.drop_last() =~= old(self).entries@);
    }

    /// The variable that `name` maps to, if any.
    pub fn get(&self, name: &String) -> (res: Option<LocalVariableName>)
        ensures
            match res {
                Some(v) => self@.contains_key(name@) && v == self@[name@],
                None => !self@.contains_key(name@),
            },
    {
        let mut i: usize = self.entries.len();
        while i > 0
            invariant
                i <= self.entries@.len(),
                forall|j: int| i <= j < self.entries@.len() ==> (#[trigger] self.entries@[j]).0@ != name@,
            decreases i,
        {
            i = i - 1;
            if self.entries[i].0 == *name {
                proof {
                    lemma_entries_map_latest(self.entries@, i as int);
                }
                return Some(self.entries[i].1);
            }
        }
        proof {
            lemma_entries_map_absent(self.entries@, name@);
        }
        None
    }
}

/// One step of a path into a variable.
#[derive(Debug, Clone)]
pub enum PlaceSegment {
    Field(String),
}

/// A place in memory that we can read from and write to.
#[derive(Debug)]
pub struct Place {
    /// The local variable that the place originates from.
    local: LocalVariableName,
    /// The lenses that index inside this local variable into deeper and deeper nested places.
    projection: Vec<PlaceSegment>,
}

impl View for Place {
    type V = (LocalVariableName, Seq<PlaceSegment>);

    closed spec fn view(&self) -> (LocalVariableName, Seq<PlaceSegment>) {
        (self.local, self.projection@)
    }
}

impl Place {
    /// The place that is the whole of the given variable.
    pub fn new(local: LocalVariableName) -> (res: Place)
        ensures
            res@ == (local, Seq::<PlaceSegment>::empty()),
    {
        Place { local, projection: Vec::new() }
    }

    /// The place one step further inside this place.
    pub fn then(self, segment: PlaceSegment) -> (res: Place)
        ensures
            res@ == (self@.0, self@.1.push(segment)),
    {
        self.projected(segment)
    }

    /// The place one step further inside this place.
    pub(crate) fn projected(self, segment: PlaceSegment) -> (res: Place)
        ensures
            res@ == (self@.0, self@.1.push(segment)),
    {
        let mut res = self;
        res.projection.push(segment);
        res
    }

    /// A copy of this place.
    pub fn duplicate(&self) -> (res: Place)
        ensures
            res@ == self@,
    {
        let mut projection: Vec<PlaceSegment> = Vec::new();
        let mut i: usize = 0;
        while i < self.projection.len()
            invariant
                i <= self.projection@.len(),
                projection@ == self.projection@.take(i as int),
            decreases self.projection@.len() - i,
        {
            let seg = match &self.projection[i] {
                PlaceSegment::Field(f) => PlaceSegment::Field(f.clone()),
            };
            projection.push(seg);
            i = i + 1;
            assert(projection@ =~= self.projection@.take(i as int));
        }
        assert(projection@ =~= self.projection@);
        Place { local: self.local, projection }
    }

    /// The path inside the variable.
    pub fn projection(&self) -> (res: &Vec<PlaceSegment>)
        ensures
            res@ == self@.1,
    {
        &self.projection
    }

    /// The variable this place starts from.
    pub fn local(&self) -> (res: LocalVariableName)
        ensures
            res == self@.0,
    {
        self.local
    }
}

/// The place that is the whole of variable `v`.
pub open spec fn is_var_place(p: Place, v: LocalVariableName) -> bool {
    p@ == (v, Seq::<PlaceSegment>::empty())
}

/// A use of a value that can be fed into an expression or function; only read from.
#[derive(Debug)]
pub enum Rvalue {
    /// Either a copy or a move, depending on the type.
    Use(Operand),
}

/// A value that we can read from.
#[derive(Debug)]
pub enum Operand {
    Copy(Place),
    Move(Place),
    Constant(ImmediateValue),
}

/// The rvalue that moves the whole of variable `v`.
pub open spec fn moves_var(r: Rvalue, v: LocalVariableName) -> bool {
    match r {
        Rvalue::Use(Operand::Move(p)) => is_var_place(p, v),
        _ => false,
    }
}

/// One step of straight-line code, with the span it comes from.
#[derive(Debug)]
pub struct Statement {
    pub range: Range,
    pub kind: StatementKind,
}

#[derive(Debug)]
pub enum StatementKind {
    /// Moves an rvalue into a place.
    Assign { target: Place, source: Rvalue },
    /// Creates a local instance of a definition such as a function (or a constant).
    InstanceSymbol { name: QualifiedName, type_variables: Vec<Type>, target: Place },
    /// Applies one argument to a function, and stores the result in a variable.
    Apply { argument: Rvalue, function: Rvalue, target: Place },
    /// This variable's lifetime has now begun.
    StorageLive(LocalVariableId),
    /// This variable will no longer be used.
    StorageDead(LocalVariableId),
    /// Creates a function object for a lambda abstraction, capturing the variables it uses.
    CreateLambda { ty: Type, params: Vec<NameP>, expr: Expression, target: Place },
    /// Creates an object of a given type from its fields, in order, and puts it in target.
    ConstructData { ty: Type, fields: Vec<(String, Rvalue)>, target: Place },
}

/// How control leaves a basic block, with the span it comes from.
#[derive(Debug)]
pub struct Terminator {
    pub range: Range,
    pub kind: TerminatorKind,
}

#[derive(Debug)]
pub enum TerminatorKind {
    /// Jump to another basic block unconditionally.
    Goto(BasicBlockId),
    /// Works out which variant of an enum type a value is, and jumps to that case.
    SwitchDiscriminator { cases: Vec<(QualifiedName, BasicBlockId)> },
    /// Used in intermediate steps, when the terminator of a block is not known yet.
    Invalid,
    /// Returns a local variable.
    Return { value: LocalVariableName },
}

/// A block of code executed linearly, followed by a terminator.
#[derive(Debug)]
pub struct BasicBlock {
    pub statements: Vec<Statement>,
    pub terminator: Terminator,
}

/// The blocks a terminator may jump to.
pub open spec fn jumps_to(t: Terminator, b: u64) -> bool {
    match t.kind {
        TerminatorKind::Goto(target) => target.0 == b,
        TerminatorKind::SwitchDiscriminator { cases } => exists|i: int|
            0 <= i < cases@.len() && (#[trigger] cases@[i]).1.0 == b,
        _ => false,
    }
}

/// Every jump of every block lands on a block of the graph.
pub open spec fn jumps_closed(g: Map<u64, BasicBlock>) -> bool {
    forall|k: u64, b: u64| #![trigger jumps_to(g[k].terminator, b)]
        g.contains_key(k) && jumps_to(g[k].terminator, b) ==> g.contains_key(b)
}

/// The control flow graph of one definition.
#[derive(Debug)]
pub struct ControlFlowGraph {
    next_block_id: BasicBlockId,
    /// Every basic block under its unique ID.
    pub basic_blocks: HashMap<u64, BasicBlock>,
}

impl View for ControlFlowGraph {
    type V = Map<u64, BasicBlock>;

    /// The blocks of the graph, under their IDs.
    closed spec fn view(&self) -> Map<u64, BasicBlock> {
        self.basic_blocks@
    }
}

impl ControlFlowGraph {
    /// The ID the next new block will get.
    pub closed spec fn next_block(&self) -> u64 {
        self.next_block_id.0
    }

    /// Every block ID in use is below the next ID to be given out.
    pub closed spec fn ids_fresh(&self) -> bool {
        forall|k: u64| #[trigger] self.basic_blocks@.contains_key(k) ==> k < self.next_block()
    }

    /// Under `ids_fresh`, every block in use has an ID below the next one.
    pub proof fn lemma_ids_below(&self, k: u64)
        requires
            self.ids_fresh(),
            self@.contains_key(k),
        ensures
            k < self.next_block(),
    {
    }

    /// A graph with no blocks.
    pub fn new() -> (res: ControlFlowGraph)
        ensures
            res@ == Map::<u64, BasicBlock>::empty(),
            res.next_block() == 0,
            res.ids_fresh(),
    {
        ControlFlowGraph { next_block_id: BasicBlockId(0), basic_blocks: HashMap::new() }
    }

    /// Inserts a new basic block into the control flow graph, and returns its new unique ID.
    pub fn new_basic_block(&mut self, basic_block: BasicBlock) -> (res: BasicBlockId)
        requires
            old(self).ids_fresh(),
            old(self).next_block() < u64::MAX,
        ensures
            res.0 == old(self).next_block(),
            !old(self)@.contains_key(res.0),
            final(self)@ == old(self)@.insert(res.0, basic_block),
            final(self).next_block() == old(self).next_block() + 1,
            final(self).ids_fresh(),
    {
        let id = self.next_block_id;
        self.next_block_id = BasicBlockId(id.0 + 1);
        self.basic_blocks.insert(id.0, basic_block);
        id
    }
}

impl ControlFlowGraph {
    /// Takes a block out of the graph.
    pub(crate) fn remove_block(&mut self, id: BasicBlockId) -> (res: Option<BasicBlock>)
        ensures
            final(self)@ == old(self)@.remove(id.0),
            final(self).next_block() == old(self).next_block(),
            old(self).ids_fresh() ==> final(self).ids_fresh(),
            match res {
                Some(b) => old(self)@.contains_key(id.0) && b == old(self)@[id.0],
                None => !old(self)@.contains_key(id.0),
            },
    {
        self.basic_blocks.remove(&id.0)
    }

    /// Appends a statement to a block of the graph.
    pub(crate) fn push_statement(&mut self, id: BasicBlockId, statement: Statement)
        requires
            old(self)@.contains_key(id.0),
        ensures
            final(self)@.dom() == old(self)@.dom(),
            forall|k: u64| k != id.0 && old(self)@.contains_key(k) ==> #[trigger] final(self)@[k] == old(self)@[k],
            final(self)@[id.0].statements@ == old(self)@[id.0].statements@.push(statement),
            final(self)@[id.0].terminator == old(self)@[id.0].terminator,
            final(self).next_block() == old(self).next_block(),
            old(self).ids_fresh() ==> final(self).ids_fresh(),
    {
        let mut block = self.basic_blocks.remove(&id.0).unwrap();
        block.statements.push(statement);
        self.basic_blocks.insert(id.0, block);
        assert(self@.dom() =~= old(self)@.dom());
    }

    /// Replaces the terminator of a block of the graph.
    pub(crate) fn set_terminator(&mut self, id: BasicBlockId, terminator: Terminator)
        requires
            old(self)@.contains_key(id.0),
        ensures
            final(self)@.dom() == old(self)@.dom(),
            forall|k: u64| k != id.0 && old(self)@.contains_key(k) ==> #[trigger] final(self)@[k] == old(self)@[k],
            final(self)@[id.0].statements == old(self)@[id.0].statements,
            final(self)@[id.0].terminator == terminator,
            final(self).next_block() == old(self).next_block(),
            old(self).ids_fresh() ==> final(self).ids_fresh(),
    {
        let mut block = self.basic_blocks.remove(&id.0).unwrap();
        block.terminator = terminator;
        self.basic_blocks.insert(id.0, block);
        assert(self@.dom() =~= old(self)@.dom());
    }
}

/// A definition for a symbol, i.e. a function or constant, whose type is
/// `arg_types -> return_type`. The pattern-matching cases of a function are unified
/// into one control flow graph, and their local variables into one table.
#[derive(Debug)]
pub struct DefinitionM {
    pub range: Range,
    /// The type variables at the start of this definition.
    pub type_variables: Vec<String>,
    /// How many parameters must be supplied to this function; their types are in the table.
    pub arity: u64,
    /// The arguments and local variables.
    pub local_variable_names: LocalVariableTable,
    pub return_type: Type,
    pub control_flow_graph: ControlFlowGraph,
    /// The basic block that is entered to invoke the function.
    pub entry_point: BasicBlockId,
}

impl DefinitionM {
    /// The span of source code of this definition.
    pub fn range(&self) -> (res: Range)
        ensures
            res == self.range,
    {
        self.range
    }
}

/// A parsed, type checked and translated source file: its definitions, each under its name.
#[derive(Debug)]
pub struct SourceFileMIR {
    pub definitions: Vec<(String, DefinitionM)>,
}

} // verus!
