//! Deciding whether a typed definition can be turned into a control flow graph:
//! the executable form of `translatable`, so that callers of `to_mir` can test its
//! precondition first.

use vstd::prelude::*;
use crate::mir::{ArgumentIndex, LocalVariableName, PlaceSegment};
use crate::typed::{Definition, Expression, ExpressionContents, Pattern, expr_size, exprs_size, fields_size};
use crate::types::{NameP, Type};
use crate::text::string_texts;
use crate::translate::{
    Binding, args_bindings, args_pattern_size, bind_names, bound_arity, case_bindings, case_names, declare,
    fields_bindings, fields_pattern_size, let_decls, let_decls_fields, let_decls_seq, names_bound,
    no_function_pattern, pattern_bindings, pattern_size, translatable, lemma_declare_dom,
};

verus! {

/// Does `p` hold no function pattern?
fn check_no_function_pattern(p: &Pattern) -> (res: bool)
    ensures
        res == no_function_pattern(*p),
    decreases *p,
{
    match p {
        Pattern::Function { .. } => false,
        Pattern::Constant { .. } => false,
        Pattern::TypeConstructor { fields, .. } => {
            let mut i: usize = 0;
            #[verifier::loop_isolation(false)]
            while i < fields.len()
                invariant
                    i <= fields@.len(),
                    forall|j: int| 0 <= j < i ==> no_function_pattern(#[trigger] fields@[j].2),
                decreases fields@.len() - i,
            {
                if !check_no_function_pattern(&fields[i].2) {
                    return false;
                }
                i = i + 1;
            }
            true
        },
        _ => true,
    }
}

/// The size of a pattern, unless it exceeds `u64::MAX`.
fn checked_pattern_size(p: &Pattern) -> (res: Option<u64>)
    ensures
        match res {
            Some(n) => n == pattern_size(*p),
            None => pattern_size(*p) > u64::MAX,
        },
    decreases *p,
{
    match p {
        Pattern::TypeConstructor { fields, .. } => {
            let mut total: u64 = 0;
            let mut i: usize = 0;
            #[verifier::loop_isolation(false)]
            while i < fields.len()
                invariant
                    i <= fields@.len(),
                    total == fields_pattern_size(fields@.take(i as int)),
                decreases fields@.len() - i,
            {
                proof {
                    let t = fields@.take(i + 1);
                    assert(t.drop_last() =~= fields@.take(i as int));
                    assert(t.last() == fields@[i as int]);
                }
                match checked_pattern_size(&fields[i].2) {
                    Some(n) => {
                        match total.checked_add(n) {
                            Some(t) => total = t,
                            None => {
                                proof {
                                    lemma_fields_pattern_size_mono(fields@, i + 1);
                                }
                                return None;
                            },
                        }
                    },
                    None => {
                        proof {
                            lemma_fields_pattern_size_mono(fields@, i + 1);
                        }
                        return None;
                    },
                }
                i = i + 1;
            }
            assert(fields@.take(fields@.len() as int) =~= fields@);
            total.checked_add(1)
        },
        _ => Some(1),
    }
}

/// The size of the first fields bounds the size of all of them.
proof fn lemma_fields_pattern_size_mono(fs: Seq<(NameP, Type, Pattern)>, k: int)
    requires
        0 <= k <= fs.len(),
    ensures
        fields_pattern_size(fs.take(k)) <= fields_pattern_size(fs),
    decreases fs.len(),
{
    if k < fs.len() {
        assert(fs.drop_last().take(k) =~= fs.take(k));
        lemma_fields_pattern_size_mono(fs.drop_last(), k);
    } else {
        assert(fs.take(k) =~= fs);
    }
}

proof fn lemma_exprs_size_mono(s: Seq<Expression>, k: int)
    requires
        0 <= k <= s.len(),
    ensures
        exprs_size(s.take(k)) <= exprs_size(s),
    decreases s.len(),
{
    if k < s.len() {
        assert(s.drop_last().take(k) =~= s.take(k));
        lemma_exprs_size_mono(s.drop_last(), k);
    } else {
        assert(s.take(k) =~= s);
    }
}

proof fn lemma_fields_size_mono(s: Seq<(NameP, Expression)>, k: int)
    requires
        0 <= k <= s.len(),
    ensures
        fields_size(s.take(k)) <= fields_size(s),
    decreases s.len(),
{
    if k < s.len() {
        assert(s.drop_last().take(k) =~= s.take(k));
        lemma_fields_size_mono(s.drop_last(), k);
    } else {
        assert(s.take(k) =~= s);
    }
}

/// The size of an expression, unless it exceeds `u64::MAX`.
fn checked_expr_size(e: &Expression) -> (res: Option<u64>)
    ensures
        match res {
            Some(n) => n == expr_size(*e),
            None => expr_size(*e) > u64::MAX,
        },
    decreases *e,
{
    match &e.contents {
        ExpressionContents::Apply(l, r) => {
            let a = checked_expr_size(l)?;
            let b = checked_expr_size(r)?;
            let ab = a.checked_add(b)?;
            ab.checked_add(1)
        },
        ExpressionContents::Let { expr, .. } => {
            let a = checked_expr_size(expr)?;
            a.checked_add(1)
        },
        ExpressionContents::Block { statements, .. } => {
            let mut total: u64 = 1;
            let mut i: usize = 0;
            proof {
                assert(statements@.take(0) =~= Seq::<Expression>::empty());
            }
            #[verifier::loop_isolation(false)]
            while i < statements.len()
                invariant
                    i <= statements@.len(),
                    total == exprs_size(statements@.take(i as int)),
                decreases statements@.len() - i,
            {
                proof {
                    let t = statements@.take(i + 1);
                    assert(t.drop_last() =~= statements@.take(i as int));
                    assert(t.last() == statements@[i as int]);
                    lemma_exprs_size_mono(statements@, i + 1);
                }
                let n = match checked_expr_size(&statements[i]) {
                    Some(n) => n,
                    None => return None,
                };
                let t1 = match total.checked_add(n) {
                    Some(t) => t,
                    None => return None,
                };
                total = match t1.checked_add(1) {
                    Some(t) => t,
                    None => return None,
                };
                i = i + 1;
            }
            assert(statements@.take(statements@.len() as int) =~= statements@);
            total.checked_add(1)
        },
        ExpressionContents::ConstructData { fields, .. } => {
            let mut total: u64 = 1;
            let mut i: usize = 0;
            proof {
                assert(fields@.take(0) =~= Seq::<(NameP, Expression)>::empty());
            }
            #[verifier::loop_isolation(false)]
            while i < fields.len()
                invariant
                    i <= fields@.len(),
                    total == fields_size(fields@.take(i as int)),
                decreases fields@.len() - i,
            {
                proof {
                    let t = fields@.take(i + 1);
                    assert(t.drop_last() =~= fields@.take(i as int));
                    assert(t.last() == fields@[i as int]);
                    lemma_fields_size_mono(fields@, i + 1);
                }
                let n = match checked_expr_size(&fields[i].1) {
                    Some(n) => n,
                    None => return None,
                };
                let t1 = match total.checked_add(n) {
                    Some(t) => t,
                    None => return None,
                };
                total = match t1.checked_add(1) {
                    Some(t) => t,
                    None => return None,
                };
                i = i + 1;
            }
            assert(fields@.take(fields@.len() as int) =~= fields@);
            total.checked_add(1)
        },
        _ => Some(1),
    }
}

/// The names some bindings give.
pub open spec fn binding_names(bs: Seq<Binding>) -> Seq<Seq<char>> {
    bs.map_values(|b: Binding| b.0.name@)
}

/// The names some `let` statements declare.
pub open spec fn decl_names(ds: Seq<(NameP, Type)>) -> Seq<Seq<char>> {
    ds.map_values(|d: (NameP, Type)| d.0.name@)
}

/// The names in a sequence, as a set.
pub open spec fn name_set(v: Seq<Seq<char>>) -> Set<Seq<char>> {
    Set::new(|k: Seq<char>| exists|i: int| 0 <= i < v.len() && v[i] == k)
}

/// Appends the names the pattern `p` binds, in order.
fn push_pattern_names(
    out: &mut Vec<String>,
    p: &Pattern,
    Ghost(root): Ghost<LocalVariableName>,
    Ghost(proj): Ghost<Seq<PlaceSegment>>,
)
    ensures
        string_texts(final(out)@) == string_texts(old(out)@) + binding_names(pattern_bindings(*p, root, proj)),
    decreases *p,
{
    match p {
        Pattern::Named(n) => {
            out.push(n.name.clone());
            assert(string_texts(out@) =~= string_texts(old(out)@) + binding_names(pattern_bindings(*p, root, proj)));
        },
        Pattern::TypeConstructor { fields, .. } => {
            let ghost fs = fields@;
            let mut i: usize = 0;
            proof {
                assert(fs.take(0) =~= Seq::<(NameP, Type, Pattern)>::empty());
                assert(string_texts(out@) =~= string_texts(old(out)@) + binding_names(fields_bindings(fs.take(0), root, proj)));
            }
            #[verifier::loop_isolation(false)]
            while i < fields.len()
                invariant
                    i <= fs.len(),
                    fields@ == fs,
                    string_texts(out@) == string_texts(old(out)@) + binding_names(fields_bindings(fs.take(i as int), root, proj)),
                decreases fs.len() - i,
            {
                let ghost before = string_texts(out@);
                let ghost sub_proj = proj.push(PlaceSegment::Field(fs[i as int].0.name));
                push_pattern_names(out, &fields[i].2, Ghost(root), Ghost(sub_proj));
                proof {
                    let t = fs.take(i + 1);
                    assert(t.drop_last() =~= fs.take(i as int));
                    assert(t.last() == fs[i as int]);
                    let a = fields_bindings(fs.take(i as int), root, proj);
                    let b = pattern_bindings(fs[i as int].2, root, sub_proj);
                    assert(fields_bindings(t, root, proj) == a + b);
                    assert(binding_names(a + b) =~= binding_names(a) + binding_names(b));
                    assert(string_texts(out@) =~= string_texts(old(out)@) + binding_names(fields_bindings(t, root, proj)));
                }
                i = i + 1;
            }
            assert(fs.take(fs.len() as int) =~= fs);
        },
        _ => {
            assert(string_texts(out@) =~= string_texts(old(out)@) + binding_names(pattern_bindings(*p, root, proj)));
        },
    }
}

/// Appends the names the `let` statements of `e` declare, in order.
fn push_let_names(out: &mut Vec<String>, e: &Expression)
    ensures
        string_texts(final(out)@) == string_texts(old(out)@) + decl_names(let_decls(*e)),
    decreases *e,
{
    match &e.contents {
        ExpressionContents::Apply(l, r) => {
            push_let_names(out, l);
            push_let_names(out, r);
            assert(decl_names(let_decls(**l) + let_decls(**r)) =~= decl_names(let_decls(**l)) + decl_names(let_decls(**r)));
            assert(string_texts(out@) =~= string_texts(old(out)@) + decl_names(let_decls(*e)));
        },
        ExpressionContents::Let { name, .. } => {
            out.push(name.name.clone());
            assert(string_texts(out@) =~= string_texts(old(out)@) + decl_names(let_decls(*e)));
        },
        ExpressionContents::Block { statements, .. } => {
            let ghost ss = statements@;
            let mut i: usize = 0;
            proof {
                assert(ss.take(0) =~= Seq::<Expression>::empty());
                assert(string_texts(out@) =~= string_texts(old(out)@) + decl_names(let_decls_seq(ss.take(0))));
            }
            #[verifier::loop_isolation(false)]
            while i < statements.len()
                invariant
                    i <= ss.len(),
                    statements@ == ss,
                    string_texts(out@) == string_texts(old(out)@) + decl_names(let_decls_seq(ss.take(i as int))),
                decreases ss.len() - i,
            {
                push_let_names(out, &statements[i]);
                proof {
                    let t = ss.take(i + 1);
                    assert(t.drop_last() =~= ss.take(i as int));
                    assert(t.last() == ss[i as int]);
                    let a = let_decls_seq(ss.take(i as int));
                    let b = let_decls(ss[i as int]);
                    assert(decl_names(a + b) =~= decl_names(a) + decl_names(b));
                    assert(string_texts(out@) =~= string_texts(old(out)@) + decl_names(let_decls_seq(t)));
                }
                i = i + 1;
            }
            assert(ss.take(ss.len() as int) =~= ss);
        },
        ExpressionContents::ConstructData { fields, .. } => {
            let ghost fs = fields@;
            let mut i: usize = 0;
            proof {
                assert(fs.take(0) =~= Seq::<(NameP, Expression)>::empty());
                assert(string_texts(out@) =~= string_texts(old(out)@) + decl_names(let_decls_fields(fs.take(0))));
            }
            #[verifier::loop_isolation(false)]
            while i < fields.len()
                invariant
                    i <= fs.len(),
                    fields@ == fs,
                    string_texts(out@) == string_texts(old(out)@) + decl_names(let_decls_fields(fs.take(i as int))),
                decreases fs.len() - i,
            {
                push_let_names(out, &fields[i].1);
                proof {
                    let t = fs.take(i + 1);
                    assert(t.drop_last() =~= fs.take(i as int));
                    assert(t.last() == fs[i as int]);
                    let a = let_decls_fields(fs.take(i as int));
                    let b = let_decls(fs[i as int].1);
                    assert(decl_names(a + b) =~= decl_names(a) + decl_names(b));
                    assert(string_texts(out@) =~= string_texts(old(out)@) + decl_names(let_decls_fields(t)));
                }
                i = i + 1;
            }
            assert(fs.take(fs.len() as int) =~= fs);
        },
        _ => {
            assert(string_texts(out@) =~= string_texts(old(out)@) + decl_names(let_decls(*e)));
        },
    }
}

/// Is `n` among the names?
fn has_name(names: &Vec<String>, n: &String) -> (res: bool)
    ensures
        res == name_set(string_texts(names@)).contains(n@),
{
    let mut i: usize = 0;
    while i < names.len()
        invariant
            i <= names@.len(),
            forall|j: int| 0 <= j < i ==> names@[j]@ != n@,
        decreases names@.len() - i,
    {
        if names[i] == *n {
            assert(string_texts(names@)[i as int] == n@);
            return true;
        }
        i = i + 1;
    }
    proof {
        if name_set(string_texts(names@)).contains(n@) {
            let j = choose|j: int| 0 <= j < string_texts(names@).len() && string_texts(names@)[j] == n@;
            assert(names@[j]@ == n@);
        }
    }
    false
}

/// Does `e` look up only names among `names`?
fn check_names_bound(e: &Expression, names: &Vec<String>) -> (res: bool)
    ensures
        res == names_bound(*e, name_set(string_texts(names@))),
    decreases *e,
{
    match &e.contents {
        ExpressionContents::Argument(n) => has_name(names, &n.name),
        ExpressionContents::Local(n) => has_name(names, &n.name),
        ExpressionContents::Apply(l, r) => check_names_bound(l, names) && check_names_bound(r, names),
        ExpressionContents::Let { name, expr, .. } => has_name(names, &name.name) && check_names_bound(expr, names),
        ExpressionContents::Block { statements, .. } => {
            let mut i: usize = 0;
            #[verifier::loop_isolation(false)]
            while i < statements.len()
                invariant
                    i <= statements@.len(),
                    forall|j: int| 0 <= j < i ==> names_bound(#[trigger] statements@[j], name_set(string_texts(names@))),
                decreases statements@.len() - i,
            {
                if !check_names_bound(&statements[i], names) {
                    return false;
                }
                i = i + 1;
            }
            true
        },
        ExpressionContents::ConstructData { fields, .. } => {
            let mut i: usize = 0;
            #[verifier::loop_isolation(false)]
            while i < fields.len()
                invariant
                    i <= fields@.len(),
                    forall|j: int| 0 <= j < i ==> names_bound(#[trigger] fields@[j].1, name_set(string_texts(names@))),
                decreases fields@.len() - i,
            {
                if !check_names_bound(&fields[i].1, names) {
                    return false;
                }
                i = i + 1;
            }
            true
        },
        ExpressionContents::Borrow { .. } | ExpressionContents::Copy { .. } => false,
        _ => true,
    }
}

proof fn lemma_bind_names_dom(names: Map<Seq<char>, LocalVariableName>, bs: Seq<Binding>, start: int, k: Seq<char>)
    ensures
        bind_names(names, bs, start).contains_key(k) <==> (names.contains_key(k) || exists|i: int|
            0 <= i < bs.len() && #[trigger] bs[i].0.name@ == k),
    decreases bs.len(),
{
    if bs.len() > 0 {
        lemma_bind_names_dom(names, bs.drop_last(), start, k);
        if exists|i: int| 0 <= i < bs.len() && #[trigger] bs[i].0.name@ == k {
            let i = choose|i: int| 0 <= i < bs.len() && #[trigger] bs[i].0.name@ == k;
            if i < bs.len() - 1 {
                assert(bs.drop_last()[i].0.name@ == k);
            }
        }
        if exists|i: int| 0 <= i < bs.len() - 1 && #[trigger] bs.drop_last()[i].0.name@ == k {
            let i = choose|i: int| 0 <= i < bs.len() - 1 && #[trigger] bs.drop_last()[i].0.name@ == k;
            assert(bs[i].0.name@ == k);
        }
    }
}

/// The names known in the body of the first case are those its patterns bind and
/// its `let` statements declare.
proof fn lemma_case_names_dom(def: Definition)
    ensures
        case_names(def).dom() == name_set(
            binding_names(case_bindings(def)) + decl_names(let_decls(def.cases@[0].replacement)),
        ),
{
    let bs = case_bindings(def);
    let ds = let_decls(def.cases@[0].replacement);
    let all = binding_names(bs) + decl_names(ds);
    assert forall|k: Seq<char>| case_names(def).dom().contains(k) <==> name_set(all).contains(k) by {
        lemma_declare_dom(bind_names(Map::empty(), bs, 0), ds, bs.len() as int, k);
        lemma_bind_names_dom(Map::empty(), bs, 0, k);
        if exists|i: int| 0 <= i < bs.len() && #[trigger] bs[i].0.name@ == k {
            let i = choose|i: int| 0 <= i < bs.len() && #[trigger] bs[i].0.name@ == k;
            assert(all[i] == k);
        }
        if exists|i: int| 0 <= i < ds.len() && #[trigger] ds[i].0.name@ == k {
            let i = choose|i: int| 0 <= i < ds.len() && #[trigger] ds[i].0.name@ == k;
            assert(all[bs.len() + i] == k);
        }
        if name_set(all).contains(k) {
            let j = choose|j: int| 0 <= j < all.len() && all[j] == k;
            if j < bs.len() {
                assert(bs[j].0.name@ == k);
            } else {
                assert(ds[j - bs.len()].0.name@ == k);
            }
        }
    }
    assert(case_names(def).dom() =~= name_set(all));
}

proof fn lemma_args_pattern_size_mono(pats: Seq<Pattern>, a: int, b: int)
    requires
        0 <= a <= b,
    ensures
        args_pattern_size(pats, a) <= args_pattern_size(pats, b),
    decreases b - a,
{
    if a < b {
        lemma_args_pattern_size_mono(pats, a, b - 1);
    }
}

/// Can `to_mir` turn this definition into a control flow graph? It can when the
/// definition has a case, the patterns of that case hold no function pattern, its
/// body names only what the patterns bind or its `let` statements declare, and it is
/// small enough for the counters of blocks and variables.
pub fn is_translatable(def: &Definition) -> (res: bool)
    ensures
        res == translatable(*def),
{
    if def.cases.len() == 0 {
        return false;
    }
    let case = &def.cases[0];
    let pats = &case.arg_patterns;
    let k: usize = if pats.len() < def.arg_types.len() { pats.len() } else { def.arg_types.len() };
    assert(k == bound_arity(*def));
    let mut i: usize = 0;
    while i < k
        invariant
            i <= k,
            k <= pats@.len(),
            k == bound_arity(*def),
            *pats == def.cases@[0].arg_patterns,
            forall|j: int| 0 <= j < i ==> no_function_pattern(#[trigger] pats@[j]),
        decreases k - i,
    {
        if !check_no_function_pattern(&pats[i]) {
            assert(!no_function_pattern(def.cases@[0].arg_patterns@[i as int]));
            return false;
        }
        i = i + 1;
    }
    let mut names: Vec<String> = Vec::new();
    let mut i: usize = 0;
    proof {
        assert(string_texts(names@) =~= binding_names(args_bindings(pats@, 0)));
    }
    while i < k
        invariant
            i <= k,
            k <= pats@.len(),
            string_texts(names@) == binding_names(args_bindings(pats@, i as int)),
        decreases k - i,
    {
        let ghost before = string_texts(names@);
        push_pattern_names(
            &mut names,
            &pats[i],
            Ghost(LocalVariableName::Argument(ArgumentIndex(i as u64))),
            Ghost(Seq::<PlaceSegment>::empty()),
        );
        proof {
            let a = args_bindings(pats@, i as int);
            let b = pattern_bindings(pats@[i as int], LocalVariableName::Argument(ArgumentIndex(i as u64)), Seq::empty());
            assert(args_bindings(pats@, i + 1) == a + b);
            assert(binding_names(a + b) =~= binding_names(a) + binding_names(b));
        }
        i = i + 1;
    }
    push_let_names(&mut names, &case.replacement);
    proof {
        lemma_case_names_dom(*def);
        assert(string_texts(names@) == binding_names(case_bindings(*def)) + decl_names(let_decls(case.replacement)));
    }
    if !check_names_bound(&case.replacement, &names) {
        return false;
    }
    let mut total: u64 = 0;
    let mut i: usize = 0;
    while i < k
        invariant
            i <= k,
            k <= pats@.len(),
            k == bound_arity(*def),
            *pats == def.cases@[0].arg_patterns,
            total == args_pattern_size(pats@, i as int),
        decreases k - i,
    {
        proof {
            lemma_args_pattern_size_mono(pats@, i + 1, k as int);
        }
        let n = match checked_pattern_size(&pats[i]) {
            Some(n) => n,
            None => return false,
        };
        total = match total.checked_add(n) {
            Some(t) => t,
            None => return false,
        };
        i = i + 1;
    }
    let e = match checked_expr_size(&case.replacement) {
        Some(e) => e,
        None => return false,
    };
    let sum = match total.checked_add(e) {
        Some(s) => s,
        None => return false,
    };
    if sum > (u64::MAX - 2) / 2 {
        return false;
    }
    true
}

} // verus!
