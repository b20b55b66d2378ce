use vstd::prelude::*;
use vstd::string::StrSliceExecFns;

use crate::ast::{BinaryOp, Expr, Function, Prototype};
use crate::error::Error;

verus! {

/// Whether a declared function is exported (it has a body here) or imported
/// (declared only, its body supplied elsewhere).
#[derive(Debug, Clone, Copy, PartialEq, Eq, Structural)]
pub enum Linkage {
    Export,
    Import,
}

/// The record kept per declared function name: the identifier the backend
/// driver knows it by, its declared parameter count, and whether a body has
/// been emitted for it yet.
#[derive(Debug, Clone, Copy, PartialEq, Eq, Structural)]
pub struct CompiledFunction {
    pub defined: bool,
    pub id: u32,
    pub param_count: usize,
}

/// One abstract instruction of a lowered function body, in stack order: each
/// instruction pops its operands from an evaluation stack and pushes its one
/// result.
#[derive(Debug, PartialEq)]
pub enum Inst {
    /// Push the constant written as this numeric literal text.
    Num(String),
    /// Push the value bound to this local-variable slot.
    Var(usize),
    /// Pop two values, push their sum.
    Add,
    /// Pop two values, push their difference.
    Sub,
    /// Pop two values, push their product.
    Mul,
    /// Pop two values, push 1 if the first is less than the second, else 0.
    Less,
    /// Pop this many argument values, call the function with this identifier,
    /// push its result.
    Call(u32, usize),
}

/// The model of an instruction: literal text abstracted to its characters.
pub enum InstView {
    Num(Seq<char>),
    Var(usize),
    Add,
    Sub,
    Mul,
    Less,
    Call(u32, usize),
}

impl View for Inst {
    type V = InstView;

    open spec fn view(&self) -> InstView {
        match self {
            Inst::Num(s) => InstView::Num(s@),
            Inst::Var(slot) => InstView::Var(*slot),
            Inst::Add => InstView::Add,
            Inst::Sub => InstView::Sub,
            Inst::Mul => InstView::Mul,
            Inst::Less => InstView::Less,
            Inst::Call(id, argc) => InstView::Call(*id, *argc),
        }
    }
}

pub open spec fn insts_view(s: Seq<Inst>) -> Seq<InstView> {
    s.map_values(|i: Inst| i@)
}

/// The instruction a binary operator lowers to.
pub open spec fn op_inst(op: BinaryOp) -> InstView {
    match op {
        BinaryOp::Plus => InstView::Add,
        BinaryOp::Minus => InstView::Sub,
        BinaryOp::Times => InstView::Mul,
        BinaryOp::LessThan => InstView::Less,
    }
}

// ---------------------------------------------------------------------------
// Association lists modelled as maps.
// ---------------------------------------------------------------------------

/// The map a name-keyed association list denotes; a later entry for the same
/// name overrides an earlier one.
pub open spec fn assoc_map<V>(s: Seq<(String, V)>) -> Map<Seq<char>, V>
    decreases s.len(),
{
    if s.len() == 0 {
        Map::empty()
    } else {
        assoc_map(s.drop_last()).insert(s.last().0@, s.last().1)
    }
}

/// No two entries share a name.
pub open spec fn unique_keys<V>(s: Seq<(String, V)>) -> bool {
    forall|i: int, j: int| 0 <= i < j < s.len() ==> s[i].0@ != s[j].0@
}

/// An entry with no later entry of the same name gives that name's value.
proof fn lemma_assoc_map_at<V>(s: Seq<(String, V)>, key: Seq<char>, j: int)
    requires
        0 <= j < s.len(),
        s[j].0@ == key,
        forall|l: int| j < l < s.len() ==> s[l].0@ != key,
    ensures
        assoc_map(s).contains_key(key),
        assoc_map(s)[key] == s[j].1,
    decreases s.len(),
{
    if j == s.len() - 1 {
    } else {
        lemma_assoc_map_at(s.drop_last(), key, j);
    }
}

/// A name on no entry is not in the map.
proof fn lemma_assoc_map_absent<V>(s: Seq<(String, V)>, key: Seq<char>)
    requires
        forall|l: int| 0 <= l < s.len() ==> s[l].0@ != key,
    ensures
        !assoc_map(s).contains_key(key),
    decreases s.len(),
{
    if s.len() > 0 {
        lemma_assoc_map_absent(s.drop_last(), key);
    }
}

/// Appending an entry inserts its binding.
proof fn lemma_assoc_map_push<V>(s: Seq<(String, V)>, name: String, v: V)
    ensures
        assoc_map(s.push((name, v))) == assoc_map(s).insert(name@, v),
{
    assert(s.push((name, v)).drop_last() =~= s);
}

/// Overwriting the entry of a unique name updates its binding.
proof fn lemma_assoc_map_update<V>(s: Seq<(String, V)>, j: int, name: String, v: V)
    requires
        unique_keys(s),
        0 <= j < s.len(),
        s[j].0@ == name@,
    ensures
        assoc_map(s.update(j, (name, v))) == assoc_map(s).insert(name@, v),
    decreases s.len(),
{
    let s2 = s.update(j, (name, v));
    if j == s.len() - 1 {
        assert(s2.drop_last() =~= s.drop_last());
    } else {
        lemma_assoc_map_update(s.drop_last(), j, name, v);
        assert(s2.drop_last() =~= s.drop_last().update(j, (name, v)));
        assert(s.last().0@ != name@);
        assert(assoc_map(s2) =~= assoc_map(s).insert(name@, v));
    }
}

/// Removing the entry of a unique name removes its binding.
proof fn lemma_assoc_map_remove<V>(s: Seq<(String, V)>, j: int)
    requires
        unique_keys(s),
        0 <= j < s.len(),
    ensures
        assoc_map(s.remove(j)) == assoc_map(s).remove(s[j].0@),
        unique_keys(s.remove(j)),
    decreases s.len(),
{
    let key = s[j].0@;
    let s2 = s.remove(j);
    assert(unique_keys(s2));
    if j == s.len() - 1 {
        assert(s2 =~= s.drop_last());
        assert(forall|l: int| 0 <= l < s2.len() ==> s2[l].0@ != key);
        lemma_assoc_map_absent(s2, key);
        assert(assoc_map(s.remove(j)) =~= assoc_map(s).remove(key));
    } else {
        lemma_assoc_map_remove(s.drop_last(), j);
        assert(s2.drop_last() =~= s.drop_last().remove(j));
        assert(s2.last() == s.last());
        assert(s.last().0@ != key);
        assert(assoc_map(s2) =~= assoc_map(s).remove(key));
    }
}

/// Finds the value bound to `name`, scanning so that the latest entry wins.
fn assoc_lookup<V: Copy>(entries: &Vec<(String, V)>, name: &String) -> (r: Option<V>)
    ensures
        match r {
            Some(v) => assoc_map(entries@).contains_key(name@) && assoc_map(entries@)[name@] == v,
            None => !assoc_map(entries@).contains_key(name@) && (forall|l: int|
                0 <= l < entries@.len() ==> entries@[l].0@ != name@),
        },
{
    let mut i = entries.len();
    while i > 0
        invariant
            i <= entries@.len(),
            forall|l: int| i <= l < entries@.len() ==> entries@[l].0@ != name@,
        decreases i,
    {
        i = i - 1;
        let entry = &entries[i];
        if entry.0.eq(name) {
            proof {
                lemma_assoc_map_at(entries@, name@, i as int);
            }
            return Some(entry.1);
        }
    }
    proof {
        lemma_assoc_map_absent(entries@, name@);
    }
    None
}

// ---------------------------------------------------------------------------
// Lowering a body expression to abstract instructions.
// ---------------------------------------------------------------------------

/// What lowering an expression yields under the given variable bindings and
/// function table: the instructions of its body in evaluation order, or the
/// first failure.  A variable must be bound; a callee must be declared and
/// must be called with exactly its declared parameter count.
pub open spec fn lower(
    e: Expr,
    env: Map<Seq<char>, usize>,
    funcs: Map<Seq<char>, CompiledFunction>,
) -> Result<Seq<InstView>, Error>
    decreases e,
{
    match e {
        Expr::Number(text) => Ok(seq![InstView::Num(text@)]),
        Expr::Variable(name) => if env.contains_key(name@) {
            Ok(seq![InstView::Var(env[name@])])
        } else {
            Err(Error::UndefinedVariable)
        },
        Expr::Binary(op, l, r) => match lower(*l, env, funcs) {
            Ok(li) => match lower(*r, env, funcs) {
                Ok(ri) => Ok(li + ri + seq![op_inst(op)]),
                Err(e2) => Err(e2),
            },
            Err(e1) => Err(e1),
        },
        Expr::Call(name, args) => if !funcs.contains_key(name@) {
            Err(Error::UndefinedFunction)
        } else if funcs[name@].param_count != args.len() {
            Err(Error::WrongArgumentCount)
        } else {
            match lower_all(args@, env, funcs) {
                Ok(ai) => Ok(ai.push(InstView::Call(funcs[name@].id, args.len()))),
                Err(e1) => Err(e1),
            }
        },
    }
}

/// Lowers a sequence of argument expressions in order; the first failure
/// wins.
pub open spec fn lower_all(
    es: Seq<Expr>,
    env: Map<Seq<char>, usize>,
    funcs: Map<Seq<char>, CompiledFunction>,
) -> Result<Seq<InstView>, Error>
    decreases es,
{
    if es.len() == 0 {
        Ok(Seq::empty())
    } else {
        match lower_all(es.drop_last(), env, funcs) {
            Ok(pre) => match lower(es.last(), env, funcs) {
                Ok(li) => Ok(pre + li),
                Err(e) => Err(e),
            },
            Err(e) => Err(e),
        }
    }
}

/// A failing prefix decides the whole argument list.
proof fn lemma_lower_all_prefix_err(
    es: Seq<Expr>,
    i: int,
    env: Map<Seq<char>, usize>,
    funcs: Map<Seq<char>, CompiledFunction>,
)
    requires
        0 <= i <= es.len(),
        lower_all(es.subrange(0, i), env, funcs) matches Err(_),
    ensures
        lower_all(es, env, funcs) == lower_all(es.subrange(0, i), env, funcs),
    decreases es.len() - i,
{
    if i == es.len() {
        assert(es.subrange(0, i) =~= es);
    } else {
        let p = es.subrange(0, i + 1);
        assert(p.drop_last() =~= es.subrange(0, i));
        lemma_lower_all_prefix_err(es, i + 1, env, funcs);
    }
}

/// Lowers one function body, accumulating instructions in order.
pub struct FunctionGenerator {
    /// The variable bindings of the enclosing function, in declaration
    /// order; a later binding for the same name shadows an earlier one.
    pub values: Vec<(String, usize)>,
    /// The instructions emitted so far.
    pub insts: Vec<Inst>,
}

impl FunctionGenerator {
    /// Lowers `expr` against the bindings in `self.values` and the declared
    /// functions in `functions`, appending exactly the instructions that
    /// `lower` names, or failing with the error it names.
    pub fn expr(&mut self, expr: &Expr, functions: &Vec<(String, CompiledFunction)>) -> (r: Result<
        (),
        Error,
    >)
        ensures
            final(self).values == old(self).values,
            match lower(*expr, assoc_map(old(self).values@), assoc_map(functions@)) {
                Ok(is) => r == Ok::<(), Error>(()) && insts_view(final(self).insts@) == insts_view(
                    old(self).insts@,
                ) + is,
                Err(e) => r == Err::<(), Error>(e),
            },
        decreases *expr,
    {
        match expr {
            Expr::Number(text) => {
                self.insts.push(Inst::Num(text.clone()));
                assert(insts_view(self.insts@) =~= insts_view(old(self).insts@) + seq![
                    InstView::Num(text@),
                ]);
                Ok(())
            },
            Expr::Variable(name) => {
                match assoc_lookup(&self.values, name) {
                    Some(slot) => {
                        self.insts.push(Inst::Var(slot));
                        assert(insts_view(self.insts@) =~= insts_view(old(self).insts@) + seq![
                            InstView::Var(assoc_map(old(self).values@)[name@]),
                        ]);
                        Ok(())
                    },
                    None => Err(Error::UndefinedVariable),
                }
            },
            Expr::Binary(op, left, right) => {
                let ghost env = assoc_map(old(self).values@);
                let ghost fm = assoc_map(functions@);
                let ghost v0 = insts_view(old(self).insts@);
                self.expr(&**left, functions)?;
                let ghost li = lower(**left, env, fm)->Ok_0;
                let ghost v1 = insts_view(self.insts@);
                assert(v1 == v0 + li);
                self.expr(&**right, functions)?;
                let ghost ri = lower(**right, env, fm)->Ok_0;
                let ghost v2 = insts_view(self.insts@);
                assert(v2 == v1 + ri);
                let inst = match op {
                    BinaryOp::Plus => Inst::Add,
                    BinaryOp::Minus => Inst::Sub,
                    BinaryOp::Times => Inst::Mul,
                    BinaryOp::LessThan => Inst::Less,
                };
                assert(inst@ == op_inst(*op));
                self.insts.push(inst);
                proof {
                    assert(insts_view(self.insts@) =~= v2.push(op_inst(*op)));
                    assert(v2.push(op_inst(*op)) =~= v0 + (li + ri + seq![op_inst(*op)]));
                }
                Ok(())
            },
            Expr::Call(name, args) => {
                proof {
                    assert(*expr == Expr::Call(*name, *args));
                }
                match assoc_lookup(functions, name) {
                    None => Err(Error::UndefinedFunction),
                    Some(func) => {
                        if func.param_count != args.len() {
                            return Err(Error::WrongArgumentCount);
                        }
                        let ghost env = assoc_map(old(self).values@);
                        let ghost fm = assoc_map(functions@);
                        let n = args.len();
                        assert(args@.subrange(0, 0) =~= Seq::<Expr>::empty());
                        assert(insts_view(self.insts@) =~= insts_view(old(self).insts@)
                            + Seq::<InstView>::empty());
                        let mut i: usize = 0;
                        while i < n
                            invariant
                                *expr == Expr::Call(*name, *args),
                                i <= n,
                                n == args@.len(),
                                fm.contains_key(name@),
                                fm[name@] == func,
                                func.param_count == n,
                                self.values == old(self).values,
                                assoc_map(functions@) == fm,
                                env == assoc_map(self.values@),
                                lower_all(args@.subrange(0, i as int), env, fm) matches Ok(pre)
                                    && insts_view(self.insts@) == insts_view(old(self).insts@)
                                    + pre,
                            decreases n - i,
                        {
                            let ghost pre = lower_all(args@.subrange(0, i as int), env, fm)->Ok_0;
                            let ghost vb = insts_view(self.insts@);
                            proof {
                                broadcast use vstd::std_specs::vec::axiom_vec_index_decreases;

                                assert(decreases_to!(*expr => (*expr)->Call_1));
                                assert(decreases_to!((*expr)->Call_1 => (*expr)->Call_1@));
                                assert(decreases_to!((*expr)->Call_1@ => (*expr)->Call_1@[i as int]));
                                assert((*expr)->Call_1@[i as int] == args@[i as int]);
                                assert(decreases_to!(*expr => args@[i as int]));
                            }
                            let res = self.expr(&args[i], functions);
                            proof {
                                let p = args@.subrange(0, i + 1);
                                assert(p.drop_last() =~= args@.subrange(0, i as int));
                                assert(p.last() == args@[i as int]);
                            }
                            match res {
                                Ok(_) => {},
                                Err(e) => {
                                    proof {
                                        lemma_lower_all_prefix_err(args@, i + 1, env, fm);
                                    }
                                    return Err(e);
                                },
                            }
                            proof {
                                let li = lower(args@[i as int], env, fm)->Ok_0;
                                assert(insts_view(self.insts@) == vb + li);
                                assert(insts_view(self.insts@) =~= insts_view(old(self).insts@) + (
                                pre + li));
                            }
                            i = i + 1;
                        }
                        assert(args@.subrange(0, n as int) =~= args@);
                        let ghost ai = lower_all(args@, env, fm)->Ok_0;
                        let ghost v2 = insts_view(self.insts@);
                        assert(v2 == insts_view(old(self).insts@) + ai);
                        self.insts.push(Inst::Call(func.id, n));
                        proof {
                            assert(insts_view(self.insts@) =~= v2.push(
                                InstView::Call(fm[name@].id, args@.len() as usize),
                            ));
                            assert(insts_view(self.insts@) =~= insts_view(old(self).insts@)
                                + ai.push(InstView::Call(fm[name@].id, args@.len() as usize)));
                        }
                        Ok(())
                    },
                }
            },
        }
    }
}


// ---------------------------------------------------------------------------
// The code generator's table and its state machine.
// ---------------------------------------------------------------------------

/// Allocates local-variable slots, each handed out once per session.
pub struct VariableBuilder {
    pub index: usize,
}

impl VariableBuilder {
    pub fn new() -> (r: Self)
        ensures
            r.index == 0,
    {
        VariableBuilder { index: 0 }
    }

    /// Hands out the next free slot.
    pub fn create_var(&mut self) -> (slot: usize)
        requires
            old(self).index < usize::MAX,
        ensures
            slot == old(self).index,
            final(self).index == old(self).index + 1,
    {
        let slot = self.index;
        self.index = self.index + 1;
        slot
    }
}

/// Whether a name is one the parser coins for anonymous top-level
/// expressions.
pub open spec fn is_anon_name(t: Seq<char>) -> bool {
    t.len() >= 7 && t[0] == '_' && t[1] == '_' && t[2] == 'a' && t[3] == 'n' && t[4] == 'o' && t[5]
        == 'n' && t[6] == '_'
}

/// Every name the parser coins for an anonymous top-level expression is
/// recognized as anonymous, so its table entry is dropped after use.
pub proof fn lemma_anon_name_detected(n: nat)
    ensures
        is_anon_name(crate::parser::anon_chars(n)),
{
    reveal_strlit("__anon_");
}

fn is_anon(name: &String) -> (r: bool)
    ensures
        r == is_anon_name(name@),
{
    let s = name.as_str();
    if s.unicode_len() < 7 {
        return false;
    }
    s.get_char(0) == '_' && s.get_char(1) == '_' && s.get_char(2) == 'a' && s.get_char(3) == 'n'
        && s.get_char(4) == 'o' && s.get_char(5) == 'n' && s.get_char(6) == '_'
}

/// The bindings a parameter list creates: the parameter at position `k` is
/// bound to slot `base + k`, and a repeated name keeps its latest slot.
pub open spec fn param_env(params: Seq<String>, base: nat) -> Map<Seq<char>, usize>
    decreases params.len(),
{
    if params.len() == 0 {
        Map::empty()
    } else {
        param_env(params.drop_last(), base).insert(
            params.last()@,
            (base + params.len() - 1) as usize,
        )
    }
}

/// Everything the backend driver needs to emit one function: the identifier
/// it is declared under, one fresh local slot per parameter, bound left to
/// right, and the body's instructions in evaluation order.
#[derive(Debug, PartialEq)]
pub struct CodeUnit {
    pub id: u32,
    pub param_slots: Vec<usize>,
    pub insts: Vec<Inst>,
}

/// Owns the function table and lowers parsed constructs against it.  Each
/// name moves `Undeclared -> Declared(arity) -> Defined`: redeclaration is
/// allowed only while undefined and with the same arity, and a body is
/// emitted at most once per name.
pub struct Generator {
    pub functions: Vec<(String, CompiledFunction)>,
    pub next_id: u32,
    pub variable_builder: VariableBuilder,
}

impl Generator {
    /// Names are unique, and every recorded identifier was handed out before
    /// the next one to be allocated.
    pub open spec fn wf(self) -> bool {
        &&& unique_keys(self.functions@)
        &&& forall|i: int|
            0 <= i < self.functions@.len() ==> (#[trigger] self.functions@[i]).1.id < self.next_id
    }

    /// The function table, as the map it stands for.
    pub open spec fn table(self) -> Map<Seq<char>, CompiledFunction> {
        assoc_map(self.functions@)
    }

    pub fn new() -> (r: Generator)
        ensures
            r.wf(),
            r.table() == Map::<Seq<char>, CompiledFunction>::empty(),
            r.next_id == 0,
            r.variable_builder.index == 0,
    {
        let functions: Vec<(String, CompiledFunction)> = Vec::new();
        proof {
            assert(functions@.len() == 0);
        }
        Generator { functions, next_id: 0, variable_builder: VariableBuilder::new() }
    }

    /// Declares a new name, or validates a redeclaration: an unseen name is
    /// recorded undefined with a fresh identifier and the given linkage is
    /// the backend driver's to apply; a name already defined is refused; a
    /// known undefined name must be redeclared with the same parameter
    /// count, and keeps its identifier.
    pub fn prototype(&mut self, prototype: &Prototype, linkage: Linkage) -> (r: Result<u32, Error>)
        requires
            old(self).wf(),
            old(self).next_id < u32::MAX,
        ensures
            final(self).wf(),
            final(self).variable_builder == old(self).variable_builder,
            ({
                let t = old(self).table();
                let name = prototype.function_name@;
                if !t.contains_key(name) {
                    &&& r == Ok::<u32, Error>(old(self).next_id)
                    &&& final(self).table() == t.insert(
                        name,
                        CompiledFunction {
                            defined: false,
                            id: old(self).next_id,
                            param_count: prototype.parameters@.len() as usize,
                        },
                    )
                    &&& final(self).next_id == old(self).next_id + 1
                } else if t[name].defined {
                    r == Err::<u32, Error>(Error::FunctionRedef) && *final(self) == *old(self)
                } else if t[name].param_count != prototype.parameters@.len() {
                    r == Err::<u32, Error>(Error::FunctionRedefWithDifferentParams) && *final(self)
                        == *old(self)
                } else {
                    r == Ok::<u32, Error>(t[name].id) && *final(self) == *old(self)
                }
            }),
    {
        match assoc_lookup(&self.functions, &prototype.function_name) {
            None => {
                let id = self.next_id;
                self.next_id = self.next_id + 1;
                let cf = CompiledFunction {
                    defined: false,
                    id,
                    param_count: prototype.parameters.len(),
                };
                let ghost s0 = self.functions@;
                let entry_name = prototype.function_name.clone();
                self.functions.push((entry_name, cf));
                proof {
                    lemma_assoc_map_push(s0, entry_name, cf);
                    assert(unique_keys(self.functions@));
                }
                Ok(id)
            },
            Some(cf) => {
                if cf.defined {
                    return Err(Error::FunctionRedef);
                }
                if cf.param_count != prototype.parameters.len() {
                    return Err(Error::FunctionRedefWithDifferentParams);
                }
                Ok(cf.id)
            },
        }
    }

    /// Marks a declared name's record as defined, keeping everything else.
    fn mark_defined(&mut self, name: &String)
        requires
            old(self).wf(),
            old(self).table().contains_key(name@),
        ensures
            final(self).wf(),
            final(self).next_id == old(self).next_id,
            final(self).variable_builder == old(self).variable_builder,
            final(self).table() == old(self).table().insert(
                name@,
                CompiledFunction {
                    defined: true,
                    id: old(self).table()[name@].id,
                    param_count: old(self).table()[name@].param_count,
                },
            ),
    {
        let n = self.functions.len();
        let mut i: usize = 0;
        while i < n
            invariant
                i <= n,
                n == self.functions@.len(),
                *self == *old(self),
                old(self).wf(),
                old(self).table().contains_key(name@),
                forall|l: int| 0 <= l < i ==> self.functions@[l].0@ != name@,
            decreases n - i,
        {
            let hit = (&self.functions[i]).0.eq(name);
            if hit {
                let cf = (&self.functions[i]).1;
                let ghost s0 = self.functions@;
                let entry_name = name.clone();
                let new_cf = CompiledFunction { defined: true, id: cf.id, param_count: cf.param_count };
                self.functions[i] = (entry_name, new_cf);
                proof {
                    assert(forall|l: int| i < l < s0.len() ==> s0[l].0@ != name@);
                    lemma_assoc_map_at(s0, name@, i as int);
                    assert(self.functions@ =~= s0.update(i as int, (entry_name, new_cf)));
                    lemma_assoc_map_update(s0, i as int, entry_name, new_cf);
                    assert(unique_keys(self.functions@));
                }
                return;
            }
            i = i + 1;
        }
        proof {
            lemma_assoc_map_absent(self.functions@, name@);
        }
    }

    /// Drops a name's record, if one is present.
    fn remove_fn(&mut self, name: &String)
        requires
            old(self).wf(),
        ensures
            final(self).wf(),
            final(self).next_id == old(self).next_id,
            final(self).variable_builder == old(self).variable_builder,
            final(self).table() == old(self).table().remove(name@),
    {
        let n = self.functions.len();
        let mut i: usize = 0;
        while i < n
            invariant
                i <= n,
                n == self.functions@.len(),
                *self == *old(self),
                old(self).wf(),
                forall|l: int| 0 <= l < i ==> self.functions@[l].0@ != name@,
            decreases n - i,
        {
            let hit = (&self.functions[i]).0.eq(name);
            if hit {
                let ghost s0 = self.functions@;
                proof {
                    lemma_assoc_map_remove(s0, i as int);
                }
                let _ = self.functions.remove(i);
                proof {
                    assert(self.functions@ =~= s0.remove(i as int));
                    assert forall|l: int|
                        0 <= l < self.functions@.len() implies (#[trigger] self.functions@[l]).1.id
                        < self.next_id by {
                        if l < i {
                            assert(self.functions@[l] == s0[l]);
                        } else {
                            assert(self.functions@[l] == s0[l + 1]);
                        }
                    }
                }
                return;
            }
            i = i + 1;
        }
        proof {
            lemma_assoc_map_absent(self.functions@, name@);
            assert(old(self).table() =~= old(self).table().remove(name@));
        }
    }

    /// Lowers one parsed function against the table.  The prototype is
    /// declared or validated first, with export linkage; the parameters are
    /// bound to fresh slots in order; the record is marked defined before
    /// the body is lowered, so a self-recursive call resolves; a body that
    /// fails to lower removes the record entirely, so the name can be
    /// defined cleanly afterwards; and an anonymous function's record is
    /// dropped as soon as its code is produced.
    pub fn function(&mut self, function: Function) -> (r: Result<CodeUnit, Error>)
        requires
            old(self).wf(),
            old(self).next_id < u32::MAX,
            old(self).variable_builder.index + function.prototype.parameters@.len() <= usize::MAX,
        ensures
            final(self).wf(),
            ({
                let t = old(self).table();
                let name = function.prototype.function_name@;
                let params = function.prototype.parameters@;
                if t.contains_key(name) && t[name].defined {
                    r == Err::<CodeUnit, Error>(Error::FunctionRedef) && *final(self) == *old(self)
                } else if t.contains_key(name) && t[name].param_count != params.len() {
                    r == Err::<CodeUnit, Error>(Error::FunctionRedefWithDifferentParams) && *final(self) == *old(self)
                } else {
                    let id = if t.contains_key(name) {
                        t[name].id
                    } else {
                        old(self).next_id
                    };
                    let base = old(self).variable_builder.index as nat;
                    let t1 = t.insert(
                        name,
                        CompiledFunction { defined: true, id, param_count: params.len() as usize },
                    );
                    &&& final(self).variable_builder.index == base + params.len()
                    &&& final(self).next_id == (if t.contains_key(name) {
                        old(self).next_id as int
                    } else {
                        old(self).next_id + 1
                    })
                    &&& match lower(function.body, param_env(params, base), t1) {
                        Err(e) => r == Err::<CodeUnit, Error>(e) && final(self).table()
                            == t.remove(name),
                        Ok(is) => {
                            &&& r matches Ok(cu)
                            &&& cu.id == id
                            &&& cu.param_slots@.len() == params.len()
                            &&& (forall|k: int|
                                0 <= k < params.len() ==> cu.param_slots@[k] == base + k)
                            &&& insts_view(cu.insts@) == is
                            &&& final(self).table() == (if is_anon_name(name) {
                                t.remove(name)
                            } else {
                                t1
                            })
                        },
                    }
                }
            }),
    {
        let func_id = match self.prototype(&function.prototype, Linkage::Export) {
            Ok(id) => id,
            Err(e) => {
                return Err(e);
            },
        };
        let ghost t = old(self).table();
        let ghost name = function.prototype.function_name@;
        let ghost base = self.variable_builder.index as nat;
        let ghost g1 = *self;
        let mut fg = FunctionGenerator { values: Vec::new(), insts: Vec::new() };
        let mut param_slots: Vec<usize> = Vec::new();
        let m = function.prototype.parameters.len();
        assert(function.prototype.parameters@.subrange(0, 0) =~= Seq::<String>::empty());
        let mut i: usize = 0;
        while i < m
            invariant
                i <= m,
                m == function.prototype.parameters@.len(),
                base + m <= usize::MAX,
                self.functions@ == g1.functions@,
                self.next_id == g1.next_id,
                self.variable_builder.index == base + i,
                fg.values@.len() == i,
                assoc_map(fg.values@) == param_env(
                    function.prototype.parameters@.subrange(0, i as int),
                    base,
                ),
                fg.insts@.len() == 0,
                param_slots@.len() == i,
                forall|k: int| 0 <= k < i ==> param_slots@[k] == base + k,
            decreases m - i,
        {
            let slot = self.variable_builder.create_var();
            let pname = (&function.prototype.parameters[i]).clone();
            let ghost vs0 = fg.values@;
            fg.values.push((pname, slot));
            param_slots.push(slot);
            proof {
                lemma_assoc_map_push(vs0, pname, slot);
                let sub1 = function.prototype.parameters@.subrange(0, i + 1);
                assert(sub1.drop_last() =~= function.prototype.parameters@.subrange(0, i as int));
                assert(sub1.last() == function.prototype.parameters@[i as int]);
            }
            i = i + 1;
        }
        assert(function.prototype.parameters@.subrange(0, m as int)
            =~= function.prototype.parameters@);
        self.mark_defined(&function.prototype.function_name);
        proof {
            assert(self.table() =~= t.insert(
                name,
                CompiledFunction { defined: true, id: func_id, param_count: m },
            ));
        }
        let ghost fg0 = fg;
        let res = fg.expr(&function.body, &self.functions);
        proof {
            assert(insts_view(fg0.insts@) =~= Seq::<InstView>::empty());
        }
        match res {
            Err(e) => {
                self.remove_fn(&function.prototype.function_name);
                proof {
                    assert(self.table() =~= t.remove(name));
                }
                Err(e)
            },
            Ok(()) => {
                let anon = is_anon(&function.prototype.function_name);
                if anon {
                    self.remove_fn(&function.prototype.function_name);
                    proof {
                        assert(self.table() =~= t.remove(name));
                    }
                }
                Ok(CodeUnit { id: func_id, param_slots, insts: fg.insts })
            },
        }
    }
}

} // verus!
