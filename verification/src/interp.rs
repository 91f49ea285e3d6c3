use vstd::prelude::*;

use crate::ast::{Assignment, BinaryOp, Block, Call, CEntry, Collection, Expr, FieldAccess, If,
    Import, IndexAccess, MethodCall, UnaryOp, VarDecl};
use crate::lexer::{TokenType, token_name, token_text};
use crate::num::{add_bits, sub_bits, mul_bits, div_bits, fmod_bits, is_zero_bits, neg_bits,
    spec_num_text, spec_trunc_bits};
use crate::value::{CollView, KeyView, MethodStep, Value, ValueView, spec_kind_name,
    spec_method_step, spec_truthy, val_eq, val_le, val_lt, views_of};

verus! {

/// What one native call answered: the value it returned or its error text.
pub type Resp = Result<ValueView, Seq<char>>;

/// The optional-module table: each module's name with its function names.
pub type OptTable = Seq<(Seq<char>, Seq<Seq<char>>)>;

/// Mathematical reading of the interpreter's mutable state: the variable
/// table, the names of the loaded optional modules, the registered native
/// signatures, and the (fixed) optional-module table.
pub struct StateView {
    pub vars: Map<KeyView, ValueView>,
    pub mods: Set<Seq<char>>,
    pub sigs: Set<Seq<char>>,
    pub opts: OptTable,
}

pub struct EvalOut {
    pub used: nat,
    pub state: StateView,
    pub outcome: Result<ValueView, Seq<char>>,
}

pub struct ListOut {
    pub used: nat,
    pub state: StateView,
    pub outcome: Result<Seq<ValueView>, Seq<char>>,
}

pub struct EntriesOut {
    pub used: nat,
    pub state: StateView,
    pub outcome: Result<(Map<KeyView, ValueView>, nat), Seq<char>>,
}

/// The functions of the first optional module called `m`, if one exists.
pub open spec fn find_mod(opts: OptTable, m: Seq<char>) -> Option<Seq<Seq<char>>>
    decreases opts.len(),
{
    if opts.len() == 0 {
        None
    } else if opts[0].0 == m {
        Some(opts[0].1)
    } else {
        find_mod(opts.skip(1), m)
    }
}

/// The signature set after loading module `m` with functions `funcs`.
pub open spec fn add_sigs(sigs: Set<Seq<char>>, m: Seq<char>, funcs: Seq<Seq<char>>) -> Set<
    Seq<char>,
> {
    Set::new(
        |k: Seq<char>|
            sigs.contains(k) || exists|j: int| 0 <= j < funcs.len() && k == m + "_"@ + funcs[j],
    )
}

/// What one binary operator yields on two evaluated operands.
pub open spec fn spec_binop(op: TokenType, l: ValueView, r: ValueView) -> Result<
    ValueView,
    Seq<char>,
> {
    match op {
        TokenType::DblEquals => Ok(ValueView::Bool(val_eq(l, r))),
        TokenType::Lt => Ok(ValueView::Bool(val_lt(l, r))),
        TokenType::Gt => Ok(ValueView::Bool(val_lt(r, l))),
        TokenType::Lte => Ok(ValueView::Bool(val_le(l, r))),
        TokenType::Gte => Ok(ValueView::Bool(val_le(r, l))),
        TokenType::Neq => Ok(ValueView::Bool(!val_eq(l, r))),
        TokenType::Add | TokenType::Sub | TokenType::Mul | TokenType::Div | TokenType::Mod => {
            match (l, r) {
                (ValueView::Number(x), ValueView::Number(y)) => match op {
                    TokenType::Add => Ok(ValueView::Number(add_bits(x, y))),
                    TokenType::Sub => Ok(ValueView::Number(sub_bits(x, y))),
                    TokenType::Mul => Ok(ValueView::Number(mul_bits(x, y))),
                    TokenType::Div => if is_zero_bits(y) {
                        Err("division by zero"@)
                    } else {
                        Ok(ValueView::Number(div_bits(x, y)))
                    },
                    _ => if is_zero_bits(y) {
                        Err("modulo by zero"@)
                    } else {
                        Ok(ValueView::Number(fmod_bits(x, y)))
                    },
                },
                _ => Err("arithmetic operations can only be performed on numbers"@),
            }
        },
        _ => Err("unsupported binary operator "@ + token_name(op)),
    }
}

/// The big-step meaning of one expression. `resp` feeds the answers of the
/// native functions, in call order, starting at index 0; `used` says how
/// many of them the evaluation consumed. Everything except those answers is
/// a function of the state and the expression.
pub open spec fn spec_eval(s: StateView, e: Expr, resp: Seq<Resp>) -> EvalOut
    decreases e,
{
    match e {
        Expr::Number(b) => EvalOut { used: 0, state: s, outcome: Ok(ValueView::Number(b)) },
        Expr::String(t) => EvalOut { used: 0, state: s, outcome: Ok(ValueView::String(t@)) },
        Expr::Identifier(name) => EvalOut {
            used: 0,
            state: s,
            outcome: if s.vars.contains_key(KeyView::String(name@)) {
                Ok(s.vars[KeyView::String(name@)])
            } else {
                Err("undefined variable or reference '"@ + name@ + "'"@)
            },
        },
        Expr::Call(c) => {
            let pre = spec_eval_list(s, c.args@, resp);
            match pre.outcome {
                Err(m) => EvalOut { used: pre.used, state: pre.state, outcome: Err(m) },
                Ok(_) => {
                    if pre.state.sigs.contains(c.spec_signature()) || pre.state.sigs.contains(
                        c.name@,
                    ) {
                        EvalOut {
                            used: pre.used + 1,
                            state: pre.state,
                            outcome: if pre.used < resp.len() {
                                resp[pre.used as int]
                            } else {
                                Ok(ValueView::Nil)
                            },
                        }
                    } else {
                        EvalOut {
                            used: pre.used,
                            state: pre.state,
                            outcome: Err("undefined function '"@ + c.name@ + "'"@),
                        }
                    }
                },
            }
        },
        Expr::Collection(col) => {
            let pre = spec_eval_entries(s, col.entries@, resp);
            match pre.outcome {
                Err(m) => EvalOut { used: pre.used, state: pre.state, outcome: Err(m) },
                Ok((entries, idx)) => EvalOut {
                    used: pre.used,
                    state: pre.state,
                    outcome: Ok(
                        ValueView::Collection(CollView { entries, size: idx }),
                    ),
                },
            }
        },
        Expr::IndexAccess(ia) => {
            let obj = spec_eval(s, *ia.object, resp);
            match obj.outcome {
                Err(m) => EvalOut { used: obj.used, state: obj.state, outcome: Err(m) },
                Ok(ov) => {
                    let idx = spec_eval(obj.state, *ia.index, resp.skip(obj.used as int));
                    let used = obj.used + idx.used;
                    match idx.outcome {
                        Err(m) => EvalOut { used, state: idx.state, outcome: Err(m) },
                        Ok(iv) => match ov {
                            ValueView::Collection(c) => {
                                let key = match iv {
                                    ValueView::Number(n) => Some(
                                        KeyView::Index((spec_trunc_bits(n) as usize) as nat),
                                    ),
                                    ValueView::String(t) => Some(KeyView::String(t)),
                                    _ => None,
                                };
                                match key {
                                    None => EvalOut {
                                        used,
                                        state: idx.state,
                                        outcome: Err(
                                            "collection index must be a number or string"@,
                                        ),
                                    },
                                    Some(k) => EvalOut {
                                        used,
                                        state: idx.state,
                                        outcome: Ok(
                                            if c.entries.contains_key(k) {
                                                c.entries[k]
                                            } else {
                                                ValueView::Nil
                                            },
                                        ),
                                    },
                                }
                            },
                            _ => EvalOut {
                                used,
                                state: idx.state,
                                outcome: Err("cannot index into "@ + spec_kind_name(ov)),
                            },
                        },
                    }
                },
            }
        },
        Expr::MethodCall(mc) => {
            let pre = spec_eval_list(s, mc.args@, resp);
            match pre.outcome {
                Err(m) => EvalOut { used: pre.used, state: pre.state, outcome: Err(m) },
                Ok(argv) => match *mc.object {
                    Expr::Identifier(id) => {
                        let k = KeyView::String(id@);
                        if pre.state.vars.contains_key(k) {
                            let step = spec_method_step(pre.state.vars[k], mc.method@, argv);
                            match step.outcome {
                                Err(m) => EvalOut {
                                    used: pre.used,
                                    state: pre.state,
                                    outcome: Err(m),
                                },
                                Ok(v) => EvalOut {
                                    used: pre.used,
                                    state: StateView {
                                        vars: pre.state.vars.insert(k, step.receiver),
                                        ..pre.state
                                    },
                                    outcome: Ok(v),
                                },
                            }
                        } else {
                            EvalOut {
                                used: pre.used,
                                state: pre.state,
                                outcome: Err("undefined variable '"@ + id@ + "'"@),
                            }
                        }
                    },
                    _ => {
                        let obj = spec_eval(pre.state, *mc.object, resp.skip(pre.used as int));
                        let used = pre.used + obj.used;
                        match obj.outcome {
                            Err(m) => EvalOut { used, state: obj.state, outcome: Err(m) },
                            Ok(ov) => {
                                let step = spec_method_step(ov, mc.method@, argv);
                                EvalOut { used, state: obj.state, outcome: step.outcome }
                            },
                        }
                    },
                },
            }
        },
        Expr::VarDecl(d) => {
            if s.vars.contains_key(KeyView::String(d.name@)) {
                EvalOut {
                    used: 0,
                    state: s,
                    outcome: Err("variable '"@ + d.name@ + "' already defined!"@),
                }
            } else {
                let v = spec_eval(s, *d.value, resp);
                match v.outcome {
                    Err(m) => EvalOut { used: v.used, state: v.state, outcome: Err(m) },
                    Ok(val) => EvalOut {
                        used: v.used,
                        state: StateView {
                            vars: v.state.vars.insert(KeyView::String(d.name@), val),
                            ..v.state
                        },
                        outcome: Ok(ValueView::Nil),
                    },
                }
            }
        },
        Expr::Assignment(a) => {
            if s.vars.contains_key(KeyView::String(a.name@)) {
                let v = spec_eval(s, *a.assignee, resp);
                match v.outcome {
                    Err(m) => EvalOut { used: v.used, state: v.state, outcome: Err(m) },
                    Ok(val) => EvalOut {
                        used: v.used,
                        state: StateView {
                            vars: v.state.vars.insert(KeyView::String(a.name@), val),
                            ..v.state
                        },
                        outcome: Ok(ValueView::Nil),
                    },
                }
            } else {
                EvalOut {
                    used: 0,
                    state: s,
                    outcome: Err("variable '"@ + a.name@ + "' not defined!"@),
                }
            }
        },
        Expr::BinaryOp(b) => {
            let l = spec_eval(s, *b.left, resp);
            match l.outcome {
                Err(m) => EvalOut { used: l.used, state: l.state, outcome: Err(m) },
                Ok(lv) => {
                    let r = spec_eval(l.state, *b.right, resp.skip(l.used as int));
                    let used = l.used + r.used;
                    match r.outcome {
                        Err(m) => EvalOut { used, state: r.state, outcome: Err(m) },
                        Ok(rv) => EvalOut {
                            used,
                            state: r.state,
                            outcome: spec_binop(b.op, lv, rv),
                        },
                    }
                },
            }
        },
        Expr::UnaryOp(u) => {
            let v = spec_eval(s, *u.operand, resp);
            match v.outcome {
                Err(m) => EvalOut { used: v.used, state: v.state, outcome: Err(m) },
                Ok(ov) => EvalOut {
                    used: v.used,
                    state: v.state,
                    outcome: match u.op {
                        TokenType::Sub => match ov {
                            ValueView::Number(b) => Ok(ValueView::Number(neg_bits(b))),
                            _ => Err("negate unary operator only supported on numbers"@),
                        },
                        _ => Err("unsupported unary operator "@ + token_name(u.op)),
                    },
                },
            }
        },
        Expr::If(i) => {
            let c = spec_eval(s, *i.cond, resp);
            match c.outcome {
                Err(m) => EvalOut { used: c.used, state: c.state, outcome: Err(m) },
                Ok(cv) => {
                    if spec_truthy(cv) {
                        let b = spec_eval_block(c.state, i.block, resp.skip(c.used as int));
                        EvalOut { used: c.used + b.used, state: b.state, outcome: b.outcome }
                    } else {
                        match i.else_block {
                            Some(eb) => {
                                let b = spec_eval_block(c.state, eb, resp.skip(c.used as int));
                                EvalOut {
                                    used: c.used + b.used,
                                    state: b.state,
                                    outcome: b.outcome,
                                }
                            },
                            None => EvalOut {
                                used: c.used,
                                state: c.state,
                                outcome: Ok(ValueView::Nil),
                            },
                        }
                    }
                },
            }
        },
        Expr::Block(b) => spec_eval_block(s, b, resp),
        Expr::Import(im) => {
            if s.mods.contains(im.module@) {
                EvalOut { used: 0, state: s, outcome: Ok(ValueView::Nil) }
            } else {
                match find_mod(s.opts, im.module@) {
                    Some(funcs) => EvalOut {
                        used: 0,
                        state: StateView {
                            sigs: add_sigs(s.sigs, im.module@, funcs),
                            mods: s.mods.insert(im.module@),
                            ..s
                        },
                        outcome: Ok(ValueView::Nil),
                    },
                    None => EvalOut {
                        used: 0,
                        state: s,
                        outcome: Err("module '"@ + im.module@ + "' not found"@),
                    },
                }
            }
        },
        Expr::FieldAccess(fa) => {
            let obj = spec_eval(s, *fa.object, resp);
            match obj.outcome {
                Err(m) => EvalOut { used: obj.used, state: obj.state, outcome: Err(m) },
                Ok(ov) => match ov {
                    ValueView::Collection(c) => {
                        let k = KeyView::String(fa.field@);
                        EvalOut {
                            used: obj.used,
                            state: obj.state,
                            outcome: if c.entries.contains_key(k) {
                                Ok(c.entries[k])
                            } else {
                                Err("undefined field '"@ + fa.field@ + "'"@)
                            },
                        }
                    },
                    _ => EvalOut {
                        used: obj.used,
                        state: obj.state,
                        outcome: Err(
                            "cannot access field '"@ + fa.field@ + "' on non object"@,
                        ),
                    },
                },
            }
        },
    }
}

/// Left-to-right evaluation of an expression list, stopping at the first
/// error.
pub open spec fn spec_eval_list(s: StateView, es: Seq<Expr>, resp: Seq<Resp>) -> ListOut
    decreases es,
{
    if es.len() == 0 {
        ListOut { used: 0, state: s, outcome: Ok(Seq::empty()) }
    } else {
        let pre = spec_eval_list(s, es.drop_last(), resp);
        match pre.outcome {
            Err(m) => pre,
            Ok(vs) => {
                let last = spec_eval(pre.state, es.last(), resp.skip(pre.used as int));
                ListOut {
                    used: pre.used + last.used,
                    state: last.state,
                    outcome: match last.outcome {
                        Err(m) => Err(m),
                        Ok(v) => Ok(vs.push(v)),
                    },
                }
            },
        }
    }
}

/// A block evaluates its expressions in order; its value is the last one's,
/// or nil when it is empty.
pub open spec fn spec_eval_block(s: StateView, b: Block, resp: Seq<Resp>) -> EvalOut
    decreases b,
{
    let pre = spec_eval_list(s, b.exprs@, resp);
    EvalOut {
        used: pre.used,
        state: pre.state,
        outcome: match pre.outcome {
            Err(m) => Err(m),
            Ok(vs) => Ok(
                if vs.len() == 0 {
                    ValueView::Nil
                } else {
                    vs.last()
                },
            ),
        },
    }
}

/// Evaluation of a collection literal's entries, in order: positional
/// entries take consecutive indices from 0, keyed entries their key; the
/// second component counts the positional entries.
pub open spec fn spec_eval_entries(s: StateView, es: Seq<CEntry>, resp: Seq<Resp>) -> EntriesOut
    decreases es,
{
    if es.len() == 0 {
        EntriesOut { used: 0, state: s, outcome: Ok((Map::empty(), 0)) }
    } else {
        let pre = spec_eval_entries(s, es.drop_last(), resp);
        match pre.outcome {
            Err(m) => pre,
            Ok((entries, idx)) => {
                let inner = match es.last() {
                    CEntry::Indexed(x) => x,
                    CEntry::Keyed(_, x) => x,
                    CEntry::NumKeyed(_, x) => x,
                };
                let last = spec_eval(pre.state, inner, resp.skip(pre.used as int));
                EntriesOut {
                    used: pre.used + last.used,
                    state: last.state,
                    outcome: match last.outcome {
                        Err(m) => Err(m),
                        Ok(v) => Ok(
                            match es.last() {
                                CEntry::Indexed(_) => (
                                    entries.insert(KeyView::Index(idx), v),
                                    idx + 1,
                                ),
                                CEntry::Keyed(k, _) => (
                                    entries.insert(KeyView::String(k@), v),
                                    idx,
                                ),
                                CEntry::NumKeyed(b, _) => (
                                    entries.insert(KeyView::Number(spec_num_text(b)), v),
                                    idx,
                                ),
                            },
                        ),
                    },
                }
            },
        }
    }
}

} // verus!

verus! {

broadcast use vstd::seq::group_seq_axioms, vstd::std_specs::vec::group_vec_axioms,
    vstd::map::group_map_axioms, vstd::set::group_set_axioms;

/// One module of native functions, by name.
pub struct ModuleDecl {
    pub name: String,
    pub funcs: Vec<String>,
}

/// The collaborator that runs native functions: the interpreter resolves a
/// signature and hands over the evaluated arguments; what comes back is the
/// call's value or error. An implementation must return well-formed values
/// when it is given well-formed arguments.
pub trait NativeHost {
    fn call(&mut self, sig: &str, args: &Vec<Value>) -> (r: Result<Value, String>)
        requires
            forall|i: int| 0 <= i < args@.len() ==> #[trigger] args@[i].valid(),
        ensures
            (r matches Ok(v) ==> v.valid()),
    ;
}

/// The set of texts a list of strings holds.
pub open spec fn text_set(ss: Seq<String>) -> Set<Seq<char>> {
    Set::new(|k: Seq<char>| exists|i: int| 0 <= i < ss.len() && ss[i]@ == k)
}

/// The table view of a list of module declarations.
pub open spec fn mods_view(ms: Seq<ModuleDecl>) -> OptTable {
    ms.map_values(|m: ModuleDecl| (m.name@, m.funcs@.map_values(|f: String| f@)))
}

/// Every `module_function` signature of a module list.
pub open spec fn std_sigs(ms: OptTable) -> Set<Seq<char>> {
    Set::new(
        |k: Seq<char>|
            exists|i: int, j: int|
                #![trigger ms[i].1[j]]
                0 <= i < ms.len() && 0 <= j < ms[i].1.len() && k == ms[i].0 + "_"@ + ms[i].1[j],
    )
}

/// The view of one evaluation result.
pub open spec fn res_view(r: Result<Value, String>) -> Result<ValueView, Seq<char>> {
    match r {
        Ok(v) => Ok(v@),
        Err(e) => Err(e@),
    }
}

proof fn lemma_text_set_push(ss: Seq<String>, x: String)
    ensures
        text_set(ss.push(x)) =~= text_set(ss).insert(x@),
{
    assert forall|k: Seq<char>| text_set(ss.push(x)).contains(k) implies text_set(ss).insert(
        x@,
    ).contains(k) by {
        let i = choose|i: int| 0 <= i < ss.push(x).len() && ss.push(x)[i]@ == k;
        if i < ss.len() {
            assert(ss[i]@ == k);
        }
    }
    assert forall|k: Seq<char>| text_set(ss).insert(x@).contains(k) implies text_set(
        ss.push(x),
    ).contains(k) by {
        if text_set(ss).contains(k) {
            let i = choose|i: int| 0 <= i < ss.len() && ss[i]@ == k;
            assert(ss.push(x)[i]@ == k);
        } else {
            assert(ss.push(x)[ss.len() as int]@ == k);
        }
    }
}

fn list_contains(v: &Vec<String>, x: &str) -> (r: bool)
    ensures
        r == text_set(v@).contains(x@),
{
    let n = v.len();
    let mut i: usize = 0;
    while i < n
        invariant
            n == v@.len(),
            0 <= i <= n,
            forall|j: int| 0 <= j < i ==> v@[j]@ != x@,
        decreases n - i,
    {
        if crate::value::str_eq(v[i].as_str(), x) {
            proof {
                assert(v@[i as int]@ == x@);
            }
            return true;
        }
        i += 1;
    }
    false
}

/// The tree-walk interpreter: a variable table, the registered native
/// signatures, the loaded optional modules, the optional-module table, and
/// the host that runs natives. The ghost `log` records every native answer.
pub struct Interpreter<H: NativeHost> {
    pub host: H,
    pub natives: Vec<String>,
    pub vars: crate::value::CValue,
    pub loaded_modules: Vec<String>,
    pub opt_modules: Vec<ModuleDecl>,
    pub log: Ghost<Seq<Resp>>,
}

impl<H: NativeHost> Interpreter<H> {
    /// Well-formed: the variable table is a well-formed collection.
    pub open spec fn wf(&self) -> bool {
        self.vars.valid()
    }

    /// The interpreter's state as the evaluation relation reads it.
    pub open spec fn sview(&self) -> StateView {
        StateView {
            vars: self.vars@.entries,
            mods: text_set(self.loaded_modules@),
            sigs: text_set(self.natives@),
            opts: mods_view(self.opt_modules@),
        }
    }

    /// Register every function of `decl` under `name_function`.
    fn register_module(&mut self, decl: &ModuleDecl)
        requires
            old(self).wf(),
        ensures
            final(self).wf(),
            final(self).vars == old(self).vars,
            final(self).loaded_modules == old(self).loaded_modules,
            final(self).opt_modules == old(self).opt_modules,
            final(self).host == old(self).host,
            final(self).log == old(self).log,
            text_set(final(self).natives@) =~= add_sigs(
                text_set(old(self).natives@),
                decl.name@,
                decl.funcs@.map_values(|f: String| f@),
            ),
    {
        let ghost sigs0 = text_set(self.natives@);
        let ghost m = decl.name@;
        let ghost funcs = decl.funcs@.map_values(|f: String| f@);
        let n = decl.funcs.len();
        let mut j: usize = 0;
        while j < n
            invariant
                self.wf(),
                n == decl.funcs@.len(),
                0 <= j <= n,
                m == decl.name@,
                funcs == decl.funcs@.map_values(|f: String| f@),
                funcs.len() == n,
                self.vars == old(self).vars,
                self.loaded_modules == old(self).loaded_modules,
                self.opt_modules == old(self).opt_modules,
                self.host == old(self).host,
                self.log == old(self).log,
                text_set(self.natives@) =~= Set::new(
                    |k: Seq<char>|
                        sigs0.contains(k) || exists|x: int| 0 <= x < j && k == m + "_"@ + funcs[x],
                ),
            decreases n - j,
        {
            let name = decl.name.clone();
            let f = decl.funcs[j].clone();
            let sig = name.concat("_").concat(f.as_str());
            let ghost before = self.natives@;
            let ghost preset = text_set(before);
            self.natives.push(sig);
            proof {
                lemma_text_set_push(before, sig);
                let mf = m + "_"@ + funcs[j as int];
                assert(sig@ == mf);
                assert(text_set(self.natives@) =~= preset.insert(mf));
                let goal = Set::new(
                    |k: Seq<char>|
                        sigs0.contains(k) || exists|x: int|
                            0 <= x < j + 1 && k == m + "_"@ + funcs[x],
                );
                assert forall|k: Seq<char>| preset.insert(mf).contains(k) implies goal.contains(
                    k,
                ) by {
                    if k == mf {
                        assert(exists|x: int| 0 <= x < j + 1 && k == m + "_"@ + funcs[x]) by {
                            assert(k == m + "_"@ + funcs[j as int]);
                        }
                    } else {
                        assert(preset.contains(k));
                        if !sigs0.contains(k) {
                            let x = choose|x: int| 0 <= x < j && k == m + "_"@ + funcs[x];
                            assert(exists|y: int| 0 <= y < j + 1 && k == m + "_"@ + funcs[y]) by {
                                assert(k == m + "_"@ + funcs[x]);
                            }
                        }
                    }
                }
                assert forall|k: Seq<char>| goal.contains(k) implies preset.insert(mf).contains(
                    k,
                ) by {
                    if sigs0.contains(k) {
                        assert(preset.contains(k));
                    } else {
                        let x = choose|x: int| 0 <= x < j + 1 && k == m + "_"@ + funcs[x];
                        if x < j {
                            assert(preset.contains(k));
                        } else {
                            assert(k == mf);
                        }
                    }
                }
                assert(text_set(self.natives@) =~= goal);
            }
            j += 1;
        }
        proof {
            assert(text_set(self.natives@) =~= add_sigs(sigs0, m, funcs));
        }
    }
}

} // verus!

verus! {

fn clone_strings(v: &Vec<String>) -> (r: Vec<String>)
    ensures
        r@ == v@,
{
    let n = v.len();
    let mut r: Vec<String> = Vec::new();
    let mut i: usize = 0;
    while i < n
        invariant
            n == v@.len(),
            0 <= i <= n,
            r@ =~= v@.take(i as int),
        decreases n - i,
    {
        r.push(v[i].clone());
        proof {
            assert(r@ =~= v@.take(i + 1));
        }
        i += 1;
    }
    proof {
        assert(v@.take(n as int) =~= v@);
    }
    r
}

impl ModuleDecl {
    /// A fresh declaration equal to this one.
    pub fn duplicate(&self) -> (r: ModuleDecl)
        ensures
            r.name == self.name,
            r.funcs@ == self.funcs@,
    {
        ModuleDecl { name: self.name.clone(), funcs: clone_strings(&self.funcs) }
    }
}

impl<H: NativeHost> Interpreter<H> {
    /// A fresh interpreter: empty variable table, no loaded optional
    /// modules, and every function of the always-loaded modules registered
    /// under its `module_function` signature.
    pub fn new(host: H, std_modules: Vec<ModuleDecl>, optional_modules: Vec<ModuleDecl>) -> (r:
        Interpreter<H>)
        ensures
            r.wf(),
            r.sview().vars == Map::<KeyView, ValueView>::empty(),
            r.sview().mods =~= Set::<Seq<char>>::empty(),
            r.sview().sigs =~= std_sigs(mods_view(std_modules@)),
            r.sview().opts == mods_view(optional_modules@),
            r.log@ == Seq::<Resp>::empty(),
    {
        let ghost opts0 = optional_modules@;
        let mut it = Interpreter {
            host,
            natives: Vec::new(),
            vars: crate::value::CValue::new(),
            loaded_modules: Vec::new(),
            opt_modules: optional_modules,
            log: Ghost(Seq::empty()),
        };
        let ghost table = mods_view(std_modules@);
        let n = std_modules.len();
        let mut i: usize = 0;
        while i < n
            invariant
                it.wf(),
                n == std_modules@.len(),
                0 <= i <= n,
                table == mods_view(std_modules@),
                table.len() == n,
                it.vars@.entries == Map::<KeyView, ValueView>::empty(),
                it.loaded_modules@.len() == 0,
                it.opt_modules@ == opts0,
                it.log@ == Seq::<Resp>::empty(),
                text_set(it.natives@) =~= std_sigs(table.take(i as int)),
            decreases n - i,
        {
            let ghost sigs_pre = text_set(it.natives@);
            let ghost decl = std_modules@[i as int];
            it.register_module(&std_modules[i]);
            proof {
                let m = decl.name@;
                let funcs = decl.funcs@.map_values(|f: String| f@);
                assert(table[i as int] == (m, funcs));
                let goal = std_sigs(table.take(i + 1));
                assert forall|k: Seq<char>| add_sigs(sigs_pre, m, funcs).contains(k) implies goal.contains(k) by {
                    if sigs_pre.contains(k) {
                        let (x, y) = choose|x: int, y: int|
                            #![trigger table.take(i as int)[x].1[y]]
                            0 <= x < table.take(i as int).len() && 0 <= y < table.take(i as int)[x].1.len()
                                && k == table.take(i as int)[x].0 + "_"@ + table.take(i as int)[x].1[y];
                        assert(table.take(i + 1)[x] == table.take(i as int)[x]);
                        assert(exists|x2: int, y2: int|
                            #![trigger table.take(i + 1)[x2].1[y2]]
                            0 <= x2 < table.take(i + 1).len() && 0 <= y2 < table.take(i + 1)[x2].1.len()
                                && k == table.take(i + 1)[x2].0 + "_"@ + table.take(i + 1)[x2].1[y2]) by {
                            assert(k == table.take(i + 1)[x].0 + "_"@ + table.take(i + 1)[x].1[y]);
                        }
                    } else {
                        let j = choose|j: int| 0 <= j < funcs.len() && k == m + "_"@ + funcs[j];
                        assert(table.take(i + 1)[i as int] == (m, funcs));
                        assert(exists|x2: int, y2: int|
                            #![trigger table.take(i + 1)[x2].1[y2]]
                            0 <= x2 < table.take(i + 1).len() && 0 <= y2 < table.take(i + 1)[x2].1.len()
                                && k == table.take(i + 1)[x2].0 + "_"@ + table.take(i + 1)[x2].1[y2]) by {
                            assert(k == table.take(i + 1)[i as int].0 + "_"@ + table.take(i + 1)[i as int].1[j]);
                        }
                    }
                }
                assert forall|k: Seq<char>| goal.contains(k) implies add_sigs(sigs_pre, m, funcs).contains(k) by {
                    let (x, y) = choose|x: int, y: int|
                        #![trigger table.take(i + 1)[x].1[y]]
                        0 <= x < table.take(i + 1).len() && 0 <= y < table.take(i + 1)[x].1.len()
                            && k == table.take(i + 1)[x].0 + "_"@ + table.take(i + 1)[x].1[y];
                    if x < i as int {
                        assert(table.take(i as int)[x] == table.take(i + 1)[x]);
                        assert(sigs_pre.contains(k)) by {
                            assert(exists|x2: int, y2: int|
                                #![trigger table.take(i as int)[x2].1[y2]]
                                0 <= x2 < table.take(i as int).len() && 0 <= y2 < table.take(i as int)[x2].1.len()
                                    && k == table.take(i as int)[x2].0 + "_"@ + table.take(i as int)[x2].1[y2]) by {
                                assert(k == table.take(i as int)[x].0 + "_"@ + table.take(i as int)[x].1[y]);
                            }
                        }
                    } else {
                        assert(table.take(i + 1)[x] == (m, funcs));
                        assert(exists|j: int| 0 <= j < funcs.len() && k == m + "_"@ + funcs[j]) by {
                            assert(k == m + "_"@ + funcs[y]);
                        }
                    }
                }
                assert(text_set(it.natives@) =~= goal);
            }
            i += 1;
        }
        proof {
            assert(table.take(n as int) =~= table);
            assert(text_set(it.natives@) =~= std_sigs(table));
            assert(text_set(it.loaded_modules@) =~= Set::<Seq<char>>::empty());
        }
        it
    }
}

} // verus!

verus! {

/// The evaluation of `e` from state `s0` consumed exactly the native
/// answers `delta` and ended in state `s1` with outcome `out`, whatever
/// answers would have followed.
pub open spec fn eval_matches(
    s0: StateView,
    e: Expr,
    delta: Seq<Resp>,
    s1: StateView,
    out: Result<ValueView, Seq<char>>,
) -> bool {
    forall|rest: Seq<Resp>|
        (#[trigger] spec_eval(s0, e, delta + rest)) == (EvalOut {
            used: delta.len(),
            state: s1,
            outcome: out,
        })
}

/// As `eval_matches`, for an expression list.
pub open spec fn list_matches(
    s0: StateView,
    es: Seq<Expr>,
    delta: Seq<Resp>,
    s1: StateView,
    out: Result<Seq<ValueView>, Seq<char>>,
) -> bool {
    forall|rest: Seq<Resp>|
        (#[trigger] spec_eval_list(s0, es, delta + rest)) == (ListOut {
            used: delta.len(),
            state: s1,
            outcome: out,
        })
}

/// As `eval_matches`, for a block.
pub open spec fn block_matches(
    s0: StateView,
    b: Block,
    delta: Seq<Resp>,
    s1: StateView,
    out: Result<ValueView, Seq<char>>,
) -> bool {
    forall|rest: Seq<Resp>|
        (#[trigger] spec_eval_block(s0, b, delta + rest)) == (EvalOut {
            used: delta.len(),
            state: s1,
            outcome: out,
        })
}

/// As `eval_matches`, for a collection literal's entries.
pub open spec fn entries_matches(
    s0: StateView,
    es: Seq<CEntry>,
    delta: Seq<Resp>,
    s1: StateView,
    out: Result<(Map<KeyView, ValueView>, nat), Seq<char>>,
) -> bool {
    forall|rest: Seq<Resp>|
        (#[trigger] spec_eval_entries(s0, es, delta + rest)) == (EntriesOut {
            used: delta.len(),
            state: s1,
            outcome: out,
        })
}

impl<H: NativeHost> Interpreter<H> {
    /// Load a named optional module, idempotently: its functions are
    /// registered under `name_function` signatures, and a name the table
    /// does not hold is an error.
    pub fn load_module(&mut self, mod_name: &str) -> (r: Result<Value, String>)
        requires
            old(self).wf(),
        ensures
            final(self).wf(),
            final(self).log == old(self).log,
            final(self).sview().opts == old(self).sview().opts,
            final(self).sview().vars == old(self).sview().vars,
            ({
                let s = old(self).sview();
                if s.mods.contains(mod_name@) {
                    &&& final(self).sview() == s
                    &&& (r matches Ok(v) && v@ == ValueView::Nil && v.valid())
                } else {
                    match find_mod(s.opts, mod_name@) {
                        Some(funcs) => {
                            &&& final(self).sview().sigs == add_sigs(s.sigs, mod_name@, funcs)
                            &&& final(self).sview().mods == s.mods.insert(mod_name@)
                            &&& (r matches Ok(v) && v@ == ValueView::Nil && v.valid())
                        },
                        None => {
                            &&& final(self).sview() == s
                            &&& (r matches Err(e) && e@ == "module '"@ + mod_name@
                                + "' not found"@)
                        },
                    }
                }
            }),
    {
        let ghost s0 = self.sview();
        if list_contains(&self.loaded_modules, mod_name) {
            return Ok(Value::Nil);
        }
        let ghost table = mods_view(self.opt_modules@);
        proof {
            assert(table.skip(0) =~= table);
        }
        let n = self.opt_modules.len();
        let mut i: usize = 0;
        while i < n
            invariant
                self.wf(),
                self == old(self),
                s0 == self.sview(),
                !s0.mods.contains(mod_name@),
                table == mods_view(self.opt_modules@),
                table.len() == n,
                n == self.opt_modules@.len(),
                0 <= i <= n,
                find_mod(table, mod_name@) == find_mod(table.skip(i as int), mod_name@),
            decreases n - i,
        {
            proof {
                assert(table[i as int] == (
                    self.opt_modules@[i as int].name@,
                    self.opt_modules@[i as int].funcs@.map_values(|f: String| f@),
                ));
                assert(table.skip(i as int)[0] == table[i as int]);
            }
            if crate::value::str_eq(self.opt_modules[i].name.as_str(), mod_name) {
                let decl = self.opt_modules[i].duplicate();
                proof {
                    assert(decl.funcs@.map_values(|f: String| f@) =~= table[i as int].1);
                    assert(find_mod(table.skip(i as int), mod_name@) == Some(table[i as int].1));
                }
                self.register_module(&decl);
                let ghost before = self.loaded_modules@;
                let owned = mod_name.to_owned();
                let ghost ow = owned;
                self.loaded_modules.push(owned);
                proof {
                    lemma_text_set_push(before, ow);
                    assert(text_set(self.loaded_modules@) =~= s0.mods.insert(mod_name@));
                    assert(self.sview().sigs =~= add_sigs(s0.sigs, mod_name@, table[i as int].1));
                }
                return Ok(Value::Nil);
            }
            proof {
                assert(table.skip(i as int).skip(1) =~= table.skip(i + 1));
                assert(find_mod(table.skip(i as int), mod_name@) == find_mod(
                    table.skip(i + 1),
                    mod_name@,
                ));
            }
            i += 1;
        }
        proof {
            assert(table.skip(n as int).len() == 0);
            assert(find_mod(table, mod_name@) is None);
        }
        Err(
            String::from_str("module '").concat(mod_name).concat("' not found"),
        )
    }
}

} // verus!

verus! {

impl<H: NativeHost> Interpreter<H> {
    /// Evaluate an expression against the current state: the result is a
    /// value or an error text, and the whole behaviour — state change,
    /// native answers consumed, outcome — is `spec_eval` of the old state.
    pub fn evaluate(&mut self, expr: &Expr) -> (r: Result<Value, String>)
        requires
            old(self).wf(),
        ensures
            final(self).wf(),
            old(self).log@.is_prefix_of(final(self).log@),
            eval_matches(
                old(self).sview(),
                *expr,
                final(self).log@.skip(old(self).log@.len() as int),
                final(self).sview(),
                res_view(r),
            ),
            (r matches Ok(v) ==> v.valid()),
        decreases *expr,
    {
        let ghost s0 = self.sview();
        let ghost l0 = self.log@;
        match expr {
            Expr::Number(b) => {
                let r = Ok(Value::Number(*b));
                proof {
                    assert(self.log@.skip(l0.len() as int) =~= Seq::<Resp>::empty());
                    assert(l0.is_prefix_of(self.log@));
                    assert forall|rest: Seq<Resp>|
                        (#[trigger] spec_eval(s0, *expr, Seq::<Resp>::empty() + rest)) == (EvalOut {
                            used: 0,
                            state: s0,
                            outcome: res_view(r),
                        }) by {}
                }
                r
            },
            Expr::String(t) => {
                let r = Ok(Value::String(t.clone()));
                proof {
                    assert(self.log@.skip(l0.len() as int) =~= Seq::<Resp>::empty());
                    assert(l0.is_prefix_of(self.log@));
                    assert forall|rest: Seq<Resp>|
                        (#[trigger] spec_eval(s0, *expr, Seq::<Resp>::empty() + rest)) == (EvalOut {
                            used: 0,
                            state: s0,
                            outcome: res_view(r),
                        }) by {}
                }
                r
            },
            Expr::Identifier(name) => {
                let r = match self.vars.get_by_string(name.as_str()) {
                    Some(v) => Ok(v.duplicate()),
                    None => Err(
                        String::from_str("undefined variable or reference '").concat(
                            name.as_str(),
                        ).concat("'"),
                    ),
                };
                proof {
                    assert(self.log@.skip(l0.len() as int) =~= Seq::<Resp>::empty());
                    assert(l0.is_prefix_of(self.log@));
                    assert forall|rest: Seq<Resp>|
                        (#[trigger] spec_eval(s0, *expr, Seq::<Resp>::empty() + rest)) == (EvalOut {
                            used: 0,
                            state: s0,
                            outcome: res_view(r),
                        }) by {}
                }
                r
            },
            Expr::Call(c) => self.exec_call(c),
            Expr::Collection(col) => self.exec_collection(col),
            Expr::IndexAccess(ia) => self.exec_idx_access(ia),
            Expr::MethodCall(mc) => self.exec_method_call(mc),
            Expr::VarDecl(d) => self.exec_var_decl(d),
            Expr::Assignment(a) => self.exec_assignment(a),
            Expr::BinaryOp(b) => self.exec_binary_op(b),
            Expr::UnaryOp(u) => self.exec_unary_op(u),
            Expr::If(i) => self.exec_if(i),
            Expr::Block(b) => {
                let r = self.exec_block(b);
                proof {
                    let dt = self.log@.skip(l0.len() as int);
                    assert forall|rest: Seq<Resp>|
                        (#[trigger] spec_eval(s0, *expr, dt + rest)) == (EvalOut {
                            used: dt.len(),
                            state: self.sview(),
                            outcome: res_view(r),
                        }) by {
                        assert(spec_eval_block(s0, *b, dt + rest) == (EvalOut {
                            used: dt.len(),
                            state: self.sview(),
                            outcome: res_view(r),
                        }));
                    }
                }
                r
            },
            Expr::Import(im) => self.exec_import(im),
            Expr::FieldAccess(fa) => self.exec_fa(fa),
        }
    }

    /// Evaluate the expressions of a list left to right, stopping at the
    /// first error.
    fn eval_args(&mut self, es: &Vec<Expr>) -> (r: Result<Vec<Value>, String>)
        requires
            old(self).wf(),
        ensures
            final(self).wf(),
            old(self).log@.is_prefix_of(final(self).log@),
            list_matches(
                old(self).sview(),
                es@,
                final(self).log@.skip(old(self).log@.len() as int),
                final(self).sview(),
                match r {
                    Ok(vals) => Ok(views_of(vals@)),
                    Err(e) => Err(e@),
                },
            ),
            (r matches Ok(vals) ==> forall|i: int|
                0 <= i < vals@.len() ==> #[trigger] vals@[i].valid()),
        decreases *es,
    {
        let ghost s0 = self.sview();
        let ghost l0 = self.log@;
        let n = es.len();
        let mut vals: Vec<Value> = Vec::new();
        let mut i: usize = 0;
        proof {
            assert(self.log@.skip(l0.len() as int) =~= Seq::<Resp>::empty());
            assert forall|rest: Seq<Resp>|
                (#[trigger] spec_eval_list(s0, es@.take(0), Seq::<Resp>::empty() + rest))
                    == (ListOut { used: 0, state: s0, outcome: Ok(views_of(vals@)) }) by {
                assert(es@.take(0).len() == 0);
                assert(views_of(vals@) =~= Seq::<ValueView>::empty());
            }
        }
        while i < n
            invariant
                self.wf(),
                l0 == old(self).log@,
                s0 == old(self).sview(),
                n == es@.len(),
                0 <= i <= n,
                l0.is_prefix_of(self.log@),
                list_matches(
                    s0,
                    es@.take(i as int),
                    self.log@.skip(l0.len() as int),
                    self.sview(),
                    Ok(views_of(vals@)),
                ),
                forall|j: int| 0 <= j < vals@.len() ==> #[trigger] vals@[j].valid(),
                vals@.len() == i,
            decreases n - i,
        {
            let ghost d_pre = self.log@.skip(l0.len() as int);
            let ghost s_pre = self.sview();
            let ghost l_pre = self.log@;
            let ghost vals_pre = vals@;
            let res = self.evaluate(&es[i]);
            let ghost d_step = self.log@.skip(l_pre.len() as int);
            let ghost s_now = self.sview();
            proof {
                assert(l_pre =~= l0 + d_pre);
                assert(self.log@ =~= l_pre + d_step);
                assert(self.log@.skip(l0.len() as int) =~= d_pre + d_step);
                assert(l0.is_prefix_of(self.log@));
            }
            match res {
                Err(e) => {
                    proof {
                        let dt = self.log@.skip(l0.len() as int);
                        assert forall|rest: Seq<Resp>|
                            (#[trigger] spec_eval_list(s0, es@, dt + rest)) == (ListOut {
                                used: dt.len(),
                                state: s_now,
                                outcome: Err(e@),
                            }) by {
                            lemma_list_error_suffix(
                                s0,
                                es@,
                                i as int,
                                d_pre,
                                d_step,
                                rest,
                                s_pre,
                                s_now,
                                views_of(vals_pre),
                                e@,
                            );
                        }
                    }
                    return Err(e);
                },
                Ok(v) => {
                    vals.push(v);
                    proof {
                        let dt = self.log@.skip(l0.len() as int);
                        assert(views_of(vals@) =~= views_of(vals_pre).push(vals@.last()@));
                        assert forall|rest: Seq<Resp>|
                            (#[trigger] spec_eval_list(s0, es@.take(i + 1), dt + rest))
                                == (ListOut {
                                used: dt.len(),
                                state: s_now,
                                outcome: Ok(views_of(vals@)),
                            }) by {
                            assert(es@.take(i + 1).drop_last() =~= es@.take(i as int));
                            assert(es@.take(i + 1).last() == es@[i as int]);
                            assert(dt + rest =~= d_pre + (d_step + rest));
                            assert(spec_eval_list(s0, es@.take(i as int), d_pre + (d_step + rest))
                                == (ListOut {
                                used: d_pre.len(),
                                state: s_pre,
                                outcome: Ok(views_of(vals_pre)),
                            }));
                            assert((d_pre + (d_step + rest)).skip(d_pre.len() as int) =~= d_step
                                + rest);
                            assert(spec_eval(s_pre, es@[i as int], d_step + rest) == (EvalOut {
                                used: d_step.len(),
                                state: s_now,
                                outcome: Ok(vals@.last()@),
                            }));
                        }
                    }
                    i += 1;
                },
            }
        }
        proof {
            assert(es@.take(n as int) =~= es@);
        }
        Ok(vals)
    }
}

/// An error while a list's prefix evaluates makes the whole list stop with
/// that error.
proof fn lemma_list_error_suffix(
    s0: StateView,
    es: Seq<Expr>,
    i: int,
    d_pre: Seq<Resp>,
    d_step: Seq<Resp>,
    rest: Seq<Resp>,
    s_pre: StateView,
    s_now: StateView,
    vs: Seq<ValueView>,
    e: Seq<char>,
)
    requires
        0 <= i < es.len(),
        list_matches(s0, es.take(i), d_pre, s_pre, Ok(vs)),
        eval_matches(s_pre, es[i], d_step, s_now, Err(e)),
    ensures
        spec_eval_list(s0, es, (d_pre + d_step) + rest) == (ListOut {
            used: (d_pre + d_step).len(),
            state: s_now,
            outcome: Err(e),
        }),
    decreases es.len() - i,
{
    let resp = (d_pre + d_step) + rest;
    if i == es.len() - 1 {
        assert(es.take(i) =~= es.drop_last());
        assert(resp =~= d_pre + (d_step + rest));
        assert(spec_eval_list(s0, es.drop_last(), d_pre + (d_step + rest)) == (ListOut {
            used: d_pre.len(),
            state: s_pre,
            outcome: Ok(vs),
        }));
        assert(resp.skip(d_pre.len() as int) =~= d_step + rest);
        assert(spec_eval(s_pre, es[i], d_step + rest) == (EvalOut {
            used: d_step.len(),
            state: s_now,
            outcome: Err(e),
        }));
    } else {
        assert(es.drop_last().take(i) =~= es.take(i));
        assert(es.drop_last()[i] == es[i]);
        lemma_list_error_suffix(s0, es.drop_last(), i, d_pre, d_step, rest, s_pre, s_now, vs, e);
        assert(spec_eval_list(s0, es.drop_last(), resp) == (ListOut {
            used: (d_pre + d_step).len(),
            state: s_now,
            outcome: Err(e),
        }));
    }
}

} // verus!



verus! {

impl<H: NativeHost> Interpreter<H> {
    #[verifier::rlimit(100)]
    fn exec_binary_op(&mut self, b: &BinaryOp) -> (r: Result<Value, String>)
        requires
            old(self).wf(),
        ensures
            final(self).wf(),
            old(self).log@.is_prefix_of(final(self).log@),
            eval_matches(
                old(self).sview(),
                Expr::BinaryOp(*b),
                final(self).log@.skip(old(self).log@.len() as int),
                final(self).sview(),
                res_view(r),
            ),
            (r matches Ok(v) ==> v.valid()),
        decreases *b,
    {
        let ghost s0 = self.sview();
        let ghost l0 = self.log@;
        let lres = self.evaluate(&b.left);
        let ghost d1 = self.log@.skip(l0.len() as int);
        let ghost s1 = self.sview();
        proof {
            assert(self.log@ =~= l0 + d1);
        }
        let lv = match lres {
            Err(e) => {
                proof {
                    assert forall|rest: Seq<Resp>|
                        (#[trigger] spec_eval(s0, Expr::BinaryOp(*b), d1 + rest)) == (EvalOut {
                            used: d1.len(),
                            state: s1,
                            outcome: Err(e@),
                        }) by {
                        assert(spec_eval(s0, *b.left, d1 + rest) == (EvalOut {
                            used: d1.len(),
                            state: s1,
                            outcome: Err(e@),
                        }));
                    }
                }
                return Err(e);
            },
            Ok(v) => v,
        };
        let ghost l1 = self.log@;
        let rres = self.evaluate(&b.right);
        let ghost d2 = self.log@.skip(l1.len() as int);
        let ghost s2 = self.sview();
        let ghost dt = self.log@.skip(l0.len() as int);
        proof {
            assert(self.log@ =~= l1 + d2);
            assert(dt =~= d1 + d2);
            assert(l0.is_prefix_of(self.log@));
        }
        let rv = match rres {
            Err(e) => {
                proof {
                    assert forall|rest: Seq<Resp>|
                        (#[trigger] spec_eval(s0, Expr::BinaryOp(*b), dt + rest)) == (EvalOut {
                            used: dt.len(),
                            state: s2,
                            outcome: Err(e@),
                        }) by {
                        assert(dt + rest =~= d1 + (d2 + rest));
                        assert(spec_eval(s0, *b.left, d1 + (d2 + rest)) == (EvalOut {
                            used: d1.len(),
                            state: s1,
                            outcome: Ok(lv@),
                        }));
                        assert((d1 + (d2 + rest)).skip(d1.len() as int) =~= d2 + rest);
                        assert(spec_eval(s1, *b.right, d2 + rest) == (EvalOut {
                            used: d2.len(),
                            state: s2,
                            outcome: Err(e@),
                        }));
                    }
                }
                return Err(e);
            },
            Ok(v) => v,
        };
        let out: Result<Value, String> = match b.op {
            TokenType::DblEquals => Ok(Value::Bool(lv.eq_value(&rv))),
            TokenType::Lt => Ok(Value::Bool(lv.lt_value(&rv))),
            TokenType::Gt => Ok(Value::Bool(rv.lt_value(&lv))),
            TokenType::Lte => Ok(Value::Bool(lv.le_value(&rv))),
            TokenType::Gte => Ok(Value::Bool(rv.le_value(&lv))),
            TokenType::Neq => Ok(Value::Bool(!lv.eq_value(&rv))),
            TokenType::Add | TokenType::Sub | TokenType::Mul | TokenType::Div | TokenType::Mod => {
                match (&lv, &rv) {
                    (Value::Number(x), Value::Number(y)) => match b.op {
                        TokenType::Add => Ok(Value::Number(crate::num::apf_add(*x, *y))),
                        TokenType::Sub => Ok(Value::Number(crate::num::apf_sub(*x, *y))),
                        TokenType::Mul => Ok(Value::Number(crate::num::apf_mul(*x, *y))),
                        TokenType::Div => {
                            if crate::num::zero_bits(*y) {
                                Err(String::from_str("division by zero"))
                            } else {
                                Ok(Value::Number(crate::num::apf_div(*x, *y)))
                            }
                        },
                        _ => {
                            if crate::num::zero_bits(*y) {
                                Err(String::from_str("modulo by zero"))
                            } else {
                                Ok(Value::Number(crate::num::apf_fmod(*x, *y)))
                            }
                        },
                    },
                    _ => Err(
                        String::from_str("arithmetic operations can only be performed on numbers"),
                    ),
                }
            },
            _ => Err(
                String::from_str("unsupported binary operator ").concat(token_text(b.op)),
            ),
        };
        proof {
            assert(res_view(out) == spec_binop(b.op, lv@, rv@));
            assert forall|rest: Seq<Resp>|
                (#[trigger] spec_eval(s0, Expr::BinaryOp(*b), dt + rest)) == (EvalOut {
                    used: dt.len(),
                    state: s2,
                    outcome: res_view(out),
                }) by {
                assert(dt + rest =~= d1 + (d2 + rest));
                assert(spec_eval(s0, *b.left, d1 + (d2 + rest)) == (EvalOut {
                    used: d1.len(),
                    state: s1,
                    outcome: Ok(lv@),
                }));
                assert((d1 + (d2 + rest)).skip(d1.len() as int) =~= d2 + rest);
                assert(spec_eval(s1, *b.right, d2 + rest) == (EvalOut {
                    used: d2.len(),
                    state: s2,
                    outcome: Ok(rv@),
                }));
            }
        }
        out
    }

    fn exec_unary_op(&mut self, u: &UnaryOp) -> (r: Result<Value, String>)
        requires
            old(self).wf(),
        ensures
            final(self).wf(),
            old(self).log@.is_prefix_of(final(self).log@),
            eval_matches(
                old(self).sview(),
                Expr::UnaryOp(*u),
                final(self).log@.skip(old(self).log@.len() as int),
                final(self).sview(),
                res_view(r),
            ),
            (r matches Ok(v) ==> v.valid()),
        decreases *u,
    {
        let ghost s0 = self.sview();
        let ghost l0 = self.log@;
        let vres = self.evaluate(&u.operand);
        let ghost d1 = self.log@.skip(l0.len() as int);
        let ghost s1 = self.sview();
        proof {
            assert(self.log@ =~= l0 + d1);
        }
        let ov = match vres {
            Err(e) => {
                proof {
                    assert forall|rest: Seq<Resp>|
                        (#[trigger] spec_eval(s0, Expr::UnaryOp(*u), d1 + rest)) == (EvalOut {
                            used: d1.len(),
                            state: s1,
                            outcome: Err(e@),
                        }) by {
                        assert(spec_eval(s0, *u.operand, d1 + rest) == (EvalOut {
                            used: d1.len(),
                            state: s1,
                            outcome: Err(e@),
                        }));
                    }
                }
                return Err(e);
            },
            Ok(v) => v,
        };
        let out: Result<Value, String> = match u.op {
            TokenType::Sub => match &ov {
                Value::Number(b) => Ok(Value::Number(crate::num::negate_bits(*b))),
                _ => Err(String::from_str("negate unary operator only supported on numbers")),
            },
            _ => Err(
                String::from_str("unsupported unary operator ").concat(token_text(u.op)),
            ),
        };
        proof {
            assert forall|rest: Seq<Resp>|
                (#[trigger] spec_eval(s0, Expr::UnaryOp(*u), d1 + rest)) == (EvalOut {
                    used: d1.len(),
                    state: s1,
                    outcome: res_view(out),
                }) by {
                assert(spec_eval(s0, *u.operand, d1 + rest) == (EvalOut {
                    used: d1.len(),
                    state: s1,
                    outcome: Ok(ov@),
                }));
            }
        }
        out
    }

    fn exec_var_decl(&mut self, d: &VarDecl) -> (r: Result<Value, String>)
        requires
            old(self).wf(),
        ensures
            final(self).wf(),
            old(self).log@.is_prefix_of(final(self).log@),
            eval_matches(
                old(self).sview(),
                Expr::VarDecl(*d),
                final(self).log@.skip(old(self).log@.len() as int),
                final(self).sview(),
                res_view(r),
            ),
            (r matches Ok(v) ==> v.valid()),
        decreases *d,
    {
        let ghost s0 = self.sview();
        let ghost l0 = self.log@;
        let already = match self.vars.get_by_string(d.name.as_str()) {
            Some(_) => true,
            None => false,
        };
        if already {
            let out: Result<Value, String> = Err(
                String::from_str("variable '").concat(d.name.as_str()).concat(
                    "' already defined!",
                ),
            );
            proof {
                assert(self.log@.skip(l0.len() as int) =~= Seq::<Resp>::empty());
                assert forall|rest: Seq<Resp>|
                    (#[trigger] spec_eval(s0, Expr::VarDecl(*d), Seq::<Resp>::empty() + rest))
                        == (EvalOut { used: 0, state: s0, outcome: res_view(out) }) by {}
            }
            return out;
        }
        let vres = self.evaluate(&d.value);
        let ghost d1 = self.log@.skip(l0.len() as int);
        let ghost s1 = self.sview();
        proof {
            assert(self.log@ =~= l0 + d1);
        }
        match vres {
            Err(e) => {
                proof {
                    assert forall|rest: Seq<Resp>|
                        (#[trigger] spec_eval(s0, Expr::VarDecl(*d), d1 + rest)) == (EvalOut {
                            used: d1.len(),
                            state: s1,
                            outcome: Err(e@),
                        }) by {
                        assert(spec_eval(s0, *d.value, d1 + rest) == (EvalOut {
                            used: d1.len(),
                            state: s1,
                            outcome: Err(e@),
                        }));
                    }
                }
                Err(e)
            },
            Ok(val) => {
                let ghost vv = val@;
                self.vars.insert(crate::value::CKey::String(d.name.clone()), val);
                proof {
                    assert(self.sview() == StateView {
                        vars: s1.vars.insert(KeyView::String(d.name@), vv),
                        ..s1
                    });
                    assert forall|rest: Seq<Resp>|
                        (#[trigger] spec_eval(s0, Expr::VarDecl(*d), d1 + rest)) == (EvalOut {
                            used: d1.len(),
                            state: self.sview(),
                            outcome: Ok(ValueView::Nil),
                        }) by {
                        assert(spec_eval(s0, *d.value, d1 + rest) == (EvalOut {
                            used: d1.len(),
                            state: s1,
                            outcome: Ok(vv),
                        }));
                    }
                }
                Ok(Value::Nil)
            },
        }
    }

    fn exec_assignment(&mut self, a: &Assignment) -> (r: Result<Value, String>)
        requires
            old(self).wf(),
        ensures
            final(self).wf(),
            old(self).log@.is_prefix_of(final(self).log@),
            eval_matches(
                old(self).sview(),
                Expr::Assignment(*a),
                final(self).log@.skip(old(self).log@.len() as int),
                final(self).sview(),
                res_view(r),
            ),
            (r matches Ok(v) ==> v.valid()),
        decreases *a,
    {
        let ghost s0 = self.sview();
        let ghost l0 = self.log@;
        let present = match self.vars.get_by_string(a.name.as_str()) {
            Some(_) => true,
            None => false,
        };
        if !present {
            let out: Result<Value, String> = Err(
                String::from_str("variable '").concat(a.name.as_str()).concat("' not defined!"),
            );
            proof {
                assert(self.log@.skip(l0.len() as int) =~= Seq::<Resp>::empty());
                assert forall|rest: Seq<Resp>|
                    (#[trigger] spec_eval(s0, Expr::Assignment(*a), Seq::<Resp>::empty() + rest))
                        == (EvalOut { used: 0, state: s0, outcome: res_view(out) }) by {}
            }
            return out;
        }
        let vres = self.evaluate(&a.assignee);
        let ghost d1 = self.log@.skip(l0.len() as int);
        let ghost s1 = self.sview();
        proof {
            assert(self.log@ =~= l0 + d1);
        }
        match vres {
            Err(e) => {
                proof {
                    assert forall|rest: Seq<Resp>|
                        (#[trigger] spec_eval(s0, Expr::Assignment(*a), d1 + rest)) == (EvalOut {
                            used: d1.len(),
                            state: s1,
                            outcome: Err(e@),
                        }) by {
                        assert(spec_eval(s0, *a.assignee, d1 + rest) == (EvalOut {
                            used: d1.len(),
                            state: s1,
                            outcome: Err(e@),
                        }));
                    }
                }
                Err(e)
            },
            Ok(val) => {
                let ghost vv = val@;
                self.vars.insert(crate::value::CKey::String(a.name.clone()), val);
                proof {
                    assert(self.sview() == StateView {
                        vars: s1.vars.insert(KeyView::String(a.name@), vv),
                        ..s1
                    });
                    assert forall|rest: Seq<Resp>|
                        (#[trigger] spec_eval(s0, Expr::Assignment(*a), d1 + rest)) == (EvalOut {
                            used: d1.len(),
                            state: self.sview(),
                            outcome: Ok(ValueView::Nil),
                        }) by {
                        assert(spec_eval(s0, *a.assignee, d1 + rest) == (EvalOut {
                            used: d1.len(),
                            state: s1,
                            outcome: Ok(vv),
                        }));
                    }
                }
                Ok(Value::Nil)
            },
        }
    }

    fn exec_block(&mut self, b: &Block) -> (r: Result<Value, String>)
        requires
            old(self).wf(),
        ensures
            final(self).wf(),
            old(self).log@.is_prefix_of(final(self).log@),
            block_matches(
                old(self).sview(),
                *b,
                final(self).log@.skip(old(self).log@.len() as int),
                final(self).sview(),
                res_view(r),
            ),
            (r matches Ok(v) ==> v.valid()),
        decreases *b,
    {
        let ghost s0 = self.sview();
        let ghost l0 = self.log@;
        let res = self.eval_args(&b.exprs);
        let ghost dt = self.log@.skip(l0.len() as int);
        let ghost s1 = self.sview();
        match res {
            Err(e) => {
                proof {
                    assert forall|rest: Seq<Resp>|
                        (#[trigger] spec_eval_block(s0, *b, dt + rest)) == (EvalOut {
                            used: dt.len(),
                            state: s1,
                            outcome: Err(e@),
                        }) by {
                        assert(spec_eval_list(s0, b.exprs@, dt + rest) == (ListOut {
                            used: dt.len(),
                            state: s1,
                            outcome: Err(e@),
                        }));
                    }
                }
                Err(e)
            },
            Ok(mut vals) => {
                let ghost vs = views_of(vals@);
                let out = match vals.pop() {
                    Some(v) => Ok(v),
                    None => Ok(Value::Nil),
                };
                proof {
                    if vs.len() > 0 {
                        assert(res_view(out) == Ok::<ValueView, Seq<char>>(vs.last()));
                    } else {
                        assert(res_view(out) == Ok::<ValueView, Seq<char>>(ValueView::Nil));
                    }
                    assert forall|rest: Seq<Resp>|
                        (#[trigger] spec_eval_block(s0, *b, dt + rest)) == (EvalOut {
                            used: dt.len(),
                            state: s1,
                            outcome: res_view(out),
                        }) by {
                        assert(spec_eval_list(s0, b.exprs@, dt + rest) == (ListOut {
                            used: dt.len(),
                            state: s1,
                            outcome: Ok(vs),
                        }));
                    }
                }
                out
            },
        }
    }

    #[verifier::rlimit(100)]
    fn exec_if(&mut self, i: &If) -> (r: Result<Value, String>)
        requires
            old(self).wf(),
        ensures
            final(self).wf(),
            old(self).log@.is_prefix_of(final(self).log@),
            eval_matches(
                old(self).sview(),
                Expr::If(*i),
                final(self).log@.skip(old(self).log@.len() as int),
                final(self).sview(),
                res_view(r),
            ),
            (r matches Ok(v) ==> v.valid()),
        decreases *i,
    {
        let ghost s0 = self.sview();
        let ghost l0 = self.log@;
        let cres = self.evaluate(&i.cond);
        let ghost d1 = self.log@.skip(l0.len() as int);
        let ghost s1 = self.sview();
        proof {
            assert(self.log@ =~= l0 + d1);
        }
        let cv = match cres {
            Err(e) => {
                proof {
                    assert forall|rest: Seq<Resp>|
                        (#[trigger] spec_eval(s0, Expr::If(*i), d1 + rest)) == (EvalOut {
                            used: d1.len(),
                            state: s1,
                            outcome: Err(e@),
                        }) by {
                        assert(spec_eval(s0, *i.cond, d1 + rest) == (EvalOut {
                            used: d1.len(),
                            state: s1,
                            outcome: Err(e@),
                        }));
                    }
                }
                return Err(e);
            },
            Ok(v) => v,
        };
        if cv.is_truthy() {
            let ghost l1 = self.log@;
            let r = self.exec_block(&i.block);
            let ghost d2 = self.log@.skip(l1.len() as int);
            let ghost s2 = self.sview();
            let ghost dt = self.log@.skip(l0.len() as int);
            proof {
                assert(self.log@ =~= l1 + d2);
                assert(dt =~= d1 + d2);
                assert(l0.is_prefix_of(self.log@));
                assert forall|rest: Seq<Resp>|
                    (#[trigger] spec_eval(s0, Expr::If(*i), dt + rest)) == (EvalOut {
                        used: dt.len(),
                        state: s2,
                        outcome: res_view(r),
                    }) by {
                    assert(dt + rest =~= d1 + (d2 + rest));
                    assert(spec_eval(s0, *i.cond, d1 + (d2 + rest)) == (EvalOut {
                        used: d1.len(),
                        state: s1,
                        outcome: Ok(cv@),
                    }));
                    assert((d1 + (d2 + rest)).skip(d1.len() as int) =~= d2 + rest);
                    assert(spec_eval_block(s1, i.block, d2 + rest) == (EvalOut {
                        used: d2.len(),
                        state: s2,
                        outcome: res_view(r),
                    }));
                }
            }
            r
        } else {
            match &i.else_block {
                Some(eb) => {
                    let ghost l1 = self.log@;
                    let r = self.exec_block(eb);
                    let ghost d2 = self.log@.skip(l1.len() as int);
                    let ghost s2 = self.sview();
                    let ghost dt = self.log@.skip(l0.len() as int);
                    proof {
                        assert(self.log@ =~= l1 + d2);
                        assert(dt =~= d1 + d2);
                        assert(l0.is_prefix_of(self.log@));
                        assert forall|rest: Seq<Resp>|
                            (#[trigger] spec_eval(s0, Expr::If(*i), dt + rest)) == (EvalOut {
                                used: dt.len(),
                                state: s2,
                                outcome: res_view(r),
                            }) by {
                            assert(dt + rest =~= d1 + (d2 + rest));
                            assert(spec_eval(s0, *i.cond, d1 + (d2 + rest)) == (EvalOut {
                                used: d1.len(),
                                state: s1,
                                outcome: Ok(cv@),
                            }));
                            assert((d1 + (d2 + rest)).skip(d1.len() as int) =~= d2 + rest);
                            assert(spec_eval_block(s1, *eb, d2 + rest) == (EvalOut {
                                used: d2.len(),
                                state: s2,
                                outcome: res_view(r),
                            }));
                        }
                    }
                    r
                },
                None => {
                    let out: Result<Value, String> = Ok(Value::Nil);
                    proof {
                        let dt = self.log@.skip(l0.len() as int);
                        assert(dt =~= d1);
                        assert forall|rest: Seq<Resp>|
                            (#[trigger] spec_eval(s0, Expr::If(*i), dt + rest)) == (EvalOut {
                                used: dt.len(),
                                state: s1,
                                outcome: res_view(out),
                            }) by {
                            assert(spec_eval(s0, *i.cond, d1 + rest) == (EvalOut {
                                used: d1.len(),
                                state: s1,
                                outcome: Ok(cv@),
                            }));
                        }
                    }
                    out
                },
            }
        }
    }
}

} // verus!

verus! {

impl<H: NativeHost> Interpreter<H> {
    fn exec_call(&mut self, c: &Call) -> (r: Result<Value, String>)
        requires
            old(self).wf(),
        ensures
            final(self).wf(),
            old(self).log@.is_prefix_of(final(self).log@),
            eval_matches(
                old(self).sview(),
                Expr::Call(*c),
                final(self).log@.skip(old(self).log@.len() as int),
                final(self).sview(),
                res_view(r),
            ),
            (r matches Ok(v) ==> v.valid()),
        decreases *c,
    {
        let ghost s0 = self.sview();
        let ghost l0 = self.log@;
        let args = match self.eval_args(&c.args) {
            Err(e) => {
                proof {
                    let dt = self.log@.skip(l0.len() as int);
                    assert forall|rest: Seq<Resp>|
                        (#[trigger] spec_eval(s0, Expr::Call(*c), dt + rest)) == (EvalOut {
                            used: dt.len(),
                            state: self.sview(),
                            outcome: Err(e@),
                        }) by {
                        assert(spec_eval_list(s0, c.args@, dt + rest) == (ListOut {
                            used: dt.len(),
                            state: self.sview(),
                            outcome: Err(e@),
                        }));
                    }
                }
                return Err(e);
            },
            Ok(a) => a,
        };
        let ghost da = self.log@.skip(l0.len() as int);
        let ghost s1 = self.sview();
        let ghost argviews = views_of(args@);
        proof {
            assert(self.log@ =~= l0 + da);
        }
        let sig = c.signature();
        let by_sig = list_contains(&self.natives, sig.as_str());
        let by_name = if by_sig {
            false
        } else {
            list_contains(&self.natives, c.name.as_str())
        };
        if by_sig || by_name {
            let hres = if by_sig {
                self.host.call(sig.as_str(), &args)
            } else {
                self.host.call(c.name.as_str(), &args)
            };
            let ghost rv = res_view(hres);
            proof {
                self.log@ = self.log@.push(rv);
            }
            let ghost dt = self.log@.skip(l0.len() as int);
            proof {
                assert(self.log@ =~= (l0 + da).push(rv));
                assert(dt =~= da.push(rv));
                assert(l0.is_prefix_of(self.log@));
                assert forall|rest: Seq<Resp>|
                    (#[trigger] spec_eval(s0, Expr::Call(*c), dt + rest)) == (EvalOut {
                        used: dt.len(),
                        state: s1,
                        outcome: rv,
                    }) by {
                    assert(dt + rest =~= da + (seq![rv] + rest));
                    assert(spec_eval_list(s0, c.args@, da + (seq![rv] + rest)) == (ListOut {
                        used: da.len(),
                        state: s1,
                        outcome: Ok(argviews),
                    }));
                    assert((dt + rest)[da.len() as int] == rv);
                    assert(da.len() < (dt + rest).len());
                }
            }
            hres
        } else {
            let out: Result<Value, String> = Err(
                String::from_str("undefined function '").concat(c.name.as_str()).concat("'"),
            );
            proof {
                let dt = self.log@.skip(l0.len() as int);
                assert(dt =~= da);
                assert(!s1.sigs.contains(c.spec_signature()) && !s1.sigs.contains(c.name@));
                assert forall|rest: Seq<Resp>|
                    (#[trigger] spec_eval(s0, Expr::Call(*c), dt + rest)) == (EvalOut {
                        used: dt.len(),
                        state: s1,
                        outcome: res_view(out),
                    }) by {
                    assert(spec_eval_list(s0, c.args@, dt + rest) == (ListOut {
                        used: dt.len(),
                        state: s1,
                        outcome: Ok(argviews),
                    }));
                }
            }
            out
        }
    }

    #[verifier::rlimit(100)]
    fn exec_method_call(&mut self, mc: &MethodCall) -> (r: Result<Value, String>)
        requires
            old(self).wf(),
        ensures
            final(self).wf(),
            old(self).log@.is_prefix_of(final(self).log@),
            eval_matches(
                old(self).sview(),
                Expr::MethodCall(*mc),
                final(self).log@.skip(old(self).log@.len() as int),
                final(self).sview(),
                res_view(r),
            ),
            (r matches Ok(v) ==> v.valid()),
        decreases *mc,
    {
        let ghost s0 = self.sview();
        let ghost l0 = self.log@;
        let args = match self.eval_args(&mc.args) {
            Err(e) => {
                proof {
                    let dt = self.log@.skip(l0.len() as int);
                    assert forall|rest: Seq<Resp>|
                        (#[trigger] spec_eval(s0, Expr::MethodCall(*mc), dt + rest)) == (EvalOut {
                            used: dt.len(),
                            state: self.sview(),
                            outcome: Err(e@),
                        }) by {
                        assert(spec_eval_list(s0, mc.args@, dt + rest) == (ListOut {
                            used: dt.len(),
                            state: self.sview(),
                            outcome: Err(e@),
                        }));
                    }
                }
                return Err(e);
            },
            Ok(a) => a,
        };
        let ghost da = self.log@.skip(l0.len() as int);
        let ghost s1 = self.sview();
        let ghost argviews = views_of(args@);
        proof {
            assert(self.log@ =~= l0 + da);
        }
        let is_ident = match &*mc.object {
            Expr::Identifier(_) => true,
            _ => false,
        };
        if is_ident {
            let id = match &*mc.object {
                Expr::Identifier(name) => name,
                _ => unreached(),
            };
            let found = match self.vars.get_by_string(id.as_str()) {
                Some(v) => Some(v.duplicate()),
                None => None,
            };
            match found {
                None => {
                    let out: Result<Value, String> = Err(
                        String::from_str("undefined variable '").concat(id.as_str()).concat(
                            "'",
                        ),
                    );
                    proof {
                        assert forall|rest: Seq<Resp>|
                            (#[trigger] spec_eval(s0, Expr::MethodCall(*mc), da + rest))
                                == (EvalOut {
                                used: da.len(),
                                state: s1,
                                outcome: res_view(out),
                            }) by {
                            assert(spec_eval_list(s0, mc.args@, da + rest) == (ListOut {
                                used: da.len(),
                                state: s1,
                                outcome: Ok(argviews),
                            }));
                        }
                    }
                    out
                },
                Some(mut val) => {
                    let ghost v0 = val@;
                    let mres = val.call_method(mc.method.as_str(), &args);
                    let ghost step = spec_method_step(v0, mc.method@, argviews);
                    match mres {
                        Err(e) => {
                            proof {
                                assert forall|rest: Seq<Resp>|
                                    (#[trigger] spec_eval(s0, Expr::MethodCall(*mc), da + rest))
                                        == (EvalOut {
                                        used: da.len(),
                                        state: s1,
                                        outcome: Err(e@),
                                    }) by {
                                    assert(spec_eval_list(s0, mc.args@, da + rest) == (ListOut {
                                        used: da.len(),
                                        state: s1,
                                        outcome: Ok(argviews),
                                    }));
                                }
                            }
                            Err(e)
                        },
                        Ok(out) => {
                            self.vars.insert(crate::value::CKey::String(id.clone()), val);
                            proof {
                                assert(self.sview() == StateView {
                                    vars: s1.vars.insert(KeyView::String(id@), step.receiver),
                                    ..s1
                                });
                                assert forall|rest: Seq<Resp>|
                                    (#[trigger] spec_eval(s0, Expr::MethodCall(*mc), da + rest))
                                        == (EvalOut {
                                        used: da.len(),
                                        state: self.sview(),
                                        outcome: Ok(out@),
                                    }) by {
                                    assert(spec_eval_list(s0, mc.args@, da + rest) == (ListOut {
                                        used: da.len(),
                                        state: s1,
                                        outcome: Ok(argviews),
                                    }));
                                }
                            }
                            Ok(out)
                        },
                    }
                },
            }
        } else {
            let ghost l1 = self.log@;
            let ores = self.evaluate(&mc.object);
            let ghost d2 = self.log@.skip(l1.len() as int);
            let ghost s2 = self.sview();
            let ghost dt = self.log@.skip(l0.len() as int);
            proof {
                assert(self.log@ =~= l1 + d2);
                assert(dt =~= da + d2);
                assert(l0.is_prefix_of(self.log@));
            }
            match ores {
                Err(e) => {
                    proof {
                        assert forall|rest: Seq<Resp>|
                            (#[trigger] spec_eval(s0, Expr::MethodCall(*mc), dt + rest))
                                == (EvalOut {
                                used: dt.len(),
                                state: s2,
                                outcome: Err(e@),
                            }) by {
                            assert(dt + rest =~= da + (d2 + rest));
                            assert(spec_eval_list(s0, mc.args@, da + (d2 + rest)) == (ListOut {
                                used: da.len(),
                                state: s1,
                                outcome: Ok(argviews),
                            }));
                            assert((da + (d2 + rest)).skip(da.len() as int) =~= d2 + rest);
                            assert(spec_eval(s1, *mc.object, d2 + rest) == (EvalOut {
                                used: d2.len(),
                                state: s2,
                                outcome: Err(e@),
                            }));
                        }
                    }
                    Err(e)
                },
                Ok(mut ov) => {
                    let ghost v0 = ov@;
                    let mres = ov.call_method(mc.method.as_str(), &args);
                    proof {
                        assert forall|rest: Seq<Resp>|
                            (#[trigger] spec_eval(s0, Expr::MethodCall(*mc), dt + rest))
                                == (EvalOut {
                                used: dt.len(),
                                state: s2,
                                outcome: res_view(mres),
                            }) by {
                            assert(dt + rest =~= da + (d2 + rest));
                            assert(spec_eval_list(s0, mc.args@, da + (d2 + rest)) == (ListOut {
                                used: da.len(),
                                state: s1,
                                outcome: Ok(argviews),
                            }));
                            assert((da + (d2 + rest)).skip(da.len() as int) =~= d2 + rest);
                            assert(spec_eval(s1, *mc.object, d2 + rest) == (EvalOut {
                                used: d2.len(),
                                state: s2,
                                outcome: Ok(v0),
                            }));
                        }
                    }
                    mres
                },
            }
        }
    }

    #[verifier::rlimit(100)]
    fn exec_idx_access(&mut self, ia: &IndexAccess) -> (r: Result<Value, String>)
        requires
            old(self).wf(),
        ensures
            final(self).wf(),
            old(self).log@.is_prefix_of(final(self).log@),
            eval_matches(
                old(self).sview(),
                Expr::IndexAccess(*ia),
                final(self).log@.skip(old(self).log@.len() as int),
                final(self).sview(),
                res_view(r),
            ),
            (r matches Ok(v) ==> v.valid()),
        decreases *ia,
    {
        let ghost s0 = self.sview();
        let ghost l0 = self.log@;
        let ores = self.evaluate(&ia.object);
        let ghost d1 = self.log@.skip(l0.len() as int);
        let ghost s1 = self.sview();
        proof {
            assert(self.log@ =~= l0 + d1);
        }
        let ov = match ores {
            Err(e) => {
                proof {
                    assert forall|rest: Seq<Resp>|
                        (#[trigger] spec_eval(s0, Expr::IndexAccess(*ia), d1 + rest)) == (EvalOut {
                            used: d1.len(),
                            state: s1,
                            outcome: Err(e@),
                        }) by {
                        assert(spec_eval(s0, *ia.object, d1 + rest) == (EvalOut {
                            used: d1.len(),
                            state: s1,
                            outcome: Err(e@),
                        }));
                    }
                }
                return Err(e);
            },
            Ok(v) => v,
        };
        let ghost l1 = self.log@;
        let ires = self.evaluate(&ia.index);
        let ghost d2 = self.log@.skip(l1.len() as int);
        let ghost s2 = self.sview();
        let ghost dt = self.log@.skip(l0.len() as int);
        proof {
            assert(self.log@ =~= l1 + d2);
            assert(dt =~= d1 + d2);
            assert(l0.is_prefix_of(self.log@));
        }
        let iv = match ires {
            Err(e) => {
                proof {
                    assert forall|rest: Seq<Resp>|
                        (#[trigger] spec_eval(s0, Expr::IndexAccess(*ia), dt + rest)) == (EvalOut {
                            used: dt.len(),
                            state: s2,
                            outcome: Err(e@),
                        }) by {
                        assert(dt + rest =~= d1 + (d2 + rest));
                        assert(spec_eval(s0, *ia.object, d1 + (d2 + rest)) == (EvalOut {
                            used: d1.len(),
                            state: s1,
                            outcome: Ok(ov@),
                        }));
                        assert((d1 + (d2 + rest)).skip(d1.len() as int) =~= d2 + rest);
                        assert(spec_eval(s1, *ia.index, d2 + rest) == (EvalOut {
                            used: d2.len(),
                            state: s2,
                            outcome: Err(e@),
                        }));
                    }
                }
                return Err(e);
            },
            Ok(v) => v,
        };
        let out: Result<Value, String> = match &ov {
            Value::Collection(col) => {
                let key = match &iv {
                    Value::Number(n) => Some(crate::value::CKey::Index(crate::num::trunc_bits(*n))),
                    Value::String(s) => Some(crate::value::CKey::String(s.clone())),
                    _ => None,
                };
                match key {
                    None => Err(String::from_str("collection index must be a number or string")),
                    Some(k) => match col.get(&k) {
                        Some(v) => Ok(v.duplicate()),
                        None => Ok(Value::Nil),
                    },
                }
            },
            _ => Err(String::from_str("cannot index into ").concat(ov.kind_name())),
        };
        proof {
            assert forall|rest: Seq<Resp>|
                (#[trigger] spec_eval(s0, Expr::IndexAccess(*ia), dt + rest)) == (EvalOut {
                    used: dt.len(),
                    state: s2,
                    outcome: res_view(out),
                }) by {
                assert(dt + rest =~= d1 + (d2 + rest));
                assert(spec_eval(s0, *ia.object, d1 + (d2 + rest)) == (EvalOut {
                    used: d1.len(),
                    state: s1,
                    outcome: Ok(ov@),
                }));
                assert((d1 + (d2 + rest)).skip(d1.len() as int) =~= d2 + rest);
                assert(spec_eval(s1, *ia.index, d2 + rest) == (EvalOut {
                    used: d2.len(),
                    state: s2,
                    outcome: Ok(iv@),
                }));
            }
        }
        out
    }

    fn exec_fa(&mut self, fa: &FieldAccess) -> (r: Result<Value, String>)
        requires
            old(self).wf(),
        ensures
            final(self).wf(),
            old(self).log@.is_prefix_of(final(self).log@),
            eval_matches(
                old(self).sview(),
                Expr::FieldAccess(*fa),
                final(self).log@.skip(old(self).log@.len() as int),
                final(self).sview(),
                res_view(r),
            ),
            (r matches Ok(v) ==> v.valid()),
        decreases *fa,
    {
        let ghost s0 = self.sview();
        let ghost l0 = self.log@;
        let ores = self.evaluate(&fa.object);
        let ghost d1 = self.log@.skip(l0.len() as int);
        let ghost s1 = self.sview();
        proof {
            assert(self.log@ =~= l0 + d1);
        }
        let ov = match ores {
            Err(e) => {
                proof {
                    assert forall|rest: Seq<Resp>|
                        (#[trigger] spec_eval(s0, Expr::FieldAccess(*fa), d1 + rest)) == (EvalOut {
                            used: d1.len(),
                            state: s1,
                            outcome: Err(e@),
                        }) by {
                        assert(spec_eval(s0, *fa.object, d1 + rest) == (EvalOut {
                            used: d1.len(),
                            state: s1,
                            outcome: Err(e@),
                        }));
                    }
                }
                return Err(e);
            },
            Ok(v) => v,
        };
        let out: Result<Value, String> = match &ov {
            Value::Collection(col) => match col.get_by_string(fa.field.as_str()) {
                Some(v) => Ok(v.duplicate()),
                None => Err(
                    String::from_str("undefined field '").concat(fa.field.as_str()).concat(
                        "'",
                    ),
                ),
            },
            _ => Err(
                String::from_str("cannot access field '").concat(fa.field.as_str()).concat(
                    "' on non object",
                ),
            ),
        };
        proof {
            assert forall|rest: Seq<Resp>|
                (#[trigger] spec_eval(s0, Expr::FieldAccess(*fa), d1 + rest)) == (EvalOut {
                    used: d1.len(),
                    state: s1,
                    outcome: res_view(out),
                }) by {
                assert(spec_eval(s0, *fa.object, d1 + rest) == (EvalOut {
                    used: d1.len(),
                    state: s1,
                    outcome: Ok(ov@),
                }));
            }
        }
        out
    }

    fn exec_import(&mut self, im: &Import) -> (r: Result<Value, String>)
        requires
            old(self).wf(),
        ensures
            final(self).wf(),
            old(self).log@.is_prefix_of(final(self).log@),
            eval_matches(
                old(self).sview(),
                Expr::Import(*im),
                final(self).log@.skip(old(self).log@.len() as int),
                final(self).sview(),
                res_view(r),
            ),
            (r matches Ok(v) ==> v.valid()),
        decreases *im,
    {
        let ghost s0 = self.sview();
        let ghost l0 = self.log@;
        let r = self.load_module(im.module.as_str());
        proof {
            assert(self.log@.skip(l0.len() as int) =~= Seq::<Resp>::empty());
            assert(l0.is_prefix_of(self.log@));
            if s0.mods.contains(im.module@) {
            } else {
                match find_mod(s0.opts, im.module@) {
                    Some(funcs) => {
                        assert(self.sview() == StateView {
                            sigs: add_sigs(s0.sigs, im.module@, funcs),
                            mods: s0.mods.insert(im.module@),
                            ..s0
                        });
                    },
                    None => {},
                }
            }
            assert forall|rest: Seq<Resp>|
                (#[trigger] spec_eval(s0, Expr::Import(*im), Seq::<Resp>::empty() + rest))
                    == (EvalOut { used: 0, state: self.sview(), outcome: res_view(r) }) by {}
        }
        r
    }

    fn exec_collection(&mut self, col: &Collection) -> (r: Result<Value, String>)
        requires
            old(self).wf(),
        ensures
            final(self).wf(),
            old(self).log@.is_prefix_of(final(self).log@),
            eval_matches(
                old(self).sview(),
                Expr::Collection(*col),
                final(self).log@.skip(old(self).log@.len() as int),
                final(self).sview(),
                res_view(r),
            ),
            (r matches Ok(v) ==> v.valid()),
        decreases *col,
    {
        let ghost s0 = self.sview();
        let ghost l0 = self.log@;
        let n = col.entries.len();
        let mut c = crate::value::CValue::new();
        let mut idx: usize = 0;
        let mut i: usize = 0;
        proof {
            assert(self.log@.skip(l0.len() as int) =~= Seq::<Resp>::empty());
            assert forall|rest: Seq<Resp>|
                (#[trigger] spec_eval_entries(s0, col.entries@.take(0), Seq::<Resp>::empty()
                    + rest)) == (EntriesOut {
                    used: 0,
                    state: s0,
                    outcome: Ok((c@.entries, idx as nat)),
                }) by {
                assert(col.entries@.take(0).len() == 0);
            }
        }
        while i < n
            invariant
                self.wf(),
                l0 == old(self).log@,
                s0 == old(self).sview(),
                n == col.entries@.len(),
                0 <= i <= n,
                idx <= i,
                c.valid(),
                c@.size == idx,
                l0.is_prefix_of(self.log@),
                entries_matches(
                    s0,
                    col.entries@.take(i as int),
                    self.log@.skip(l0.len() as int),
                    self.sview(),
                    Ok((c@.entries, idx as nat)),
                ),
            decreases n - i,
        {
            let ghost d_pre = self.log@.skip(l0.len() as int);
            let ghost s_pre = self.sview();
            let ghost l_pre = self.log@;
            let ghost c_pre = c@;
            let ghost idx_pre = idx;
            let inner: &Expr = match &col.entries[i] {
                CEntry::Indexed(x) => x,
                CEntry::Keyed(_, x) => x,
                CEntry::NumKeyed(_, x) => x,
            };
            let res = self.evaluate(inner);
            let ghost d_step = self.log@.skip(l_pre.len() as int);
            let ghost s_now = self.sview();
            proof {
                assert(l_pre =~= l0 + d_pre);
                assert(self.log@ =~= l_pre + d_step);
                assert(self.log@.skip(l0.len() as int) =~= d_pre + d_step);
                assert(l0.is_prefix_of(self.log@));
            }
            match res {
                Err(e) => {
                    proof {
                        let dt = self.log@.skip(l0.len() as int);
                        assert forall|rest: Seq<Resp>|
                            (#[trigger] spec_eval(s0, Expr::Collection(*col), dt + rest))
                                == (EvalOut { used: dt.len(), state: s_now, outcome: Err(e@) })
                            by {
                            lemma_entries_error_suffix(
                                s0,
                                col.entries@,
                                i as int,
                                d_pre,
                                d_step,
                                rest,
                                s_pre,
                                s_now,
                                c_pre.entries,
                                idx_pre as nat,
                                e@,
                            );
                            assert(spec_eval_entries(s0, col.entries@, dt + rest) == (EntriesOut {
                                used: dt.len(),
                                state: s_now,
                                outcome: Err(e@),
                            }));
                        }
                    }
                    return Err(e);
                },
                Ok(v) => {
                    let ghost vv = v@;
                    match &col.entries[i] {
                        CEntry::Indexed(_) => {
                            c.insert(crate::value::CKey::Index(idx), v);
                            idx = idx + 1;
                        },
                        CEntry::Keyed(k, _) => {
                            c.insert(crate::value::CKey::String(k.clone()), v);
                        },
                        CEntry::NumKeyed(b, _) => {
                            c.insert(crate::value::CKey::Number(crate::num::render_number(*b)), v);
                        },
                    }
                    proof {
                        let dt = self.log@.skip(l0.len() as int);
                        assert forall|rest: Seq<Resp>|
                            (#[trigger] spec_eval_entries(s0, col.entries@.take(i + 1), dt + rest))
                                == (EntriesOut {
                                used: dt.len(),
                                state: s_now,
                                outcome: Ok((c@.entries, idx as nat)),
                            }) by {
                            assert(col.entries@.take(i + 1).drop_last() =~= col.entries@.take(
                                i as int,
                            ));
                            assert(col.entries@.take(i + 1).last() == col.entries@[i as int]);
                            assert(dt + rest =~= d_pre + (d_step + rest));
                            assert(spec_eval_entries(
                                s0,
                                col.entries@.take(i as int),
                                d_pre + (d_step + rest),
                            ) == (EntriesOut {
                                used: d_pre.len(),
                                state: s_pre,
                                outcome: Ok((c_pre.entries, idx_pre as nat)),
                            }));
                            assert((d_pre + (d_step + rest)).skip(d_pre.len() as int) =~= d_step
                                + rest);
                            assert(spec_eval(s_pre, *inner, d_step + rest) == (EvalOut {
                                used: d_step.len(),
                                state: s_now,
                                outcome: Ok(vv),
                            }));
                        }
                    }
                    i += 1;
                },
            }
        }
        if idx > 0 {
            c.size = idx;
        }
        let out: Result<Value, String> = Ok(Value::Collection(c));
        proof {
            assert(col.entries@.take(n as int) =~= col.entries@);
            let dt = self.log@.skip(l0.len() as int);
            assert forall|rest: Seq<Resp>|
                (#[trigger] spec_eval(s0, Expr::Collection(*col), dt + rest)) == (EvalOut {
                    used: dt.len(),
                    state: self.sview(),
                    outcome: res_view(out),
                }) by {
                assert(spec_eval_entries(s0, col.entries@, dt + rest) == (EntriesOut {
                    used: dt.len(),
                    state: self.sview(),
                    outcome: Ok((out->Ok_0@->Collection_0.entries, out->Ok_0@->Collection_0.size)),
                }));
            }
        }
        out
    }
}

/// An error while a prefix of a collection literal evaluates makes the
/// whole literal stop with that error.
proof fn lemma_entries_error_suffix(
    s0: StateView,
    es: Seq<CEntry>,
    i: int,
    d_pre: Seq<Resp>,
    d_step: Seq<Resp>,
    rest: Seq<Resp>,
    s_pre: StateView,
    s_now: StateView,
    m: Map<KeyView, ValueView>,
    idx: nat,
    e: Seq<char>,
)
    requires
        0 <= i < es.len(),
        entries_matches(s0, es.take(i), d_pre, s_pre, Ok((m, idx))),
        ({
            let inner = match es[i] {
                CEntry::Indexed(x) => x,
                CEntry::Keyed(_, x) => x,
                CEntry::NumKeyed(_, x) => x,
            };
            eval_matches(s_pre, inner, d_step, s_now, Err(e))
        }),
    ensures
        spec_eval_entries(s0, es, (d_pre + d_step) + rest) == (EntriesOut {
            used: (d_pre + d_step).len(),
            state: s_now,
            outcome: Err(e),
        }),
    decreases es.len() - i,
{
    let resp = (d_pre + d_step) + rest;
    let inner = match es[i] {
        CEntry::Indexed(x) => x,
        CEntry::Keyed(_, x) => x,
        CEntry::NumKeyed(_, x) => x,
    };
    if i == es.len() - 1 {
        assert(es.take(i) =~= es.drop_last());
        assert(resp =~= d_pre + (d_step + rest));
        assert(spec_eval_entries(s0, es.drop_last(), d_pre + (d_step + rest)) == (EntriesOut {
            used: d_pre.len(),
            state: s_pre,
            outcome: Ok((m, idx)),
        }));
        assert(resp.skip(d_pre.len() as int) =~= d_step + rest);
        assert(spec_eval(s_pre, inner, d_step + rest) == (EvalOut {
            used: d_step.len(),
            state: s_now,
            outcome: Err(e),
        }));
    } else {
        assert(es.drop_last().take(i) =~= es.take(i));
        assert(es.drop_last()[i] == es[i]);
        lemma_entries_error_suffix(
            s0,
            es.drop_last(),
            i,
            d_pre,
            d_step,
            rest,
            s_pre,
            s_now,
            m,
            idx,
            e,
        );
        assert(spec_eval_entries(s0, es.drop_last(), resp) == (EntriesOut {
            used: (d_pre + d_step).len(),
            state: s_now,
            outcome: Err(e),
        }));
    }
}

} // verus!

verus! {

/// Arithmetic over two number literals is the IEEE double operation of the
/// contract's arithmetic names, it touches neither the state nor a native
/// function, and division or modulo by an exact zero is the error the
/// language reports — for every state and every right-hand bit pattern.
pub proof fn lemma_binary_literal_arithmetic(
    s: StateView,
    l: u64,
    r: u64,
    op: TokenType,
    resp: Seq<Resp>,
)
    requires
        op == TokenType::Add || op == TokenType::Sub || op == TokenType::Mul || op
            == TokenType::Div || op == TokenType::Mod,
    ensures
        ({
            let e = Expr::BinaryOp(
                BinaryOp {
                    left: Box::new(Expr::Number(l)),
                    right: Box::new(Expr::Number(r)),
                    op,
                },
            );
            let out = spec_eval(s, e, resp);
            &&& out.used == 0
            &&& out.state == s
            &&& out.outcome == (match op {
                TokenType::Add => Ok(ValueView::Number(add_bits(l, r))),
                TokenType::Sub => Ok(ValueView::Number(sub_bits(l, r))),
                TokenType::Mul => Ok(ValueView::Number(mul_bits(l, r))),
                TokenType::Div => if is_zero_bits(r) {
                    Err::<ValueView, Seq<char>>("division by zero"@)
                } else {
                    Ok::<ValueView, Seq<char>>(ValueView::Number(div_bits(l, r)))
                },
                _ => if is_zero_bits(r) {
                    Err::<ValueView, Seq<char>>("modulo by zero"@)
                } else {
                    Ok::<ValueView, Seq<char>>(ValueView::Number(fmod_bits(l, r)))
                },
            })
        }),
{
    let e = Expr::BinaryOp(
        BinaryOp { left: Box::new(Expr::Number(l)), right: Box::new(Expr::Number(r)), op },
    );
    let lo = spec_eval(s, Expr::Number(l), resp);
    assert(lo == EvalOut { used: 0, state: s, outcome: Ok(ValueView::Number(l)) });
    let ro = spec_eval(s, Expr::Number(r), resp.skip(0));
    assert(ro == EvalOut { used: 0, state: s, outcome: Ok(ValueView::Number(r)) });
    assert(spec_eval(s, e, resp).outcome == spec_binop(
        op,
        ValueView::Number(l),
        ValueView::Number(r),
    ));
}

} // verus!

verus! {

/// No native call anywhere in the expression.
pub open spec fn call_free(e: Expr) -> bool
    decreases e,
{
    match e {
        Expr::Number(_) => true,
        Expr::String(_) => true,
        Expr::Identifier(_) => true,
        Expr::Import(_) => true,
        Expr::Call(_) => false,
        Expr::Collection(c) => entries_call_free(c.entries@),
        Expr::IndexAccess(ia) => call_free(*ia.object) && call_free(*ia.index),
        Expr::MethodCall(mc) => list_call_free(mc.args@) && call_free(*mc.object),
        Expr::VarDecl(d) => call_free(*d.value),
        Expr::Assignment(a) => call_free(*a.assignee),
        Expr::BinaryOp(b) => call_free(*b.left) && call_free(*b.right),
        Expr::UnaryOp(u) => call_free(*u.operand),
        Expr::If(i) => call_free(*i.cond) && list_call_free(i.block.exprs@) && (match i
            .else_block {
            Some(eb) => list_call_free(eb.exprs@),
            None => true,
        }),
        Expr::Block(b) => list_call_free(b.exprs@),
        Expr::FieldAccess(fa) => call_free(*fa.object),
    }
}

pub open spec fn list_call_free(es: Seq<Expr>) -> bool
    decreases es,
{
    if es.len() == 0 {
        true
    } else {
        list_call_free(es.drop_last()) && call_free(es.last())
    }
}

pub open spec fn entries_call_free(es: Seq<CEntry>) -> bool
    decreases es,
{
    if es.len() == 0 {
        true
    } else {
        entries_call_free(es.drop_last()) && call_free(
            match es.last() {
                CEntry::Indexed(x) => x,
                CEntry::Keyed(_, x) => x,
                CEntry::NumKeyed(_, x) => x,
            },
        )
    }
}

/// A program without native calls is deterministic: its evaluation
/// consumes no native answer and does not depend on any — the state change
/// and the outcome are a function of the state and the expression alone.
pub proof fn lemma_call_free_deterministic(s: StateView, e: Expr, r1: Seq<Resp>, r2: Seq<Resp>)
    requires
        call_free(e),
    ensures
        spec_eval(s, e, r1) == spec_eval(s, e, r2),
        spec_eval(s, e, r1).used == 0,
    decreases e, 1int,
{
    match e {
        Expr::Number(_) => {},
        Expr::String(_) => {},
        Expr::Identifier(_) => {},
        Expr::Import(_) => {},
        Expr::Call(_) => {},
        Expr::Collection(c) => {
            lemma_entries_call_free_deterministic(s, c.entries@, r1, r2);
        },
        Expr::IndexAccess(ia) => {
            lemma_call_free_deterministic(s, *ia.object, r1, r2);
            let obj = spec_eval(s, *ia.object, r1);
            if obj.outcome is Ok {
                assert(r1.skip(0) =~= r1);
                assert(r2.skip(0) =~= r2);
                lemma_call_free_deterministic(obj.state, *ia.index, r1, r2);
            }
        },
        Expr::MethodCall(mc) => {
            lemma_list_call_free_deterministic(s, mc.args@, r1, r2);
            let pre = spec_eval_list(s, mc.args@, r1);
            if pre.outcome is Ok {
                match *mc.object {
                    Expr::Identifier(_) => {},
                    _ => {
                        assert(r1.skip(0) =~= r1);
                        assert(r2.skip(0) =~= r2);
                        lemma_call_free_deterministic(pre.state, *mc.object, r1, r2);
                    },
                }
            }
        },
        Expr::VarDecl(d) => {
            if !s.vars.contains_key(KeyView::String(d.name@)) {
                lemma_call_free_deterministic(s, *d.value, r1, r2);
            }
        },
        Expr::Assignment(a) => {
            if s.vars.contains_key(KeyView::String(a.name@)) {
                lemma_call_free_deterministic(s, *a.assignee, r1, r2);
            }
        },
        Expr::BinaryOp(b) => {
            lemma_call_free_deterministic(s, *b.left, r1, r2);
            let l = spec_eval(s, *b.left, r1);
            if l.outcome is Ok {
                assert(r1.skip(0) =~= r1);
                assert(r2.skip(0) =~= r2);
                lemma_call_free_deterministic(l.state, *b.right, r1, r2);
            }
        },
        Expr::UnaryOp(u) => {
            lemma_call_free_deterministic(s, *u.operand, r1, r2);
        },
        Expr::If(i) => {
            lemma_call_free_deterministic(s, *i.cond, r1, r2);
            let c = spec_eval(s, *i.cond, r1);
            if c.outcome is Ok {
                assert(r1.skip(0) =~= r1);
                assert(r2.skip(0) =~= r2);
                if spec_truthy(c.outcome->Ok_0) {
                    lemma_block_call_free_deterministic(c.state, i.block, r1, r2);
                } else {
                    match i.else_block {
                        Some(eb) => {
                            lemma_block_call_free_deterministic(c.state, eb, r1, r2);
                        },
                        None => {},
                    }
                }
            }
        },
        Expr::Block(b) => {
            lemma_block_call_free_deterministic(s, b, r1, r2);
        },
        Expr::FieldAccess(fa) => {
            lemma_call_free_deterministic(s, *fa.object, r1, r2);
        },
    }
}

proof fn lemma_block_call_free_deterministic(s: StateView, b: Block, r1: Seq<Resp>, r2: Seq<Resp>)
    requires
        list_call_free(b.exprs@),
    ensures
        spec_eval_block(s, b, r1) == spec_eval_block(s, b, r2),
        spec_eval_block(s, b, r1).used == 0,
    decreases b, 1int,
{
    lemma_list_call_free_deterministic(s, b.exprs@, r1, r2);
}

proof fn lemma_list_call_free_deterministic(
    s: StateView,
    es: Seq<Expr>,
    r1: Seq<Resp>,
    r2: Seq<Resp>,
)
    requires
        list_call_free(es),
    ensures
        spec_eval_list(s, es, r1) == spec_eval_list(s, es, r2),
        spec_eval_list(s, es, r1).used == 0,
    decreases es, 1int,
{
    if es.len() > 0 {
        lemma_list_call_free_deterministic(s, es.drop_last(), r1, r2);
        let pre = spec_eval_list(s, es.drop_last(), r1);
        if pre.outcome is Ok {
            assert(r1.skip(0) =~= r1);
            assert(r2.skip(0) =~= r2);
            lemma_call_free_deterministic(pre.state, es.last(), r1, r2);
        }
    }
}

proof fn lemma_entries_call_free_deterministic(
    s: StateView,
    es: Seq<CEntry>,
    r1: Seq<Resp>,
    r2: Seq<Resp>,
)
    requires
        entries_call_free(es),
    ensures
        spec_eval_entries(s, es, r1) == spec_eval_entries(s, es, r2),
        spec_eval_entries(s, es, r1).used == 0,
    decreases es, 1int,
{
    if es.len() > 0 {
        lemma_entries_call_free_deterministic(s, es.drop_last(), r1, r2);
        let pre = spec_eval_entries(s, es.drop_last(), r1);
        if pre.outcome is Ok {
            assert(r1.skip(0) =~= r1);
            assert(r2.skip(0) =~= r2);
            let inner = match es.last() {
                CEntry::Indexed(x) => x,
                CEntry::Keyed(_, x) => x,
                CEntry::NumKeyed(_, x) => x,
            };
            lemma_call_free_deterministic(pre.state, inner, r1, r2);
        }
    }
}

} // verus!

verus! {

use crate::parser::{sp_parse_all, sp_parse_expr, sp_parse_bin, sp_parse_postfix, sp_parse_prim,
    sp_bin_loop, sp_postfix_loop, PE, PL, clamp, tt, lx, Toks};
use crate::lexer::{plain_digits, spec_tokens, lemma_plain_digits_lex};
use crate::ast::ExprS;
use crate::num::number_of_literal;

/// The display of a finite number evaluates back to the same number. A
/// plain decimal numeral — which `render_number` guarantees the display of
/// every finite non-negative double to be — lexes as one number literal,
/// parses as the number expression holding the bits that numeral denotes,
/// and evaluates to exactly that number, in any state.
pub proof fn lemma_number_display_round_trip(st: StateView, s: Seq<char>, resp: Seq<Resp>)
    requires
        plain_digits(s),
    ensures
        spec_tokens(s, 0) == seq![(TokenType::Number, s)],
        ({
            let parsed = sp_parse_all(spec_tokens(s, 0), 0);
            parsed.out == Ok::<Seq<ExprS>, Seq<char>>(
                seq![ExprS::Number(number_of_literal(s))],
            ) && parsed.pos == 1
        }),
        spec_eval(st, Expr::Number(number_of_literal(s)), resp) == (EvalOut {
            used: 0,
            state: st,
            outcome: Ok(ValueView::Number(number_of_literal(s))),
        }),
{
    lemma_plain_digits_lex(s);
    let toks: Toks = spec_tokens(s, 0);
    assert(toks.len() == 1);
    assert(tt(toks, 0) == TokenType::Number && lx(toks, 0) == s);
    assert(tt(toks, 1) == TokenType::Eof);
    let e = ExprS::Number(number_of_literal(s));
    assert(sp_parse_prim(toks, 0) == (PE { out: Ok(e), pos: 1 }));
    assert(sp_postfix_loop(toks, 1, e) == (PE { out: Ok(e), pos: 1 }));
    assert(clamp(1, 1, 1) == 1);
    assert(sp_parse_postfix(toks, 0) == (PE { out: Ok(e), pos: 1 }));
    assert(sp_bin_loop(toks, 1, e, 0) == (PE { out: Ok(e), pos: 1 }));
    assert(sp_parse_bin(toks, 0, 0) == (PE { out: Ok(e), pos: 1 }));
    assert(sp_parse_expr(toks, 0) == (PE { out: Ok(e), pos: 1 }));
    assert(sp_parse_all(toks, 1) == (PL { out: Ok(Seq::<ExprS>::empty()), pos: 1 }));
    assert(sp_parse_all(toks, 0) == (PL {
        out: Ok(seq![e] + Seq::<ExprS>::empty()),
        pos: 1,
    }));
    assert(seq![e] + Seq::<ExprS>::empty() =~= seq![e]);
}

} // verus!
