//! The tree-walking evaluator and its environment.
//!
//! Values evaluate to themselves, a symbol to its most recent binding (or
//! the sentinel when unbound), and an operation by resolving its operator:
//! a built-in form name dispatches to the form, a bound symbol retries with
//! the bound value, and a list value indexes. Side effects (bindings,
//! output) take hold immediately and survive a later failure. Loops and
//! operator resolution run against a budget so large it never ends an
//! honest run; the semantics below carries that budget explicitly.

use vstd::prelude::*;

use crate::ast::{render_ast, Ast, SpecAst};
use crate::num::{num_le, render_spec, spec_add, Num};

verus! {

/// A binding environment in spec form: name and value, oldest first.
pub type Env = Seq<(Seq<char>, SpecAst)>;

/// The environment and the output stream of one session. The variable list
/// only ever grows: `set` appends and never overwrites.
pub struct State {
    pub variables: Vec<(String, Ast)>,
    pub output: Vec<char>,
}

/// The value of `name`: the most recently appended binding, or the
/// sentinel when none matches.
pub open spec fn lookup(env: Env, name: Seq<char>) -> SpecAst
    decreases env.len(),
{
    if env.len() == 0 {
        SpecAst::Empty
    } else if env.last().0 == name {
        env.last().1
    } else {
        lookup(env.drop_last(), name)
    }
}

impl State {
    /// A fresh session: no bindings, no output.
    pub fn new() -> (s: Self)
        ensures
            s.variables.deep_view() == Seq::<(Seq<char>, SpecAst)>::empty(),
            s.output@ == Seq::<char>::empty(),
    {
        let s = State { variables: Vec::new(), output: Vec::new() };
        proof {
            assert(s.variables.deep_view() =~= Seq::<(Seq<char>, SpecAst)>::empty());
        }
        s
    }

    /// The value of a variable, or the sentinel `Ast::Empty`.
    #[verifier::loop_isolation(false)]
    pub fn get(&self, symbol: &String) -> (r: Ast)
        ensures
            r@ == lookup(self.variables.deep_view(), symbol@),
    {
        let ghost env = self.variables.deep_view();
        let mut i = self.variables.len();
        proof {
            assert(env.take(i as int) =~= env);
        }
        while i > 0
            invariant
                i <= self.variables.len(),
                lookup(env, symbol@) == lookup(env.take(i as int), symbol@),
            decreases i,
        {
            i = i - 1;
            let hit = self.variables[i].0 == *symbol;
            proof {
                assert(env.take(i as int + 1).last() == env[i as int]);
                assert(env.take(i as int + 1).drop_last() =~= env.take(i as int));
                assert(env[i as int].0 == self.variables@[i as int].0@);
            }
            if hit {
                let r = crate::ast::deep_copy(&self.variables[i].1);
                proof {
                    assert(env[i as int].1 == self.variables@[i as int].1@);
                }
                return r;
            }
        }
        proof {
            assert(env.take(0) =~= Seq::<(Seq<char>, SpecAst)>::empty());
        }
        Ast::Empty
    }

    /// Append a binding; older bindings of the same name are only shadowed.
    pub fn set(&mut self, symbol: String, value: Ast)
        ensures
            final(self).variables.deep_view() == old(self).variables.deep_view().push(
                (symbol@, value@),
            ),
            final(self).output@ == old(self).output@,
    {
        let ghost prev = self.variables.deep_view();
        let ghost sv = symbol@;
        let ghost vv = value@;
        self.variables.push((symbol, value));
        proof {
            assert(self.variables.deep_view() =~= prev.push((sv, vv)));
        }
    }
}

/// An evaluation failure.
#[derive(Debug, Clone, Copy, PartialEq, Eq, Structural)]
pub enum RuntimeError {
    /// An operand had a type the form cannot take.
    TypeMismatch,
    /// A symbol in operator position has no binding.
    UndefinedSymbol,
    /// The operator resolved to nothing callable.
    UnknownOperator,
    /// `var` was handed a first operand that is no symbol.
    ExpectedSymbol,
    /// A form was handed too few or too many operands.
    WrongOperandCount,
    /// An index with a fractional part.
    NotAnInteger,
    /// An index below zero.
    NegativeIndex,
    /// An index at or past the end of the list.
    IndexOutOfRange,
    /// An exact sum left the machine range of the number type.
    NumberOverflow,
    /// The loop budget of the session ran out.
    LoopLimitReached,
}

/// What one evaluation yields: a value or a failure.
pub enum EvalRes {
    Val(SpecAst),
    Fail(RuntimeError),
}

/// An evaluation outcome together with the state it leaves behind.
pub struct EvalStep {
    pub res: EvalRes,
    pub env: Env,
    pub out: Seq<char>,
}

/// The built-in form a symbol may name.
#[derive(Debug, Clone, Copy, PartialEq, Eq, Structural)]
pub enum BuiltinSym {
    Plus,
    Less,
    While,
    Print,
    Var,
    Other,
}

/// Which built-in form the symbol text names, if any.
pub open spec fn builtin_sym(t: Seq<char>) -> BuiltinSym {
    if t == "+"@ {
        BuiltinSym::Plus
    } else if t == "<"@ {
        BuiltinSym::Less
    } else if t == "while"@ {
        BuiltinSym::While
    } else if t == "print"@ {
        BuiltinSym::Print
    } else if t == "var"@ {
        BuiltinSym::Var
    } else {
        BuiltinSym::Other
    }
}

/// What an operator position resolves to.
pub enum Resolved {
    Plus,
    Less,
    While,
    Print,
    Var,
    IndexList(Seq<SpecAst>),
    Undefined,
    Unknown,
}

/// Resolve an operator: a built-in name dispatches; a symbol bound to a
/// value retries with that value, at most `steps` times (a longer chain
/// must revisit a symbol and could never resolve); a list indexes; all else
/// is unknown.
pub open spec fn resolve_op(op: SpecAst, env: Env, steps: nat) -> Resolved
    decreases steps,
{
    match op {
        SpecAst::Symbol(s) => {
            let b = builtin_sym(s);
            if b == BuiltinSym::Plus {
                Resolved::Plus
            } else if b == BuiltinSym::Less {
                Resolved::Less
            } else if b == BuiltinSym::While {
                Resolved::While
            } else if b == BuiltinSym::Print {
                Resolved::Print
            } else if b == BuiltinSym::Var {
                Resolved::Var
            } else {
                let v = lookup(env, s);
                if v == SpecAst::Empty {
                    Resolved::Undefined
                } else if steps == 0 {
                    Resolved::Unknown
                } else {
                    resolve_op(v, env, (steps - 1) as nat)
                }
            }
        },
        SpecAst::List(items) => Resolved::IndexList(items),
        _ => Resolved::Unknown,
    }
}

/// Evaluate one expression. `fuel` bounds loop iterations across the whole
/// evaluation; every other step is structural.
pub open spec fn eval_spec(e: SpecAst, env: Env, out: Seq<char>, fuel: nat) -> EvalStep
    decreases fuel, e, 0int,
{
    match e {
        SpecAst::Symbol(s) => EvalStep { res: EvalRes::Val(lookup(env, s)), env, out },
        SpecAst::Operation { operator, operands } => {
            match resolve_op(*operator, env, env.len() + 1) {
                Resolved::Plus => eval_plus(
                    operands,
                    0,
                    false,
                    false,
                    crate::num::spec_num(0, 0),
                    Seq::empty(),
                    env,
                    out,
                    fuel,
                ),
                Resolved::Less => {
                    if operands.len() == 0 {
                        EvalStep { res: EvalRes::Val(SpecAst::Boolean(true)), env, out }
                    } else {
                        let c = eval_spec(operands[0], env, out, fuel);
                        match c.res {
                            EvalRes::Fail(_) => c,
                            EvalRes::Val(v) => match v {
                                SpecAst::Number(n) => eval_less(
                                    operands,
                                    1,
                                    n,
                                    c.env,
                                    c.out,
                                    fuel,
                                ),
                                _ => EvalStep {
                                    res: EvalRes::Fail(RuntimeError::TypeMismatch),
                                    env: c.env,
                                    out: c.out,
                                },
                            },
                        }
                    }
                },
                Resolved::While => {
                    if operands.len() == 0 {
                        EvalStep { res: EvalRes::Fail(RuntimeError::WrongOperandCount), env, out }
                    } else {
                        eval_while(operands, env, out, fuel)
                    }
                },
                Resolved::Print => eval_print(operands, 0, env, out, fuel),
                Resolved::Var => eval_var(operands, env, out, fuel),
                Resolved::IndexList(items) => eval_index(items, operands, env, out, fuel),
                Resolved::Undefined => EvalStep {
                    res: EvalRes::Fail(RuntimeError::UndefinedSymbol),
                    env,
                    out,
                },
                Resolved::Unknown => EvalStep {
                    res: EvalRes::Fail(RuntimeError::UnknownOperator),
                    env,
                    out,
                },
            }
        },
        _ => EvalStep { res: EvalRes::Val(e), env, out },
    }
}

/// The `+` form: numeric accumulation that switches for good to string
/// concatenation at the first string operand, flushing any numeric total
/// gathered so far.
pub open spec fn eval_plus(
    ops: Seq<SpecAst>,
    i: int,
    numbered: bool,
    strmode: bool,
    nacc: Num,
    sacc: Seq<char>,
    env: Env,
    out: Seq<char>,
    fuel: nat,
) -> EvalStep
    decreases fuel, ops, ops.len() - i,
{
    if i < 0 || i >= ops.len() {
        EvalStep {
            res: EvalRes::Val(
                if strmode {
                    SpecAst::Str(sacc)
                } else {
                    SpecAst::Number(nacc)
                },
            ),
            env,
            out,
        }
    } else {
        let c = eval_spec(ops[i], env, out, fuel);
        match c.res {
            EvalRes::Fail(_) => c,
            EvalRes::Val(v) => match v {
                SpecAst::Number(n) => {
                    if strmode {
                        eval_plus(
                            ops,
                            i + 1,
                            numbered,
                            true,
                            nacc,
                            sacc + render_spec(n),
                            c.env,
                            c.out,
                            fuel,
                        )
                    } else {
                        match spec_add(nacc, n) {
                            Some(n2) => eval_plus(ops, i + 1, true, false, n2, sacc, c.env, c.out, fuel),
                            None => EvalStep {
                                res: EvalRes::Fail(RuntimeError::NumberOverflow),
                                env: c.env,
                                out: c.out,
                            },
                        }
                    }
                },
                SpecAst::Str(s) => {
                    if strmode {
                        eval_plus(ops, i + 1, numbered, true, nacc, sacc + s, c.env, c.out, fuel)
                    } else {
                        let flushed = if numbered {
                            render_spec(nacc) + s
                        } else {
                            s
                        };
                        eval_plus(ops, i + 1, numbered, true, nacc, flushed, c.env, c.out, fuel)
                    }
                },
                _ => EvalStep {
                    res: EvalRes::Fail(RuntimeError::TypeMismatch),
                    env: c.env,
                    out: c.out,
                },
            },
        }
    }
}

/// The `<` form from the second operand on: each evaluated number must
/// strictly exceed the previous one; the first offender yields `false` at
/// once, leaving the rest unevaluated.
pub open spec fn eval_less(
    ops: Seq<SpecAst>,
    i: int,
    last: Num,
    env: Env,
    out: Seq<char>,
    fuel: nat,
) -> EvalStep
    decreases fuel, ops, ops.len() - i,
{
    if i < 0 || i >= ops.len() {
        EvalStep { res: EvalRes::Val(SpecAst::Boolean(true)), env, out }
    } else {
        let c = eval_spec(ops[i], env, out, fuel);
        match c.res {
            EvalRes::Fail(_) => c,
            EvalRes::Val(v) => match v {
                SpecAst::Number(n) => {
                    if num_le(n, last) {
                        EvalStep { res: EvalRes::Val(SpecAst::Boolean(false)), env: c.env, out: c.out }
                    } else {
                        eval_less(ops, i + 1, n, c.env, c.out, fuel)
                    }
                },
                _ => EvalStep {
                    res: EvalRes::Fail(RuntimeError::TypeMismatch),
                    env: c.env,
                    out: c.out,
                },
            },
        }
    }
}

/// The body of a `while` iteration: the operands after the condition,
/// evaluated in order for their effects alone.
pub open spec fn eval_body(ops: Seq<SpecAst>, i: int, env: Env, out: Seq<char>, fuel: nat) -> EvalStep
    decreases fuel, ops, ops.len() - i,
{
    if i < 0 || i >= ops.len() {
        EvalStep { res: EvalRes::Val(SpecAst::Empty), env, out }
    } else {
        let c = eval_spec(ops[i], env, out, fuel);
        match c.res {
            EvalRes::Fail(_) => c,
            EvalRes::Val(_) => eval_body(ops, i + 1, c.env, c.out, fuel),
        }
    }
}

/// The `while` form: the first operand is re-evaluated before every
/// iteration and anything but `false` continues the loop; each iteration
/// spends one unit of the budget.
pub open spec fn eval_while(ops: Seq<SpecAst>, env: Env, out: Seq<char>, fuel: nat) -> EvalStep
    decreases fuel, ops, 0int,
{
    if fuel == 0 {
        EvalStep { res: EvalRes::Fail(RuntimeError::LoopLimitReached), env, out }
    } else {
        let c = eval_spec(ops[0], env, out, (fuel - 1) as nat);
        match c.res {
            EvalRes::Fail(_) => c,
            EvalRes::Val(v) => {
                if v == SpecAst::Boolean(false) {
                    EvalStep { res: EvalRes::Val(SpecAst::Empty), env: c.env, out: c.out }
                } else {
                    let b = eval_body(ops, 1, c.env, c.out, (fuel - 1) as nat);
                    match b.res {
                        EvalRes::Fail(_) => b,
                        EvalRes::Val(_) => eval_while(ops, b.env, b.out, (fuel - 1) as nat),
                    }
                }
            },
        }
    }
}

/// The `print` form: each operand's value is rendered with nothing between
/// the pieces, and one line break follows them all; a failure forfeits the
/// line break.
pub open spec fn eval_print(ops: Seq<SpecAst>, i: int, env: Env, out: Seq<char>, fuel: nat) -> EvalStep
    decreases fuel, ops, ops.len() - i,
{
    if i < 0 || i >= ops.len() {
        EvalStep { res: EvalRes::Val(SpecAst::Empty), env, out: out.push('\n') }
    } else {
        let c = eval_spec(ops[i], env, out, fuel);
        match c.res {
            EvalRes::Fail(_) => c,
            EvalRes::Val(v) => eval_print(ops, i + 1, c.env, c.out + render_ast(v), fuel),
        }
    }
}

/// The `var` form: the first operand must already be a symbol and is not
/// evaluated; the second is, and the pair is appended to the environment;
/// the assigned value is returned. Extra operands are ignored.
pub open spec fn eval_var(ops: Seq<SpecAst>, env: Env, out: Seq<char>, fuel: nat) -> EvalStep
    decreases fuel, ops, 1int,
{
    if ops.len() < 2 {
        EvalStep { res: EvalRes::Fail(RuntimeError::WrongOperandCount), env, out }
    } else {
        match ops[0] {
            SpecAst::Symbol(name) => {
                let c = eval_spec(ops[1], env, out, fuel);
                match c.res {
                    EvalRes::Fail(_) => c,
                    EvalRes::Val(v) => EvalStep {
                        res: EvalRes::Val(v),
                        env: c.env.push((name, v)),
                        out: c.out,
                    },
                }
            },
            _ => EvalStep { res: EvalRes::Fail(RuntimeError::ExpectedSymbol), env, out },
        }
    }
}

/// Whether an exec result and the state left behind are the ones a spec
/// step names.
pub open spec fn agrees(r: Result<Ast, RuntimeError>, st: State, step: EvalStep) -> bool {
    &&& st.variables.deep_view() == step.env
    &&& st.output@ == step.out
    &&& match r {
        Ok(a) => step.res == EvalRes::Val(a@),
        Err(e) => step.res == EvalRes::Fail(e),
    }
}

/// Indexing: exactly one operand, evaluated to a whole non-negative number
/// below the list's length; the stored element comes back unchanged.
pub open spec fn eval_index(
    items: Seq<SpecAst>,
    ops: Seq<SpecAst>,
    env: Env,
    out: Seq<char>,
    fuel: nat,
) -> EvalStep
    decreases fuel, ops, 1int,
{
    if ops.len() != 1 {
        EvalStep { res: EvalRes::Fail(RuntimeError::WrongOperandCount), env, out }
    } else {
        let c = eval_spec(ops[0], env, out, fuel);
        match c.res {
            EvalRes::Fail(_) => c,
            EvalRes::Val(v) => match v {
                SpecAst::Number(n) => {
                    if n.scale() > 0 {
                        EvalStep { res: EvalRes::Fail(RuntimeError::NotAnInteger), env: c.env, out: c.out }
                    } else if n.mantissa() < 0 {
                        EvalStep { res: EvalRes::Fail(RuntimeError::NegativeIndex), env: c.env, out: c.out }
                    } else if n.mantissa() >= items.len() {
                        EvalStep { res: EvalRes::Fail(RuntimeError::IndexOutOfRange), env: c.env, out: c.out }
                    } else {
                        EvalStep { res: EvalRes::Val(items[n.mantissa()]), env: c.env, out: c.out }
                    }
                },
                _ => EvalStep {
                    res: EvalRes::Fail(RuntimeError::TypeMismatch),
                    env: c.env,
                    out: c.out,
                },
            },
        }
    }
}


// ---------------------------------------------------------------------------
// The executable evaluator.
// ---------------------------------------------------------------------------
/// The loop budget of a session: so many iterations that no honest run
/// ends by exhausting it.
pub const LOOP_BUDGET: u64 = 0xffff_ffff_ffff_ffff;

fn builtin_sym_of(s: &String) -> (b: BuiltinSym)
    ensures
        b == builtin_sym(s@),
{
    let cs = crate::tokenizer::str_to_chars(s.as_str());
    let b = if cs.len() == 1 && cs[0] == '+' {
        BuiltinSym::Plus
    } else if cs.len() == 1 && cs[0] == '<' {
        BuiltinSym::Less
    } else if cs.len() == 5 && cs[0] == 'w' && cs[1] == 'h' && cs[2] == 'i' && cs[3] == 'l'
        && cs[4] == 'e' {
        BuiltinSym::While
    } else if cs.len() == 5 && cs[0] == 'p' && cs[1] == 'r' && cs[2] == 'i' && cs[3] == 'n'
        && cs[4] == 't' {
        BuiltinSym::Print
    } else if cs.len() == 3 && cs[0] == 'v' && cs[1] == 'a' && cs[2] == 'r' {
        BuiltinSym::Var
    } else {
        BuiltinSym::Other
    };
    proof {
        reveal_strlit("+");
        reveal_strlit("<");
        reveal_strlit("while");
        reveal_strlit("print");
        reveal_strlit("var");
        assert((cs@.len() == 1 && cs@[0] == '+') == (s@ == "+"@)) by {
            if cs@.len() == 1 && cs@[0] == '+' {
                assert(s@ =~= "+"@);
            }
        }
        assert((cs@.len() == 1 && cs@[0] == '<') == (s@ == "<"@)) by {
            if cs@.len() == 1 && cs@[0] == '<' {
                assert(s@ =~= "<"@);
            }
        }
        assert((cs@.len() == 5 && cs@[0] == 'w' && cs@[1] == 'h' && cs@[2] == 'i' && cs@[3] == 'l'
            && cs@[4] == 'e') == (s@ == "while"@)) by {
            if cs@.len() == 5 && cs@[0] == 'w' && cs@[1] == 'h' && cs@[2] == 'i' && cs@[3] == 'l'
                && cs@[4] == 'e' {
                assert(s@ =~= "while"@);
            }
        }
        assert((cs@.len() == 5 && cs@[0] == 'p' && cs@[1] == 'r' && cs@[2] == 'i' && cs@[3] == 'n'
            && cs@[4] == 't') == (s@ == "print"@)) by {
            if cs@.len() == 5 && cs@[0] == 'p' && cs@[1] == 'r' && cs@[2] == 'i' && cs@[3] == 'n'
                && cs@[4] == 't' {
                assert(s@ =~= "print"@);
            }
        }
        assert((cs@.len() == 3 && cs@[0] == 'v' && cs@[1] == 'a' && cs@[2] == 'r') == (s@
            == "var"@)) by {
            if cs@.len() == 3 && cs@[0] == 'v' && cs@[1] == 'a' && cs@[2] == 'r' {
                assert(s@ =~= "var"@);
            }
        }
    }
    b
}

/// Evaluate with an explicit budget; the result and the state afterwards
/// are exactly what `eval_spec` says.
#[verifier::loop_isolation(false)]
fn eval_fuel(ast: &Ast, state: &mut State, fuel: u64) -> (r: Result<Ast, RuntimeError>)
    ensures
        agrees(
            r,
            *final(state),
            eval_spec(ast@, old(state).variables.deep_view(), old(state).output@, fuel as nat),
        ),
    decreases fuel, ast@, 1int,
{
    let ghost env0 = state.variables.deep_view();
    let ghost out0 = state.output@;
    match ast {
        Ast::Symbol(s) => {
            let r = state.get(s);
            proof {
                assert(eval_spec(ast@, env0, out0, fuel as nat) == EvalStep {
                    res: EvalRes::Val(lookup(env0, s@)),
                    env: env0,
                    out: out0,
                });
            }
            Ok(r)
        },
        Ast::Operation { operator, operands } => {
            let ghost opsv = operands.deep_view();
            let ghost op0v = (**operator)@;
            proof {
                crate::ast::lemma_asts_view(*operands);
                assert(ast@->Operation_operands == opsv);
                assert(*ast@->Operation_operator == op0v);
            }
            let ghost steps0 = (env0.len() + 1) as nat;
            let mut cur: Ast = crate::ast::deep_copy(operator);
            let mut steps: u128 = (state.variables.len() as u128) + 1;
            proof {
                assert(steps as nat == steps0);
            }
            loop
                invariant
                    resolve_op(op0v, env0, steps0) == resolve_op(cur@, env0, steps as nat),
                    state.variables.deep_view() == env0,
                    state.output@ == out0,
                decreases steps,
            {
                let take_sym = match &cur {
                    Ast::Symbol(_) => true,
                    _ => false,
                };
                if take_sym {
                    let s = match cur {
                        Ast::Symbol(s) => s,
                        _ => { return Err(RuntimeError::UnknownOperator) },
                    };
                    let b = builtin_sym_of(&s);
                    match b {
                        BuiltinSym::Plus => {
                            proof {
                                assert(resolve_op(op0v, env0, steps0) == Resolved::Plus);
                                assert(eval_spec(ast@, env0, out0, fuel as nat) == eval_plus(
                                    opsv,
                                    0,
                                    false,
                                    false,
                                    crate::num::spec_num(0, 0),
                                    Seq::empty(),
                                    env0,
                                    out0,
                                    fuel as nat,
                                ));
                            }
                            return plus_loop(operands, state, fuel);
                        },
                        BuiltinSym::Less => {
                            proof {
                                assert(resolve_op(op0v, env0, steps0) == Resolved::Less);
                            }
                            if operands.len() == 0 {
                                proof {
                                    assert(eval_spec(ast@, env0, out0, fuel as nat) == EvalStep {
                                        res: EvalRes::Val(SpecAst::Boolean(true)),
                                        env: env0,
                                        out: out0,
                                    });
                                }
                                return Ok(Ast::Boolean(true));
                            }
                            proof {
                                assert(decreases_to!(ast@ => ast@->Operation_operands));
                                assert(decreases_to!(opsv => opsv[0]));
                                assert(opsv[0] == operands@[0]@);
                            }
                            let ghost s1 = eval_spec(opsv[0], env0, out0, fuel as nat);
                            let c = eval_fuel(&operands[0], state, fuel);
                            match c {
                                Err(e) => {
                                    proof {
                                        assert(eval_spec(ast@, env0, out0, fuel as nat) == s1);
                                    }
                                    return Err(e);
                                },
                                Ok(v) => {
                                    match v {
                                        Ast::Number(n) => {
                                            proof {
                                                assert(eval_spec(ast@, env0, out0, fuel as nat)
                                                    == eval_less(opsv, 1, n, s1.env, s1.out,
                                                    fuel as nat));
                                            }
                                            return less_loop(operands, n, state, fuel);
                                        },
                                        _ => {
                                            proof {
                                                assert(eval_spec(ast@, env0, out0, fuel as nat)
                                                    == (EvalStep {
                                                    res: EvalRes::Fail(RuntimeError::TypeMismatch),
                                                    env: s1.env,
                                                    out: s1.out,
                                                }));
                                            }
                                            return Err(RuntimeError::TypeMismatch);
                                        },
                                    }
                                },
                            }
                        },
                        BuiltinSym::While => {
                            proof {
                                assert(resolve_op(op0v, env0, steps0) == Resolved::While);
                            }
                            if operands.len() == 0 {
                                proof {
                                    assert(eval_spec(ast@, env0, out0, fuel as nat) == EvalStep {
                                        res: EvalRes::Fail(RuntimeError::WrongOperandCount),
                                        env: env0,
                                        out: out0,
                                    });
                                }
                                return Err(RuntimeError::WrongOperandCount);
                            }
                            proof {
                                assert(eval_spec(ast@, env0, out0, fuel as nat) == eval_while(
                                    opsv,
                                    env0,
                                    out0,
                                    fuel as nat,
                                ));
                            }
                            return while_loop(operands, state, fuel);
                        },
                        BuiltinSym::Print => {
                            proof {
                                assert(resolve_op(op0v, env0, steps0) == Resolved::Print);
                                assert(eval_spec(ast@, env0, out0, fuel as nat) == eval_print(
                                    opsv,
                                    0,
                                    env0,
                                    out0,
                                    fuel as nat,
                                ));
                            }
                            return print_loop(operands, state, fuel);
                        },
                        BuiltinSym::Var => {
                            proof {
                                assert(resolve_op(op0v, env0, steps0) == Resolved::Var);
                            }
                            proof {
                                assert(eval_spec(ast@, env0, out0, fuel as nat) == eval_var(
                                    opsv,
                                    env0,
                                    out0,
                                    fuel as nat,
                                ));
                            }
                            if operands.len() < 2 {
                                return Err(RuntimeError::WrongOperandCount);
                            }
                            let take_name = match &operands[0] {
                                Ast::Symbol(_) => true,
                                _ => false,
                            };
                            if !take_name {
                                proof {
                                    assert(opsv[0] == operands@[0]@);
                                }
                                return Err(RuntimeError::ExpectedSymbol);
                            }
                            proof {
                                assert(decreases_to!(ast@ => ast@->Operation_operands));
                                assert(decreases_to!(opsv => opsv[1]));
                                assert(opsv[1] == operands@[1]@);
                            }
                            let ghost s1 = eval_spec(opsv[1], env0, out0, fuel as nat);
                            let c = eval_fuel(&operands[1], state, fuel);
                            match c {
                                Err(e) => {
                                    return Err(e);
                                },
                                Ok(v) => {
                                    let name: String = match &operands[0] {
                                        Ast::Symbol(nm) => nm.clone(),
                                        _ => {
                                            return Err(RuntimeError::ExpectedSymbol);
                                        },
                                    };
                                    let stored = crate::ast::deep_copy(&v);
                                    proof {
                                        assert(opsv[0] == operands@[0]@);
                                        assert(opsv[0]->Symbol_0 == name@);
                                    }
                                    state.set(name, stored);
                                    return Ok(v);
                                },
                            }
                        },
                        BuiltinSym::Other => {
                            let v = state.get(&s);
                            let is_empty = match &v {
                                Ast::Empty => true,
                                _ => false,
                            };
                            if is_empty {
                                proof {
                                    assert(resolve_op(op0v, env0, steps0)
                                        == Resolved::Undefined);
                                    assert(eval_spec(ast@, env0, out0, fuel as nat) == EvalStep {
                                        res: EvalRes::Fail(RuntimeError::UndefinedSymbol),
                                        env: env0,
                                        out: out0,
                                    });
                                }
                                return Err(RuntimeError::UndefinedSymbol);
                            }
                            if steps == 0 {
                                proof {
                                    assert(resolve_op(op0v, env0, steps0) == Resolved::Unknown);
                                    assert(eval_spec(ast@, env0, out0, fuel as nat) == EvalStep {
                                        res: EvalRes::Fail(RuntimeError::UnknownOperator),
                                        env: env0,
                                        out: out0,
                                    });
                                }
                                return Err(RuntimeError::UnknownOperator);
                            }
                            steps = steps - 1;
                            cur = v;
                        },
                    }
                } else {
                    let take_list = match &cur {
                        Ast::List(_) => true,
                        _ => false,
                    };
                    if take_list {
                        let items = match cur {
                            Ast::List(items) => items,
                            _ => { return Err(RuntimeError::UnknownOperator) },
                        };
                        let ghost itemsv = items.deep_view();
                        proof {
                            crate::ast::lemma_asts_view(items);
                            assert(resolve_op(op0v, env0, steps0) == Resolved::IndexList(itemsv));
                        }
                        proof {
                            assert(eval_spec(ast@, env0, out0, fuel as nat) == eval_index(
                                itemsv,
                                opsv,
                                env0,
                                out0,
                                fuel as nat,
                            ));
                        }
                        if operands.len() != 1 {
                            return Err(RuntimeError::WrongOperandCount);
                        }
                        proof {
                            assert(decreases_to!(ast@ => ast@->Operation_operands));
                            assert(decreases_to!(opsv => opsv[0]));
                            assert(opsv[0] == operands@[0]@);
                        }
                        let c = eval_fuel(&operands[0], state, fuel);
                        match c {
                            Err(e) => {
                                return Err(e);
                            },
                            Ok(v) => {
                                match v {
                                    Ast::Number(n) => {
                                        if !n.is_integer() {
                                            return Err(RuntimeError::NotAnInteger);
                                        }
                                        if n.is_negative() {
                                            return Err(RuntimeError::NegativeIndex);
                                        }
                                        let idx = n.int_value();
                                        if (idx as u64) >= (items.len() as u64) {
                                            return Err(RuntimeError::IndexOutOfRange);
                                        }
                                        let elem = crate::ast::deep_copy(&items[idx as usize]);
                                        proof {
                                            assert(itemsv[n.mantissa()] == items@[idx as int]@);
                                        }
                                        return Ok(elem);
                                    },
                                    _ => {
                                        return Err(RuntimeError::TypeMismatch);
                                    },
                                }
                            },
                        }
                    }
                    proof {
                        assert(resolve_op(op0v, env0, steps0) == Resolved::Unknown);
                        assert(eval_spec(ast@, env0, out0, fuel as nat) == EvalStep {
                            res: EvalRes::Fail(RuntimeError::UnknownOperator),
                            env: env0,
                            out: out0,
                        });
                    }
                    return Err(RuntimeError::UnknownOperator);
                }
            }
        },
        _ => {
            let r = crate::ast::deep_copy(ast);
            proof {
                assert(eval_spec(ast@, env0, out0, fuel as nat) == EvalStep {
                    res: EvalRes::Val(ast@),
                    env: env0,
                    out: out0,
                });
            }
            Ok(r)
        },
    }
}

/// The `+` form, operand by operand.
#[verifier::loop_isolation(false)]
fn plus_loop(operands: &Vec<Ast>, state: &mut State, fuel: u64) -> (r: Result<Ast, RuntimeError>)
    ensures
        agrees(
            r,
            *final(state),
            eval_plus(
                operands.deep_view(),
                0,
                false,
                false,
                crate::num::spec_num(0, 0),
                Seq::empty(),
                old(state).variables.deep_view(),
                old(state).output@,
                fuel as nat,
            ),
        ),
    decreases fuel, operands.deep_view(), 2int,
{
    let ghost opsv = operands.deep_view();
    let ghost env0 = state.variables.deep_view();
    let ghost out0 = state.output@;
    let mut numbered = false;
    let mut strmode = false;
    let mut nacc = Num::zero();
    let mut sacc: Vec<char> = Vec::new();
    let mut i: usize = 0;
    proof {
        assert(sacc@ =~= Seq::<char>::empty());
        crate::num::lemma_spec_num_model(0, 0);
        crate::num::lemma_num_eq(nacc, crate::num::spec_num(0, 0));
    }
    while i < operands.len()
        invariant
            i <= operands@.len(),
            !strmode ==> sacc@ == Seq::<char>::empty(),
            eval_plus(opsv, 0, false, false, crate::num::spec_num(0, 0), Seq::empty(), env0, out0,
                fuel as nat) == eval_plus(opsv, i as int, numbered, strmode, nacc, sacc@,
                state.variables.deep_view(), state.output@, fuel as nat),
        decreases operands@.len() - i,
    {
        proof {
            assert(decreases_to!(opsv => opsv[i as int]));
            assert(opsv[i as int] == operands@[i as int]@);
        }
        let ghost envi = state.variables.deep_view();
        let ghost outi = state.output@;
        let ghost numbered0 = numbered;
        let ghost strmode0 = strmode;
        let ghost nacc0 = nacc;
        let ghost sacc0 = sacc@;
        let ghost s1 = eval_spec(opsv[i as int], envi, outi, fuel as nat);
        let ghost cur = eval_plus(opsv, i as int, numbered0, strmode0, nacc0, sacc0, envi, outi,
            fuel as nat);
        let c = eval_fuel(&operands[i], state, fuel);
        match c {
            Err(e) => {
                proof {
                    assert(cur == s1);
                }
                return Err(e);
            },
            Ok(v) => {
                match v {
                    Ast::Number(n) => {
                        if strmode {
                            let mut cs = n.to_chars();
                            sacc.append(&mut cs);
                            proof {
                                assert(sacc@ == sacc0 + render_spec(n));
                                assert(cur == eval_plus(opsv, i + 1, numbered0, true, nacc0,
                                    sacc@, s1.env, s1.out, fuel as nat));
                            }
                        } else {
                            match nacc.add(&n) {
                                Some(n2) => {
                                    nacc = n2;
                                    numbered = true;
                                    proof {
                                        assert(cur == eval_plus(opsv, i + 1, true, false, n2,
                                            sacc0, s1.env, s1.out, fuel as nat));
                                    }
                                },
                                None => {
                                    proof {
                                        assert(cur == (EvalStep {
                                            res: EvalRes::Fail(RuntimeError::NumberOverflow),
                                            env: s1.env,
                                            out: s1.out,
                                        }));
                                    }
                                    return Err(RuntimeError::NumberOverflow);
                                },
                            }
                        }
                    },
                    Ast::Str(s) => {
                        if !strmode {
                            if numbered {
                                let mut cs = nacc.to_chars();
                                sacc.append(&mut cs);
                            }
                            strmode = true;
                        }
                        let mut cs = crate::tokenizer::str_to_chars(s.as_str());
                        sacc.append(&mut cs);
                        proof {
                            if strmode0 {
                                assert(sacc@ == sacc0 + s@);
                            } else if numbered0 {
                                assert(sacc@ =~= render_spec(nacc0) + s@);
                            } else {
                                assert(sacc@ =~= s@);
                            }
                            assert(cur == eval_plus(opsv, i + 1, numbered0, true, nacc0, sacc@,
                                s1.env, s1.out, fuel as nat));
                        }
                    },
                    _ => {
                        proof {
                            assert(cur == (EvalStep {
                                res: EvalRes::Fail(RuntimeError::TypeMismatch),
                                env: s1.env,
                                out: s1.out,
                            }));
                        }
                        return Err(RuntimeError::TypeMismatch);
                    },
                }
            },
        }
        i = i + 1;
    }
    proof {
        assert(eval_plus(opsv, i as int, numbered, strmode, nacc, sacc@,
            state.variables.deep_view(), state.output@, fuel as nat) == (EvalStep {
            res: EvalRes::Val(
                if strmode {
                    SpecAst::Str(sacc@)
                } else {
                    SpecAst::Number(nacc)
                },
            ),
            env: state.variables.deep_view(),
            out: state.output@,
        }));
    }
    if strmode {
        Ok(Ast::Str(crate::tokenizer::string_from_chars(&sacc)))
    } else {
        Ok(Ast::Number(nacc))
    }
}

/// The `<` form from the second operand on.
#[verifier::loop_isolation(false)]
fn less_loop(operands: &Vec<Ast>, first: Num, state: &mut State, fuel: u64) -> (r: Result<
    Ast,
    RuntimeError,
>)
    requires
        operands@.len() >= 1,
    ensures
        agrees(
            r,
            *final(state),
            eval_less(
                operands.deep_view(),
                1,
                first,
                old(state).variables.deep_view(),
                old(state).output@,
                fuel as nat,
            ),
        ),
    decreases fuel, operands.deep_view(), 2int,
{
    let ghost opsv = operands.deep_view();
    let ghost env0 = state.variables.deep_view();
    let ghost out0 = state.output@;
    let mut last = first;
    let mut i: usize = 1;
    while i < operands.len()
        invariant
            1 <= i <= operands@.len(),
            eval_less(opsv, 1, first, env0, out0, fuel as nat) == eval_less(opsv, i as int, last,
                state.variables.deep_view(), state.output@, fuel as nat),
        decreases operands@.len() - i,
    {
        proof {
            assert(decreases_to!(opsv => opsv[i as int]));
            assert(opsv[i as int] == operands@[i as int]@);
        }
        let c = eval_fuel(&operands[i], state, fuel);
        match c {
            Err(e) => {
                return Err(e);
            },
            Ok(v) => {
                match v {
                    Ast::Number(n) => {
                        if n.le(&last) {
                            return Ok(Ast::Boolean(false));
                        }
                        last = n;
                    },
                    _ => {
                        return Err(RuntimeError::TypeMismatch);
                    },
                }
            },
        }
        i = i + 1;
    }
    Ok(Ast::Boolean(true))
}

/// The operands after a `while` condition, evaluated for effect.
#[verifier::loop_isolation(false)]
fn body_loop(operands: &Vec<Ast>, state: &mut State, fuel: u64) -> (r: Result<Ast, RuntimeError>)
    ensures
        agrees(
            r,
            *final(state),
            eval_body(
                operands.deep_view(),
                1,
                old(state).variables.deep_view(),
                old(state).output@,
                fuel as nat,
            ),
        ),
    decreases fuel, operands.deep_view(), 2int,
{
    let ghost opsv = operands.deep_view();
    let ghost env0 = state.variables.deep_view();
    let ghost out0 = state.output@;
    let mut i: usize = 1;
    proof {
        if opsv.len() < 1 {
            assert(eval_body(opsv, 1, env0, out0, fuel as nat).res == EvalRes::Val(
                SpecAst::Empty,
            ));
        }
    }
    while i < operands.len()
        invariant
            1 <= i,
            i <= operands@.len() || i == 1,
            eval_body(opsv, 1, env0, out0, fuel as nat) == eval_body(opsv, i as int,
                state.variables.deep_view(), state.output@, fuel as nat),
        decreases operands@.len() - i,
    {
        proof {
            assert(decreases_to!(opsv => opsv[i as int]));
            assert(opsv[i as int] == operands@[i as int]@);
        }
        let c = eval_fuel(&operands[i], state, fuel);
        match c {
            Err(e) => {
                return Err(e);
            },
            Ok(_) => {},
        }
        i = i + 1;
    }
    Ok(Ast::Empty)
}

/// The `while` form: an iterative loop against the budget.
#[verifier::loop_isolation(false)]
fn while_loop(operands: &Vec<Ast>, state: &mut State, fuel: u64) -> (r: Result<Ast, RuntimeError>)
    requires
        operands@.len() >= 1,
    ensures
        agrees(
            r,
            *final(state),
            eval_while(
                operands.deep_view(),
                old(state).variables.deep_view(),
                old(state).output@,
                fuel as nat,
            ),
        ),
    decreases fuel, operands.deep_view(), 2int,
{
    let ghost opsv = operands.deep_view();
    let ghost env0 = state.variables.deep_view();
    let ghost out0 = state.output@;
    let mut f = fuel;
    loop
        invariant
            f <= fuel,
            eval_while(opsv, env0, out0, fuel as nat) == eval_while(opsv,
                state.variables.deep_view(), state.output@, f as nat),
        decreases f,
    {
        if f == 0 {
            return Err(RuntimeError::LoopLimitReached);
        }
        f = f - 1;
        proof {
            assert(decreases_to!(opsv => opsv[0]));
            assert(opsv[0] == operands@[0]@);
        }
        let c = eval_fuel(&operands[0], state, f);
        match c {
            Err(e) => {
                return Err(e);
            },
            Ok(v) => {
                let done = match &v {
                    Ast::Boolean(b) => !*b,
                    _ => false,
                };
                if done {
                    return Ok(Ast::Empty);
                }
                let b = body_loop(operands, state, f);
                match b {
                    Err(e) => {
                        return Err(e);
                    },
                    Ok(_) => {},
                }
            },
        }
    }
}

/// The `print` form.
#[verifier::loop_isolation(false)]
fn print_loop(operands: &Vec<Ast>, state: &mut State, fuel: u64) -> (r: Result<Ast, RuntimeError>)
    ensures
        agrees(
            r,
            *final(state),
            eval_print(
                operands.deep_view(),
                0,
                old(state).variables.deep_view(),
                old(state).output@,
                fuel as nat,
            ),
        ),
    decreases fuel, operands.deep_view(), 2int,
{
    let ghost opsv = operands.deep_view();
    let ghost env0 = state.variables.deep_view();
    let ghost out0 = state.output@;
    let mut i: usize = 0;
    while i < operands.len()
        invariant
            i <= operands@.len(),
            eval_print(opsv, 0, env0, out0, fuel as nat) == eval_print(opsv, i as int,
                state.variables.deep_view(), state.output@, fuel as nat),
        decreases operands@.len() - i,
    {
        proof {
            assert(decreases_to!(opsv => opsv[i as int]));
            assert(opsv[i as int] == operands@[i as int]@);
        }
        let c = eval_fuel(&operands[i], state, fuel);
        match c {
            Err(e) => {
                return Err(e);
            },
            Ok(v) => {
                crate::ast::render_into(&v, &mut state.output);
            },
        }
        i = i + 1;
    }
    state.output.push('\n');
    Ok(Ast::Empty)
}

/// Evaluate one expression against the session's state. The result, the
/// bindings and the output afterwards are exactly what `eval_spec` says of
/// the expression under the session budget.
pub fn evaluate(ast: Ast, state: &mut State) -> (r: Result<Ast, RuntimeError>)
    ensures
        agrees(
            r,
            *final(state),
            eval_spec(
                ast@,
                old(state).variables.deep_view(),
                old(state).output@,
                LOOP_BUDGET as nat,
            ),
        ),
{
    eval_fuel(&ast, state, LOOP_BUDGET)
}

} // verus!
