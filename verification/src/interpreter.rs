use vstd::prelude::*;

use crate::ast::{BinaryOp, Expr, Stmt, UnaryOp};
use vstd::string::StringExecFns;

verus! {

// ---------------------------------------------------------------------------
// Values and the number domain
// ---------------------------------------------------------------------------

/// A runtime value: a number of the domain `N`, a string, or a boolean.
#[derive(Debug, Clone, PartialEq)]
pub enum Value<N> {
    Number(N),
    StringLit(String),
    Bool(bool),
}

/// The model of a value.
pub enum ValueModel<N> {
    Number(N),
    Str(Seq<char>),
    Bool(bool),
}

impl<N> View for Value<N> {
    type V = ValueModel<N>;

    open spec fn view(&self) -> ValueModel<N> {
        match self {
            Value::Number(n) => ValueModel::Number(*n),
            Value::StringLit(s) => ValueModel::Str(s@),
            Value::Bool(b) => ValueModel::Bool(*b),
        }
    }
}

/// A computation asked of the number domain.
pub enum NumberOp<N> {
    /// The number that a literal's digits denote.
    Literal(String),
    /// The negation of a number.
    Negate(N),
    /// `Add`, `Sub`, `Mul` or `Div` of two numbers.
    Arithmetic(BinaryOp, N, N),
}

/// What the arithmetic of the domain gives for `op`.
pub open spec fn arith_of<N, A: Fn(NumberOp<N>) -> N>(arith: A, op: NumberOp<N>) -> N {
    choose|r: N| call_ensures(arith, (op,), r)
}

/// What the comparison of the domain says of `a op b`, for `Equal`, `Less`,
/// `LessEqual`, `Greater` or `GreaterEqual`.
pub open spec fn compare_of<N, C: Fn(BinaryOp, N, N) -> bool>(
    compare: C,
    op: BinaryOp,
    a: N,
    b: N,
) -> bool {
    choose|r: bool| call_ensures(compare, (op, a, b), r)
}

/// The domain's operations can be called on anything, and each gives one
/// result for given arguments.
pub open spec fn is_number_domain<N, A: Fn(NumberOp<N>) -> N, C: Fn(BinaryOp, N, N) -> bool>(
    arith: A,
    compare: C,
) -> bool {
    &&& forall|op: NumberOp<N>| #[trigger] call_requires(arith, (op,))
    &&& forall|op: NumberOp<N>, r1: N, r2: N|
        #[trigger] call_ensures(arith, (op,), r1) && #[trigger] call_ensures(arith, (op,), r2)
            ==> r1 == r2
    &&& forall|op: BinaryOp, a: N, b: N| #[trigger] call_requires(compare, (op, a, b))
    &&& forall|op: BinaryOp, a: N, b: N, r1: bool, r2: bool|
        #[trigger] call_ensures(compare, (op, a, b), r1) && #[trigger] call_ensures(
            compare,
            (op, a, b),
            r2,
        ) ==> r1 == r2
}

/// Only `false` is falsey.
pub open spec fn truthy<N>(v: ValueModel<N>) -> bool {
    !(v matches ValueModel::Bool(false))
}

/// Equality of values: the same kind, and equal contents, numbers compared
/// by the domain.
pub open spec fn values_equal<N, C: Fn(BinaryOp, N, N) -> bool>(
    compare: C,
    a: ValueModel<N>,
    b: ValueModel<N>,
) -> bool {
    match (a, b) {
        (ValueModel::Number(x), ValueModel::Number(y)) => compare_of(compare, BinaryOp::Equal, x, y),
        (ValueModel::Str(s), ValueModel::Str(t)) => s == t,
        (ValueModel::Bool(p), ValueModel::Bool(q)) => p == q,
        _ => false,
    }
}

// ---------------------------------------------------------------------------
// Errors
// ---------------------------------------------------------------------------

/// What stops a program.
#[derive(Debug, Clone, PartialEq)]
pub enum RuntimeError<N> {
    /// A variable read or assigned that no scope defines.
    UndefinedVariable(String),
    /// `+` on values that are not two numbers or two strings.
    CannotAdd(Value<N>, Value<N>),
    /// A number was needed and this value came.
    ExpectedNumber(Value<N>),
    /// A `while` loop ran its body `u64::MAX` times and wanted more.
    LoopLimit,
}

/// The model of a runtime error.
pub enum Fault<N> {
    UndefinedVariable(Seq<char>),
    CannotAdd(ValueModel<N>, ValueModel<N>),
    ExpectedNumber(ValueModel<N>),
    LoopLimit,
}

impl<N> View for RuntimeError<N> {
    type V = Fault<N>;

    open spec fn view(&self) -> Fault<N> {
        match self {
            RuntimeError::UndefinedVariable(n) => Fault::UndefinedVariable(n@),
            RuntimeError::CannotAdd(a, b) => Fault::CannotAdd(a@, b@),
            RuntimeError::ExpectedNumber(v) => Fault::ExpectedNumber(v@),
            RuntimeError::LoopLimit => Fault::LoopLimit,
        }
    }
}

// ---------------------------------------------------------------------------
// Scopes
// ---------------------------------------------------------------------------

/// One scope: names and their values.
pub type Scope<N> = Map<Seq<char>, ValueModel<N>>;

/// The value of `name` in the innermost scope that defines it.
pub open spec fn lookup<N>(scopes: Seq<Scope<N>>, name: Seq<char>) -> Option<ValueModel<N>>
    decreases scopes.len(),
{
    if scopes.len() == 0 {
        None
    } else if scopes.last().dom().contains(name) {
        Some(scopes.last()[name])
    } else {
        lookup(scopes.drop_last(), name)
    }
}

/// The scopes after `name` is set to `v` in the innermost scope that defines
/// it; `None` where none does.
pub open spec fn assign<N>(scopes: Seq<Scope<N>>, name: Seq<char>, v: ValueModel<N>) -> Option<
    Seq<Scope<N>>,
>
    decreases scopes.len(),
{
    if scopes.len() == 0 {
        None
    } else if scopes.last().dom().contains(name) {
        Some(scopes.update(scopes.len() - 1, scopes.last().insert(name, v)))
    } else {
        match assign(scopes.drop_last(), name, v) {
            Some(inner) => Some(inner.push(scopes.last())),
            None => None,
        }
    }
}

/// The scopes after `name` is defined as `v` in the innermost scope.
pub open spec fn define<N>(scopes: Seq<Scope<N>>, name: Seq<char>, v: ValueModel<N>) -> Seq<
    Scope<N>,
> {
    scopes.update(scopes.len() - 1, scopes.last().insert(name, v))
}

// ---------------------------------------------------------------------------
// The semantics
// ---------------------------------------------------------------------------

/// The number in `v`, or the error that a non-number raises.
pub open spec fn number_of<N>(v: ValueModel<N>) -> Result<N, Fault<N>> {
    match v {
        ValueModel::Number(n) => Ok(n),
        _ => Err(Fault::ExpectedNumber(v)),
    }
}

/// The value of `l op r`.
pub open spec fn binary_value<N, A: Fn(NumberOp<N>) -> N, C: Fn(BinaryOp, N, N) -> bool>(
    arith: A,
    compare: C,
    l: ValueModel<N>,
    op: BinaryOp,
    r: ValueModel<N>,
) -> Result<ValueModel<N>, Fault<N>> {
    match op {
        BinaryOp::Add => match (l, r) {
            (ValueModel::Number(a), ValueModel::Number(b)) => Ok(
                ValueModel::Number(arith_of(arith, NumberOp::Arithmetic(BinaryOp::Add, a, b))),
            ),
            (ValueModel::Str(a), ValueModel::Str(b)) => Ok(ValueModel::Str(a + b)),
            _ => Err(Fault::CannotAdd(l, r)),
        },
        BinaryOp::Sub | BinaryOp::Mul | BinaryOp::Div => match number_of(l) {
            Err(e) => Err(e),
            Ok(a) => match number_of(r) {
                Err(e) => Err(e),
                Ok(b) => Ok(ValueModel::Number(arith_of(arith, NumberOp::Arithmetic(op, a, b)))),
            },
        },
        BinaryOp::Equal => Ok(ValueModel::Bool(values_equal(compare, l, r))),
        BinaryOp::NotEqual => Ok(ValueModel::Bool(!values_equal(compare, l, r))),
        BinaryOp::Less | BinaryOp::LessEqual | BinaryOp::Greater | BinaryOp::GreaterEqual => {
            match number_of(l) {
                Err(e) => Err(e),
                Ok(a) => match number_of(r) {
                    Err(e) => Err(e),
                    Ok(b) => Ok(ValueModel::Bool(compare_of(compare, op, a, b))),
                },
            }
        },
    }
}

/// The scopes after evaluating an expression, and its value or error.
pub type Evaluated<N> = (Seq<Scope<N>>, Result<ValueModel<N>, Fault<N>>);

/// Evaluation of `e` in `scopes`: operands left to right, assignment writing
/// through to the innermost scope that defines the name.
pub open spec fn eval<N, A: Fn(NumberOp<N>) -> N, C: Fn(BinaryOp, N, N) -> bool>(
    arith: A,
    compare: C,
    scopes: Seq<Scope<N>>,
    e: &Expr,
) -> Evaluated<N>
    decreases e,
{
    match e {
        Expr::Number(s) => (
            scopes,
            Ok(ValueModel::Number(arith_of(arith, NumberOp::Literal(*s)))),
        ),
        Expr::StringLit(s) => (scopes, Ok(ValueModel::Str(s@))),
        Expr::Bool(b) => (scopes, Ok(ValueModel::Bool(*b))),
        Expr::Variable(n) => match lookup(scopes, n@) {
            Some(v) => (scopes, Ok(v)),
            None => (scopes, Err(Fault::UndefinedVariable(n@))),
        },
        Expr::Assign { name, value } => {
            let (sc, r) = eval(arith, compare, scopes, value);
            match r {
                Err(f) => (sc, Err(f)),
                Ok(v) => match assign(sc, name@, v) {
                    Some(sc2) => (sc2, Ok(v)),
                    None => (sc, Err(Fault::UndefinedVariable(name@))),
                },
            }
        },
        Expr::Unary { op, expr } => {
            let (sc, r) = eval(arith, compare, scopes, expr);
            match r {
                Err(f) => (sc, Err(f)),
                Ok(v) => match op {
                    UnaryOp::Neagtive => match number_of(v) {
                        Err(f) => (sc, Err(f)),
                        Ok(n) => (sc, Ok(ValueModel::Number(arith_of(arith, NumberOp::Negate(n))))),
                    },
                    UnaryOp::Not => (sc, Ok(ValueModel::Bool(!truthy(v)))),
                },
            }
        },
        Expr::Binary { left, op, right } => {
            let (sc, l) = eval(arith, compare, scopes, left);
            match l {
                Err(f) => (sc, Err(f)),
                Ok(lv) => {
                    let (sc2, r) = eval(arith, compare, sc, right);
                    match r {
                        Err(f) => (sc2, Err(f)),
                        Ok(rv) => (sc2, binary_value(arith, compare, lv, *op, rv)),
                    }
                },
            }
        },
    }
}

/// The state a program runs in: its scopes, innermost last, and what it has
/// printed.
pub struct Machine<N> {
    pub scopes: Seq<Scope<N>>,
    pub printed: Seq<ValueModel<N>>,
}

/// The state after running a statement, and whether it finished or failed.
pub type Executed<N> = (Machine<N>, Result<(), Fault<N>>);

/// How many times one run of a `while` loop may execute its body.
pub open spec fn loop_limit() -> nat {
    u64::MAX as nat
}

pub open spec fn with_scopes<N>(m: Machine<N>, scopes: Seq<Scope<N>>) -> Machine<N> {
    Machine { scopes, printed: m.printed }
}

/// Running one statement.
pub open spec fn exec_stmt<N, A: Fn(NumberOp<N>) -> N, C: Fn(BinaryOp, N, N) -> bool>(
    arith: A,
    compare: C,
    m: Machine<N>,
    s: &Stmt,
) -> Executed<N>
    decreases s, 2int, 0int,
{
    match s {
        Stmt::Let { name, initializer } => {
            let (sc, r) = eval(arith, compare, m.scopes, initializer);
            match r {
                Err(f) => (with_scopes(m, sc), Err(f)),
                Ok(v) => (with_scopes(m, define(sc, name@, v)), Ok(())),
            }
        },
        Stmt::Print(e) => {
            let (sc, r) = eval(arith, compare, m.scopes, e);
            match r {
                Err(f) => (with_scopes(m, sc), Err(f)),
                Ok(v) => (Machine { scopes: sc, printed: m.printed.push(v) }, Ok(())),
            }
        },
        Stmt::Block(_) => {
            let inner = with_scopes(m, m.scopes.push(Map::empty()));
            let (m2, r) = exec_block(arith, compare, inner, s, 0);
            match r {
                Err(f) => (m2, Err(f)),
                Ok(()) => (with_scopes(m2, m2.scopes.drop_last()), Ok(())),
            }
        },
        Stmt::If { condition, then_branch, else_branch } => {
            let (sc, r) = eval(arith, compare, m.scopes, condition);
            let m1 = with_scopes(m, sc);
            match r {
                Err(f) => (m1, Err(f)),
                Ok(v) => if truthy(v) {
                    exec_stmt(arith, compare, m1, then_branch)
                } else {
                    match else_branch {
                        Some(b) => exec_stmt(arith, compare, m1, b),
                        None => (m1, Ok(())),
                    }
                },
            }
        },
        Stmt::While { .. } => exec_while(arith, compare, m, s, loop_limit()),
        Stmt::ExprStmt(e) => {
            let (sc, r) = eval(arith, compare, m.scopes, e);
            match r {
                Err(f) => (with_scopes(m, sc), Err(f)),
                Ok(_) => (with_scopes(m, sc), Ok(())),
            }
        },
    }
}

/// Running the statements of `block` from the `i`-th on, stopping at the
/// first error.
pub open spec fn exec_block<N, A: Fn(NumberOp<N>) -> N, C: Fn(BinaryOp, N, N) -> bool>(
    arith: A,
    compare: C,
    m: Machine<N>,
    block: &Stmt,
    i: int,
) -> Executed<N>
    decreases block, 0int, block_len(block) - i,
{
    match block {
        Stmt::Block(stmts) => if 0 <= i < stmts@.len() {
            proof {
                assert(decreases_to!(block => stmts@[i]));
            }
            let (m2, r) = exec_stmt(arith, compare, m, &stmts@[i]);
            match r {
                Err(f) => (m2, Err(f)),
                Ok(()) => exec_block(arith, compare, m2, block, i + 1),
            }
        } else {
            (m, Ok(()))
        },
        _ => (m, Ok(())),
    }
}

/// The number of statements of a block.
pub open spec fn block_len(block: &Stmt) -> int {
    match block {
        Stmt::Block(stmts) => stmts@.len() as int,
        _ => 0,
    }
}

/// Running the `while` loop `w`, which may run its body `n` more times.
pub open spec fn exec_while<N, A: Fn(NumberOp<N>) -> N, C: Fn(BinaryOp, N, N) -> bool>(
    arith: A,
    compare: C,
    m: Machine<N>,
    w: &Stmt,
    n: nat,
) -> Executed<N>
    decreases w, 1int, n,
{
    match w {
        Stmt::While { condition, body } => {
            let (sc, r) = eval(arith, compare, m.scopes, condition);
            let m1 = with_scopes(m, sc);
            match r {
                Err(f) => (m1, Err(f)),
                Ok(v) => if !truthy(v) {
                    (m1, Ok(()))
                } else if n == 0 {
                    (m1, Err(Fault::LoopLimit))
                } else {
                    let (m2, r2) = exec_stmt(arith, compare, m1, body);
                    match r2 {
                        Err(f) => (m2, Err(f)),
                        Ok(()) => exec_while(arith, compare, m2, w, (n - 1) as nat),
                    }
                },
            }
        },
        _ => (m, Ok(())),
    }
}

/// Running `stmts` from the `i`-th on in the current scope, stopping at the
/// first error.
pub open spec fn run<N, A: Fn(NumberOp<N>) -> N, C: Fn(BinaryOp, N, N) -> bool>(
    arith: A,
    compare: C,
    m: Machine<N>,
    stmts: Seq<Stmt>,
    i: int,
) -> Executed<N>
    decreases stmts.len() - i,
{
    if 0 <= i < stmts.len() {
        let (m2, r) = exec_stmt(arith, compare, m, &stmts[i]);
        match r {
            Err(f) => (m2, Err(f)),
            Ok(()) => run(arith, compare, m2, stmts, i + 1),
        }
    } else {
        (m, Ok(()))
    }
}

// ---------------------------------------------------------------------------
// Lemmas about scopes
// ---------------------------------------------------------------------------

/// The scope that a list of bindings stands for: later bindings of a name
/// hide earlier ones.
pub open spec fn scope_map<N>(v: Seq<(String, Value<N>)>) -> Scope<N>
    decreases v.len(),
{
    if v.len() == 0 {
        Map::empty()
    } else {
        scope_map(v.drop_last()).insert(v.last().0@, v.last().1@)
    }
}

/// No name is bound twice in `v`.
pub open spec fn unique_names<N>(v: Seq<(String, Value<N>)>) -> bool {
    forall|i: int, j: int| 0 <= i < j < v.len() ==> #[trigger] v[i].0@ != #[trigger] v[j].0@
}

/// `i` is the last binding of `k` in `v`.
pub open spec fn last_binding<N>(v: Seq<(String, Value<N>)>, k: Seq<char>, i: int) -> bool {
    &&& 0 <= i < v.len()
    &&& v[i].0@ == k
    &&& forall|j: int| i < j < v.len() ==> #[trigger] v[j].0@ != k
}

pub proof fn lemma_scope_map_bound<N>(v: Seq<(String, Value<N>)>, k: Seq<char>, i: int)
    requires
        last_binding(v, k, i),
    ensures
        scope_map(v).dom().contains(k),
        scope_map(v)[k] == v[i].1@,
    decreases v.len(),
{
    if i < v.len() - 1 {
        assert(v.last().0@ != k);
        lemma_scope_map_bound(v.drop_last(), k, i);
    }
}

pub proof fn lemma_scope_map_unbound<N>(v: Seq<(String, Value<N>)>, k: Seq<char>)
    requires
        forall|j: int| 0 <= j < v.len() ==> #[trigger] v[j].0@ != k,
    ensures
        !scope_map(v).dom().contains(k),
    decreases v.len(),
{
    if v.len() > 0 {
        lemma_scope_map_unbound(v.drop_last(), k);
    }
}

pub proof fn lemma_scope_map_rebind<N>(
    v: Seq<(String, Value<N>)>,
    k: Seq<char>,
    i: int,
    key: String,
    x: Value<N>,
)
    requires
        last_binding(v, k, i),
        key@ == k,
    ensures
        scope_map(v.update(i, (key, x))) == scope_map(v).insert(k, x@),
    decreases v.len(),
{
    let w = v.update(i, (key, x));
    if i == v.len() - 1 {
        assert(w.drop_last() =~= v.drop_last());
        assert(scope_map(w) =~= scope_map(v).insert(k, x@));
    } else {
        assert(w.drop_last() =~= v.drop_last().update(i, (key, x)));
        lemma_scope_map_rebind(v.drop_last(), k, i, key, x);
        assert(v.last().0@ != k);
        assert(scope_map(w) =~= scope_map(v).insert(k, x@));
    }
}

/// `k` is the innermost scope that defines `name`.
pub open spec fn innermost<N>(scopes: Seq<Scope<N>>, name: Seq<char>, k: int) -> bool {
    &&& 0 <= k < scopes.len()
    &&& scopes[k].dom().contains(name)
    &&& forall|j: int| k < j < scopes.len() ==> !(#[trigger] scopes[j]).dom().contains(name)
}

pub proof fn lemma_lookup_found<N>(scopes: Seq<Scope<N>>, name: Seq<char>, k: int)
    requires
        innermost(scopes, name, k),
    ensures
        lookup(scopes, name) == Some(scopes[k][name]),
    decreases scopes.len(),
{
    if k < scopes.len() - 1 {
        assert(!scopes[scopes.len() - 1].dom().contains(name));
        lemma_lookup_found(scopes.drop_last(), name, k);
    }
}

pub proof fn lemma_lookup_missing<N>(scopes: Seq<Scope<N>>, name: Seq<char>)
    requires
        forall|j: int| 0 <= j < scopes.len() ==> !(#[trigger] scopes[j]).dom().contains(name),
    ensures
        lookup(scopes, name) == None::<ValueModel<N>>,
    decreases scopes.len(),
{
    if scopes.len() > 0 {
        lemma_lookup_missing(scopes.drop_last(), name);
    }
}

pub proof fn lemma_assign_missing<N>(scopes: Seq<Scope<N>>, name: Seq<char>, v: ValueModel<N>)
    requires
        forall|j: int| 0 <= j < scopes.len() ==> !(#[trigger] scopes[j]).dom().contains(name),
    ensures
        assign(scopes, name, v) == None::<Seq<Scope<N>>>,
    decreases scopes.len(),
{
    if scopes.len() > 0 {
        lemma_assign_missing(scopes.drop_last(), name, v);
    }
}

pub proof fn lemma_assign_found<N>(
    scopes: Seq<Scope<N>>,
    name: Seq<char>,
    k: int,
    v: ValueModel<N>,
)
    requires
        innermost(scopes, name, k),
    ensures
        assign(scopes, name, v) == Some(scopes.update(k, scopes[k].insert(name, v))),
    decreases scopes.len(),
{
    if k < scopes.len() - 1 {
        assert(!scopes[scopes.len() - 1].dom().contains(name));
        lemma_assign_found(scopes.drop_last(), name, k, v);
        assert(scopes.drop_last().update(k, scopes[k].insert(name, v)).push(scopes.last())
            =~= scopes.update(k, scopes[k].insert(name, v)));
    }
}


// ---------------------------------------------------------------------------
// The depth of the scope stack
// ---------------------------------------------------------------------------

pub proof fn lemma_assign_keeps_depth<N>(scopes: Seq<Scope<N>>, name: Seq<char>, v: ValueModel<N>)
    ensures
        assign(scopes, name, v) matches Some(sc) ==> sc.len() == scopes.len(),
    decreases scopes.len(),
{
    if scopes.len() > 0 {
        lemma_assign_keeps_depth(scopes.drop_last(), name, v);
    }
}

/// Evaluating an expression keeps the number of scopes.
pub proof fn lemma_eval_keeps_depth<N, A: Fn(NumberOp<N>) -> N, C: Fn(BinaryOp, N, N) -> bool>(
    arith: A,
    compare: C,
    scopes: Seq<Scope<N>>,
    e: &Expr,
)
    ensures
        eval(arith, compare, scopes, e).0.len() == scopes.len(),
    decreases e,
{
    match e {
        Expr::Assign { name, value } => {
            lemma_eval_keeps_depth(arith, compare, scopes, value);
            let (sc, r) = eval(arith, compare, scopes, value);
            if let Ok(v) = r {
                lemma_assign_keeps_depth(sc, name@, v);
            }
        },
        Expr::Unary { op, expr } => {
            lemma_eval_keeps_depth(arith, compare, scopes, expr);
        },
        Expr::Binary { left, op, right } => {
            lemma_eval_keeps_depth(arith, compare, scopes, left);
            let sc = eval(arith, compare, scopes, left).0;
            lemma_eval_keeps_depth(arith, compare, sc, right);
        },
        _ => {},
    }
}

/// A statement that finishes leaves as many scopes as it found; one that
/// fails leaves no fewer.
pub proof fn lemma_exec_keeps_depth<N, A: Fn(NumberOp<N>) -> N, C: Fn(BinaryOp, N, N) -> bool>(
    arith: A,
    compare: C,
    m: Machine<N>,
    s: &Stmt,
)
    requires
        m.scopes.len() >= 1,
    ensures
        exec_stmt(arith, compare, m, s).0.scopes.len() >= m.scopes.len(),
        exec_stmt(arith, compare, m, s).1 is Ok ==> exec_stmt(arith, compare, m, s).0.scopes.len()
            == m.scopes.len(),
    decreases s, 2int, 0int,
{
    match s {
        Stmt::Let { name, initializer } => {
            lemma_eval_keeps_depth(arith, compare, m.scopes, initializer);
        },
        Stmt::Print(e) => {
            lemma_eval_keeps_depth(arith, compare, m.scopes, e);
        },
        Stmt::Block(_) => {
            let inner = with_scopes(m, m.scopes.push(Map::empty()));
            lemma_block_keeps_depth(arith, compare, inner, s, 0);
        },
        Stmt::If { condition, then_branch, else_branch } => {
            lemma_eval_keeps_depth(arith, compare, m.scopes, condition);
            let m1 = with_scopes(m, eval(arith, compare, m.scopes, condition).0);
            lemma_exec_keeps_depth(arith, compare, m1, then_branch);
            if let Some(b) = else_branch {
                lemma_exec_keeps_depth(arith, compare, m1, b);
            }
        },
        Stmt::While { .. } => {
            lemma_while_keeps_depth(arith, compare, m, s, loop_limit());
        },
        Stmt::ExprStmt(e) => {
            lemma_eval_keeps_depth(arith, compare, m.scopes, e);
        },
    }
}

pub proof fn lemma_block_keeps_depth<N, A: Fn(NumberOp<N>) -> N, C: Fn(BinaryOp, N, N) -> bool>(
    arith: A,
    compare: C,
    m: Machine<N>,
    block: &Stmt,
    i: int,
)
    requires
        m.scopes.len() >= 1,
    ensures
        exec_block(arith, compare, m, block, i).0.scopes.len() >= m.scopes.len(),
        exec_block(arith, compare, m, block, i).1 is Ok ==> exec_block(
            arith,
            compare,
            m,
            block,
            i,
        ).0.scopes.len() == m.scopes.len(),
    decreases block, 0int, block_len(block) - i,
{
    if let Stmt::Block(stmts) = block {
        if 0 <= i < stmts@.len() {
            assert(decreases_to!(block => stmts@[i]));
            lemma_exec_keeps_depth(arith, compare, m, &stmts@[i]);
            let m2 = exec_stmt(arith, compare, m, &stmts@[i]).0;
            lemma_block_keeps_depth(arith, compare, m2, block, i + 1);
        }
    }
}

pub proof fn lemma_while_keeps_depth<N, A: Fn(NumberOp<N>) -> N, C: Fn(BinaryOp, N, N) -> bool>(
    arith: A,
    compare: C,
    m: Machine<N>,
    w: &Stmt,
    n: nat,
)
    requires
        m.scopes.len() >= 1,
    ensures
        exec_while(arith, compare, m, w, n).0.scopes.len() >= m.scopes.len(),
        exec_while(arith, compare, m, w, n).1 is Ok ==> exec_while(
            arith,
            compare,
            m,
            w,
            n,
        ).0.scopes.len() == m.scopes.len(),
    decreases w, 1int, n,
{
    if let Stmt::While { condition, body } = w {
        lemma_eval_keeps_depth(arith, compare, m.scopes, condition);
        let m1 = with_scopes(m, eval(arith, compare, m.scopes, condition).0);
        lemma_exec_keeps_depth(arith, compare, m1, body);
        if n > 0 {
            let m2 = exec_stmt(arith, compare, m1, body).0;
            lemma_while_keeps_depth(arith, compare, m2, w, (n - 1) as nat);
        }
    }
}


// ---------------------------------------------------------------------------
// Laws of scopes and statements
// ---------------------------------------------------------------------------

/// A `let` is read back: after defining `name` as `v`, reading `name` gives `v`.
pub proof fn law_read_after_define<N>(scopes: Seq<Scope<N>>, name: Seq<char>, v: ValueModel<N>)
    requires
        scopes.len() >= 1,
    ensures
        lookup(define(scopes, name, v), name) == Some(v),
{
    let d = define(scopes, name, v);
    assert(d.last() == scopes.last().insert(name, v));
}

/// A `let` of one name leaves what every other name reads.
pub proof fn law_define_leaves_other_names<N>(
    scopes: Seq<Scope<N>>,
    name: Seq<char>,
    other: Seq<char>,
    v: ValueModel<N>,
)
    requires
        scopes.len() >= 1,
        name != other,
    ensures
        lookup(define(scopes, name, v), other) == lookup(scopes, other),
{
    let d = define(scopes, name, v);
    assert(d.drop_last() =~= scopes.drop_last());
}

/// An inner `let` shadows rather than overwrites: it changes only the
/// innermost scope.
pub proof fn law_define_touches_innermost_only<N>(
    scopes: Seq<Scope<N>>,
    name: Seq<char>,
    v: ValueModel<N>,
)
    requires
        scopes.len() >= 1,
    ensures
        define(scopes, name, v).len() == scopes.len(),
        forall|k: int| 0 <= k < scopes.len() - 1 ==> #[trigger] define(scopes, name, v)[k] == scopes[k],
{
}

/// Assignment succeeds exactly where reading succeeds, and then reading the
/// name gives the assigned value.
pub proof fn law_read_after_assign<N>(scopes: Seq<Scope<N>>, name: Seq<char>, v: ValueModel<N>)
    ensures
        (assign(scopes, name, v) is None) == (lookup(scopes, name) is None),
        assign(scopes, name, v) matches Some(after) ==> lookup(after, name) == Some(v),
    decreases scopes.len(),
{
    if scopes.len() > 0 {
        law_read_after_assign(scopes.drop_last(), name, v);
        if !scopes.last().dom().contains(name) {
            if let Some(inner) = assign(scopes.drop_last(), name, v) {
                let after = inner.push(scopes.last());
                assert(after.drop_last() =~= inner);
            }
        } else {
            let after = scopes.update(scopes.len() - 1, scopes.last().insert(name, v));
            assert(after.last() == scopes.last().insert(name, v));
        }
    }
}

/// Assignment walks outward to the nearest scope that defines the name and
/// changes only that scope, only at that name.
pub proof fn law_assign_writes_nearest<N>(
    scopes: Seq<Scope<N>>,
    name: Seq<char>,
    k: int,
    v: ValueModel<N>,
)
    requires
        innermost(scopes, name, k),
    ensures
        assign(scopes, name, v) == Some(scopes.update(k, scopes[k].insert(name, v))),
{
    lemma_assign_found(scopes, name, k, v);
}

/// Assignment is an expression: where `name = value` evaluates to a value,
/// that value is what `name` reads afterwards.
pub proof fn law_assignment_reads_back<N, A: Fn(NumberOp<N>) -> N, C: Fn(BinaryOp, N, N) -> bool>(
    arith: A,
    compare: C,
    scopes: Seq<Scope<N>>,
    e: &Expr,
)
    requires
        e is Assign,
    ensures
        eval(arith, compare, scopes, e).1 matches Ok(v) ==> lookup(
            eval(arith, compare, scopes, e).0,
            e->Assign_name@,
        ) == Some(v),
{
    if let Expr::Assign { name, value } = e {
        let (sc, r) = eval(arith, compare, scopes, value);
        if let Ok(v) = r {
            law_read_after_assign(sc, name@, v);
        }
    }
}

/// Which operands make a binary operator fail, and with what error: `+`
/// needs two numbers or two strings and names both operands; `-`, `*`, `/`
/// and the order comparisons need two numbers and name the first operand
/// that is not one; `==` and `!=` never fail.
pub proof fn law_binary_failures<N, A: Fn(NumberOp<N>) -> N, C: Fn(BinaryOp, N, N) -> bool>(
    arith: A,
    compare: C,
    l: ValueModel<N>,
    op: BinaryOp,
    r: ValueModel<N>,
)
    ensures
        binary_value(arith, compare, l, op, r) is Err <==> match op {
            BinaryOp::Add => !((l is Number && r is Number) || (l is Str && r is Str)),
            BinaryOp::Equal | BinaryOp::NotEqual => false,
            _ => !(l is Number && r is Number),
        },
        op == BinaryOp::Add && binary_value(arith, compare, l, op, r) is Err ==> binary_value(
            arith,
            compare,
            l,
            op,
            r,
        ) == Err::<ValueModel<N>, Fault<N>>(Fault::CannotAdd(l, r)),
        op != BinaryOp::Add && binary_value(arith, compare, l, op, r) is Err ==> binary_value(
            arith,
            compare,
            l,
            op,
            r,
        ) == Err::<ValueModel<N>, Fault<N>>(
            Fault::ExpectedNumber(
                if l is Number {
                    r
                } else {
                    l
                },
            ),
        ),
{
}

/// `==` and `!=` compare by kind and content: they always give a boolean,
/// `!=` the negation of `==`; values of different kinds are unequal; strings
/// and booleans are equal when their contents are; numbers are equal when
/// the domain says so.
pub proof fn law_equality_by_kind_and_content<
    N,
    A: Fn(NumberOp<N>) -> N,
    C: Fn(BinaryOp, N, N) -> bool,
>(arith: A, compare: C, l: ValueModel<N>, r: ValueModel<N>)
    ensures
        binary_value(arith, compare, l, BinaryOp::Equal, r) == Ok::<ValueModel<N>, Fault<N>>(
            ValueModel::Bool(values_equal(compare, l, r)),
        ),
        binary_value(arith, compare, l, BinaryOp::NotEqual, r) == Ok::<ValueModel<N>, Fault<N>>(
            ValueModel::Bool(!values_equal(compare, l, r)),
        ),
        !((l is Number && r is Number) || (l is Str && r is Str) || (l is Bool && r is Bool))
            ==> !values_equal(compare, l, r),
        (l is Str && r is Str) ==> (values_equal(compare, l, r) <==> l == r),
        (l is Bool && r is Bool) ==> (values_equal(compare, l, r) <==> l == r),
        (l is Number && r is Number) ==> values_equal(compare, l, r) == compare_of(
            compare,
            BinaryOp::Equal,
            l->Number_0,
            r->Number_0,
        ),
{
}

/// Each order operator on two numbers is the domain's comparison of that
/// same kind, and the arithmetic operators are the domain's arithmetic of
/// that same kind, on the operands in order.
pub proof fn law_numeric_operators<N, A: Fn(NumberOp<N>) -> N, C: Fn(BinaryOp, N, N) -> bool>(
    arith: A,
    compare: C,
    a: N,
    b: N,
)
    ensures
        binary_value(arith, compare, ValueModel::Number(a), BinaryOp::Less, ValueModel::Number(b))
            == Ok::<ValueModel<N>, Fault<N>>(
            ValueModel::Bool(compare_of(compare, BinaryOp::Less, a, b)),
        ),
        binary_value(
            arith,
            compare,
            ValueModel::Number(a),
            BinaryOp::LessEqual,
            ValueModel::Number(b),
        ) == Ok::<ValueModel<N>, Fault<N>>(
            ValueModel::Bool(compare_of(compare, BinaryOp::LessEqual, a, b)),
        ),
        binary_value(
            arith,
            compare,
            ValueModel::Number(a),
            BinaryOp::Greater,
            ValueModel::Number(b),
        ) == Ok::<ValueModel<N>, Fault<N>>(
            ValueModel::Bool(compare_of(compare, BinaryOp::Greater, a, b)),
        ),
        binary_value(
            arith,
            compare,
            ValueModel::Number(a),
            BinaryOp::GreaterEqual,
            ValueModel::Number(b),
        ) == Ok::<ValueModel<N>, Fault<N>>(
            ValueModel::Bool(compare_of(compare, BinaryOp::GreaterEqual, a, b)),
        ),
        binary_value(arith, compare, ValueModel::Number(a), BinaryOp::Add, ValueModel::Number(b))
            == Ok::<ValueModel<N>, Fault<N>>(
            ValueModel::Number(arith_of(arith, NumberOp::Arithmetic(BinaryOp::Add, a, b))),
        ),
        binary_value(arith, compare, ValueModel::Number(a), BinaryOp::Sub, ValueModel::Number(b))
            == Ok::<ValueModel<N>, Fault<N>>(
            ValueModel::Number(arith_of(arith, NumberOp::Arithmetic(BinaryOp::Sub, a, b))),
        ),
        binary_value(arith, compare, ValueModel::Number(a), BinaryOp::Mul, ValueModel::Number(b))
            == Ok::<ValueModel<N>, Fault<N>>(
            ValueModel::Number(arith_of(arith, NumberOp::Arithmetic(BinaryOp::Mul, a, b))),
        ),
        binary_value(arith, compare, ValueModel::Number(a), BinaryOp::Div, ValueModel::Number(b))
            == Ok::<ValueModel<N>, Fault<N>>(
            ValueModel::Number(arith_of(arith, NumberOp::Arithmetic(BinaryOp::Div, a, b))),
        ),
{
}

/// An `if` whose condition is truthy runs its then-branch, with or without
/// an `else`; one whose condition is falsey runs its `else` branch if it has
/// one and otherwise does nothing more; a condition that fails stops it.
pub proof fn law_if_takes_one_branch<N, A: Fn(NumberOp<N>) -> N, C: Fn(BinaryOp, N, N) -> bool>(
    arith: A,
    compare: C,
    m: Machine<N>,
    s: &Stmt,
)
    requires
        s is If,
    ensures
        ({
            let (sc, r) = eval(arith, compare, m.scopes, &s->If_condition);
            let m1 = Machine { scopes: sc, printed: m.printed };
            match r {
                Ok(v) => if !(v matches ValueModel::Bool(false)) {
                    exec_stmt(arith, compare, m, s) == exec_stmt(arith, compare, m1, &*s->If_then_branch)
                } else {
                    match s->If_else_branch {
                        Some(b) => exec_stmt(arith, compare, m, s) == exec_stmt(arith, compare, m1, &*b),
                        None => exec_stmt(arith, compare, m, s) == (m1, Ok::<(), Fault<N>>(())),
                    }
                },
                Err(f) => exec_stmt(arith, compare, m, s) == (m1, Err::<(), Fault<N>>(f)),
            }
        }),
{
}

/// The state after the condition and then the body of `while (c) body` have
/// run `k` times from `m`.
pub open spec fn after_runs<N, A: Fn(NumberOp<N>) -> N, C: Fn(BinaryOp, N, N) -> bool>(
    arith: A,
    compare: C,
    m: Machine<N>,
    c: &Expr,
    body: &Stmt,
    k: nat,
) -> Machine<N>
    decreases k,
{
    if k == 0 {
        m
    } else {
        let m0 = after_runs(arith, compare, m, c, body, (k - 1) as nat);
        let m1 = Machine { scopes: eval(arith, compare, m0.scopes, c).0, printed: m0.printed };
        exec_stmt(arith, compare, m1, body).0
    }
}

/// Run `j` of the loop goes through: the condition gives a truthy value and
/// the body finishes.
pub open spec fn run_goes_through<N, A: Fn(NumberOp<N>) -> N, C: Fn(BinaryOp, N, N) -> bool>(
    arith: A,
    compare: C,
    m: Machine<N>,
    c: &Expr,
    body: &Stmt,
    j: nat,
) -> bool {
    let m0 = after_runs(arith, compare, m, c, body, j);
    let (sc, r) = eval(arith, compare, m0.scopes, c);
    &&& r matches Ok(v) && !(v matches ValueModel::Bool(false))
    &&& exec_stmt(arith, compare, Machine { scopes: sc, printed: m0.printed }, body).1 is Ok
}

proof fn lemma_while_runs<N, A: Fn(NumberOp<N>) -> N, C: Fn(BinaryOp, N, N) -> bool>(
    arith: A,
    compare: C,
    m: Machine<N>,
    s: &Stmt,
    k: nat,
    j: nat,
    n: nat,
)
    requires
        s is While,
        j <= k,
        n >= k - j,
        forall|i: nat|
            i < k ==> #[trigger] run_goes_through(
                arith,
                compare,
                m,
                &s->While_condition,
                &*s->While_body,
                i,
            ),
    ensures
        exec_while(
            arith,
            compare,
            after_runs(arith, compare, m, &s->While_condition, &*s->While_body, j),
            s,
            n,
        ) == exec_while(
            arith,
            compare,
            after_runs(arith, compare, m, &s->While_condition, &*s->While_body, k),
            s,
            (n - (k - j)) as nat,
        ),
    decreases k - j,
{
    if j < k {
        let c = &s->While_condition;
        let body = &*s->While_body;
        assert(run_goes_through(arith, compare, m, c, body, j));
        assert(after_runs(arith, compare, m, c, body, j + 1) == exec_stmt(
            arith,
            compare,
            Machine {
                scopes: eval(arith, compare, after_runs(arith, compare, m, c, body, j).scopes, c).0,
                printed: after_runs(arith, compare, m, c, body, j).printed,
            },
            body,
        ).0);
        lemma_while_runs(arith, compare, m, s, k, j + 1, (n - 1) as nat);
    }
}

/// A `while` loop repeats until its condition is falsey: where the first
/// `k` runs go through (`k` below `u64::MAX`) and then the condition gives a
/// falsey value, the loop finishes with the state after those runs and that
/// last condition.
pub proof fn law_while_repeats_until_falsey<
    N,
    A: Fn(NumberOp<N>) -> N,
    C: Fn(BinaryOp, N, N) -> bool,
>(arith: A, compare: C, m: Machine<N>, s: &Stmt, k: nat)
    requires
        s is While,
        k <= 0xffff_ffff_ffff_ffff,
        forall|i: nat|
            i < k ==> #[trigger] run_goes_through(
                arith,
                compare,
                m,
                &s->While_condition,
                &*s->While_body,
                i,
            ),
        ({
            let mk = after_runs(arith, compare, m, &s->While_condition, &*s->While_body, k);
            eval(arith, compare, mk.scopes, &s->While_condition).1 matches Ok(v) && v matches ValueModel::Bool(false)
        }),
    ensures
        ({
            let mk = after_runs(arith, compare, m, &s->While_condition, &*s->While_body, k);
            exec_stmt(arith, compare, m, s) == (
                Machine {
                    scopes: eval(arith, compare, mk.scopes, &s->While_condition).0,
                    printed: mk.printed,
                },
                Ok::<(), Fault<N>>(()),
            )
        }),
{
    assert(after_runs(arith, compare, m, &s->While_condition, &*s->While_body, 0) == m);
    lemma_while_runs(arith, compare, m, s, k, 0, 0xffff_ffff_ffff_ffff);
}

/// The names each scope defines.
pub open spec fn names<N>(scopes: Seq<Scope<N>>) -> Seq<Set<Seq<char>>> {
    Seq::new(scopes.len(), |k: int| scopes[k].dom())
}

pub proof fn lemma_assign_keeps_names<N>(scopes: Seq<Scope<N>>, name: Seq<char>, v: ValueModel<N>)
    ensures
        assign(scopes, name, v) matches Some(sc) ==> names(sc) == names(scopes),
    decreases scopes.len(),
{
    if scopes.len() > 0 {
        lemma_assign_keeps_names(scopes.drop_last(), name, v);
        if scopes.last().dom().contains(name) {
            let sc = scopes.update(scopes.len() - 1, scopes.last().insert(name, v));
            assert(sc.last().dom() =~= scopes.last().dom());
            assert(names(sc) =~= names(scopes));
        } else if let Some(inner) = assign(scopes.drop_last(), name, v) {
            let sc = inner.push(scopes.last());
            assert(names(inner) == names(scopes.drop_last()));
            assert forall|k: int| 0 <= k < sc.len() implies #[trigger] sc[k].dom() == scopes[k].dom() by {
                if k < sc.len() - 1 {
                    assert(names(inner)[k] == names(scopes.drop_last())[k]);
                }
            }
            assert(names(sc) =~= names(scopes));
        }
    }
}

/// Evaluating an expression defines no name and removes none.
pub proof fn lemma_eval_keeps_names<N, A: Fn(NumberOp<N>) -> N, C: Fn(BinaryOp, N, N) -> bool>(
    arith: A,
    compare: C,
    scopes: Seq<Scope<N>>,
    e: &Expr,
)
    ensures
        names(eval(arith, compare, scopes, e).0) == names(scopes),
    decreases e,
{
    match e {
        Expr::Assign { name, value } => {
            lemma_eval_keeps_names(arith, compare, scopes, value);
            let (sc, r) = eval(arith, compare, scopes, value);
            if let Ok(v) = r {
                lemma_assign_keeps_names(sc, name@, v);
            }
        },
        Expr::Unary { op, expr } => {
            lemma_eval_keeps_names(arith, compare, scopes, expr);
        },
        Expr::Binary { left, op, right } => {
            lemma_eval_keeps_names(arith, compare, scopes, left);
            let sc = eval(arith, compare, scopes, left).0;
            lemma_eval_keeps_names(arith, compare, sc, right);
        },
        _ => {},
    }
}

/// What a finished statement may do to names: scopes outside the innermost
/// define the same names as before, the innermost at least as many.
pub open spec fn names_kept<N>(before: Seq<Scope<N>>, after: Seq<Scope<N>>) -> bool {
    &&& after.len() == before.len()
    &&& forall|k: int| 0 <= k < before.len() - 1 ==> #[trigger] after[k].dom() == before[k].dom()
    &&& before.last().dom().subset_of(after.last().dom())
}

pub proof fn lemma_names_kept_trans<N>(a: Seq<Scope<N>>, b: Seq<Scope<N>>, c: Seq<Scope<N>>)
    requires
        a.len() >= 1,
        names_kept(a, b),
        names_kept(b, c),
    ensures
        names_kept(a, c),
{
    assert forall|k: int| 0 <= k < a.len() - 1 implies #[trigger] c[k].dom() == a[k].dom() by {
        assert(b[k].dom() == a[k].dom());
    }
}

pub proof fn lemma_same_names_kept<N>(a: Seq<Scope<N>>, b: Seq<Scope<N>>)
    requires
        a.len() >= 1,
        names(a) == names(b),
    ensures
        names_kept(a, b),
{
    assert(names(a).len() == a.len());
    assert(names(b).len() == b.len());
    assert forall|k: int| 0 <= k < a.len() - 1 implies #[trigger] b[k].dom() == a[k].dom() by {
        assert(names(a)[k] == names(b)[k]);
    }
    assert(names(a)[a.len() - 1] == names(b)[a.len() - 1]);
}

pub proof fn lemma_exec_keeps_names<N, A: Fn(NumberOp<N>) -> N, C: Fn(BinaryOp, N, N) -> bool>(
    arith: A,
    compare: C,
    m: Machine<N>,
    s: &Stmt,
)
    requires
        m.scopes.len() >= 1,
    ensures
        exec_stmt(arith, compare, m, s).1 is Ok ==> names_kept(
            m.scopes,
            exec_stmt(arith, compare, m, s).0.scopes,
        ),
    decreases s, 2int, 0int,
{
    match s {
        Stmt::Let { name, initializer } => {
            lemma_eval_keeps_names(arith, compare, m.scopes, initializer);
            let (sc, r) = eval(arith, compare, m.scopes, initializer);
            lemma_same_names_kept(m.scopes, sc);
            if let Ok(v) = r {
                let d = define(sc, name@, v);
                assert(names_kept(sc, d));
                lemma_names_kept_trans(m.scopes, sc, d);
            }
        },
        Stmt::Print(e) => {
            lemma_eval_keeps_names(arith, compare, m.scopes, e);
            lemma_same_names_kept(m.scopes, eval(arith, compare, m.scopes, e).0);
        },
        Stmt::Block(_) => {
            let inner = with_scopes(m, m.scopes.push(Map::empty()));
            lemma_block_keeps_names(arith, compare, inner, s, 0);
            lemma_block_keeps_depth(arith, compare, inner, s, 0);
            let m2 = exec_block(arith, compare, inner, s, 0).0;
            if exec_block(arith, compare, inner, s, 0).1 is Ok {
                assert forall|k: int| 0 <= k < m.scopes.len() implies #[trigger] m2.scopes[k].dom()
                    == m.scopes[k].dom() by {
                    assert(inner.scopes[k] == m.scopes[k]);
                }
            }
        },
        Stmt::If { condition, then_branch, else_branch } => {
            lemma_eval_keeps_names(arith, compare, m.scopes, condition);
            let m1 = with_scopes(m, eval(arith, compare, m.scopes, condition).0);
            lemma_eval_keeps_depth(arith, compare, m.scopes, condition);
            lemma_same_names_kept(m.scopes, m1.scopes);
            lemma_exec_keeps_names(arith, compare, m1, then_branch);
            if exec_stmt(arith, compare, m1, then_branch).1 is Ok {
                lemma_names_kept_trans(
                    m.scopes,
                    m1.scopes,
                    exec_stmt(arith, compare, m1, then_branch).0.scopes,
                );
            }
            if let Some(b) = else_branch {
                lemma_exec_keeps_names(arith, compare, m1, b);
                if exec_stmt(arith, compare, m1, b).1 is Ok {
                    lemma_names_kept_trans(
                        m.scopes,
                        m1.scopes,
                        exec_stmt(arith, compare, m1, b).0.scopes,
                    );
                }
            }
        },
        Stmt::While { .. } => {
            lemma_while_keeps_names(arith, compare, m, s, loop_limit());
        },
        Stmt::ExprStmt(e) => {
            lemma_eval_keeps_names(arith, compare, m.scopes, e);
            lemma_same_names_kept(m.scopes, eval(arith, compare, m.scopes, e).0);
        },
    }
}

pub proof fn lemma_block_keeps_names<N, A: Fn(NumberOp<N>) -> N, C: Fn(BinaryOp, N, N) -> bool>(
    arith: A,
    compare: C,
    m: Machine<N>,
    block: &Stmt,
    i: int,
)
    requires
        m.scopes.len() >= 1,
    ensures
        exec_block(arith, compare, m, block, i).1 is Ok ==> names_kept(
            m.scopes,
            exec_block(arith, compare, m, block, i).0.scopes,
        ),
    decreases block, 0int, block_len(block) - i,
{
    if let Stmt::Block(stmts) = block {
        if 0 <= i < stmts@.len() {
            assert(decreases_to!(block => stmts@[i]));
            lemma_exec_keeps_names(arith, compare, m, &stmts@[i]);
            let (m2, r) = exec_stmt(arith, compare, m, &stmts@[i]);
            if r is Ok {
                lemma_block_keeps_names(arith, compare, m2, block, i + 1);
                if exec_block(arith, compare, m2, block, i + 1).1 is Ok {
                    lemma_names_kept_trans(
                        m.scopes,
                        m2.scopes,
                        exec_block(arith, compare, m2, block, i + 1).0.scopes,
                    );
                }
            }
        } else {
            assert(names_kept(m.scopes, m.scopes));
        }
    } else {
        assert(names_kept(m.scopes, m.scopes));
    }
}

pub proof fn lemma_while_keeps_names<N, A: Fn(NumberOp<N>) -> N, C: Fn(BinaryOp, N, N) -> bool>(
    arith: A,
    compare: C,
    m: Machine<N>,
    w: &Stmt,
    n: nat,
)
    requires
        m.scopes.len() >= 1,
    ensures
        exec_while(arith, compare, m, w, n).1 is Ok ==> names_kept(
            m.scopes,
            exec_while(arith, compare, m, w, n).0.scopes,
        ),
    decreases w, 1int, n,
{
    if let Stmt::While { condition, body } = w {
        lemma_eval_keeps_names(arith, compare, m.scopes, condition);
        lemma_eval_keeps_depth(arith, compare, m.scopes, condition);
        let m1 = with_scopes(m, eval(arith, compare, m.scopes, condition).0);
        lemma_same_names_kept(m.scopes, m1.scopes);
        lemma_exec_keeps_names(arith, compare, m1, body);
        if n > 0 && exec_stmt(arith, compare, m1, body).1 is Ok {
            let m2 = exec_stmt(arith, compare, m1, body).0;
            lemma_names_kept_trans(m.scopes, m1.scopes, m2.scopes);
            lemma_while_keeps_names(arith, compare, m2, w, (n - 1) as nat);
            if exec_while(arith, compare, m2, w, (n - 1) as nat).1 is Ok {
                lemma_names_kept_trans(
                    m.scopes,
                    m2.scopes,
                    exec_while(arith, compare, m2, w, (n - 1) as nat).0.scopes,
                );
            }
        }
    } else {
        assert(names_kept(m.scopes, m.scopes));
    }
}

/// Blocks discard their own declarations: a block that finishes leaves every
/// scope defining exactly the names it defined before.
pub proof fn law_block_discards_declarations<
    N,
    A: Fn(NumberOp<N>) -> N,
    C: Fn(BinaryOp, N, N) -> bool,
>(arith: A, compare: C, m: Machine<N>, block: &Stmt)
    requires
        m.scopes.len() >= 1,
        block is Block,
        exec_stmt(arith, compare, m, block).1 is Ok,
    ensures
        names(exec_stmt(arith, compare, m, block).0.scopes) == names(m.scopes),
{
    lemma_exec_keeps_names(arith, compare, m, block);
    let inner = with_scopes(m, m.scopes.push(Map::empty()));
    lemma_block_keeps_names(arith, compare, inner, block, 0);
    lemma_block_keeps_depth(arith, compare, inner, block, 0);
    let after = exec_stmt(arith, compare, m, block).0.scopes;
    let m2 = exec_block(arith, compare, inner, block, 0).0;
    assert forall|k: int| 0 <= k < m.scopes.len() implies #[trigger] after[k].dom()
        == m.scopes[k].dom() by {
        assert(inner.scopes[k] == m.scopes[k]);
        assert(m2.scopes[k] == after[k]);
    }
    assert(names(after) =~= names(m.scopes));
}

/// A statement that finishes leaves as many scopes as it found.
pub proof fn law_statement_keeps_depth<N, A: Fn(NumberOp<N>) -> N, C: Fn(BinaryOp, N, N) -> bool>(
    arith: A,
    compare: C,
    m: Machine<N>,
    s: &Stmt,
)
    requires
        m.scopes.len() >= 1,
        exec_stmt(arith, compare, m, s).1 is Ok,
    ensures
        exec_stmt(arith, compare, m, s).0.scopes.len() == m.scopes.len(),
{
    lemma_exec_keeps_depth(arith, compare, m, s);
}

// ---------------------------------------------------------------------------
// The interpreter
// ---------------------------------------------------------------------------

/// A copy of a value.
pub fn copy_value<N: Copy>(v: &Value<N>) -> (r: Value<N>)
    ensures
        r@ == v@,
{
    match v {
        Value::Number(n) => Value::Number(*n),
        Value::StringLit(s) => Value::StringLit(s.clone()),
        Value::Bool(b) => Value::Bool(*b),
    }
}

/// Only `false` is falsey.
pub fn is_truthy<N>(v: &Value<N>) -> (b: bool)
    ensures
        b == truthy(v@),
{
    match v {
        Value::Bool(false) => false,
        _ => true,
    }
}

/// A tree-walking interpreter over the number domain `N`.
///
/// The domain is given as two functions: `arith` computes literals,
/// negations and arithmetic, `compare` decides equality and order of
/// numbers. The values that `print` statements print are kept, in order, for
/// the caller to show.
pub struct Interpreter<N, A, C> {
    scopes: Vec<Vec<(String, Value<N>)>>,
    printed: Vec<Value<N>>,
    arith: A,
    compare: C,
}

/// `r` and `sc` are the value and scopes that `e` gives, or `r` its error.
pub open spec fn evaluated<N>(
    r: Result<Value<N>, RuntimeError<N>>,
    sc: Seq<Scope<N>>,
    e: Evaluated<N>,
) -> bool {
    &&& sc == e.0
    &&& match e.1 {
        Ok(v) => r matches Ok(x) && x@ == v,
        Err(f) => r matches Err(x) && x@ == f,
    }
}

/// `r` and `m` are the outcome and state that `e` gives.
pub open spec fn executed<N>(r: Result<(), RuntimeError<N>>, m: Machine<N>, e: Executed<N>) -> bool {
    &&& m == e.0
    &&& match e.1 {
        Ok(()) => r is Ok,
        Err(f) => r matches Err(x) && x@ == f,
    }
}

/// The models of a sequence of values.
pub open spec fn value_models<N>(vs: Seq<Value<N>>) -> Seq<ValueModel<N>> {
    vs.map_values(|v: Value<N>| v@)
}

impl<N: Copy, A: Fn(NumberOp<N>) -> N, C: Fn(BinaryOp, N, N) -> bool> Interpreter<N, A, C> {
    /// The scopes, innermost last.
    pub closed spec fn scopes_model(&self) -> Seq<Scope<N>> {
        Seq::new(self.scopes@.len(), |i: int| scope_map(self.scopes@[i]@))
    }

    /// The state of the running program.
    pub closed spec fn machine(&self) -> Machine<N> {
        Machine { scopes: self.scopes_model(), printed: value_models(self.printed@) }
    }

    pub closed spec fn arith(&self) -> A {
        self.arith
    }

    pub closed spec fn compare(&self) -> C {
        self.compare
    }


    /// The interpreter's invariant: there is always a scope to define in,
    /// and no scope binds a name twice.
    pub closed spec fn wf(&self) -> bool {
        &&& self.scopes@.len() >= 1
        &&& forall|k: int| 0 <= k < self.scopes@.len() ==> unique_names(#[trigger] self.scopes@[k]@)
    }

    /// What running a program needs of the functions it was given: the
    /// domain's are total and give one result per arguments.
    pub open spec fn ready(&self) -> bool {
        &&& self.wf()
        &&& is_number_domain(self.arith(), self.compare())
    }

    /// An interpreter with one empty scope that has printed nothing.
    pub fn new(arith: A, compare: C) -> (r: Self)
        ensures
            r.wf(),
            r.machine() == (Machine::<N> { scopes: seq![Map::empty()], printed: Seq::empty() }),
            r.arith() == arith,
            r.compare() == compare,
    {
        let mut scopes: Vec<Vec<(String, Value<N>)>> = Vec::new();
        scopes.push(Vec::new());
        let r = Interpreter { scopes, printed: Vec::new(), arith, compare };
        assert(value_models(r.printed@) =~= Seq::<ValueModel<N>>::empty());
        assert(r.scopes_model() =~= seq![Map::<Seq<char>, ValueModel<N>>::empty()]);
        r
    }

    /// The last binding of `name` in scope `k`, if any.
    fn find_in_scope(&self, k: usize, name: &String) -> (r: Option<usize>)
        requires
            k < self.scopes@.len(),
        ensures
            match r {
                Some(j) => last_binding(self.scopes@[k as int]@, name@, j as int),
                None => forall|j: int|
                    0 <= j < self.scopes@[k as int]@.len() ==> #[trigger] self.scopes@[k as int]@[j].0@
                        != name@,
            },
    {
        let scope = &self.scopes[k];
        let mut j = scope.len();
        while j > 0
            invariant
                j <= scope@.len(),
                scope == self.scopes@[k as int],
                forall|i: int| j <= i < scope@.len() ==> #[trigger] scope@[i].0@ != name@,
            decreases j,
        {
            j = j - 1;
            if scope[j].0 == *name {
                return Some(j);
            }
        }
        None
    }

    /// The innermost scope that binds `name`, and the binding there.
    fn find(&self, name: &String) -> (r: Option<(usize, usize)>)
        ensures
            match r {
                Some((k, j)) => {
                    &&& innermost(self.scopes_model(), name@, k as int)
                    &&& last_binding(self.scopes@[k as int]@, name@, j as int)
                },
                None => forall|k: int|
                    0 <= k < self.scopes_model().len() ==> !(#[trigger] self.scopes_model()[k]).dom().contains(
                        name@,
                    ),
            },
    {
        let mut k = self.scopes.len();
        while k > 0
            invariant
                k <= self.scopes@.len(),
                forall|i: int|
                    k <= i < self.scopes_model().len() ==> !(#[trigger] self.scopes_model()[i]).dom().contains(
                        name@,
                    ),
            decreases k,
        {
            k = k - 1;
            match self.find_in_scope(k, name) {
                Some(j) => {
                    proof {
                        lemma_scope_map_bound(self.scopes@[k as int]@, name@, j as int);
                    }
                    return Some((k, j));
                },
                None => {
                    proof {
                        lemma_scope_map_unbound(self.scopes@[k as int]@, name@);
                    }
                },
            }
        }
        None
    }

    /// The value of `name` in the innermost scope that defines it.
    fn get(&self, name: &String) -> (r: Option<Value<N>>)
        ensures
            match lookup(self.scopes_model(), name@) {
                Some(v) => r matches Some(x) && x@ == v,
                None => r is None,
            },
    {
        match self.find(name) {
            Some((k, j)) => {
                proof {
                    lemma_lookup_found(self.scopes_model(), name@, k as int);
                    lemma_scope_map_bound(self.scopes@[k as int]@, name@, j as int);
                }
                Some(copy_value(&self.scopes[k][j].1))
            },
            None => {
                proof {
                    lemma_lookup_missing(self.scopes_model(), name@);
                }
                None
            },
        }
    }

    /// Sets `name` in the innermost scope that defines it; false where none
    /// does.
    fn set_var(&mut self, name: &String, v: Value<N>) -> (found: bool)
        requires
            old(self).wf(),
        ensures
            final(self).wf(),
            final(self).printed@ == old(self).printed@,
            final(self).arith() == old(self).arith(),
            final(self).compare() == old(self).compare(),
            match assign(old(self).scopes_model(), name@, v@) {
                Some(sc) => found && final(self).scopes_model() == sc,
                None => !found && final(self).scopes_model() == old(self).scopes_model(),
            },
    {
        match self.find(name) {
            Some((k, j)) => {
                let ghost before = self.scopes@;
                let ghost model = self.scopes_model();
                let key = self.scopes[k][j].0.clone();
                let ghost x = v@;
                let ghost vv = v;
                self.scopes[k][j] = (key, v);
                proof {
                    lemma_scope_map_rebind(before[k as int]@, name@, j as int, before[k as int]@[j as int].0, vv);
                    lemma_assign_found(model, name@, k as int, x);
                    assert(self.scopes_model() =~= model.update(
                        k as int,
                        model[k as int].insert(name@, x),
                    ));
                }
                true
            },
            None => {
                proof {
                    lemma_assign_missing(self.scopes_model(), name@, v@);
                }
                false
            },
        }
    }

    /// Defines `name` as `v` in the innermost scope.
    fn define_var(&mut self, name: String, v: Value<N>)
        requires
            old(self).wf(),
        ensures
            final(self).wf(),
            final(self).printed@ == old(self).printed@,
            final(self).arith() == old(self).arith(),
            final(self).compare() == old(self).compare(),
            final(self).scopes_model() == define(old(self).scopes_model(), name@, v@),
    {
        let last = self.scopes.len() - 1;
        let ghost before = self.scopes@;
        let ghost model = self.scopes_model();
        let ghost key = name@;
        let ghost x = v@;
        match self.find_in_scope(last, &name) {
            Some(j) => {
                let ghost vv = v;
                let ghost nn = name;
                self.scopes[last][j] = (name, v);
                proof {
                    lemma_scope_map_rebind(before[last as int]@, key, j as int, nn, vv);
                }
            },
            None => {
                self.scopes[last].push((name, v));
                proof {
                    assert(self.scopes@[last as int]@.drop_last() =~= before[last as int]@);
                }
            },
        }
        proof {
            assert(self.scopes_model() =~= define(model, key, x));
        }
    }

    /// The number in `v`, or the error that a non-number raises.
    fn number(&self, v: Value<N>) -> (r: Result<N, RuntimeError<N>>)
        ensures
            match number_of(v@) {
                Ok(n) => r == Ok::<N, RuntimeError<N>>(n),
                Err(f) => r matches Err(x) && x@ == f,
            },
    {
        match v {
            Value::Number(n) => Ok(n),
            other => Err(RuntimeError::ExpectedNumber(other)),
        }
    }

    /// Equality of values: the same kind, and equal contents.
    fn values_equal(&self, a: &Value<N>, b: &Value<N>) -> (r: bool)
        requires
            is_number_domain(self.arith(), self.compare()),
        ensures
            r == values_equal(self.compare(), a@, b@),
    {
        match (a, b) {
            (Value::Number(x), Value::Number(y)) => (self.compare)(BinaryOp::Equal, *x, *y),
            (Value::StringLit(s), Value::StringLit(t)) => *s == *t,
            (Value::Bool(p), Value::Bool(q)) => *p == *q,
            _ => false,
        }
    }

    /// The value of `left op right`.
    fn binary(&self, left: Value<N>, op: BinaryOp, right: Value<N>) -> (r: Result<
        Value<N>,
        RuntimeError<N>,
    >)
        requires
            is_number_domain(self.arith(), self.compare()),
        ensures
            match binary_value(self.arith(), self.compare(), left@, op, right@) {
                Ok(v) => r matches Ok(x) && x@ == v,
                Err(f) => r matches Err(x) && x@ == f,
            },
    {
        match op {
            BinaryOp::Add => match (left, right) {
                (Value::Number(a), Value::Number(b)) => Ok(
                    Value::Number((self.arith)(NumberOp::Arithmetic(BinaryOp::Add, a, b))),
                ),
                (Value::StringLit(a), Value::StringLit(b)) => Ok(Value::StringLit(a.concat(b.as_str()))),
                (a, b) => Err(RuntimeError::CannotAdd(a, b)),
            },
            BinaryOp::Sub | BinaryOp::Mul | BinaryOp::Div => {
                let a = self.number(left)?;
                let b = self.number(right)?;
                Ok(Value::Number((self.arith)(NumberOp::Arithmetic(op, a, b))))
            },
            BinaryOp::Equal => Ok(Value::Bool(self.values_equal(&left, &right))),
            BinaryOp::NotEqual => Ok(Value::Bool(!self.values_equal(&left, &right))),
            BinaryOp::Less | BinaryOp::LessEqual | BinaryOp::Greater | BinaryOp::GreaterEqual => {
                let a = self.number(left)?;
                let b = self.number(right)?;
                Ok(Value::Bool((self.compare)(op, a, b)))
            },
        }
    }

    /// Evaluates an expression.
    fn evaluate(&mut self, expr: &Expr) -> (r: Result<Value<N>, RuntimeError<N>>)
        requires
            old(self).ready(),
        ensures
            final(self).wf(),
            final(self).printed@ == old(self).printed@,
            final(self).arith() == old(self).arith(),
            final(self).compare() == old(self).compare(),
            evaluated(
                r,
                final(self).scopes_model(),
                eval(old(self).arith(), old(self).compare(), old(self).scopes_model(), expr),
            ),
        decreases expr,
    {
        match expr {
            Expr::Number(s) => Ok(Value::Number((self.arith)(NumberOp::Literal(s.clone())))),
            Expr::StringLit(s) => Ok(Value::StringLit(s.clone())),
            Expr::Bool(b) => Ok(Value::Bool(*b)),
            Expr::Variable(name) => match self.get(name) {
                Some(v) => Ok(v),
                None => Err(RuntimeError::UndefinedVariable(name.clone())),
            },
            Expr::Assign { name, value } => {
                let v = self.evaluate(value)?;
                if self.set_var(name, copy_value(&v)) {
                    Ok(v)
                } else {
                    Err(RuntimeError::UndefinedVariable(name.clone()))
                }
            },
            Expr::Unary { op, expr } => {
                let v = self.evaluate(expr)?;
                match op {
                    UnaryOp::Neagtive => {
                        let n = self.number(v)?;
                        Ok(Value::Number((self.arith)(NumberOp::Negate(n))))
                    },
                    UnaryOp::Not => Ok(Value::Bool(!is_truthy(&v))),
                }
            },
            Expr::Binary { left, op, right } => {
                let l = self.evaluate(left)?;
                let r = self.evaluate(right)?;
                self.binary(l, *op, r)
            },
        }
    }

    /// Runs one statement.
    fn execute(&mut self, stmt: &Stmt) -> (r: Result<(), RuntimeError<N>>)
        requires
            old(self).ready(),
        ensures
            final(self).wf(),
            final(self).arith() == old(self).arith(),
            final(self).compare() == old(self).compare(),
            executed(
                r,
                final(self).machine(),
                exec_stmt(old(self).arith(), old(self).compare(), old(self).machine(), stmt),
            ),
        decreases stmt,
    {
        let ghost arith = self.arith();
        let ghost compare = self.compare();
        match stmt {
            Stmt::Let { name, initializer } => {
                let value = self.evaluate(initializer)?;
                self.define_var(name.clone(), value);
                Ok(())
            },
            Stmt::Print(expr) => {
                let value = self.evaluate(expr)?;
                let ghost before = self.printed@;
                self.printed.push(value);
                proof {
                    assert(value_models(self.printed@) =~= value_models(before).push(
                        self.printed@.last()@,
                    ));
                }
                Ok(())
            },
            Stmt::Block(statements) => {
                let ghost m0 = self.machine();
                self.scopes.push(Vec::new());
                proof {
                    assert(self.scopes_model() =~= m0.scopes.push(Map::empty()));
                }
                let ghost inner = self.machine();
                assert(inner == with_scopes(m0, m0.scopes.push(Map::empty())));
                assert(self.arith() == old(self).arith());
                assert(self.wf());
                assert(self.ready());
                let mut i: usize = 0;
                while i < statements.len()
                    invariant
                        self.ready(),
                        self.arith() == arith,
                        self.compare() == compare,
                        arith == old(self).arith(),
                        compare == old(self).compare(),
                        m0 == old(self).machine(),
                        inner == with_scopes(m0, m0.scopes.push(Map::empty())),
                        *stmt == Stmt::Block(*statements),
                        i <= statements@.len(),
                        exec_block(arith, compare, inner, stmt, 0) == exec_block(
                            arith,
                            compare,
                            self.machine(),
                            stmt,
                            i as int,
                        ),
                    decreases statements@.len() - i,
                {
                    proof {
                        assert(decreases_to!(stmt => statements@[i as int]));
                    }
                    let ghost before = self.machine();
                    match self.execute(&statements[i]) {
                        Ok(()) => {},
                        Err(e) => {
                            assert(exec_block(arith, compare, before, stmt, i as int).1 is Err);
                            assert(exec_block(arith, compare, inner, stmt, 0).0 == self.machine());
                            assert(exec_stmt(arith, compare, m0, stmt) == exec_block(
                                arith,
                                compare,
                                inner,
                                stmt,
                                0,
                            ));
                            return Err(e);
                        },
                    }
                    i = i + 1;
                }
                let ghost m2 = self.machine();
                proof {
                    lemma_block_keeps_depth(arith, compare, inner, stmt, 0);
                }
                self.scopes.pop();
                proof {
                    assert(self.scopes_model() =~= m2.scopes.drop_last());
                }
                Ok(())
            },
            Stmt::If { condition, then_branch, else_branch } => {
                let value = self.evaluate(condition)?;
                if is_truthy(&value) {
                    self.execute(then_branch)
                } else {
                    match else_branch {
                        Some(b) => self.execute(b),
                        None => Ok(()),
                    }
                }
            },
            Stmt::While { condition, body } => {
                let mut remaining: u64 = u64::MAX;
                loop
                    invariant
                        self.ready(),
                        self.arith() == arith,
                        self.compare() == compare,
                        arith == old(self).arith(),
                        compare == old(self).compare(),
                        *stmt == (Stmt::While { condition: *condition, body: *body }),
                        exec_while(arith, compare, old(self).machine(), stmt, loop_limit())
                            == exec_while(arith, compare, self.machine(), stmt, remaining as nat),
                    decreases remaining,
                {
                    let value = self.evaluate(condition)?;
                    if !is_truthy(&value) {
                        return Ok(());
                    }
                    if remaining == 0 {
                        return Err(RuntimeError::LoopLimit);
                    }
                    self.execute(body)?;
                    remaining = remaining - 1;
                }
            },
            Stmt::ExprStmt(expr) => {
                self.evaluate(expr)?;
                Ok(())
            },
        }
    }

    /// Runs `statements` in order in the current scope, and stops at the
    /// first error, which it returns.
    pub fn interpret(&mut self, statements: &[Stmt]) -> (r: Result<(), RuntimeError<N>>)
        requires
            old(self).ready(),
        ensures
            final(self).wf(),
            final(self).arith() == old(self).arith(),
            final(self).compare() == old(self).compare(),
            executed(
                r,
                final(self).machine(),
                run(old(self).arith(), old(self).compare(), old(self).machine(), statements@, 0),
            ),
    {
        let ghost arith = self.arith();
        let ghost compare = self.compare();
        let mut i: usize = 0;
        while i < statements.len()
            invariant
                self.ready(),
                self.arith() == arith,
                self.compare() == compare,
                arith == old(self).arith(),
                compare == old(self).compare(),
                i <= statements@.len(),
                run(arith, compare, old(self).machine(), statements@, 0) == run(
                    arith,
                    compare,
                    self.machine(),
                    statements@,
                    i as int,
                ),
            decreases statements@.len() - i,
        {
            self.execute(&statements[i])?;
            i = i + 1;
        }
        Ok(())
    }


    /// The values printed so far, in the order they were printed.
    pub fn output(&self) -> (r: &Vec<Value<N>>)
        ensures
            value_models(r@) == self.machine().printed,
    {
        &self.printed
    }

    /// Hands over the values printed so far, in order, and forgets them.
    pub fn take_output(&mut self) -> (r: Vec<Value<N>>)
        ensures
            value_models(r@) == old(self).machine().printed,
            final(self).machine() == (Machine::<N> {
                scopes: old(self).machine().scopes,
                printed: Seq::empty(),
            }),
            final(self).wf() == old(self).wf(),
            final(self).arith() == old(self).arith(),
            final(self).compare() == old(self).compare(),
    {
        let mut out: Vec<Value<N>> = Vec::new();
        std::mem::swap(&mut out, &mut self.printed);
        proof {
            assert(value_models(self.printed@) =~= Seq::<ValueModel<N>>::empty());
        }
        out
    }

    /// The value of `name` in the innermost scope that defines it, or the
    /// error of reading an undefined variable.
    pub fn lookup(&self, name: &str) -> (r: Result<Value<N>, RuntimeError<N>>)
        ensures
            match lookup(self.scopes_model(), name@) {
                Some(v) => r matches Ok(x) && x@ == v,
                None => r matches Err(e) && e@ == Fault::<N>::UndefinedVariable(name@),
            },
    {
        let key = name.to_owned();
        match self.get(&key) {
            Some(v) => Ok(v),
            None => Err(RuntimeError::UndefinedVariable(key)),
        }
    }
}

} // verus!
