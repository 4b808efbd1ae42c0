//! Tree-walking interpreter for the language of `ast.rs`.
//!
//! Every function here is proved to compute exactly what `semantics.rs`
//! says. The interpreter does not re-validate types, scoping or
//! mutability: a program that breaks those rules gets stuck
//! (`Fault::Stuck`), and the public `run` leaves such programs out by its
//! precondition; `soundness.rs` proves that a program the type checker
//! accepts never gets stuck (when its `main` takes no parameters).
//! `RuntimeError` is reserved for conditions that only a run
//! can reveal: division or modulo by zero, integer overflow, an integer
//! literal that does not fit in `i32`, and a missing `main`.
//!
//! A `return` may stand anywhere a statement can, also inside an `if` or a
//! block used as a sub-expression; `Flow::Return` carries it through every
//! enclosing evaluation up to the function call it leaves.
//!
//! Printing is not done here: what the builtins print is collected, in
//! order, in an output sequence that `run_bounded` hands back.
use vstd::prelude::*;

use crate::ast::{BinOp, Block, ElseBranch, Expr, FunctionDecl, Item, Program, Stmt, UnOp};
use crate::lexer::{ascii_digit, digits_value, ident_end, numerals_read_back, scan_token, CharFlags, LiteralView, TokenKindView};
use crate::text::{int_decimal, nat_digits, push_decimal};
use crate::builtins::{builtin_print, lookup_builtin, BuiltinFn};
use crate::semantics::{
    assign_var, binop_result, bind_params, call_fn, declare_var, eval_args, eval_binary,
    eval_expr, fits_i32, lookup_fn, lookup_var, min, pop_scope, rem_toward_zero, run_block,
    run_program, run_stmt, run_stmts, run_while, unary_result, div_toward_zero, Fault, Flow,
    Machine,
};

verus! {

/// Runtime values.
#[derive(Debug, Clone, Copy, PartialEq, Eq, Structural)]
pub enum Value {
    I32(i32),
    Bool(bool),
    Unit,
}

/// Conditions that only a run of the program can reveal.
#[derive(Debug, Clone, Copy, PartialEq, Eq, Structural)]
pub enum RuntimeError {
    DivisionByZero,
    ModuloByZero,
    IntegerOverflow,
    /// An integer literal in the source did not fit in `i32`.
    LiteralOutOfRange(i64),
    NoMainFunction,
}

/// How a value is shown: `7`, `-3`, `true`, `()`.
pub open spec fn value_text(v: Value) -> Seq<char> {
    match v {
        Value::I32(n) => int_decimal(n as int),
        Value::Bool(true) => "true"@,
        Value::Bool(false) => "false"@,
        Value::Unit => "()"@,
    }
}

/// The message that describes a runtime error.
pub open spec fn runtime_error_text(e: RuntimeError) -> Seq<char> {
    match e {
        RuntimeError::DivisionByZero => "division by zero"@,
        RuntimeError::ModuloByZero => "modulo by zero"@,
        RuntimeError::IntegerOverflow => "integer overflow"@,
        RuntimeError::LiteralOutOfRange(n) => "integer literal "@ + int_decimal(n as int)
            + " does not fit in i32"@,
        RuntimeError::NoMainFunction => "no `main` function defined"@,
    }
}

impl Value {
    /// The value as the program's output shows it.
    pub fn to_display_string(&self) -> (r: String)
        ensures
            r@ == value_text(*self),
    {
        match self {
            Value::I32(n) => {
                let mut s = String::new();
                push_decimal(&mut s, *n as i64);
                proof {
                    assert(s@ =~= int_decimal(*n as int));
                }
                s
            },
            Value::Bool(true) => String::from_str("true"),
            Value::Bool(false) => String::from_str("false"),
            Value::Unit => String::from_str("()"),
        }
    }
}

/// An `i32` is shown as its decimal numeral, after a `-` when it is
/// negative; the numeral is ASCII digits that the lexer reads back as the
/// number's magnitude.
pub proof fn numbers_show_as_numerals(n: i32)
    ensures
        ({
            let t = value_text(Value::I32(n));
            let digits = if n < 0 {
                t.drop_first()
            } else {
                t
            };
            &&& n < 0 <==> t[0] == '-'
            &&& forall|i: int| 0 <= i < digits.len() ==> ascii_digit(#[trigger] digits[i])
            &&& digits_value(digits) == if n < 0 {
                -n
            } else {
                n as int
            }
        }),
{
    let m: nat = if n < 0 {
        (-n) as nat
    } else {
        n as nat
    };
    numerals_read_back(m);
    if n < 0 {
        assert(value_text(Value::I32(n)).drop_first() =~= nat_digits(m));
    } else {
        assert(ascii_digit(nat_digits(m)[0]));
    }
}

proof fn lemma_word_runs_to_end(fl: CharFlags, cs: Seq<char>, i: int)
    requires
        0 <= i <= cs.len(),
        fl.alphanumeric.len() == cs.len(),
        forall|j: int| 0 <= j < cs.len() ==> fl.alphanumeric[j],
    ensures
        ident_end(fl, cs, i) == cs.len(),
    decreases cs.len() - i,
{
    if i < cs.len() {
        lemma_word_runs_to_end(fl, cs, i + 1);
    }
}

/// `true` and `false` are shown as the words that the lexer reads as those
/// booleans (with letters classified as letters).
pub proof fn booleans_show_as_words(b: bool, fl: CharFlags)
    requires
        fl.alphabetic.len() == value_text(Value::Bool(b)).len(),
        fl.alphanumeric.len() == value_text(Value::Bool(b)).len(),
        forall|j: int| 0 <= j < fl.alphabetic.len() ==> fl.alphabetic[j] && fl.alphanumeric[j],
    ensures
        scan_token(fl, value_text(Value::Bool(b)), 0).kind == TokenKindView::Literal(LiteralView::Bool(b)),
        scan_token(fl, value_text(Value::Bool(b)), 0).end == value_text(Value::Bool(b)).len(),
{
    reveal_strlit("true");
    reveal_strlit("false");
    let cs = value_text(Value::Bool(b));
    lemma_word_runs_to_end(fl, cs, 1);
    assert(cs.subrange(0, cs.len() as int) =~= cs);
}

impl RuntimeError {
    /// A one-line description of the error.
    pub fn to_display_string(&self) -> (r: String)
        ensures
            r@ == runtime_error_text(*self),
    {
        match self {
            RuntimeError::DivisionByZero => String::from_str("division by zero"),
            RuntimeError::ModuloByZero => String::from_str("modulo by zero"),
            RuntimeError::IntegerOverflow => String::from_str("integer overflow"),
            RuntimeError::LiteralOutOfRange(n) => {
                let mut s = String::from_str("integer literal ");
                push_decimal(&mut s, *n);
                s.append(" does not fit in i32");
                s
            },
            RuntimeError::NoMainFunction => String::from_str("no `main` function defined"),
        }
    }
}

// ---------------------------------------------------------------------
// Environment
// ---------------------------------------------------------------------

/// The bindings of one scope, later entries overriding earlier ones.
pub open spec fn scope_map(s: Seq<(String, Value)>) -> Map<Seq<char>, Value>
    decreases s.len(),
{
    if s.len() == 0 {
        Map::empty()
    } else {
        scope_map(s.drop_last()).insert(s.last().0@, s.last().1)
    }
}

proof fn lemma_scope_map_prefix(s: Seq<(String, Value)>, j: int, k: Seq<char>)
    requires
        0 <= j <= s.len(),
        forall|l: int| j <= l < s.len() ==> #[trigger] s[l].0@ != k,
    ensures
        scope_map(s).contains_key(k) == scope_map(s.take(j)).contains_key(k),
        scope_map(s).contains_key(k) ==> scope_map(s)[k] == scope_map(s.take(j))[k],
    decreases s.len() - j,
{
    if j == s.len() {
        assert(s.take(j) =~= s);
    } else {
        assert(s.drop_last().take(j) =~= s.take(j));
        assert(s.last().0@ != k);
        lemma_scope_map_prefix(s.drop_last(), j, k);
    }
}

proof fn lemma_scope_map_at(s: Seq<(String, Value)>, j: int)
    requires
        0 <= j < s.len(),
        forall|l: int| j < l < s.len() ==> #[trigger] s[l].0@ != s[j].0@,
    ensures
        scope_map(s).contains_key(s[j].0@),
        scope_map(s)[s[j].0@] == s[j].1,
{
    lemma_scope_map_prefix(s, j + 1, s[j].0@);
    assert(s.take(j + 1).drop_last() =~= s.take(j));
}

proof fn lemma_scope_map_update(s: Seq<(String, Value)>, j: int, p: (String, Value))
    requires
        0 <= j < s.len(),
        p.0@ == s[j].0@,
        forall|l: int| j < l < s.len() ==> #[trigger] s[l].0@ != s[j].0@,
    ensures
        scope_map(s.update(j, p)) =~= scope_map(s).insert(p.0@, p.1),
    decreases s.len(),
{
    let t = s.update(j, p);
    if j == s.len() - 1 {
        assert(t.drop_last() =~= s.drop_last());
    } else {
        assert(t.drop_last() =~= s.drop_last().update(j, p));
        lemma_scope_map_update(s.drop_last(), j, p);
    }
}

/// Variable scopes, innermost last.
struct Env {
    scopes: Vec<Vec<(String, Value)>>,
}

impl Env {
    spec fn model(&self) -> Seq<Map<Seq<char>, Value>> {
        Seq::new(self.scopes@.len(), |i: int| scope_map(self.scopes@[i]@))
    }

    fn new() -> (e: Env)
        ensures
            e.model() =~= seq![Map::<Seq<char>, Value>::empty()],
    {
        // One scope to start: this is where a function's parameters live.
        let mut scopes = Vec::new();
        scopes.push(Vec::new());
        Env { scopes }
    }

    fn push_scope(&mut self)
        ensures
            final(self).model() =~= old(self).model().push(Map::empty()),
    {
        self.scopes.push(Vec::new());
    }

    fn pop_scope(&mut self)
        ensures
            final(self).model() =~= pop_scope(old(self).model()),
    {
        self.scopes.pop();
    }

    /// Binds (or rebinds) `name` in the innermost scope.
    fn declare(&mut self, name: String, value: Value)
        requires
            old(self).model().len() >= 1,
        ensures
            final(self).model() =~= declare_var(old(self).model(), name@, value),
    {
        let last = self.scopes.len() - 1;
        let mut scope = Vec::new();
        self.scopes.set_and_swap(last, &mut scope);
        let ghost before = scope@;
        scope.push((name, value));
        proof {
            assert(scope@.drop_last() =~= before);
        }
        self.scopes.set_and_swap(last, &mut scope);
    }

    /// The value of `name` in the innermost scope that binds it.
    fn get(&self, name: &String) -> (r: Option<Value>)
        ensures
            r == lookup_var(self.model(), name@),
    {
        let ghost model = self.model();
        let mut i = self.scopes.len();
        proof {
            assert(model.take(i as int) =~= model);
        }
        while i > 0
            invariant
                i <= self.scopes@.len(),
                model == self.model(),
                model.len() == self.scopes@.len(),
                lookup_var(model, name@) == lookup_var(model.take(i as int), name@),
            decreases i,
        {
            i = i - 1;
            let scope = &self.scopes[i];
            let ghost prefix = model.take(i + 1);
            proof {
                assert(prefix.last() == scope_map(scope@));
                assert(prefix.drop_last() =~= model.take(i as int));
            }
            let mut j = scope.len();
            while j > 0
                invariant
                    j <= scope@.len(),
                    forall|l: int| j <= l < scope@.len() ==> #[trigger] scope@[l].0@ != name@,
                    prefix.len() > 0,
                    prefix.last() == scope_map(scope@),
                    lookup_var(model, name@) == lookup_var(prefix, name@),
                    model == self.model(),
                decreases j,
            {
                j = j - 1;
                if scope[j].0 == *name {
                    proof {
                        lemma_scope_map_at(scope@, j as int);
                    }
                    return Some(scope[j].1);
                }
            }
            proof {
                lemma_scope_map_prefix(scope@, 0, name@);
                assert(scope@.take(0) =~= Seq::<(String, Value)>::empty());
            }
        }
        None
    }

    /// Rebinds `name` in the innermost scope that binds it; false (and no
    /// change) when no scope binds it.
    fn assign(&mut self, name: &String, value: Value) -> (r: bool)
        ensures
            r == (lookup_var(old(self).model(), name@) is Some),
            r ==> final(self).model() =~= assign_var(old(self).model(), name@, value),
            !r ==> final(self).model() == old(self).model(),
    {
        let ghost model = self.model();
        let mut i = self.scopes.len();
        proof {
            assert(model.take(i as int) =~= model);
            assert(model.skip(i as int) =~= Seq::<Map<Seq<char>, Value>>::empty());
        }
        while i > 0
            invariant
                i <= self.scopes@.len(),
                model == self.model(),
                model.len() == self.scopes@.len(),
                *self == *old(self),
                lookup_var(model, name@) == lookup_var(model.take(i as int), name@),
                assign_var(model, name@, value) =~= assign_var(model.take(i as int), name@, value)
                    + model.skip(i as int),
            decreases i,
        {
            i = i - 1;
            let ghost prefix = model.take(i + 1);
            proof {
                assert(prefix.drop_last() =~= model.take(i as int));
                assert(prefix.last() == model[i as int]);
                assert(model.skip(i as int) =~= seq![prefix.last()] + model.skip(i + 1));
                if !prefix.last().contains_key(name@) {
                    assert(assign_var(model.take(i as int), name@, value) + model.skip(i as int)
                        =~= assign_var(model.take(i as int), name@, value).push(prefix.last())
                        + model.skip(i + 1));
                }
            }
            let n = self.scopes[i].len();
            let mut j = n;
            while j > 0
                invariant
                    j <= n,
                    n == self.scopes@[i as int]@.len(),
                    i < self.scopes@.len(),
                    *self == *old(self),
                    model == self.model(),
                    model.len() == self.scopes@.len(),
                    prefix == model.take(i + 1),
                    prefix.len() == i + 1,
                    prefix.last() == scope_map(self.scopes@[i as int]@),
                    lookup_var(model, name@) == lookup_var(prefix, name@),
                    assign_var(model, name@, value) =~= assign_var(prefix, name@, value)
                        + model.skip(i + 1),
                    forall|l: int|
                        j <= l < n ==> #[trigger] self.scopes@[i as int]@[l].0@ != name@,
                decreases j,
            {
                j = j - 1;
                if self.scopes[i][j].0 == *name {
                    let ghost s = self.scopes@[i as int]@;
                    proof {
                        lemma_scope_map_at(s, j as int);
                    }
                    let mut scope = Vec::new();
                    self.scopes.set_and_swap(i, &mut scope);
                    let entry = (name.clone(), value);
                    let ghost ge = entry;
                    scope.set(j, entry);
                    proof {
                        lemma_scope_map_update(s, j as int, ge);
                    }
                    self.scopes.set_and_swap(i, &mut scope);
                    proof {
                        let upd = prefix.update(i as int, prefix.last().insert(name@, value));
                        assert(assign_var(prefix, name@, value) == upd);
                        assert(self.model() =~= upd + model.skip(i + 1));
                    }
                    return true;
                }
            }
            proof {
                let s = self.scopes@[i as int]@;
                lemma_scope_map_prefix(s, 0, name@);
                assert(s.take(0) =~= Seq::<(String, Value)>::empty());
                assert(!prefix.last().contains_key(name@));
                assert(assign_var(prefix, name@, value) == assign_var(
                    model.take(i as int),
                    name@,
                    value,
                ).push(prefix.last()));
                assert(model.skip(i as int) =~= seq![prefix.last()] + model.skip(i + 1));
                assert(assign_var(model.take(i as int), name@, value) + model.skip(i as int)
                    =~= assign_var(model.take(i as int), name@, value).push(prefix.last())
                    + model.skip(i + 1));
            }
        }
        proof {
            assert(model.take(0) =~= Seq::<Map<Seq<char>, Value>>::empty());
            assert(model.skip(0) =~= model);
        }
        false
    }
}

} // verus!

verus! {

// ---------------------------------------------------------------------
// Arithmetic
// ---------------------------------------------------------------------

pub(crate) proof fn lemma_div_toward_zero_bounds(a: int, b: int)
    requires
        fits_i32(a),
        fits_i32(b),
        b != 0,
        !(a == i32::MIN && b == -1),
    ensures
        fits_i32(div_toward_zero(a, b)),
        fits_i32(rem_toward_zero(a, b)),
{
    let ua = if a >= 0 { a } else { -a };
    let ub = if b > 0 { b } else { -b };
    assert(ub >= 1);
    assert(0 <= ua / ub <= ua) by {
        vstd::arithmetic::div_mod::lemma_div_pos_is_pos(ua, ub);
        vstd::arithmetic::div_mod::lemma_div_is_ordered_by_denominator(ua, 1, ub);
    }
    assert(ua / 1 == ua);
    if ua / ub == ua && ua == 0x8000_0000 {
        // Only |b| == 1 keeps |a| unchanged.
        if ub > 1 {
            assert(ua / ub < ua) by {
                vstd::arithmetic::div_mod::lemma_div_decreases(ua, ub);
            }
        }
    }
    assert(ua == ub * (ua / ub) + ua % ub) by {
        vstd::arithmetic::div_mod::lemma_fundamental_div_mod(ua, ub);
    }
    assert(0 <= ua % ub < ub) by {
        vstd::arithmetic::div_mod::lemma_mod_pos_bound(ua, ub);
    }
    if a >= 0 {
        if b > 0 {
            assert(rem_toward_zero(a, b) == ua % ub);
        } else {
            assert(b * (-(ua / ub)) == ub * (ua / ub)) by (nonlinear_arith)
                requires
                    ub == -b,
            ;
            assert(rem_toward_zero(a, b) == ua % ub);
        }
    } else {
        if b > 0 {
            assert(b * (-(ua / ub)) == -(ub * (ua / ub))) by (nonlinear_arith)
                requires
                    ub == b,
            ;
            assert(rem_toward_zero(a, b) == -(ua % ub));
        } else {
            assert(b * (ua / ub) == -(ub * (ua / ub))) by (nonlinear_arith)
                requires
                    ub == -b,
            ;
            assert(rem_toward_zero(a, b) == -(ua % ub));
        }
    }
}

/// `|a| / |b|` and `|a| % |b|`, with the signs that truncating division
/// gives them.
fn div_rem_toward_zero(a: i32, b: i32) -> (r: (i32, i32))
    requires
        b != 0,
        !(a == i32::MIN && b == -1),
    ensures
        r.0 == div_toward_zero(a as int, b as int),
        r.1 == rem_toward_zero(a as int, b as int),
{
    proof {
        lemma_div_toward_zero_bounds(a as int, b as int);
    }
    let ua: u64 = if a >= 0 { a as u64 } else { (-(a as i64)) as u64 };
    let ub: u64 = if b > 0 { b as u64 } else { (-(b as i64)) as u64 };
    let q = ua / ub;
    let m = ua % ub;
    proof {
        assert(ua == ub * q + m) by {
            vstd::arithmetic::div_mod::lemma_fundamental_div_mod(ua as int, ub as int);
        }
    }
    let qs: i64 = if (a >= 0) == (b > 0) { q as i64 } else { -(q as i64) };
    let ms: i64 = if a >= 0 { m as i64 } else { -(m as i64) };
    proof {
        if a >= 0 && b < 0 {
            assert((b as int) * (-(q as int)) == (ub as int) * (q as int)) by (nonlinear_arith)
                requires ub == -b;
        } else if a < 0 && b > 0 {
            assert((b as int) * (-(q as int)) == -((ub as int) * (q as int))) by (nonlinear_arith)
                requires ub == b;
        } else if a < 0 && b < 0 {
            assert((b as int) * (q as int) == -((ub as int) * (q as int))) by (nonlinear_arith)
                requires ub == -b;
        }
    }
    (qs as i32, ms as i32)
}

pub struct Interpreter<'a> {
    functions: Vec<&'a FunctionDecl>,
}

/// The function declarations of a program, in order.
pub open spec fn program_decls(program: Program) -> Seq<FunctionDecl> {
    program.items@.map_values(|it: Item| match it {
        Item::Function(f) => f,
    })
}

/// What `run` returns for a finished run: its value or its runtime error.
/// It is meant only for finished runs (`run` requires one); a stuck run or
/// one out of fuel has no meaning here, and the last arm only makes the
/// function total.
pub open spec fn run_result(r: Result<Value, Fault>) -> Result<Value, RuntimeError>
    recommends
        finishes(r),
{
    match r {
        Ok(v) => Ok(v),
        Err(Fault::Runtime(e)) => Err(e),
        Err(_) => Err(RuntimeError::NoMainFunction),
    }
}

/// A run with this much fuel ends with a value or a runtime error: it
/// neither gets stuck nor runs out of fuel.
pub open spec fn finishes(r: Result<Value, Fault>) -> bool {
    r is Ok || r matches Err(Fault::Runtime(_))
}

impl<'a> Interpreter<'a> {
    /// The function declarations this interpreter can call, in program order.
    pub closed spec fn decls(&self) -> Seq<FunctionDecl> {
        self.functions@.map_values(|f: &FunctionDecl| *f)
    }

    pub fn new(program: &'a Program) -> (r: Self)
        ensures
            r.decls() =~= program_decls(*program),
    {
        let mut functions: Vec<&'a FunctionDecl> = Vec::new();
        let mut i: usize = 0;
        while i < program.items.len()
            invariant
                i <= program.items@.len(),
                functions@.map_values(|f: &FunctionDecl| *f) =~= program_decls(*program).take(
                    i as int,
                ),
            decreases program.items@.len() - i,
        {
            let ghost before = functions@;
            match &program.items[i] {
                Item::Function(f) => {
                    functions.push(f);
                },
            }
            proof {
                assert(functions@.map_values(|f: &FunctionDecl| *f) =~= before.map_values(
                    |f: &FunctionDecl| *f,
                ).push(program_decls(*program)[i as int]));
                assert(program_decls(*program).take(i + 1) =~= program_decls(*program).take(
                    i as int,
                ).push(program_decls(*program)[i as int]));
            }
            i = i + 1;
        }
        Interpreter { functions }
    }

    /// Runs `main()` with no arguments and returns its value. Its output
    /// (what `print` and `print_bool` emitted) is what `run_bounded` hands
    /// back beside the result.
    pub fn run(&self) -> (r: Result<Value, RuntimeError>)
        requires
            finishes(run_program(self.decls(), u64::MAX as nat).0),
        ensures
            r == run_result(run_program(self.decls(), u64::MAX as nat).0),
            r == Err::<Value, RuntimeError>(RuntimeError::NoMainFunction) <==> lookup_fn(
                self.decls(),
                "main"@,
            ) is None,
    {
        proof {
            crate::rules::run_calls_last_main(self.decls(), u64::MAX as nat);
            crate::rules::lookup_fn_finds_last(self.decls(), "main"@);
        }
        let (res, _out) = self.run_bounded(u64::MAX);
        match res {
            Ok(v) => Ok(v),
            Err(Fault::Runtime(e)) => Err(e),
            // Not reached: the run is required to finish.
            Err(_) => Err(RuntimeError::NoMainFunction),
        }
    }

    /// Runs `main()` with nesting depth bounded by `fuel`: the outcome and
    /// the values printed, in order.
    pub fn run_bounded(&self, fuel: u64) -> (r: (Result<Value, Fault>, Vec<Value>))
        ensures
            (r.0, r.1@) == run_program(self.decls(), fuel as nat),
    {
        let mut out: Vec<Value> = Vec::new();
        let main_name = String::from_str("main");
        match self.find_function(&main_name) {
            None => (Err(Fault::Runtime(RuntimeError::NoMainFunction)), out),
            Some(main) => {
                let r = self.call_function(main, Vec::new(), fuel, &mut out);
                (r, out)
            },
        }
    }

    /// The last declared function called `name`.
    fn find_function(&self, name: &String) -> (r: Option<&'a FunctionDecl>)
        ensures
            r matches Some(f) ==> lookup_fn(self.decls(), name@) == Some(*f),
            r is None ==> lookup_fn(self.decls(), name@) is None,
    {
        let ghost fns = self.decls();
        let mut i = self.functions.len();
        proof {
            assert(fns.take(i as int) =~= fns);
        }
        while i > 0
            invariant
                i <= self.functions@.len(),
                fns == self.decls(),
                fns.len() == self.functions@.len(),
                lookup_fn(fns, name@) == lookup_fn(fns.take(i as int), name@),
            decreases i,
        {
            i = i - 1;
            proof {
                assert(fns.take(i + 1).drop_last() =~= fns.take(i as int));
                assert(fns.take(i + 1).last() == *self.functions@[i as int]);
            }
            if self.functions[i].name == *name {
                return Some(self.functions[i]);
            }
        }
        None
    }
}

} // verus!

verus! {

fn unary_value(op: UnOp, v: Value) -> (r: Result<Value, Fault>)
    ensures
        r == unary_result(op, v),
{
    match (op, v) {
        (UnOp::Neg, Value::I32(n)) => {
            if n == i32::MIN {
                Err(Fault::Runtime(RuntimeError::IntegerOverflow))
            } else {
                Ok(Value::I32(-n))
            }
        },
        (UnOp::Not, Value::Bool(b)) => Ok(Value::Bool(!b)),
        _ => Err(Fault::Stuck),
    }
}

/// Narrows an `i64` that came out of `i32` arithmetic, or reports overflow.
fn to_i32(n: i64) -> (r: Result<Value, Fault>)
    ensures
        r == crate::semantics::checked_i32(n as int),
{
    if i32::MIN as i64 <= n && n <= i32::MAX as i64 {
        Ok(Value::I32(n as i32))
    } else {
        Err(Fault::Runtime(RuntimeError::IntegerOverflow))
    }
}

impl<'a> Interpreter<'a> {
    fn call_function(&self, f: &FunctionDecl, args: Vec<Value>, fuel: u64, out: &mut Vec<Value>) -> (r:
        Result<Value, Fault>)
        ensures
            (r, final(out)@) == call_fn(self.decls(), fuel as nat, *f, args@, old(out)@),
        decreases fuel, 0nat,
    {
        if fuel == 0 {
            return Err(Fault::OutOfFuel);
        }
        let mut env = Env::new();
        let n = if f.params.len() <= args.len() { f.params.len() } else { args.len() };
        let mut i: usize = 0;
        while i < n
            invariant
                i <= n,
                n == min(f.params@.len() as int, args@.len() as int),
                env.model() =~= seq![bind_params(f.params@, args@, i as int)],
            decreases n - i,
        {
            env.declare(f.params[i].name.clone(), args[i]);
            i = i + 1;
        }
        // A function's own `return` ends this call only: whether the body
        // finished through `return` or its tail, the caller gets the value.
        match self.exec_block(&f.body, &mut env, fuel - 1, out) {
            Err(x) => Err(x),
            Ok(Flow::Normal(v)) => Ok(v),
            Ok(Flow::Return(v)) => Ok(v),
        }
    }

    fn exec_block(&self, block: &Block, env: &mut Env, fuel: u64, out: &mut Vec<Value>) -> (r: Result<
        Flow,
        Fault,
    >)
        requires
            old(env).model().len() >= 1,
        ensures
            (r, (Machine { scopes: final(env).model(), out: final(out)@ })) == run_block(
                self.decls(),
                fuel as nat,
                *block,
                (Machine { scopes: old(env).model(), out: old(out)@ }),
            ),
            final(env).model().len() >= 1,
            r matches Ok(Flow::Normal(_)) ==> final(env).model().len() == old(env).model().len(),
        decreases fuel, 0nat,
    {
        if fuel == 0 {
            return Err(Fault::OutOfFuel);
        }
        let ghost fns = self.decls();
        let f = fuel - 1;
        env.push_scope();
        let ghost m0 = Machine { scopes: env.model(), out: out@ };
        let mut k = f;
        let mut i: usize = 0;
        loop
            invariant
                i <= block.stmts@.len(),
                k <= f,
                f + 1 == fuel,
                fns == self.decls(),
                m0.scopes == old(env).model().push(Map::empty()),
                m0.out == old(out)@,
                env.model().len() == old(env).model().len() + 1,
                run_stmts(fns, f as nat, block.stmts@, 0, m0) == run_stmts(
                    fns,
                    k as nat,
                    block.stmts@,
                    i as int,
                    (Machine { scopes: env.model(), out: out@ }),
                ),
            ensures
                k > 0,
                i >= block.stmts@.len(),
                env.model().len() == old(env).model().len() + 1,
                run_stmts(fns, f as nat, block.stmts@, 0, m0) == (
                    Ok::<Option<Value>, Fault>(None),
                    (Machine { scopes: env.model(), out: out@ }),
                ),
            decreases k,
        {
            if k == 0 {
                return Err(Fault::OutOfFuel);
            }
            if i >= block.stmts.len() {
                break;
            }
            match self.exec_stmt(&block.stmts[i], env, k - 1, out) {
                Err(x) => {
                    return Err(x);
                },
                Ok(Flow::Return(v)) => {
                    // The scope is left in place: the whole call is unwinding
                    // and its environment is about to be dropped.
                    return Ok(Flow::Return(v));
                },
                Ok(Flow::Normal(_)) => {},
            }
            k = k - 1;
            i = i + 1;
        }
        match &block.tail {
            None => {
                env.pop_scope();
                Ok(Flow::Normal(Value::Unit))
            },
            Some(t) => match self.eval(t, env, f, out) {
                Err(x) => Err(x),
                Ok(Flow::Return(v)) => Ok(Flow::Return(v)),
                Ok(Flow::Normal(v)) => {
                    env.pop_scope();
                    Ok(Flow::Normal(v))
                },
            },
        }
    }

    fn exec_stmt(&self, stmt: &Stmt, env: &mut Env, fuel: u64, out: &mut Vec<Value>) -> (r: Result<
        Flow,
        Fault,
    >)
        requires
            old(env).model().len() >= 1,
        ensures
            (r, (Machine { scopes: final(env).model(), out: final(out)@ })) == run_stmt(
                self.decls(),
                fuel as nat,
                *stmt,
                (Machine { scopes: old(env).model(), out: old(out)@ }),
            ),
            final(env).model().len() >= 1,
            r matches Ok(Flow::Normal(_)) ==> final(env).model().len() == old(env).model().len(),
        decreases fuel, 0nat,
    {
        if fuel == 0 {
            return Err(Fault::OutOfFuel);
        }
        let f = fuel - 1;
        match stmt {
            Stmt::Let { name, value, .. } => match self.eval(value, env, f, out) {
                Err(x) => Err(x),
                Ok(Flow::Return(v)) => Ok(Flow::Return(v)),
                Ok(Flow::Normal(v)) => {
                    env.declare(name.clone(), v);
                    Ok(Flow::Normal(Value::Unit))
                },
            },
            Stmt::Return(None) => Ok(Flow::Return(Value::Unit)),
            Stmt::Return(Some(e)) => match self.eval(e, env, f, out) {
                Err(x) => Err(x),
                Ok(Flow::Return(v)) => Ok(Flow::Return(v)),
                Ok(Flow::Normal(v)) => Ok(Flow::Return(v)),
            },
            Stmt::While { cond, body } => self.exec_while(cond, body, env, f, out),
            // A statement's value is dropped, but a `return` buried in it
            // (say in an `if` used as a statement) still propagates.
            Stmt::Expr(e) => self.eval(e, env, f, out),
        }
    }

    fn exec_while(
        &self,
        cond: &Expr,
        body: &Block,
        env: &mut Env,
        fuel: u64,
        out: &mut Vec<Value>,
    ) -> (r: Result<Flow, Fault>)
        requires
            old(env).model().len() >= 1,
        ensures
            (r, (Machine { scopes: final(env).model(), out: final(out)@ })) == run_while(
                self.decls(),
                fuel as nat,
                *cond,
                *body,
                (Machine { scopes: old(env).model(), out: old(out)@ }),
            ),
            final(env).model().len() >= 1,
            r matches Ok(Flow::Normal(_)) ==> final(env).model().len() == old(env).model().len(),
        decreases fuel, 0nat,
    {
        let ghost fns = self.decls();
        let ghost m0 = Machine { scopes: env.model(), out: out@ };
        let ghost len0 = env.model().len();
        let mut k = fuel;
        loop
            invariant
                k <= fuel,
                fns == self.decls(),
                env.model().len() == len0,
                len0 == old(env).model().len(),
                len0 >= 1,
                m0 == (Machine { scopes: old(env).model(), out: old(out)@ }),
                run_while(fns, fuel as nat, *cond, *body, m0) == run_while(
                    fns,
                    k as nat,
                    *cond,
                    *body,
                    (Machine { scopes: env.model(), out: out@ }),
                ),
            decreases k,
        {
            if k == 0 {
                return Err(Fault::OutOfFuel);
            }
            match self.eval(cond, env, k - 1, out) {
                Err(x) => {
                    return Err(x);
                },
                Ok(Flow::Return(v)) => {
                    return Ok(Flow::Return(v));
                },
                Ok(Flow::Normal(Value::Bool(false))) => {
                    return Ok(Flow::Normal(Value::Unit));
                },
                Ok(Flow::Normal(Value::Bool(true))) => {},
                Ok(Flow::Normal(_)) => {
                    return Err(Fault::Stuck);
                },
            }
            match self.exec_block(body, env, k - 1, out) {
                Err(x) => {
                    return Err(x);
                },
                Ok(Flow::Return(v)) => {
                    return Ok(Flow::Return(v));
                },
                Ok(Flow::Normal(_)) => {},
            }
            k = k - 1;
        }
    }

    fn eval(&self, expr: &Expr, env: &mut Env, fuel: u64, out: &mut Vec<Value>) -> (r: Result<
        Flow,
        Fault,
    >)
        requires
            old(env).model().len() >= 1,
        ensures
            (r, (Machine { scopes: final(env).model(), out: final(out)@ })) == eval_expr(
                self.decls(),
                fuel as nat,
                *expr,
                (Machine { scopes: old(env).model(), out: old(out)@ }),
            ),
            final(env).model().len() >= 1,
            r matches Ok(Flow::Normal(_)) ==> final(env).model().len() == old(env).model().len(),
        decreases fuel, 0nat,
    {
        if fuel == 0 {
            return Err(Fault::OutOfFuel);
        }
        let f = fuel - 1;
        match expr {
            Expr::IntLit(n) => {
                if i32::MIN as i64 <= *n && *n <= i32::MAX as i64 {
                    Ok(Flow::Normal(Value::I32(*n as i32)))
                } else {
                    Err(Fault::Runtime(RuntimeError::LiteralOutOfRange(*n)))
                }
            },
            Expr::BoolLit(b) => Ok(Flow::Normal(Value::Bool(*b))),
            Expr::Ident(name) => match env.get(name) {
                Some(v) => Ok(Flow::Normal(v)),
                None => Err(Fault::Stuck),
            },
            Expr::Unary { op, expr } => match self.eval(expr, env, f, out) {
                Err(x) => Err(x),
                Ok(Flow::Return(v)) => Ok(Flow::Return(v)),
                Ok(Flow::Normal(v)) => match unary_value(*op, v) {
                    Ok(w) => Ok(Flow::Normal(w)),
                    Err(x) => Err(x),
                },
            },
            Expr::Binary { op, lhs, rhs } => self.eval_binary(*op, lhs, rhs, env, f, out),
            Expr::Assign { name, value } => match self.eval(value, env, f, out) {
                Err(x) => Err(x),
                Ok(Flow::Return(v)) => Ok(Flow::Return(v)),
                Ok(Flow::Normal(v)) => {
                    proof {
                        crate::semantics::lemma_assign_var_len(env.model(), name@, v);
                    }
                    if env.assign(name, v) {
                        // An assignment expression's own value is `()`.
                        Ok(Flow::Normal(Value::Unit))
                    } else {
                        Err(Fault::Stuck)
                    }
                },
            },
            Expr::Call { callee, args } => self.eval_call(callee, args, env, f, out),
            Expr::If { cond, then_branch, else_branch } => match self.eval(cond, env, f, out) {
                Err(x) => Err(x),
                Ok(Flow::Return(v)) => Ok(Flow::Return(v)),
                Ok(Flow::Normal(Value::Bool(true))) => self.exec_block(then_branch, env, f, out),
                Ok(Flow::Normal(Value::Bool(false))) => match else_branch {
                    None => Ok(Flow::Normal(Value::Unit)),
                    Some(br) => match &**br {
                        ElseBranch::Block(b) => self.exec_block(b, env, f, out),
                        ElseBranch::If(inner) => self.eval(inner, env, f, out),
                    },
                },
                Ok(Flow::Normal(_)) => Err(Fault::Stuck),
            },
            Expr::Block(b) => self.exec_block(b, env, f, out),
        }
    }

    /// A call `callee(args)`, evaluated with `fuel` (one less than the call
    /// expression had).
    fn eval_call(
        &self,
        callee: &String,
        args: &Vec<Expr>,
        env: &mut Env,
        fuel: u64,
        out: &mut Vec<Value>,
    ) -> (r: Result<Flow, Fault>)
        requires
            old(env).model().len() >= 1,
            fuel < u64::MAX,
        ensures
            (r, (Machine { scopes: final(env).model(), out: final(out)@ })) == eval_expr(
                self.decls(),
                (fuel + 1) as nat,
                Expr::Call { callee: *callee, args: *args },
                (Machine { scopes: old(env).model(), out: old(out)@ }),
            ),
            final(env).model().len() >= 1,
            r matches Ok(Flow::Normal(_)) ==> final(env).model().len() == old(env).model().len(),
        decreases fuel, 1nat,
    {
        let ghost fns = self.decls();
        let ghost m0 = Machine { scopes: env.model(), out: out@ };
        let ghost len0 = env.model().len();
        let mut vals: Vec<Value> = Vec::new();
        let mut k = fuel;
        let mut i: usize = 0;
        loop
            invariant
                k <= fuel,
                i <= args@.len(),
                fns == self.decls(),
                env.model().len() == len0,
                len0 == old(env).model().len(),
                len0 >= 1,
                fuel < u64::MAX,
                m0 == (Machine { scopes: old(env).model(), out: old(out)@ }),
                eval_args(fns, fuel as nat, args@, 0, seq![], m0) == eval_args(
                    fns,
                    k as nat,
                    args@,
                    i as int,
                    vals@,
                    (Machine { scopes: env.model(), out: out@ }),
                ),
            ensures
                eval_args(fns, fuel as nat, args@, 0, seq![], m0) == (
                    Ok::<Option<Value>, Fault>(None),
                    vals@,
                    (Machine { scopes: env.model(), out: out@ }),
                ),
                env.model().len() == len0,
            decreases k,
        {
            if k == 0 {
                return Err(Fault::OutOfFuel);
            }
            if i >= args.len() {
                break;
            }
            match self.eval(&args[i], env, k - 1, out) {
                Err(x) => {
                    return Err(x);
                },
                Ok(Flow::Return(v)) => {
                    return Ok(Flow::Return(v));
                },
                Ok(Flow::Normal(v)) => {
                    vals.push(v);
                },
            }
            k = k - 1;
            i = i + 1;
        }
        match lookup_builtin(callee.as_str()) {
            Some(b) => match b.call {
                BuiltinFn::Print => {
                    if vals.len() >= 1 {
                        builtin_print(&vals, out);
                        Ok(Flow::Normal(Value::Unit))
                    } else {
                        Err(Fault::Stuck)
                    }
                },
            },
            None => match self.find_function(callee) {
                None => Err(Fault::Stuck),
                Some(fd) => match self.call_function(fd, vals, fuel, out) {
                    Ok(v) => Ok(Flow::Normal(v)),
                    Err(x) => Err(x),
                },
            },
        }
    }

    /// `&&` and `||` leave their right operand unevaluated (with whatever
    /// `return` or fault it holds) once the left one decides the result;
    /// every other operator goes to `apply_binop`.
    fn eval_binary(
        &self,
        op: BinOp,
        lhs: &Expr,
        rhs: &Expr,
        env: &mut Env,
        fuel: u64,
        out: &mut Vec<Value>,
    ) -> (r: Result<Flow, Fault>)
        requires
            old(env).model().len() >= 1,
        ensures
            (r, (Machine { scopes: final(env).model(), out: final(out)@ })) == eval_binary(
                self.decls(),
                fuel as nat,
                op,
                *lhs,
                *rhs,
                (Machine { scopes: old(env).model(), out: old(out)@ }),
            ),
            final(env).model().len() >= 1,
            r matches Ok(Flow::Normal(_)) ==> final(env).model().len() == old(env).model().len(),
        decreases fuel, 0nat,
    {
        if fuel == 0 {
            return Err(Fault::OutOfFuel);
        }
        let f = fuel - 1;
        let l = match self.eval(lhs, env, f, out) {
            Err(x) => {
                return Err(x);
            },
            Ok(Flow::Return(v)) => {
                return Ok(Flow::Return(v));
            },
            Ok(Flow::Normal(v)) => v,
        };
        if op == BinOp::And || op == BinOp::Or {
            match l {
                Value::Bool(lb) => {
                    if (op == BinOp::And && !lb) || (op == BinOp::Or && lb) {
                        Ok(Flow::Normal(Value::Bool(lb)))
                    } else {
                        self.eval(rhs, env, f, out)
                    }
                },
                _ => Err(Fault::Stuck),
            }
        } else {
            let r = match self.eval(rhs, env, f, out) {
                Err(x) => {
                    return Err(x);
                },
                Ok(Flow::Return(v)) => {
                    return Ok(Flow::Return(v));
                },
                Ok(Flow::Normal(v)) => v,
            };
            match self.apply_binop(op, l, r) {
                Ok(w) => Ok(Flow::Normal(w)),
                Err(x) => Err(x),
            }
        }
    }

    fn apply_binop(&self, op: BinOp, lhs: Value, rhs: Value) -> (r: Result<Value, Fault>)
        ensures
            r == binop_result(op, lhs, rhs),
    {
        match (op, lhs, rhs) {
            (BinOp::Add, Value::I32(a), Value::I32(b)) => to_i32(a as i64 + b as i64),
            (BinOp::Sub, Value::I32(a), Value::I32(b)) => to_i32(a as i64 - b as i64),
            (BinOp::Mul, Value::I32(a), Value::I32(b)) => {
                proof {
                    assert(i32::MIN * i32::MIN >= (a as int) * (b as int) >= i32::MIN * i32::MAX)
                        by (nonlinear_arith);
                }
                to_i32(a as i64 * b as i64)
            },
            (BinOp::Div, Value::I32(a), Value::I32(b)) => {
                if b == 0 {
                    return Err(Fault::Runtime(RuntimeError::DivisionByZero));
                }
                // Only i32::MIN / -1 leaves the range.
                if a == i32::MIN && b == -1 {
                    return Err(Fault::Runtime(RuntimeError::IntegerOverflow));
                }
                proof {
                    lemma_div_toward_zero_bounds(a as int, b as int);
                }
                let (q, _) = div_rem_toward_zero(a, b);
                Ok(Value::I32(q))
            },
            (BinOp::Mod, Value::I32(a), Value::I32(b)) => {
                if b == 0 {
                    return Err(Fault::Runtime(RuntimeError::ModuloByZero));
                }
                if a == i32::MIN && b == -1 {
                    return Err(Fault::Runtime(RuntimeError::IntegerOverflow));
                }
                let (_, m) = div_rem_toward_zero(a, b);
                Ok(Value::I32(m))
            },
            (BinOp::Lt, Value::I32(a), Value::I32(b)) => Ok(Value::Bool(a < b)),
            (BinOp::Gt, Value::I32(a), Value::I32(b)) => Ok(Value::Bool(a > b)),
            (BinOp::LtEq, Value::I32(a), Value::I32(b)) => Ok(Value::Bool(a <= b)),
            (BinOp::GtEq, Value::I32(a), Value::I32(b)) => Ok(Value::Bool(a >= b)),
            (BinOp::Eq, a, b) => Ok(Value::Bool(a == b)),
            (BinOp::NotEq, a, b) => Ok(Value::Bool(a != b)),
            _ => Err(Fault::Stuck),
        }
    }
}

} // verus!
