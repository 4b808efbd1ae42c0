//! Built-in functions callable from source programs.
//!
//! Each entry carries its own signature, so whoever seeds a function table
//! from `lookup_builtin` and the interpreter (which dispatches through it)
//! can never disagree about what a builtin accepts or returns.
use vstd::prelude::*;

use crate::ast::Type;
use crate::interpreter::Value;

verus! {

/// What a builtin does when called.
#[derive(Debug, Clone, Copy, PartialEq, Eq, Structural)]
pub enum BuiltinFn {
    /// Emits its first argument to the program's output and yields `()`.
    Print,
}

pub struct Builtin {
    pub name: &'static str,
    pub params: Vec<Type>,
    pub ret: Type,
    pub call: BuiltinFn,
}

/// The parameter types of the builtin called `name`, if there is one.
pub open spec fn builtin_params(name: Seq<char>) -> Option<Seq<Type>> {
    if name == "print"@ {
        Some(seq![Type::I32])
    } else if name == "print_bool"@ {
        Some(seq![Type::Bool])
    } else {
        None
    }
}

/// Character-wise equality of two string slices.
pub fn same_text(a: &str, b: &str) -> (r: bool)
    ensures
        r == (a@ == b@),
{
    a.to_owned() == b.to_owned()
}

pub fn lookup_builtin(name: &str) -> (r: Option<Builtin>)
    ensures
        builtin_params(name@) is None <==> r is None,
        r matches Some(b) ==> {
            &&& b.name@ == name@
            &&& Some(b.params@) == builtin_params(name@)
            &&& b.ret == Type::Unit
            &&& b.call == BuiltinFn::Print
        },
{
    if same_text(name, "print") {
        let mut params = Vec::new();
        params.push(Type::I32);
        Some(Builtin { name: "print", params, ret: Type::Unit, call: BuiltinFn::Print })
    } else if same_text(name, "print_bool") {
        let mut params = Vec::new();
        params.push(Type::Bool);
        Some(Builtin { name: "print_bool", params, ret: Type::Unit, call: BuiltinFn::Print })
    } else {
        proof {
            reveal_strlit("print");
            reveal_strlit("print_bool");
        }
        None
    }
}

/// Every builtin, each name once.
pub fn builtin_table() -> (r: Vec<Builtin>)
    ensures
        forall|i: int|
            0 <= i < r@.len() ==> {
                &&& builtin_params((#[trigger] r@[i]).name@) == Some(r@[i].params@)
                &&& r@[i].ret == Type::Unit
                &&& r@[i].call == BuiltinFn::Print
            },
        forall|i: int, j: int|
            0 <= i < j < r@.len() ==> (#[trigger] r@[i]).name@ != (#[trigger] r@[j]).name@,
        forall|name: Seq<char>|
            #[trigger] builtin_params(name) is Some ==> exists|i: int|
                0 <= i < r@.len() && (#[trigger] r@[i]).name@ == name,
{
    let mut table = Vec::new();
    let mut p1 = Vec::new();
    p1.push(Type::I32);
    table.push(Builtin { name: "print", params: p1, ret: Type::Unit, call: BuiltinFn::Print });
    let mut p2 = Vec::new();
    p2.push(Type::Bool);
    table.push(Builtin { name: "print_bool", params: p2, ret: Type::Unit, call: BuiltinFn::Print });
    proof {
        reveal_strlit("print");
        reveal_strlit("print_bool");
        assert(table@[0].name@ == "print"@);
        assert(table@[1].name@ == "print_bool"@);
        assert forall|name: Seq<char>| #[trigger] builtin_params(name) is Some implies exists|i: int|
            0 <= i < table@.len() && (#[trigger] table@[i]).name@ == name by {
            if name == "print"@ {
                assert(table@[0].name@ == name);
            } else {
                assert(table@[1].name@ == name);
            }
        }
    }
    table
}

/// Runs `print`/`print_bool`: the first argument goes to `out`, the call
/// yields `()`. Argument count and types are the caller's to guarantee.
pub fn builtin_print(args: &Vec<Value>, out: &mut Vec<Value>) -> (r: Value)
    requires
        args@.len() >= 1,
    ensures
        final(out)@ == old(out)@.push(args@[0]),
        r == Value::Unit,
{
    out.push(args[0]);
    Value::Unit
}

} // verus!
