//! The rules of the standard engine that do not depend on the native
//! functions themselves: its operator table, how many arguments a call
//! must pass, and its integer arithmetic.
use vstd::prelude::*;
use crate::error::KaonError;
use crate::op_registry::OpRegistry;
use crate::parse::precedences_bounded;
use crate::value::Type;
use crate::text::str_eq;

verus! {

/// The description and required type of one argument of a native function
#[derive(Debug, Clone, PartialEq)]
pub struct ArgSpec {
    pub desc: String,
    pub ty: Option<Type>,
}

/// The function and precedence of each binary operator of the standard
/// engine: `||` binds loosest, then `&&`, then the comparisons, then `+`
/// and `-`, then `*` and `/`.
pub open spec fn std_binary(k: Seq<char>) -> Option<(Seq<char>, u16)> {
    if k == "+"@ {
        Some(("add"@, 3))
    } else if k == "-"@ {
        Some(("sub"@, 3))
    } else if k == "*"@ {
        Some(("mul"@, 4))
    } else if k == "/"@ {
        Some(("div"@, 4))
    } else if k == "=="@ {
        Some(("eq"@, 2))
    } else if k == "!="@ {
        Some(("neq"@, 2))
    } else if k == "<"@ {
        Some(("lt"@, 2))
    } else if k == ">"@ {
        Some(("gt"@, 2))
    } else if k == "&&"@ {
        Some(("and"@, 1))
    } else if k == "||"@ {
        Some(("or"@, 0))
    } else {
        None
    }
}

/// The function of each unary operator of the standard engine.
pub open spec fn std_unary(k: Seq<char>) -> Option<Seq<char>> {
    if k == "-"@ {
        Some("neg"@)
    } else if k == "!"@ {
        Some("not"@)
    } else {
        None
    }
}

/// The operators of the standard engine
pub fn default_ops() -> (r: OpRegistry)
    ensures
        forall|k: Seq<char>| #[trigger] r.binary_spec(k) == std_binary(k),
        forall|k: Seq<char>| #[trigger] r.unary_spec(k) == std_unary(k),
        precedences_bounded(&r),
{
    proof {
        reveal_strlit("+");
        reveal_strlit("add");
        reveal_strlit("-");
        reveal_strlit("*");
        reveal_strlit("/");
        reveal_strlit("==");
        reveal_strlit("!=");
        reveal_strlit("<");
        reveal_strlit(">");
        reveal_strlit("&&");
        reveal_strlit("||");
        reveal_strlit("!");
        assert("+"@[0] == '+' && "-"@[0] == '-' && "*"@[0] == '*' && "/"@[0] == '/');
        assert("<"@[0] == '<' && ">"@[0] == '>' && "!"@[0] == '!');
        assert("=="@[0] == '=' && "!="@[0] == '!' && "&&"@[0] == '&' && "||"@[0] == '|');
    }
    let mut ops = OpRegistry::new();
    let ghost o0 = ops;
    ops.insert_binary("+", "add", 3);
    let ghost o1 = ops;
    ops.insert_binary("-", "sub", 3);
    let ghost o2 = ops;
    ops.insert_binary("*", "mul", 4);
    let ghost o3 = ops;
    ops.insert_binary("/", "div", 4);
    let ghost o4 = ops;
    ops.insert_binary("==", "eq", 2);
    let ghost o5 = ops;
    ops.insert_binary("!=", "neq", 2);
    let ghost o6 = ops;
    ops.insert_binary("<", "lt", 2);
    let ghost o7 = ops;
    ops.insert_binary(">", "gt", 2);
    let ghost o8 = ops;
    ops.insert_binary("&&", "and", 1);
    let ghost o9 = ops;
    ops.insert_binary("||", "or", 0);
    let ghost o10 = ops;

    ops.insert_unary("-", "neg");
    let ghost o11 = ops;
    ops.insert_unary("!", "not");
    proof {
        assert forall|k: Seq<char>| #[trigger] ops.binary_spec(k) == std_binary(k) by {
            assert(ops.binary_spec(k) == o11.binary_spec(k));
            assert(o11.binary_spec(k) == o10.binary_spec(k));
            assert(o0.binary_spec(k) is None);
            assert(o1.binary_spec(k) == if k == "+"@ { Some(("add"@, 3u16)) } else { o0.binary_spec(k) });
            assert(o2.binary_spec(k) == if k == "-"@ { Some(("sub"@, 3u16)) } else { o1.binary_spec(k) });
            assert(o3.binary_spec(k) == if k == "*"@ { Some(("mul"@, 4u16)) } else { o2.binary_spec(k) });
            assert(o4.binary_spec(k) == if k == "/"@ { Some(("div"@, 4u16)) } else { o3.binary_spec(k) });
            assert(o5.binary_spec(k) == if k == "=="@ { Some(("eq"@, 2u16)) } else { o4.binary_spec(k) });
            assert(o6.binary_spec(k) == if k == "!="@ { Some(("neq"@, 2u16)) } else { o5.binary_spec(k) });
            assert(o7.binary_spec(k) == if k == "<"@ { Some(("lt"@, 2u16)) } else { o6.binary_spec(k) });
            assert(o8.binary_spec(k) == if k == ">"@ { Some(("gt"@, 2u16)) } else { o7.binary_spec(k) });
            assert(o9.binary_spec(k) == if k == "&&"@ { Some(("and"@, 1u16)) } else { o8.binary_spec(k) });
            assert(o10.binary_spec(k) == if k == "||"@ { Some(("or"@, 0u16)) } else { o9.binary_spec(k) });
        }
        assert forall|k: Seq<char>| #[trigger] ops.unary_spec(k) == std_unary(k) by {
            assert(o0.unary_spec(k) is None);
            assert(o10.unary_spec(k) == o0.unary_spec(k)) by {
                assert(o10.unary_spec(k) == o9.unary_spec(k));
                assert(o9.unary_spec(k) == o8.unary_spec(k));
                assert(o8.unary_spec(k) == o7.unary_spec(k));
                assert(o7.unary_spec(k) == o6.unary_spec(k));
                assert(o6.unary_spec(k) == o5.unary_spec(k));
                assert(o5.unary_spec(k) == o4.unary_spec(k));
                assert(o4.unary_spec(k) == o3.unary_spec(k));
                assert(o3.unary_spec(k) == o2.unary_spec(k));
                assert(o2.unary_spec(k) == o1.unary_spec(k));
                assert(o1.unary_spec(k) == o0.unary_spec(k));
            }
            assert(o11.unary_spec(k) == if k == "-"@ { Some("neg"@) } else { o10.unary_spec(k) });
        }
    }
    ops
}

/// Whether `got` arguments suit a function of `expected` named arguments,
/// with or without a variadic tail: exactly that many, or at least that
/// many when there is a tail
pub fn check_arg_count(expected: usize, variadic: bool, got: usize) -> (r: Result<(), KaonError>)
    ensures
        (if variadic { got >= expected } else { got == expected }) ==> r is Ok,
        !(if variadic { got >= expected } else { got == expected }) ==> r == Err::<(), KaonError>(KaonError::WrongArgCount { expected, got }),
{
    let satisfied = if variadic { got >= expected } else { got == expected };

    if !satisfied {
        return Err(KaonError::WrongArgCount { expected, got });
    }

    Ok(())
}

/// Where the arguments of a call go: one of them, by its index, or the run
/// of them from the first index up to the second
#[derive(Debug, Clone, Copy, PartialEq, Eq, Structural)]
pub enum ArgPlan {
    Single(usize),
    Many(usize, usize),
}

/// The first index of `v` among `names`, if it is there.
pub open spec fn first_index(names: Seq<Seq<char>>, v: Seq<char>, i: int) -> Option<int>
    decreases names.len() - i,
{
    if i < 0 || i >= names.len() {
        None
    } else if names[i] == v {
        Some(i)
    } else {
        first_index(names, v, i + 1)
    }
}

/// How a call of `got` arguments binds to a function's named arguments and
/// its variadic tail: the `i`-th name to the `i`-th argument, in order, then
/// the tail's name to all the arguments after them; a tail named like one
/// of the arguments takes that argument's place.
pub open spec fn arg_plan(names: Seq<Seq<char>>, variadic: Option<Seq<char>>, got: nat) -> Seq<(Seq<char>, ArgPlan)> {
    let fixed = Seq::new(names.len(), |i: int| (names[i], ArgPlan::Single(i as usize)));
    match variadic {
        None => fixed,
        Some(v) => {
            let tail = (v, ArgPlan::Many(names.len() as usize, got as usize));
            match first_index(names, v, 0) {
                Some(j) => fixed.update(j, tail),
                None => fixed.push(tail),
            }
        },
    }
}

/// The names and plans of a binding, the names as chars
pub open spec fn plan_view(p: Seq<(String, ArgPlan)>) -> Seq<(Seq<char>, ArgPlan)> {
    p.map_values(|e: (String, ArgPlan)| (e.0@, e.1))
}

/// The names of a function's arguments, as chars
pub open spec fn names_view(names: Seq<String>) -> Seq<Seq<char>> {
    names.map_values(|s: String| s@)
}

/// Binds a call of `got` arguments to the named arguments `names` and the
/// variadic tail, if the function has one
pub fn bind_plan(names: &Vec<String>, variadic: Option<&str>, got: usize) -> (r: Vec<(String, ArgPlan)>)
    requires
        names.len() <= got,
    ensures
        plan_view(r@) == arg_plan(names_view(names@), match variadic { Some(v) => Some(v@), None => None }, got as nat),
{
    let ghost ns = names_view(names@);
    let mut r: Vec<(String, ArgPlan)> = Vec::new();
    let mut i: usize = 0;
    while i < names.len()
        invariant
            i <= names.len(),
            ns == names_view(names@),
            plan_view(r@) =~= Seq::new(i as nat, |k: int| (ns[k], ArgPlan::Single(k as usize))),
        decreases names.len() - i,
    {
        let name = names[i].clone();
        let ghost before = plan_view(r@);
        r.push((name, ArgPlan::Single(i)));
        proof {
            assert(ns[i as int] == names@[i as int]@);
            assert(plan_view(r@) =~= before.push((ns[i as int], ArgPlan::Single(i))));
        }
        i = i + 1;
    }
    let ghost fixed = plan_view(r@);
    let ghost vv: Option<Seq<char>> = match variadic { Some(v) => Some(v@), None => None };
    assert(fixed =~= Seq::new(ns.len(), |k: int| (ns[k], ArgPlan::Single(k as usize))));
    match variadic {
        None => {},
        Some(v) => {
            let tail = ArgPlan::Many(names.len(), got);
            let mut j: usize = 0;
            while j < names.len()
                invariant
                    j <= names.len(),
                    ns == names_view(names@),
                    r@.len() == names.len(),
                    plan_view(r@) == fixed,
                    fixed.len() == ns.len(),
                    first_index(ns, v@, 0) == first_index(ns, v@, j as int),
                    vv == Some(v@),
                    variadic == Some(v),
                    fixed == Seq::new(ns.len(), |k: int| (ns[k], ArgPlan::Single(k as usize))),
                    tail == ArgPlan::Many(ns.len() as usize, got),
                decreases names.len() - j,
            {
                if str_eq(names[j].as_str(), v) {
                    r.set(j, (v.to_owned(), tail));
                    proof {
                        assert(ns[j as int] == v@);
                        assert(first_index(ns, v@, j as int) == Some(j as int));
                        assert(plan_view(r@) =~= fixed.update(j as int, (v@, tail)));
                        assert(plan_view(r@) == arg_plan(ns, vv, got as nat));
                    }
                    return r;
                }
                j = j + 1;
            }
            r.push((v.to_owned(), tail));
            proof {
                assert(plan_view(r@) =~= fixed.push((v@, tail)));
                assert(plan_view(r@) == arg_plan(ns, vv, got as nat));
            }
        },
    }
    r
}

/// An arithmetic function of the standard engine
#[derive(Debug, Clone, Copy, PartialEq, Eq, Structural)]
pub enum Arith {
    Add,
    Sub,
    Mul,
    Div,
}

/// The exact value of an arithmetic function on integers (division
/// rounding toward zero, as Rust's `/` does).
pub open spec fn arith_value(op: Arith, a: int, b: int) -> int {
    match op {
        Arith::Add => a + b,
        Arith::Sub => a - b,
        Arith::Mul => a * b,
        Arith::Div => {
            let q = (if a < 0 { -a } else { a }) / (if b < 0 { -b } else { b });
            if (a < 0) == (b < 0) { q } else { -q }
        },
    }
}

/// Where Rust's `i32` arithmetic panics: on overflow, and on division by zero.
pub open spec fn arith_defined(op: Arith, a: i32, b: i32) -> bool {
    &&& !(op is Div && b == 0)
    &&& i32::MIN <= arith_value(op, a as int, b as int) <= i32::MAX
}

/// The arithmetic functions of the standard engine on two integers
pub fn int_arith(op: Arith, a: i32, b: i32) -> (r: i32)
    requires
        arith_defined(op, a, b),
    ensures
        r == arith_value(op, a as int, b as int),
{
    match op {
        Arith::Add => {
            let r = a + b;
            assert(r == arith_value(op, a as int, b as int));
            r
        },
        Arith::Sub => a - b,
        Arith::Mul => {
            assert(i32::MIN <= a * b <= i32::MAX);
            a * b
        },
        Arith::Div => {
            let ua: u64 = if a < 0 { (0i64 - a as i64) as u64 } else { a as u64 };
            let ub: u64 = if b < 0 { (0i64 - b as i64) as u64 } else { b as u64 };
            let q: u64 = ua / ub;
            assert(q <= ua);
            let r: i64 = if (a < 0) == (b < 0) { q as i64 } else { 0i64 - q as i64 };
            r as i32
        },
    }
}

/// Negating an integer (the `neg` function), which overflows only at the smallest `i32`
pub fn int_neg(a: i32) -> (r: i32)
    requires
        a > i32::MIN,
    ensures
        r == -a,
{
    -a
}

/// A comparison function of the standard engine
#[derive(Debug, Clone, Copy, PartialEq, Eq, Structural)]
pub enum Compare {
    Lt,
    Gt,
}

/// The comparison functions of the standard engine on two integers
pub fn int_compare(op: Compare, a: i32, b: i32) -> (r: bool)
    ensures
        r == match op {
            Compare::Lt => a < b,
            Compare::Gt => a > b,
        },
{
    match op {
        Compare::Lt => a < b,
        Compare::Gt => a > b,
    }
}

} // verus!
