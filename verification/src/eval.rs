//! The evaluator: walks an atom against an environment, evaluating elements
//! in order and applying builtins, with a strict runtime error taxonomy.

use vstd::prelude::*;

use crate::atom::Atom;
use crate::atom::BuiltinOp;
use crate::atom::RunTimeError;
use crate::atom::SAtom;
use crate::atom::map_insert;
use crate::atom::entries_sorted;
use crate::atom::swf;
use crate::atom::swf_seq;
use crate::atom::swf_entries;
use crate::atom::lemma_swf_seq_push;
use crate::atom::lemma_map_insert_wf;
use crate::atom::lemma_map_insert_sorted;
use crate::atom::spec_display;
use crate::atom::spec_map_insert;
use crate::atom::sview_elems;
use crate::atom::sview_entries;
use crate::atom::to_display_string;
use crate::env::Env;
use crate::env::default_env;
use crate::env::spec_default_env;
use crate::env::spec_env_lookup;
use crate::reader::ParseError;
use crate::reader::read;
use crate::reader::spec_read;

verus! {

broadcast use vstd::std_specs::vec::axiom_vec_index_decreases;

/// What evaluating can come to: a value, a runtime error, or — for a division
/// or modulo by zero — no outcome at all, since the native operation does not
/// return on that input.
pub enum Outcome<T> {
    Val(T),
    Fail(RunTimeError),
    DivByZero,
}

/// The view of an atom outcome.
pub open spec fn out_view(o: Outcome<Atom>) -> Outcome<SAtom> {
    match o {
        Outcome::Val(a) => Outcome::Val(a@),
        Outcome::Fail(e) => Outcome::Fail(e),
        Outcome::DivByZero => Outcome::DivByZero,
    }
}

/// The view of an element-vector outcome.
pub open spec fn out_elems_view(o: Outcome<Vec<Atom>>) -> Outcome<Seq<SAtom>> {
    match o {
        Outcome::Val(v) => Outcome::Val(sview_elems(v)),
        Outcome::Fail(e) => Outcome::Fail(e),
        Outcome::DivByZero => Outcome::DivByZero,
    }
}

/// The view of an entry-vector outcome.
pub open spec fn out_entries_view(o: Outcome<Vec<(Atom, Atom)>>) -> Outcome<Seq<(SAtom, SAtom)>> {
    match o {
        Outcome::Val(v) => Outcome::Val(sview_entries(v)),
        Outcome::Fail(e) => Outcome::Fail(e),
        Outcome::DivByZero => Outcome::DivByZero,
    }
}

/// Truncating 64-bit division wrapped into `i64`: the native `/`, with its
/// one overflowing case (`i64::MIN / -1`) wrapping around.
pub open spec fn spec_div_wrap(x: i64, y: i64) -> i64 {
    if x == i64::MIN && y == -1 {
        i64::MIN
    } else {
        match x.checked_div(y) {
            Some(q) => q,
            None => 0,
        }
    }
}

/// The matching remainder, keeping the dividend's sign: the native `%`, with
/// `i64::MIN % -1` wrapping to 0.
pub open spec fn spec_rem_wrap(x: i64, y: i64) -> i64 {
    if x == i64::MIN && y == -1 {
        0
    } else {
        match x.checked_rem(y) {
            Some(q) => q,
            None => 0,
        }
    }
}

/// What a builtin returns on an evaluated argument sequence: exactly two
/// arguments are required (`WrongNumberArguments` otherwise), each an integer
/// (`WrongType` otherwise); `+`, `-` and `*` wrap on overflow, `/` truncates
/// toward zero and `%` keeps the dividend's sign, and a zero divisor has no
/// outcome.
pub open spec fn spec_apply(op: BuiltinOp, args: Seq<SAtom>) -> Outcome<SAtom> {
    if args.len() != 2 {
        Outcome::Fail(RunTimeError::WrongNumberArguments)
    } else {
        match args[0] {
            SAtom::Integer(x) => match args[1] {
                SAtom::Integer(y) => match op {
                    BuiltinOp::Add => Outcome::Val(SAtom::Integer(x.wrapping_add(y))),
                    BuiltinOp::Sub => Outcome::Val(SAtom::Integer(x.wrapping_sub(y))),
                    BuiltinOp::Mul => Outcome::Val(SAtom::Integer(x.wrapping_mul(y))),
                    BuiltinOp::Div => if y == 0 {
                        Outcome::DivByZero
                    } else {
                        Outcome::Val(SAtom::Integer(spec_div_wrap(x, y)))
                    },
                    BuiltinOp::Rem => if y == 0 {
                        Outcome::DivByZero
                    } else {
                        Outcome::Val(SAtom::Integer(spec_rem_wrap(x, y)))
                    },
                },
                _ => Outcome::Fail(RunTimeError::WrongType),
            },
            _ => Outcome::Fail(RunTimeError::WrongType),
        }
    }
}

/// The value of an atom in an environment. Integers, keywords, strings and
/// builtins are themselves; a symbol is looked up (`SymbolNotBound` if
/// absent); a vector or map evaluates element-wise; the empty list is itself;
/// a non-empty list evaluates every element in order, head included, and
/// applies the head — which must then be a builtin (`NotAFunction` otherwise)
/// — to the full remaining argument sequence.
pub open spec fn spec_eval(a: SAtom, env: Seq<(Seq<char>, SAtom)>) -> Outcome<SAtom>
    decreases a, 1int,
{
    match a {
        SAtom::Symbol(s) => match spec_env_lookup(env, s) {
            Some(v) => Outcome::Val(v),
            None => Outcome::Fail(RunTimeError::SymbolNotBound),
        },
        SAtom::List(es) => if es.len() == 0 {
            Outcome::Val(a)
        } else {
            match spec_eval_elems(es, env) {
                Outcome::Val(vs) => match vs[0] {
                    SAtom::Builtin(op) => spec_apply(op, vs.drop_first()),
                    _ => Outcome::Fail(RunTimeError::NotAFunction),
                },
                Outcome::Fail(e) => Outcome::Fail(e),
                Outcome::DivByZero => Outcome::DivByZero,
            }
        },
        SAtom::Vector(es) => match spec_eval_elems(es, env) {
            Outcome::Val(vs) => Outcome::Val(SAtom::Vector(vs)),
            Outcome::Fail(e) => Outcome::Fail(e),
            Outcome::DivByZero => Outcome::DivByZero,
        },
        SAtom::HashMap(m) => match spec_eval_entries(m, env) {
            Outcome::Val(entries) => Outcome::Val(SAtom::HashMap(entries)),
            Outcome::Fail(e) => Outcome::Fail(e),
            Outcome::DivByZero => Outcome::DivByZero,
        },
        _ => Outcome::Val(a),
    }
}

/// Element-wise evaluation, left to right; the first failure wins.
pub open spec fn spec_eval_elems(es: Seq<SAtom>, env: Seq<(Seq<char>, SAtom)>) -> Outcome<
    Seq<SAtom>,
>
    decreases es, 0int,
{
    if es.len() == 0 {
        Outcome::Val(Seq::empty())
    } else {
        match spec_eval_elems(es.drop_last(), env) {
            Outcome::Val(vs) => match spec_eval(es.last(), env) {
                Outcome::Val(v) => Outcome::Val(vs.push(v)),
                Outcome::Fail(e) => Outcome::Fail(e),
                Outcome::DivByZero => Outcome::DivByZero,
            },
            Outcome::Fail(e) => Outcome::Fail(e),
            Outcome::DivByZero => Outcome::DivByZero,
        }
    }
}

/// Entry-wise evaluation: each key, then its value, in entry order, the
/// results inserted into fresh sorted entries; the first failure wins.
pub open spec fn spec_eval_entries(m: Seq<(SAtom, SAtom)>, env: Seq<(Seq<char>, SAtom)>) -> Outcome<
    Seq<(SAtom, SAtom)>,
>
    decreases m, 0int,
{
    if m.len() == 0 {
        Outcome::Val(Seq::empty())
    } else {
        match spec_eval_entries(m.drop_last(), env) {
            Outcome::Val(acc) => match spec_eval(m.last().0, env) {
                Outcome::Val(k) => match spec_eval(m.last().1, env) {
                    Outcome::Val(v) => Outcome::Val(spec_map_insert(acc, k, v)),
                    Outcome::Fail(e) => Outcome::Fail(e),
                    Outcome::DivByZero => Outcome::DivByZero,
                },
                Outcome::Fail(e) => Outcome::Fail(e),
                Outcome::DivByZero => Outcome::DivByZero,
            },
            Outcome::Fail(e) => Outcome::Fail(e),
            Outcome::DivByZero => Outcome::DivByZero,
        }
    }
}

/// Law: a map built by evaluation has strictly ascending, pairwise-distinct
/// keys under the structural order, since the evaluated entries are inserted
/// one by one into fresh sorted entries.
pub proof fn lemma_eval_entries_sorted(m: Seq<(SAtom, SAtom)>, env: Seq<(Seq<char>, SAtom)>)
    ensures
        spec_eval_entries(m, env) matches Outcome::Val(r) ==> entries_sorted(r),
    decreases m.len(),
{
    if m.len() > 0 {
        lemma_eval_entries_sorted(m.drop_last(), env);
        match spec_eval_entries(m.drop_last(), env) {
            Outcome::Val(acc) => match spec_eval(m.last().0, env) {
                Outcome::Val(k) => match spec_eval(m.last().1, env) {
                    Outcome::Val(v) => lemma_map_insert_sorted(acc, k, v),
                    _ => (),
                },
                _ => (),
            },
            _ => (),
        }
    }
}

/// An environment whose bound values are all well-formed.
pub open spec fn swf_env(env: Seq<(Seq<char>, SAtom)>) -> bool {
    forall|i: int| 0 <= i < env.len() ==> swf(#[trigger] env[i].1)
}

/// A lookup in a well-formed environment finds a well-formed value.
proof fn lemma_env_lookup_wf(env: Seq<(Seq<char>, SAtom)>, name: Seq<char>)
    requires
        swf_env(env),
    ensures
        spec_env_lookup(env, name) matches Some(v) ==> swf(v),
    decreases env.len(),
{
    if env.len() > 0 && env[0].0 != name {
        assert(swf_env(env.drop_first())) by {
            assert forall|i: int| 0 <= i < env.drop_first().len() implies swf(
                #[trigger] env.drop_first()[i].1,
            ) by {
                assert(env.drop_first()[i] == env[i + 1]);
                assert(swf(env[i + 1].1));
            }
        }
        lemma_env_lookup_wf(env.drop_first(), name);
    }
}

/// Law: evaluation in an environment whose bindings are well-formed — the
/// default environment among them — yields only well-formed atoms: every map
/// a result holds, at any depth, has strictly ascending, pairwise-distinct
/// keys, since evaluation rebuilds each map by sorted insertion.
pub proof fn lemma_eval_wf(a: SAtom, env: Seq<(Seq<char>, SAtom)>)
    requires
        swf_env(env),
    ensures
        spec_eval(a, env) matches Outcome::Val(v) ==> swf(v),
    decreases a, 1int,
{
    match a {
        SAtom::Symbol(s) => {
            lemma_env_lookup_wf(env, s);
        },
        SAtom::List(es) => {
            if es.len() == 0 {
                assert(swf_seq(es)) by {
                    assert(es.len() == 0);
                }
            } else {
                lemma_eval_elems_wf(es, env);
                match spec_eval_elems(es, env) {
                    Outcome::Val(vs) => match vs[0] {
                        SAtom::Builtin(op) => {
                            // every value a builtin returns is an integer
                            assert(spec_apply(op, vs.drop_first()) matches Outcome::Val(v)
                                ==> swf(v));
                        },
                        _ => (),
                    },
                    _ => (),
                }
            }
        },
        SAtom::Vector(es) => {
            lemma_eval_elems_wf(es, env);
        },
        SAtom::HashMap(m) => {
            lemma_eval_entries_wf(m, env);
            lemma_eval_entries_sorted(m, env);
        },
        _ => (),
    }
}

/// Element-wise evaluation yields only well-formed atoms.
proof fn lemma_eval_elems_wf(es: Seq<SAtom>, env: Seq<(Seq<char>, SAtom)>)
    requires
        swf_env(env),
    ensures
        spec_eval_elems(es, env) matches Outcome::Val(vs) ==> swf_seq(vs),
    decreases es, 0int,
{
    if es.len() > 0 {
        lemma_eval_elems_wf(es.drop_last(), env);
        match spec_eval_elems(es.drop_last(), env) {
            Outcome::Val(vs) => {
                lemma_eval_wf(es.last(), env);
                match spec_eval(es.last(), env) {
                    Outcome::Val(v) => {
                        lemma_swf_seq_push(vs, v);
                    },
                    _ => (),
                }
            },
            _ => (),
        }
    } else {
        assert(swf_seq(Seq::<SAtom>::empty()));
    }
}

/// Entry-wise evaluation yields only well-formed keys and values.
proof fn lemma_eval_entries_wf(m: Seq<(SAtom, SAtom)>, env: Seq<(Seq<char>, SAtom)>)
    requires
        swf_env(env),
    ensures
        spec_eval_entries(m, env) matches Outcome::Val(r) ==> swf_entries(r),
    decreases m, 0int,
{
    if m.len() > 0 {
        lemma_eval_entries_wf(m.drop_last(), env);
        match spec_eval_entries(m.drop_last(), env) {
            Outcome::Val(acc) => {
                lemma_eval_wf(m.last().0, env);
                lemma_eval_wf(m.last().1, env);
                match spec_eval(m.last().0, env) {
                    Outcome::Val(k) => match spec_eval(m.last().1, env) {
                        Outcome::Val(v) => {
                            lemma_map_insert_wf(acc, k, v);
                        },
                        _ => (),
                    },
                    _ => (),
                }
            },
            _ => (),
        }
    } else {
        assert(swf_entries(Seq::<(SAtom, SAtom)>::empty()));
    }
}

/// An error or missing outcome on a prefix of the elements settles the whole
/// sequence.
proof fn lemma_eval_elems_error(s: Seq<SAtom>, env: Seq<(Seq<char>, SAtom)>, j: int, k: int)
    requires
        0 <= j <= k <= s.len(),
        !(spec_eval_elems(s.take(j), env) is Val),
    ensures
        spec_eval_elems(s.take(k), env) == spec_eval_elems(s.take(j), env),
    decreases k - j,
{
    if k > j {
        lemma_eval_elems_error(s, env, j, k - 1);
        assert(s.take(k).drop_last() =~= s.take(k - 1));
    }
}

/// An error or missing outcome on a prefix of the entries settles the whole
/// sequence.
proof fn lemma_eval_entries_error(
    s: Seq<(SAtom, SAtom)>,
    env: Seq<(Seq<char>, SAtom)>,
    j: int,
    k: int,
)
    requires
        0 <= j <= k <= s.len(),
        !(spec_eval_entries(s.take(j), env) is Val),
    ensures
        spec_eval_entries(s.take(k), env) == spec_eval_entries(s.take(j), env),
    decreases k - j,
{
    if k > j {
        lemma_eval_entries_error(s, env, j, k - 1);
        assert(s.take(k).drop_last() =~= s.take(k - 1));
    }
}

/// Applies a builtin to its evaluated arguments, per `spec_apply`; total, a
/// zero divisor reported as the missing outcome.
fn apply_op(op: BuiltinOp, args: &Vec<Atom>) -> (r: Outcome<Atom>)
    ensures
        out_view(r) == spec_apply(op, sview_elems(*args)),
{
    if args.len() != 2 {
        return Outcome::Fail(RunTimeError::WrongNumberArguments);
    }
    let x = match args[0].as_integer() {
        Ok(x) => x,
        Err(e) => {
            return Outcome::Fail(e);
        },
    };
    let y = match args[1].as_integer() {
        Ok(y) => y,
        Err(e) => {
            return Outcome::Fail(e);
        },
    };
    proof {
        assert(sview_elems(*args)[0] == args[0]@);
        assert(sview_elems(*args)[1] == args[1]@);
    }
    match op {
        BuiltinOp::Add => Outcome::Val(Atom::Integer(x.wrapping_add(y))),
        BuiltinOp::Sub => Outcome::Val(Atom::Integer(x.wrapping_sub(y))),
        BuiltinOp::Mul => Outcome::Val(Atom::Integer(x.wrapping_mul(y))),
        BuiltinOp::Div => {
            if y == 0 {
                Outcome::DivByZero
            } else if x == i64::MIN && y == -1 {
                Outcome::Val(Atom::Integer(i64::MIN))
            } else {
                match x.checked_div(y) {
                    Some(q) => Outcome::Val(Atom::Integer(q)),
                    // never reached for a non-zero divisor other than MIN / -1
                    None => Outcome::Val(Atom::Integer(0)),
                }
            }
        },
        BuiltinOp::Rem => {
            if y == 0 {
                Outcome::DivByZero
            } else if x == i64::MIN && y == -1 {
                Outcome::Val(Atom::Integer(0))
            } else {
                match x.checked_rem(y) {
                    Some(q) => Outcome::Val(Atom::Integer(q)),
                    // never reached for a non-zero divisor other than MIN % -1
                    None => Outcome::Val(Atom::Integer(0)),
                }
            }
        },
    }
}

/// Applies a builtin to an argument sequence of any length, per `spec_apply`.
/// A zero divisor is excluded, as the native operation would not return.
pub fn apply_builtin(op: BuiltinOp, args: Vec<Atom>) -> (r: Result<Atom, RunTimeError>)
    requires
        !(spec_apply(op, sview_elems(args)) is DivByZero),
    ensures
        match (r, spec_apply(op, sview_elems(args))) {
            (Ok(a), Outcome::Val(sa)) => a@ == sa,
            (Err(e), Outcome::Fail(se)) => e == se,
            _ => false,
        },
{
    match apply_op(op, &args) {
        Outcome::Val(a) => Ok(a),
        Outcome::Fail(e) => Err(e),
        Outcome::DivByZero => {
            proof {
                assert(false);
            }
            Err(RunTimeError::WrongType)
        },
    }
}

/// Evaluates an atom, total over all inputs: a division or modulo by zero
/// comes back as the missing outcome instead of not returning.
pub fn eval_outcome(ast: &Atom, env: &Env) -> (r: Outcome<Atom>)
    ensures
        out_view(r) == spec_eval(ast@, env@),
    decreases ast, 1int,
{
    match ast {
        Atom::Symbol(s) => match env.get(s.as_str()) {
            Some(v) => Outcome::Val(v.duplicate()),
            None => Outcome::Fail(RunTimeError::SymbolNotBound),
        },
        Atom::List(es) => {
            if es.len() == 0 {
                let empty: Vec<Atom> = Vec::new();
                proof {
                    assert(sview_elems(empty) =~= sview_elems(*es));
                }
                Outcome::Val(Atom::List(empty))
            } else {
                match eval_elems(es, env) {
                    Outcome::Val(vs) => {
                        let ghost vsv = sview_elems(vs);
                        let mut vs = vs;
                        let head = vs.remove(0);
                        proof {
                            assert(head@ == vsv[0]);
                            assert(sview_elems(vs) =~= vsv.drop_first());
                        }
                        match head {
                            Atom::Builtin(op) => apply_op(op, &vs),
                            _ => Outcome::Fail(RunTimeError::NotAFunction),
                        }
                    },
                    Outcome::Fail(e) => Outcome::Fail(e),
                    Outcome::DivByZero => Outcome::DivByZero,
                }
            }
        },
        Atom::Vector(es) => match eval_elems(es, env) {
            Outcome::Val(vs) => Outcome::Val(Atom::Vector(vs)),
            Outcome::Fail(e) => Outcome::Fail(e),
            Outcome::DivByZero => Outcome::DivByZero,
        },
        Atom::HashMap(m) => match eval_entries(m, env) {
            Outcome::Val(entries) => Outcome::Val(Atom::HashMap(entries)),
            Outcome::Fail(e) => Outcome::Fail(e),
            Outcome::DivByZero => Outcome::DivByZero,
        },
        Atom::Integer(n) => Outcome::Val(Atom::Integer(*n)),
        Atom::Keyword(s) => Outcome::Val(Atom::Keyword(s.clone())),
        Atom::String(s) => Outcome::Val(Atom::String(s.clone())),
        Atom::Builtin(op) => Outcome::Val(Atom::Builtin(*op)),
    }
}

/// Evaluates every element in order, per `spec_eval_elems`.
fn eval_elems(es: &Vec<Atom>, env: &Env) -> (r: Outcome<Vec<Atom>>)
    ensures
        out_elems_view(r) == spec_eval_elems(sview_elems(*es), env@),
    decreases es, 2int,
{
    let ghost ses = sview_elems(*es);
    let mut vs: Vec<Atom> = Vec::new();
    let mut i: usize = 0;
    proof {
        assert(ses.take(0) =~= Seq::<SAtom>::empty());
        assert(sview_elems(vs) =~= Seq::<SAtom>::empty());
    }
    while i < es.len()
        invariant
            i <= es.len(),
            ses == sview_elems(*es),
            spec_eval_elems(ses.take(i as int), env@) == Outcome::Val(sview_elems(vs)),
        decreases es.len() - i,
    {
        let ghost vs0 = sview_elems(vs);
        match eval_outcome(&es[i], env) {
            Outcome::Val(v) => {
                let ghost vv = v@;
                vs.push(v);
                i = i + 1;
                proof {
                    assert(ses.take(i as int).drop_last() =~= ses.take(i - 1 as int));
                    assert(ses.take(i as int).last() == ses[i - 1]);
                    assert(sview_elems(vs) =~= vs0.push(vv));
                }
            },
            Outcome::Fail(e) => {
                proof {
                    assert(ses.take(i + 1 as int).drop_last() =~= ses.take(i as int));
                    assert(ses.take(i + 1 as int).last() == ses[i as int]);
                    lemma_eval_elems_error(ses, env@, i + 1 as int, ses.len() as int);
                    assert(ses.take(ses.len() as int) =~= ses);
                }
                return Outcome::Fail(e);
            },
            Outcome::DivByZero => {
                proof {
                    assert(ses.take(i + 1 as int).drop_last() =~= ses.take(i as int));
                    assert(ses.take(i + 1 as int).last() == ses[i as int]);
                    lemma_eval_elems_error(ses, env@, i + 1 as int, ses.len() as int);
                    assert(ses.take(ses.len() as int) =~= ses);
                }
                return Outcome::DivByZero;
            },
        }
    }
    proof {
        assert(ses.take(es.len() as int) =~= ses);
    }
    Outcome::Val(vs)
}

/// Evaluates every entry's key and value in order, inserting the results into
/// fresh sorted entries, per `spec_eval_entries`.
fn eval_entries(m: &Vec<(Atom, Atom)>, env: &Env) -> (r: Outcome<Vec<(Atom, Atom)>>)
    ensures
        out_entries_view(r) == spec_eval_entries(sview_entries(*m), env@),
    decreases m, 2int,
{
    let ghost sm = sview_entries(*m);
    let mut acc: Vec<(Atom, Atom)> = Vec::new();
    let mut i: usize = 0;
    proof {
        assert(sm.take(0) =~= Seq::<(SAtom, SAtom)>::empty());
        assert(sview_entries(acc) =~= Seq::<(SAtom, SAtom)>::empty());
    }
    while i < m.len()
        invariant
            i <= m.len(),
            sm == sview_entries(*m),
            spec_eval_entries(sm.take(i as int), env@) == Outcome::Val(sview_entries(acc)),
        decreases m.len() - i,
    {
        proof {
            assert(sm.take(i + 1 as int).drop_last() =~= sm.take(i as int));
            assert(sm.take(i + 1 as int).last() == sm[i as int]);
            assert(sm[i as int] == (m[i as int].0@, m[i as int].1@));
        }
        let k = match eval_outcome(&m[i].0, env) {
            Outcome::Val(k) => k,
            Outcome::Fail(e) => {
                proof {
                    lemma_eval_entries_error(sm, env@, i + 1 as int, sm.len() as int);
                    assert(sm.take(sm.len() as int) =~= sm);
                }
                return Outcome::Fail(e);
            },
            Outcome::DivByZero => {
                proof {
                    lemma_eval_entries_error(sm, env@, i + 1 as int, sm.len() as int);
                    assert(sm.take(sm.len() as int) =~= sm);
                }
                return Outcome::DivByZero;
            },
        };
        let v = match eval_outcome(&m[i].1, env) {
            Outcome::Val(v) => v,
            Outcome::Fail(e) => {
                proof {
                    lemma_eval_entries_error(sm, env@, i + 1 as int, sm.len() as int);
                    assert(sm.take(sm.len() as int) =~= sm);
                }
                return Outcome::Fail(e);
            },
            Outcome::DivByZero => {
                proof {
                    lemma_eval_entries_error(sm, env@, i + 1 as int, sm.len() as int);
                    assert(sm.take(sm.len() as int) =~= sm);
                }
                return Outcome::DivByZero;
            },
        };
        map_insert(&mut acc, k, v);
        i = i + 1;
    }
    proof {
        assert(sm.take(m.len() as int) =~= sm);
    }
    Outcome::Val(acc)
}

/// Evaluates an atom against an environment, per `spec_eval`. A division or
/// modulo by zero is excluded by precondition: on such input the native
/// operation panics rather than returns, so this library's total companion
/// `eval_outcome` reports it as `Outcome::DivByZero` instead.
pub fn eval(ast: &Atom, env: &Env) -> (r: Result<Atom, RunTimeError>)
    requires
        !(spec_eval(ast@, env@) is DivByZero),
    ensures
        match (r, spec_eval(ast@, env@)) {
            (Ok(a), Outcome::Val(sa)) => a@ == sa,
            (Err(e), Outcome::Fail(se)) => e == se,
            _ => false,
        },
{
    match eval_outcome(ast, env) {
        Outcome::Val(a) => Ok(a),
        Outcome::Fail(e) => Err(e),
        Outcome::DivByZero => {
            proof {
                assert(false);
            }
            Err(RunTimeError::WrongType)
        },
    }
}

/// Evaluation without application: a symbol is looked up, a list, vector or
/// map evaluates element-wise into the same shape, and everything else is
/// itself.
pub open spec fn spec_eval_ast(a: SAtom, env: Seq<(Seq<char>, SAtom)>) -> Outcome<SAtom> {
    match a {
        SAtom::Symbol(s) => match spec_env_lookup(env, s) {
            Some(v) => Outcome::Val(v),
            None => Outcome::Fail(RunTimeError::SymbolNotBound),
        },
        SAtom::List(es) => match spec_eval_elems(es, env) {
            Outcome::Val(vs) => Outcome::Val(SAtom::List(vs)),
            Outcome::Fail(e) => Outcome::Fail(e),
            Outcome::DivByZero => Outcome::DivByZero,
        },
        SAtom::Vector(es) => match spec_eval_elems(es, env) {
            Outcome::Val(vs) => Outcome::Val(SAtom::Vector(vs)),
            Outcome::Fail(e) => Outcome::Fail(e),
            Outcome::DivByZero => Outcome::DivByZero,
        },
        SAtom::HashMap(m) => match spec_eval_entries(m, env) {
            Outcome::Val(entries) => Outcome::Val(SAtom::HashMap(entries)),
            Outcome::Fail(e) => Outcome::Fail(e),
            Outcome::DivByZero => Outcome::DivByZero,
        },
        _ => Outcome::Val(a),
    }
}

/// Evaluates an atom without applying lists, per `spec_eval_ast`; a zero
/// divisor inside an element is excluded as in `eval`.
pub fn eval_ast(ast: &Atom, env: &Env) -> (r: Result<Atom, RunTimeError>)
    requires
        !(spec_eval_ast(ast@, env@) is DivByZero),
    ensures
        match (r, spec_eval_ast(ast@, env@)) {
            (Ok(a), Outcome::Val(sa)) => a@ == sa,
            (Err(e), Outcome::Fail(se)) => e == se,
            _ => false,
        },
{
    match ast {
        Atom::Symbol(s) => match env.get(s.as_str()) {
            Some(v) => Ok(v.duplicate()),
            None => Err(RunTimeError::SymbolNotBound),
        },
        Atom::List(es) => match eval_elems(es, env) {
            Outcome::Val(vs) => Ok(Atom::List(vs)),
            Outcome::Fail(e) => Err(e),
            Outcome::DivByZero => {
                proof {
                    assert(false);
                }
                Err(RunTimeError::WrongType)
            },
        },
        Atom::Vector(es) => match eval_elems(es, env) {
            Outcome::Val(vs) => Ok(Atom::Vector(vs)),
            Outcome::Fail(e) => Err(e),
            Outcome::DivByZero => {
                proof {
                    assert(false);
                }
                Err(RunTimeError::WrongType)
            },
        },
        Atom::HashMap(m) => match eval_entries(m, env) {
            Outcome::Val(entries) => Ok(Atom::HashMap(entries)),
            Outcome::Fail(e) => Err(e),
            Outcome::DivByZero => {
                proof {
                    assert(false);
                }
                Err(RunTimeError::WrongType)
            },
        },
        Atom::Integer(n) => Ok(Atom::Integer(*n)),
        Atom::Keyword(s) => Ok(Atom::Keyword(s.clone())),
        Atom::String(s) => Ok(Atom::String(s.clone())),
        Atom::Builtin(op) => Ok(Atom::Builtin(*op)),
    }
}

/// Renders an evaluation result as text.
pub fn print(atom: Atom) -> (s: String)
    ensures
        s@ == spec_display(atom@),
{
    to_display_string(&atom)
}

/// The text the whole pipeline answers for one line: read, evaluate in a
/// fresh default environment, print — with each error variant mapped to its
/// message. A division or modulo by zero has no answer.
pub open spec fn spec_rep(s: Seq<char>) -> Option<Seq<char>> {
    match spec_read(s) {
        Err(e) => Some(
            match e {
                ParseError::UnexpectedEndOfFile => "unexpected end of input"@,
                _ => "unbalanced"@,
            },
        ),
        Ok(a) => match spec_eval(a, spec_default_env()) {
            Outcome::DivByZero => None,
            Outcome::Fail(e) => Some(
                match e {
                    RunTimeError::SymbolNotBound => "symbol not bound"@,
                    RunTimeError::NotAFunction => "not a function"@,
                    RunTimeError::WrongNumberArguments => "wrong number of arguments"@,
                    RunTimeError::WrongType => "wrong type of argument"@,
                },
            ),
            Outcome::Val(v) => Some(spec_display(v)),
        },
    }
}

/// Reads, evaluates and prints one line, per `spec_rep`; `None` exactly when
/// evaluation would divide by zero. The line must leave the reader's token
/// cursor room to advance past its last token.
pub fn try_read_eval_print(line: String) -> (r: Option<String>)
    requires
        line@.len() < usize::MAX,
    ensures
        match (r, spec_rep(line@)) {
            (Some(out), Some(so)) => out@ == so,
            (None, None) => true,
            _ => false,
        },
{
    let env = default_env();
    match read(line) {
        Err(e) => {
            let msg = match e {
                ParseError::UnexpectedEndOfFile => "unexpected end of input",
                _ => "unbalanced",
            };
            Some(String::from_str(msg))
        },
        Ok(atom) => match eval_outcome(&atom, &env) {
            Outcome::DivByZero => None,
            Outcome::Fail(e) => {
                let msg = match e {
                    RunTimeError::SymbolNotBound => "symbol not bound",
                    RunTimeError::NotAFunction => "not a function",
                    RunTimeError::WrongNumberArguments => "wrong number of arguments",
                    RunTimeError::WrongType => "wrong type of argument",
                };
                Some(String::from_str(msg))
            },
            Outcome::Val(v) => Some(to_display_string(&v)),
        },
    }
}

/// Reads, evaluates and prints one line, per `spec_rep`; input whose
/// evaluation would divide by zero is excluded, as `try_read_eval_print`
/// reports it with no answer.
pub fn read_eval_print(line: String) -> (out: String)
    requires
        line@.len() < usize::MAX,
        spec_rep(line@) is Some,
    ensures
        spec_rep(line@) == Some(out@),
{
    match try_read_eval_print(line) {
        Some(out) => out,
        None => {
            proof {
                assert(false);
            }
            String::new()
        },
    }
}

} // verus!
