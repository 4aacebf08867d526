//! The symbol environment: an ordered mapping from symbol names to atoms,
//! pre-populated with the builtin arithmetic bindings.

use vstd::prelude::*;

use crate::atom::Atom;
use crate::atom::BuiltinOp;
use crate::atom::SAtom;

verus! {

/// A mapping from symbol names to atoms, in insertion order. It is built once
/// per evaluation session and read-only afterwards.
pub struct Env {
    pub entries: Vec<(String, Atom)>,
}

/// The views of an environment's bindings, in order.
pub open spec fn env_entries_view(v: Vec<(String, Atom)>) -> Seq<(Seq<char>, SAtom)> {
    Seq::new(
        v.len() as nat,
        |i: int|
            if 0 <= i < v.len() {
                (v[i].0@, v[i].1@)
            } else {
                (Seq::empty(), SAtom::Integer(0))
            },
    )
}

impl View for Env {
    type V = Seq<(Seq<char>, SAtom)>;

    open spec fn view(&self) -> Seq<(Seq<char>, SAtom)> {
        env_entries_view(self.entries)
    }
}

/// The value of the first binding of `name`, if any.
pub open spec fn spec_env_lookup(env: Seq<(Seq<char>, SAtom)>, name: Seq<char>) -> Option<SAtom>
    decreases env.len(),
{
    if env.len() == 0 {
        None
    } else if env[0].0 == name {
        Some(env[0].1)
    } else {
        spec_env_lookup(env.drop_first(), name)
    }
}

/// Character-wise string equality.
fn str_eq(a: &str, b: &str) -> (r: bool)
    ensures
        r == (a@ == b@),
{
    let na = a.unicode_len();
    let nb = b.unicode_len();
    if na != nb {
        return false;
    }
    let mut i: usize = 0;
    while i < na
        invariant
            i <= na,
            na == a@.len(),
            na == b@.len(),
            forall|j: int| 0 <= j < i ==> a@[j] == b@[j],
        decreases na - i,
    {
        if a.get_char(i) != b.get_char(i) {
            return false;
        }
        i = i + 1;
    }
    proof {
        assert(a@ =~= b@);
    }
    true
}

impl Env {
    /// A shared reference to the value bound to `name`; absence is not itself
    /// an error at this layer — the caller decides.
    pub fn get(&self, name: &str) -> (r: Option<&Atom>)
        ensures
            match r {
                Some(a) => spec_env_lookup(self@, name@) == Some(a@),
                None => spec_env_lookup(self@, name@) is None,
            },
    {
        let ghost env = self@;
        let mut i: usize = 0;
        proof {
            assert(env.skip(0) =~= env);
        }
        while i < self.entries.len()
            invariant
                i <= self.entries.len(),
                env == self@,
                spec_env_lookup(env.skip(i as int), name@) == spec_env_lookup(env, name@),
            decreases self.entries.len() - i,
        {
            proof {
                assert(env.skip(i as int)[0] == env[i as int]);
            }
            if str_eq(self.entries[i].0.as_str(), name) {
                return Some(&self.entries[i].1);
            }
            proof {
                assert(env.skip(i as int).drop_first() =~= env.skip(i + 1 as int));
            }
            i = i + 1;
        }
        proof {
            assert(env.skip(self.entries.len() as int) =~= Seq::<(Seq<char>, SAtom)>::empty());
        }
        None
    }
}

/// The default bindings: the five arithmetic builtins under their operator
/// names.
pub open spec fn spec_default_env() -> Seq<(Seq<char>, SAtom)> {
    seq![
        ("+"@, SAtom::Builtin(BuiltinOp::Add)),
        ("*"@, SAtom::Builtin(BuiltinOp::Mul)),
        ("-"@, SAtom::Builtin(BuiltinOp::Sub)),
        ("/"@, SAtom::Builtin(BuiltinOp::Div)),
        ("%"@, SAtom::Builtin(BuiltinOp::Rem)),
    ]
}

/// An environment holding exactly the five builtin arithmetic bindings.
pub fn default_env() -> (env: Env)
    ensures
        env@ == spec_default_env(),
{
    let mut entries: Vec<(String, Atom)> = Vec::new();
    entries.push((String::from_str("+"), Atom::Builtin(BuiltinOp::Add)));
    entries.push((String::from_str("*"), Atom::Builtin(BuiltinOp::Mul)));
    entries.push((String::from_str("-"), Atom::Builtin(BuiltinOp::Sub)));
    entries.push((String::from_str("/"), Atom::Builtin(BuiltinOp::Div)));
    entries.push((String::from_str("%"), Atom::Builtin(BuiltinOp::Rem)));
    let env = Env { entries };
    proof {
        assert(env@ =~= spec_default_env());
    }
    env
}

} // verus!
