//! The symbolic-expression data model: the `Atom` tree, its spec-level view,
//! the structural total order on atoms, and the textual rendering.

use vstd::prelude::*;

verus! {

broadcast use vstd::std_specs::vec::axiom_vec_index_decreases;

/// Errors surfaced while evaluating an atom.
#[derive(Clone, Copy, Debug, PartialEq, Eq, Structural)]
pub enum RunTimeError {
    SymbolNotBound,
    NotAFunction,
    WrongNumberArguments,
    WrongType,
}

/// The primitive operations an `Atom::Builtin` can denote. A builtin is a
/// closed, named capability rather than a bare function pointer, so that two
/// builtins can be compared and rendered deterministically.
#[derive(Clone, Copy, Debug, PartialEq, Eq, Structural)]
pub enum BuiltinOp {
    Add,
    Sub,
    Mul,
    Div,
    Rem,
}

/// A symbolic expression. Trees are built bottom-up by the reader (or by
/// evaluation) and never mutated afterwards.
///
/// `HashMap` holds its entries as a flat sequence of key/value pairs kept
/// strictly ascending under the structural order `scmp` by the insertion
/// routine `map_insert`.
#[derive(Debug, PartialEq, Eq)]
pub enum Atom {
    List(Vec<Atom>),
    Vector(Vec<Atom>),
    Integer(i64),
    Symbol(String),
    Keyword(String),
    String(String),
    HashMap(Vec<(Atom, Atom)>),
    Builtin(BuiltinOp),
}

/// The mathematical value of an `Atom`: sequences in place of vectors,
/// character sequences in place of strings.
pub enum SAtom {
    List(Seq<SAtom>),
    Vector(Seq<SAtom>),
    Integer(i64),
    Symbol(Seq<char>),
    Keyword(Seq<char>),
    String(Seq<char>),
    HashMap(Seq<(SAtom, SAtom)>),
    Builtin(BuiltinOp),
}

/// The mathematical value of an atom: its `SAtom`, with every vector of
/// children viewed as a sequence and every string as its characters.
pub open spec fn sview(a: Atom) -> SAtom
    decreases a,
{
    match a {
        Atom::List(v) => SAtom::List(sview_elems(v)),
        Atom::Vector(v) => SAtom::Vector(sview_elems(v)),
        Atom::Integer(n) => SAtom::Integer(n),
        Atom::Symbol(s) => SAtom::Symbol(s@),
        Atom::Keyword(s) => SAtom::Keyword(s@),
        Atom::String(s) => SAtom::String(s@),
        Atom::HashMap(m) => SAtom::HashMap(sview_entries(m)),
        Atom::Builtin(op) => SAtom::Builtin(op),
    }
}

/// The views of the elements of a vector of atoms, in order.
pub open spec fn sview_elems(v: Vec<Atom>) -> Seq<SAtom>
    decreases v,
{
    Seq::new(
        v.len() as nat,
        |i: int|
            if 0 <= i < v.len() {
                sview(v[i])
            } else {
                SAtom::Integer(0)
            },
    )
}

/// The views of the key/value entries of a map's backing vector, in order.
pub open spec fn sview_entries(m: Vec<(Atom, Atom)>) -> Seq<(SAtom, SAtom)>
    decreases m,
{
    Seq::new(
        m.len() as nat,
        |i: int|
            if 0 <= i < m.len() {
                (sview(m[i].0), sview(m[i].1))
            } else {
                (SAtom::Integer(0), SAtom::Integer(0))
            },
    )
}

impl View for Atom {
    type V = SAtom;

    open spec fn view(&self) -> SAtom {
        sview(*self)
    }
}

/// Relies on `String::push`: appends exactly the given character.
#[verifier::external_body]
pub(crate) fn push_char(s: &mut String, c: char)
    ensures
        final(s)@ == old(s)@ + seq![c],
{
    s.push(c);
}

/// The decimal digits of a non-negative integer, most significant first.
pub open spec fn spec_nat_chars(n: int) -> Seq<char>
    decreases n,
{
    if n < 10 {
        seq![digit_char(n)]
    } else {
        spec_nat_chars(n / 10) + seq![digit_char(n % 10)]
    }
}

/// The character for one decimal digit.
pub open spec fn digit_char(d: int) -> char {
    if d == 0 {
        '0'
    } else if d == 1 {
        '1'
    } else if d == 2 {
        '2'
    } else if d == 3 {
        '3'
    } else if d == 4 {
        '4'
    } else if d == 5 {
        '5'
    } else if d == 6 {
        '6'
    } else if d == 7 {
        '7'
    } else if d == 8 {
        '8'
    } else {
        '9'
    }
}

/// The decimal rendering of a signed integer: a `-` sign for negative values,
/// then the digits of its magnitude.
pub open spec fn spec_int_chars(n: int) -> Seq<char> {
    if n < 0 {
        seq!['-'] + spec_nat_chars(-n)
    } else {
        spec_nat_chars(n)
    }
}

/// The character for one decimal digit, per `digit_char`.
fn digit_to_char(d: u64) -> (c: char)
    requires
        d < 10,
    ensures
        c == digit_char(d as int),
{
    if d == 0 {
        '0'
    } else if d == 1 {
        '1'
    } else if d == 2 {
        '2'
    } else if d == 3 {
        '3'
    } else if d == 4 {
        '4'
    } else if d == 5 {
        '5'
    } else if d == 6 {
        '6'
    } else if d == 7 {
        '7'
    } else if d == 8 {
        '8'
    } else {
        '9'
    }
}

/// Renders a signed integer in decimal, per `spec_int_chars`: a leading `-`
/// for negative values, then the digits of the magnitude.
pub(crate) fn int_to_string(n: i64) -> (r: String)
    ensures
        r@ == spec_int_chars(n as int),
{
    let neg = n < 0;
    let mag: u64 = if n == i64::MIN {
        9223372036854775808u64
    } else if n < 0 {
        (-n) as u64
    } else {
        n as u64
    };
    let ghost m0 = mag as int;
    proof {
        if n < 0 {
            assert(m0 == -(n as int));
        } else {
            assert(m0 == n as int);
        }
    }
    // the magnitude's digits, least significant first
    let mut rev: Vec<char> = Vec::new();
    let mut m = mag;
    loop
        invariant_except_break
            m0 >= 0,
            (rev@.len() == 0 && m as int == m0) || (rev@.len() > 0 && m as int > 0
                && spec_nat_chars(m0) == spec_nat_chars(m as int) + rev@.reverse()),
        ensures
            spec_nat_chars(m0) == rev@.reverse(),
        decreases m,
    {
        let ghost m_before = m as int;
        let ghost rev0 = rev@;
        let d = m % 10;
        let c = digit_to_char(d);
        rev.push(c);
        m = m / 10;
        proof {
            assert(rev@ =~= rev0.push(c));
            assert(rev@.reverse() =~= seq![c] + rev0.reverse());
            vstd::arithmetic::div_mod::lemma_fundamental_div_mod(m_before, 10);
            if rev0.len() == 0 {
                if m_before < 10 {
                    assert(spec_nat_chars(m0) == seq![digit_char(m0)]);
                    assert(c == digit_char(m0));
                    assert(rev0.reverse() =~= Seq::<char>::empty());
                    assert(seq![c] + rev0.reverse() =~= seq![c]);
                    assert(spec_nat_chars(m0) == rev@.reverse());
                } else {
                    assert(spec_nat_chars(m0) == spec_nat_chars(m0 / 10) + seq![
                        digit_char(m0 % 10),
                    ]);
                    assert(rev0.reverse() =~= Seq::<char>::empty());
                    assert(seq![c] + rev0.reverse() =~= seq![c]);
                    assert(spec_nat_chars(m0) == spec_nat_chars(m as int) + rev@.reverse());
                }
            } else {
                if m_before < 10 {
                    assert(spec_nat_chars(m_before) == seq![digit_char(m_before)]);
                    assert(c == digit_char(m_before));
                    assert(spec_nat_chars(m_before) + rev0.reverse() =~= seq![c] + rev0.reverse());
                    assert(spec_nat_chars(m0) == rev@.reverse());
                } else {
                    assert(spec_nat_chars(m_before) == spec_nat_chars(m_before / 10) + seq![
                        digit_char(m_before % 10),
                    ]);
                    assert((spec_nat_chars(m_before / 10) + seq![digit_char(m_before % 10)])
                        + rev0.reverse() =~= spec_nat_chars(m_before / 10) + (seq![
                        digit_char(m_before % 10),
                    ] + rev0.reverse()));
                    assert(spec_nat_chars(m0) == spec_nat_chars(m as int) + rev@.reverse());
                }
            }
        }
        if m == 0 {
            break ;
        }
    }
    let mut out = String::new();
    if neg {
        push_char(&mut out, '-');
    }
    let ghost sign = if neg {
        seq!['-']
    } else {
        Seq::<char>::empty()
    };
    proof {
        assert(out@ =~= sign);
        assert(rev@.reverse().take(0) =~= Seq::<char>::empty());
        assert(sign + Seq::<char>::empty() =~= sign);
    }
    let mut i = rev.len();
    while i > 0
        invariant
            i <= rev.len(),
            spec_nat_chars(m0) == rev@.reverse(),
            sign == (if neg {
                seq!['-']
            } else {
                Seq::<char>::empty()
            }),
            out@ == sign + rev@.reverse().take(rev@.len() - i),
        decreases i,
    {
        let c = rev[i - 1];
        push_char(&mut out, c);
        proof {
            let taken = rev@.len() - i;
            assert(rev@.reverse().take(taken + 1).drop_last() =~= rev@.reverse().take(taken));
            assert(rev@.reverse().take(taken + 1).last() == rev@.reverse()[taken]);
            assert(rev@.reverse()[taken] == rev@[i - 1]);
            assert(sign + rev@.reverse().take(taken + 1) =~= (sign + rev@.reverse().take(taken))
                + seq![rev@[i - 1]]);
        }
        i = i - 1;
    }
    proof {
        assert(rev@.reverse().take(rev@.len() as int) =~= rev@.reverse());
        if n < 0 {
            assert(out@ == seq!['-'] + spec_nat_chars(-(n as int)));
        } else {
            assert(Seq::<char>::empty() + spec_nat_chars(m0) =~= spec_nat_chars(m0));
        }
    }
    out
}

/// A string's content with `"` and `\` each preceded by a backslash, as the
/// printer re-applies escapes.
pub open spec fn spec_escape(s: Seq<char>) -> Seq<char>
    decreases s.len(),
{
    if s.len() == 0 {
        Seq::empty()
    } else {
        spec_escape(s.drop_last()) + (if s.last() == '"' || s.last() == '\\' {
            seq!['\\', s.last()]
        } else {
            seq![s.last()]
        })
    }
}

/// Re-applies string escaping: every `"` or `\` in the input gains a
/// preceding backslash; all other characters pass through unchanged.
pub fn escape(s: &str) -> (r: String)
    ensures
        r@ == spec_escape(s@),
{
    let n = s.unicode_len();
    let mut out = String::new();
    let mut i: usize = 0;
    while i < n
        invariant
            i <= n,
            n == s@.len(),
            out@ == spec_escape(s@.take(i as int)),
        decreases n - i,
    {
        let c = s.get_char(i);
        if c == '"' || c == '\\' {
            push_char(&mut out, '\\');
        }
        push_char(&mut out, c);
        i = i + 1;
        proof {
            assert(s@.take(i as int).drop_last() =~= s@.take(i - 1 as int));
            assert(s@.take(i as int).last() == s@[i - 1]);
        }
    }
    proof {
        assert(s@.take(n as int) =~= s@);
    }
    out
}

/// The characters of a builtin's operator symbol.
pub open spec fn op_chars(op: BuiltinOp) -> Seq<char> {
    match op {
        BuiltinOp::Add => seq!['+'],
        BuiltinOp::Sub => seq!['-'],
        BuiltinOp::Mul => seq!['*'],
        BuiltinOp::Div => seq!['/'],
        BuiltinOp::Rem => seq!['%'],
    }
}

/// The canonical textual rendering of an atom: lists as `(a b c)`, vectors as
/// `[a b c]`, maps as `{k1 v1 k2 v2}`, strings re-escaped inside quotes,
/// keywords with a leading `:`, integers in decimal, and builtins as an
/// opaque `#<BUILTIN op>` marker.
pub open spec fn spec_display(a: SAtom) -> Seq<char>
    decreases a, 1int,
{
    match a {
        SAtom::List(es) => seq!['('] + spec_display_elems(es) + seq![')'],
        SAtom::Vector(es) => seq!['['] + spec_display_elems(es) + seq![']'],
        SAtom::Integer(n) => spec_int_chars(n as int),
        SAtom::Symbol(s) => s,
        SAtom::Keyword(s) => seq![':'] + s,
        SAtom::String(s) => seq!['"'] + spec_escape(s) + seq!['"'],
        SAtom::HashMap(m) => seq!['{'] + spec_display_entries(m) + seq!['}'],
        SAtom::Builtin(op) => seq!['#', '<', 'B', 'U', 'I', 'L', 'T', 'I', 'N', ' '] + op_chars(
            op,
        ) + seq!['>'],
    }
}

/// The renderings of a sequence of atoms joined by single spaces.
pub open spec fn spec_display_elems(es: Seq<SAtom>) -> Seq<char>
    decreases es, 0int,
{
    if es.len() == 0 {
        Seq::empty()
    } else if es.len() == 1 {
        spec_display(es[0])
    } else {
        spec_display_elems(es.drop_last()) + seq![' '] + spec_display(es.last())
    }
}

/// The renderings of a map's entries, each key followed by its value, all
/// joined by single spaces.
pub open spec fn spec_display_entries(m: Seq<(SAtom, SAtom)>) -> Seq<char>
    decreases m, 0int,
{
    if m.len() == 0 {
        Seq::empty()
    } else if m.len() == 1 {
        spec_display(m[0].0) + seq![' '] + spec_display(m[0].1)
    } else {
        spec_display_entries(m.drop_last()) + seq![' '] + spec_display(m.last().0) + seq![' ']
            + spec_display(m.last().1)
    }
}

/// Renders an atom as source-like text, per `spec_display`.
pub fn to_display_string(expr: &Atom) -> (r: String)
    ensures
        r@ == spec_display(expr@),
    decreases expr,
{
    match expr {
        Atom::Integer(n) => int_to_string(*n),
        Atom::Symbol(s) => s.clone(),
        Atom::Keyword(s) => {
            let mut out = String::new();
            push_char(&mut out, ':');
            out.append(s.as_str());
            out
        },
        Atom::String(s) => {
            let mut out = String::new();
            push_char(&mut out, '"');
            let esc = escape(s.as_str());
            out.append(esc.as_str());
            push_char(&mut out, '"');
            out
        },
        Atom::Builtin(op) => {
            let mut out = String::new();
            push_char(&mut out, '#');
            push_char(&mut out, '<');
            push_char(&mut out, 'B');
            push_char(&mut out, 'U');
            push_char(&mut out, 'I');
            push_char(&mut out, 'L');
            push_char(&mut out, 'T');
            push_char(&mut out, 'I');
            push_char(&mut out, 'N');
            push_char(&mut out, ' ');
            match op {
                BuiltinOp::Add => push_char(&mut out, '+'),
                BuiltinOp::Sub => push_char(&mut out, '-'),
                BuiltinOp::Mul => push_char(&mut out, '*'),
                BuiltinOp::Div => push_char(&mut out, '/'),
                BuiltinOp::Rem => push_char(&mut out, '%'),
            }
            push_char(&mut out, '>');
            out
        },
        Atom::List(v) => {
            let mut out = String::new();
            push_char(&mut out, '(');
            display_elems(v, &mut out);
            push_char(&mut out, ')');
            out
        },
        Atom::Vector(v) => {
            let mut out = String::new();
            push_char(&mut out, '[');
            display_elems(v, &mut out);
            push_char(&mut out, ']');
            out
        },
        Atom::HashMap(m) => {
            let mut out = String::new();
            push_char(&mut out, '{');
            display_entries(m, &mut out);
            push_char(&mut out, '}');
            out
        },
    }
}

/// Appends the space-joined renderings of the elements to `out`.
fn display_elems(v: &Vec<Atom>, out: &mut String)
    ensures
        final(out)@ == old(out)@ + spec_display_elems(sview_elems(*v)),
    decreases v, 2int,
{
    let ghost es = sview_elems(*v);
    let mut i: usize = 0;
    while i < v.len()
        invariant
            i <= v.len(),
            es == sview_elems(*v),
            out@ == old(out)@ + spec_display_elems(es.take(i as int)),
        decreases v.len() - i,
    {
        if i > 0 {
            push_char(out, ' ');
        }
        let piece = to_display_string(&v[i]);
        out.append(piece.as_str());
        i = i + 1;
        proof {
            assert(es.take(i as int).drop_last() =~= es.take(i - 1 as int));
            assert(es.take(i as int).last() == es[i - 1]);
        }
    }
    proof {
        assert(es.take(v.len() as int) =~= es);
    }
}

/// Appends the space-joined renderings of the map entries to `out`.
fn display_entries(m: &Vec<(Atom, Atom)>, out: &mut String)
    ensures
        final(out)@ == old(out)@ + spec_display_entries(sview_entries(*m)),
    decreases m, 2int,
{
    let ghost es = sview_entries(*m);
    let mut i: usize = 0;
    while i < m.len()
        invariant
            i <= m.len(),
            es == sview_entries(*m),
            out@ == old(out)@ + spec_display_entries(es.take(i as int)),
        decreases m.len() - i,
    {
        if i > 0 {
            push_char(out, ' ');
        }
        let key_piece = to_display_string(&m[i].0);
        out.append(key_piece.as_str());
        push_char(out, ' ');
        let val_piece = to_display_string(&m[i].1);
        out.append(val_piece.as_str());
        i = i + 1;
        proof {
            assert(es.take(i as int).drop_last() =~= es.take(i - 1 as int));
            assert(es.take(i as int).last() == es[i - 1]);
        }
    }
    proof {
        assert(es.take(m.len() as int) =~= es);
    }
}

/// The rank of an atom's variant in the structural order.
pub open spec fn satom_tag(a: SAtom) -> int {
    match a {
        SAtom::List(_) => 0,
        SAtom::Vector(_) => 1,
        SAtom::Integer(_) => 2,
        SAtom::Symbol(_) => 3,
        SAtom::Keyword(_) => 4,
        SAtom::String(_) => 5,
        SAtom::HashMap(_) => 6,
        SAtom::Builtin(_) => 7,
    }
}

/// The rank of a builtin operation in the structural order.
pub open spec fn op_tag(op: BuiltinOp) -> int {
    match op {
        BuiltinOp::Add => 0,
        BuiltinOp::Sub => 1,
        BuiltinOp::Mul => 2,
        BuiltinOp::Div => 3,
        BuiltinOp::Rem => 4,
    }
}

/// The sign of an integer: -1, 0 or 1.
pub open spec fn sign(x: int) -> int {
    if x < 0 {
        -1
    } else if x == 0 {
        0
    } else {
        1
    }
}

/// The deterministic structural total order over atoms, as a three-way
/// comparison: variants are ordered by `satom_tag`, and two atoms of the same
/// variant compare by their payloads, sequences element-wise and then by
/// length. Builtins are ordered by `op_tag`, which makes every atom — a
/// builtin included — a usable map key.
pub open spec fn scmp(a: SAtom, b: SAtom) -> int
    decreases a, 1int,
{
    if satom_tag(a) != satom_tag(b) {
        sign(satom_tag(a) - satom_tag(b))
    } else {
        match a {
            SAtom::List(x) => match b {
                SAtom::List(y) => scmp_seq(x, y),
                _ => 0,
            },
            SAtom::Vector(x) => match b {
                SAtom::Vector(y) => scmp_seq(x, y),
                _ => 0,
            },
            SAtom::Integer(m) => match b {
                SAtom::Integer(n) => sign(m - n),
                _ => 0,
            },
            SAtom::Symbol(s) => match b {
                SAtom::Symbol(t) => scmp_chars(s, t),
                _ => 0,
            },
            SAtom::Keyword(s) => match b {
                SAtom::Keyword(t) => scmp_chars(s, t),
                _ => 0,
            },
            SAtom::String(s) => match b {
                SAtom::String(t) => scmp_chars(s, t),
                _ => 0,
            },
            SAtom::HashMap(x) => match b {
                SAtom::HashMap(y) => scmp_entries(x, y),
                _ => 0,
            },
            SAtom::Builtin(p) => match b {
                SAtom::Builtin(q) => sign(op_tag(p) - op_tag(q)),
                _ => 0,
            },
        }
    }
}

/// Lexicographic comparison of two atom sequences.
pub open spec fn scmp_seq(x: Seq<SAtom>, y: Seq<SAtom>) -> int
    decreases x, 0int,
{
    if x.len() == 0 && y.len() == 0 {
        0
    } else if x.len() == 0 {
        -1
    } else if y.len() == 0 {
        1
    } else {
        let c = scmp(x[0], y[0]);
        if c != 0 {
            c
        } else {
            scmp_seq(x.drop_first(), y.drop_first())
        }
    }
}

/// Lexicographic comparison of two character sequences by scalar value.
pub open spec fn scmp_chars(s: Seq<char>, t: Seq<char>) -> int
    decreases s.len(),
{
    if s.len() == 0 && t.len() == 0 {
        0
    } else if s.len() == 0 {
        -1
    } else if t.len() == 0 {
        1
    } else if s[0] as u32 != t[0] as u32 {
        sign(s[0] as u32 - t[0] as u32)
    } else {
        scmp_chars(s.drop_first(), t.drop_first())
    }
}

/// Lexicographic comparison of two entry sequences, each entry by key and
/// then by value.
pub open spec fn scmp_entries(x: Seq<(SAtom, SAtom)>, y: Seq<(SAtom, SAtom)>) -> int
    decreases x, 0int,
{
    if x.len() == 0 && y.len() == 0 {
        0
    } else if x.len() == 0 {
        -1
    } else if y.len() == 0 {
        1
    } else {
        let ck = scmp(x[0].0, y[0].0);
        if ck != 0 {
            ck
        } else {
            let cv = scmp(x[0].1, y[0].1);
            if cv != 0 {
                cv
            } else {
                scmp_entries(x.drop_first(), y.drop_first())
            }
        }
    }
}

/// The variant rank of an atom, per `satom_tag`.
fn atom_tag(a: &Atom) -> (t: u8)
    ensures
        t as int == satom_tag(a@),
{
    match a {
        Atom::List(_) => 0,
        Atom::Vector(_) => 1,
        Atom::Integer(_) => 2,
        Atom::Symbol(_) => 3,
        Atom::Keyword(_) => 4,
        Atom::String(_) => 5,
        Atom::HashMap(_) => 6,
        Atom::Builtin(_) => 7,
    }
}

/// Three-way comparison of two atoms under the structural order `scmp`.
pub fn cmp_atoms(a: &Atom, b: &Atom) -> (c: i8)
    ensures
        c as int == scmp(a@, b@),
    decreases a, 1int,
{
    let ta = atom_tag(a);
    let tb = atom_tag(b);
    if ta < tb {
        return -1;
    }
    if ta > tb {
        return 1;
    }
    match (a, b) {
        (Atom::List(x), Atom::List(y)) => cmp_elems(x, y),
        (Atom::Vector(x), Atom::Vector(y)) => cmp_elems(x, y),
        (Atom::Integer(m), Atom::Integer(n)) => {
            if *m < *n {
                -1
            } else if *m == *n {
                0
            } else {
                1
            }
        },
        (Atom::Symbol(s), Atom::Symbol(t)) => cmp_strings(s, t),
        (Atom::Keyword(s), Atom::Keyword(t)) => cmp_strings(s, t),
        (Atom::String(s), Atom::String(t)) => cmp_strings(s, t),
        (Atom::HashMap(x), Atom::HashMap(y)) => cmp_entries(x, y),
        (Atom::Builtin(p), Atom::Builtin(q)) => {
            let tp = match p {
                BuiltinOp::Add => 0u8,
                BuiltinOp::Sub => 1u8,
                BuiltinOp::Mul => 2u8,
                BuiltinOp::Div => 3u8,
                BuiltinOp::Rem => 4u8,
            };
            let tq = match q {
                BuiltinOp::Add => 0u8,
                BuiltinOp::Sub => 1u8,
                BuiltinOp::Mul => 2u8,
                BuiltinOp::Div => 3u8,
                BuiltinOp::Rem => 4u8,
            };
            if tp < tq {
                -1
            } else if tp == tq {
                0
            } else {
                1
            }
        },
        _ => {
            proof {
                assert(false);
            }
            0
        },
    }
}

/// Three-way lexicographic comparison of two atom vectors, per `scmp_seq`.
fn cmp_elems(x: &Vec<Atom>, y: &Vec<Atom>) -> (c: i8)
    ensures
        c as int == scmp_seq(sview_elems(*x), sview_elems(*y)),
    decreases x, 0int,
{
    let ghost sx = sview_elems(*x);
    let ghost sy = sview_elems(*y);
    proof {
        assert(sx.skip(0) =~= sx);
        assert(sy.skip(0) =~= sy);
    }
    let mut i: usize = 0;
    loop
        invariant
            i <= x.len(),
            i <= y.len(),
            sx == sview_elems(*x),
            sy == sview_elems(*y),
            scmp_seq(sx.skip(i as int), sy.skip(i as int)) == scmp_seq(sx, sy),
        decreases x.len() - i,
    {
        if i < x.len() && i < y.len() {
            let c = cmp_atoms(&x[i], &y[i]);
            proof {
                assert(sx.skip(i as int)[0] == sx[i as int]);
                assert(sy.skip(i as int)[0] == sy[i as int]);
            }
            if c != 0 {
                return c;
            }
            proof {
                assert(sx.skip(i as int).drop_first() =~= sx.skip(i + 1 as int));
                assert(sy.skip(i as int).drop_first() =~= sy.skip(i + 1 as int));
            }
            i = i + 1;
        } else if i < y.len() {
            return -1;
        } else if i < x.len() {
            return 1;
        } else {
            return 0;
        }
    }
}

/// Three-way lexicographic comparison of two strings, per `scmp_chars`.
fn cmp_strings(s: &String, t: &String) -> (c: i8)
    ensures
        c as int == scmp_chars(s@, t@),
{
    let sn = s.as_str().unicode_len();
    let tn = t.as_str().unicode_len();
    proof {
        assert(s@.skip(0) =~= s@);
        assert(t@.skip(0) =~= t@);
    }
    let mut i: usize = 0;
    loop
        invariant
            i <= sn,
            i <= tn,
            sn == s@.len(),
            tn == t@.len(),
            scmp_chars(s@.skip(i as int), t@.skip(i as int)) == scmp_chars(s@, t@),
        decreases sn - i,
    {
        if i < sn && i < tn {
            let cs = s.as_str().get_char(i) as u32;
            let ct = t.as_str().get_char(i) as u32;
            proof {
                assert(s@.skip(i as int)[0] == s@[i as int]);
                assert(t@.skip(i as int)[0] == t@[i as int]);
            }
            if cs < ct {
                return -1;
            }
            if cs > ct {
                return 1;
            }
            proof {
                assert(s@.skip(i as int).drop_first() =~= s@.skip(i + 1 as int));
                assert(t@.skip(i as int).drop_first() =~= t@.skip(i + 1 as int));
            }
            i = i + 1;
        } else if i < tn {
            return -1;
        } else if i < sn {
            return 1;
        } else {
            return 0;
        }
    }
}

/// Three-way lexicographic comparison of two entry vectors, per
/// `scmp_entries`.
fn cmp_entries(x: &Vec<(Atom, Atom)>, y: &Vec<(Atom, Atom)>) -> (c: i8)
    ensures
        c as int == scmp_entries(sview_entries(*x), sview_entries(*y)),
    decreases x, 0int,
{
    let ghost sx = sview_entries(*x);
    let ghost sy = sview_entries(*y);
    proof {
        assert(sx.skip(0) =~= sx);
        assert(sy.skip(0) =~= sy);
    }
    let mut i: usize = 0;
    loop
        invariant
            i <= x.len(),
            i <= y.len(),
            sx == sview_entries(*x),
            sy == sview_entries(*y),
            scmp_entries(sx.skip(i as int), sy.skip(i as int)) == scmp_entries(sx, sy),
        decreases x.len() - i,
    {
        if i < x.len() && i < y.len() {
            proof {
                assert(sx.skip(i as int)[0] == sx[i as int]);
                assert(sy.skip(i as int)[0] == sy[i as int]);
            }
            let ck = cmp_atoms(&x[i].0, &y[i].0);
            if ck != 0 {
                return ck;
            }
            let cv = cmp_atoms(&x[i].1, &y[i].1);
            if cv != 0 {
                return cv;
            }
            proof {
                assert(sx.skip(i as int).drop_first() =~= sx.skip(i + 1 as int));
                assert(sy.skip(i as int).drop_first() =~= sy.skip(i + 1 as int));
            }
            i = i + 1;
        } else if i < y.len() {
            return -1;
        } else if i < x.len() {
            return 1;
        } else {
            return 0;
        }
    }
}

/// Law: the structural order is antisymmetric — comparing two atoms in the
/// other direction flips the sign of the answer.
pub proof fn lemma_scmp_flip(a: SAtom, b: SAtom)
    ensures
        scmp(b, a) == -scmp(a, b),
    decreases a, 1int,
{
    if satom_tag(a) == satom_tag(b) {
        match a {
            SAtom::List(x) => match b {
                SAtom::List(y) => lemma_scmp_seq_flip(x, y),
                _ => (),
            },
            SAtom::Vector(x) => match b {
                SAtom::Vector(y) => lemma_scmp_seq_flip(x, y),
                _ => (),
            },
            SAtom::Symbol(s) => match b {
                SAtom::Symbol(t) => lemma_scmp_chars_flip(s, t),
                _ => (),
            },
            SAtom::Keyword(s) => match b {
                SAtom::Keyword(t) => lemma_scmp_chars_flip(s, t),
                _ => (),
            },
            SAtom::String(s) => match b {
                SAtom::String(t) => lemma_scmp_chars_flip(s, t),
                _ => (),
            },
            SAtom::HashMap(x) => match b {
                SAtom::HashMap(y) => lemma_scmp_entries_flip(x, y),
                _ => (),
            },
            _ => (),
        }
    }
}

proof fn lemma_scmp_seq_flip(x: Seq<SAtom>, y: Seq<SAtom>)
    ensures
        scmp_seq(y, x) == -scmp_seq(x, y),
    decreases x, 0int,
{
    if x.len() > 0 && y.len() > 0 {
        lemma_scmp_flip(x[0], y[0]);
        if scmp(x[0], y[0]) == 0 {
            lemma_scmp_seq_flip(x.drop_first(), y.drop_first());
        }
    }
}

proof fn lemma_scmp_chars_flip(s: Seq<char>, t: Seq<char>)
    ensures
        scmp_chars(t, s) == -scmp_chars(s, t),
    decreases s.len(),
{
    if s.len() > 0 && t.len() > 0 && s[0] as u32 == t[0] as u32 {
        lemma_scmp_chars_flip(s.drop_first(), t.drop_first());
    }
}

proof fn lemma_scmp_entries_flip(x: Seq<(SAtom, SAtom)>, y: Seq<(SAtom, SAtom)>)
    ensures
        scmp_entries(y, x) == -scmp_entries(x, y),
    decreases x, 0int,
{
    if x.len() > 0 && y.len() > 0 {
        lemma_scmp_flip(x[0].0, y[0].0);
        if scmp(x[0].0, y[0].0) == 0 {
            lemma_scmp_flip(x[0].1, y[0].1);
            if scmp(x[0].1, y[0].1) == 0 {
                lemma_scmp_entries_flip(x.drop_first(), y.drop_first());
            }
        }
    }
}

/// Law: a comparison tie is substitutive — two atoms that compare equal
/// compare the same way against every third atom, so an equal key found by
/// `map_insert` stands exactly where the old key stood in the order.
pub proof fn lemma_scmp_subst(a: SAtom, b: SAtom, c: SAtom)
    requires
        scmp(a, b) == 0,
    ensures
        scmp(a, c) == scmp(b, c),
    decreases a, 1int,
{
    match a {
        SAtom::List(x) => match b {
            SAtom::List(y) => match c {
                SAtom::List(z) => lemma_scmp_seq_subst(x, y, z),
                _ => (),
            },
            _ => (),
        },
        SAtom::Vector(x) => match b {
            SAtom::Vector(y) => match c {
                SAtom::Vector(z) => lemma_scmp_seq_subst(x, y, z),
                _ => (),
            },
            _ => (),
        },
        SAtom::Symbol(x) => match b {
            SAtom::Symbol(y) => match c {
                SAtom::Symbol(z) => lemma_scmp_chars_subst(x, y, z),
                _ => (),
            },
            _ => (),
        },
        SAtom::Keyword(x) => match b {
            SAtom::Keyword(y) => match c {
                SAtom::Keyword(z) => lemma_scmp_chars_subst(x, y, z),
                _ => (),
            },
            _ => (),
        },
        SAtom::String(x) => match b {
            SAtom::String(y) => match c {
                SAtom::String(z) => lemma_scmp_chars_subst(x, y, z),
                _ => (),
            },
            _ => (),
        },
        SAtom::HashMap(x) => match b {
            SAtom::HashMap(y) => match c {
                SAtom::HashMap(z) => lemma_scmp_entries_subst(x, y, z),
                _ => (),
            },
            _ => (),
        },
        _ => (),
    }
}

proof fn lemma_scmp_seq_subst(x: Seq<SAtom>, y: Seq<SAtom>, z: Seq<SAtom>)
    requires
        scmp_seq(x, y) == 0,
    ensures
        scmp_seq(x, z) == scmp_seq(y, z),
    decreases x, 0int,
{
    if x.len() > 0 && y.len() > 0 && z.len() > 0 {
        lemma_scmp_subst(x[0], y[0], z[0]);
        if scmp(x[0], z[0]) == 0 {
            lemma_scmp_seq_subst(x.drop_first(), y.drop_first(), z.drop_first());
        }
    }
}

proof fn lemma_scmp_chars_subst(x: Seq<char>, y: Seq<char>, z: Seq<char>)
    requires
        scmp_chars(x, y) == 0,
    ensures
        scmp_chars(x, z) == scmp_chars(y, z),
    decreases x.len(),
{
    if x.len() > 0 && y.len() > 0 && z.len() > 0 {
        if x[0] as u32 == z[0] as u32 {
            lemma_scmp_chars_subst(x.drop_first(), y.drop_first(), z.drop_first());
        }
    }
}

proof fn lemma_scmp_entries_subst(
    x: Seq<(SAtom, SAtom)>,
    y: Seq<(SAtom, SAtom)>,
    z: Seq<(SAtom, SAtom)>,
)
    requires
        scmp_entries(x, y) == 0,
    ensures
        scmp_entries(x, z) == scmp_entries(y, z),
    decreases x, 0int,
{
    if x.len() > 0 && y.len() > 0 && z.len() > 0 {
        lemma_scmp_subst(x[0].0, y[0].0, z[0].0);
        if scmp(x[0].0, z[0].0) == 0 {
            lemma_scmp_subst(x[0].1, y[0].1, z[0].1);
            if scmp(x[0].1, z[0].1) == 0 {
                lemma_scmp_entries_subst(x.drop_first(), y.drop_first(), z.drop_first());
            }
        }
    }
}

/// Map entries sorted strictly ascending by key under the structural order:
/// the well-formedness invariant of a map's backing vector, which also makes
/// its keys pairwise distinct.
pub open spec fn entries_sorted(m: Seq<(SAtom, SAtom)>) -> bool {
    forall|i: int| 0 <= i < m.len() - 1 ==> #[trigger] scmp(m[i].0, m[i + 1].0) < 0
}

/// Insertion of a key/value pair into an entry sequence sorted strictly
/// ascending by key under `scmp`: the pair lands before the first key above
/// `k`, and replaces an equal key in place.
pub open spec fn spec_map_insert(m: Seq<(SAtom, SAtom)>, k: SAtom, v: SAtom) -> Seq<(SAtom, SAtom)>
    decreases m.len(),
{
    if m.len() == 0 {
        seq![(k, v)]
    } else {
        let c = scmp(k, m[0].0);
        if c < 0 {
            seq![(k, v)] + m
        } else if c == 0 {
            seq![(k, v)] + m.drop_first()
        } else {
            seq![m[0]] + spec_map_insert(m.drop_first(), k, v)
        }
    }
}

/// Law: inserting into sorted map entries keeps them sorted, so a map built
/// by repeated insertion — as the reader and the evaluator build every map —
/// always has strictly ascending, pairwise-distinct keys.
pub proof fn lemma_map_insert_sorted(m: Seq<(SAtom, SAtom)>, k: SAtom, v: SAtom)
    requires
        entries_sorted(m),
    ensures
        entries_sorted(spec_map_insert(m, k, v)),
    decreases m.len(),
{
    if m.len() > 0 {
        let c = scmp(k, m[0].0);
        let r = spec_map_insert(m, k, v);
        if c < 0 {
            assert forall|i: int| 0 <= i < r.len() - 1 implies #[trigger] scmp(r[i].0, r[i + 1].0)
                < 0 by {
                if i > 0 {
                    assert(r[i] == m[i - 1]);
                    assert(r[i + 1] == m[i]);
                    assert(scmp(m[i - 1].0, m[(i - 1) + 1].0) < 0);
                }
            }
        } else if c == 0 {
            assert forall|i: int| 0 <= i < r.len() - 1 implies #[trigger] scmp(r[i].0, r[i + 1].0)
                < 0 by {
                if i == 0 {
                    assert(r[1] == m.drop_first()[0]);
                    assert(m.drop_first()[0] == m[1]);
                    assert(scmp(m[0int].0, m[0int + 1].0) < 0);
                    lemma_scmp_subst(k, m[0].0, m[1].0);
                } else {
                    assert(r[i] == m.drop_first()[i - 1]);
                    assert(r[i + 1] == m.drop_first()[i]);
                    assert(m.drop_first()[i - 1] == m[i]);
                    assert(m.drop_first()[i] == m[i + 1]);
                    assert(scmp(m[i].0, m[i + 1].0) < 0);
                }
            }
        } else {
            let tail = m.drop_first();
            assert(entries_sorted(tail)) by {
                assert forall|i: int| 0 <= i < tail.len() - 1 implies #[trigger] scmp(
                    tail[i].0,
                    tail[i + 1].0,
                ) < 0 by {
                    assert(tail[i] == m[i + 1]);
                    assert(tail[i + 1] == m[i + 2]);
                    assert(scmp(m[i + 1].0, m[i + 2].0) < 0);
                }
            }
            lemma_map_insert_sorted(tail, k, v);
            let rt = spec_map_insert(tail, k, v);
            // the head of the inserted tail is either `k` itself, `k` in
            // place of an equal first key, or the old first entry
            assert(scmp(m[0].0, rt[0].0) < 0) by {
                lemma_scmp_flip(k, m[0].0);
                if tail.len() == 0 {
                    assert(rt[0] == (k, v));
                } else {
                    let c2 = scmp(k, tail[0].0);
                    if c2 < 0 {
                        assert(rt[0] == (k, v));
                    } else if c2 == 0 {
                        assert(rt[0] == (k, v));
                    } else {
                        assert(rt[0] == tail[0]);
                        assert(tail[0] == m[1]);
                        assert(scmp(m[0].0, m[1].0) < 0);
                    }
                }
            }
            assert forall|i: int| 0 <= i < r.len() - 1 implies #[trigger] scmp(r[i].0, r[i + 1].0)
                < 0 by {
                if i == 0 {
                    assert(r[0] == m[0]);
                    assert(r[1] == rt[0]);
                } else {
                    assert(r[i] == rt[i - 1]);
                    assert(r[i + 1] == rt[i]);
                    assert(scmp(rt[i - 1].0, rt[(i - 1) + 1].0) < 0);
                }
            }
        }
    }
}

/// Well-formedness of an atom: every map in it, at any depth, has its entries
/// sorted strictly ascending by key under the structural order.
pub open spec fn swf(a: SAtom) -> bool
    decreases a, 1int,
{
    match a {
        SAtom::List(es) => swf_seq(es),
        SAtom::Vector(es) => swf_seq(es),
        SAtom::HashMap(m) => entries_sorted(m) && swf_entries(m),
        _ => true,
    }
}

/// Well-formedness of every atom in a sequence.
pub open spec fn swf_seq(es: Seq<SAtom>) -> bool
    decreases es, 0int,
{
    if es.len() == 0 {
        true
    } else {
        swf(es[0]) && swf_seq(es.drop_first())
    }
}

/// Well-formedness of every key and value in an entry sequence.
pub open spec fn swf_entries(m: Seq<(SAtom, SAtom)>) -> bool
    decreases m, 0int,
{
    if m.len() == 0 {
        true
    } else {
        swf(m[0].0) && swf(m[0].1) && swf_entries(m.drop_first())
    }
}

/// Every element of a well-formed sequence is well-formed.
pub proof fn lemma_swf_seq_index(es: Seq<SAtom>, i: int)
    requires
        swf_seq(es),
        0 <= i < es.len(),
    ensures
        swf(es[i]),
    decreases i,
{
    if i > 0 {
        lemma_swf_seq_index(es.drop_first(), i - 1);
        assert(es.drop_first()[i - 1] == es[i]);
    }
}

/// A suffix of a well-formed sequence is well-formed.
pub proof fn lemma_swf_seq_skip(es: Seq<SAtom>, i: int)
    requires
        swf_seq(es),
        0 <= i <= es.len(),
    ensures
        swf_seq(es.skip(i)),
    decreases i,
{
    if i == 0 {
        assert(es.skip(0) =~= es);
    } else {
        lemma_swf_seq_skip(es.drop_first(), i - 1);
        assert(es.drop_first().skip(i - 1) =~= es.skip(i));
    }
}

/// Appending a well-formed atom keeps a sequence well-formed.
pub proof fn lemma_swf_seq_push(es: Seq<SAtom>, v: SAtom)
    requires
        swf_seq(es),
        swf(v),
    ensures
        swf_seq(es.push(v)),
    decreases es.len(),
{
    if es.len() == 0 {
        assert(es.push(v)[0] == v);
        assert(es.push(v).drop_first() =~= Seq::<SAtom>::empty());
        assert(swf_seq(Seq::<SAtom>::empty()));
    } else {
        assert(es.push(v)[0] == es[0]);
        assert(es.push(v).drop_first() =~= es.drop_first().push(v));
        lemma_swf_seq_push(es.drop_first(), v);
    }
}

/// Inserting a well-formed key and value into well-formed entries keeps every
/// key and value well-formed.
pub proof fn lemma_map_insert_wf(m: Seq<(SAtom, SAtom)>, k: SAtom, v: SAtom)
    requires
        swf_entries(m),
        swf(k),
        swf(v),
    ensures
        swf_entries(spec_map_insert(m, k, v)),
    decreases m.len(),
{
    let r = spec_map_insert(m, k, v);
    if m.len() == 0 {
        assert(r[0] == (k, v));
        assert(r.len() == 1);
        assert(swf(r[0].0));
        assert(swf(r[0].1));
        assert(r.drop_first() =~= Seq::<(SAtom, SAtom)>::empty());
        assert(swf_entries(r.drop_first()));
        assert(swf_entries(r));
    } else {
        let c = scmp(k, m[0].0);
        if c < 0 {
            assert(r[0] == (k, v));
            assert(r.drop_first() =~= m);
        } else if c == 0 {
            assert(r[0] == (k, v));
            assert(r.drop_first() =~= m.drop_first());
        } else {
            lemma_map_insert_wf(m.drop_first(), k, v);
            assert(r[0] == m[0]);
            assert(r.drop_first() =~= spec_map_insert(m.drop_first(), k, v));
        }
    }
}

/// Inserts a key/value pair into a map's backing vector, per
/// `spec_map_insert`.
pub fn map_insert(m: &mut Vec<(Atom, Atom)>, k: Atom, v: Atom)
    ensures
        sview_entries(*final(m)) == spec_map_insert(sview_entries(*old(m)), k@, v@),
{
    let ghost e0 = sview_entries(*old(m));
    let ghost vk = k@;
    let ghost vv = v@;
    proof {
        assert(e0.skip(0) =~= e0);
        assert(e0.take(0int) + spec_map_insert(e0, vk, vv) =~= spec_map_insert(e0, vk, vv));
    }
    let mut i: usize = 0;
    while i < m.len()
        invariant
            i <= m.len(),
            sview_entries(*m) == e0,
            e0 == sview_entries(*old(m)),
            vk == k@,
            vv == v@,
            spec_map_insert(e0, vk, vv) == e0.take(i as int) + spec_map_insert(
                e0.skip(i as int),
                vk,
                vv,
            ),
        decreases m.len() - i,
    {
        proof {
            assert(e0.skip(i as int)[0] == e0[i as int]);
            assert(e0[i as int] == (sview(m@[i as int].0), sview(m@[i as int].1)));
        }
        let c = cmp_atoms(&k, &m[i].0);
        if c < 0 {
            proof {
                assert(spec_map_insert(e0.skip(i as int), vk, vv) == seq![(vk, vv)] + e0.skip(
                    i as int,
                ));
            }
            m.insert(i, (k, v));
            proof {
                assert(sview_entries(*m) =~= e0.take(i as int) + (seq![(vk, vv)] + e0.skip(
                    i as int,
                )));
            }
            return ;
        }
        if c == 0 {
            proof {
                assert(spec_map_insert(e0.skip(i as int), vk, vv) == seq![(vk, vv)] + e0.skip(
                    i as int,
                ).drop_first());
            }
            m.remove(i);
            m.insert(i, (k, v));
            proof {
                assert(e0.skip(i as int).drop_first() =~= e0.skip(i + 1 as int));
                assert(sview_entries(*m) =~= e0.take(i as int) + (seq![(vk, vv)] + e0.skip(
                    i + 1 as int,
                )));
            }
            return ;
        }
        proof {
            assert(e0.skip(i as int).drop_first() =~= e0.skip(i + 1 as int));
            assert(e0.take(i as int) + seq![e0[i as int]] =~= e0.take(i + 1 as int));
            assert(e0.take(i as int) + (seq![e0.skip(i as int)[0]] + spec_map_insert(
                e0.skip(i + 1 as int),
                vk,
                vv,
            )) =~= e0.take(i + 1 as int) + spec_map_insert(e0.skip(i + 1 as int), vk, vv));
        }
        i = i + 1;
    }
    proof {
        assert(e0.skip(m.len() as int) =~= Seq::<(SAtom, SAtom)>::empty());
    }
    m.push((k, v));
    proof {
        assert(sview_entries(*m) =~= e0.take(e0.len() as int) + seq![(vk, vv)]);
        assert(e0.take(e0.len() as int) =~= e0);
    }
}

impl Atom {
    /// The integer payload of an integer atom; any other variant is a
    /// `WrongType` runtime error.
    pub fn as_integer(&self) -> (r: Result<i64, RunTimeError>)
        ensures
            match r {
                Ok(n) => self@ == SAtom::Integer(n),
                Err(e) => e == RunTimeError::WrongType && !(self@ is Integer),
            },
    {
        match self {
            Atom::Integer(num) => Ok(*num),
            _ => Err(RunTimeError::WrongType),
        }
    }

    /// A deep copy with the same mathematical value.
    pub fn duplicate(&self) -> (r: Atom)
        ensures
            r@ == self@,
        decreases self,
    {
        match self {
            Atom::List(v) => Atom::List(duplicate_elems(v)),
            Atom::Vector(v) => Atom::Vector(duplicate_elems(v)),
            Atom::Integer(n) => Atom::Integer(*n),
            Atom::Symbol(s) => Atom::Symbol(s.clone()),
            Atom::Keyword(s) => Atom::Keyword(s.clone()),
            Atom::String(s) => Atom::String(s.clone()),
            Atom::HashMap(m) => Atom::HashMap(duplicate_entries(m)),
            Atom::Builtin(op) => Atom::Builtin(*op),
        }
    }
}

/// A deep copy of a vector of atoms, element by element.
fn duplicate_elems(v: &Vec<Atom>) -> (r: Vec<Atom>)
    ensures
        sview_elems(r) == sview_elems(*v),
    decreases v,
{
    let mut r: Vec<Atom> = Vec::new();
    proof {
        assert(sview_elems(r) =~= sview_elems(*v).take(0));
    }
    let mut i: usize = 0;
    while i < v.len()
        invariant
            i <= v.len(),
            r@.len() == i,
            sview_elems(r) == sview_elems(*v).take(i as int),
        decreases v.len() - i,
    {
        let d = v[i].duplicate();
        r.push(d);
        i = i + 1;
        proof {
            assert(sview_elems(r) =~= sview_elems(*v).take(i as int));
        }
    }
    proof {
        assert(sview_elems(*v).take(v@.len() as int) =~= sview_elems(*v));
    }
    r
}

/// A deep copy of a vector of map entries, entry by entry.
fn duplicate_entries(m: &Vec<(Atom, Atom)>) -> (r: Vec<(Atom, Atom)>)
    ensures
        sview_entries(r) == sview_entries(*m),
    decreases m,
{
    let mut r: Vec<(Atom, Atom)> = Vec::new();
    proof {
        assert(sview_entries(r) =~= sview_entries(*m).take(0));
    }
    let mut i: usize = 0;
    while i < m.len()
        invariant
            i <= m.len(),
            r@.len() == i,
            sview_entries(r) == sview_entries(*m).take(i as int),
        decreases m.len() - i,
    {
        let dk = m[i].0.duplicate();
        let dv = m[i].1.duplicate();
        r.push((dk, dv));
        i = i + 1;
        proof {
            assert(sview_entries(r) =~= sview_entries(*m).take(i as int));
        }
    }
    proof {
        assert(sview_entries(*m).take(m@.len() as int) =~= sview_entries(*m));
    }
    r
}

} // verus!
