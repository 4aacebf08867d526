//! The reader: a tokenizer that splits source text into lexemes, and a
//! recursive-descent parser that turns the token sequence into an `Atom`.

use vstd::prelude::*;

use crate::atom::Atom;
use crate::atom::SAtom;
use crate::atom::push_char;
use crate::atom::sview_elems;
use crate::atom::sview_entries;
use crate::atom::spec_map_insert;
use crate::atom::map_insert;
use crate::atom::entries_sorted;
use crate::atom::swf;
use crate::atom::swf_seq;
use crate::atom::swf_entries;
use crate::atom::lemma_swf_seq_index;
use crate::atom::lemma_swf_seq_skip;
use crate::atom::lemma_map_insert_wf;
use crate::atom::lemma_map_insert_sorted;
use crate::atom::spec_nat_chars;
use crate::atom::spec_int_chars;
use crate::atom::digit_char;
use crate::atom::spec_display;
use crate::atom::spec_display_elems;
use crate::atom::spec_escape;

verus! {

broadcast use vstd::std_specs::vec::axiom_vec_index_decreases;

/// Errors surfaced while reading source text. They are mutually exclusive and
/// terminal for the current read.
#[derive(Clone, Copy, Debug, PartialEq, Eq, Structural)]
pub enum ParseError {
    /// No token was left where a form was required.
    UnexpectedEndOfFile,
    /// A list, vector or map was missing its closing delimiter, or a string
    /// literal its closing quote.
    Unbalanced,
    /// A string literal's content ended on a lone backslash.
    UnfinishedEscapeSequence,
    /// A backslash was followed by a character that names no escape.
    UnsupportedEscapeSequence,
    /// A map literal held an odd number of elements: a key without a value.
    UnpairedMapKey,
}

/// Whitespace and commas: pure separators that never start a token.
pub open spec fn is_separator(c: char) -> bool {
    c == ' ' || c == '\t' || c == '\n' || c == '\r' || c == '\u{b}' || c == '\u{c}' || c == ','
}

/// The single-character structural tokens.
pub open spec fn is_special(c: char) -> bool {
    c == '(' || c == ')' || c == '[' || c == ']' || c == '{' || c == '}' || c == '\'' || c == '`'
        || c == '~' || c == '^' || c == '@'
}

/// The characters a symbol/number-like token may contain: anything but
/// separators, brackets, parentheses, quotes and the comment mark.
pub open spec fn is_symbol_char(c: char) -> bool {
    !(c == ' ' || c == '\t' || c == '\n' || c == '\r' || c == '\u{b}' || c == '\u{c}' || c == ','
        || c == '[' || c == ']' || c == '{' || c == '}' || c == '(' || c == ')' || c == '\'' || c
        == '"' || c == '`' || c == ';')
}

/// The position just past a string literal that opened before `i`: scans over
/// backslash-escaped pairs and plain characters up to and including the next
/// unescaped `"`, or to the end of the text if the literal is unterminated.
pub open spec fn spec_string_end(s: Seq<char>, i: int) -> int
    decreases s.len() - i,
{
    if i < 0 || i >= s.len() {
        i
    } else if s[i] == '\\' {
        if i + 1 < s.len() {
            spec_string_end(s, i + 2)
        } else {
            i + 1
        }
    } else if s[i] == '"' {
        i + 1
    } else {
        spec_string_end(s, i + 1)
    }
}

/// The position of the first newline at or after `i`, or the end of the text:
/// where a comment stops.
pub open spec fn spec_comment_end(s: Seq<char>, i: int) -> int
    decreases s.len() - i,
{
    if i < 0 || i >= s.len() {
        s.len() as int
    } else if s[i] == '\n' {
        i
    } else {
        spec_comment_end(s, i + 1)
    }
}

/// The position just past the maximal run of symbol characters from `i`.
pub open spec fn spec_symbol_end(s: Seq<char>, i: int) -> int
    decreases s.len() - i,
{
    if i < 0 || i >= s.len() {
        i
    } else if is_symbol_char(s[i]) {
        spec_symbol_end(s, i + 1)
    } else {
        i
    }
}

/// A scan position clamped into `(i, s.len()]`, so that the tokenizer always
/// advances and never leaves the text.
pub open spec fn next_pos(s: Seq<char>, i: int, j: int) -> int {
    if j <= i {
        i + 1
    } else if j > s.len() {
        s.len() as int
    } else {
        j
    }
}

/// The token sequence of the text from position `i` on, in source order:
/// separators are skipped, comments are discarded, `~@` and the single
/// structural characters stand alone, a `"` opens a string literal (possibly
/// unterminated), and anything else is a maximal symbol run. No token is
/// empty.
pub open spec fn spec_tokens(s: Seq<char>, i: int) -> Seq<Seq<char>>
    decreases s.len() - i,
{
    if i < 0 || i >= s.len() {
        Seq::empty()
    } else if is_separator(s[i]) {
        spec_tokens(s, i + 1)
    } else if s[i] == ';' {
        spec_tokens(s, next_pos(s, i, spec_comment_end(s, i + 1)))
    } else if s[i] == '~' && i + 1 < s.len() && s[i + 1] == '@' {
        seq![s.subrange(i, i + 2)] + spec_tokens(s, i + 2)
    } else if is_special(s[i]) {
        seq![s.subrange(i, i + 1)] + spec_tokens(s, i + 1)
    } else if s[i] == '"' {
        let j = next_pos(s, i, spec_string_end(s, i + 1));
        seq![s.subrange(i, j)] + spec_tokens(s, j)
    } else {
        let j = next_pos(s, i, spec_symbol_end(s, i));
        seq![s.subrange(i, j)] + spec_tokens(s, j)
    }
}

/// The character sequences of a token vector, in order.
pub open spec fn tokens_view(t: Vec<String>) -> Seq<Seq<char>> {
    Seq::new(
        t.len() as nat,
        |i: int|
            if 0 <= i < t.len() {
                t[i]@
            } else {
                Seq::empty()
            },
    )
}

/// Law: no token is the empty string — every lexeme the tokenizer yields
/// holds at least one character.
pub proof fn lemma_tokens_nonempty(s: Seq<char>, i: int)
    ensures
        forall|k: int|
            0 <= k < spec_tokens(s, i).len() ==> #[trigger] spec_tokens(s, i)[k].len() > 0,
    decreases s.len() - i,
{
    if 0 <= i < s.len() {
        let toks = spec_tokens(s, i);
        if is_separator(s[i]) {
            lemma_tokens_nonempty(s, i + 1);
            assert forall|k: int| 0 <= k < toks.len() implies #[trigger] toks[k].len() > 0 by {
                assert(toks[k] == spec_tokens(s, i + 1)[k]);
            }
        } else if s[i] == ';' {
            let j = next_pos(s, i, spec_comment_end(s, i + 1));
            lemma_tokens_nonempty(s, j);
            assert forall|k: int| 0 <= k < toks.len() implies #[trigger] toks[k].len() > 0 by {
                assert(toks[k] == spec_tokens(s, j)[k]);
            }
        } else {
            let j = if s[i] == '~' && i + 1 < s.len() && s[i + 1] == '@' {
                i + 2
            } else if is_special(s[i]) {
                i + 1
            } else if s[i] == '"' {
                next_pos(s, i, spec_string_end(s, i + 1))
            } else {
                next_pos(s, i, spec_symbol_end(s, i))
            };
            lemma_tokens_nonempty(s, j);
            assert(toks == seq![s.subrange(i, j)] + spec_tokens(s, j));
            assert forall|k: int| 0 <= k < toks.len() implies #[trigger] toks[k].len() > 0 by {
                if k == 0 {
                    assert(toks[0] == s.subrange(i, j));
                } else {
                    assert(toks[k] == spec_tokens(s, j)[k - 1]);
                }
            }
        }
    }
}

/// Exec twin of `is_separator`.
fn separator_char(c: char) -> (r: bool)
    ensures
        r == is_separator(c),
{
    c == ' ' || c == '\t' || c == '\n' || c == '\r' || c == '\u{b}' || c == '\u{c}' || c == ','
}

/// Exec twin of `is_special`.
fn special_char(c: char) -> (r: bool)
    ensures
        r == is_special(c),
{
    c == '(' || c == ')' || c == '[' || c == ']' || c == '{' || c == '}' || c == '\'' || c == '`'
        || c == '~' || c == '^' || c == '@'
}

/// Exec twin of `is_symbol_char`.
fn symbol_char(c: char) -> (r: bool)
    ensures
        r == is_symbol_char(c),
{
    !(c == ' ' || c == '\t' || c == '\n' || c == '\r' || c == '\u{b}' || c == '\u{c}' || c == ','
        || c == '[' || c == ']' || c == '{' || c == '}' || c == '(' || c == ')' || c == '\'' || c
        == '"' || c == '`' || c == ';')
}

/// Scans to the end of a string literal, per `spec_string_end`.
fn scan_string(s: &str, start: usize) -> (j: usize)
    requires
        start <= s@.len(),
    ensures
        j as int == spec_string_end(s@, start as int),
        start <= j <= s@.len(),
{
    let n = s.unicode_len();
    let mut j = start;
    loop
        invariant
            start <= j <= n,
            n == s@.len(),
            spec_string_end(s@, start as int) == spec_string_end(s@, j as int),
        decreases n - j,
    {
        if j >= n {
            return j;
        }
        let c = s.get_char(j);
        if c == '\\' {
            if j + 1 < n {
                j = j + 2;
            } else {
                return j + 1;
            }
        } else if c == '"' {
            return j + 1;
        } else {
            j = j + 1;
        }
    }
}

/// Scans to the end of a comment, per `spec_comment_end`.
fn scan_comment(s: &str, start: usize) -> (j: usize)
    requires
        start <= s@.len(),
    ensures
        j as int == spec_comment_end(s@, start as int),
        start <= j <= s@.len(),
{
    let n = s.unicode_len();
    let mut j = start;
    loop
        invariant
            start <= j <= n,
            n == s@.len(),
            spec_comment_end(s@, start as int) == spec_comment_end(s@, j as int),
        decreases n - j,
    {
        if j >= n {
            return j;
        }
        if s.get_char(j) == '\n' {
            return j;
        }
        j = j + 1;
    }
}

/// Scans to the end of a symbol run, per `spec_symbol_end`.
fn scan_symbol(s: &str, start: usize) -> (j: usize)
    requires
        start <= s@.len(),
    ensures
        j as int == spec_symbol_end(s@, start as int),
        start <= j <= s@.len(),
{
    let n = s.unicode_len();
    let mut j = start;
    loop
        invariant
            start <= j <= n,
            n == s@.len(),
            spec_symbol_end(s@, start as int) == spec_symbol_end(s@, j as int),
        decreases n - j,
    {
        if j >= n {
            return j;
        }
        if !symbol_char(s.get_char(j)) {
            return j;
        }
        j = j + 1;
    }
}

/// Splits source text into its lexemes, per `spec_tokens`: tokens come in
/// source order and none is empty.
pub fn tokenize(s: &str) -> (tokens: Vec<String>)
    ensures
        tokens_view(tokens) == spec_tokens(s@, 0),
        tokens@.len() <= s@.len(),
{
    let n = s.unicode_len();
    let mut tokens: Vec<String> = Vec::new();
    let mut i: usize = 0;
    proof {
        assert(tokens_view(tokens) + spec_tokens(s@, 0) =~= spec_tokens(s@, 0));
    }
    while i < n
        invariant
            i <= n,
            n == s@.len(),
            tokens@.len() <= i,
            tokens_view(tokens) + spec_tokens(s@, i as int) =~= spec_tokens(s@, 0),
        decreases n - i,
    {
        let ghost toks0 = tokens_view(tokens);
        let c = s.get_char(i);
        if separator_char(c) {
            i = i + 1;
        } else if c == ';' {
            let j = scan_comment(s, i + 1);
            proof {
                assert(next_pos(s@, i as int, spec_comment_end(s@, i + 1 as int)) == j as int);
            }
            i = j;
        } else if c == '~' && i + 1 < n && s.get_char(i + 1) == '@' {
            let tok = s.substring_char(i, i + 2).to_owned();
            tokens.push(tok);
            proof {
                assert(tokens_view(tokens) =~= toks0.push(s@.subrange(i as int, i + 2 as int)));
                assert(toks0.push(s@.subrange(i as int, i + 2 as int)) + spec_tokens(
                    s@,
                    i + 2 as int,
                ) =~= toks0 + (seq![s@.subrange(i as int, i + 2 as int)] + spec_tokens(
                    s@,
                    i + 2 as int,
                )));
            }
            i = i + 2;
        } else if special_char(c) {
            let tok = s.substring_char(i, i + 1).to_owned();
            tokens.push(tok);
            proof {
                assert(tokens_view(tokens) =~= toks0.push(s@.subrange(i as int, i + 1 as int)));
                assert(toks0.push(s@.subrange(i as int, i + 1 as int)) + spec_tokens(
                    s@,
                    i + 1 as int,
                ) =~= toks0 + (seq![s@.subrange(i as int, i + 1 as int)] + spec_tokens(
                    s@,
                    i + 1 as int,
                )));
            }
            i = i + 1;
        } else if c == '"' {
            let j = scan_string(s, i + 1);
            proof {
                assert(next_pos(s@, i as int, spec_string_end(s@, i + 1 as int)) == j as int);
            }
            let tok = s.substring_char(i, j).to_owned();
            tokens.push(tok);
            proof {
                assert(tokens_view(tokens) =~= toks0.push(s@.subrange(i as int, j as int)));
                assert(toks0.push(s@.subrange(i as int, j as int)) + spec_tokens(s@, j as int)
                    =~= toks0 + (seq![s@.subrange(i as int, j as int)] + spec_tokens(
                    s@,
                    j as int,
                )));
            }
            i = j;
        } else {
            let j = scan_symbol(s, i);
            proof {
                assert(is_symbol_char(s@[i as int]));
                assert(spec_symbol_end(s@, i as int) == spec_symbol_end(s@, i + 1 as int));
                assert(spec_symbol_end(s@, i + 1 as int) >= i + 1) by {
                    lemma_symbol_end_bounds(s@, i + 1 as int);
                }
                assert(next_pos(s@, i as int, spec_symbol_end(s@, i as int)) == j as int);
            }
            let tok = s.substring_char(i, j).to_owned();
            tokens.push(tok);
            proof {
                assert(tokens_view(tokens) =~= toks0.push(s@.subrange(i as int, j as int)));
                assert(toks0.push(s@.subrange(i as int, j as int)) + spec_tokens(s@, j as int)
                    =~= toks0 + (seq![s@.subrange(i as int, j as int)] + spec_tokens(
                    s@,
                    j as int,
                )));
            }
            i = j;
        }
    }
    proof {
        assert(spec_tokens(s@, n as int) =~= Seq::<Seq<char>>::empty());
        assert(tokens_view(tokens) + spec_tokens(s@, n as int) =~= tokens_view(tokens));
    }
    tokens
}

/// A symbol run that starts on a symbol character reaches at least one
/// character past its start.
proof fn lemma_symbol_end_bounds(s: Seq<char>, i: int)
    requires
        0 <= i <= s.len(),
    ensures
        i <= spec_symbol_end(s, i) <= s.len(),
    decreases s.len() - i,
{
    if i < s.len() && is_symbol_char(s[i]) {
        lemma_symbol_end_bounds(s, i + 1);
    }
}

/// A decimal digit.
pub open spec fn is_digit(c: char) -> bool {
    48 <= c as u32 <= 57
}

/// The numeric value of a decimal digit character.
pub open spec fn digit_val(c: char) -> int {
    c as u32 - 48
}

/// Whether every character of the sequence is a decimal digit.
pub open spec fn all_digits(s: Seq<char>) -> bool {
    forall|j: int| 0 <= j < s.len() ==> is_digit(#[trigger] s[j])
}

/// The value of a digit sequence read in base 10.
pub open spec fn digits_val(s: Seq<char>) -> int
    decreases s.len(),
{
    if s.len() == 0 {
        0
    } else {
        digits_val(s.drop_last()) * 10 + digit_val(s.last())
    }
}

/// The base-10 signed integer a token denotes, if any: an optional `+` or `-`
/// sign, then at least one digit, with the value within `i64`'s range.
pub open spec fn spec_parse_int(t: Seq<char>) -> Option<i64> {
    let sgn: int = if t.len() > 0 && t[0] == '-' {
        -1
    } else {
        1
    };
    let ds = if t.len() > 0 && (t[0] == '+' || t[0] == '-') {
        t.drop_first()
    } else {
        t
    };
    if ds.len() > 0 && all_digits(ds) && i64::MIN <= sgn * digits_val(ds) <= i64::MAX {
        Some((sgn * digits_val(ds)) as i64)
    } else {
        None
    }
}

/// The value of a digit sequence is non-negative.
proof fn lemma_digits_val_nonneg(s: Seq<char>)
    requires
        all_digits(s),
    ensures
        digits_val(s) >= 0,
    decreases s.len(),
{
    if s.len() > 0 {
        assert(all_digits(s.drop_last()));
        lemma_digits_val_nonneg(s.drop_last());
    }
}

/// Appending digits never lowers the value of a digit sequence.
proof fn lemma_digits_val_prefix(s: Seq<char>, j: int)
    requires
        0 <= j <= s.len(),
        all_digits(s),
    ensures
        digits_val(s) >= digits_val(s.take(j)),
    decreases s.len() - j,
{
    if j == s.len() {
        assert(s.take(j) =~= s);
    } else {
        lemma_digits_val_prefix(s, j + 1);
        assert(s.take(j + 1).drop_last() =~= s.take(j));
        assert(s.take(j + 1).last() == s[j]);
        assert(all_digits(s.take(j)));
        lemma_digits_val_nonneg(s.take(j));
    }
}

/// Parses a token as a base-10 signed integer, per `spec_parse_int`: `None`
/// when the token is not all digits after an optional sign, or the value does
/// not fit in an `i64`.
pub fn parse_int(t: &str) -> (r: Option<i64>)
    ensures
        r == spec_parse_int(t@),
{
    let n = t.unicode_len();
    if n == 0 {
        return None;
    }
    let c0 = t.get_char(0);
    let has_sign = c0 == '+' || c0 == '-';
    let neg = c0 == '-';
    let start: usize = if has_sign {
        1
    } else {
        0
    };
    let ghost ds = t@.skip(start as int);
    proof {
        if has_sign {
            assert(t@.drop_first() =~= ds);
        } else {
            assert(t@.skip(0) =~= t@);
        }
    }
    if start >= n {
        return None;
    }
    let cap: u128 = 9223372036854775808;
    let mut mag: u128 = 0;
    let mut i = start;
    proof {
        assert(ds.take(0) =~= Seq::<char>::empty());
    }
    while i < n
        invariant
            start <= i <= n,
            n == t@.len(),
            start <= 1,
            start < n,
            (start == 1) == (t@[0] == '+' || t@[0] == '-'),
            neg == (t@[0] == '-'),
            ds == t@.skip(start as int),
            ds == (if t@.len() > 0 && (t@[0] == '+' || t@[0] == '-') {
                t@.drop_first()
            } else {
                t@
            }),
            mag as int == digits_val(ds.take(i - start)),
            all_digits(ds.take(i - start)),
            mag <= 9223372036854775808u128,
            cap == 9223372036854775808u128,
        decreases n - i,
    {
        let c = t.get_char(i);
        let u = c as u32;
        if u < 48 || u > 57 {
            proof {
                assert(ds[i - start] == t@[i as int]);
                assert(!is_digit(ds[i - start]));
            }
            return None;
        }
        let d = (u - 48) as u128;
        proof {
            assert(ds.take(i + 1 - start).drop_last() =~= ds.take(i - start));
            assert(ds.take(i + 1 - start).last() == ds[i - start]);
            assert(ds[i - start] == t@[i as int]);
        }
        mag = mag * 10 + d;
        i = i + 1;
        if mag > cap {
            proof {
                if all_digits(ds) {
                    lemma_digits_val_prefix(ds, i - start);
                    if t@.len() > 0 && t@[0] == '-' {
                        assert((-1int) * digits_val(ds) == -digits_val(ds));
                    } else {
                        assert((1int) * digits_val(ds) == digits_val(ds));
                    }
                }
            }
            return None;
        }
    }
    proof {
        assert(ds.take(n - start) =~= ds);
        if t@.len() > 0 && t@[0] == '-' {
            assert((-1int) * digits_val(ds) == -digits_val(ds));
        } else {
            assert((1int) * digits_val(ds) == digits_val(ds));
        }
    }
    if neg {
        if mag == cap {
            return Some(i64::MIN);
        }
        return Some(-(mag as i64));
    }
    if mag == cap {
        return None;
    }
    Some(mag as i64)
}

/// The atom a non-structural token denotes: an integer when it parses as one,
/// a keyword when it starts with `:`, a symbol otherwise.
pub open spec fn spec_read_atom(t: Seq<char>) -> SAtom {
    match spec_parse_int(t) {
        Some(n) => SAtom::Integer(n),
        None => if t.len() > 0 && t[0] == ':' {
            SAtom::Keyword(t.drop_first())
        } else {
            SAtom::Symbol(t)
        },
    }
}

/// Turns a non-structural token into an atom, per `spec_read_atom`.
pub fn read_atom(token: &str) -> (a: Atom)
    ensures
        a@ == spec_read_atom(token@),
{
    match parse_int(token) {
        Some(num) => Atom::Integer(num),
        None => {
            let n = token.unicode_len();
            if n > 0 && token.get_char(0) == ':' {
                let rest = token.substring_char(1, n).to_owned();
                proof {
                    assert(rest@ =~= token@.drop_first());
                }
                Atom::Keyword(rest)
            } else {
                Atom::Symbol(token.to_owned())
            }
        },
    }
}

/// String-content escape decoding: a backslash must be followed by `"`, `'`
/// or `\`, which it maps to that literal character; a trailing backslash or
/// any other escaped character is an error. Everything else passes through.
pub open spec fn spec_unescape(s: Seq<char>) -> Result<Seq<char>, ParseError>
    decreases s.len(),
{
    if s.len() == 0 {
        Ok(Seq::empty())
    } else if s[0] == '\\' {
        if s.len() == 1 {
            Err(ParseError::UnfinishedEscapeSequence)
        } else if s[1] == '"' || s[1] == '\'' || s[1] == '\\' {
            match spec_unescape(s.skip(2)) {
                Ok(r) => Ok(seq![s[1]] + r),
                Err(e) => Err(e),
            }
        } else {
            Err(ParseError::UnsupportedEscapeSequence)
        }
    } else {
        match spec_unescape(s.drop_first()) {
            Ok(r) => Ok(seq![s[0]] + r),
            Err(e) => Err(e),
        }
    }
}

/// `spec_unescape` of a suffix, prefixed with already-decoded output.
pub open spec fn unescape_join(prefix: Seq<char>, rest: Seq<char>) -> Result<
    Seq<char>,
    ParseError,
> {
    match spec_unescape(rest) {
        Ok(r) => Ok(prefix + r),
        Err(e) => Err(e),
    }
}

/// Decodes the escapes in a string literal's content, per `spec_unescape`.
pub fn unescape(s: &str) -> (r: Result<String, ParseError>)
    ensures
        match (r, spec_unescape(s@)) {
            (Ok(out), Ok(cs)) => out@ == cs,
            (Err(e), Err(se)) => e == se,
            _ => false,
        },
{
    let n = s.unicode_len();
    let mut out = String::new();
    let mut i: usize = 0;
    proof {
        assert(s@.skip(0) =~= s@);
        if spec_unescape(s@) is Ok {
            assert(Seq::<char>::empty() + spec_unescape(s@)->Ok_0 =~= spec_unescape(s@)->Ok_0);
        }
    }
    while i < n
        invariant
            i <= n,
            n == s@.len(),
            unescape_join(out@, s@.skip(i as int)) == spec_unescape(s@),
        decreases n - i,
    {
        let ghost rest = s@.skip(i as int);
        proof {
            assert(rest[0] == s@[i as int]);
        }
        let c = s.get_char(i);
        if c == '\\' {
            if i + 1 >= n {
                proof {
                    assert(rest.len() == 1);
                }
                return Err(ParseError::UnfinishedEscapeSequence);
            }
            let c2 = s.get_char(i + 1);
            proof {
                assert(rest[1] == s@[i + 1 as int]);
            }
            if c2 == '"' || c2 == '\'' || c2 == '\\' {
                let ghost out0 = out@;
                push_char(&mut out, c2);
                proof {
                    assert(rest.skip(2) =~= s@.skip(i + 2 as int));
                    if spec_unescape(s@.skip(i + 2 as int)) is Ok {
                        let tail = spec_unescape(s@.skip(i + 2 as int))->Ok_0;
                        assert(out@ + tail =~= out0 + (seq![c2] + tail));
                    }
                }
                i = i + 2;
            } else {
                return Err(ParseError::UnsupportedEscapeSequence);
            }
        } else {
            let ghost out0 = out@;
            push_char(&mut out, c);
            proof {
                assert(rest.drop_first() =~= s@.skip(i + 1 as int));
                if spec_unescape(s@.skip(i + 1 as int)) is Ok {
                    let tail = spec_unescape(s@.skip(i + 1 as int))->Ok_0;
                    assert(out@ + tail =~= out0 + (seq![c] + tail));
                }
            }
            i = i + 1;
        }
    }
    proof {
        assert(s@.skip(n as int) =~= Seq::<char>::empty());
        assert(out@ + Seq::<char>::empty() =~= out@);
    }
    Ok(out)
}

/// Pairs a flat element sequence into map entries, inserting each key/value
/// pair in turn into the accumulated (sorted) entries; an odd element count
/// leaves a key without a value.
pub open spec fn spec_pairs_into(
    m: Seq<(SAtom, SAtom)>,
    es: Seq<SAtom>,
) -> Result<Seq<(SAtom, SAtom)>, ParseError>
    decreases es.len(),
{
    if es.len() == 0 {
        Ok(m)
    } else if es.len() == 1 {
        Err(ParseError::UnpairedMapKey)
    } else {
        spec_pairs_into(spec_map_insert(m, es[0], es[1]), es.skip(2))
    }
}

/// The map entries a flat element sequence denotes, starting from no entries.
pub open spec fn spec_pairs_map(es: Seq<SAtom>) -> Result<Seq<(SAtom, SAtom)>, ParseError> {
    spec_pairs_into(Seq::empty(), es)
}

/// Pairs the elements of a list into a map's backing vector, per
/// `spec_pairs_map`.
fn pairs_to_map(list: Vec<Atom>) -> (r: Result<Vec<(Atom, Atom)>, ParseError>)
    ensures
        match (r, spec_pairs_map(sview_elems(list))) {
            (Ok(m), Ok(sm)) => sview_entries(m) == sm,
            (Err(e), Err(se)) => e == se,
            _ => false,
        },
{
    let ghost es = sview_elems(list);
    let mut m: Vec<(Atom, Atom)> = Vec::new();
    let mut i: usize = 0;
    proof {
        assert(es.skip(0) =~= es);
        assert(sview_entries(m) =~= Seq::<(SAtom, SAtom)>::empty());
    }
    loop
        invariant
            i <= list.len(),
            es == sview_elems(list),
            spec_pairs_into(sview_entries(m), es.skip(i as int)) == spec_pairs_map(es),
        decreases list.len() - i,
    {
        if i >= list.len() {
            proof {
                assert(es.skip(i as int) =~= Seq::<SAtom>::empty());
            }
            return Ok(m);
        }
        if i + 1 >= list.len() {
            proof {
                assert(es.skip(i as int).len() == 1);
            }
            return Err(ParseError::UnpairedMapKey);
        }
        proof {
            assert(es.skip(i as int)[0] == es[i as int]);
            assert(es.skip(i as int)[1] == es[i + 1 as int]);
            assert(es.skip(i as int).skip(2) =~= es.skip(i + 2 as int));
        }
        let k = list[i].duplicate();
        let v = list[i + 1].duplicate();
        map_insert(&mut m, k, v);
        i = i + 2;
    }
}

/// Law: a map read from source text has strictly ascending, pairwise-distinct
/// keys under the structural order, since it is built by repeated sorted
/// insertion from no entries.
pub proof fn lemma_pairs_map_sorted(es: Seq<SAtom>)
    ensures
        spec_pairs_map(es) matches Ok(m) ==> entries_sorted(m),
{
    lemma_pairs_into_sorted(Seq::empty(), es);
}

proof fn lemma_pairs_into_sorted(m: Seq<(SAtom, SAtom)>, es: Seq<SAtom>)
    requires
        entries_sorted(m),
    ensures
        spec_pairs_into(m, es) matches Ok(r) ==> entries_sorted(r),
    decreases es.len(),
{
    if es.len() >= 2 {
        lemma_map_insert_sorted(m, es[0], es[1]);
        lemma_pairs_into_sorted(spec_map_insert(m, es[0], es[1]), es.skip(2));
    }
}

/// Pairing well-formed elements into well-formed entries keeps every key and
/// value well-formed.
proof fn lemma_pairs_into_wf(m: Seq<(SAtom, SAtom)>, es: Seq<SAtom>)
    requires
        swf_entries(m),
        swf_seq(es),
    ensures
        spec_pairs_into(m, es) matches Ok(r) ==> swf_entries(r),
    decreases es.len(),
{
    if es.len() >= 2 {
        lemma_swf_seq_index(es, 0);
        lemma_swf_seq_index(es, 1);
        lemma_map_insert_wf(m, es[0], es[1]);
        lemma_swf_seq_skip(es, 2);
        lemma_pairs_into_wf(spec_map_insert(m, es[0], es[1]), es.skip(2));
    }
}

/// A parse position clamped into `(p, len]`, so that list reading always
/// advances and never leaves the token sequence.
pub open spec fn clamp_idx(len: int, p: int, q: int) -> int {
    if q <= p {
        p + 1
    } else if q > len {
        len
    } else {
        q
    }
}

/// Reads one form starting at token `p`: the result and the position just
/// past what was consumed. A `(`, `[` or `{` token opens a list, vector or
/// map read to the matching end marker; a token opening with `"` must close
/// with `"` and its interior is escape-decoded; the tokens `'`, `` ` ``, `~`,
/// `~@` and `@` each wrap the following form in a two-element list headed by
/// the matching symbol; any other token is an atom. No token at all is
/// `UnexpectedEndOfFile`.
pub open spec fn spec_read_form(toks: Seq<Seq<char>>, p: int) -> (Result<SAtom, ParseError>, int)
    decreases toks.len() - p, 0int,
{
    if p < 0 || p >= toks.len() {
        (Err(ParseError::UnexpectedEndOfFile), p + 1)
    } else {
        let t = toks[p];
        if t.len() == 0 {
            (Ok(spec_read_atom(t)), p + 1)
        } else if t[0] == '(' {
            let rl = spec_read_list(toks, p + 1, ')');
            (
                match rl.0 {
                    Ok(es) => Ok(SAtom::List(es)),
                    Err(e) => Err(e),
                },
                rl.1,
            )
        } else if t[0] == '[' {
            let rl = spec_read_list(toks, p + 1, ']');
            (
                match rl.0 {
                    Ok(es) => Ok(SAtom::Vector(es)),
                    Err(e) => Err(e),
                },
                rl.1,
            )
        } else if t[0] == '{' {
            let rl = spec_read_list(toks, p + 1, '}');
            (
                match rl.0 {
                    Ok(es) => match spec_pairs_map(es) {
                        Ok(m) => Ok(SAtom::HashMap(m)),
                        Err(e) => Err(e),
                    },
                    Err(e) => Err(e),
                },
                rl.1,
            )
        } else if t[0] == '"' {
            (
                if t.len() < 2 || t.last() != '"' {
                    Err(ParseError::Unbalanced)
                } else {
                    match spec_unescape(t.subrange(1, t.len() - 1)) {
                        Ok(cs) => Ok(SAtom::String(cs)),
                        Err(e) => Err(e),
                    }
                },
                p + 1,
            )
        } else if t == seq!['\''] {
            spec_read_macro(toks, p + 1, "quote"@)
        } else if t == seq!['`'] {
            spec_read_macro(toks, p + 1, "quasiquote"@)
        } else if t == seq!['~'] {
            spec_read_macro(toks, p + 1, "unquote"@)
        } else if t == seq!['~', '@'] {
            spec_read_macro(toks, p + 1, "splice-unquote"@)
        } else if t == seq!['@'] {
            spec_read_macro(toks, p + 1, "deref"@)
        } else {
            (Ok(spec_read_atom(t)), p + 1)
        }
    }
}

/// Reads the form after a reader-macro token at `q - 1` and wraps it in a
/// two-element list headed by the symbol `name`.
pub open spec fn spec_read_macro(toks: Seq<Seq<char>>, q: int, name: Seq<char>) -> (
    Result<SAtom, ParseError>,
    int,
)
    decreases toks.len() - q, 1int,
{
    let rf = spec_read_form(toks, q);
    match rf.0 {
        Ok(inner) => (Ok(SAtom::List(seq![SAtom::Symbol(name), inner])), rf.1),
        Err(e) => (Err(e), rf.1),
    }
}

/// Reads forms from token `p` until the end-marker token, which is consumed;
/// running out of tokens first is `Unbalanced`.
pub open spec fn spec_read_list(toks: Seq<Seq<char>>, p: int, end: char) -> (
    Result<Seq<SAtom>, ParseError>,
    int,
)
    decreases toks.len() - p, 1int,
{
    if p < 0 || p >= toks.len() {
        (Err(ParseError::Unbalanced), p)
    } else if toks[p] == seq![end] {
        (Ok(Seq::empty()), p + 1)
    } else {
        let rf = spec_read_form(toks, p);
        match rf.0 {
            Err(e) => (Err(e), rf.1),
            Ok(a) => {
                let q = clamp_idx(toks.len() as int, p, rf.1);
                let rl = spec_read_list(toks, q, end);
                match rl.0 {
                    Ok(es) => (Ok(seq![a] + es), rl.1),
                    Err(e) => (Err(e), rl.1),
                }
            },
        }
    }
}

/// `spec_read_list` of a suffix of the tokens, prefixed with already-read
/// elements.
pub open spec fn spec_read_list_join(
    acc: Seq<SAtom>,
    rest: (Result<Seq<SAtom>, ParseError>, int),
) -> (Result<Seq<SAtom>, ParseError>, int) {
    (
        match rest.0 {
            Ok(es) => Ok(acc + es),
            Err(e) => Err(e),
        },
        rest.1,
    )
}

/// A cursor over the token sequence.
pub struct Reader {
    pub tokens: Vec<String>,
    pub position: usize,
}

impl Reader {
    /// The token sequence the cursor walks.
    pub open spec fn toks(&self) -> Seq<Seq<char>> {
        tokens_view(self.tokens)
    }

    /// Returns the token at the current position and increments the position,
    /// also past the end of the tokens, where it returns nothing.
    pub fn next(&mut self) -> (t: Option<String>)
        requires
            old(self).position < usize::MAX,
        ensures
            final(self).tokens == old(self).tokens,
            final(self).position == old(self).position + 1,
            match t {
                Some(tok) => old(self).position < old(self).tokens.len() && tok@ == old(
                    self,
                ).toks()[old(self).position as int],
                None => old(self).position >= old(self).tokens.len(),
            },
    {
        let token = if self.position < self.tokens.len() {
            Some(self.tokens[self.position].clone())
        } else {
            None
        };
        self.position = self.position + 1;
        token
    }

    /// Returns the token at the current position without advancing.
    pub fn peek(&self) -> (t: Option<String>)
        ensures
            match t {
                Some(tok) => self.position < self.tokens.len() && tok@ == self.toks()[self.position
                    as int],
                None => self.position >= self.tokens.len(),
            },
    {
        if self.position < self.tokens.len() {
            Some(self.tokens[self.position].clone())
        } else {
            None
        }
    }
}

/// Reads one form from the cursor, per `spec_read_form`.
pub fn read_form(reader: &mut Reader) -> (r: Result<Atom, ParseError>)
    requires
        old(reader).position <= old(reader).tokens.len(),
        old(reader).tokens.len() < usize::MAX,
    ensures
        final(reader).tokens == old(reader).tokens,
        ({
            let sres = spec_read_form(old(reader).toks(), old(reader).position as int);
            &&& final(reader).position as int == sres.1
            &&& match (r, sres.0) {
                (Ok(a), Ok(sa)) => a@ == sa,
                (Err(e), Err(se)) => e == se,
                _ => false,
            }
        }),
        final(reader).position > old(reader).position,
        r is Ok ==> final(reader).position <= old(reader).tokens.len(),
    decreases reader.tokens.len() - reader.position, 0int,
{
    let ghost toks = reader.toks();
    let ghost p = reader.position as int;
    match reader.next() {
        None => Err(ParseError::UnexpectedEndOfFile),
        Some(token) => {
            proof {
                assert(token@ == toks[p]);
            }
            let n = token.unicode_len();
            if n == 0 {
                return Ok(read_atom(token.as_str()));
            }
            let c0 = token.get_char(0);
            if c0 == '(' {
                match read_list(reader, ')') {
                    Ok(v) => Ok(Atom::List(v)),
                    Err(e) => Err(e),
                }
            } else if c0 == '[' {
                match read_list(reader, ']') {
                    Ok(v) => Ok(Atom::Vector(v)),
                    Err(e) => Err(e),
                }
            } else if c0 == '{' {
                match read_list(reader, '}') {
                    Ok(v) => match pairs_to_map(v) {
                        Ok(m) => Ok(Atom::HashMap(m)),
                        Err(e) => Err(e),
                    },
                    Err(e) => Err(e),
                }
            } else if c0 == '"' {
                if n < 2 || token.get_char(n - 1) != '"' {
                    Err(ParseError::Unbalanced)
                } else {
                    let content = token.substring_char(1, n - 1);
                    proof {
                        assert(content@ =~= toks[p].subrange(1, toks[p].len() - 1));
                    }
                    match unescape(content) {
                        Ok(sv) => Ok(Atom::String(sv)),
                        Err(e) => Err(e),
                    }
                }
            } else if n == 1 && c0 == '\'' {
                proof {
                    assert(token@ =~= seq!['\'']);
                }
                read_macro(reader, "quote")
            } else if n == 1 && c0 == '`' {
                proof {
                    assert(token@ =~= seq!['`']);
                }
                read_macro(reader, "quasiquote")
            } else if n == 1 && c0 == '~' {
                proof {
                    assert(token@ =~= seq!['~']);
                }
                read_macro(reader, "unquote")
            } else if n == 2 && c0 == '~' && token.get_char(1) == '@' {
                proof {
                    assert(token@ =~= seq!['~', '@']);
                }
                read_macro(reader, "splice-unquote")
            } else if n == 1 && c0 == '@' {
                proof {
                    assert(token@ =~= seq!['@']);
                }
                read_macro(reader, "deref")
            } else {
                proof {
                    assert(seq!['\''].len() == 1 && seq!['\''][0] == '\'');
                    assert(seq!['`'].len() == 1 && seq!['`'][0] == '`');
                    assert(seq!['~'].len() == 1 && seq!['~'][0] == '~');
                    assert(seq!['~', '@'].len() == 2 && seq!['~', '@'][0] == '~' && seq![
                        '~',
                        '@',
                    ][1] == '@');
                    assert(seq!['@'].len() == 1 && seq!['@'][0] == '@');
                    assert(token@ != seq!['\'']);
                    assert(token@ != seq!['`']);
                    assert(token@ != seq!['~']);
                    assert(token@ != seq!['~', '@']);
                    assert(token@ != seq!['@']);
                }
                Ok(read_atom(token.as_str()))
            }
        },
    }
}

/// Reads the form after a reader-macro token and wraps it as a two-element
/// list headed by `name`, per `spec_read_macro`.
fn read_macro(reader: &mut Reader, name: &str) -> (r: Result<Atom, ParseError>)
    requires
        old(reader).position <= old(reader).tokens.len(),
        old(reader).tokens.len() < usize::MAX,
    ensures
        final(reader).tokens == old(reader).tokens,
        ({
            let sres = spec_read_macro(old(reader).toks(), old(reader).position as int, name@);
            &&& final(reader).position as int == sres.1
            &&& match (r, sres.0) {
                (Ok(a), Ok(sa)) => a@ == sa,
                (Err(e), Err(se)) => e == se,
                _ => false,
            }
        }),
        final(reader).position >= old(reader).position,
        r is Ok ==> final(reader).position <= old(reader).tokens.len() && final(reader).position
            > old(reader).position,
    decreases reader.tokens.len() - reader.position, 1int,
{
    match read_form(reader) {
        Ok(inner) => {
            let ghost iv = inner@;
            let mut items: Vec<Atom> = Vec::new();
            items.push(Atom::Symbol(name.to_owned()));
            items.push(inner);
            proof {
                assert(sview_elems(items) =~= seq![SAtom::Symbol(name@), iv]);
            }
            Ok(Atom::List(items))
        },
        Err(e) => Err(e),
    }
}

/// Reads forms until the end-marker token, per `spec_read_list`.
pub fn read_list(reader: &mut Reader, end: char) -> (r: Result<Vec<Atom>, ParseError>)
    requires
        old(reader).tokens.len() < usize::MAX,
    ensures
        final(reader).tokens == old(reader).tokens,
        ({
            let sres = spec_read_list(old(reader).toks(), old(reader).position as int, end);
            &&& final(reader).position as int == sres.1
            &&& match (r, sres.0) {
                (Ok(v), Ok(es)) => sview_elems(v) == es,
                (Err(e), Err(se)) => e == se,
                _ => false,
            }
        }),
        final(reader).position >= old(reader).position,
        r is Ok ==> final(reader).position > old(reader).position && final(reader).position <= old(
            reader,
        ).tokens.len(),
    decreases reader.tokens.len() - reader.position, 1int,
{
    let ghost toks = old(reader).toks();
    let ghost p0 = old(reader).position as int;
    let mut res: Vec<Atom> = Vec::new();
    proof {
        assert(sview_elems(res) =~= Seq::<SAtom>::empty());
        let first = spec_read_list(toks, p0, end);
        if first.0 is Ok {
            assert(Seq::<SAtom>::empty() + first.0->Ok_0 =~= first.0->Ok_0);
        }
    }
    loop
        invariant
            reader.tokens == old(reader).tokens,
            reader.tokens.len() < usize::MAX,
            toks == old(reader).toks(),
            p0 == old(reader).position as int,
            reader.position >= p0,
            spec_read_list_join(
                sview_elems(res),
                spec_read_list(toks, reader.position as int, end),
            ) == spec_read_list(toks, p0, end),
        decreases toks.len() - reader.position,
    {
        let ghost pos = reader.position as int;
        match reader.peek() {
            None => {
                return Err(ParseError::Unbalanced);
            },
            Some(token) => {
                let n = token.unicode_len();
                if n == 1 && token.get_char(0) == end {
                    proof {
                        assert(toks[pos] =~= seq![end]);
                    }
                    let _ = reader.next();
                    proof {
                        assert(sview_elems(res) + Seq::<SAtom>::empty() =~= sview_elems(res));
                    }
                    return Ok(res);
                }
                proof {
                    assert(seq![end].len() == 1 && seq![end][0] == end);
                    assert(toks[pos] != seq![end]);
                }
                match read_form(reader) {
                    Ok(a) => {
                        let ghost av = a@;
                        let ghost rv0 = sview_elems(res);
                        res.push(a);
                        proof {
                            let newpos = reader.position as int;
                            assert(clamp_idx(toks.len() as int, pos, newpos) == newpos);
                            assert(sview_elems(res) =~= rv0.push(av));
                            let inner = spec_read_list(toks, newpos, end);
                            if inner.0 is Ok {
                                assert(rv0 + (seq![av] + inner.0->Ok_0) =~= rv0.push(av)
                                    + inner.0->Ok_0);
                            }
                        }
                    },
                    Err(e) => {
                        return Err(e);
                    },
                }
            },
        }
    }
}

/// The atom the source text denotes: tokenize, then read exactly one form.
pub open spec fn spec_read(s: Seq<char>) -> Result<SAtom, ParseError> {
    spec_read_form(spec_tokens(s, 0), 0).0
}

/// Every successfully read form is well-formed.
proof fn lemma_read_form_wf(toks: Seq<Seq<char>>, p: int)
    ensures
        spec_read_form(toks, p).0 matches Ok(a) ==> swf(a),
    decreases toks.len() - p, 0int,
{
    if 0 <= p < toks.len() {
        let t = toks[p];
        if t.len() == 0 {
        } else if t[0] == '(' || t[0] == '[' {
            let end = if t[0] == '(' {
                ')'
            } else {
                ']'
            };
            lemma_read_list_wf(toks, p + 1, end);
        } else if t[0] == '{' {
            lemma_read_list_wf(toks, p + 1, '}');
            let rl = spec_read_list(toks, p + 1, '}');
            match rl.0 {
                Ok(es) => {
                    lemma_pairs_map_sorted(es);
                    lemma_pairs_into_wf(Seq::empty(), es);
                },
                Err(_) => (),
            }
        } else if t[0] == '"' {
        } else if t == seq!['\''] || t == seq!['`'] || t == seq!['~'] || t == seq!['~', '@'] || t
            == seq!['@'] {
            let name = if t == seq!['\''] {
                "quote"@
            } else if t == seq!['`'] {
                "quasiquote"@
            } else if t == seq!['~'] {
                "unquote"@
            } else if t == seq!['~', '@'] {
                "splice-unquote"@
            } else {
                "deref"@
            };
            lemma_read_macro_wf(toks, p + 1, name);
        } else {
        }
    }
}

/// A successfully read reader-macro expansion is well-formed.
proof fn lemma_read_macro_wf(toks: Seq<Seq<char>>, q: int, name: Seq<char>)
    ensures
        spec_read_macro(toks, q, name).0 matches Ok(a) ==> swf(a),
    decreases toks.len() - q, 1int,
{
    lemma_read_form_wf(toks, q);
    let rf = spec_read_form(toks, q);
    match rf.0 {
        Ok(inner) => {
            let pair = seq![SAtom::Symbol(name), inner];
            assert(swf(inner));
            assert(pair[0] == SAtom::Symbol(name));
            assert(swf(SAtom::Symbol(name)));
            assert(pair.drop_first() =~= seq![inner]);
            assert(seq![inner][0] == inner);
            assert(seq![inner].drop_first() =~= Seq::<SAtom>::empty());
            assert(swf_seq(Seq::<SAtom>::empty()));
            assert(swf_seq(seq![inner]));
            assert(swf_seq(pair));
            assert(swf(SAtom::List(pair)));
        },
        Err(_) => (),
    }
}

/// Every element of a successfully read list body is well-formed.
proof fn lemma_read_list_wf(toks: Seq<Seq<char>>, p: int, end: char)
    ensures
        spec_read_list(toks, p, end).0 matches Ok(es) ==> swf_seq(es),
    decreases toks.len() - p, 1int,
{
    if 0 <= p < toks.len() && toks[p] != seq![end] {
        lemma_read_form_wf(toks, p);
        let rf = spec_read_form(toks, p);
        match rf.0 {
            Ok(a) => {
                let q = clamp_idx(toks.len() as int, p, rf.1);
                lemma_read_list_wf(toks, q, end);
                let rl = spec_read_list(toks, q, end);
                match rl.0 {
                    Ok(es) => {
                        assert((seq![a] + es)[0] == a);
                        assert((seq![a] + es).drop_first() =~= es);
                    },
                    Err(_) => (),
                }
            },
            Err(_) => (),
        }
    }
}

/// Law: whatever `read` yields is well-formed — every map inside it, at any
/// depth, has strictly ascending, pairwise-distinct keys under the structural
/// order.
pub proof fn lemma_read_wf(s: Seq<char>)
    ensures
        spec_read(s) matches Ok(a) ==> swf(a),
{
    lemma_read_form_wf(spec_tokens(s, 0), 0);
}

/// The decimal digits of a non-negative integer are digits, and they read
/// back as that integer.
proof fn lemma_nat_chars_value(m: int)
    requires
        m >= 0,
    ensures
        spec_nat_chars(m).len() > 0,
        all_digits(spec_nat_chars(m)),
        digits_val(spec_nat_chars(m)) == m,
    decreases m,
{
    if m < 10 {
        assert(digit_val(digit_char(m)) == m);
        assert(is_digit(digit_char(m)));
        let single = spec_nat_chars(m);
        assert(single == seq![digit_char(m)]);
        assert(single.drop_last() =~= Seq::<char>::empty());
        assert(digits_val(Seq::<char>::empty()) == 0);
        assert(single.last() == digit_char(m));
        assert(digits_val(single) == digits_val(single.drop_last()) * 10 + digit_val(
            single.last(),
        ));
    } else {
        lemma_nat_chars_value(m / 10);
        let pre = spec_nat_chars(m / 10);
        let whole = pre + seq![digit_char(m % 10)];
        assert(whole.drop_last() =~= pre);
        assert(whole.last() == digit_char(m % 10));
        assert(digit_val(digit_char(m % 10)) == m % 10);
        assert(is_digit(digit_char(m % 10)));
        assert(all_digits(whole)) by {
            assert forall|j: int| 0 <= j < whole.len() implies is_digit(#[trigger] whole[j]) by {
                if j < pre.len() {
                    assert(whole[j] == pre[j]);
                }
            }
        }
        assert(digits_val(whole) == m / 10 * 10 + m % 10);
        vstd::arithmetic::div_mod::lemma_fundamental_div_mod(m, 10);
        assert(spec_nat_chars(m) == whole);
    }
}

/// A digit is a symbol character.
proof fn lemma_digit_is_symbol_char(c: char)
    requires
        is_digit(c),
    ensures
        is_symbol_char(c),
        !is_special(c),
        c != '+' && c != '-' && c != ':',
{
}

/// The decimal rendering of an `i64` parses back as that value.
proof fn lemma_parse_int_chars(n: i64)
    ensures
        spec_parse_int(spec_int_chars(n as int)) == Some(n),
{
    let t = spec_int_chars(n as int);
    if n >= 0 {
        lemma_nat_chars_value(n as int);
        assert(is_digit(t[0]));
        lemma_digit_is_symbol_char(t[0]);
        assert((1int) * digits_val(t) == digits_val(t));
    } else {
        lemma_nat_chars_value(-(n as int));
        let ds = spec_nat_chars(-(n as int));
        assert(t[0] == '-');
        assert(t.drop_first() =~= ds);
        assert((-1int) * digits_val(ds) == -digits_val(ds));
    }
}

/// An index into a suffix is the shifted index into the whole.
proof fn lemma_skip_index<A>(u: Seq<A>, i: int, k: int)
    requires
        0 <= i,
        0 <= k,
        i + k < u.len(),
    ensures
        u.skip(i)[k] == u[i + k],
{
    assert(u.skip(i) == u.subrange(i, u.len() as int));
    assert(u.subrange(i, u.len() as int)[k] == u[i + k]);
}

/// Escaping distributes over concatenation.
proof fn lemma_escape_append(a: Seq<char>, b: Seq<char>)
    ensures
        spec_escape(a + b) == spec_escape(a) + spec_escape(b),
    decreases b.len(),
{
    if b.len() == 0 {
        assert(a + b =~= a);
        assert(spec_escape(b) =~= Seq::<char>::empty());
        assert(spec_escape(a) + spec_escape(b) =~= spec_escape(a));
    } else {
        lemma_escape_append(a, b.drop_last());
        assert((a + b).drop_last() =~= a + b.drop_last());
        assert((a + b).last() == b.last());
        let piece = if b.last() == '"' || b.last() == '\\' {
            seq!['\\', b.last()]
        } else {
            seq![b.last()]
        };
        assert(spec_escape(b) == spec_escape(b.drop_last()) + piece);
        assert((spec_escape(a) + spec_escape(b.drop_last())) + piece =~= spec_escape(a) + (
        spec_escape(b.drop_last()) + piece));
    }
}

/// The escaping of one character.
proof fn lemma_escape_single(c: char)
    ensures
        c == '"' || c == '\\' ==> spec_escape(seq![c]) == seq!['\\', c],
        !(c == '"' || c == '\\') ==> spec_escape(seq![c]) == seq![c],
{
    let single = seq![c];
    assert(single.len() == 1);
    assert(single.drop_last() =~= Seq::<char>::empty());
    assert(single.last() == c);
    assert(spec_escape(Seq::<char>::empty()) =~= Seq::<char>::empty());
    if c == '"' || c == '\\' {
        assert(spec_escape(single) == spec_escape(single.drop_last()) + seq!['\\', c]);
        assert(Seq::<char>::empty() + seq!['\\', c] =~= seq!['\\', c]);
    } else {
        assert(spec_escape(single) == spec_escape(single.drop_last()) + seq![c]);
        assert(Seq::<char>::empty() + seq![c] =~= seq![c]);
    }
}

/// Law (escape round trip): decoding an escaped string gives back exactly the
/// original content.
pub proof fn lemma_unescape_escape(s: Seq<char>)
    ensures
        spec_unescape(spec_escape(s)) == Ok::<Seq<char>, ParseError>(s),
    decreases s.len(),
{
    if s.len() == 0 {
        assert(spec_escape(s) =~= Seq::<char>::empty());
        assert(s =~= Seq::<char>::empty());
    } else {
        let c = s[0];
        let s2 = s.drop_first();
        lemma_unescape_escape(s2);
        assert(s =~= seq![c] + s2);
        lemma_escape_append(seq![c], s2);
        lemma_escape_single(c);
        let e = spec_escape(s);
        if c == '"' || c == '\\' {
            assert(e == seq!['\\', c] + spec_escape(s2));
            assert(e[0] == '\\');
            assert(e[1] == c);
            assert(e.len() >= 2);
            assert(e.skip(2) =~= spec_escape(s2));
            assert(seq![c] + s2 =~= s);
        } else {
            assert(e == seq![c] + spec_escape(s2));
            assert(e[0] == c);
            assert(e.drop_first() =~= spec_escape(s2));
            assert(seq![c] + s2 =~= s);
        }
    }
}

/// Scanning a string literal whose content is escaped stops exactly at the
/// closing quote: the escaped content plus the quote are consumed, whatever
/// follows.
proof fn lemma_scan_escaped(u: Seq<char>, i: int, s: Seq<char>, rest: Seq<char>)
    requires
        0 <= i <= u.len(),
        u.skip(i) == spec_escape(s) + seq!['"'] + rest,
    ensures
        spec_string_end(u, i) == i + spec_escape(s).len() + 1,
    decreases s.len(),
{
    if s.len() == 0 {
        assert(spec_escape(s) =~= Seq::<char>::empty());
        assert(u.skip(i).len() >= 1);
        assert(u.skip(i).len() == u.len() - i);
        assert(u.skip(i)[0] == '"');
        lemma_skip_index(u, i, 0);
        assert(u[i] == '"');
    } else {
        let c = s[0];
        let s2 = s.drop_first();
        assert(s =~= seq![c] + s2);
        lemma_escape_append(seq![c], s2);
        lemma_escape_single(c);
        let e = spec_escape(s);
        if c == '"' || c == '\\' {
            assert(e == seq!['\\', c] + spec_escape(s2));
            assert(u.skip(i)[0] == '\\');
            assert(u.skip(i)[1] == c);
            assert(u.skip(i).len() == u.len() - i);
            assert(u.skip(i).len() >= 3);
            lemma_skip_index(u, i, 0);
            lemma_skip_index(u, i, 1);
            assert(u[i] == '\\');
            assert(u[i + 1] == c);
            assert(u.skip(i).len() >= 3);
            assert(u.skip(i + 2) =~= u.skip(i).skip(2));
            assert(u.skip(i).skip(2) =~= spec_escape(s2) + seq!['"'] + rest);
            lemma_scan_escaped(u, i + 2, s2, rest);
        } else {
            assert(e == seq![c] + spec_escape(s2));
            assert(u.skip(i)[0] == c);
            assert(u.skip(i).len() == u.len() - i);
            assert(u.skip(i).len() >= 2);
            lemma_skip_index(u, i, 0);
            assert(u[i] == c);
            assert(u.skip(i + 1) =~= u.skip(i).skip(1));
            assert(u.skip(i).skip(1) =~= spec_escape(s2) + seq!['"'] + rest);
            lemma_scan_escaped(u, i + 1, s2, rest);
        }
    }
}

/// The atoms whose rendering reads back as the same atom: every integer and
/// string; a keyword whose text is symbol characters; a symbol that is
/// non-empty symbol-character text, does not open with a structural character
/// or the keyword mark, and does not read as an integer; and lists and
/// vectors of such atoms. Maps are excluded (their rendering re-sorts), and a
/// builtin's opaque marker is not literal-constructible at all.
pub open spec fn printable(a: SAtom) -> bool
    decreases a, 1int,
{
    match a {
        SAtom::Integer(_) => true,
        SAtom::String(_) => true,
        SAtom::Keyword(s) => forall|j: int| 0 <= j < s.len() ==> is_symbol_char(#[trigger] s[j]),
        SAtom::Symbol(s) => s.len() > 0 && (forall|j: int|
            0 <= j < s.len() ==> is_symbol_char(#[trigger] s[j])) && !is_special(s[0]) && s[0]
            != ':' && spec_parse_int(s) is None,
        SAtom::List(es) => printable_seq(es),
        SAtom::Vector(es) => printable_seq(es),
        _ => false,
    }
}

/// Printability of every atom in a sequence.
pub open spec fn printable_seq(es: Seq<SAtom>) -> bool
    decreases es, 0int,
{
    if es.len() == 0 {
        true
    } else {
        printable(es[0]) && printable_seq(es.drop_first())
    }
}

/// The lexemes the rendering of a printable atom splits into: one token for
/// an integer, string, keyword or symbol; for a list or vector, the opening
/// bracket, the elements' tokens, and the closing bracket.
pub open spec fn atom_tokens(a: SAtom) -> Seq<Seq<char>>
    decreases a, 1int,
{
    match a {
        SAtom::List(es) => seq![seq!['(']] + elems_tokens(es) + seq![seq![')']],
        SAtom::Vector(es) => seq![seq!['[']] + elems_tokens(es) + seq![seq![']']],
        _ => seq![spec_display(a)],
    }
}

/// The concatenated tokens of a sequence of atoms.
pub open spec fn elems_tokens(es: Seq<SAtom>) -> Seq<Seq<char>>
    decreases es, 0int,
{
    if es.len() == 0 {
        Seq::empty()
    } else {
        atom_tokens(es[0]) + elems_tokens(es.drop_first())
    }
}

/// Space-joined renderings decompose from the left as well.
proof fn lemma_display_elems_left(es: Seq<SAtom>)
    requires
        es.len() >= 2,
    ensures
        spec_display_elems(es) == spec_display(es[0]) + seq![' '] + spec_display_elems(
            es.drop_first(),
        ),
    decreases es.len(),
{
    if es.len() == 2 {
        assert(es.drop_last() =~= seq![es[0]]);
        assert(es.drop_first() =~= seq![es[1]]);
        assert(es.last() == es[1]);
        assert(spec_display_elems(es.drop_last()) == spec_display(es[0])) by {
            assert(es.drop_last().len() == 1);
            assert(es.drop_last()[0] == es[0]);
        }
        assert(spec_display_elems(es.drop_first()) == spec_display(es[1])) by {
            assert(es.drop_first().len() == 1);
            assert(es.drop_first()[0] == es[1]);
        }
    } else {
        lemma_display_elems_left(es.drop_last());
        assert(es.drop_last()[0] == es[0]);
        assert(es.drop_last().drop_first() =~= es.drop_first().drop_last());
        assert(es.drop_first().last() == es.last());
        assert(es.drop_first().len() >= 2);
        assert(spec_display_elems(es.drop_last()) == spec_display(es[0]) + seq![' ']
            + spec_display_elems(es.drop_first().drop_last()));
        assert(spec_display_elems(es.drop_first()) == spec_display_elems(
            es.drop_first().drop_last(),
        ) + seq![' '] + spec_display(es.drop_first().last()));
        assert((spec_display(es[0]) + seq![' '] + spec_display_elems(es.drop_first().drop_last()))
            + seq![' '] + spec_display(es.last()) =~= spec_display(es[0]) + seq![' '] + (
        spec_display_elems(es.drop_first().drop_last()) + seq![' '] + spec_display(
            es.drop_first().last(),
        )));
    }
}

/// A maximal symbol run within a larger text stops exactly where the run's
/// characters end.
proof fn lemma_symbol_end_run(u: Seq<char>, i: int, d: Seq<char>, rest: Seq<char>)
    requires
        0 <= i <= u.len(),
        u.skip(i) == d + rest,
        forall|j: int| 0 <= j < d.len() ==> is_symbol_char(#[trigger] d[j]),
        rest.len() == 0 || !is_symbol_char(rest[0]),
    ensures
        spec_symbol_end(u, i) == i + d.len(),
    decreases d.len(),
{
    assert(u.skip(i).len() == u.len() - i);
    if d.len() == 0 {
        if rest.len() == 0 {
            assert(i == u.len());
        } else {
            assert(u.skip(i)[0] == rest[0]);
            lemma_skip_index(u, i, 0);
        }
    } else {
        assert(u.skip(i)[0] == d[0]);
        lemma_skip_index(u, i, 0);
        assert(is_symbol_char(u[i]));
        assert(u.skip(i + 1) =~= u.skip(i).skip(1));
        assert(u.skip(i).skip(1) =~= d.drop_first() + rest);
        assert(forall|j: int|
            0 <= j < d.drop_first().len() ==> is_symbol_char(#[trigger] d.drop_first()[j]));
        lemma_symbol_end_run(u, i + 1, d.drop_first(), rest);
    }
}

/// A symbol-like run within a larger text is one token, and tokenizing
/// resumes just past it.
proof fn lemma_symbol_run_tokens(u: Seq<char>, i: int, d: Seq<char>, rest: Seq<char>)
    requires
        0 <= i <= u.len(),
        u.skip(i) == d + rest,
        d.len() >= 1,
        forall|j: int| 0 <= j < d.len() ==> is_symbol_char(#[trigger] d[j]),
        !is_special(d[0]),
        rest.len() == 0 || !is_symbol_char(rest[0]),
    ensures
        spec_tokens(u, i) == seq![d] + spec_tokens(u, i + d.len()),
{
    assert(u.skip(i).len() == u.len() - i);
    assert(u.skip(i)[0] == d[0]);
    lemma_skip_index(u, i, 0);
    assert(u[i] == d[0]);
    assert(is_symbol_char(u[i]));
    assert(!is_separator(u[i]) && u[i] != ';' && u[i] != '"' && u[i] != '~');
    lemma_symbol_end_run(u, i, d, rest);
    assert(next_pos(u, i, spec_symbol_end(u, i)) == i + d.len());
    assert forall|j: int| 0 <= j < d.len() implies u[i + j] == d[j] by {
        lemma_skip_index(u, i, j);
    }
    assert(u.subrange(i, i + d.len()) =~= d);
}

/// A string literal within a larger text is one token, and tokenizing resumes
/// just past its closing quote.
proof fn lemma_string_token(u: Seq<char>, i: int, s: Seq<char>, rest: Seq<char>)
    requires
        0 <= i <= u.len(),
        u.skip(i) == (seq!['"'] + spec_escape(s) + seq!['"']) + rest,
    ensures
        spec_tokens(u, i) == seq![seq!['"'] + spec_escape(s) + seq!['"']] + spec_tokens(
            u,
            i + spec_escape(s).len() + 2,
        ),
{
    let d = seq!['"'] + spec_escape(s) + seq!['"'];
    assert(u.skip(i).len() == u.len() - i);
    assert(u.skip(i)[0] == d[0]);
    lemma_skip_index(u, i, 0);
    assert(u[i] == '"');
    assert(!is_separator('"') && '"' != ';' && '"' != '~' && !is_special('"'));
    assert(u.skip(i + 1) =~= u.skip(i).skip(1));
    assert(u.skip(i).skip(1) =~= spec_escape(s) + seq!['"'] + rest);
    lemma_scan_escaped(u, i + 1, s, rest);
    assert(spec_string_end(u, i + 1) == i + 1 + spec_escape(s).len() + 1);
    assert(next_pos(u, i, spec_string_end(u, i + 1)) == i + d.len());
    assert forall|j: int| 0 <= j < d.len() implies u[i + j] == d[j] by {
        lemma_skip_index(u, i, j);
    }
    assert(u.subrange(i, i + d.len()) =~= d);
}

/// A single structural character within a larger text is one token.
proof fn lemma_special_token(u: Seq<char>, i: int, c: char)
    requires
        0 <= i < u.len(),
        u[i] == c,
        is_special(c),
        c != '~',
    ensures
        spec_tokens(u, i) == seq![seq![c]] + spec_tokens(u, i + 1),
{
    assert(!is_separator(c) && c != ';' && c != '"');
    assert(u.subrange(i, i + 1) =~= seq![c]);
}

/// The rendering of a printable atom, inside a larger text and followed by
/// anything that cannot extend a symbol run, splits into exactly the atom's
/// tokens, and tokenizing resumes just past the rendering.
proof fn lemma_display_tokens(u: Seq<char>, i: int, a: SAtom, rest: Seq<char>)
    requires
        printable(a),
        0 <= i <= u.len(),
        u.skip(i) == spec_display(a) + rest,
        rest.len() == 0 || !is_symbol_char(rest[0]),
    ensures
        spec_tokens(u, i) == atom_tokens(a) + spec_tokens(u, i + spec_display(a).len()),
    decreases a, 1int,
{
    assert(u.skip(i).len() == u.len() - i);
    match a {
        SAtom::Integer(n) => {
            let d = spec_int_chars(n as int);
            if n >= 0 {
                lemma_nat_chars_value(n as int);
            } else {
                lemma_nat_chars_value(-(n as int));
            }
            assert forall|j: int| 0 <= j < d.len() implies is_symbol_char(#[trigger] d[j]) by {
                if n < 0 && j == 0 {
                    assert(is_symbol_char('-'));
                } else {
                    if n < 0 {
                        assert(d[j] == spec_nat_chars(-(n as int))[j - 1]);
                        assert(is_digit(d[j]));
                    } else {
                        assert(is_digit(d[j]));
                    }
                    lemma_digit_is_symbol_char(d[j]);
                }
            }
            assert(!is_special(d[0])) by {
                if n < 0 {
                    assert(d[0] == '-');
                } else {
                    assert(is_digit(d[0]));
                    lemma_digit_is_symbol_char(d[0]);
                }
            }
            lemma_symbol_run_tokens(u, i, d, rest);
        },
        SAtom::Keyword(s) => {
            let d = seq![':'] + s;
            assert(d[0] == ':');
            assert forall|j: int| 0 <= j < d.len() implies is_symbol_char(#[trigger] d[j]) by {
                if j > 0 {
                    assert(d[j] == s[j - 1]);
                }
            }
            assert(!is_special(':'));
            lemma_symbol_run_tokens(u, i, d, rest);
        },
        SAtom::Symbol(s) => {
            lemma_symbol_run_tokens(u, i, s, rest);
        },
        SAtom::String(s) => {
            lemma_string_token(u, i, s, rest);
        },
        SAtom::List(es) => {
            assert(u.skip(i)[0] == '(');
            lemma_skip_index(u, i, 0);
            lemma_special_token(u, i, '(');
            assert(u.skip(i + 1) =~= u.skip(i).skip(1));
            assert(u.skip(i).skip(1) =~= spec_display_elems(es) + seq![')'] + rest);
            lemma_display_tokens_elems(u, i + 1, es, ')', rest);
            let fin = i + 1 + spec_display_elems(es).len() + 1;
            assert(i + spec_display(a).len() == fin);
            assert(seq![seq!['(']] + (elems_tokens(es) + seq![seq![')']] + spec_tokens(u, fin))
                =~= (seq![seq!['(']] + elems_tokens(es) + seq![seq![')']]) + spec_tokens(u, fin));
        },
        SAtom::Vector(es) => {
            assert(u.skip(i)[0] == '[');
            lemma_skip_index(u, i, 0);
            lemma_special_token(u, i, '[');
            assert(u.skip(i + 1) =~= u.skip(i).skip(1));
            assert(u.skip(i).skip(1) =~= spec_display_elems(es) + seq![']'] + rest);
            lemma_display_tokens_elems(u, i + 1, es, ']', rest);
            let fin = i + 1 + spec_display_elems(es).len() + 1;
            assert(i + spec_display(a).len() == fin);
            assert(seq![seq!['[']] + (elems_tokens(es) + seq![seq![']']] + spec_tokens(u, fin))
                =~= (seq![seq!['[']] + elems_tokens(es) + seq![seq![']']]) + spec_tokens(u, fin));
        },
        _ => (),
    }
}

/// The space-joined renderings of printable atoms followed by a closing
/// bracket split into the atoms' tokens and the bracket's token.
proof fn lemma_display_tokens_elems(
    u: Seq<char>,
    i: int,
    es: Seq<SAtom>,
    close: char,
    rest: Seq<char>,
)
    requires
        printable_seq(es),
        0 <= i <= u.len(),
        u.skip(i) == spec_display_elems(es) + seq![close] + rest,
        is_special(close),
        close != '~',
        !is_symbol_char(close),
    ensures
        spec_tokens(u, i) == elems_tokens(es) + seq![seq![close]] + spec_tokens(
            u,
            i + spec_display_elems(es).len() + 1,
        ),
    decreases es, 0int,
{
    assert(u.skip(i).len() == u.len() - i);
    if es.len() == 0 {
        assert(spec_display_elems(es).len() == 0);
        assert(u.skip(i)[0] == close);
        lemma_skip_index(u, i, 0);
        lemma_special_token(u, i, close);
        assert(elems_tokens(es) + seq![seq![close]] + spec_tokens(u, i + 1) =~= seq![seq![close]]
            + spec_tokens(u, i + 1));
    } else if es.len() == 1 {
        assert(printable(es[0]));
        assert(spec_display_elems(es) == spec_display(es[0]));
        let d0 = spec_display(es[0]);
        let rest2 = seq![close] + rest;
        assert(u.skip(i) =~= d0 + rest2);
        assert(rest2[0] == close);
        lemma_display_tokens(u, i, es[0], rest2);
        let mid = i + d0.len();
        assert(u.skip(mid) =~= u.skip(i).skip(d0.len() as int));
        assert(u.skip(i).skip(d0.len() as int) =~= rest2);
        assert(u.skip(mid)[0] == close);
        lemma_skip_index(u, mid, 0);
        lemma_special_token(u, mid, close);
        assert(es.drop_first() =~= Seq::<SAtom>::empty());
        assert(elems_tokens(Seq::<SAtom>::empty()) == Seq::<Seq<char>>::empty());
        assert(elems_tokens(es) == atom_tokens(es[0]) + elems_tokens(es.drop_first()));
        assert(atom_tokens(es[0]) + Seq::<Seq<char>>::empty() =~= atom_tokens(es[0]));
        assert(atom_tokens(es[0]) + (seq![seq![close]] + spec_tokens(u, mid + 1)) =~= elems_tokens(
            es,
        ) + seq![seq![close]] + spec_tokens(u, mid + 1));
    } else {
        assert(printable(es[0]));
        assert(printable_seq(es.drop_first()));
        lemma_display_elems_left(es);
        let d0 = spec_display(es[0]);
        let tail = seq![' '] + spec_display_elems(es.drop_first()) + seq![close] + rest;
        assert(u.skip(i) =~= d0 + tail);
        assert(tail[0] == ' ');
        assert(!is_symbol_char(' '));
        lemma_display_tokens(u, i, es[0], tail);
        let mid = i + d0.len();
        assert(u.skip(mid) =~= u.skip(i).skip(d0.len() as int));
        assert(u.skip(i).skip(d0.len() as int) =~= tail);
        assert(u.skip(mid)[0] == ' ');
        lemma_skip_index(u, mid, 0);
        assert(u[mid] == ' ');
        assert(is_separator(' '));
        assert(mid < u.len());
        assert(spec_tokens(u, mid) == spec_tokens(u, mid + 1));
        assert(u.skip(mid + 1) =~= u.skip(mid).skip(1));
        assert(u.skip(mid).skip(1) =~= spec_display_elems(es.drop_first()) + seq![close] + rest);
        lemma_display_tokens_elems(u, mid + 1, es.drop_first(), close, rest);
        let fin = mid + 1 + spec_display_elems(es.drop_first()).len() + 1;
        assert(i + spec_display_elems(es).len() + 1 == fin);
        assert(atom_tokens(es[0]) + (elems_tokens(es.drop_first()) + seq![seq![close]]
            + spec_tokens(u, fin)) =~= (atom_tokens(es[0]) + elems_tokens(es.drop_first())) + seq![
            seq![close],
        ] + spec_tokens(u, fin));
    }
}

/// The first token of a printable atom is never a closing bracket.
proof fn lemma_atom_tokens_first(a: SAtom, end: char)
    requires
        printable(a),
        end == ')' || end == ']',
    ensures
        atom_tokens(a).len() >= 1,
        atom_tokens(a)[0] != seq![end],
{
    assert(seq![end].len() == 1 && seq![end][0] == end);
    match a {
        SAtom::Integer(n) => {
            let d = spec_int_chars(n as int);
            if n >= 0 {
                lemma_nat_chars_value(n as int);
            } else {
                lemma_nat_chars_value(-(n as int));
            }
            assert(d[0] != end) by {
                if n < 0 {
                    assert(d[0] == '-');
                } else {
                    assert(is_digit(d[0]));
                }
            }
        },
        SAtom::Keyword(s) => {
            assert(atom_tokens(a)[0][0] == ':');
        },
        SAtom::Symbol(s) => {
            assert(is_symbol_char(s[0]));
            assert(s[0] != end);
        },
        SAtom::String(s) => {
            assert(atom_tokens(a)[0][0] == '"');
        },
        SAtom::List(es) => {
            assert(atom_tokens(a)[0] == seq!['(']);
        },
        SAtom::Vector(es) => {
            assert(atom_tokens(a)[0] == seq!['[']);
        },
        _ => (),
    }
}

/// Reading from a token stream that opens with the tokens of a printable atom
/// yields exactly that atom and consumes exactly those tokens.
proof fn lemma_parse_tokens(toks: Seq<Seq<char>>, k: int, a: SAtom, more: Seq<Seq<char>>)
    requires
        printable(a),
        0 <= k <= toks.len(),
        toks.skip(k) == atom_tokens(a) + more,
    ensures
        spec_read_form(toks, k) == (Ok::<SAtom, ParseError>(a), k + atom_tokens(a).len()),
    decreases a, 1int,
{
    assert(toks.skip(k).len() == toks.len() - k);
    match a {
        SAtom::Integer(n) => {
            let d = spec_int_chars(n as int);
            assert(toks.skip(k)[0] == d);
            lemma_skip_index(toks, k, 0);
            assert(toks[k] == d);
            if n >= 0 {
                lemma_nat_chars_value(n as int);
            } else {
                lemma_nat_chars_value(-(n as int));
            }
            assert(d.len() > 0);
            assert(d[0] != '(' && d[0] != '[' && d[0] != '{' && d[0] != '"') by {
                if n < 0 {
                    assert(d[0] == '-');
                } else {
                    assert(is_digit(d[0]));
                    lemma_digit_is_symbol_char(d[0]);
                }
            }
            assert(d != seq!['\''] && d != seq!['`'] && d != seq!['~'] && d != seq!['~', '@'] && d
                != seq!['@']) by {
                assert(seq!['\''][0] == '\'' && seq!['`'][0] == '`' && seq!['~'][0] == '~' && seq![
                    '~',
                    '@',
                ][0] == '~' && seq!['@'][0] == '@');
                if n < 0 {
                    assert(d[0] == '-');
                } else {
                    assert(is_digit(d[0]));
                    lemma_digit_is_symbol_char(d[0]);
                }
            }
            lemma_parse_int_chars(n);
        },
        SAtom::Keyword(s) => {
            let d = seq![':'] + s;
            assert(toks.skip(k)[0] == d);
            lemma_skip_index(toks, k, 0);
            assert(toks[k] == d);
            assert(d[0] == ':');
            assert(d != seq!['\''] && d != seq!['`'] && d != seq!['~'] && d != seq!['~', '@'] && d
                != seq!['@']) by {
                assert(seq!['\''][0] == '\'' && seq!['`'][0] == '`' && seq!['~'][0] == '~' && seq![
                    '~',
                    '@',
                ][0] == '~' && seq!['@'][0] == '@');
            }
            assert(!is_digit(d[0]));
            assert(spec_parse_int(d) is None) by {
                assert(!all_digits(d));
            }
            assert(d.drop_first() =~= s);
        },
        SAtom::Symbol(s) => {
            assert(toks.skip(k)[0] == s);
            lemma_skip_index(toks, k, 0);
            assert(toks[k] == s);
            assert(is_symbol_char(s[0]));
            assert(s[0] != '(' && s[0] != '[' && s[0] != '{' && s[0] != '"');
            assert(s != seq!['\''] && s != seq!['`'] && s != seq!['~'] && s != seq!['~', '@'] && s
                != seq!['@']) by {
                assert(seq!['\''][0] == '\'' && seq!['`'][0] == '`' && seq!['~'][0] == '~' && seq![
                    '~',
                    '@',
                ][0] == '~' && seq!['@'][0] == '@');
                assert(is_special('\'') && is_special('`') && is_special('~') && is_special('@'));
            }
        },
        SAtom::String(str_content) => {
            let esc = spec_escape(str_content);
            let d = seq!['"'] + esc + seq!['"'];
            assert(toks.skip(k)[0] == d);
            lemma_skip_index(toks, k, 0);
            assert(toks[k] == d);
            assert(d.len() == esc.len() + 2);
            assert(d[0] == '"');
            assert(d.last() == '"');
            assert(d.subrange(1, d.len() - 1) =~= esc);
            lemma_unescape_escape(str_content);
        },
        SAtom::List(es) => {
            assert(toks.skip(k)[0] == seq!['(']);
            lemma_skip_index(toks, k, 0);
            assert(toks[k] == seq!['(']);
            assert(toks[k].len() == 1 && toks[k][0] == '(');
            assert(toks.skip(k + 1) =~= toks.skip(k).skip(1));
            assert(toks.skip(k).skip(1) =~= elems_tokens(es) + seq![seq![')']] + more);
            lemma_parse_list(toks, k + 1, es, ')', more);
            assert(atom_tokens(a).len() == 1 + elems_tokens(es).len() + 1);
        },
        SAtom::Vector(es) => {
            assert(toks.skip(k)[0] == seq!['[']);
            lemma_skip_index(toks, k, 0);
            assert(toks[k] == seq!['[']);
            assert(toks[k].len() == 1 && toks[k][0] == '[');
            assert(toks.skip(k + 1) =~= toks.skip(k).skip(1));
            assert(toks.skip(k).skip(1) =~= elems_tokens(es) + seq![seq![']']] + more);
            lemma_parse_list(toks, k + 1, es, ']', more);
            assert(atom_tokens(a).len() == 1 + elems_tokens(es).len() + 1);
        },
        _ => (),
    }
}

/// Reading a list body from a token stream that holds the elements' tokens
/// and then the end marker yields exactly those elements and consumes the
/// marker too.
proof fn lemma_parse_list(
    toks: Seq<Seq<char>>,
    k: int,
    es: Seq<SAtom>,
    end: char,
    more: Seq<Seq<char>>,
)
    requires
        printable_seq(es),
        0 <= k <= toks.len(),
        toks.skip(k) == elems_tokens(es) + seq![seq![end]] + more,
        end == ')' || end == ']',
    ensures
        spec_read_list(toks, k, end) == (
            Ok::<Seq<SAtom>, ParseError>(es),
            k + elems_tokens(es).len() + 1,
        ),
    decreases es, 0int,
{
    assert(toks.skip(k).len() == toks.len() - k);
    if es.len() == 0 {
        assert(elems_tokens(es) == Seq::<Seq<char>>::empty());
        assert(toks.skip(k)[0] == seq![end]);
        lemma_skip_index(toks, k, 0);
        assert(toks[k] == seq![end]);
        assert(es =~= Seq::<SAtom>::empty());
    } else {
        assert(printable(es[0]));
        assert(printable_seq(es.drop_first()));
        assert(elems_tokens(es) == atom_tokens(es[0]) + elems_tokens(es.drop_first()));
        lemma_atom_tokens_first(es[0], end);
        assert(toks.skip(k)[0] == atom_tokens(es[0])[0]);
        lemma_skip_index(toks, k, 0);
        assert(toks[k] == atom_tokens(es[0])[0]);
        assert(toks[k] != seq![end]);
        let more2 = elems_tokens(es.drop_first()) + seq![seq![end]] + more;
        assert(toks.skip(k) =~= atom_tokens(es[0]) + more2);
        lemma_parse_tokens(toks, k, es[0], more2);
        let q0 = k + atom_tokens(es[0]).len();
        assert(q0 <= toks.len());
        assert(clamp_idx(toks.len() as int, k, q0) == q0);
        assert(toks.skip(q0) =~= toks.skip(k).skip(atom_tokens(es[0]).len() as int));
        assert(toks.skip(k).skip(atom_tokens(es[0]).len() as int) =~= more2);
        lemma_parse_list(toks, q0, es.drop_first(), end, more);
        assert(seq![es[0]] + es.drop_first() =~= es);
        assert(k + elems_tokens(es).len() + 1 == q0 + elems_tokens(es.drop_first()).len() + 1);
    }
}

/// Law (print/read stability): rendering a printable atom — any tree of
/// integers, strings, keywords and symbols under lists and vectors — and
/// reading the text back yields the same atom.
pub proof fn lemma_display_read_roundtrip(a: SAtom)
    requires
        printable(a),
    ensures
        spec_read(spec_display(a)) == Ok::<SAtom, ParseError>(a),
{
    let u = spec_display(a);
    assert(u.skip(0) =~= spec_display(a) + Seq::<char>::empty());
    lemma_display_tokens(u, 0, a, Seq::empty());
    assert(spec_tokens(u, 0 + spec_display(a).len() as int) =~= Seq::<Seq<char>>::empty());
    let toks = spec_tokens(u, 0);
    assert(toks =~= atom_tokens(a) + Seq::<Seq<char>>::empty());
    assert(toks.skip(0) =~= atom_tokens(a) + Seq::<Seq<char>>::empty());
    lemma_parse_tokens(toks, 0, a, Seq::empty());
}

/// Reads one form from source text, per `spec_read`. The text must leave the
/// token cursor room to advance past its last token.
pub fn read_str(s: String) -> (r: Result<Atom, ParseError>)
    requires
        s@.len() < usize::MAX,
    ensures
        match (r, spec_read(s@)) {
            (Ok(a), Ok(sa)) => a@ == sa,
            (Err(e), Err(se)) => e == se,
            _ => false,
        },
{
    let tokens = tokenize(s.as_str());
    let mut reader = Reader { tokens, position: 0 };
    read_form(&mut reader)
}

/// Reads one form from source text, per `spec_read`. The text must leave the
/// token cursor room to advance past its last token.
pub fn read(s: String) -> (r: Result<Atom, ParseError>)
    requires
        s@.len() < usize::MAX,
    ensures
        match (r, spec_read(s@)) {
            (Ok(a), Ok(sa)) => a@ == sa,
            (Err(e), Err(se)) => e == se,
            _ => false,
        },
{
    read_str(s)
}

} // verus!
