//! The surface syntax, as a recursive-descent grammar over characters, and
//! its verified parser. Input is expected with all whitespace already
//! removed.

use vstd::prelude::*;
use vstd::string::StrSliceExecFns;

use crate::expr::{Constant, Query, Rule, SpecConstant, SpecQuery, SpecRule, SpecTerm, Term};

verus! {

/// An ASCII decimal digit.
pub open spec fn is_digit_char(c: char) -> bool {
    48 <= c as u32 <= 57
}

/// An ASCII lower-case letter.
pub open spec fn is_lower_char(c: char) -> bool {
    97 <= c as u32 <= 122
}

/// An ASCII upper-case letter.
pub open spec fn is_upper_char(c: char) -> bool {
    65 <= c as u32 <= 90
}

/// An ASCII letter.
pub open spec fn is_alpha_char(c: char) -> bool {
    is_lower_char(c) || is_upper_char(c)
}

/// An ASCII letter or digit.
pub open spec fn is_alnum_char(c: char) -> bool {
    is_alpha_char(c) || is_digit_char(c)
}

/// The numeric value of a digit character.
pub open spec fn digit_value(c: char) -> int {
    c as u32 - 48
}

/// The value of a digit string, most significant digit first.
pub open spec fn digits_value(s: Seq<char>) -> int
    decreases s,
{
    if s.len() == 0 {
        0
    } else {
        digits_value(s.drop_last()) * 10 + digit_value(s.last())
    }
}

/// The end of the maximal digit run starting at `i`.
pub open spec fn scan_digits(s: Seq<char>, i: int) -> int
    decreases s.len() - i,
{
    if 0 <= i < s.len() && is_digit_char(s[i]) {
        scan_digits(s, i + 1)
    } else {
        i
    }
}

/// The end of the maximal letter run starting at `i`.
pub open spec fn scan_alpha(s: Seq<char>, i: int) -> int
    decreases s.len() - i,
{
    if 0 <= i < s.len() && is_alpha_char(s[i]) {
        scan_alpha(s, i + 1)
    } else {
        i
    }
}

/// The end of the maximal letter-or-digit run starting at `i`.
pub open spec fn scan_alnum(s: Seq<char>, i: int) -> int
    decreases s.len() - i,
{
    if 0 <= i < s.len() && is_alnum_char(s[i]) {
        scan_alnum(s, i + 1)
    } else {
        i
    }
}

/// The first position at or after `i` holding a double quote, or the end.
pub open spec fn scan_to_quote(s: Seq<char>, i: int) -> int
    decreases s.len() - i,
{
    if 0 <= i < s.len() && s[i] != '"' {
        scan_to_quote(s, i + 1)
    } else {
        i
    }
}

/// The first position at or after `i` holding a single quote or a closing
/// bracket, or the end.
pub open spec fn scan_file_name(s: Seq<char>, i: int) -> int
    decreases s.len() - i,
{
    if 0 <= i < s.len() && s[i] != '\'' && s[i] != ']' {
        scan_file_name(s, i + 1)
    } else {
        i
    }
}

/// A constant: an integer that fits in 32 signed bits, a quoted nonempty
/// string, or an atom (a lower-case letter followed by letters and
/// digits). Tried in that order.
pub open spec fn spec_parse_const(s: Seq<char>, i: int) -> Option<(SpecConstant, int)> {
    if 0 <= i < s.len() && is_digit_char(s[i]) {
        let j = scan_digits(s, i);
        let v = digits_value(s.subrange(i, j));
        if v <= i32::MAX {
            Option::Some((SpecConstant::Int(v), j))
        } else {
            Option::None
        }
    } else if 0 <= i < s.len() && s[i] == '"' {
        let j = scan_to_quote(s, i + 1);
        if j < s.len() && j > i + 1 {
            Option::Some((SpecConstant::Str(s.subrange(i + 1, j)), j + 1))
        } else {
            Option::None
        }
    } else if 0 <= i < s.len() && is_lower_char(s[i]) {
        let j = scan_alnum(s, i);
        Option::Some((SpecConstant::Name(s.subrange(i, j)), j))
    } else {
        Option::None
    }
}

/// A variable: an upper-case letter followed by letters.
pub open spec fn spec_parse_var(s: Seq<char>, i: int) -> Option<(SpecTerm, int)> {
    if 0 <= i < s.len() && is_upper_char(s[i]) {
        let j = scan_alpha(s, i);
        Option::Some((SpecTerm::Var(s.subrange(i, j)), j))
    } else {
        Option::None
    }
}

/// A functor: a lower-case letter followed by letters and digits.
pub open spec fn spec_parse_functor(s: Seq<char>, i: int) -> Option<(Seq<char>, int)> {
    if 0 <= i < s.len() && is_lower_char(s[i]) {
        let j = scan_alnum(s, i);
        Option::Some((s.subrange(i, j), j))
    } else {
        Option::None
    }
}

/// A term: a compound, a constant, or a variable, tried in that order.
pub open spec fn spec_parse_term(s: Seq<char>, i: int) -> Option<(SpecTerm, int)>
    decreases s.len() - i, 2int,
{
    match spec_parse_combined(s, i) {
        Option::Some(r) => Option::Some(r),
        Option::None => match spec_parse_const(s, i) {
            Option::Some((c, j)) => Option::Some((SpecTerm::Const(c), j)),
            Option::None => spec_parse_var(s, i),
        },
    }
}

/// A compound: a functor, then a parenthesized comma-separated argument
/// list, with no space anywhere.
pub open spec fn spec_parse_combined(s: Seq<char>, i: int) -> Option<(SpecTerm, int)>
    decreases s.len() - i, 1int,
{
    match spec_parse_functor(s, i) {
        Option::None => Option::None,
        Option::Some((f, j0)) => {
            let j = if j0 > i {
                j0
            } else {
                i + 1
            };
            if j < s.len() && s[j] == '(' {
                match spec_parse_terms(s, j + 1) {
                    Option::None => Option::None,
                    Option::Some((args, k)) => if k < s.len() && s[k] == ')' {
                        Option::Some((SpecTerm::Combined { functor: f, args }, k + 1))
                    } else {
                        Option::None
                    },
                }
            } else {
                Option::None
            }
        }
    }
}

/// One or more terms separated by commas.
pub open spec fn spec_parse_terms(s: Seq<char>, i: int) -> Option<(Seq<SpecTerm>, int)>
    decreases s.len() - i, 3int,
{
    match spec_parse_term(s, i) {
        Option::None => Option::None,
        Option::Some((t, j0)) => {
            let j = if j0 > i {
                j0
            } else {
                i + 1
            };
            if j < s.len() && s[j] == ',' {
                match spec_parse_terms(s, j + 1) {
                    Option::None => Option::None,
                    Option::Some((ts, k)) => Option::Some((seq![t] + ts, k)),
                }
            } else {
                Option::Some((seq![t], j0))
            }
        }
    }
}

/// A clause: a head term, an optional `:-` and body, and a closing dot.
pub open spec fn spec_parse_rule(s: Seq<char>, i: int) -> Option<(SpecRule, int)> {
    match spec_parse_term(s, i) {
        Option::None => Option::None,
        Option::Some((lhs, j)) => {
            if j + 1 < s.len() && 0 <= j && s[j] == ':' && s[j + 1] == '-' {
                match spec_parse_terms(s, j + 2) {
                    Option::None => Option::None,
                    Option::Some((rhs, k)) => if 0 <= k < s.len() && s[k] == '.' {
                        Option::Some((SpecRule { lhs, rhs }, k + 1))
                    } else {
                        Option::None
                    },
                }
            } else if 0 <= j < s.len() && s[j] == '.' {
                Option::Some((SpecRule { lhs, rhs: Seq::empty() }, j + 1))
            } else {
                Option::None
            }
        }
    }
}

/// Clauses, one after another, to the very end of the input.
pub open spec fn spec_parse_file(s: Seq<char>, i: int) -> Option<Seq<SpecRule>>
    decreases s.len() - i,
{
    if i == s.len() {
        Option::Some(Seq::empty())
    } else {
        match spec_parse_rule(s, i) {
            Option::None => Option::None,
            Option::Some((r, j0)) => {
                let j = if j0 > i {
                    j0
                } else {
                    i + 1
                };
                if j <= s.len() {
                    match spec_parse_file(s, j) {
                        Option::None => Option::None,
                        Option::Some(rs) => Option::Some(seq![r] + rs),
                    }
                } else {
                    Option::None
                }
            }
        }
    }
}

/// A file-load form: a nonempty path, holding neither a quote nor a
/// bracket, between `['` and `']`.
pub open spec fn spec_parse_file_ref(s: Seq<char>, i: int) -> Option<(Seq<char>, int)> {
    if i + 1 < s.len() && 0 <= i && s[i] == '[' && s[i + 1] == '\'' {
        let j = scan_file_name(s, i + 2);
        if j > i + 2 && j + 1 < s.len() && s[j] == '\'' && s[j + 1] == ']' {
            Option::Some((s.subrange(i + 2, j), j + 2))
        } else {
            Option::None
        }
    } else {
        Option::None
    }
}

/// A query line: a file-load form or a goal list, closed by a dot;
/// anything after the dot is ignored.
pub open spec fn spec_parse_query(s: Seq<char>) -> Option<SpecQuery> {
    match spec_parse_file_ref(s, 0) {
        Option::Some((f, j)) => if 0 <= j < s.len() && s[j] == '.' {
            Option::Some(SpecQuery::File(f))
        } else {
            Option::None
        },
        Option::None => match spec_parse_terms(s, 0) {
            Option::Some((ts, j)) => if 0 <= j < s.len() && s[j] == '.' {
                Option::Some(SpecQuery::Terms(ts))
            } else {
                Option::None
            },
            Option::None => Option::None,
        },
    }
}

/// Bounds of a digit scan.
pub proof fn lemma_scan_digits_bounds(s: Seq<char>, i: int)
    requires
        0 <= i <= s.len(),
    ensures
        i <= scan_digits(s, i) <= s.len(),
    decreases s.len() - i,
{
    if i < s.len() && is_digit_char(s[i]) {
        lemma_scan_digits_bounds(s, i + 1);
    }
}

/// Bounds of a letter scan.
pub proof fn lemma_scan_alpha_bounds(s: Seq<char>, i: int)
    requires
        0 <= i <= s.len(),
    ensures
        i <= scan_alpha(s, i) <= s.len(),
    decreases s.len() - i,
{
    if i < s.len() && is_alpha_char(s[i]) {
        lemma_scan_alpha_bounds(s, i + 1);
    }
}

/// Bounds of a letter-or-digit scan.
pub proof fn lemma_scan_alnum_bounds(s: Seq<char>, i: int)
    requires
        0 <= i <= s.len(),
    ensures
        i <= scan_alnum(s, i) <= s.len(),
    decreases s.len() - i,
{
    if i < s.len() && is_alnum_char(s[i]) {
        lemma_scan_alnum_bounds(s, i + 1);
    }
}

/// Whether a character is an ASCII decimal digit.
fn ch_is_digit(c: char) -> (r: bool)
    ensures
        r == is_digit_char(c),
{
    let u = c as u32;
    48 <= u && u <= 57
}

/// Whether a character is an ASCII lower-case letter.
fn ch_is_lower(c: char) -> (r: bool)
    ensures
        r == is_lower_char(c),
{
    let u = c as u32;
    97 <= u && u <= 122
}

/// Whether a character is an ASCII upper-case letter.
fn ch_is_upper(c: char) -> (r: bool)
    ensures
        r == is_upper_char(c),
{
    let u = c as u32;
    65 <= u && u <= 90
}

/// Whether a character is an ASCII letter.
fn ch_is_alpha(c: char) -> (r: bool)
    ensures
        r == is_alpha_char(c),
{
    ch_is_lower(c) || ch_is_upper(c)
}

/// Whether a character is an ASCII letter or digit.
fn ch_is_alnum(c: char) -> (r: bool)
    ensures
        r == is_alnum_char(c),
{
    ch_is_alpha(c) || ch_is_digit(c)
}

/// The end of the maximal digit run from `i`.
#[verifier::loop_isolation(false)]
fn scan_digits_at(s: &str, i: usize) -> (r: usize)
    requires
        i <= s@.len(),
    ensures
        r == scan_digits(s@, i as int),
        i <= r <= s@.len(),
{
    let len = s.unicode_len();
    let mut j = i;
    while j < len && ch_is_digit(s.get_char(j))
        invariant
            i <= j <= len,
            scan_digits(s@, i as int) == scan_digits(s@, j as int),
        decreases len - j,
    {
        j = j + 1;
    }
    j
}

/// The end of the maximal letter run from `i`.
#[verifier::loop_isolation(false)]
fn scan_alpha_at(s: &str, i: usize) -> (r: usize)
    requires
        i <= s@.len(),
    ensures
        r == scan_alpha(s@, i as int),
        i <= r <= s@.len(),
{
    let len = s.unicode_len();
    let mut j = i;
    while j < len && ch_is_alpha(s.get_char(j))
        invariant
            i <= j <= len,
            scan_alpha(s@, i as int) == scan_alpha(s@, j as int),
        decreases len - j,
    {
        j = j + 1;
    }
    j
}

/// The end of the maximal letter-or-digit run from `i`.
#[verifier::loop_isolation(false)]
fn scan_alnum_at(s: &str, i: usize) -> (r: usize)
    requires
        i <= s@.len(),
    ensures
        r == scan_alnum(s@, i as int),
        i <= r <= s@.len(),
{
    let len = s.unicode_len();
    let mut j = i;
    while j < len && ch_is_alnum(s.get_char(j))
        invariant
            i <= j <= len,
            scan_alnum(s@, i as int) == scan_alnum(s@, j as int),
        decreases len - j,
    {
        j = j + 1;
    }
    j
}

/// The first double quote at or after `i`, or the end.
#[verifier::loop_isolation(false)]
fn scan_to_quote_at(s: &str, i: usize) -> (r: usize)
    requires
        i <= s@.len(),
    ensures
        r == scan_to_quote(s@, i as int),
        i <= r <= s@.len(),
{
    let len = s.unicode_len();
    let mut j = i;
    while j < len && s.get_char(j) != '"'
        invariant
            i <= j <= len,
            scan_to_quote(s@, i as int) == scan_to_quote(s@, j as int),
        decreases len - j,
    {
        j = j + 1;
    }
    j
}

/// The first single quote or closing bracket at or after `i`, or the end.
#[verifier::loop_isolation(false)]
fn scan_file_name_at(s: &str, i: usize) -> (r: usize)
    requires
        i <= s@.len(),
    ensures
        r == scan_file_name(s@, i as int),
        i <= r <= s@.len(),
{
    let len = s.unicode_len();
    let mut j = i;
    while j < len && s.get_char(j) != '\'' && s.get_char(j) != ']'
        invariant
            i <= j <= len,
            scan_file_name(s@, i as int) == scan_file_name(s@, j as int),
        decreases len - j,
    {
        j = j + 1;
    }
    j
}

/// A digit string's value only grows as digits are appended.
proof fn lemma_digits_value_mono(s: Seq<char>, i: int, j1: int, j2: int)
    requires
        0 <= i <= j1 <= j2 <= s.len(),
        forall|k: int| i <= k < j2 ==> is_digit_char(#[trigger] s[k]),
    ensures
        0 <= digits_value(s.subrange(i, j1)) <= digits_value(s.subrange(i, j2)),
    decreases j2 - j1,
{
    if j1 == j2 {
        lemma_digits_value_nonneg(s, i, j1);
    } else {
        lemma_digits_value_mono(s, i, j1, j2 - 1);
        assert(s.subrange(i, j2).drop_last() =~= s.subrange(i, j2 - 1));
        assert(s.subrange(i, j2).last() == s[j2 - 1]);
    }
}

/// A digit string's value is not negative.
proof fn lemma_digits_value_nonneg(s: Seq<char>, i: int, j: int)
    requires
        0 <= i <= j <= s.len(),
        forall|k: int| i <= k < j ==> is_digit_char(#[trigger] s[k]),
    ensures
        digits_value(s.subrange(i, j)) >= 0,
    decreases j - i,
{
    if j > i {
        lemma_digits_value_nonneg(s, i, j - 1);
        assert(s.subrange(i, j).drop_last() =~= s.subrange(i, j - 1));
        assert(s.subrange(i, j).last() == s[j - 1]);
    }
}

/// Reads the value of the digit run `[i, j)`, unless it does not fit in 32
/// signed bits.
#[verifier::loop_isolation(false)]
fn digits_to_i32(s: &str, i: usize, j: usize) -> (r: Option<i32>)
    requires
        i <= j <= s@.len(),
        forall|k: int| i <= k < j ==> is_digit_char(#[trigger] s@[k]),
    ensures
        (match r {
            Option::Some(v) => v as int == digits_value(s@.subrange(i as int, j as int))
                && digits_value(s@.subrange(i as int, j as int)) <= i32::MAX,
            Option::None => digits_value(s@.subrange(i as int, j as int)) > i32::MAX,
        }),
{
    let mut acc: u64 = 0;
    let mut k = i;
    proof {
        assert(s@.subrange(i as int, i as int) =~= Seq::<char>::empty());
    }
    while k < j
        invariant
            i <= k <= j,
            acc as int == digits_value(s@.subrange(i as int, k as int)),
            acc <= i32::MAX,
        decreases j - k,
    {
        let c = s.get_char(k);
        let d = (c as u32) - 48;
        let next = acc * 10 + (d as u64);
        proof {
            assert(s@.subrange(i as int, k + 1).drop_last() =~= s@.subrange(i as int, k as int));
            assert(s@.subrange(i as int, k + 1).last() == s@[k as int]);
        }
        if next > (i32::MAX as u64) {
            proof {
                lemma_digits_value_mono(s@, i as int, k + 1, j as int);
            }
            return None;
        }
        acc = next;
        k = k + 1;
    }
    Some(acc as i32)
}

/// A line that does not conform to the surface syntax.
#[derive(Debug)]
pub struct ParseError;

/// Reads a constant at `i`: an integer, a quoted string, or an atom.
fn parse_const(s: &str, i: usize) -> (r: Option<(Constant, usize)>)
    requires
        i <= s@.len(),
    ensures
        (match r {
            Option::Some((c, j)) => spec_parse_const(s@, i as int) == Option::Some(
                (c@, j as int),
            ) && i < j <= s@.len(),
            Option::None => spec_parse_const(s@, i as int) is None,
        }),
{
    let len = s.unicode_len();
    if i >= len {
        return None;
    }
    let c0 = s.get_char(i);
    if ch_is_digit(c0) {
        let j = scan_digits_at(s, i);
        proof {
            lemma_scan_digits_is_digits(s@, i as int);
        }
        match digits_to_i32(s, i, j) {
            Option::Some(v) => {
                proof {
                    assert(scan_digits(s@, i as int) == scan_digits(s@, i + 1));
                    lemma_scan_digits_bounds(s@, i + 1);
                }
                Some((Constant::Int(v), j))
            }
            Option::None => None,
        }
    } else if c0 == '"' {
        let j = scan_to_quote_at(s, i + 1);
        if j < len && j > i + 1 {
            let content = s.substring_char(i + 1, j).to_owned();
            Some((Constant::Str(content), j + 1))
        } else {
            None
        }
    } else if ch_is_lower(c0) {
        let j = scan_alnum_at(s, i);
        proof {
            assert(scan_alnum(s@, i as int) == scan_alnum(s@, i + 1));
            lemma_scan_alnum_bounds(s@, i + 1);
        }
        let name = s.substring_char(i, j).to_owned();
        Some((Constant::Name(name), j))
    } else {
        None
    }
}

/// Every position of a digit run holds a digit.
proof fn lemma_scan_digits_is_digits(s: Seq<char>, i: int)
    requires
        0 <= i <= s.len(),
    ensures
        scan_digits(s, i) <= s.len(),
        forall|k: int| i <= k < scan_digits(s, i) ==> is_digit_char(#[trigger] s[k]),
    decreases s.len() - i,
{
    if i < s.len() && is_digit_char(s[i]) {
        lemma_scan_digits_is_digits(s, i + 1);
    }
}

/// Reads a variable at `i`.
fn parse_var(s: &str, i: usize) -> (r: Option<(Term, usize)>)
    requires
        i <= s@.len(),
    ensures
        (match r {
            Option::Some((t, j)) => spec_parse_var(s@, i as int) == Option::Some((t@, j as int))
                && i < j <= s@.len(),
            Option::None => spec_parse_var(s@, i as int) is None,
        }),
{
    let len = s.unicode_len();
    if i >= len {
        return None;
    }
    let c0 = s.get_char(i);
    if ch_is_upper(c0) {
        let j = scan_alpha_at(s, i);
        proof {
            assert(scan_alpha(s@, i as int) == scan_alpha(s@, i + 1));
            lemma_scan_alpha_bounds(s@, i + 1);
        }
        let name = s.substring_char(i, j).to_owned();
        Some((Term::Var(name), j))
    } else {
        None
    }
}

/// Reads a functor at `i`.
fn parse_functor(s: &str, i: usize) -> (r: Option<(String, usize)>)
    requires
        i <= s@.len(),
    ensures
        (match r {
            Option::Some((f, j)) => spec_parse_functor(s@, i as int) == Option::Some(
                (f@, j as int),
            ) && i < j <= s@.len(),
            Option::None => spec_parse_functor(s@, i as int) is None,
        }),
{
    let len = s.unicode_len();
    if i >= len {
        return None;
    }
    let c0 = s.get_char(i);
    if ch_is_lower(c0) {
        let j = scan_alnum_at(s, i);
        proof {
            assert(scan_alnum(s@, i as int) == scan_alnum(s@, i + 1));
            lemma_scan_alnum_bounds(s@, i + 1);
        }
        let name = s.substring_char(i, j).to_owned();
        Some((name, j))
    } else {
        None
    }
}

/// Reads a term at `i`: a compound, a constant, or a variable.
fn parse_term(s: &str, i: usize) -> (r: Option<(Term, usize)>)
    requires
        i <= s@.len(),
    ensures
        (match r {
            Option::Some((t, j)) => spec_parse_term(s@, i as int) == Option::Some((t@, j as int))
                && i < j <= s@.len(),
            Option::None => spec_parse_term(s@, i as int) is None,
        }),
    decreases s@.len() - i, 2int,
{
    match parse_combined(s, i) {
        Option::Some(r) => Some(r),
        Option::None => {
            match parse_const(s, i) {
                Option::Some((c, j)) => Some((Term::Const(c), j)),
                Option::None => parse_var(s, i),
            }
        }
    }
}

/// Reads a compound at `i`: a functor and a parenthesized argument list.
fn parse_combined(s: &str, i: usize) -> (r: Option<(Term, usize)>)
    requires
        i <= s@.len(),
    ensures
        (match r {
            Option::Some((t, j)) => spec_parse_combined(s@, i as int) == Option::Some(
                (t@, j as int),
            ) && i < j <= s@.len(),
            Option::None => spec_parse_combined(s@, i as int) is None,
        }),
    decreases s@.len() - i, 1int,
{
    let len = s.unicode_len();
    match parse_functor(s, i) {
        Option::None => None,
        Option::Some((f, j)) => {
            if j < len && s.get_char(j) == '(' {
                match parse_terms(s, j + 1) {
                    Option::None => None,
                    Option::Some((args, k)) => {
                        if k < len && s.get_char(k) == ')' {
                            let t = Term::Combined { functor: f, args };
                            proof {
                                crate::expr::lemma_terms_model(t->Combined_args@);
                            }
                            Some((t, k + 1))
                        } else {
                            None
                        }
                    }
                }
            } else {
                None
            }
        }
    }
}

/// Reads one or more comma-separated terms at `i`.
fn parse_terms(s: &str, i: usize) -> (r: Option<(Vec<Term>, usize)>)
    requires
        i <= s@.len(),
    ensures
        (match r {
            Option::Some((ts, j)) => spec_parse_terms(s@, i as int) matches Option::Some(p)
                && p.0 == crate::expr::terms_model(ts@) && p.1 == j as int && i < j <= s@.len(),
            Option::None => spec_parse_terms(s@, i as int) is None,
        }),
    decreases s@.len() - i, 3int,
{
    let len = s.unicode_len();
    match parse_term(s, i) {
        Option::None => None,
        Option::Some((t, j)) => {
            let ghost tm = t@;
            if j < len && s.get_char(j) == ',' {
                match parse_terms(s, j + 1) {
                    Option::None => None,
                    Option::Some((ts_rest, k)) => {
                        let ghost rest_v = ts_rest@;
                        let ghost rest_m = crate::expr::terms_model(ts_rest@);
                        let mut ts = ts_rest;
                        ts.insert(0, t);
                        proof {
                            crate::expr::lemma_terms_model(ts@);
                            crate::expr::lemma_terms_model(rest_v);
                            assert(ts@[0] == t);
                            assert(forall|q: int| 0 <= q < rest_v.len()
                                ==> #[trigger] ts@[q + 1] == rest_v[q]);
                            assert(crate::expr::terms_model(ts@) =~= seq![tm] + rest_m);
                        }
                        Some((ts, k))
                    }
                }
            } else {
                let mut one: Vec<Term> = Vec::new();
                one.push(t);
                proof {
                    crate::expr::lemma_terms_model(one@);
                    assert(crate::expr::terms_model(one@) =~= seq![tm]);
                }
                Some((one, j))
            }
        }
    }
}

/// Reads a clause at `i`: a head, an optional `:-` and body, then a dot.
fn parse_rule(s: &str, i: usize) -> (r: Option<(Rule, usize)>)
    requires
        i <= s@.len(),
    ensures
        (match r {
            Option::Some((rule, j)) => spec_parse_rule(s@, i as int) matches Option::Some(p)
                && p.0 == rule@ && p.1 == j as int && i < j <= s@.len(),
            Option::None => spec_parse_rule(s@, i as int) is None,
        }),
{
    let len = s.unicode_len();
    match parse_term(s, i) {
        Option::None => None,
        Option::Some((lhs, j)) => {
            if j < len && j + 1 < len && s.get_char(j) == ':' && s.get_char(j + 1) == '-' {
                match parse_terms(s, j + 2) {
                    Option::None => None,
                    Option::Some((rhs, k)) => {
                        if k < len && s.get_char(k) == '.' {
                            let rule = Rule { lhs, rhs };
                            proof {
                                assert(rule@.rhs == crate::expr::terms_model(rule.rhs@));
                            }
                            Some((rule, k + 1))
                        } else {
                            None
                        }
                    }
                }
            } else if j < len && s.get_char(j) == '.' {
                let rule = Rule { lhs, rhs: Vec::new() };
                proof {
                    assert(rule@.rhs =~= Seq::<SpecTerm>::empty());
                }
                Some((rule, j + 1))
            } else {
                None
            }
        }
    }
}

/// Reads clauses from `i` to the very end of the input.
pub fn parse_file_content(s: &str, i: usize) -> (r: Option<Vec<Rule>>)
    requires
        i <= s@.len(),
    ensures
        (match r {
            Option::Some(rules) => spec_parse_file(s@, i as int) matches Option::Some(rs)
                && rs.len() == rules@.len() && (forall|k: int| 0 <= k < rs.len()
                ==> rs[k] == (#[trigger] rules@[k])@),
            Option::None => spec_parse_file(s@, i as int) is None,
        }),
    decreases s@.len() - i,
{
    let len = s.unicode_len();
    if i == len {
        let rules: Vec<Rule> = Vec::new();
        return Some(rules);
    }
    match parse_rule(s, i) {
        Option::None => None,
        Option::Some((rule, j)) => {
            match parse_file_content(s, j) {
                Option::None => None,
                Option::Some(rest) => {
                    let ghost rest_v = rest@;
                    let mut rules = rest;
                    rules.insert(0, rule);
                    proof {
                        assert(rules@[0] == rule);
                        assert(forall|q: int| 0 <= q < rest_v.len()
                            ==> #[trigger] rules@[q + 1] == rest_v[q]);
                    }
                    Some(rules)
                }
            }
        }
    }
}

/// Reads a file-load form at `i`.
fn parse_file_ref(s: &str, i: usize) -> (r: Option<(String, usize)>)
    requires
        i <= s@.len(),
    ensures
        (match r {
            Option::Some((f, j)) => spec_parse_file_ref(s@, i as int) == Option::Some(
                (f@, j as int),
            ) && i < j <= s@.len(),
            Option::None => spec_parse_file_ref(s@, i as int) is None,
        }),
{
    let len = s.unicode_len();
    if i < len && i + 1 < len && s.get_char(i) == '[' && s.get_char(i + 1) == '\'' {
        let j = scan_file_name_at(s, i + 2);
        if j > i + 2 && j < len && j + 1 < len && s.get_char(j) == '\'' && s.get_char(j + 1)
            == ']' {
            let name = s.substring_char(i + 2, j).to_owned();
            Some((name, j + 2))
        } else {
            None
        }
    } else {
        None
    }
}

/// Reads one query line: a file-load form or a goal list, closed by a dot.
/// Anything after the dot is ignored. The input is expected with all
/// whitespace already removed.
pub fn parse_query(input: &str) -> (r: Result<Query, ParseError>)
    ensures
        (match r {
            Result::Ok(q) => spec_parse_query(input@) == Option::Some(q@),
            Result::Err(_) => spec_parse_query(input@) is None,
        }),
{
    let len = input.unicode_len();
    match parse_file_ref(input, 0) {
        Option::Some((f, j)) => {
            if j < len && input.get_char(j) == '.' {
                Ok(Query::File(f))
            } else {
                Err(ParseError)
            }
        }
        Option::None => {
            match parse_terms(input, 0) {
                Option::Some((ts, j)) => {
                    if j < len && input.get_char(j) == '.' {
                        let q = Query::Terms(ts);
                        proof {
                            assert(q@ == SpecQuery::Terms(crate::expr::terms_model(
                                q->Terms_0@,
                            )));
                        }
                        Ok(q)
                    } else {
                        Err(ParseError)
                    }
                }
                Option::None => Err(ParseError),
            }
        }
    }
}

} // verus!
