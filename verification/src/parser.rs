//! DIMACS CNF decoding: from raw bytes to the solver's clause representation.
//!
//! The accepted shape, specified by `spec_parse_dimacs`: the input is split
//! into lines; a line whose first non-blank byte is `c`, `%` or `p` — and a
//! blank line — is skipped; every other line is whitespace-separated signed
//! decimal integers forming one clause, read up to a `0` sentinel (anything
//! after the sentinel on that line is ignored).  A token that is not an
//! integer fitting a 32-bit signed word is rejected.  `convert_to_internal`
//! then turns 1-based signed literals into `Lit` values and sizes the
//! variable range.

use vstd::prelude::*;

use crate::types::{Clause, Formula, Lit, formula_wf};

verus! {

/// A literal as written in the input: a signed, 1-based variable number.
#[derive(Debug, Copy, Clone, PartialEq, Eq, Structural)]
pub struct DimacsLiteral(pub i32);

/// A clause as written in the input.
pub type DimacsClause = Vec<DimacsLiteral>;

/// A formula as written in the input.
pub type DimacsFormula = Vec<DimacsClause>;

/// Why an input was rejected.
#[derive(Debug, Copy, Clone, PartialEq, Eq, Structural)]
pub enum ParseError {
    /// A clause token is not an integer that fits a 32-bit signed word.
    BadLiteral,
}

/// ASCII whitespace, as the tokenizer and the line classifier skip it.
pub open spec fn is_space(b: u8) -> bool {
    b == 32 || b == 9 || b == 10 || b == 11 || b == 12 || b == 13
}

/// An ASCII decimal digit.
pub open spec fn is_digit(b: u8) -> bool {
    48 <= b <= 57
}

/// Every byte of the sequence is a decimal digit.
pub open spec fn all_digits(t: Seq<u8>) -> bool {
    forall|k: int| 0 <= k < t.len() ==> is_digit(#[trigger] t[k])
}

/// The number a digit string denotes, most significant digit first.
pub open spec fn digits_value(t: Seq<u8>) -> int
    decreases t.len(),
{
    if t.len() == 0 {
        0
    } else {
        digits_value(t.drop_last()) * 10 + (t.last() - 48)
    }
}

/// The integer a token denotes: an optional sign, then one or more digits,
/// within the range of a 32-bit signed word; `None` for anything else.
pub open spec fn spec_parse_i32(t: Seq<u8>) -> Option<int> {
    if t.len() > 0 && (t[0] == 43 || t[0] == 45) {
        let digs = t.skip(1);
        if digs.len() > 0 && all_digits(digs) {
            let mag = digits_value(digs);
            if t[0] == 45 {
                if mag <= 0x8000_0000 {
                    Some(-mag)
                } else {
                    None
                }
            } else {
                if mag <= 0x7fff_ffff {
                    Some(mag)
                } else {
                    None
                }
            }
        } else {
            None
        }
    } else {
        if t.len() > 0 && all_digits(t) {
            let mag = digits_value(t);
            if mag <= 0x7fff_ffff {
                Some(mag)
            } else {
                None
            }
        } else {
            None
        }
    }
}

/// Length of the whitespace-free token at the head of the sequence.
pub open spec fn token_len(l: Seq<u8>) -> nat
    decreases l.len(),
{
    if l.len() == 0 || is_space(l[0]) {
        0
    } else {
        1 + token_len(l.skip(1))
    }
}

/// The whitespace-separated tokens of a line, in order.
pub open spec fn spec_tokens(l: Seq<u8>) -> Seq<Seq<u8>>
    decreases l.len(),
{
    if l.len() == 0 {
        Seq::empty()
    } else if is_space(l[0]) {
        spec_tokens(l.skip(1))
    } else {
        let k = token_len(l) as int;
        if 1 <= k <= l.len() {
            seq![l.take(k)] + spec_tokens(l.skip(k))
        } else {
            seq![l]
        }
    }
}

/// Length of the first line: the bytes before the first newline.
pub open spec fn line_end(s: Seq<u8>) -> nat
    decreases s.len(),
{
    if s.len() == 0 || s[0] == 10 {
        0
    } else {
        1 + line_end(s.skip(1))
    }
}

/// The input split at newline bytes; a trailing newline yields a final empty
/// line, which the grammar skips anyway.
pub open spec fn spec_split_lines(s: Seq<u8>) -> Seq<Seq<u8>>
    decreases s.len(),
{
    let k = line_end(s) as int;
    if 0 <= k < s.len() {
        seq![s.take(k)] + spec_split_lines(s.skip(k + 1))
    } else {
        seq![s]
    }
}

/// The first byte of a line that is not whitespace, if any: what classifies
/// the line as comment, problem declaration, blank, or clause.
pub open spec fn spec_first_non_space(l: Seq<u8>) -> Option<u8>
    decreases l.len(),
{
    if l.len() == 0 {
        None
    } else if is_space(l[0]) {
        spec_first_non_space(l.skip(1))
    } else {
        Some(l[0])
    }
}

/// The clause a token list denotes: each token an integer, read up to a `0`
/// sentinel; `None` as soon as a token is not a well-formed integer.
pub open spec fn spec_parse_clause(ts: Seq<Seq<u8>>) -> Option<Seq<int>>
    decreases ts.len(),
{
    if ts.len() == 0 {
        Some(Seq::empty())
    } else {
        match spec_parse_i32(ts[0]) {
            None => None,
            Some(v) => if v == 0 {
                Some(Seq::empty())
            } else {
                match spec_parse_clause(ts.skip(1)) {
                    None => None,
                    Some(rest) => Some(seq![v] + rest),
                }
            },
        }
    }
}

/// The clauses a line list denotes: comment, declaration and blank lines
/// skipped, every other line one clause.
pub open spec fn spec_parse_lines(ls: Seq<Seq<u8>>) -> Option<Seq<Seq<int>>>
    decreases ls.len(),
{
    if ls.len() == 0 {
        Some(Seq::empty())
    } else {
        match spec_parse_lines(ls.drop_last()) {
            None => None,
            Some(acc) => {
                let l = ls.last();
                match spec_first_non_space(l) {
                    None => Some(acc),
                    Some(c) => if c == 99 || c == 37 || c == 112 {
                        Some(acc)
                    } else {
                        match spec_parse_clause(spec_tokens(l)) {
                            None => None,
                            Some(cl) => Some(acc.push(cl)),
                        }
                    },
                }
            },
        }
    }
}

/// What the whole input denotes: the clause list, as signed 1-based
/// integers, or `None` if some clause line is malformed.
pub open spec fn spec_parse_dimacs(s: Seq<u8>) -> Option<Seq<Seq<int>>> {
    spec_parse_lines(spec_split_lines(s))
}

/// The integers a parsed clause holds.
pub open spec fn clause_view(c: Seq<DimacsLiteral>) -> Seq<int> {
    c.map_values(|dl: DimacsLiteral| dl.0 as int)
}

/// The byte sequences a vector of byte vectors holds.
pub open spec fn bytes_view(v: Seq<Vec<u8>>) -> Seq<Seq<u8>> {
    v.map_values(|x: Vec<u8>| x@)
}

/// The integers a parsed formula holds, clause by clause.
pub open spec fn dimacs_view(d: Seq<Vec<DimacsLiteral>>) -> Seq<Seq<int>> {
    d.map_values(|c: Vec<DimacsLiteral>| clause_view(c@))
}

/// The 0-based variable index of a signed 1-based literal.
pub open spec fn spec_lit_var(v: int) -> int {
    (if v < 0 {
        -v
    } else {
        v
    }) - 1
}

/// The `Lit` values a clause of signed integers converts to, in order; a
/// stray `0` is dropped.
pub open spec fn spec_convert_clause(c: Seq<int>) -> Seq<Lit>
    decreases c.len(),
{
    if c.len() == 0 {
        Seq::empty()
    } else {
        let rest = spec_convert_clause(c.drop_last());
        let v = c.last();
        if v == 0 {
            rest
        } else {
            rest.push(Lit { var: spec_lit_var(v) as usize, neg: v < 0 })
        }
    }
}

/// The largest 0-based variable index in the clause, folded over `acc`.
pub open spec fn spec_clause_max(c: Seq<int>, acc: int) -> int
    decreases c.len(),
{
    if c.len() == 0 {
        acc
    } else {
        let m = spec_clause_max(c.drop_last(), acc);
        let v = c.last();
        if v != 0 && spec_lit_var(v) > m {
            spec_lit_var(v)
        } else {
            m
        }
    }
}

/// The largest 0-based variable index in the formula, folded over `acc`.
pub open spec fn spec_formula_max(d: Seq<Seq<int>>, acc: int) -> int
    decreases d.len(),
{
    if d.len() == 0 {
        acc
    } else {
        spec_clause_max(d.last(), spec_formula_max(d.drop_last(), acc))
    }
}

/// Whether the byte is ASCII whitespace.
fn is_space_byte(b: u8) -> (r: bool)
    ensures
        r == is_space(b),
{
    b == 32 || b == 9 || b == 10 || b == 11 || b == 12 || b == 13
}

/// A scan that saw no newline for `k` bytes and then the end or a newline
/// has found the first line's length.
proof fn lemma_line_end_is(s: Seq<u8>, k: int)
    requires
        0 <= k <= s.len(),
        forall|j: int| 0 <= j < k ==> (#[trigger] s[j]) != 10,
        k == s.len() || s[k] == 10,
    ensures
        line_end(s) == k,
    decreases k,
{
    if k > 0 {
        assert forall|j: int| 0 <= j < k - 1 implies (#[trigger] s.skip(1)[j]) != 10 by {
            assert(s.skip(1)[j] == s[j + 1]);
        }
        if k < s.len() {
            assert(s.skip(1)[k - 1] == s[k]);
        }
        lemma_line_end_is(s.skip(1), k - 1);
    }
}

/// A scan that saw no whitespace for `k` bytes and then the end or a blank
/// has found the head token's length.
proof fn lemma_token_len_is(l: Seq<u8>, k: int)
    requires
        0 <= k <= l.len(),
        forall|j: int| 0 <= j < k ==> !is_space(#[trigger] l[j]),
        k == l.len() || is_space(l[k]),
    ensures
        token_len(l) == k,
    decreases k,
{
    if k > 0 {
        assert forall|j: int| 0 <= j < k - 1 implies !is_space(#[trigger] l.skip(1)[j]) by {
            assert(l.skip(1)[j] == l[j + 1]);
        }
        if k < l.len() {
            assert(l.skip(1)[k - 1] == l[k]);
        }
        lemma_token_len_is(l.skip(1), k - 1);
    }
}

/// Splits the input at newline bytes, exactly as `spec_split_lines`
/// describes.
#[verifier::loop_isolation(false)]
fn split_into_lines(input: &[u8]) -> (lines: Vec<Vec<u8>>)
    ensures
        bytes_view(lines@) == spec_split_lines(input@),
{
    let ghost s = input@;
    let mut lines: Vec<Vec<u8>> = Vec::new();
    let mut i: usize = 0;
    proof {
        assert(s.skip(0) =~= s);
    }
    let mut done = false;
    while !done
        invariant
            i <= s.len(),
            !done ==> bytes_view(lines@) + spec_split_lines(s.skip(i as int))
                == spec_split_lines(s),
            done ==> bytes_view(lines@) == spec_split_lines(s),
        decreases s.len() - i + (if done { 0int } else { 1int }),
    {
        let start = i;
        let mut line: Vec<u8> = Vec::new();
        while i < input.len() && input[i] != 10
            invariant
                start <= i <= s.len(),
                line@ == s.subrange(start as int, i as int),
                forall|j: int| start <= j < i ==> (#[trigger] s[j]) != 10,
            decreases s.len() - i,
        {
            proof {
                assert(s.subrange(start as int, i as int + 1)
                    =~= s.subrange(start as int, i as int).push(s[i as int]));
            }
            let b = input[i];
            line.push(b);
            i = i + 1;
        }
        proof {
            assert forall|j: int| 0 <= j < i - start
                implies (#[trigger] s.skip(start as int)[j]) != 10 by {
                assert(s.skip(start as int)[j] == s[start + j]);
            }
            if i < s.len() {
                assert(s.skip(start as int)[i - start] == s[i as int]);
            }
            lemma_line_end_is(s.skip(start as int), i - start);
            assert(s.skip(start as int).take(i - start) =~= s.subrange(start as int, i as int));
        }
        let ghost lv_old = lines@;
        if i == input.len() {
            proof {
                assert(s.skip(start as int) =~= s.subrange(start as int, i as int));
                assert(spec_split_lines(s.skip(start as int)) == seq![line@]);
            }
            lines.push(line);
            done = true;
            proof {
                assert(bytes_view(lines@) =~= bytes_view(lv_old).push(line@));
                assert(bytes_view(lines@) =~= bytes_view(lv_old) + seq![line@]);
                assert(bytes_view(lines@) == spec_split_lines(s));
            }
        } else {
            proof {
                assert(s.skip(start as int).skip(i - start + 1) =~= s.skip(i as int + 1));
                assert(spec_split_lines(s.skip(start as int))
                    == seq![line@] + spec_split_lines(s.skip(i as int + 1)));
            }
            lines.push(line);
            i = i + 1;
            proof {
                assert(bytes_view(lines@) =~= bytes_view(lv_old).push(line@));
                assert(bytes_view(lines@) + spec_split_lines(s.skip(i as int))
                    =~= bytes_view(lv_old) + spec_split_lines(s.skip(start as int)));
                assert(bytes_view(lines@) + spec_split_lines(s.skip(i as int))
                    == spec_split_lines(s));
            }
        }
    }
    lines
}

/// The first non-whitespace byte of a line, if any.
#[verifier::loop_isolation(false)]
fn first_non_space(line: &Vec<u8>) -> (r: Option<u8>)
    ensures
        r == spec_first_non_space(line@),
{
    let mut i: usize = 0;
    proof {
        assert(line@.skip(0) =~= line@);
    }
    while i < line.len()
        invariant
            i <= line@.len(),
            spec_first_non_space(line@.skip(i as int)) == spec_first_non_space(line@),
        decreases line@.len() - i,
    {
        let b = line[i];
        proof {
            assert(line@.skip(i as int)[0] == b);
        }
        if !is_space_byte(b) {
            return Some(b);
        }
        proof {
            assert(line@.skip(i as int).skip(1) =~= line@.skip(i as int + 1));
        }
        i = i + 1;
    }
    proof {
        assert(line@.skip(i as int).len() == 0);
    }
    None
}

/// Splits a line into its whitespace-separated tokens, exactly as
/// `spec_tokens` describes.
#[verifier::loop_isolation(false)]
fn tokenize(line: &Vec<u8>) -> (toks: Vec<Vec<u8>>)
    ensures
        bytes_view(toks@) == spec_tokens(line@),
{
    let ghost l = line@;
    let mut toks: Vec<Vec<u8>> = Vec::new();
    let mut i: usize = 0;
    proof {
        assert(l.skip(0) =~= l);
    }
    while i < line.len()
        invariant
            i <= l.len(),
            bytes_view(toks@) + spec_tokens(l.skip(i as int)) == spec_tokens(l),
        decreases l.len() - i,
    {
        let b = line[i];
        if is_space_byte(b) {
            proof {
                assert(l.skip(i as int)[0] == b);
                assert(l.skip(i as int).skip(1) =~= l.skip(i as int + 1));
            }
            i = i + 1;
        } else {
            let start = i;
            let mut tok: Vec<u8> = Vec::new();
            while i < line.len()
                && !(line[i] == 32 || line[i] == 9 || line[i] == 10 || line[i] == 11
                    || line[i] == 12 || line[i] == 13)
                invariant
                    start <= i <= l.len(),
                    tok@ == l.subrange(start as int, i as int),
                    forall|j: int| start <= j < i ==> !is_space(#[trigger] l[j]),
                decreases l.len() - i,
            {
                proof {
                    assert(l.subrange(start as int, i as int + 1)
                        =~= l.subrange(start as int, i as int).push(l[i as int]));
                }
                let c = line[i];
                tok.push(c);
                i = i + 1;
            }
            proof {
                assert(i > start);
                assert forall|j: int| 0 <= j < i - start
                    implies !is_space(#[trigger] l.skip(start as int)[j]) by {
                    assert(l.skip(start as int)[j] == l[start + j]);
                }
                if i < l.len() {
                    assert(l.skip(start as int)[i - start] == l[i as int]);
                }
                lemma_token_len_is(l.skip(start as int), i - start);
                assert(l.skip(start as int).take(i - start)
                    =~= l.subrange(start as int, i as int));
                assert(l.skip(start as int).skip(i - start) =~= l.skip(i as int));
                assert(l.skip(start as int)[0] == l[start as int]);
                assert(spec_tokens(l.skip(start as int))
                    == seq![tok@] + spec_tokens(l.skip(i as int)));
            }
            let ghost tv_old = toks@;
            toks.push(tok);
            proof {
                assert(bytes_view(toks@) =~= bytes_view(tv_old).push(tok@));
                assert(bytes_view(toks@) + spec_tokens(l.skip(i as int))
                    =~= bytes_view(tv_old) + spec_tokens(l.skip(start as int)));
                assert(bytes_view(toks@) + spec_tokens(l.skip(i as int)) == spec_tokens(l));
            }
        }
    }
    proof {
        assert(l.skip(i as int).len() == 0);
        assert(bytes_view(toks@) + spec_tokens(l.skip(i as int)) =~= bytes_view(toks@));
    }
    toks
}

/// Digit strings denote nonnegative numbers.
proof fn lemma_digits_value_nonneg(t: Seq<u8>)
    requires
        all_digits(t),
    ensures
        digits_value(t) >= 0,
    decreases t.len(),
{
    if t.len() > 0 {
        assert(forall|k: int| 0 <= k < t.drop_last().len() ==> t.drop_last()[k] == t[k]);
        lemma_digits_value_nonneg(t.drop_last());
    }
}

/// A prefix of a digit string denotes no more than the whole string.
proof fn lemma_digits_value_prefix(t: Seq<u8>, k: int)
    requires
        all_digits(t),
        0 <= k <= t.len(),
    ensures
        digits_value(t.take(k)) <= digits_value(t),
    decreases t.len() - k,
{
    if k < t.len() {
        assert(t.take(k + 1).drop_last() =~= t.take(k));
        assert(t.take(k + 1).last() == t[k]);
        assert(forall|j: int| 0 <= j < k ==> t.take(k)[j] == t[j]);
        lemma_digits_value_nonneg(t.take(k));
        assert(digits_value(t.take(k + 1)) >= digits_value(t.take(k)));
        lemma_digits_value_prefix(t, k + 1);
    } else {
        assert(t.take(k) =~= t);
    }
}

/// Parses one token as a 32-bit signed integer, exactly as
/// `spec_parse_i32` describes: optional sign, digits, range check.
#[verifier::loop_isolation(false)]
fn parse_i32_token(t: &Vec<u8>) -> (r: Result<i32, ParseError>)
    ensures
        match r {
            Ok(v) => spec_parse_i32(t@) == Some(v as int),
            Err(_) => spec_parse_i32(t@) is None,
        },
{
    let mut j: usize = 0;
    let mut neg = false;
    if t.len() > 0 && (t[0] == 43 || t[0] == 45) {
        neg = t[0] == 45;
        j = 1;
    }
    let ghost start = j as int;
    let ghost digs = t@.skip(start);
    if j == t.len() {
        // Empty token or a lone sign: no digits.
        return Err(ParseError::BadLiteral);
    }
    let bound: u64 = if neg {
        0x8000_0000
    } else {
        0x7fff_ffff
    };
    let mut acc: u64 = 0;
    while j < t.len()
        invariant
            start <= j <= t.len(),
            acc <= bound,
            all_digits(digs.take(j - start)),
            acc == digits_value(digs.take(j - start)),
        decreases t.len() - j,
    {
        let b = t[j];
        if !(48 <= b && b <= 57) {
            proof {
                assert(digs[j - start] == t@[j as int]);
                assert(!all_digits(digs));
            }
            return Err(ParseError::BadLiteral);
        }
        let d: u64 = (b - 48) as u64;
        let next: u64 = acc * 10 + d;
        proof {
            assert(digs.take(j - start + 1).drop_last() =~= digs.take(j - start));
            assert(digs.take(j - start + 1).last() == digs[j - start]);
            assert(digs[j - start] == t@[j as int]);
        }
        if next > bound {
            proof {
                // Even this prefix is out of range; more digits only grow
                // the value, and a later non-digit rejects the token anyway.
                assert(digits_value(digs.take(j - start + 1)) == acc * 10 + d);
                if all_digits(digs) {
                    lemma_digits_value_prefix(digs, j - start + 1);
                    assert(digits_value(digs) > bound);
                }
                if start == 0 {
                    assert(digs =~= t@);
                }
                assert(spec_parse_i32(t@) is None);
            }
            return Err(ParseError::BadLiteral);
        }
        acc = next;
        j = j + 1;
    }
    proof {
        assert(digs.take(j - start) =~= digs);
        assert(all_digits(digs));
        assert(acc == digits_value(digs));
        if start == 0 {
            assert(digs =~= t@);
        }
    }
    if neg {
        let v: i32 = (-(acc as i64)) as i32;
        proof {
            assert(v as int == -(acc as int));
            assert(spec_parse_i32(t@) == Some(v as int));
        }
        Ok(v)
    } else {
        let v: i32 = acc as i32;
        proof {
            assert(v as int == acc as int);
            assert(spec_parse_i32(t@) == Some(v as int));
        }
        Ok(v)
    }
}

/// A failure on a prefix of the lines is a failure of the whole input.
proof fn lemma_parse_lines_none(ls: Seq<Seq<u8>>, k: int)
    requires
        0 <= k <= ls.len(),
        spec_parse_lines(ls.take(k)) is None,
    ensures
        spec_parse_lines(ls) is None,
    decreases ls.len() - k,
{
    if k < ls.len() {
        assert(ls.take(k + 1).drop_last() =~= ls.take(k));
        lemma_parse_lines_none(ls, k + 1);
    } else {
        assert(ls.take(k) =~= ls);
    }
}

/// Reads one clause from a token list: integers up to the `0` sentinel,
/// exactly as `spec_parse_clause` describes; tokens after the sentinel are
/// never examined.
#[verifier::loop_isolation(false)]
fn parse_clause_tokens(toks: &Vec<Vec<u8>>) -> (r: Result<DimacsClause, ParseError>)
    ensures
        match r {
            Ok(c) => spec_parse_clause(bytes_view(toks@)) == Some(clause_view(c@)),
            Err(_) => spec_parse_clause(bytes_view(toks@)) is None,
        },
{
    let ghost tv = bytes_view(toks@);
    let mut out: DimacsClause = Vec::new();
    let mut k: usize = 0;
    proof {
        assert(tv.skip(0) =~= tv);
        assert(clause_view(out@) =~= Seq::<int>::empty());
    }
    while k < toks.len()
        invariant
            k <= tv.len(),
            (match spec_parse_clause(tv.skip(k as int)) {
                Some(rest) => spec_parse_clause(tv) == Some(clause_view(out@) + rest),
                None => spec_parse_clause(tv) is None,
            }),
        decreases tv.len() - k,
    {
        let t: &Vec<u8> = &toks[k];
        proof {
            assert(tv[k as int] == t@);
            assert(tv.skip(k as int)[0] == tv[k as int]);
            assert(tv.skip(k as int).skip(1) =~= tv.skip(k as int + 1));
        }
        match parse_i32_token(t) {
            Err(e) => {
                proof {
                    assert(spec_parse_clause(tv.skip(k as int)) is None);
                }
                return Err(e);
            },
            Ok(v) => {
                if v == 0 {
                    proof {
                        assert(spec_parse_clause(tv.skip(k as int)) == Some(Seq::<int>::empty()));
                        assert(clause_view(out@) + Seq::<int>::empty() =~= clause_view(out@));
                    }
                    return Ok(out);
                }
                let ghost out_old = out@;
                out.push(DimacsLiteral(v));
                proof {
                    assert(clause_view(out@) =~= clause_view(out_old).push(v as int));
                    match spec_parse_clause(tv.skip(k as int + 1)) {
                        Some(rest2) => {
                            assert(spec_parse_clause(tv.skip(k as int))
                                == Some(seq![v as int] + rest2));
                            assert(clause_view(out_old) + (seq![v as int] + rest2)
                                =~= clause_view(out@) + rest2);
                        },
                        None => {
                            assert(spec_parse_clause(tv.skip(k as int)) is None);
                        },
                    }
                }
                k = k + 1;
            },
        }
    }
    proof {
        assert(tv.skip(k as int).len() == 0);
        assert(spec_parse_clause(tv.skip(k as int)) == Some(Seq::<int>::empty()));
        assert(clause_view(out@) + Seq::<int>::empty() =~= clause_view(out@));
    }
    Ok(out)
}

/// Parses DIMACS text into its clause list: comment (`c`, `%`), declaration
/// (`p`) and blank lines are skipped; every other line is one clause of
/// whitespace-separated signed integers, read up to its `0` sentinel.
#[verifier::loop_isolation(false)]
pub fn parse_dimacs(input: &[u8]) -> (r: Result<DimacsFormula, ParseError>)
    ensures
        match r {
            Ok(df) => spec_parse_dimacs(input@) == Some(dimacs_view(df@)),
            Err(_) => spec_parse_dimacs(input@) is None,
        },
{
    let lines = split_into_lines(input);
    let ghost lv = bytes_view(lines@);
    let mut out: DimacsFormula = Vec::new();
    let mut li: usize = 0;
    proof {
        assert(lv.take(0) =~= Seq::<Seq<u8>>::empty());
        assert(dimacs_view(out@) =~= Seq::<Seq<int>>::empty());
    }
    while li < lines.len()
        invariant
            li <= lv.len(),
            spec_parse_lines(lv.take(li as int)) == Some(dimacs_view(out@)),
        decreases lv.len() - li,
    {
        let line: &Vec<u8> = &lines[li];
        proof {
            assert(lv[li as int] == line@);
            assert(lv.take(li as int + 1).drop_last() =~= lv.take(li as int));
            assert(lv.take(li as int + 1).last() == lv[li as int]);
        }
        let first = first_non_space(line);
        let mut skip_line = false;
        match first {
            None => {
                skip_line = true;
            },
            Some(c) => {
                if c == 99 || c == 37 || c == 112 {
                    skip_line = true;
                }
            },
        }
        if !skip_line {
            let toks = tokenize(line);
            match parse_clause_tokens(&toks) {
                Err(e) => {
                    proof {
                        assert(spec_parse_clause(spec_tokens(line@)) is None);
                        assert(spec_parse_lines(lv.take(li as int + 1)) is None);
                        lemma_parse_lines_none(lv, li as int + 1);
                    }
                    return Err(e);
                },
                Ok(cl) => {
                    let ghost out_old = out@;
                    out.push(cl);
                    proof {
                        assert(dimacs_view(out@)
                            =~= dimacs_view(out_old).push(clause_view(cl@)));
                        assert(spec_parse_lines(lv.take(li as int + 1))
                            == Some(dimacs_view(out@)));
                    }
                },
            }
        }
        li = li + 1;
    }
    proof {
        assert(lv.take(li as int) =~= lv);
    }
    Ok(out)
}

/// Converts parsed 1-based signed literals to the solver's representation:
/// variable numbering becomes 0-based, the sign becomes the `neg` flag, a
/// stray `0` literal is dropped, and the variable count is one more than the
/// largest index referenced (one when nothing is referenced).
#[verifier::loop_isolation(false)]
pub fn convert_to_internal(dimacs_formula: DimacsFormula) -> (r: (Formula, usize))
    ensures
        r.0@.len() == dimacs_formula@.len(),
        forall|i: int|
            0 <= i < dimacs_formula@.len()
                ==> (#[trigger] r.0@[i])@
                    == spec_convert_clause(clause_view(dimacs_formula@[i]@)),
        r.1 == spec_formula_max(dimacs_view(dimacs_formula@), 0) + 1,
        formula_wf(r.0@, r.1 as nat),
{
    let ghost dv = dimacs_view(dimacs_formula@);
    let mut max_var: usize = 0;
    let mut formula: Formula = Vec::new();
    let mut i: usize = 0;
    proof {
        assert(dv.take(0) =~= Seq::<Seq<int>>::empty());
    }
    while i < dimacs_formula.len()
        invariant
            i <= dimacs_formula@.len(),
            formula@.len() == i,
            forall|k: int|
                0 <= k < i
                    ==> (#[trigger] formula@[k])@
                        == spec_convert_clause(clause_view(dimacs_formula@[k]@)),
            max_var <= 0x7fff_ffff,
            max_var as int == spec_formula_max(dv.take(i as int), 0),
            forall|k: int, j: int|
                0 <= k < formula@.len() && 0 <= j < formula@[k]@.len()
                    ==> (#[trigger] formula@[k]@[j]).var <= max_var,
        decreases dimacs_formula@.len() - i,
    {
        let dc: &DimacsClause = &dimacs_formula[i];
        let ghost cv = clause_view(dc@);
        let ghost prev_max = max_var as int;
        proof {
            assert(dv[i as int] == cv);
            assert(dv.take(i as int + 1).drop_last() =~= dv.take(i as int));
            assert(dv.take(i as int + 1).last() == dv[i as int]);
            assert(cv.take(0) =~= Seq::<int>::empty());
        }
        let mut clause: Clause = Vec::new();
        let mut j: usize = 0;
        while j < dc.len()
            invariant
                j <= dc@.len(),
                max_var <= 0x7fff_ffff,
                prev_max <= max_var as int,
                clause@ == spec_convert_clause(cv.take(j as int)),
                max_var as int == spec_clause_max(cv.take(j as int), prev_max),
                forall|k: int|
                    0 <= k < clause@.len() ==> (#[trigger] clause@[k]).var <= max_var,
                forall|k: int, jj: int|
                    0 <= k < formula@.len() && 0 <= jj < formula@[k]@.len()
                        ==> (#[trigger] formula@[k]@[jj]).var <= max_var,
            decreases dc@.len() - j,
        {
            proof {
                assert(cv[j as int] == dc@[j as int].0 as int);
                assert(cv.take(j as int + 1).drop_last() =~= cv.take(j as int));
                assert(cv.take(j as int + 1).last() == cv[j as int]);
            }
            let dl = dc[j];
            let v = dl.0;
            if v != 0 {
                let var_num: usize = if v < 0 {
                    (-(v as i64)) as usize
                } else {
                    v as usize
                };
                let var: usize = var_num - 1;
                proof {
                    assert(var as int == spec_lit_var(v as int));
                }
                if var > max_var {
                    max_var = var;
                }
                let ghost cl_old = clause@;
                clause.push(Lit { var, neg: v < 0 });
                proof {
                    assert(clause@ =~= cl_old.push(Lit {
                        var: spec_lit_var(v as int) as usize,
                        neg: (v as int) < 0,
                    }));
                }
            }
            j = j + 1;
        }
        proof {
            assert(cv.take(j as int) =~= cv);
        }
        formula.push(clause);
        i = i + 1;
    }
    proof {
        assert(dv.take(i as int) =~= dv);
    }
    let n: usize = max_var + 1;
    proof {
        assert forall|k: int, j: int|
            0 <= k < formula@.len() && 0 <= j < formula@[k]@.len()
                implies (#[trigger] formula@[k]@[j]).var < n as nat by {
            assert(formula@[k]@[j].var <= max_var);
        }
    }
    (formula, n)
}

/// Parses DIMACS text and converts it to the solver's representation: the
/// formula together with its variable count, or an error on a malformed
/// clause token.  On success the formula is well formed for the returned
/// count, as `solve` requires.
pub fn parse_and_convert(input: &[u8]) -> (r: Result<(Formula, usize), ParseError>)
    ensures
        match r {
            Ok(p) => spec_parse_dimacs(input@) matches Some(d) && p.0@.len() == d.len()
                && (forall|i: int|
                    0 <= i < d.len()
                        ==> (#[trigger] p.0@[i])@ == spec_convert_clause(d[i]))
                && p.1 == spec_formula_max(d, 0) + 1 && formula_wf(p.0@, p.1 as nat),
            Err(_) => spec_parse_dimacs(input@) is None,
        },
{
    match parse_dimacs(input) {
        Err(e) => Err(e),
        Ok(df) => {
            let ghost d = dimacs_view(df@);
            let r = convert_to_internal(df);
            proof {
                assert forall|i: int| 0 <= i < d.len()
                    implies (#[trigger] r.0@[i])@ == spec_convert_clause(d[i]) by {
                    assert(d[i] == clause_view(df@[i]@));
                }
            }
            Ok(r)
        },
    }
}

} // verus!
