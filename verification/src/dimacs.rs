//! Tokenizer for CNF formulas in the DIMACS style.
//!
//! A formula is one clause per line. Comment lines (first non-blank
//! character `c`), header lines (first non-blank character `p`) and
//! blank lines are skipped; every other line is split on blanks into
//! signed decimal literals, and literal `0` — the conventional clause
//! terminator — is dropped. Any token that is not a decimal integer
//! fitting `i32` fails the whole parse. Blanks are the ASCII whitespace
//! characters space, tab and carriage return; lines end at a line feed,
//! with a carriage return before the line feed ignored.

use vstd::prelude::*;

verus! {

/// A blank character inside a line.
pub open spec fn is_ws(c: char) -> bool {
    c == ' ' || c == '\t' || c == '\r'
}

/// A decimal digit.
pub open spec fn is_digit(c: char) -> bool {
    ('0' as u32) <= (c as u32) && (c as u32) <= ('9' as u32)
}

/// The value of a decimal digit.
pub open spec fn digit_val(c: char) -> int {
    (c as u32) - ('0' as u32)
}

/// Index of the first line feed at or after `i`, or the input's length.
pub open spec fn line_end_s(s: Seq<char>, i: int) -> int
    decreases s.len() - i,
{
    if i < 0 || i >= s.len() {
        s.len() as int
    } else if s[i] == '\n' {
        i
    } else {
        line_end_s(s, i + 1)
    }
}

/// Index of the first non-blank character at or after `i`, or the
/// line's length.
pub open spec fn skip_ws_s(line: Seq<char>, i: int) -> int
    decreases line.len() - i,
{
    if i < 0 || i >= line.len() {
        line.len() as int
    } else if is_ws(line[i]) {
        skip_ws_s(line, i + 1)
    } else {
        i
    }
}

/// Index of the first blank at or after `i`, or the line's length: the
/// end of a token starting at `i`.
pub open spec fn token_end_s(line: Seq<char>, i: int) -> int
    decreases line.len() - i,
{
    if i < 0 || i >= line.len() {
        line.len() as int
    } else if is_ws(line[i]) {
        i
    } else {
        token_end_s(line, i + 1)
    }
}

/// `line_end_s` stays within `[i, len]`.
pub proof fn lemma_line_end_bounds(s: Seq<char>, i: int)
    requires
        0 <= i <= s.len(),
    ensures
        i <= line_end_s(s, i) <= s.len(),
    decreases s.len() - i,
{
    if i < s.len() && s[i] != '\n' {
        lemma_line_end_bounds(s, i + 1);
    }
}

/// `skip_ws_s` stays within `[i, len]` and lands on a non-blank.
pub proof fn lemma_skip_ws_bounds(line: Seq<char>, i: int)
    requires
        0 <= i <= line.len(),
    ensures
        i <= skip_ws_s(line, i) <= line.len(),
        skip_ws_s(line, i) < line.len() ==> !is_ws(line[skip_ws_s(line, i)]),
    decreases line.len() - i,
{
    if i < line.len() && is_ws(line[i]) {
        lemma_skip_ws_bounds(line, i + 1);
    }
}

/// `token_end_s` stays within `[i, len]`.
pub proof fn lemma_token_end_bounds(line: Seq<char>, i: int)
    requires
        0 <= i <= line.len(),
    ensures
        i <= token_end_s(line, i) <= line.len(),
    decreases line.len() - i,
{
    if i < line.len() && !is_ws(line[i]) {
        lemma_token_end_bounds(line, i + 1);
    }
}

/// Every character of `t` is a decimal digit.
pub open spec fn all_digits_s(t: Seq<char>) -> bool {
    forall|k: int| 0 <= k < t.len() ==> is_digit(#[trigger] t[k])
}

/// The unsigned decimal value of a digit string.
pub open spec fn digits_val_s(t: Seq<char>) -> int
    decreases t.len(),
{
    if t.len() == 0 {
        0
    } else {
        digits_val_s(t.drop_last()) * 10 + digit_val(t.last())
    }
}

/// The token with a leading sign removed.
pub open spec fn token_body_s(t: Seq<char>) -> Seq<char> {
    if t.len() > 0 && (t[0] == '+' || t[0] == '-') {
        t.subrange(1, t.len() as int)
    } else {
        t
    }
}

/// The signed value of a token.
pub open spec fn token_val_s(t: Seq<char>) -> int {
    if t.len() > 0 && t[0] == '-' {
        -digits_val_s(token_body_s(t))
    } else {
        digits_val_s(token_body_s(t))
    }
}

/// A decimal integer literal fitting `i32`: an optional sign, at least
/// one digit, nothing else, value in range.
pub open spec fn is_int_token_s(t: Seq<char>) -> bool {
    let b = token_body_s(t);
    &&& b.len() > 0
    &&& all_digits_s(b)
    &&& i32::MIN as int <= token_val_s(t) <= i32::MAX as int
}

/// A digit string's value is nonnegative.
pub proof fn lemma_digits_val_nonneg(t: Seq<char>)
    requires
        all_digits_s(t),
    ensures
        digits_val_s(t) >= 0,
    decreases t.len(),
{
    if t.len() > 0 {
        assert(all_digits_s(t.drop_last()));
        lemma_digits_val_nonneg(t.drop_last());
    }
}

/// A digit string's value dominates the value of each of its prefixes.
pub proof fn lemma_digits_val_prefix_le(t: Seq<char>, k: int)
    requires
        all_digits_s(t),
        0 <= k <= t.len(),
    ensures
        digits_val_s(t.subrange(0, k)) <= digits_val_s(t),
    decreases t.len() - k,
{
    if k < t.len() {
        lemma_digits_val_prefix_le(t, k + 1);
        let a = t.subrange(0, k);
        let b = t.subrange(0, k + 1);
        assert(b.drop_last() =~= a);
        assert(b.last() == t[k]);
        assert(all_digits_s(a));
        lemma_digits_val_nonneg(a);
        assert(digits_val_s(b) == digits_val_s(a) * 10 + digit_val(t[k]));
        assert(digits_val_s(a) * 10 >= digits_val_s(a)) by (nonlinear_arith)
            requires
                digits_val_s(a) >= 0,
        ;
    } else {
        assert(t.subrange(0, k) =~= t);
    }
}

/// The values of the tokens of `line` at or after `i`, with the
/// conventional `0` terminator dropped.
pub open spec fn clause_from_s(line: Seq<char>, i: int) -> Seq<i32>
    decreases line.len() - i,
    via clause_from_s_dec
{
    if i < 0 {
        Seq::empty()
    } else {
        let j = skip_ws_s(line, i);
        if j >= line.len() {
            Seq::empty()
        } else {
            let e = token_end_s(line, j);
            let t = line.subrange(j, e);
            let rest = clause_from_s(line, e);
            if token_val_s(t) == 0 {
                rest
            } else {
                seq![token_val_s(t) as i32] + rest
            }
        }
    }
}

#[via_fn]
proof fn clause_from_s_dec(line: Seq<char>, i: int) {
    if i >= 0 && i <= line.len() {
        lemma_skip_ws_bounds(line, i);
        let j = skip_ws_s(line, i);
        if j < line.len() {
            lemma_token_end_bounds(line, j + 1);
            assert(token_end_s(line, j) == token_end_s(line, j + 1));
        }
    }
}

/// Every token of `line` at or after `i` is a decimal integer literal
/// fitting `i32`.
pub open spec fn line_ok_from_s(line: Seq<char>, i: int) -> bool
    decreases line.len() - i,
    via line_ok_from_s_dec
{
    if i < 0 {
        true
    } else {
        let j = skip_ws_s(line, i);
        if j >= line.len() {
            true
        } else {
            let e = token_end_s(line, j);
            is_int_token_s(line.subrange(j, e)) && line_ok_from_s(line, e)
        }
    }
}

#[via_fn]
proof fn line_ok_from_s_dec(line: Seq<char>, i: int) {
    if i >= 0 && i <= line.len() {
        lemma_skip_ws_bounds(line, i);
        let j = skip_ws_s(line, i);
        if j < line.len() {
            lemma_token_end_bounds(line, j + 1);
            assert(token_end_s(line, j) == token_end_s(line, j + 1));
        }
    }
}

/// A line as split on line feeds, with one trailing carriage return
/// removed.
pub open spec fn strip_cr_s(line: Seq<char>) -> Seq<char> {
    if line.len() > 0 && line.last() == '\r' {
        line.drop_last()
    } else {
        line
    }
}

/// A line that yields a clause: not blank, and its first non-blank
/// character starts neither a comment (`c`) nor a header (`p`).
pub open spec fn relevant_s(line: Seq<char>) -> bool {
    let j = skip_ws_s(line, 0);
    j < line.len() && line[j] != 'c' && line[j] != 'p'
}

/// The clauses of the input from position `i` on.
pub open spec fn dimacs_from_s(s: Seq<char>, i: int) -> Seq<Seq<i32>>
    decreases s.len() - i,
    via dimacs_from_s_dec
{
    if i < 0 || i >= s.len() {
        Seq::empty()
    } else {
        let e = line_end_s(s, i);
        let line = strip_cr_s(s.subrange(i, e));
        let rest = if e < s.len() {
            dimacs_from_s(s, e + 1)
        } else {
            Seq::empty()
        };
        if relevant_s(line) {
            seq![clause_from_s(line, 0)] + rest
        } else {
            rest
        }
    }
}

#[via_fn]
proof fn dimacs_from_s_dec(s: Seq<char>, i: int) {
    if 0 <= i && i < s.len() {
        lemma_line_end_bounds(s, i);
    }
}

/// Every relevant line of the input from position `i` on tokenizes into
/// decimal integer literals fitting `i32`.
pub open spec fn dimacs_ok_from_s(s: Seq<char>, i: int) -> bool
    decreases s.len() - i,
    via dimacs_ok_from_s_dec
{
    if i < 0 || i >= s.len() {
        true
    } else {
        let e = line_end_s(s, i);
        let line = strip_cr_s(s.subrange(i, e));
        let line_ok = if relevant_s(line) {
            line_ok_from_s(line, 0)
        } else {
            true
        };
        line_ok && (if e < s.len() {
            dimacs_ok_from_s(s, e + 1)
        } else {
            true
        })
    }
}

#[via_fn]
proof fn dimacs_ok_from_s_dec(s: Seq<char>, i: int) {
    if 0 <= i && i < s.len() {
        lemma_line_end_bounds(s, i);
    }
}

/// The whole input parses.
pub open spec fn dimacs_ok_s(s: Seq<char>) -> bool {
    dimacs_ok_from_s(s, 0)
}

/// The clauses of the whole input.
pub open spec fn dimacs_val_s(s: Seq<char>) -> Seq<Seq<i32>> {
    dimacs_from_s(s, 0)
}

/// Error of a formula that does not tokenize: some token of a clause
/// line is not a decimal integer literal fitting `i32`.
#[derive(Clone, Copy, PartialEq, Eq, Structural, Debug)]
pub struct ParseError;

/// The DIMACS tokenizer.
pub struct Dimacs;

impl Dimacs {
    /// Parses a formula: one clause per line, comment/header/blank lines
    /// skipped, `0` terminators dropped. Returns the clauses exactly as
    /// `dimacs_val_s` describes them, or an error if and only if some
    /// token of a clause line is not a decimal integer fitting `i32`.
    #[verifier::loop_isolation(false)]
    pub fn parse(input: &str) -> (r: Result<Vec<Vec<i32>>, ParseError>)
        ensures
            r is Ok <==> dimacs_ok_s(input@),
            r matches Ok(v) ==> v.deep_view() == dimacs_val_s(input@),
    {
        let ghost s = input@;
        let n = input.unicode_len();
        let mut chars: Vec<char> = Vec::new();
        let mut ci: usize = 0;
        while ci < n
            invariant
                ci <= n,
                n == s.len(),
                chars@ == s.subrange(0, ci as int),
            decreases n - ci,
        {
            let c = input.get_char(ci);
            chars.push(c);
            proof {
                assert(s.subrange(0, ci as int + 1) =~= s.subrange(0, ci as int).push(s[ci as int]));
            }
            ci += 1;
        }
        proof {
            assert(s.subrange(0, n as int) =~= s);
        }

        let mut out: Vec<Vec<i32>> = Vec::new();
        let mut pos: usize = 0;
        while pos < n
            invariant
                pos <= n,
                n == s.len(),
                chars@ == s,
                dimacs_ok_s(s) == dimacs_ok_from_s(s, pos as int),
                dimacs_val_s(s) =~= out.deep_view() + dimacs_from_s(s, pos as int),
            decreases n - pos,
        {
            let ghost pos0 = pos as int;
            // Find the end of the line.
            let mut e: usize = pos;
            while e < n && chars[e] != '\n'
                invariant
                    pos <= e <= n,
                    line_end_s(s, pos0) == line_end_s(s, e as int),
                decreases n - e,
            {
                e += 1;
            }
            proof {
                assert(line_end_s(s, pos0) == e as int);
                lemma_line_end_bounds(s, pos0);
            }
            // Copy the line, dropping one trailing carriage return.
            let lend: usize = if e > pos && chars[e - 1] == '\r' {
                e - 1
            } else {
                e
            };
            let mut line: Vec<char> = Vec::new();
            let mut k: usize = pos;
            while k < lend
                invariant
                    pos <= k <= lend,
                    lend <= n,
                    n == s.len(),
                    chars@ == s,
                    line@ == s.subrange(pos0, k as int),
                decreases lend - k,
            {
                line.push(chars[k]);
                proof {
                    assert(s.subrange(pos0, k as int + 1) =~= s.subrange(pos0, k as int).push(
                        s[k as int],
                    ));
                }
                k += 1;
            }
            proof {
                let raw = s.subrange(pos0, e as int);
                if e > pos && s[e as int - 1] == '\r' {
                    assert(raw.len() > 0 && raw.last() == '\r');
                    assert(line@ =~= raw.drop_last());
                } else {
                    assert(line@ =~= raw);
                }
                assert(line@ == strip_cr_s(raw));
            }

            // Skip the line unless it is a clause line.
            let mut j: usize = 0;
            let llen = line.len();
            while j < llen && is_ws_exec(line[j])
                invariant
                    j <= llen,
                    llen == line@.len(),
                    skip_ws_s(line@, 0) == skip_ws_s(line@, j as int),
                decreases llen - j,
            {
                j += 1;
            }
            proof {
                assert(skip_ws_s(line@, 0) == j as int);
            }
            if j < llen && line[j] != 'c' && line[j] != 'p' {
                proof {
                    assert(relevant_s(line@));
                }
                match parse_clause(&line) {
                    Some(vals) => {
                        let ghost dv0 = out.deep_view();
                        let ghost vv = vals@;
                        out.push(vals);
                        proof {
                            assert(out.deep_view() =~~= dv0 + seq![vv]);
                        }
                    },
                    None => {
                        proof {
                            assert(!dimacs_ok_from_s(s, pos0));
                        }
                        return Err(ParseError);
                    },
                }
            } else {
                proof {
                    assert(!relevant_s(line@));
                }
            }
            if e >= n {
                pos = n;
            } else {
                pos = e + 1;
            }
        }
        proof {
            assert(dimacs_from_s(s, pos as int) =~= Seq::<Seq<i32>>::empty());
            assert(dimacs_val_s(s) =~= out.deep_view());
        }
        Ok(out)
    }
}

/// Blank test, as `is_ws` describes it.
fn is_ws_exec(c: char) -> (r: bool)
    ensures
        r == is_ws(c),
{
    c == ' ' || c == '\t' || c == '\r'
}

/// Tokenizes one clause line: every token parsed as a decimal `i32`,
/// `0` values dropped. `None` if and only if some token does not parse.
#[verifier::loop_isolation(false)]
fn parse_clause(line: &Vec<char>) -> (r: Option<Vec<i32>>)
    ensures
        r is Some <==> line_ok_from_s(line@, 0),
        r matches Some(v) ==> v@ == clause_from_s(line@, 0),
{
    let llen = line.len();
    let mut vals: Vec<i32> = Vec::new();
    let mut i: usize = 0;
    loop
        invariant
            i <= llen,
            llen == line@.len(),
            line_ok_from_s(line@, 0) == line_ok_from_s(line@, i as int),
            clause_from_s(line@, 0) =~= vals@ + clause_from_s(line@, i as int),
        decreases llen - i,
    {
        let ghost i0 = i as int;
        let mut j: usize = i;
        while j < llen && is_ws_exec(line[j])
            invariant
                i <= j <= llen,
                skip_ws_s(line@, i0) == skip_ws_s(line@, j as int),
            decreases llen - j,
        {
            j += 1;
        }
        proof {
            assert(skip_ws_s(line@, i0) == j as int);
        }
        if j >= llen {
            proof {
                assert(clause_from_s(line@, i0) =~= Seq::<i32>::empty());
                assert(vals@ + Seq::<i32>::empty() =~= vals@);
            }
            return Some(vals);
        }
        let mut e: usize = j;
        while e < llen && !is_ws_exec(line[e])
            invariant
                j <= e <= llen,
                token_end_s(line@, j as int) == token_end_s(line@, e as int),
            decreases llen - e,
        {
            e += 1;
        }
        proof {
            assert(token_end_s(line@, j as int) == e as int);
        }
        match parse_token(line, j, e) {
            Some(v) => {
                proof {
                    assert(clause_from_s(line@, i0) =~= (if v as int == 0 {
                        clause_from_s(line@, e as int)
                    } else {
                        seq![v] + clause_from_s(line@, e as int)
                    }));
                }
                if v != 0 {
                    proof {
                        assert((vals@.push(v)) =~= vals@ + seq![v]);
                    }
                    vals.push(v);
                }
            },
            None => {
                proof {
                    assert(!line_ok_from_s(line@, i0));
                }
                return None;
            },
        }
        i = e;
    }
}

/// Parses the token `line[a..b]` as a decimal `i32`: an optional sign,
/// then digits. `None` if and only if the token is not such a literal or
/// its value does not fit.
#[verifier::loop_isolation(false)]
fn parse_token(line: &Vec<char>, a: usize, b: usize) -> (r: Option<i32>)
    requires
        a <= b <= line@.len(),
    ensures
        r is Some <==> is_int_token_s(line@.subrange(a as int, b as int)),
        r matches Some(v) ==> v as int == token_val_s(line@.subrange(a as int, b as int)),
{
    let ghost t = line@.subrange(a as int, b as int);
    let mut p: usize = a;
    let mut neg = false;
    if p < b {
        let c0 = line[p];
        if c0 == '+' {
            p += 1;
        } else if c0 == '-' {
            neg = true;
            p += 1;
        }
    }
    let ghost body = token_body_s(t);
    proof {
        if t.len() > 0 && (t[0] == '+' || t[0] == '-') {
            assert(body =~= line@.subrange(p as int, b as int));
        } else {
            assert(body =~= line@.subrange(p as int, b as int));
        }
        assert(body.len() == b - p);
    }
    if p >= b {
        proof {
            assert(body.len() == 0);
        }
        return None;
    }
    let mut acc: i64 = 0;
    let mut q: usize = p;
    while q < b
        invariant
            p <= q <= b,
            b <= line@.len(),
            body == line@.subrange(p as int, b as int),
            body.len() == b - p,
            all_digits_s(body.subrange(0, q as int - p as int)),
            acc as int == digits_val_s(body.subrange(0, q as int - p as int)),
            0 <= acc <= 2_147_483_648,
        decreases b - q,
    {
        let c = line[q];
        proof {
            assert(body[q as int - p as int] == line@[q as int]);
        }
        let cu: u32 = c as u32;
        if !(48 <= cu && cu <= 57) {
            proof {
                assert(!is_digit(body[q as int - p as int]));
                assert(!all_digits_s(body));
            }
            return None;
        }
        let d: i64 = cu as i64 - 48;
        proof {
            let pre = body.subrange(0, q as int - p as int);
            let pre1 = body.subrange(0, q as int - p as int + 1);
            assert(pre1.drop_last() =~= pre);
            assert(pre1.last() == body[q as int - p as int]);
        }
        acc = acc * 10 + d;
        if acc > 2_147_483_648 {
            proof {
                let k = q as int - p as int + 1;
                if all_digits_s(body) {
                    lemma_digits_val_prefix_le(body, k);
                    assert(digits_val_s(body) >= acc as int);
                    assert(!is_int_token_s(t));
                } else {
                    assert(!is_int_token_s(t));
                }
            }
            return None;
        }
        q += 1;
    }
    proof {
        assert(body.subrange(0, b as int - p as int) =~= body);
        assert(all_digits_s(body));
        assert(digits_val_s(body) == acc as int);
    }
    if neg {
        proof {
            assert(t[0] == '-');
            assert(token_val_s(t) == -(acc as int));
        }
        Some((-acc) as i32)
    } else {
        if acc > 2_147_483_647 {
            proof {
                assert(token_val_s(t) == acc as int);
                assert(!is_int_token_s(t));
            }
            return None;
        }
        proof {
            assert(token_val_s(t) == acc as int);
        }
        Some(acc as i32)
    }
}

} // verus!
