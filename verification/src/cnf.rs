//! Reading DIMACS-style CNF text into clauses.
//!
//! The input arrives line by line as raw bytes. A line whose first token is
//! `c` is a comment; a line whose first token is `p` must read
//! `p cnf <...> <...>` (four tokens with format tag `cnf`), anything else
//! there is fatal; every other line is whitespace-separated integer
//! literals, where the integer `0` closes the current clause and literals
//! left unterminated at the end of a line are discarded. A non-integer
//! token, an integer that does not fit in `i32`, or a literal whose
//! magnitude cannot serve as a variable id, is fatal.

use vstd::prelude::*;

use crate::formula::{formula_view, formula_wf};

verus! {

/// Why a CNF text was rejected.
#[derive(Clone, Copy, PartialEq, Eq, Structural, Debug)]
pub enum CnfError {
    /// A `p` line that is not exactly `p cnf <a> <b>`.
    BadProblemLine,
    /// A token that is not an integer literal the solver can use.
    BadLiteral,
}

/// ASCII whitespace, the token separator.
pub open spec fn is_ws(b: u8) -> bool {
    b == 32 || b == 9 || b == 10 || b == 13 || b == 11 || b == 12
}

/// The length of the maximal non-whitespace prefix.
pub open spec fn token_len(s: Seq<u8>) -> int
    decreases s.len(),
{
    if s.len() == 0 || is_ws(s[0]) {
        0
    } else {
        1 + token_len(s.skip(1))
    }
}

/// The whitespace-separated tokens of a line, in order.
pub open spec fn spec_tokens(s: Seq<u8>) -> Seq<Seq<u8>>
    decreases s.len(),
    via spec_tokens_dec
{
    if s.len() == 0 {
        Seq::empty()
    } else if is_ws(s[0]) {
        spec_tokens(s.skip(1))
    } else {
        seq![s.take(token_len(s))] + spec_tokens(s.skip(token_len(s)))
    }
}

#[via_fn]
proof fn spec_tokens_dec(s: Seq<u8>) {
    if s.len() > 0 && !is_ws(s[0]) {
        lemma_token_len_bounds(s);
    }
}

/// An ASCII decimal digit.
pub open spec fn is_digit(b: u8) -> bool {
    48 <= b <= 57
}

pub open spec fn all_digits(s: Seq<u8>) -> bool {
    forall|i: int| 0 <= i < s.len() ==> is_digit(#[trigger] s[i])
}

/// The number a digit string denotes.
pub open spec fn digits_val(s: Seq<u8>) -> int
    decreases s.len(),
{
    if s.len() == 0 {
        0
    } else {
        digits_val(s.drop_last()) * 10 + (s.last() - 48)
    }
}

/// The `i32` an integer token denotes: an optional single sign, then at
/// least one digit, within the type's range.
pub open spec fn spec_parse_lit(t: Seq<u8>) -> Option<i32> {
    if t.len() == 0 {
        None
    } else {
        let neg = t[0] == 45;
        let ds = if t[0] == 45 || t[0] == 43 {
            t.skip(1)
        } else {
            t
        };
        if ds.len() == 0 || !all_digits(ds) {
            None
        } else {
            let m = digits_val(ds);
            if neg {
                if m > 0x8000_0000 {
                    None
                } else {
                    Some((-m) as i32)
                }
            } else {
                if m > 0x7fff_ffff {
                    None
                } else {
                    Some(m as i32)
                }
            }
        }
    }
}

/// Folds the literal tokens of one line into the formula: `0` closes the
/// current clause, an unterminated trailing clause is dropped, and a token
/// that is no usable literal is fatal.
pub open spec fn spec_parse_line(
    toks: Seq<Seq<u8>>,
    j: int,
    cacc: Seq<i32>,
    facc: Seq<Seq<i32>>,
) -> Result<Seq<Seq<i32>>, CnfError>
    decreases toks.len() - j,
{
    if j < 0 || j >= toks.len() {
        Ok(facc)
    } else {
        match spec_parse_lit(toks[j]) {
            None => Err(CnfError::BadLiteral),
            Some(v) => if v == 0 {
                spec_parse_line(toks, j + 1, Seq::empty(), facc.push(cacc))
            } else if v == i32::MIN {
                Err(CnfError::BadLiteral)
            } else {
                spec_parse_line(toks, j + 1, cacc.push(v), facc)
            },
        }
    }
}

/// Folds the lines into the formula, skipping comments and blank lines and
/// checking `p` lines.
pub open spec fn spec_read_lines(
    lines: Seq<Seq<u8>>,
    i: int,
    facc: Seq<Seq<i32>>,
) -> Result<Seq<Seq<i32>>, CnfError>
    decreases lines.len() - i,
{
    if i < 0 || i >= lines.len() {
        Ok(facc)
    } else {
        let toks = spec_tokens(lines[i]);
        if toks.len() == 0 || toks[0] == seq![99u8] {
            // a blank line, or a comment: first token is `c`
            spec_read_lines(lines, i + 1, facc)
        } else if toks[0] == seq![112u8] {
            // a problem line: first token is `p`
            if toks.len() == 4 && toks[1] == seq![99u8, 110u8, 102u8] {
                spec_read_lines(lines, i + 1, facc)
            } else {
                Err(CnfError::BadProblemLine)
            }
        } else {
            match spec_parse_line(toks, 0, Seq::empty(), facc) {
                Err(e) => Err(e),
                Ok(f2) => spec_read_lines(lines, i + 1, f2),
            }
        }
    }
}

/// What a CNF text means: its clauses, or the error that rejects it.
pub open spec fn spec_read_cnf(lines: Seq<Seq<u8>>) -> Result<Seq<Seq<i32>>, CnfError> {
    spec_read_lines(lines, 0, Seq::empty())
}

/// The sequence of byte views of a vector of byte vectors.
pub open spec fn bytes_view(s: Seq<Vec<u8>>) -> Seq<Seq<u8>> {
    Seq::new(s.len(), |i: int| s[i]@)
}

proof fn lemma_token_len_bounds(s: Seq<u8>)
    ensures
        0 <= token_len(s) <= s.len(),
        forall|m: int| 0 <= m < token_len(s) ==> !is_ws(#[trigger] s[m]),
        token_len(s) < s.len() ==> is_ws(s[token_len(s)]),
        s.len() > 0 && !is_ws(s[0]) ==> token_len(s) >= 1,
    decreases s.len(),
{
    if s.len() == 0 || is_ws(s[0]) {
    } else {
        lemma_token_len_bounds(s.skip(1));
        assert forall|m: int| 0 <= m < token_len(s) implies !is_ws(#[trigger] s[m]) by {
            if m > 0 {
                assert(s.skip(1)[m - 1] == s[m]);
            }
        }
        if token_len(s) < s.len() {
            assert(s.skip(1)[token_len(s) - 1] == s[token_len(s)]);
        }
    }
}

/// The tokens of one line, as the tokenization spec gives them.
fn tokens(line: &Vec<u8>) -> (r: Vec<Vec<u8>>)
    ensures
        bytes_view(r@) == spec_tokens(line@),
{
    let n = line.len();
    let mut r: Vec<Vec<u8>> = Vec::new();
    let mut i: usize = 0;
    proof {
        assert(bytes_view(r@) =~= Seq::<Seq<u8>>::empty());
        assert(line@.skip(0) =~= line@);
        assert(Seq::<Seq<u8>>::empty() + spec_tokens(line@) =~= spec_tokens(line@));
    }
    while i < n
        invariant
            n == line@.len(),
            i <= n,
            spec_tokens(line@) == bytes_view(r@) + spec_tokens(line@.skip(i as int)),
        decreases n - i,
    {
        let b = line[i];
        if b == 32 || b == 9 || b == 10 || b == 13 || b == 11 || b == 12 {
            proof {
                let s = line@.skip(i as int);
                assert(s[0] == line@[i as int]);
                assert(s.skip(1) =~= line@.skip(i as int + 1));
            }
            i = i + 1;
        } else {
            let start = i;
            let mut j = i;
            while j < n
                invariant_except_break
                    n == line@.len(),
                    start <= j <= n,
                    forall|m: int| start <= m < j ==> !is_ws(#[trigger] line@[m]),
                ensures
                    start <= j <= n,
                    forall|m: int| start <= m < j ==> !is_ws(#[trigger] line@[m]),
                    j < n ==> is_ws(line@[j as int]),
                decreases n - j,
            {
                let b2 = line[j];
                if b2 == 32 || b2 == 9 || b2 == 10 || b2 == 13 || b2 == 11 || b2 == 12 {
                    break ;
                }
                j = j + 1;
            }
            let mut tok: Vec<u8> = Vec::new();
            let mut k = start;
            while k < j
                invariant
                    n == line@.len(),
                    start <= k <= j <= n,
                    tok@ == line@.subrange(start as int, k as int),
                decreases j - k,
            {
                tok.push(line[k]);
                proof {
                    assert(tok@ =~= line@.subrange(start as int, k as int + 1));
                }
                k = k + 1;
            }
            let ghost rp = r@;
            let ghost tv = tok@;
            r.push(tok);
            proof {
                let s = line@.skip(start as int);
                lemma_token_len_bounds(s);
                let tl = token_len(s);
                // the scan found exactly the maximal non-whitespace prefix
                assert forall|m: int| 0 <= m < j - start implies !is_ws(#[trigger] s[m]) by {
                    assert(s[m] == line@[start + m]);
                }
                if tl < j - start {
                    assert(is_ws(s[tl]));
                }
                if tl > j - start {
                    assert(j < n);
                    assert(s[j - start] == line@[j as int]);
                    assert(!is_ws(s[j - start]));
                }
                assert(tl == j - start);
                assert(tv =~= s.take(tl));
                assert(spec_tokens(s) == seq![s.take(tl)] + spec_tokens(s.skip(tl)));
                assert(s.skip(tl) =~= line@.skip(j as int));
                assert(bytes_view(r@) =~= bytes_view(rp) + seq![tv]);
                assert(bytes_view(rp) + (seq![tv] + spec_tokens(line@.skip(j as int)))
                    =~= (bytes_view(rp) + seq![tv]) + spec_tokens(line@.skip(j as int)));
            }
            i = j;
        }
    }
    proof {
        assert(line@.skip(n as int) =~= Seq::<u8>::empty());
        assert(bytes_view(r@) + Seq::<Seq<u8>>::empty() =~= bytes_view(r@));
    }
    r
}

/// Extending a digit string never shrinks its value.
proof fn lemma_digits_val_monotone(s: Seq<u8>, i: int)
    requires
        all_digits(s),
        0 <= i <= s.len(),
    ensures
        digits_val(s) >= digits_val(s.take(i)),
    decreases s.len() - i,
{
    if i == s.len() {
        assert(s.take(i) =~= s);
    } else {
        lemma_digits_val_monotone(s, i + 1);
        assert(s.take(i + 1).drop_last() =~= s.take(i));
        assert(s.take(i + 1).last() == s[i]);
        assert(all_digits(s.take(i))) by {
            assert(forall|m: int| 0 <= m < i ==> s.take(i)[m] == (#[trigger] s[m]));
        }
        lemma_digits_val_nonneg(s.take(i));
    }
}

proof fn lemma_digits_val_nonneg(s: Seq<u8>)
    ensures
        all_digits(s) ==> digits_val(s) >= 0,
    decreases s.len(),
{
    if s.len() > 0 {
        lemma_digits_val_nonneg(s.drop_last());
        assert(forall|m: int| 0 <= m < s.len() - 1 ==> s.drop_last()[m] == s[m]);
    }
}

/// The `i32` an integer token denotes, or `None` where the token is no
/// integer or does not fit.
fn parse_lit(t: &Vec<u8>) -> (r: Option<i32>)
    ensures
        r == spec_parse_lit(t@),
{
    let n = t.len();
    if n == 0 {
        return None;
    }
    let neg = t[0] == 45;
    let start: usize = if t[0] == 45 || t[0] == 43 {
        1
    } else {
        0
    };
    let ghost ds = t@.skip(start as int);
    proof {
        if start == 0 {
            assert(ds =~= t@);
        }
    }
    if n == start {
        return None;
    }
    let mut m: i64 = 0;
    let mut k = start;
    while k < n
        invariant
            n == t@.len(),
            n > 0,
            start <= k <= n,
            start <= 1,
            neg == (t@[0] == 45),
            start == 1 <==> (t@[0] == 45 || t@[0] == 43),
            ds == t@.skip(start as int),
            start == 0 ==> ds == t@,
            ds.len() > 0,
            forall|i: int| 0 <= i < k - start ==> is_digit(#[trigger] ds[i]),
            m == digits_val(ds.take(k - start as int)),
            0 <= m <= 0x8000_0000,
        decreases n - k,
    {
        let b = t[k];
        if b < 48 || b > 57 {
            proof {
                assert(ds[k - start as int] == t@[k as int]);
                assert(!all_digits(ds));
            }
            return None;
        }
        proof {
            assert(ds[k - start as int] == t@[k as int]);
            assert(ds.take(k - start as int + 1).drop_last() =~= ds.take(k - start as int));
            assert(ds.take(k - start as int + 1).last() == ds[k - start as int]);
            lemma_digits_val_nonneg(ds.take(k - start as int));
        }
        m = m * 10 + ((b - 48) as i64);
        if m > 0x8000_0000 {
            proof {
                if all_digits(ds) {
                    lemma_digits_val_monotone(ds, k - start as int + 1);
                    assert(digits_val(ds) >= digits_val(ds.take(k - start as int + 1)));
                }
            }
            return None;
        }
        k = k + 1;
    }
    proof {
        assert(ds.take(n - start as int) =~= ds);
        assert(all_digits(ds));
    }
    if neg {
        Some((0 - m) as i32)
    } else {
        if m > 0x7fff_ffff {
            return None;
        }
        Some(m as i32)
    }
}

/// Reads CNF text, given line by line, into clauses; exactly the
/// tokenization, classification and literal rules of the reading spec, with
/// the clauses it names on success and the error it names on failure. Every
/// literal of the result is usable by the solver.
pub fn read_cnf_lines(lines: &Vec<Vec<u8>>) -> (r: Result<Vec<Vec<i32>>, CnfError>)
    ensures
        match r {
            Ok(f) => spec_read_cnf(bytes_view(lines@)) == Ok::<Seq<Seq<i32>>, CnfError>(
                formula_view(f@),
            ) && formula_wf(formula_view(f@)),
            Err(e) => spec_read_cnf(bytes_view(lines@)) == Err::<Seq<Seq<i32>>, CnfError>(e),
        },
{
    let ghost lv = bytes_view(lines@);
    let mut clauses: Vec<Vec<i32>> = Vec::new();
    let mut i: usize = 0;
    proof {
        assert(formula_view(clauses@) =~= Seq::<Seq<i32>>::empty());
    }
    while i < lines.len()
        invariant
            lv == bytes_view(lines@),
            i <= lines@.len(),
            formula_wf(formula_view(clauses@)),
            spec_read_cnf(lv) == spec_read_lines(lv, i as int, formula_view(clauses@)),
        decreases lines@.len() - i,
    {
        proof {
            assert(lv[i as int] == lines@[i as int]@);
        }
        let toks = tokens(&lines[i]);
        let ghost tv = bytes_view(toks@);
        let is_comment = toks.len() == 0 || (toks[0].len() == 1 && toks[0][0] == 99);
        if is_comment {
            proof {
                if toks@.len() > 0 {
                    assert(tv[0] == toks@[0]@);
                    assert(tv[0] =~= seq![99u8]);
                }
            }
        } else if toks[0].len() == 1 && toks[0][0] == 112 {
            proof {
                assert(tv[0] == toks@[0]@);
                assert(tv[0] =~= seq![112u8]);
            }
            let good = toks.len() == 4 && toks[1].len() == 3 && toks[1][0] == 99 && toks[1][1]
                == 110 && toks[1][2] == 102;
            if !good {
                proof {
                    if tv.len() == 4 && tv[1] == seq![99u8, 110u8, 102u8] {
                        assert(tv[1] == toks@[1]@);
                        assert(toks@[1]@.len() == 3);
                        assert(toks@[1]@[0] == 99 && toks@[1]@[1] == 110 && toks@[1]@[2] == 102);
                    }
                }
                return Err(CnfError::BadProblemLine);
            }
            proof {
                assert(tv[1] == toks@[1]@);
                assert(tv[1] =~= seq![99u8, 110u8, 102u8]);
            }
        } else {
            proof {
                assert(tv.len() > 0);
                assert(tv[0] == toks@[0]@);
                if tv[0] == seq![99u8] {
                    assert(toks@[0]@.len() == 1 && toks@[0]@[0] == 99);
                }
                if tv[0] == seq![112u8] {
                    assert(toks@[0]@.len() == 1 && toks@[0]@[0] == 112);
                }
            }
            let mut clause: Vec<i32> = Vec::new();
            let mut j: usize = 0;
            while j < toks.len()
                invariant
                    lv == bytes_view(lines@),
                    tv == bytes_view(toks@),
                    i < lines@.len(),
                    j <= toks@.len(),
                    formula_wf(formula_view(clauses@)),
                    forall|m: int| 0 <= m < clause@.len() ==> crate::formula::lit_wf(
                        #[trigger] clause@[m],
                    ),
                    spec_read_cnf(lv) == match spec_parse_line(
                        tv,
                        j as int,
                        clause@,
                        formula_view(clauses@),
                    ) {
                        Err(e) => Err::<Seq<Seq<i32>>, CnfError>(e),
                        Ok(f2) => spec_read_lines(lv, i as int + 1, f2),
                    },
                decreases toks@.len() - j,
            {
                proof {
                    assert(tv[j as int] == toks@[j as int]@);
                }
                let lit = match parse_lit(&toks[j]) {
                    None => {
                        return Err(CnfError::BadLiteral);
                    },
                    Some(v) => v,
                };
                if lit == 0 {
                    let ghost cp = clauses@;
                    let ghost cl = clause@;
                    clauses.push(clause);
                    clause = Vec::new();
                    proof {
                        assert(formula_view(clauses@) =~= formula_view(cp).push(cl));
                        assert(formula_wf(formula_view(clauses@)));
                        assert(clause@ =~= Seq::<i32>::empty());
                    }
                } else if lit == i32::MIN {
                    return Err(CnfError::BadLiteral);
                } else {
                    clause.push(lit);
                }
                j = j + 1;
            }
        }
        i = i + 1;
    }
    proof {
        assert(spec_read_lines(lv, lines@.len() as int, formula_view(clauses@))
            == Ok::<Seq<Seq<i32>>, CnfError>(formula_view(clauses@)));
    }
    Ok(clauses)
}

} // verus!
