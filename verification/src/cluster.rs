use vstd::prelude::*;

use crate::dedup::{dec_digits, is_digit, push_decimal};
use crate::unionfind::{
    flattened, lemma_root_of_walk, reaches_root, root_of, union_spec, wf_parents, UnionFind,
};

verus! {

/// Cluster-file fields are separated by spaces or tabs.
pub open spec fn is_sep(b: u8) -> bool {
    b == 32 || b == 9
}

/// Index of the first separator at or after `i` (or the end of the line).
pub open spec fn tok_end(line: Seq<u8>, i: int) -> int
    decreases line.len() - i,
{
    if i < line.len() && !is_sep(line[i]) {
        tok_end(line, i + 1)
    } else {
        i
    }
}

/// `tok_end` lands on the first separator, and nothing before it is one.
pub proof fn lemma_tok_end(line: Seq<u8>, i: int)
    requires
        0 <= i <= line.len(),
    ensures
        i <= tok_end(line, i) <= line.len(),
        forall|j: int| i <= j < tok_end(line, i) ==> !is_sep(line[j]),
        tok_end(line, i) < line.len() ==> is_sep(line[tok_end(line, i)]),
    decreases line.len() - i,
{
    if i < line.len() && !is_sep(line[i]) {
        lemma_tok_end(line, i + 1);
    }
}

/// The whitespace-separated tokens of the line from position `i` on;
/// empty fields between runs of separators are dropped.
pub open spec fn tokens_from(line: Seq<u8>, i: int) -> Seq<Seq<u8>>
    decreases line.len() - i,
    when 0 <= i <= line.len()
{
    if i >= line.len() {
        seq![]
    } else if is_sep(line[i]) {
        tokens_from(line, i + 1)
    } else {
        proof {
            lemma_tok_end(line, i);
        }
        seq![line.subrange(i, tok_end(line, i))] + tokens_from(line, tok_end(line, i))
    }
}

/// The whitespace-separated tokens of a whole line.
pub open spec fn tokens_of(line: Seq<u8>) -> Seq<Seq<u8>> {
    tokens_from(line, 0)
}

/// Split a line on spaces and tabs, dropping empty fields.
pub fn tokenize(line: &Vec<u8>) -> (toks: Vec<Vec<u8>>)
    ensures
        toks@.map_values(|t: Vec<u8>| t@) == tokens_of(line@),
{
    let n = line.len();
    let mut toks: Vec<Vec<u8>> = Vec::new();
    let mut i: usize = 0;
    while i < n
        invariant
            0 <= i <= n,
            n == line@.len(),
            tokens_of(line@) == toks@.map_values(|t: Vec<u8>| t@) + tokens_from(line@, i as int),
        decreases n - i,
    {
        if line[i] == 32 || line[i] == 9 {
            i = i + 1;
        } else {
            let start = i;
            let mut tok: Vec<u8> = Vec::new();
            while i < n && line[i] != 32 && line[i] != 9
                invariant
                    start <= i <= n,
                    n == line@.len(),
                    tok_end(line@, start as int) == tok_end(line@, i as int),
                    tok@ == line@.subrange(start as int, i as int),
                decreases n - i,
            {
                tok.push(line[i]);
                proof {
                    assert(line@.subrange(start as int, i + 1) =~= line@.subrange(
                        start as int,
                        i as int,
                    ) + seq![line@[i as int]]);
                }
                i = i + 1;
            }
            proof {
                assert(tok_end(line@, i as int) == i);
                assert(tokens_from(line@, start as int) == seq![tok@] + tokens_from(
                    line@,
                    i as int,
                ));
            }
            let ghost old_toks = toks@;
            toks.push(tok);
            proof {
                assert(toks@.map_values(|t: Vec<u8>| t@) =~= old_toks.map_values(|t: Vec<u8>| t@)
                    + seq![line@.subrange(start as int, tok_end(line@, start as int))]);
            }
        }
    }
    proof {
        assert(tokens_of(line@) =~= toks@.map_values(|t: Vec<u8>| t@));
    }
    toks
}

/// Scanning for a token's end past a prefix sees only the suffix.
proof fn lemma_tok_end_shift(a: Seq<u8>, b: Seq<u8>, k: int)
    requires
        0 <= k <= b.len(),
    ensures
        tok_end(a + b, a.len() + k) == a.len() + tok_end(b, k),
    decreases b.len() - k,
{
    if k < b.len() && !is_sep(b[k]) {
        assert((a + b)[a.len() + k] == b[k]);
        lemma_tok_end_shift(a, b, k + 1);
    }
}

/// Tokenizing past a prefix sees only the suffix.
proof fn lemma_tokens_from_shift(a: Seq<u8>, b: Seq<u8>, k: int)
    requires
        0 <= k <= b.len(),
    ensures
        tokens_from(a + b, a.len() + k) == tokens_from(b, k),
    decreases b.len() - k,
{
    let cat = a + b;
    if k >= b.len() {
    } else if is_sep(b[k]) {
        assert(cat[a.len() + k] == b[k]);
        lemma_tokens_from_shift(a, b, k + 1);
    } else {
        assert(cat[a.len() + k] == b[k]);
        lemma_tok_end_shift(a, b, k);
        lemma_tok_end(b, k);
        assert(cat.subrange(a.len() + k, a.len() + tok_end(b, k)) =~= b.subrange(k, tok_end(b, k)));
        assert(tok_end(b, k) > k) by {
            lemma_tok_end(b, k + 1);
        }
        lemma_tokens_from_shift(a, b, tok_end(b, k));
        assert(tokens_from(cat, a.len() + k) == seq![cat.subrange(a.len() + k, a.len() + tok_end(b, k))]
            + tokens_from(cat, a.len() + tok_end(b, k)));
    }
}

/// A run of non-separators ends exactly where the run ends.
proof fn lemma_tok_end_of_run(s: Seq<u8>, i: int)
    requires
        0 <= i <= s.len(),
        forall|j: int| 0 <= j < s.len() ==> !is_sep(#[trigger] s[j]),
    ensures
        tok_end(s, i) == s.len(),
    decreases s.len() - i,
{
    if i < s.len() {
        lemma_tok_end_of_run(s, i + 1);
    }
}

/// A non-empty run of non-separators is one token, whatever follows a
/// separator after it.
proof fn lemma_tokens_of_run_then(s: Seq<u8>, rest: Seq<u8>)
    requires
        s.len() > 0,
        forall|j: int| 0 <= j < s.len() ==> !is_sep(#[trigger] s[j]),
        rest.len() > 0 && is_sep(rest[0]),
    ensures
        tokens_of(s + rest) == seq![s] + tokens_of(rest.skip(1)),
{
    let cat = s + rest;
    assert(cat[0] == s[0]);
    assert(tok_end(cat, 0) == s.len()) by {
        lemma_tok_end_shift_run(s, rest, 0);
    }
    assert(cat.subrange(0, s.len() as int) =~= s);
    assert(tokens_from(cat, 0) == seq![cat.subrange(0, s.len() as int)] + tokens_from(cat, s.len() as int));
    assert(cat[s.len() as int] == rest[0]);
    assert(tokens_from(cat, s.len() as int) == tokens_from(cat, s.len() as int + 1));
    assert(cat =~= (s + seq![rest[0]]) + rest.skip(1));
    assert((s + seq![rest[0]]).len() == s.len() + 1);
    lemma_tokens_from_shift(s + seq![rest[0]], rest.skip(1), 0);
    assert(tokens_from(cat, s.len() as int + 1) == tokens_of(rest.skip(1)));
}

/// Within the run, the token scan runs to the run's end.
proof fn lemma_tok_end_shift_run(s: Seq<u8>, rest: Seq<u8>, i: int)
    requires
        0 <= i <= s.len(),
        forall|j: int| 0 <= j < s.len() ==> !is_sep(#[trigger] s[j]),
        rest.len() > 0 && is_sep(rest[0]),
    ensures
        tok_end(s + rest, i) == s.len(),
    decreases s.len() - i,
{
    let cat = s + rest;
    if i < s.len() {
        assert(cat[i] == s[i]);
        lemma_tok_end_shift_run(s, rest, i + 1);
    } else {
        assert(cat[i] == rest[0]);
    }
}

/// A non-empty run of non-separators alone is one token.
proof fn lemma_tokens_of_run(s: Seq<u8>)
    requires
        s.len() > 0,
        forall|j: int| 0 <= j < s.len() ==> !is_sep(#[trigger] s[j]),
    ensures
        tokens_of(s) == seq![s],
{
    lemma_tok_end_of_run(s, 0);
    assert(s.subrange(0, s.len() as int) =~= s);
    assert(tokens_from(s, 0) == seq![s.subrange(0, s.len() as int)] + tokens_from(
        s,
        s.len() as int,
    ));
    assert(seq![s] + Seq::<Seq<u8>>::empty() =~= seq![s]);
}

/// A token is numeric when it is non-empty and all digits.
pub open spec fn all_digits(tok: Seq<u8>) -> bool {
    tok.len() > 0 && forall|j: int| 0 <= j < tok.len() ==> is_digit(#[trigger] tok[j])
}

/// The value of a numeric token, most significant digit first.
pub open spec fn token_nat(tok: Seq<u8>) -> nat
    decreases tok.len(),
{
    if tok.len() == 0 {
        0
    } else {
        token_nat(tok.drop_last()) * 10 + (tok.last() - 48) as nat
    }
}

/// Parse a numeric token as `usize`. `None` exactly when the token is not
/// all digits, is empty, or its value does not fit the machine word.
pub fn parse_usize_token(tok: &Vec<u8>) -> (r: Option<usize>)
    ensures
        match r {
            Some(v) => all_digits(tok@) && v == token_nat(tok@) && token_nat(tok@) <= usize::MAX,
            None => !all_digits(tok@) || token_nat(tok@) > usize::MAX,
        },
{
    let n = tok.len();
    if n == 0 {
        return None;
    }
    let mut acc: usize = 0;
    let mut j: usize = 0;
    while j < n
        invariant
            0 <= j <= n,
            n == tok@.len(),
            acc == token_nat(tok@.take(j as int)),
            forall|k: int| 0 <= k < j ==> is_digit(#[trigger] tok@[k]),
        decreases n - j,
    {
        let b = tok[j];
        if b < 48 || b > 57 {
            return None;
        }
        let d = (b - 48) as usize;
        if acc > (usize::MAX - d) / 10 {
            // the next digit would overflow the machine word
            proof {
                assert(acc * 10 + d > usize::MAX) by (nonlinear_arith)
                    requires
                        acc > (usize::MAX - d) / 10,
                        0 <= d <= 9,
                        acc >= 0,
                ;
                lemma_token_nat_overflow(tok@, j as int);
            }
            return None;
        }
        proof {
            assert(acc * 10 + d <= usize::MAX) by (nonlinear_arith)
                requires
                    acc <= (usize::MAX - d) / 10,
                    0 <= d <= 9,
                    acc >= 0,
            ;
        }
        acc = acc * 10 + d;
        proof {
            assert(tok@.take(j + 1).drop_last() =~= tok@.take(j as int));
        }
        j = j + 1;
    }
    proof {
        assert(tok@.take(n as int) =~= tok@);
    }
    Some(acc)
}

/// Decimal round trip: the digits the cluster-file writer renders for a
/// value parse back to that value.
pub proof fn lemma_decimal_round_trip(v: nat)
    ensures
        all_digits(dec_digits(v)),
        token_nat(dec_digits(v)) == v,
    decreases v,
{
    if v < 10 {
        assert(dec_digits(v) == seq![(48 + v) as u8]);
        assert(dec_digits(v).drop_last() =~= Seq::<u8>::empty());
        assert(token_nat(Seq::<u8>::empty()) == 0);
        assert(token_nat(dec_digits(v)) == (dec_digits(v).last() - 48) as nat);
    } else {
        lemma_decimal_round_trip(v / 10);
        let d = dec_digits(v);
        assert(d.drop_last() =~= dec_digits(v / 10));
        assert(d.last() == (48 + v % 10) as u8);
        assert(token_nat(d) == token_nat(dec_digits(v / 10)) * 10 + (d.last() - 48) as nat);
        assert(v / 10 * 10 + v % 10 == v) by {
            vstd::arithmetic::div_mod::lemma_fundamental_div_mod(v as int, 10);
        }
        assert forall|j: int| 0 <= j < d.len() implies is_digit(#[trigger] d[j]) by {
            if j < d.len() - 1 {
                assert(d[j] == dec_digits(v / 10)[j]);
            }
        }
    }
}

/// Once a prefix value exceeds the bound, every extension does too.
proof fn lemma_token_nat_grows(tok: Seq<u8>, j: int)
    requires
        0 <= j <= tok.len(),
    ensures
        token_nat(tok) >= token_nat(tok.take(j)),
    decreases tok.len() - j,
{
    if j < tok.len() {
        lemma_token_nat_grows(tok, j + 1);
        assert(tok.take(j + 1).drop_last() =~= tok.take(j));
        assert(token_nat(tok.take(j + 1)) == token_nat(tok.take(j)) * 10 + (tok.take(j + 1).last()
            - 48) as nat);
        assert(token_nat(tok.take(j)) * 10 >= token_nat(tok.take(j))) by (nonlinear_arith);
    } else {
        assert(tok.take(j) =~= tok);
    }
}

proof fn lemma_token_nat_overflow(tok: Seq<u8>, j: int)
    requires
        0 <= j < tok.len(),
        token_nat(tok.take(j)) * 10 + (tok[j] - 48) as nat > usize::MAX,
    ensures
        token_nat(tok) > usize::MAX,
{
    assert(tok.take(j + 1).drop_last() =~= tok.take(j));
    assert(tok.take(j + 1).last() == tok[j]);
    lemma_token_nat_grows(tok, j + 1);
}

/// The root of every index, as one sequence.
pub open spec fn roots_seq(p: Seq<usize>) -> Seq<int> {
    Seq::new(p.len(), |z: int| root_of(p, z))
}

/// What one `union(x, y)` does at the root level: every index rooted with
/// `y` is re-rooted at the root of `x`.
pub open spec fn merge_roots(r: Seq<int>, x: int, y: int) -> Seq<int> {
    Seq::new(r.len(), |z: int| if r[z] == r[y] { r[x] } else { r[z] })
}

/// Roots of the identity assignment: every index is its own cluster.
pub open spec fn identity_roots(n: nat) -> Seq<int> {
    Seq::new(n, |z: int| z)
}

/// The bytes of the `DISCARD` sentinel.
pub open spec fn discard_token() -> Seq<u8> {
    seq![68u8, 73u8, 83u8, 67u8, 65u8, 82u8, 68u8]
}

/// A query record is valid up to its first `DISCARD`: every token before
/// it is a numeric id below `n`.
pub open spec fn record_valid(toks: Seq<Seq<u8>>, n: nat) -> bool
    decreases toks.len(),
{
    if toks.len() == 0 {
        true
    } else if toks[0] == discard_token() {
        true
    } else {
        all_digits(toks[0]) && token_nat(toks[0]) < n && record_valid(toks.skip(1), n)
    }
}

/// The effect of query record `i` on the roots: `union(i, j)` for each id
/// `j` in the record; a `DISCARD` token instead unions `0` with `i` and
/// ends the record.
pub open spec fn apply_record(r: Seq<int>, i: int, toks: Seq<Seq<u8>>) -> Seq<int>
    decreases toks.len(),
{
    if toks.len() == 0 {
        r
    } else if toks[0] == discard_token() {
        merge_roots(r, 0, i)
    } else {
        apply_record(merge_roots(r, i, token_nat(toks[0]) as int), i, toks.skip(1))
    }
}

/// Exactly the bytes of `DISCARD`?
fn is_discard(tok: &Vec<u8>) -> (r: bool)
    ensures
        r == (tok@ == discard_token()),
{
    if tok.len() != 7 {
        proof {
            assert(tok@ != discard_token());
        }
        return false;
    }
    let r = tok[0] == 68 && tok[1] == 73 && tok[2] == 83 && tok[3] == 67 && tok[4] == 65 && tok[5]
        == 82 && tok[6] == 68;
    proof {
        if r {
            assert(tok@ =~= discard_token());
        } else {
            assert(tok@ != discard_token());
        }
    }
    r
}

/// Why a cluster file was rejected.
#[derive(PartialEq, Eq, Structural, Clone, Copy, Debug)]
pub enum ClusterError {
    /// The header line does not begin with a record count.
    BadHeader,
    /// A token is neither an id below the record count nor `DISCARD`.
    BadToken,
    /// More query records than the header announced.
    RecordOutOfRange,
}

/// Perform the unions of query record `i` on the union-find structure.
fn apply_record_exec(uf: &mut UnionFind, i: usize, toks: &Vec<Vec<u8>>) -> (r: Result<
    (),
    ClusterError,
>)
    requires
        old(uf).wf(),
        i < old(uf)@.len(),
    ensures
        final(uf).wf(),
        final(uf)@.len() == old(uf)@.len(),
        match r {
            Ok(()) => record_valid(toks@.map_values(|t: Vec<u8>| t@), old(uf)@.len())
                && roots_seq(final(uf)@) == apply_record(
                roots_seq(old(uf)@),
                i as int,
                toks@.map_values(|t: Vec<u8>| t@),
            ),
            Err(e) => e == ClusterError::BadToken && !record_valid(
                toks@.map_values(|t: Vec<u8>| t@),
                old(uf)@.len(),
            ),
        },
{
    let ghost tokv = toks@.map_values(|t: Vec<u8>| t@);
    let ghost r0 = roots_seq(old(uf)@);
    let ghost n = old(uf)@.len();
    let nn = uf.len();
    let m = toks.len();
    let mut k: usize = 0;
    let mut discarded = false;
    proof {
        assert(tokv.skip(0) =~= tokv);
    }
    while k < m && !discarded
        invariant
            0 <= k <= m,
            m == tokv.len(),
            m == toks@.len(),
            tokv == toks@.map_values(|t: Vec<u8>| t@),
            r0 == roots_seq(old(uf)@),
            n == old(uf)@.len(),
            n == nn,
            uf.wf(),
            uf@.len() == n,
            i < n,
            if discarded {
                record_valid(tokv, n) && apply_record(r0, i as int, tokv) == roots_seq(uf@)
            } else {
                record_valid(tokv, n) == record_valid(tokv.skip(k as int), n) && apply_record(
                    r0,
                    i as int,
                    tokv,
                ) == apply_record(roots_seq(uf@), i as int, tokv.skip(k as int))
            },
        decreases m - k,
    {
        let tok = &toks[k];
        proof {
            assert(tokv[k as int] == toks@[k as int]@);
            assert(tokv.skip(k as int)[0] == tokv[k as int]);
            assert(tokv.skip(k as int).skip(1) =~= tokv.skip(k + 1));
        }
        if is_discard(tok) {
            let ghost pre = uf@;
            uf.union(0, i);
            proof {
                assert(roots_seq(uf@) =~= merge_roots(roots_seq(pre), 0, i as int));
            }
            discarded = true;
        } else {
            let v = match parse_usize_token(tok) {
                Some(v) => v,
                None => {
                    proof {
                        assert(!(all_digits(tok@) && token_nat(tok@) < n));
                        assert(!record_valid(tokv.skip(k as int), n));
                    }
                    return Err(ClusterError::BadToken);
                },
            };
            if v >= nn {
                proof {
                    assert(!record_valid(tokv.skip(k as int), n));
                }
                return Err(ClusterError::BadToken);
            }
            let ghost pre = uf@;
            uf.union(i, v);
            proof {
                assert(roots_seq(uf@) =~= merge_roots(roots_seq(pre), i as int, v as int));
            }
        }
        k = k + 1;
    }
    proof {
        if !discarded {
            assert(tokv.skip(m as int) =~= Seq::<Seq<u8>>::empty());
        }
    }
    Ok(())
}

/// The views of a list of owned lines.
pub open spec fn views_of(lines: Seq<Vec<u8>>) -> Seq<Seq<u8>> {
    lines.map_values(|l: Vec<u8>| l@)
}

/// A line is a well-formed parents array for `n` documents when it has
/// exactly `n` numeric tokens, each below `n`.
pub open spec fn parents_line_valid(toks: Seq<Seq<u8>>, n: nat) -> bool {
    toks.len() == n && forall|j: int|
        0 <= j < n ==> all_digits(#[trigger] toks[j]) && token_nat(toks[j]) < n
}

/// The parents array a well-formed parents line denotes.
pub open spec fn parents_values(toks: Seq<Seq<u8>>) -> Seq<usize> {
    toks.map_values(|t: Seq<u8>| token_nat(t) as usize)
}

/// The effect of a parents line on the roots: for each position `j`, the
/// cluster of `j` is merged under the cluster of the listed parent.
pub open spec fn apply_parents_line(r: Seq<int>, toks: Seq<Seq<u8>>, j: int) -> Seq<int>
    decreases toks.len() - j,
    when 0 <= j <= toks.len()
{
    if j >= toks.len() {
        r
    } else {
        apply_parents_line(merge_roots(r, token_nat(toks[j]) as int, j), toks, j + 1)
    }
}

/// The first problem in the query records from record `i` on, reading in
/// order: a record index at or past `n`, or an invalid token.
pub open spec fn body_error_from(n: nat, lines: Seq<Seq<u8>>, i: int) -> Option<ClusterError>
    decreases lines.len() - i,
    when 0 <= i <= lines.len()
{
    if i >= lines.len() {
        None
    } else if i >= n {
        Some(ClusterError::RecordOutOfRange)
    } else if !record_valid(tokens_of(lines[i]), n) {
        Some(ClusterError::BadToken)
    } else {
        body_error_from(n, lines, i + 1)
    }
}

/// The combined effect of the query records from `i` on.
pub open spec fn apply_records_from(r: Seq<int>, lines: Seq<Seq<u8>>, i: int) -> Seq<int>
    decreases lines.len() - i,
    when 0 <= i <= lines.len()
{
    if i >= lines.len() {
        r
    } else {
        apply_records_from(apply_record(r, i, tokens_of(lines[i])), lines, i + 1)
    }
}

/// The body is a single line holding a whole parents array.
pub open spec fn is_parents_form(lines: Seq<Seq<u8>>, n: nat) -> bool {
    lines.len() == 1 && parents_line_valid(tokens_of(lines[0]), n)
}

/// The cluster assignment that a file body denotes, as the root of every
/// document, or `None` when the body is malformed. A single line carrying
/// `n` ids is the parents array itself; otherwise line `i` is the query
/// record of document `i`.
pub open spec fn cluster_body_roots(n: nat, lines: Seq<Seq<u8>>) -> Option<Seq<int>> {
    if is_parents_form(lines, n) {
        Some(apply_parents_line(identity_roots(n), tokens_of(lines[0]), 0))
    } else if body_error_from(n, lines, 0) is None {
        Some(apply_records_from(identity_roots(n), lines, 0))
    } else {
        None
    }
}

/// Parse every token as an id below `n`. `None` exactly when some token
/// is not numeric or not below `n`.
fn try_parse_ids(toks: &Vec<Vec<u8>>, n: usize) -> (r: Option<Vec<usize>>)
    ensures
        match r {
            Some(vals) => vals@.len() == toks@.len() && forall|j: int|
                0 <= j < toks@.len() ==> all_digits(#[trigger] toks@[j]@) && token_nat(toks@[j]@)
                    < n && vals@[j] == token_nat(toks@[j]@),
            None => !(forall|j: int|
                0 <= j < toks@.len() ==> all_digits(#[trigger] toks@[j]@) && token_nat(toks@[j]@)
                    < n),
        },
{
    let m = toks.len();
    let mut vals: Vec<usize> = Vec::new();
    let mut j: usize = 0;
    while j < m
        invariant
            0 <= j <= m,
            m == toks@.len(),
            vals@.len() == j,
            forall|k: int|
                0 <= k < j ==> all_digits(#[trigger] toks@[k]@) && token_nat(toks@[k]@) < n
                    && vals@[k] == token_nat(toks@[k]@),
        decreases m - j,
    {
        match parse_usize_token(&toks[j]) {
            Some(v) => {
                if v >= n {
                    return None;
                }
                vals.push(v);
            },
            None => {
                return None;
            },
        }
        j = j + 1;
    }
    Some(vals)
}

/// One step of reading a flattened parents line reproduces the array
/// verbatim: with positions below `j` already holding their listed
/// parents and the rest still the identity, `union(vals[j], j)` sets
/// exactly position `j` to `vals[j]`.
proof fn lemma_parents_line_step(pre: Seq<usize>, vals: Seq<usize>, j: int)
    requires
        pre.len() == vals.len(),
        vals.len() <= usize::MAX,
        0 <= j < vals.len(),
        forall|k: int| 0 <= k < vals.len() ==> (#[trigger] vals[k]) < vals.len(),
        flattened(vals),
        forall|z: int|
            0 <= z < pre.len() ==> (#[trigger] pre[z]) == (if z < j {
                vals[z]
            } else {
                z as usize
            }),
    ensures
        union_spec(pre, vals[j] as int, j).len() == vals.len(),
        forall|z: int|
            0 <= z < vals.len() ==> (#[trigger] union_spec(pre, vals[j] as int, j)[z]) == (if z < j
                + 1 {
                vals[z]
            } else {
                z as usize
            }),
{
    let x = vals[j] as int;
    assert(pre[j] == j);
    if x == j {
        assert(union_spec(pre, x, j) == pre);
    } else {
        assert(pre[x] == x) by {
            assert(vals[vals[j] as int] == vals[j]);
        }
        assert(forall|i: int| 0 <= i < pre.len() ==> (#[trigger] pre[i]) < pre.len());
        assert(reaches_root(pre, x, 0));
        lemma_root_of_walk(pre, x, 0nat);
        assert(reaches_root(pre, j, 0));
        lemma_root_of_walk(pre, j, 0nat);
        assert(root_of(pre, x) == x);
        assert(root_of(pre, j) == j);
        let p1 = pre.update(x, root_of(pre, x) as usize);
        let p2 = p1.update(j, root_of(pre, j) as usize);
        assert(p1 =~= pre);
        assert(p2 =~= pre);
        assert(union_spec(pre, x, j) == p2.update(j, root_of(pre, x) as usize));
        assert(p2.update(j, root_of(pre, x) as usize) == pre.update(j, vals[j]));
    }
}

/// Build the union-find structure that a cluster-file body denotes.
///
/// A single body line with `n` ids is read as the final parents array;
/// any other body is read as one query record per document: `union(i, j)`
/// for every id `j` in record `i`, and `union(0, i)` on `DISCARD`.
pub fn read_cluster_body(n: usize, lines: &Vec<Vec<u8>>) -> (r: Result<UnionFind, ClusterError>)
    ensures
        match r {
            Ok(uf) => uf.wf() && uf@.len() == n && cluster_body_roots(n as nat, views_of(lines@))
                == Some(roots_seq(uf@)) && (is_parents_form(views_of(lines@), n as nat)
                && flattened(parents_values(tokens_of(views_of(lines@)[0]))) ==> uf@
                == parents_values(tokens_of(views_of(lines@)[0]))),
            Err(e) => cluster_body_roots(n as nat, views_of(lines@)) is None && Some(e)
                == body_error_from(n as nat, views_of(lines@), 0),
        },
{
    let ghost linesv = views_of(lines@);
    let mut uf = UnionFind::new(n);
    proof {
        assert(roots_seq(uf@) =~= identity_roots(n as nat));
    }
    if lines.len() == 1 {
        let toks = tokenize(&lines[0]);
        let ghost tokv = toks@.map_values(|t: Vec<u8>| t@);
        proof {
            assert(linesv[0] == lines@[0]@);
        }
        if toks.len() == n {
            match try_parse_ids(&toks, n) {
                Some(vals) => {
                    let ghost valsv = vals@;
                    proof {
                        assert(parents_line_valid(tokv, n as nat));
                        assert(is_parents_form(linesv, n as nat));
                        assert(valsv =~= parents_values(tokv));
                        assert(uf@ =~= Seq::new(
                            n as nat,
                            |z: int|
                                if z < 0 {
                                    valsv[z]
                                } else {
                                    z as usize
                                },
                        ));
                    }
                    let mut j: usize = 0;
                    while j < n
                        invariant
                            0 <= j <= n,
                            n == vals@.len(),
                            n == tokv.len(),
                            valsv == vals@,
                            uf.wf(),
                            uf@.len() == n,
                            forall|k: int|
                                0 <= k < n ==> token_nat(#[trigger] tokv[k]) < n && vals@[k]
                                    == token_nat(tokv[k]),
                            apply_parents_line(identity_roots(n as nat), tokv, 0)
                                == apply_parents_line(roots_seq(uf@), tokv, j as int),
                            flattened(valsv) ==> uf@ == Seq::new(
                                n as nat,
                                |z: int|
                                    if z < j {
                                        valsv[z]
                                    } else {
                                        z as usize
                                    },
                            ),
                        decreases n - j,
                    {
                        let ghost pre = uf@;
                        uf.union(vals[j], j);
                        proof {
                            assert(roots_seq(uf@) =~= merge_roots(
                                roots_seq(pre),
                                token_nat(tokv[j as int]) as int,
                                j as int,
                            ));
                            if flattened(valsv) {
                                assert forall|z: int|
                                    0 <= z < pre.len() implies (#[trigger] pre[z]) == (if z
                                    < j {
                                    valsv[z]
                                } else {
                                    z as usize
                                }) by {}
                                assert forall|k: int|
                                    0 <= k < valsv.len() implies (#[trigger] valsv[k])
                                    < valsv.len() by {
                                    assert(valsv[k] == token_nat(tokv[k]));
                                    assert(token_nat(tokv[k]) < n as nat);
                                }
                                lemma_parents_line_step(pre, valsv, j as int);
                                assert(uf@ == union_spec(pre, valsv[j as int] as int, j as int));
                                assert(uf@ =~= Seq::new(
                                    n as nat,
                                    |z: int|
                                        if z < j + 1 {
                                            valsv[z]
                                        } else {
                                            z as usize
                                        },
                                ));
                            }
                        }
                        j = j + 1;
                    }
                    proof {
                        if flattened(parents_values(tokens_of(linesv[0]))) {
                            assert(flattened(valsv));
                            assert(uf@ =~= valsv);
                        }
                    }
                    return Ok(uf);
                },
                None => {
                    proof {
                        if parents_line_valid(tokv, n as nat) {
                            assert forall|j: int| 0 <= j < toks@.len() implies all_digits(
                                #[trigger] toks@[j]@,
                            ) && token_nat(toks@[j]@) < n by {
                                assert(tokv[j] == toks@[j]@);
                                assert(all_digits(tokv[j]) && token_nat(tokv[j]) < n as nat);
                            }
                            assert(false);
                        }
                    }
                },
            }
        } else {
            proof {
                assert(!parents_line_valid(tokv, n as nat));
            }
        }
    }
    proof {
        assert(!is_parents_form(linesv, n as nat));
    }
    let num_lines = lines.len();
    let mut i: usize = 0;
    while i < num_lines
        invariant
            0 <= i <= num_lines,
            num_lines == linesv.len(),
            num_lines == lines@.len(),
            linesv == views_of(lines@),
            i <= n,
            uf.wf(),
            uf@.len() == n,
            body_error_from(n as nat, linesv, 0) == body_error_from(n as nat, linesv, i as int),
            apply_records_from(identity_roots(n as nat), linesv, 0) == apply_records_from(
                roots_seq(uf@),
                linesv,
                i as int,
            ),
            !is_parents_form(linesv, n as nat),
        decreases num_lines - i,
    {
        if i >= n {
            return Err(ClusterError::RecordOutOfRange);
        }
        let toks = tokenize(&lines[i]);
        proof {
            assert(linesv[i as int] == lines@[i as int]@);
        }
        match apply_record_exec(&mut uf, i, &toks) {
            Ok(()) => {},
            Err(e) => {
                return Err(e);
            },
        }
        i = i + 1;
    }
    Ok(uf)
}

/// The record count on the header line, when its first token is numeric.
pub open spec fn header_value(line: Seq<u8>) -> Option<nat> {
    if tokens_of(line).len() > 0 && all_digits(tokens_of(line)[0]) {
        Some(token_nat(tokens_of(line)[0]))
    } else {
        None
    }
}

/// Read the record count from the header line; tokens after the first are
/// ignored. Fails exactly when the line does not begin with a number that
/// fits the machine word.
pub fn parse_cluster_header(line: &Vec<u8>) -> (r: Result<usize, ClusterError>)
    ensures
        match r {
            Ok(v) => header_value(line@) == Some(v as nat),
            Err(e) => e == ClusterError::BadHeader && (header_value(line@) is None
                || header_value(line@).unwrap() > usize::MAX),
        },
{
    let toks = tokenize(line);
    if toks.len() == 0 {
        return Err(ClusterError::BadHeader);
    }
    proof {
        assert(toks@.map_values(|t: Vec<u8>| t@)[0] == toks@[0]@);
    }
    match parse_usize_token(&toks[0]) {
        Some(v) => Ok(v),
        None => Err(ClusterError::BadHeader),
    }
}

/// The parents rendered as decimal numbers, each followed by one space.
pub open spec fn parents_text(p: Seq<usize>, i: int) -> Seq<u8>
    decreases p.len() - i,
    when 0 <= i <= p.len()
{
    if i >= p.len() {
        seq![]
    } else {
        dec_digits(p[i] as nat) + seq![32u8] + parents_text(p, i + 1)
    }
}

/// A cluster file in the parents-array layout: the record count, a
/// newline, the parents separated by spaces, and a final newline.
pub open spec fn render_cluster_file_spec(p: Seq<usize>) -> Seq<u8> {
    dec_digits(p.len()) + seq![10u8] + parents_text(p, 0) + seq![10u8]
}

/// Serialize the cluster assignment in the parents-array layout.
pub fn render_cluster_file(uf: &UnionFind) -> (out: Vec<u8>)
    ensures
        out@ == render_cluster_file_spec(uf@),
{
    let ghost p = uf@;
    let n = uf.parents.len();
    let mut out: Vec<u8> = Vec::new();
    push_decimal(&mut out, n);
    out.push(10);
    proof {
        assert(out@ =~= dec_digits(p.len()) + seq![10u8]);
    }
    let mut i: usize = 0;
    while i < n
        invariant
            0 <= i <= n,
            n == p.len(),
            uf@ == p,
            render_cluster_file_spec(p) == out@ + parents_text(p, i as int) + seq![10u8],
        decreases n - i,
    {
        push_decimal(&mut out, self_parent(uf, i));
        out.push(32);
        proof {
            assert(render_cluster_file_spec(p) =~= out@ + parents_text(p, i + 1) + seq![10u8]);
        }
        i = i + 1;
    }
    out.push(10);
    proof {
        assert(out@ =~= render_cluster_file_spec(p));
    }
    out
}

/// Read one parent entry.
fn self_parent(uf: &UnionFind, i: usize) -> (r: usize)
    requires
        i < uf@.len(),
    ensures
        r == uf@[i as int],
{
    uf.parents[i]
}

/// The tokens of a rendered parents line are exactly the rendered
/// numbers, one per document.
proof fn lemma_parents_text_tokens(p: Seq<usize>, i: int)
    requires
        0 <= i <= p.len(),
    ensures
        tokens_of(parents_text(p, i)).len() == p.len() - i,
        forall|q: int|
            0 <= q < p.len() - i ==> #[trigger] tokens_of(parents_text(p, i))[q] == dec_digits(
                p[i + q] as nat,
            ),
    decreases p.len() - i,
{
    if i >= p.len() {
        assert(tokens_of(parents_text(p, i)) =~= Seq::<Seq<u8>>::empty());
    } else {
        lemma_parents_text_tokens(p, i + 1);
        let s = dec_digits(p[i] as nat);
        lemma_decimal_round_trip(p[i] as nat);
        assert forall|j: int| 0 <= j < s.len() implies !is_sep(#[trigger] s[j]) by {
            assert(is_digit(s[j]));
        }
        let rest = seq![32u8] + parents_text(p, i + 1);
        assert(is_sep(rest[0]));
        assert(parents_text(p, i) =~= s + rest);
        lemma_tokens_of_run_then(s, rest);
        assert(rest.skip(1) =~= parents_text(p, i + 1));
        assert(tokens_of(parents_text(p, i)) == seq![s] + tokens_of(parents_text(p, i + 1)));
        assert forall|q: int| 0 <= q < p.len() - i implies #[trigger] tokens_of(
            parents_text(p, i),
        )[q] == dec_digits(p[i + q] as nat) by {
            if q > 0 {
                assert(tokens_of(parents_text(p, i))[q] == tokens_of(parents_text(p, i + 1))[q
                    - 1]);
            }
        }
    }
}

/// Round trip of the parents-array layout: for the flattened array the
/// filter works with, the header the writer renders parses back to the
/// record count, the body line is a well-formed parents line, and it
/// denotes exactly the array that was written — so reading the rendered
/// file rebuilds `parents` verbatim (the last clause of
/// `read_cluster_body`'s contract).
pub proof fn lemma_cluster_file_round_trip(p: Seq<usize>)
    requires
        wf_parents(p),
        flattened(p),
    ensures
        header_value(dec_digits(p.len())) == Some(p.len()),
        is_parents_form(seq![parents_text(p, 0)], p.len()),
        parents_values(tokens_of(parents_text(p, 0))) == p,
{
    lemma_decimal_round_trip(p.len());
    let h = dec_digits(p.len());
    assert forall|j: int| 0 <= j < h.len() implies !is_sep(#[trigger] h[j]) by {
        assert(is_digit(h[j]));
    }
    lemma_tokens_of_run(h);
    assert(tokens_of(h)[0] == h);

    lemma_parents_text_tokens(p, 0);
    let toks = tokens_of(parents_text(p, 0));
    assert forall|j: int| 0 <= j < p.len() implies all_digits(#[trigger] toks[j]) && token_nat(
        toks[j],
    ) < p.len() by {
        assert(toks[j] == dec_digits(p[j] as nat));
        lemma_decimal_round_trip(p[j] as nat);
        assert(p[j] < p.len());
    }
    assert(seq![parents_text(p, 0)][0] == parents_text(p, 0));
    assert(parents_line_valid(toks, p.len()));
    assert(parents_values(toks) =~= p) by {
        assert forall|j: int| 0 <= j < p.len() implies parents_values(toks)[j] == p[j] by {
            assert(toks[j] == dec_digits(p[j] as nat));
            lemma_decimal_round_trip(p[j] as nat);
        }
    }
}

/// The ids rendered as decimal numbers separated by single spaces.
pub open spec fn ids_text(ids: Seq<usize>, i: int) -> Seq<u8>
    decreases ids.len() - i,
    when 0 <= i <= ids.len()
{
    if i >= ids.len() {
        seq![]
    } else if i + 1 == ids.len() {
        dec_digits(ids[i] as nat)
    } else {
        dec_digits(ids[i] as nat) + seq![32u8] + ids_text(ids, i + 1)
    }
}

/// A query record: the matching ids separated by spaces, or the `DISCARD`
/// sentinel when at least `threshold` documents matched.
pub open spec fn render_query_record_spec(ids: Seq<usize>, threshold: nat) -> Seq<u8> {
    if ids.len() >= threshold {
        discard_token()
    } else {
        ids_text(ids, 0)
    }
}

/// Serialize one query record for the cluster file's legacy layout.
pub fn render_query_record(ids: &Vec<usize>, num_duplicates_threshold: usize) -> (out: Vec<u8>)
    ensures
        out@ == render_query_record_spec(ids@, num_duplicates_threshold as nat),
{
    let ghost idsv = ids@;
    let n = ids.len();
    let mut out: Vec<u8> = Vec::new();
    if n >= num_duplicates_threshold {
        out.push(68);
        out.push(73);
        out.push(83);
        out.push(67);
        out.push(65);
        out.push(82);
        out.push(68);
        proof {
            assert(out@ =~= discard_token());
        }
        return out;
    }
    let mut i: usize = 0;
    while i < n
        invariant
            0 <= i <= n,
            n == idsv.len(),
            ids@ == idsv,
            ids_text(idsv, 0) == out@ + ids_text(idsv, i as int),
        decreases n - i,
    {
        push_decimal(&mut out, ids[i]);
        if i + 1 < n {
            out.push(32);
        }
        proof {
            assert(ids_text(idsv, 0) =~= out@ + ids_text(idsv, i + 1));
        }
        i = i + 1;
    }
    out
}

} // verus!
