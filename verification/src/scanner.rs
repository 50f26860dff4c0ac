//! Placeholder token discovery.
//!
//! A placeholder token is the sentinel character, a literal `%{`, a
//! non-empty run of name characters (ASCII letters, digits, `_` and `.`),
//! and a closing `}`.  Malformed or unterminated delimiters produce no
//! match.  Scanning a string yields the distinct token names it contains,
//! in first-occurrence order.

use vstd::prelude::*;
use crate::chars::{to_chars, from_chars};

verus! {

/// The character that opens every placeholder token.
pub const SENTINEL: char = '\u{a7}';

/// Characters allowed inside a token name.
pub open spec fn is_word_char(c: char) -> bool {
    ||| ('a' as int <= c as int && c as int <= 'z' as int)
    ||| ('A' as int <= c as int && c as int <= 'Z' as int)
    ||| ('0' as int <= c as int && c as int <= '9' as int)
    ||| c == '_'
    ||| c == '.'
}

/// The end of the run of name characters that starts at `i`: the first
/// index at or after `i` holding no name character, or the end of `s`.
pub open spec fn run_end(s: Seq<char>, i: int) -> int
    decreases s.len() - i,
{
    if i < 0 || i >= s.len() {
        i
    } else if is_word_char(s[i]) {
        run_end(s, i + 1)
    } else {
        i
    }
}

pub proof fn lemma_run_end(s: Seq<char>, i: int)
    requires
        0 <= i <= s.len(),
    ensures
        i <= run_end(s, i) <= s.len(),
        forall|k: int| i <= k < run_end(s, i) ==> is_word_char(s[k]),
        run_end(s, i) == s.len() || !is_word_char(s[run_end(s, i)]),
    decreases s.len() - i,
{
    if i < s.len() && is_word_char(s[i]) {
        lemma_run_end(s, i + 1);
    }
}

/// A well-formed token begins at index `i` of `s`.
pub open spec fn token_at(s: Seq<char>, i: int) -> bool {
    &&& 0 <= i
    &&& i + 3 <= s.len()
    &&& s[i] == SENTINEL
    &&& s[i + 1] == '%'
    &&& s[i + 2] == '{'
    &&& run_end(s, i + 3) > i + 3
    &&& run_end(s, i + 3) < s.len()
    &&& s[run_end(s, i + 3)] == '}'
}

/// The name inside the token that begins at `i`.
pub open spec fn token_name(s: Seq<char>, i: int) -> Seq<char> {
    s.subrange(i + 3, run_end(s, i + 3))
}

/// The index just past the token that begins at `i` (past its `}`).
pub open spec fn token_end(s: Seq<char>, i: int) -> int {
    run_end(s, i + 3) + 1
}

/// Every token name in `s` from position `i` on, leftmost first, with
/// duplicates kept; scanning resumes after each token's closing brace.
pub open spec fn scan_from(s: Seq<char>, i: int) -> Seq<Seq<char>>
    decreases s.len() - i,
{
    if i < 0 || i >= s.len() {
        seq![]
    } else if token_at(s, i) {
        seq![token_name(s, i)] + scan_from(s, token_end(s, i))
    } else {
        scan_from(s, i + 1)
    }
}

/// Every token name in `s`, leftmost first, duplicates kept.
pub open spec fn scan_tokens(s: Seq<char>) -> Seq<Seq<char>> {
    scan_from(s, 0)
}

/// First-occurrence deduplication of `ts` from index `k` on, with `acc`
/// holding the names already seen.
pub open spec fn dedup_from(ts: Seq<Seq<char>>, k: int, acc: Seq<Seq<char>>) -> Seq<Seq<char>>
    decreases ts.len() - k,
{
    if k < 0 || k >= ts.len() {
        acc
    } else if acc.contains(ts[k]) {
        dedup_from(ts, k + 1, acc)
    } else {
        dedup_from(ts, k + 1, acc.push(ts[k]))
    }
}

/// The distinct token names of `s`, in first-occurrence order.
pub open spec fn distinct_tokens(s: Seq<char>) -> Seq<Seq<char>> {
    dedup_from(scan_tokens(s), 0, seq![])
}

/// No element of `ts` occurs twice.
pub open spec fn no_dup(ts: Seq<Seq<char>>) -> bool {
    forall|a: int, b: int| 0 <= a < b < ts.len() ==> ts[a] != ts[b]
}

pub(crate) proof fn lemma_tail_contains(ts: Seq<Seq<char>>, k: int, t: Seq<char>)
    requires
        0 <= k < ts.len(),
    ensures
        ts.subrange(k, ts.len() as int).contains(t) <==> (ts[k] == t || ts.subrange(
            k + 1,
            ts.len() as int,
        ).contains(t)),
{
    let a = ts.subrange(k, ts.len() as int);
    let b = ts.subrange(k + 1, ts.len() as int);
    if a.contains(t) {
        let i = choose|i: int| 0 <= i < a.len() && a[i] == t;
        if i != 0 {
            assert(b[i - 1] == t);
            assert(b.contains(t));
        }
    }
    if ts[k] == t {
        assert(a[0] == t);
        assert(a.contains(t));
    }
    if b.contains(t) {
        let i = choose|i: int| 0 <= i < b.len() && b[i] == t;
        assert(a[i + 1] == t);
        assert(a.contains(t));
    }
}

proof fn lemma_dedup_from_props(ts: Seq<Seq<char>>, k: int, acc: Seq<Seq<char>>)
    requires
        0 <= k <= ts.len(),
        no_dup(acc),
    ensures
        no_dup(dedup_from(ts, k, acc)),
        forall|t: Seq<char>|
            #[trigger] dedup_from(ts, k, acc).contains(t) <==> (acc.contains(t) || ts.subrange(
                k,
                ts.len() as int,
            ).contains(t)),
    decreases ts.len() - k,
{
    let d = dedup_from(ts, k, acc);
    if k >= ts.len() {
        assert(ts.subrange(k, ts.len() as int).len() == 0);
    } else {
        if acc.contains(ts[k]) {
            lemma_dedup_from_props(ts, k + 1, acc);
            assert forall|t: Seq<char>| #[trigger] d.contains(t) <==> (acc.contains(t)
                || ts.subrange(k, ts.len() as int).contains(t)) by {
                lemma_tail_contains(ts, k, t);
            }
        } else {
            let acc2 = acc.push(ts[k]);
            assert forall|a: int, b: int| 0 <= a < b < acc2.len() implies acc2[a] != acc2[b] by {
                if b == acc.len() {
                    if acc2[a] == acc2[b] {
                        assert(acc[a] == ts[k]);
                        assert(acc.contains(ts[k]));
                    }
                }
            }
            lemma_dedup_from_props(ts, k + 1, acc2);
            assert forall|t: Seq<char>| #[trigger] d.contains(t) <==> (acc.contains(t)
                || ts.subrange(k, ts.len() as int).contains(t)) by {
                lemma_tail_contains(ts, k, t);
                if acc2.contains(t) {
                    let i = choose|i: int| 0 <= i < acc2.len() && acc2[i] == t;
                    if i < acc.len() {
                        assert(acc[i] == t);
                        assert(acc.contains(t));
                    } else {
                        assert(t == ts[k]);
                    }
                }
                if acc.contains(t) {
                    let i = choose|i: int| 0 <= i < acc.len() && acc[i] == t;
                    assert(acc2[i] == t);
                    assert(acc2.contains(t));
                }
                if t == ts[k] {
                    assert(acc2[acc.len() as int] == t);
                    assert(acc2.contains(t));
                }
            }
        }
    }
}

/// The law of the scanner: for any string, the extracted names are
/// exactly the token names the string contains — each exactly once,
/// however many times it occurs in the text.
pub proof fn lemma_scan_distinct(s: Seq<char>)
    ensures
        no_dup(distinct_tokens(s)),
        forall|t: Seq<char>| #[trigger]
            distinct_tokens(s).contains(t) <==> scan_tokens(s).contains(t),
{
    let ts = scan_tokens(s);
    lemma_dedup_from_props(ts, 0, seq![]);
    assert(ts.subrange(0, ts.len() as int) =~= ts);
    assert forall|t: Seq<char>| #[trigger]
        distinct_tokens(s).contains(t) <==> ts.contains(t) by {
        if Seq::<Seq<char>>::empty().contains(t) {
            let i = choose|i: int| 0 <= i < 0 && Seq::<Seq<char>>::empty()[i] == t;
            assert(false);
        }
    }
}

/// Character-for-character equality of two vectors.
pub fn chars_eq(a: &Vec<char>, b: &Vec<char>) -> (r: bool)
    ensures
        r == (a@ == b@),
{
    if a.len() != b.len() {
        proof {
            assert(a@.len() != b@.len());
        }
        return false;
    }
    let mut i: usize = 0;
    while i < a.len()
        invariant
            a@.len() == b@.len(),
            i <= a@.len(),
            forall|k: int| 0 <= k < i ==> a@[k] == b@[k],
        decreases a@.len() - i,
    {
        if a[i] != b[i] {
            return false;
        }
        i = i + 1;
    }
    proof {
        assert(a@ =~= b@);
    }
    true
}

/// The characters of `v` from `from` (inclusive) to `to` (exclusive).
pub(crate) fn sub_chars(v: &Vec<char>, from: usize, to: usize) -> (r: Vec<char>)
    requires
        from <= to <= v@.len(),
    ensures
        r@ == v@.subrange(from as int, to as int),
{
    let mut r: Vec<char> = Vec::new();
    let mut i: usize = from;
    while i < to
        invariant
            from <= i <= to <= v@.len(),
            r@ == v@.subrange(from as int, i as int),
        decreases to - i,
    {
        r.push(v[i]);
        i = i + 1;
        proof {
            assert(r@ =~= v@.subrange(from as int, i as int));
        }
    }
    r
}

/// Whether `c` may stand inside a token name.
pub fn word_char(c: char) -> (r: bool)
    ensures
        r == is_word_char(c),
{
    let u = c as u32;
    (97 <= u && u <= 122) || (65 <= u && u <= 90) || (48 <= u && u <= 57) || c == '_' || c == '.'
}

/// The end of the run of name characters starting at `i`.
fn find_run_end(v: &Vec<char>, i: usize) -> (r: usize)
    requires
        i <= v@.len(),
    ensures
        r == run_end(v@, i as int),
        i <= r <= v@.len(),
{
    proof {
        lemma_run_end(v@, i as int);
    }
    let mut j: usize = i;
    while j < v.len() && word_char(v[j])
        invariant
            i <= j <= v@.len(),
            run_end(v@, i as int) == run_end(v@, j as int),
        decreases v@.len() - j,
    {
        j = j + 1;
    }
    j
}

/// The token that begins at `i`, if one does: its name and the index
/// just past its closing brace.
pub(crate) fn token_here(v: &Vec<char>, i: usize) -> (r: Option<(Vec<char>, usize)>)
    requires
        i < v@.len(),
    ensures
        match r {
            Some(p) => {
                &&& token_at(v@, i as int)
                &&& p.0@ == token_name(v@, i as int)
                &&& p.1 == token_end(v@, i as int)
                &&& i < p.1 <= v@.len()
            },
            None => !token_at(v@, i as int),
        },
{
    let n = v.len();
    if v[i] == SENTINEL && i + 1 < n && v[i + 1] == '%' && i + 2 < n && v[i + 2] == '{' {
        let e = find_run_end(v, i + 3);
        if e > i + 3 && e < v.len() && v[e] == '}' {
            let name = sub_chars(v, i + 3, e);
            Some((name, e + 1))
        } else {
            None
        }
    } else {
        None
    }
}

/// Every token name of `v`, leftmost first, duplicates kept.
fn scan_all(v: &Vec<char>) -> (r: Vec<Vec<char>>)
    ensures
        r@.map_values(|t: Vec<char>| t@) == scan_tokens(v@),
{
    let mut r: Vec<Vec<char>> = Vec::new();
    let mut i: usize = 0;
    while i < v.len()
        invariant
            i <= v@.len(),
            scan_tokens(v@) == r@.map_values(|t: Vec<char>| t@) + scan_from(v@, i as int),
        decreases v@.len() - i,
    {
        match token_here(v, i) {
            Some(p) => {
                let (name, end) = p;
                let ghost prev = r@;
                r.push(name);
                proof {
                    assert(r@.map_values(|t: Vec<char>| t@) =~= prev.map_values(
                        |t: Vec<char>| t@,
                    ).push(name@));
                    assert(scan_from(v@, i as int) == seq![token_name(v@, i as int)] + scan_from(
                        v@,
                        token_end(v@, i as int),
                    ));
                    assert(prev.map_values(|t: Vec<char>| t@) + scan_from(v@, i as int)
                        =~= r@.map_values(|t: Vec<char>| t@) + scan_from(
                        v@,
                        token_end(v@, i as int),
                    ));
                }
                i = end;
            },
            None => {
                proof {
                    assert(scan_from(v@, i as int) == scan_from(v@, i as int + 1));
                }
                i = i + 1;
            },
        }
    }
    proof {
        assert(scan_from(v@, i as int) =~= Seq::<Seq<char>>::empty());
        assert(scan_tokens(v@) =~= r@.map_values(|t: Vec<char>| t@));
    }
    r
}

/// Whether some element of `acc` holds the same characters as `t`.
fn contains_chars(acc: &Vec<Vec<char>>, t: &Vec<char>) -> (r: bool)
    ensures
        r == acc@.map_values(|x: Vec<char>| x@).contains(t@),
{
    let mut i: usize = 0;
    while i < acc.len()
        invariant
            i <= acc@.len(),
            forall|k: int| 0 <= k < i ==> #[trigger] acc@[k]@ != t@,
        decreases acc@.len() - i,
    {
        if chars_eq(&acc[i], t) {
            proof {
                assert(acc@.map_values(|x: Vec<char>| x@)[i as int] == t@);
            }
            return true;
        }
        i = i + 1;
    }
    proof {
        let m = acc@.map_values(|x: Vec<char>| x@);
        if m.contains(t@) {
            let k = choose|k: int| 0 <= k < m.len() && m[k] == t@;
            assert(acc@[k]@ == t@);
        }
    }
    false
}

/// First-occurrence deduplication of the token list `ts`.
fn dedup_all(ts: Vec<Vec<char>>) -> (r: Vec<Vec<char>>)
    ensures
        r@.map_values(|t: Vec<char>| t@) == dedup_from(
            ts@.map_values(|t: Vec<char>| t@),
            0,
            seq![],
        ),
{
    let ghost full = ts@.map_values(|t: Vec<char>| t@);
    let mut r: Vec<Vec<char>> = Vec::new();
    proof {
        assert(r@.map_values(|t: Vec<char>| t@) =~= Seq::<Seq<char>>::empty());
    }
    let mut k: usize = 0;
    while k < ts.len()
        invariant
            k <= ts@.len(),
            full == ts@.map_values(|t: Vec<char>| t@),
            dedup_from(full, 0, seq![]) == dedup_from(full, k as int, r@.map_values(
                |t: Vec<char>| t@,
            )),
        decreases ts@.len() - k,
    {
        let present = contains_chars(&r, &ts[k]);
        if !present {
            let ghost prev = r@;
            let item = sub_chars(&ts[k], 0, ts[k].len());
            proof {
                assert(item@ =~= ts@[k as int]@);
            }
            r.push(item);
            proof {
                assert(r@.map_values(|t: Vec<char>| t@) =~= prev.map_values(
                    |t: Vec<char>| t@,
                ).push(full[k as int]));
            }
        }
        k = k + 1;
    }
    r
}

/// Each character vector of `ts`, as a `String`.
fn to_string_vec(ts: Vec<Vec<char>>) -> (r: Vec<String>)
    ensures
        r@.map_values(|s: String| s@) == ts@.map_values(|t: Vec<char>| t@),
{
    let ghost m = ts@.map_values(|t: Vec<char>| t@);
    let mut r: Vec<String> = Vec::new();
    proof {
        assert(r@.map_values(|s: String| s@) =~= m.subrange(0, 0));
    }
    let mut i: usize = 0;
    while i < ts.len()
        invariant
            i <= ts@.len(),
            m == ts@.map_values(|t: Vec<char>| t@),
            m.len() == ts@.len(),
            r@.map_values(|s: String| s@) == m.subrange(0, i as int),
        decreases ts@.len() - i,
    {
        let s = from_chars(&ts[i]);
        let ghost prev = r@;
        r.push(s);
        proof {
            assert(s@ == m[i as int]);
            assert(r@.map_values(|s: String| s@) =~= prev.map_values(|s: String| s@).push(
                m[i as int],
            ));
            assert(m.subrange(0, i as int).push(m[i as int]) =~= m.subrange(0, i as int + 1));
        }
        i = i + 1;
    }
    proof {
        assert(m.subrange(0, m.len() as int) =~= m);
    }
    r
}

/// Every placeholder token name contained in `input`, leftmost first,
/// duplicates kept.  Malformed delimiters yield no name.
pub fn scan_names(input: &str) -> (r: Vec<String>)
    ensures
        r@.map_values(|s: String| s@) == scan_tokens(input@),
{
    let v = to_chars(input);
    to_string_vec(scan_all(&v))
}

/// The distinct placeholder token names contained in `input`, in
/// first-occurrence order.  Malformed delimiters yield no name.
pub fn extract_replacements(input: &str) -> (r: Vec<String>)
    ensures
        r@.map_values(|s: String| s@) == distinct_tokens(input@),
{
    let v = to_chars(input);
    let all = scan_all(&v);
    to_string_vec(dedup_all(all))
}


/// The index of the first occurrence of `t` in `ts`.
pub open spec fn first_ix(ts: Seq<Seq<char>>, t: Seq<char>) -> int
    decreases ts.len(),
{
    if ts.len() == 0 {
        0
    } else if ts[0] == t {
        0
    } else {
        1 + first_ix(ts.drop_first(), t)
    }
}

proof fn lemma_first_ix_props(ts: Seq<Seq<char>>, t: Seq<char>)
    requires
        ts.contains(t),
    ensures
        0 <= first_ix(ts, t) < ts.len(),
        ts[first_ix(ts, t)] == t,
        forall|i: int| 0 <= i < first_ix(ts, t) ==> ts[i] != t,
    decreases ts.len(),
{
    if ts.len() > 0 && ts[0] != t {
        let rest = ts.drop_first();
        let w = choose|w: int| 0 <= w < ts.len() && ts[w] == t;
        assert(rest[w - 1] == t);
        assert(rest.contains(t));
        lemma_first_ix_props(rest, t);
        let f = first_ix(ts, t);
        assert(ts[f] == rest[f - 1]);
        assert forall|i: int| 0 <= i < f implies ts[i] != t by {
            if i > 0 {
                assert(rest[i - 1] != t);
            }
        }
    }
}

proof fn lemma_first_ix_in_prefix(ts: Seq<Seq<char>>, t: Seq<char>, k: int)
    requires
        0 <= k <= ts.len(),
        ts.subrange(0, k).contains(t),
    ensures
        ts.contains(t),
        first_ix(ts, t) < k,
{
    let w = choose|w: int| 0 <= w < k && ts.subrange(0, k)[w] == t;
    assert(ts[w] == t);
    assert(ts.contains(t));
    lemma_first_ix_props(ts, t);
    if first_ix(ts, t) >= k {
        assert(ts[w] != t);
    }
}

proof fn lemma_first_ix_at(ts: Seq<Seq<char>>, t: Seq<char>, k: int)
    requires
        0 <= k < ts.len(),
        !ts.subrange(0, k).contains(t),
        ts[k] == t,
    ensures
        first_ix(ts, t) == k,
{
    assert(ts.contains(t));
    lemma_first_ix_props(ts, t);
    let f = first_ix(ts, t);
    if f < k {
        assert(ts.subrange(0, k)[f] == t);
        assert(ts.subrange(0, k).contains(t));
    }
    if f > k {
        assert(ts[k] != t);
    }
}

proof fn lemma_prefix_grow(ts: Seq<Seq<char>>, k: int, t: Seq<char>)
    requires
        0 <= k < ts.len(),
    ensures
        ts.subrange(0, k + 1).contains(t) <==> (ts.subrange(0, k).contains(t) || ts[k] == t),
{
    let longer = ts.subrange(0, k + 1);
    let shorter = ts.subrange(0, k);
    if longer.contains(t) {
        let w = choose|w: int| 0 <= w < longer.len() && longer[w] == t;
        if w < k {
            assert(shorter[w] == t);
            assert(shorter.contains(t));
        } else {
            assert(ts[k] == t);
        }
    }
    if shorter.contains(t) {
        let w = choose|w: int| 0 <= w < shorter.len() && shorter[w] == t;
        assert(longer[w] == t);
        assert(longer.contains(t));
    }
    if ts[k] == t {
        assert(longer[k] == t);
        assert(longer.contains(t));
    }
}

/// `d` stands in the order of first occurrence in `ts`.
pub open spec fn ordered_by_first_occurrence(ts: Seq<Seq<char>>, d: Seq<Seq<char>>) -> bool {
    forall|a: int, b: int|
        0 <= a < b < d.len() ==> first_ix(ts, d[a]) < first_ix(ts, d[b])
}

proof fn lemma_dedup_order(ts: Seq<Seq<char>>, k: int, acc: Seq<Seq<char>>)
    requires
        0 <= k <= ts.len(),
        forall|t: Seq<char>| #[trigger] acc.contains(t) <==> ts.subrange(0, k).contains(t),
        ordered_by_first_occurrence(ts, acc),
    ensures
        ordered_by_first_occurrence(ts, dedup_from(ts, k, acc)),
    decreases ts.len() - k,
{
    if k < ts.len() {
        if acc.contains(ts[k]) {
            assert forall|t: Seq<char>| #[trigger] acc.contains(t) <==> ts.subrange(
                0,
                k + 1,
            ).contains(t) by {
                lemma_prefix_grow(ts, k, t);
            }
            lemma_dedup_order(ts, k + 1, acc);
        } else {
            let acc2 = acc.push(ts[k]);
            assert(!ts.subrange(0, k).contains(ts[k]));
            lemma_first_ix_at(ts, ts[k], k);
            assert forall|t: Seq<char>| #[trigger] acc2.contains(t) <==> ts.subrange(
                0,
                k + 1,
            ).contains(t) by {
                lemma_prefix_grow(ts, k, t);
                if acc2.contains(t) {
                    let w = choose|w: int| 0 <= w < acc2.len() && acc2[w] == t;
                    if w < acc.len() {
                        assert(acc[w] == t);
                        assert(acc.contains(t));
                    } else {
                        assert(t == ts[k]);
                    }
                }
                if acc.contains(t) {
                    let w = choose|w: int| 0 <= w < acc.len() && acc[w] == t;
                    assert(acc2[w] == t);
                    assert(acc2.contains(t));
                }
                if t == ts[k] {
                    assert(acc2[acc.len() as int] == t);
                    assert(acc2.contains(t));
                }
            }
            assert forall|a: int, b: int| 0 <= a < b < acc2.len() implies first_ix(ts, acc2[a])
                < first_ix(ts, acc2[b]) by {
                if b == acc.len() {
                    assert(acc.contains(acc[a]));
                    lemma_first_ix_in_prefix(ts, acc[a], k);
                }
            }
            lemma_dedup_order(ts, k + 1, acc2);
        }
    }
}

/// The order law of the scanner: the extracted names stand in the
/// order of their first occurrence in the text, however often each
/// recurs later.
pub proof fn lemma_scan_first_occurrence_order(s: Seq<char>)
    ensures
        ordered_by_first_occurrence(scan_tokens(s), distinct_tokens(s)),
{
    let ts = scan_tokens(s);
    let empty_acc: Seq<Seq<char>> = seq![];
    let pre = ts.subrange(0, 0);
    assert forall|t: Seq<char>| #[trigger] empty_acc.contains(t) <==> pre.contains(t) by {
        if empty_acc.contains(t) {
            let w = choose|w: int| 0 <= w < 0 && empty_acc[w] == t;
            assert(false);
        }
        if pre.contains(t) {
            let w = choose|w: int| 0 <= w < 0 && pre[w] == t;
            assert(false);
        }
    }
    lemma_dedup_order(ts, 0, empty_acc);
}

} // verus!
