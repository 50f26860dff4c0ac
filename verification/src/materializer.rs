//! Instantiating a template: token collection over its entries and the
//! write-phase plan.
//!
//! The scan phase walks the ordered entries and gathers every token
//! name they contain — each entry's path segments first, then, for a
//! file, its content.  Resolution happens before any write.  The write
//! phase computes, for each entry in the same order, the substituted
//! relative path and content, refusing any entry whose computed path
//! would be absolute.

use vstd::prelude::*;
use vstd::string::StrSliceExecFns;
use crate::errors::TplError;
use crate::scanner::{scan_tokens, scan_names, no_dup, lemma_tail_contains};
use crate::subst::{subst, ResolutionMap, replace_replacements};
use crate::walker::{Entry, EntryKind, seg_view};

verus! {

/// One step of the write phase: create a directory, or write a file
/// with its substituted content.
pub enum WriteAction {
    MkDir { segments: Vec<String> },
    WriteFile { segments: Vec<String>, content: String },
}

/// Every token name in the segments `ss` from index `i` on, in order,
/// duplicates kept.
pub open spec fn segs_tokens(ss: Seq<Seq<char>>, i: int) -> Seq<Seq<char>>
    decreases ss.len() - i,
{
    if i < 0 || i >= ss.len() {
        seq![]
    } else {
        scan_tokens(ss[i]) + segs_tokens(ss, i + 1)
    }
}

/// Every token name of one entry: its path segments in order, then,
/// for a file, its content.
pub open spec fn entry_tokens(e: Entry) -> Seq<Seq<char>> {
    segs_tokens(seg_view(e.segments@), 0) + if e.kind is File {
        scan_tokens(e.content@)
    } else {
        seq![]
    }
}

/// Every token name of the entries from index `i` on, in entry order.
pub open spec fn entries_tokens(es: Seq<Entry>, i: int) -> Seq<Seq<char>>
    decreases es.len() - i,
{
    if i < 0 || i >= es.len() {
        seq![]
    } else {
        entry_tokens(es[i]) + entries_tokens(es, i + 1)
    }
}

/// Every token name of one entry, in the order encountered.
fn collect_entry_tokens(e: &Entry) -> (r: Vec<String>)
    ensures
        r@.map_values(|s: String| s@) == entry_tokens(*e),
{
    let ghost segs = seg_view(e.segments@);
    let mut acc: Vec<String> = Vec::new();
    proof {
        assert(acc@.map_values(|s: String| s@) =~= Seq::<Seq<char>>::empty());
        assert(Seq::<Seq<char>>::empty() + segs_tokens(segs, 0) =~= segs_tokens(segs, 0));
    }
    let mut j: usize = 0;
    while j < e.segments.len()
        invariant
            j <= e.segments@.len(),
            segs == seg_view(e.segments@),
            segs.len() == e.segments@.len(),
            segs_tokens(segs, 0) == acc@.map_values(|s: String| s@) + segs_tokens(
                segs,
                j as int,
            ),
        decreases e.segments@.len() - j,
    {
        let mut part = scan_names(e.segments[j].as_str());
        let ghost accv = acc@;
        let ghost partv = part@;
        acc.append(&mut part);
        proof {
            assert(segs[j as int] == e.segments@[j as int]@);
            assert(acc@.map_values(|s: String| s@) =~= accv.map_values(|s: String| s@)
                + partv.map_values(|s: String| s@));
            assert(accv.map_values(|s: String| s@) + segs_tokens(segs, j as int)
                =~= acc@.map_values(|s: String| s@) + segs_tokens(segs, j as int + 1));
        }
        j = j + 1;
    }
    if e.kind == EntryKind::File {
        let mut part = scan_names(e.content.as_str());
        let ghost accv = acc@;
        let ghost partv = part@;
        acc.append(&mut part);
        proof {
            assert(acc@.map_values(|s: String| s@) =~= accv.map_values(|s: String| s@)
                + partv.map_values(|s: String| s@));
            assert(acc@.map_values(|s: String| s@) =~= entry_tokens(*e));
        }
    } else {
        proof {
            assert(acc@.map_values(|s: String| s@) =~= entry_tokens(*e));
        }
    }
    acc
}

/// All token names of the ordered entries, in the order encountered,
/// duplicates kept.
pub fn collect_tokens(entries: &Vec<Entry>) -> (r: Vec<String>)
    ensures
        r@.map_values(|s: String| s@) == entries_tokens(entries@, 0),
{
    let mut r: Vec<String> = Vec::new();
    proof {
        assert(r@.map_values(|s: String| s@) =~= Seq::<Seq<char>>::empty());
        assert(Seq::<Seq<char>>::empty() + entries_tokens(entries@, 0) =~= entries_tokens(
            entries@,
            0,
        ));
    }
    let mut i: usize = 0;
    while i < entries.len()
        invariant
            i <= entries@.len(),
            entries_tokens(entries@, 0) == r@.map_values(|s: String| s@) + entries_tokens(
                entries@,
                i as int,
            ),
        decreases entries@.len() - i,
    {
        let mut part = collect_entry_tokens(&entries[i]);
        let ghost rv = r@;
        let ghost partv = part@;
        r.append(&mut part);
        proof {
            assert(r@.map_values(|s: String| s@) =~= rv.map_values(|s: String| s@)
                + partv.map_values(|s: String| s@));
            assert(rv.map_values(|s: String| s@) + entries_tokens(entries@, i as int)
                =~= r@.map_values(|s: String| s@) + entries_tokens(entries@, i as int + 1));
        }
        i = i + 1;
    }
    r
}

/// The names of `ts` from index `k` on that are not yet in `have`,
/// first occurrence of each only, in first-seen order.
pub open spec fn missing_from(ts: Seq<Seq<char>>, k: int, have: Set<Seq<char>>) -> Seq<Seq<char>>
    decreases ts.len() - k,
{
    if k < 0 || k >= ts.len() {
        seq![]
    } else if have.contains(ts[k]) {
        missing_from(ts, k + 1, have)
    } else {
        seq![ts[k]] + missing_from(ts, k + 1, have.insert(ts[k]))
    }
}

proof fn lemma_cons_contains(x: Seq<char>, s: Seq<Seq<char>>, t: Seq<char>)
    ensures
        (seq![x] + s).contains(t) <==> (t == x || s.contains(t)),
{
    let c = seq![x] + s;
    if c.contains(t) {
        let i = choose|i: int| 0 <= i < c.len() && c[i] == t;
        if i != 0 {
            assert(s[i - 1] == t);
            assert(s.contains(t));
        }
    }
    if t == x {
        assert(c[0] == t);
        assert(c.contains(t));
    }
    if s.contains(t) {
        let i = choose|i: int| 0 <= i < s.len() && s[i] == t;
        assert(c[i + 1] == t);
        assert(c.contains(t));
    }
}

/// The law of the resolver: the names it asks for are distinct, none
/// is already resolved, and together with the resolved ones they are
/// exactly the names scanned — each unresolved name is prompted for
/// exactly once, in first-seen order.
pub proof fn lemma_missing_from_props(ts: Seq<Seq<char>>, k: int, have: Set<Seq<char>>)
    requires
        0 <= k <= ts.len(),
    ensures
        no_dup(missing_from(ts, k, have)),
        forall|t: Seq<char>|
            #[trigger] missing_from(ts, k, have).contains(t) <==> (!have.contains(t)
                && ts.subrange(k, ts.len() as int).contains(t)),
    decreases ts.len() - k,
{
    let d = missing_from(ts, k, have);
    if k >= ts.len() {
        assert forall|t: Seq<char>| #[trigger] d.contains(t) <==> (!have.contains(t)
            && ts.subrange(k, ts.len() as int).contains(t)) by {
            if d.contains(t) {
                let i = choose|i: int| 0 <= i < d.len() && d[i] == t;
                assert(false);
            }
            if ts.subrange(k, ts.len() as int).contains(t) {
                let i = choose|i: int|
                    0 <= i < ts.subrange(k, ts.len() as int).len() && ts.subrange(
                        k,
                        ts.len() as int,
                    )[i] == t;
                assert(false);
            }
        }
    } else if have.contains(ts[k]) {
        lemma_missing_from_props(ts, k + 1, have);
        assert forall|t: Seq<char>| #[trigger] d.contains(t) <==> (!have.contains(t)
            && ts.subrange(k, ts.len() as int).contains(t)) by {
            lemma_tail_contains(ts, k, t);
        }
    } else {
        let have2 = have.insert(ts[k]);
        lemma_missing_from_props(ts, k + 1, have2);
        let rest = missing_from(ts, k + 1, have2);
        assert forall|a: int, b: int| 0 <= a < b < d.len() implies d[a] != d[b] by {
            if a == 0 {
                assert(d[b] == rest[b - 1]);
                assert(rest.contains(rest[b - 1]));
                assert(!have2.contains(rest[b - 1]));
            } else {
                assert(d[a] == rest[a - 1]);
                assert(d[b] == rest[b - 1]);
            }
        }
        assert forall|t: Seq<char>| #[trigger] d.contains(t) <==> (!have.contains(t)
            && ts.subrange(k, ts.len() as int).contains(t)) by {
            lemma_cons_contains(ts[k], rest, t);
            lemma_tail_contains(ts, k, t);
            if t == ts[k] {
                assert(ts.subrange(k, ts.len() as int).contains(t));
                assert(d.contains(t));
            }
        }
    }
}

/// The distinct names among `tokens` that `map` has not resolved yet,
/// in first-seen order: exactly the names a caller must still prompt
/// for, each once.
pub fn needed_names(map: &ResolutionMap, tokens: &Vec<String>) -> (r: Vec<String>)
    requires
        map.wf(),
    ensures
        r@.map_values(|s: String| s@) == missing_from(
            tokens@.map_values(|s: String| s@),
            0,
            map.as_map().dom(),
        ),
{
    let ghost ts = tokens@.map_values(|s: String| s@);
    let mut r: Vec<String> = Vec::new();
    proof {
        assert(r@.map_values(|s: String| s@) =~= Seq::<Seq<char>>::empty());
        assert(map.as_map().dom().union(r@.map_values(|s: String| s@).to_set())
            =~= map.as_map().dom());
    }
    let mut k: usize = 0;
    while k < tokens.len()
        invariant
            map.wf(),
            k <= tokens@.len(),
            ts == tokens@.map_values(|s: String| s@),
            ts.len() == tokens@.len(),
            missing_from(ts, 0, map.as_map().dom()) == r@.map_values(|s: String| s@)
                + missing_from(
                ts,
                k as int,
                map.as_map().dom().union(r@.map_values(|s: String| s@).to_set()),
            ),
        decreases tokens@.len() - k,
    {
        let ghost have = map.as_map().dom().union(r@.map_values(|s: String| s@).to_set());
        let t = &tokens[k];
        let in_map = map.contains_name(t);
        let in_r = contains_string(&r, t);
        proof {
            assert(ts[k as int] == t@);
            assert(r@.map_values(|s: String| s@).to_set().contains(t@) == r@.map_values(
                |s: String| s@,
            ).contains(t@));
            assert((in_map || in_r) == have.contains(ts[k as int]));
        }
        if !(in_map || in_r) {
            let ghost prev = r@;
            r.push(t.clone());
            proof {
                assert(r@.map_values(|s: String| s@) =~= prev.map_values(|s: String| s@).push(
                    t@,
                ));
                assert forall|x: Seq<char>|
                    map.as_map().dom().union(r@.map_values(|s: String| s@).to_set()).contains(
                        x,
                    ) <==> have.insert(ts[k as int]).contains(x) by {
                    let rm = r@.map_values(|s: String| s@);
                    let pm = prev.map_values(|s: String| s@);
                    if rm.contains(x) {
                        let w = choose|w: int| 0 <= w < rm.len() && rm[w] == x;
                        if w < pm.len() {
                            assert(pm[w] == x);
                            assert(pm.contains(x));
                        } else {
                            assert(x == t@);
                        }
                    }
                    if pm.contains(x) {
                        let w = choose|w: int| 0 <= w < pm.len() && pm[w] == x;
                        assert(rm[w] == x);
                        assert(rm.contains(x));
                    }
                    if x == ts[k as int] {
                        assert(rm[rm.len() - 1] == x);
                        assert(rm.contains(x));
                    }
                }
                assert(map.as_map().dom().union(r@.map_values(|s: String| s@).to_set())
                    =~= have.insert(ts[k as int]));
                assert(prev.map_values(|s: String| s@) + (seq![ts[k as int]] + missing_from(
                    ts,
                    k as int + 1,
                    have.insert(ts[k as int]),
                )) =~= r@.map_values(|s: String| s@) + missing_from(
                    ts,
                    k as int + 1,
                    have.insert(ts[k as int]),
                ));
            }
        }
        k = k + 1;
    }
    proof {
        assert(missing_from(ts, 0, map.as_map().dom()) =~= r@.map_values(|s: String| s@));
    }
    r
}

/// Whether some element of `v` holds the same characters as `t`.
pub(crate) fn contains_string(v: &Vec<String>, t: &String) -> (r: bool)
    ensures
        r == v@.map_values(|s: String| s@).contains(t@),
{
    let mut i: usize = 0;
    while i < v.len()
        invariant
            i <= v@.len(),
            forall|k: int| 0 <= k < i ==> #[trigger] v@[k]@ != t@,
        decreases v@.len() - i,
    {
        if t.eq(&v[i]) {
            proof {
                assert(v@.map_values(|s: String| s@)[i as int] == t@);
            }
            return true;
        }
        i = i + 1;
    }
    proof {
        let m = v@.map_values(|s: String| s@);
        if m.contains(t@) {
            let k = choose|k: int| 0 <= k < m.len() && m[k] == t@;
            assert(v@[k]@ == t@);
        }
    }
    false
}

/// Each segment of `ss` after substitution.
pub open spec fn subst_segs(ss: Seq<Seq<char>>, m: Map<Seq<char>, Seq<char>>) -> Seq<Seq<char>> {
    ss.map_values(|s: Seq<char>| subst(s, m))
}

/// A relative path whose first segment is empty or begins with `/`
/// would join into an absolute path.
pub open spec fn path_absolute(ss: Seq<Seq<char>>) -> bool {
    ss.len() > 0 && (ss[0].len() == 0 || ss[0][0] == '/')
}

/// Substitute the resolved values into every segment of a path.
fn subst_segments(segments: &Vec<String>, map: &ResolutionMap) -> (r: Vec<String>)
    requires
        map.wf(),
    ensures
        seg_view(r@) == subst_segs(seg_view(segments@), map.as_map()),
        r@.len() == segments@.len(),
{
    let ghost goal = subst_segs(seg_view(segments@), map.as_map());
    let mut r: Vec<String> = Vec::new();
    proof {
        assert(seg_view(r@) =~= goal.subrange(0, 0));
        assert(goal.len() == segments@.len());
    }
    let mut j: usize = 0;
    while j < segments.len()
        invariant
            map.wf(),
            j <= segments@.len(),
            goal == subst_segs(seg_view(segments@), map.as_map()),
            goal.len() == segments@.len(),
            r@.len() == j,
            seg_view(r@) == goal.subrange(0, j as int),
        decreases segments@.len() - j,
    {
        let s = replace_replacements(segments[j].clone(), map);
        let ghost prev = r@;
        r.push(s);
        proof {
            assert(seg_view(segments@)[j as int] == segments@[j as int]@);
            assert(goal[j as int] == subst(segments@[j as int]@, map.as_map()));
            assert(seg_view(r@) =~= seg_view(prev).push(s@));
            assert(goal.subrange(0, j as int).push(goal[j as int]) =~= goal.subrange(
                0,
                j as int + 1,
            ));
        }
        j = j + 1;
    }
    proof {
        assert(goal.subrange(0, goal.len() as int) =~= goal);
    }
    r
}

/// Whether this first path segment makes the joined path absolute.
fn segment_absolute(s: &String) -> (r: bool)
    ensures
        r == (s@.len() == 0 || s@[0] == '/'),
{
    let n = s.as_str().unicode_len();
    if n == 0 {
        true
    } else {
        s.as_str().get_char(0) == '/'
    }
}

/// The write action for one entry under the resolved mapping `m`.
pub open spec fn action_matches(a: WriteAction, e: Entry, m: Map<Seq<char>, Seq<char>>) -> bool {
    match e.kind {
        EntryKind::Directory => (a matches WriteAction::MkDir { segments } && seg_view(segments@)
            == subst_segs(seg_view(e.segments@), m)),
        EntryKind::File => (a matches WriteAction::WriteFile { segments, content } && seg_view(
            segments@,
        ) == subst_segs(seg_view(e.segments@), m) && content@ == subst(e.content@, m)),
    }
}

/// Compute the write phase for the ordered entries: each entry's
/// substituted relative path, a directory creation or a file write, in
/// entry order.  Fails fast with `UnsafePath`, planning no further
/// write, as soon as a computed path would be absolute; such a path
/// marks a corrupt or hostile template and must never be written.
pub fn materialize_plan(entries: &Vec<Entry>, map: &ResolutionMap) -> (r: Result<
    Vec<WriteAction>,
    TplError,
>)
    requires
        map.wf(),
        forall|i: int| 0 <= i < entries@.len() ==> (#[trigger] entries@[i].segments@.len()) >= 1,
    ensures
        match r {
            Ok(acts) => {
                &&& acts@.len() == entries@.len()
                &&& forall|i: int|
                    0 <= i < entries@.len() ==> action_matches(
                        acts@[i],
                        entries@[i],
                        map.as_map(),
                    )
                &&& forall|i: int|
                    0 <= i < entries@.len() ==> !path_absolute(
                        subst_segs(seg_view(#[trigger] entries@[i].segments@), map.as_map()),
                    )
            },
            Err(e) => {
                &&& e == TplError::UnsafePath
                &&& exists|i: int|
                    0 <= i < entries@.len() && path_absolute(
                        subst_segs(seg_view(#[trigger] entries@[i].segments@), map.as_map()),
                    )
            },
        },
{
    let mut acts: Vec<WriteAction> = Vec::new();
    let mut i: usize = 0;
    while i < entries.len()
        invariant
            map.wf(),
            i <= entries@.len(),
            acts@.len() == i,
            forall|k: int| 0 <= k < entries@.len() ==> (#[trigger] entries@[k].segments@.len())
                >= 1,
            forall|k: int|
                0 <= k < i ==> action_matches(acts@[k], entries@[k], map.as_map()),
            forall|k: int|
                0 <= k < i ==> !path_absolute(
                    subst_segs(seg_view(#[trigger] entries@[k].segments@), map.as_map()),
                ),
        decreases entries@.len() - i,
    {
        let e = &entries[i];
        let new_segments = subst_segments(&e.segments, map);
        proof {
            assert(seg_view(new_segments@).len() == new_segments@.len());
            assert(seg_view(new_segments@)[0] == new_segments@[0]@);
        }
        if segment_absolute(&new_segments[0]) {
            proof {
                assert(path_absolute(
                    subst_segs(seg_view(entries@[i as int].segments@), map.as_map()),
                ));
            }
            return Err(TplError::UnsafePath);
        }
        if e.kind == EntryKind::Directory {
            acts.push(WriteAction::MkDir { segments: new_segments });
        } else {
            let new_content = replace_replacements(e.content.clone(), map);
            acts.push(WriteAction::WriteFile { segments: new_segments, content: new_content });
        }
        i = i + 1;
    }
    Ok(acts)
}

proof fn lemma_segs_tokens_empty(ss: Seq<Seq<char>>, i: int)
    requires
        0 <= i <= ss.len(),
        segs_tokens(ss, i).len() == 0,
    ensures
        forall|k: int| i <= k < ss.len() ==> scan_tokens(#[trigger] ss[k]).len() == 0,
    decreases ss.len() - i,
{
    if i < ss.len() {
        assert(segs_tokens(ss, i) == scan_tokens(ss[i]) + segs_tokens(ss, i + 1));
        lemma_segs_tokens_empty(ss, i + 1);
    }
}

/// A template without placeholders materializes byte-identically:
/// when an entry holds no token, its planned action keeps its path and
/// its content exactly as they stand, whatever the resolved mapping.
/// Re-running such a plan can thus only fail on directory creation,
/// never change a file's bytes.
pub proof fn lemma_materialize_no_tokens(e: Entry, a: WriteAction, m: Map<Seq<char>, Seq<char>>)
    requires
        entry_tokens(e).len() == 0,
        action_matches(a, e, m),
    ensures
        match e.kind {
            EntryKind::Directory => a matches WriteAction::MkDir { segments } && seg_view(
                segments@,
            ) == seg_view(e.segments@),
            EntryKind::File => a matches WriteAction::WriteFile { segments, content }
                && seg_view(segments@) == seg_view(e.segments@) && content@ == e.content@,
        },
{
    let segs = seg_view(e.segments@);
    assert(segs_tokens(segs, 0).len() == 0);
    lemma_segs_tokens_empty(segs, 0);
    assert forall|k: int| 0 <= k < segs.len() implies subst(#[trigger] segs[k], m)
        == segs[k] by {
        crate::subst::lemma_subst_no_tokens(segs[k], m);
    }
    assert(subst_segs(segs, m) =~= segs);
    if e.kind is File {
        assert(scan_tokens(e.content@).len() == 0);
        crate::subst::lemma_subst_no_tokens(e.content@, m);
    }
}

} // verus!
