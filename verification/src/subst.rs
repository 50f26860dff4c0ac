//! Placeholder substitution and the name → value resolution map.
//!
//! Substitution is a single, non-recursive, left-to-right pass: every
//! well-formed token whose name is resolved is replaced by its value,
//! tokens with unresolved names are kept literally, and inserted values
//! are never re-scanned for tokens.

use vstd::prelude::*;
use crate::chars::{to_chars, from_chars};
use crate::scanner::{
    token_at, token_name, token_end, scan_from, scan_tokens, token_here, no_dup,
};

verus! {

/// The name → value mapping built while resolving a template's
/// placeholders.  Each distinct name is present at most once; insertion
/// order is kept, so prompting order can be stated exactly.
pub struct ResolutionMap {
    pairs: Vec<(String, String)>,
}

impl ResolutionMap {
    /// The names held, in insertion order.
    pub closed spec fn key_seq(self) -> Seq<Seq<char>> {
        self.pairs@.map_values(|p: (String, String)| p.0@)
    }

    /// The mapping itself.
    pub closed spec fn as_map(self) -> Map<Seq<char>, Seq<char>> {
        Self::pairs_map(self.pairs@)
    }

    pub closed spec fn pairs_map(ps: Seq<(String, String)>) -> Map<Seq<char>, Seq<char>>
        decreases ps.len(),
    {
        if ps.len() == 0 {
            Map::empty()
        } else {
            Self::pairs_map(ps.drop_last()).insert(ps.last().0@, ps.last().1@)
        }
    }

    /// Each name occurs at most once.
    pub open spec fn wf(self) -> bool {
        no_dup(self.key_seq())
    }

    proof fn lemma_pairs_map_dom(ps: Seq<(String, String)>)
        ensures
            forall|t: Seq<char>|
                #[trigger] Self::pairs_map(ps).contains_key(t) <==> ps.map_values(
                    |p: (String, String)| p.0@,
                ).contains(t),
        decreases ps.len(),
    {
        let keys = ps.map_values(|p: (String, String)| p.0@);
        if ps.len() == 0 {
            assert forall|t: Seq<char>| #[trigger]
                Self::pairs_map(ps).contains_key(t) <==> keys.contains(t) by {
                if keys.contains(t) {
                    let i = choose|i: int| 0 <= i < keys.len() && keys[i] == t;
                    assert(false);
                }
            }
        } else {
            Self::lemma_pairs_map_dom(ps.drop_last());
            let prev = ps.drop_last().map_values(|p: (String, String)| p.0@);
            assert forall|t: Seq<char>| #[trigger]
                Self::pairs_map(ps).contains_key(t) <==> keys.contains(t) by {
                if Self::pairs_map(ps).contains_key(t) {
                    if t == ps.last().0@ {
                        assert(keys[ps.len() - 1] == t);
                        assert(keys.contains(t));
                    } else {
                        assert(Self::pairs_map(ps.drop_last()).contains_key(t));
                        assert(prev.contains(t));
                        let i = choose|i: int| 0 <= i < prev.len() && prev[i] == t;
                        assert(ps.drop_last()[i] == ps[i]);
                        assert(keys[i] == t);
                        assert(keys.contains(t));
                    }
                }
                if keys.contains(t) {
                    let i = choose|i: int| 0 <= i < keys.len() && keys[i] == t;
                    assert(keys[i] == ps[i].0@);
                    if i == ps.len() - 1 {
                        assert(t == ps.last().0@);
                        assert(Self::pairs_map(ps).contains_key(t));
                    } else {
                        assert(ps.drop_last()[i] == ps[i]);
                        assert(prev[i] == t);
                        assert(prev.contains(t));
                        assert(Self::pairs_map(ps.drop_last()).contains_key(t));
                        assert(Self::pairs_map(ps).contains_key(t));
                    }
                }
            }
        }
    }

    proof fn lemma_pairs_map_get(ps: Seq<(String, String)>, i: int)
        requires
            0 <= i < ps.len(),
            no_dup(ps.map_values(|p: (String, String)| p.0@)),
        ensures
            Self::pairs_map(ps).contains_key(ps[i].0@),
            Self::pairs_map(ps)[ps[i].0@] == ps[i].1@,
        decreases ps.len(),
    {
        let keys = ps.map_values(|p: (String, String)| p.0@);
        Self::lemma_pairs_map_dom(ps);
        if i == ps.len() - 1 {
        } else {
            let prevp = ps.drop_last();
            let prev = prevp.map_values(|p: (String, String)| p.0@);
            assert forall|a: int, b: int| 0 <= a < b < prev.len() implies prev[a] != prev[b] by {
                assert(keys[a] == prev[a]);
                assert(keys[b] == prev[b]);
            }
            Self::lemma_pairs_map_get(prevp, i);
            assert(keys[i] == ps[i].0@);
            assert(keys[ps.len() - 1] == ps.last().0@);
            assert(ps[i].0@ != ps.last().0@);
            assert(prevp[i] == ps[i]);
        }
    }

    /// An empty mapping.
    pub fn new() -> (r: Self)
        ensures
            r.wf(),
            r.as_map() == Map::<Seq<char>, Seq<char>>::empty(),
            r.key_seq() == Seq::<Seq<char>>::empty(),
    {
        let r = ResolutionMap { pairs: Vec::new() };
        proof {
            assert(r.key_seq() =~= Seq::<Seq<char>>::empty());
        }
        r
    }

    /// Whether `name` is already resolved.
    pub fn contains_name(&self, name: &String) -> (r: bool)
        ensures
            r == self.as_map().contains_key(name@),
    {
        proof {
            Self::lemma_pairs_map_dom(self.pairs@);
        }
        let mut i: usize = 0;
        while i < self.pairs.len()
            invariant
                i <= self.pairs@.len(),
                forall|k: int| 0 <= k < i ==> #[trigger] self.pairs@[k].0@ != name@,
            decreases self.pairs@.len() - i,
        {
            if name.eq(&self.pairs[i].0) {
                proof {
                    Self::lemma_pairs_map_dom(self.pairs@);
                    assert(self.key_seq()[i as int] == name@);
                    assert(self.key_seq().contains(name@));
                }
                return true;
            }
            i = i + 1;
        }
        proof {
            if self.key_seq().contains(name@) {
                let k = choose|k: int|
                    0 <= k < self.key_seq().len() && self.key_seq()[k] == name@;
                assert(self.pairs@[k].0@ == name@);
            }
        }
        false
    }

    /// Record the value chosen for a newly seen name.
    pub fn insert(&mut self, name: String, value: String)
        requires
            old(self).wf(),
            !old(self).as_map().contains_key(name@),
        ensures
            final(self).wf(),
            final(self).as_map() == old(self).as_map().insert(name@, value@),
            final(self).key_seq() == old(self).key_seq().push(name@),
    {
        proof {
            Self::lemma_pairs_map_dom(self.pairs@);
        }
        let ghost prev = self.pairs@;
        self.pairs.push((name, value));
        proof {
            assert(self.pairs@.drop_last() =~= prev);
            assert(self.key_seq() =~= old(self).key_seq().push(name@));
            let keys = self.key_seq();
            assert forall|a: int, b: int| 0 <= a < b < keys.len() implies keys[a] != keys[b] by {
                if b == keys.len() - 1 {
                    if keys[a] == keys[b] {
                        assert(old(self).key_seq()[a] == name@);
                        assert(old(self).key_seq().contains(name@));
                    }
                }
            }
        }
    }

    /// The value resolved for `name`, if any.
    pub fn lookup(&self, name: &String) -> (r: Option<String>)
        requires
            self.wf(),
        ensures
            match r {
                Some(v) => self.as_map().contains_key(name@) && v@ == self.as_map()[name@],
                None => !self.as_map().contains_key(name@),
            },
    {
        proof {
            Self::lemma_pairs_map_dom(self.pairs@);
        }
        let mut i: usize = 0;
        while i < self.pairs.len()
            invariant
                self.wf(),
                i <= self.pairs@.len(),
                forall|k: int| 0 <= k < i ==> #[trigger] self.pairs@[k].0@ != name@,
            decreases self.pairs@.len() - i,
        {
            if name.eq(&self.pairs[i].0) {
                proof {
                    Self::lemma_pairs_map_dom(self.pairs@);
                    Self::lemma_pairs_map_get(self.pairs@, i as int);
                }
                return Some(self.pairs[i].1.clone());
            }
            i = i + 1;
        }
        proof {
            if self.key_seq().contains(name@) {
                let k = choose|k: int|
                    0 <= k < self.key_seq().len() && self.key_seq()[k] == name@;
                assert(self.pairs@[k].0@ == name@);
            }
        }
        None
    }
}

/// The single-pass substitution of `m` into `s`, from position `i` on:
/// a resolved token becomes its value, an unresolved token stays as it
/// is, and an inserted value is never itself re-scanned.
pub open spec fn subst_from(s: Seq<char>, i: int, m: Map<Seq<char>, Seq<char>>) -> Seq<char>
    decreases s.len() - i,
{
    if i < 0 || i >= s.len() {
        seq![]
    } else if token_at(s, i) && m.contains_key(token_name(s, i)) {
        m[token_name(s, i)] + subst_from(s, token_end(s, i), m)
    } else if token_at(s, i) {
        s.subrange(i, token_end(s, i)) + subst_from(s, token_end(s, i), m)
    } else {
        seq![s[i]] + subst_from(s, i + 1, m)
    }
}

/// The single-pass substitution of `m` into all of `s`.
pub open spec fn subst(s: Seq<char>, m: Map<Seq<char>, Seq<char>>) -> Seq<char> {
    subst_from(s, 0, m)
}

/// Replace every resolved placeholder token of `input` by its value, in
/// one left-to-right pass; unresolved names are left untouched.
pub fn replace_replacements(input: String, map: &ResolutionMap) -> (r: String)
    requires
        map.wf(),
    ensures
        r@ == subst(input@, map.as_map()),
{
    let v = to_chars(input.as_str());
    let mut out: Vec<char> = Vec::new();
    let mut i: usize = 0;
    while i < v.len()
        invariant
            map.wf(),
            i <= v@.len(),
            v@ == input@,
            subst(input@, map.as_map()) == out@ + subst_from(v@, i as int, map.as_map()),
        decreases v@.len() - i,
    {
        let ghost prev = out@;
        match token_here(&v, i) {
            Some(p) => {
                let (name_chars, end) = p;
                let name = from_chars(&name_chars);
                match map.lookup(&name) {
                    Some(value) => {
                        let mut vv = to_chars(value.as_str());
                        out.append(&mut vv);
                        proof {
                            assert(prev + subst_from(v@, i as int, map.as_map()) =~= out@
                                + subst_from(v@, token_end(v@, i as int), map.as_map()));
                        }
                    },
                    None => {
                        let mut tok = crate::scanner::sub_chars(&v, i, end);
                        out.append(&mut tok);
                        proof {
                            assert(prev + subst_from(v@, i as int, map.as_map()) =~= out@
                                + subst_from(v@, token_end(v@, i as int), map.as_map()));
                        }
                    },
                }
                i = end;
            },
            None => {
                out.push(v[i]);
                proof {
                    assert(prev + subst_from(v@, i as int, map.as_map()) =~= out@ + subst_from(
                        v@,
                        i as int + 1,
                        map.as_map(),
                    ));
                }
                i = i + 1;
            },
        }
    }
    proof {
        assert(subst(input@, map.as_map()) =~= out@);
    }
    from_chars(&out)
}

/// Substituting into a string that holds no token leaves it unchanged,
/// whatever the mapping: materializing a template with no placeholders
/// is idempotent on content.
pub proof fn lemma_subst_no_tokens(s: Seq<char>, m: Map<Seq<char>, Seq<char>>)
    requires
        scan_tokens(s).len() == 0,
    ensures
        subst(s, m) == s,
{
    lemma_subst_no_tokens_from(s, 0, m);
    assert(s.subrange(0, s.len() as int) =~= s);
}

proof fn lemma_subst_no_tokens_from(s: Seq<char>, i: int, m: Map<Seq<char>, Seq<char>>)
    requires
        0 <= i <= s.len(),
        scan_from(s, i).len() == 0,
    ensures
        subst_from(s, i, m) == s.subrange(i, s.len() as int),
    decreases s.len() - i,
{
    if i >= s.len() {
        assert(subst_from(s, i, m) =~= s.subrange(i, s.len() as int));
    } else if token_at(s, i) {
        assert(scan_from(s, i)[0] == token_name(s, i));
    } else {
        lemma_subst_no_tokens_from(s, i + 1, m);
        assert(subst_from(s, i, m) =~= s.subrange(i, s.len() as int));
    }
}

} // verus!
