//! The template store: the set of installed template names.
//!
//! On disk the store is a directory whose immediate subdirectories are
//! the templates; here it is modelled by their names, unique and
//! non-empty.  The caller reads the directory listing into the model,
//! asks it what an operation means for the store, and performs the
//! answered filesystem work.

use vstd::prelude::*;
use crate::errors::TplError;
use crate::scanner::no_dup;

verus! {

/// The installed template names, unique and non-empty.
pub struct TemplateStore {
    names: Vec<String>,
}

impl TemplateStore {
    /// The names held, in listing order.
    pub closed spec fn names_view(self) -> Seq<Seq<char>> {
        self.names@.map_values(|s: String| s@)
    }

    /// Names are unique and non-empty.
    pub open spec fn wf(self) -> bool {
        no_dup(self.names_view()) && forall|i: int|
            0 <= i < self.names_view().len() ==> (#[trigger] self.names_view()[i]).len() > 0
    }

    /// An empty store.
    pub fn new() -> (r: Self)
        ensures
            r.wf(),
            r.names_view() == Seq::<Seq<char>>::empty(),
    {
        let r = TemplateStore { names: Vec::new() };
        proof {
            assert(r.names_view() =~= Seq::<Seq<char>>::empty());
        }
        r
    }

    /// The installed names, in listing order.
    pub fn list(&self) -> (r: Vec<String>)
        ensures
            r@.map_values(|s: String| s@) == self.names_view(),
    {
        let mut r: Vec<String> = Vec::new();
        proof {
            assert(r@.map_values(|s: String| s@) =~= self.names_view().subrange(0, 0));
        }
        let mut i: usize = 0;
        while i < self.names.len()
            invariant
                i <= self.names@.len(),
                self.names_view().len() == self.names@.len(),
                r@.map_values(|s: String| s@) == self.names_view().subrange(0, i as int),
            decreases self.names@.len() - i,
        {
            let ghost prev = r@;
            r.push(self.names[i].clone());
            proof {
                assert(r@.map_values(|s: String| s@) =~= prev.map_values(|s: String| s@).push(
                    self.names_view()[i as int],
                ));
                assert(self.names_view().subrange(0, i as int).push(
                    self.names_view()[i as int],
                ) =~= self.names_view().subrange(0, i as int + 1));
            }
            i = i + 1;
        }
        proof {
            assert(self.names_view().subrange(0, self.names_view().len() as int)
                =~= self.names_view());
        }
        r
    }

    /// Whether a template of this name is installed.
    pub fn contains_template(&self, name: &String) -> (r: bool)
        ensures
            r == self.names_view().contains(name@),
    {
        contains_name_vec(&self.names, name)
    }

    /// Install a new template name.  Reports `AlreadyExists`, changing
    /// nothing, exactly when the name is already installed.
    pub fn create(&mut self, name: String) -> (r: Result<(), TplError>)
        requires
            old(self).wf(),
            name@.len() > 0,
        ensures
            final(self).wf(),
            match r {
                Ok(()) => !old(self).names_view().contains(name@) && final(self).names_view()
                    == old(self).names_view().push(name@),
                Err(e) => e == TplError::AlreadyExists && old(self).names_view().contains(name@)
                    && *final(self) == *old(self),
            },
    {
        if contains_name_vec(&self.names, &name) {
            return Err(TplError::AlreadyExists);
        }
        let ghost prevm = self.names_view();
        self.names.push(name);
        proof {
            let nm = self.names_view();
            assert(nm =~= prevm.push(nm[nm.len() - 1]));
            assert forall|a: int, b: int| 0 <= a < b < nm.len() implies nm[a] != nm[b] by {
                if b == nm.len() - 1 {
                    if nm[a] == nm[b] {
                        assert(prevm[a] == nm[b]);
                        assert(prevm.contains(nm[b]));
                    }
                }
            }
        }
        Ok(())
    }

    /// Uninstall a template name.  Reports `NotFound`, leaving the
    /// store unchanged, exactly when no such template is installed.
    pub fn remove(&mut self, name: &String) -> (r: Result<(), TplError>)
        requires
            old(self).wf(),
        ensures
            final(self).wf(),
            match r {
                Ok(()) => exists|i: int|
                    0 <= i < old(self).names_view().len() && old(self).names_view()[i] == name@
                        && final(self).names_view() == old(self).names_view().remove(i),
                Err(e) => e == TplError::NotFound && !old(self).names_view().contains(name@)
                    && *final(self) == *old(self),
            },
    {
        let mut i: usize = 0;
        while i < self.names.len()
            invariant
                *self == *old(self),
                self.wf(),
                i <= self.names@.len(),
                forall|k: int| 0 <= k < i ==> #[trigger] self.names@[k]@ != name@,
            decreases self.names@.len() - i,
        {
            if name.eq(&self.names[i]) {
                let ghost prevm = self.names_view();
                let ghost ii = i as int;
                self.names.remove(i);
                proof {
                    assert(prevm[ii] == name@);
                    let nm = self.names_view();
                    assert(nm =~= prevm.remove(ii));
                    assert(prevm.remove(ii) =~= prevm.subrange(0, ii) + prevm.subrange(
                        ii + 1,
                        prevm.len() as int,
                    ));
                    assert forall|a: int, b: int| 0 <= a < b < nm.len() implies nm[a] != nm[b] by {
                        let pa = if a < ii {
                            a
                        } else {
                            a + 1
                        };
                        let pb = if b < ii {
                            b
                        } else {
                            b + 1
                        };
                        assert(nm[a] == prevm[pa]);
                        assert(nm[b] == prevm[pb]);
                    }
                    assert forall|k: int| 0 <= k < nm.len() implies (#[trigger] nm[k]).len()
                        > 0 by {
                        let pk = if k < ii {
                            k
                        } else {
                            k + 1
                        };
                        assert(nm[k] == prevm[pk]);
                    }
                }
                return Ok(());
            }
            i = i + 1;
        }
        proof {
            if self.names_view().contains(name@) {
                let k = choose|k: int|
                    0 <= k < self.names_view().len() && self.names_view()[k] == name@;
                assert(self.names@[k]@ == name@);
            }
        }
        Err(TplError::NotFound)
    }
}

/// Whether some element of `v` holds the same characters as `name`.
fn contains_name_vec(v: &Vec<String>, name: &String) -> (r: bool)
    ensures
        r == v@.map_values(|s: String| s@).contains(name@),
{
    let mut i: usize = 0;
    while i < v.len()
        invariant
            i <= v@.len(),
            forall|k: int| 0 <= k < i ==> #[trigger] v@[k]@ != name@,
        decreases v@.len() - i,
    {
        if name.eq(&v[i]) {
            proof {
                assert(v@.map_values(|s: String| s@)[i as int] == name@);
            }
            return true;
        }
        i = i + 1;
    }
    proof {
        let m = v@.map_values(|s: String| s@);
        if m.contains(name@) {
            let k = choose|k: int| 0 <= k < m.len() && m[k] == name@;
            assert(v@[k]@ == name@);
        }
    }
    false
}

} // verus!
