//! Install, activate and uninstall as transitions of a language's install
//! state: the installed versions and the active one. The caller performs the
//! matching filesystem and environment work only after a transition succeeds.

use crate::catalog::{contains_version, opt_string_view};
use crate::error::LvmError;
use crate::semver::views;
use vstd::prelude::*;
use vstd::string::StringExecFns;

verus! {

/// The installed versions of one language, and the active one if any.
pub struct InstallState {
    pub installed: Vec<String>,
    pub active: Option<String>,
}

/// The install state as values: the installed versions, and the active one.
pub type StateView = (Seq<Seq<char>>, Option<Seq<char>>);

/// Installing `v` adds it unless it is there already.
pub open spec fn install_spec(s: StateView, v: Seq<char>) -> StateView {
    if s.0.contains(v) {
        s
    } else {
        (s.0.push(v), s.1)
    }
}

/// Activating `v` needs it installed, and makes it the active version.
pub open spec fn activate_spec(s: StateView, v: Seq<char>) -> Option<StateView> {
    if s.0.contains(v) {
        Some((s.0, Some(v)))
    } else {
        None
    }
}

/// Holds of the versions other than `v`.
pub open spec fn other_than(v: Seq<char>) -> spec_fn(Seq<char>) -> bool {
    |w: Seq<char>| w != v
}

/// Uninstalling `v` needs it installed; it removes it, and clears the active
/// version where that was `v`.
pub open spec fn uninstall_spec(s: StateView, v: Seq<char>) -> Option<StateView> {
    if s.0.contains(v) {
        Some(
            (
                s.0.filter(other_than(v)),
                if s.1 == Some(v) {
                    None
                } else {
                    s.1
                },
            ),
        )
    } else {
        None
    }
}

impl View for InstallState {
    type V = StateView;

    open spec fn view(&self) -> StateView {
        (views(self.installed@), opt_string_view(self.active))
    }
}

impl InstallState {
    /// No version is listed twice.
    pub open spec fn wf(&self) -> bool {
        views(self.installed@).no_duplicates()
    }

    /// A state read from storage; a version listed twice counts once.
    pub fn new(installed: Vec<String>, active: Option<String>) -> (r: InstallState)
        ensures
            r.wf(),
            forall|v: Seq<char>| #[trigger] r@.0.contains(v) <==> views(installed@).contains(v),
            r@.1 == opt_string_view(active),
    {
        let mut s = InstallState { installed: Vec::new(), active };
        let n = installed.len();
        let mut i: usize = 0;
        while i < n
            invariant
                n == installed@.len(),
                i <= n,
                s.wf(),
                s@.1 == opt_string_view(active),
                forall|v: Seq<char>|
                    #[trigger] s@.0.contains(v) <==> views(installed@).take(i as int).contains(v),
            decreases n - i,
        {
            let ghost before = s@.0;
            assert(forall|w: Seq<char>|
                before.contains(w) <==> views(installed@).take(i as int).contains(w));
            let v = installed[i].clone();
            let ghost vv = v@;
            s.record_install(v);
            proof {
                let t = views(installed@).take(i as int);
                let t1 = views(installed@).take(i + 1);
                assert(t1 =~= t.push(installed@[i as int]@));
                assert(t1[i as int] == vv);
                assert forall|w: Seq<char>| s@.0.contains(w) implies t1.contains(w) by {
                    if w != vv {
                        let k = choose|k: int| 0 <= k < s@.0.len() && s@.0[k] == w;
                        if !before.contains(vv) {
                            assert(s@.0 == before.push(vv));
                        }
                        assert(before[k] == w);
                        assert(before.contains(w));
                        assert(t.contains(w));
                        let k2 = choose|k2: int| 0 <= k2 < t.len() && t[k2] == w;
                        assert(t1[k2] == w);
                    }
                }
                assert forall|w: Seq<char>| t1.contains(w) implies s@.0.contains(w) by {
                    if w == vv {
                        if !before.contains(vv) {
                            assert(s@.0 == before.push(vv));
                            assert(s@.0[before.len() as int] == w);
                        }
                    } else {
                        let k = choose|k: int| 0 <= k < t1.len() && t1[k] == w;
                        assert(t[k] == w);
                        assert(t.contains(w));
                        assert(before.contains(w));
                        let k2 = choose|k2: int| 0 <= k2 < before.len() && before[k2] == w;
                        if !before.contains(vv) {
                            assert(s@.0 == before.push(vv));
                        }
                        assert(s@.0[k2] == w);
                    }
                }
            }
            i += 1;
        }
        proof {
            assert(views(installed@).take(n as int) =~= views(installed@));
        }
        s
    }

    /// Whether installing `v` has work to do: false where it is installed already,
    /// so a second install downloads nothing.
    pub fn needs_install(&self, v: &String) -> (r: bool)
        ensures
            r == !self@.0.contains(v@),
    {
        !contains_version(&self.installed, v)
    }

    /// Records a finished install of `v`.
    pub fn record_install(&mut self, v: String)
        requires
            old(self).wf(),
        ensures
            final(self).wf(),
            final(self)@ == install_spec(old(self)@, v@),
            final(self)@.0.contains(v@),
    {
        if !contains_version(&self.installed, &v) {
            let ghost before = views(self.installed@);
            let ghost vv = v@;
            self.installed.push(v);
            proof {
                assert(views(self.installed@) =~= before.push(vv));
                assert(views(self.installed@)[before.len() as int] == vv);
                assert forall|a: int, b: int|
                    0 <= a < b < views(self.installed@).len() implies views(self.installed@)[a]
                    != views(self.installed@)[b] by {
                    if b == before.len() {
                        assert(before[a] == views(self.installed@)[a]);
                    }
                }
            }
        }
    }

    /// Makes `v` the active version; fails, changing nothing, where it is not installed.
    pub fn activate(&mut self, v: &String) -> (r: Result<(), LvmError>)
        requires
            old(self).wf(),
        ensures
            final(self).wf(),
            r is Ok <==> activate_spec(old(self)@, v@) is Some,
            r is Ok ==> final(self)@ == activate_spec(old(self)@, v@)->0,
            r is Err ==> final(self)@ == old(self)@ && r->Err_0 is NotInstalled,
    {
        if !contains_version(&self.installed, v) {
            return Err(LvmError::NotInstalled(v.clone()));
        }
        self.active = Some(v.clone());
        Ok(())
    }

    /// Removes `v`, clearing the active version where it was `v`. Returns whether
    /// it was; fails, changing nothing, where `v` is not installed.
    pub fn uninstall(&mut self, v: &String) -> (r: Result<bool, LvmError>)
        requires
            old(self).wf(),
        ensures
            final(self).wf(),
            r is Ok <==> uninstall_spec(old(self)@, v@) is Some,
            r is Ok ==> final(self)@ == uninstall_spec(old(self)@, v@)->0 && r->Ok_0 == (old(
                self,
            )@.1 == Some(v@)),
            r is Err ==> final(self)@ == old(self)@ && r->Err_0 is NotInstalled,
    {
        if !contains_version(&self.installed, v) {
            return Err(LvmError::NotInstalled(v.clone()));
        }
        let ghost before = views(self.installed@);
        let mut kept: Vec<String> = Vec::new();
        let n = self.installed.len();
        let mut i: usize = 0;
        while i < n
            invariant
                n == self.installed@.len(),
                before == views(self.installed@),
                before.no_duplicates(),
                i <= n,
                views(kept@) == before.take(i as int).filter(other_than(v@)),
            decreases n - i,
        {
            let w = self.installed[i].clone();
            proof {
                assert(before.take(i + 1) =~= before.take(i as int).push(w@));
                before.take(i as int).lemma_filter_push(w@, other_than(v@));
            }
            if !w.eq(v) {
                kept.push(w);
                proof {
                    assert(views(kept@) =~= views(kept@).drop_last().push(kept@.last()@));
                }
            }
            i += 1;
        }
        proof {
            assert(before.take(n as int) =~= before);
            assert forall|a: int, b: int|
                0 <= a < b < views(kept@).len() implies views(kept@)[a] != views(kept@)[b] by {
                lemma_filter_no_duplicates(before, other_than(v@));
            }
        }
        self.installed = kept;
        let was_active = match &self.active {
            Some(a) => a.eq(v),
            None => false,
        };
        if was_active {
            self.active = None;
        }
        Ok(was_active)
    }
}

proof fn lemma_filter_no_duplicates(s: Seq<Seq<char>>, p: spec_fn(Seq<char>) -> bool)
    requires
        s.no_duplicates(),
    ensures
        s.filter(p).no_duplicates(),
    decreases s.len(),
{
    broadcast use vstd::seq_lib::group_filter_ensures;
    if s.len() > 0 {
        let pre = s.drop_last();
        assert(s =~= pre.push(s.last()));
        assert(pre.no_duplicates());
        lemma_filter_no_duplicates(pre, p);
        pre.lemma_filter_push(s.last(), p);
        if p(s.last()) {
            assert(!pre.contains(s.last()));
            if pre.filter(p).contains(s.last()) {
                pre.lemma_filter_contains_rev(p, s.last());
            }
            let f = pre.filter(p);
            assert forall|a: int, b: int|
                0 <= a < b < f.push(s.last()).len() implies f.push(s.last())[a] != f.push(
                    s.last(),
                )[b] by {
                if b == f.len() {
                    assert(f.push(s.last())[a] == f[a]);
                }
            }
        }
    }
}

/// The executable search path after activation: `bin_dir`, then `separator`,
/// then the old path, which is kept whole.
pub fn prepend_search_path(bin_dir: &str, separator: &str, path: &str) -> (r: String)
    ensures
        r@ == bin_dir@ + separator@ + path@,
{
    let mut r = String::from_str(bin_dir);
    r.append(separator);
    r.append(path);
    r
}

/// Installing a version twice succeeds both times and leaves the state as one
/// install did; the second finds nothing to do.
pub proof fn lemma_install_idempotent(s: StateView, v: Seq<char>)
    ensures
        install_spec(install_spec(s, v), v) == install_spec(s, v),
        install_spec(s, v).0.contains(v),
        s.0.no_duplicates() ==> install_spec(s, v).0.no_duplicates(),
{
    if !s.0.contains(v) {
        assert(s.0.push(v)[s.0.len() as int] == v);
        if s.0.no_duplicates() {
            assert forall|a: int, b: int|
                0 <= a < b < s.0.push(v).len() implies s.0.push(v)[a] != s.0.push(v)[b] by {
                if b == s.0.len() {
                    assert(s.0[a] == s.0.push(v)[a]);
                }
            }
        }
    }
}

/// Uninstalling the active version succeeds, leaves no active version, and the
/// version is then listed neither installed nor active.
pub proof fn lemma_uninstall_clears_active(s: StateView, v: Seq<char>)
    requires
        s.1 == Some(v),
        s.0.contains(v),
    ensures
        match uninstall_spec(s, v) {
            Some(t) => {
                &&& t.1 is None
                &&& !t.0.contains(v)
                &&& crate::catalog::record_spec(v, t.0, t.1) == (v, false, false)
            },
            None => false,
        },
{
    let f = s.0.filter(other_than(v));
    if f.contains(v) {
        s.0.lemma_filter_contains_rev(other_than(v), v);
        let i = choose|i: int| 0 <= i < f.len() && f[i] == v;
        s.0.lemma_filter_pred(other_than(v), i);
    }
}

} // verus!
