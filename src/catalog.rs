//! Merging of a remote catalog with the local install state into one
//! filtered, paginated view.

use crate::error::LvmError;
use crate::semver::{chars_of, views};
use vstd::prelude::*;

verus! {

/// One version as the catalog view shows it.
#[derive(Debug)]
pub struct VersionInfo {
    pub version: String,
    pub install_status: bool,
    pub use_status: bool,
}

/// One page of the catalog view, with the size of the whole filtered catalog.
#[derive(Debug)]
pub struct PageResult {
    pub total: usize,
    pub list: Vec<VersionInfo>,
}

impl View for VersionInfo {
    type V = (Seq<char>, bool, bool);

    open spec fn view(&self) -> (Seq<char>, bool, bool) {
        (self.version@, self.install_status, self.use_status)
    }
}

pub open spec fn record_views(v: Seq<VersionInfo>) -> Seq<(Seq<char>, bool, bool)> {
    v.map_values(|r: VersionInfo| r@)
}

impl View for PageResult {
    type V = (nat, Seq<(Seq<char>, bool, bool)>);

    open spec fn view(&self) -> (nat, Seq<(Seq<char>, bool, bool)>) {
        (self.total as nat, record_views(self.list@))
    }
}

/// `needle` stands in `hay` at position `i`.
pub open spec fn occurs_at(hay: Seq<char>, needle: Seq<char>, i: int) -> bool {
    0 <= i && i + needle.len() <= hay.len() && hay.subrange(i, i + needle.len()) == needle
}

pub open spec fn contains_sub(hay: Seq<char>, needle: Seq<char>) -> bool {
    exists|i: int| occurs_at(hay, needle, i)
}

/// Holds of the identifiers that contain `k`.
pub open spec fn containing(k: Seq<char>) -> spec_fn(Seq<char>) -> bool {
    |v: Seq<char>| contains_sub(v, k)
}

/// The catalog after the keyword filter; no keyword and an empty one filter nothing.
pub open spec fn filter_spec(all: Seq<Seq<char>>, key_word: Option<Seq<char>>) -> Seq<Seq<char>> {
    match key_word {
        Some(k) => if k.len() > 0 {
            all.filter(containing(k))
        } else {
            all
        },
        None => all,
    }
}

/// How many items a page holds: `max(0, min(page_size, total - page * page_size))`.
pub open spec fn page_len(total: int, page: int, page_size: int) -> int {
    let rest = total - page * page_size;
    if rest <= 0 {
        0
    } else if rest < page_size {
        rest
    } else {
        page_size
    }
}

/// A version annotated with the install state. The active flag is set only on an
/// installed version, so a marker left over for a removed version marks nothing.
pub open spec fn record_spec(v: Seq<char>, installed: Seq<Seq<char>>, current: Option<Seq<char>>) -> (
    Seq<char>,
    bool,
    bool,
) {
    let inst = installed.contains(v);
    (v, inst, inst && current == Some(v))
}

/// The page `page` of the filtered catalog, annotated.
pub open spec fn page_spec(
    all: Seq<Seq<char>>,
    installed: Seq<Seq<char>>,
    current: Option<Seq<char>>,
    page: int,
    page_size: int,
    key_word: Option<Seq<char>>,
) -> (nat, Seq<(Seq<char>, bool, bool)>) {
    let f = filter_spec(all, key_word);
    (
        f.len(),
        Seq::new(
            page_len(f.len() as int, page, page_size) as nat,
            |k: int| record_spec(f[page * page_size + k], installed, current),
        ),
    )
}

pub open spec fn opt_view(o: Option<&str>) -> Option<Seq<char>> {
    match o {
        Some(s) => Some(s@),
        None => None,
    }
}

pub open spec fn opt_string_view(o: Option<String>) -> Option<Seq<char>> {
    match o {
        Some(s) => Some(s@),
        None => None,
    }
}

fn occurs_at_exec(h: &Vec<char>, n: &Vec<char>, i: usize) -> (r: bool)
    requires
        i <= h@.len(),
    ensures
        r == occurs_at(h@, n@, i as int),
{
    if n.len() > h.len() - i {
        return false;
    }
    let hl = h.len();
    let mut j: usize = 0;
    while j < n.len()
        invariant
            hl == h@.len(),
            i <= h@.len(),
            i + n@.len() <= h@.len(),
            j <= n@.len(),
            forall|k: int| 0 <= k < j ==> h@[i + k] == n@[k],
        decreases n@.len() - j,
    {
        assert(i + j < hl);
        if h[i + j] != n[j] {
            proof {
                assert(h@.subrange(i as int, i + n@.len())[j as int] != n@[j as int]);
            }
            return false;
        }
        j += 1;
    }
    proof {
        assert(h@.subrange(i as int, i + n@.len()) =~= n@);
    }
    true
}

/// Whether `needle` occurs in `hay`.
pub fn contains_str(hay: &str, needle: &str) -> (r: bool)
    ensures
        r == contains_sub(hay@, needle@),
{
    let h = chars_of(hay);
    let n = chars_of(needle);
    let mut i: usize = 0;
    while i < h.len()
        invariant
            h@ == hay@,
            n@ == needle@,
            i <= h@.len(),
            forall|k: int| 0 <= k < i ==> !occurs_at(h@, n@, k),
        decreases h@.len() - i,
    {
        if occurs_at_exec(&h, &n, i) {
            return true;
        }
        i += 1;
    }
    let r = occurs_at_exec(&h, &n, h.len());
    proof {
        if !r {
            assert forall|k: int| !occurs_at(h@, n@, k) by {
                if occurs_at(h@, n@, k) {
                    assert(k <= h@.len());
                }
            }
        }
    }
    r
}

/// The versions of `all` that `key_word` keeps, in order.
pub fn filter_versions(all: &Vec<String>, key_word: Option<&str>) -> (r: Vec<String>)
    ensures
        views(r@) == filter_spec(views(all@), opt_view(key_word)),
{
    let mut r: Vec<String> = Vec::new();
    let n = all.len();
    let mut i: usize = 0;
    while i < n
        invariant
            n == all@.len(),
            i <= n,
            views(r@) == filter_spec(views(all@).take(i as int), opt_view(key_word)),
        decreases n - i,
    {
        let v = all[i].clone();
        let keep = match key_word {
            Some(k) => k.is_empty() || contains_str(v.as_str(), k),
            None => true,
        };
        proof {
            let s = views(all@);
            assert(s.take(i + 1) =~= s.take(i as int).push(v@));
            match key_word {
                Some(k) => {
                    if k@.len() > 0 {
                        s.take(i as int).lemma_filter_push(v@, containing(k@));
                    }
                },
                None => {},
            }
        }
        if keep {
            r.push(v);
            proof {
                assert(views(r@) =~= views(r@).drop_last().push(r@.last()@));
            }
        }
        proof {
            assert(views(r@) =~= filter_spec(views(all@).take(i + 1), opt_view(key_word)));
        }
        i += 1;
    }
    proof {
        assert(views(all@).take(n as int) =~= views(all@));
    }
    r
}


/// Whether `v` is among `list`.
pub fn contains_version(list: &Vec<String>, v: &String) -> (r: bool)
    ensures
        r == views(list@).contains(v@),
{
    let n = list.len();
    let mut i: usize = 0;
    while i < n
        invariant
            n == list@.len(),
            i <= n,
            forall|k: int| 0 <= k < i ==> list@[k]@ != v@,
        decreases n - i,
    {
        if list[i].eq(v) {
            proof {
                assert(views(list@)[i as int] == v@);
            }
            return true;
        }
        i += 1;
    }
    proof {
        assert forall|k: int| 0 <= k < views(list@).len() implies views(list@)[k] != v@ by {
            assert(views(list@)[k] == list@[k]@);
        }
    }
    false
}

/// Annotates `version` with whether it is installed and whether it is the active one.
pub fn annotate(version: String, installed: &Vec<String>, current: &Option<String>) -> (r: VersionInfo)
    ensures
        r@ == record_spec(version@, views(installed@), opt_string_view(*current)),
{
    let inst = contains_version(installed, &version);
    let active = match current {
        Some(c) => inst && c.eq(&version),
        None => false,
    };
    VersionInfo { version, install_status: inst, use_status: active }
}

/// The page `page` of size `page_size` of the versions of `all` that `key_word`
/// keeps, each annotated with the install state. A page past the end is empty.
pub fn build_page(
    all: &Vec<String>,
    installed: &Vec<String>,
    current: &Option<String>,
    page: usize,
    page_size: usize,
    key_word: Option<&str>,
) -> (r: Result<PageResult, LvmError>)
    ensures
        page_size == 0 <==> r is Err,
        r is Err ==> r->Err_0 is InvalidPageSize,
        r is Ok ==> r->Ok_0@ == page_spec(
            views(all@),
            views(installed@),
            opt_string_view(*current),
            page as int,
            page_size as int,
            opt_view(key_word),
        ),
{
    if page_size == 0 {
        return Err(LvmError::InvalidPageSize);
    }
    let filtered = filter_versions(all, key_word);
    let total = filtered.len();
    let ghost f = views(filtered@);
    proof {
        assert(page as int * page_size as int <= 0xffff_ffff_ffff_ffff * 0xffff_ffff_ffff_ffff)
            by (nonlinear_arith)
            requires
                page <= 0xffff_ffff_ffff_ffff,
                page_size <= 0xffff_ffff_ffff_ffff,
        ;
    }
    let start: u128 = page as u128 * page_size as u128;
    let stop: u128 = if start + page_size as u128 <= total as u128 {
        start + page_size as u128
    } else {
        total as u128
    };
    let mut list: Vec<VersionInfo> = Vec::new();
    if start < total as u128 {
        let lo = start as usize;
        let hi = stop as usize;
        let mut k: usize = lo;
        while k < hi
            invariant
                f == views(filtered@),
                total == f.len(),
                lo == page * page_size,
                lo <= k <= hi <= total,
                hi - lo == page_len(total as int, page as int, page_size as int),
                record_views(list@) =~= Seq::new(
                    (k - lo) as nat,
                    |j: int| record_spec(f[lo + j], views(installed@), opt_string_view(*current)),
                ),
            decreases hi - k,
        {
            let item = annotate(filtered[k].clone(), installed, current);
            let ghost before = record_views(list@);
            list.push(item);
            proof {
                assert(f[k as int] == filtered@[k as int]@);
                assert(record_views(list@) =~= before.push(list@.last()@));
            }
            k += 1;
        }
    }
    let r = PageResult { total, list };
    proof {
        let want = page_spec(
            views(all@),
            views(installed@),
            opt_string_view(*current),
            page as int,
            page_size as int,
            opt_view(key_word),
        );
        assert(r@.1 =~= want.1);
    }
    Ok(r)
}


/// A page holds `max(0, min(page_size, total - page * page_size))` items, where
/// `total` counts the filtered catalog; a page past the end is empty, not an error.
pub proof fn lemma_page_length(
    all: Seq<Seq<char>>,
    installed: Seq<Seq<char>>,
    current: Option<Seq<char>>,
    page: nat,
    page_size: nat,
    key_word: Option<Seq<char>>,
)
    ensures
        ({
            let (total, items) = page_spec(all, installed, current, page as int, page_size as int, key_word);
            let rest = total - page * page_size;
            &&& total == filter_spec(all, key_word).len()
            &&& items.len() == (if rest <= 0 {
                0
            } else if rest < page_size {
                rest
            } else {
                page_size as int
            })
            &&& page * page_size >= total ==> items.len() == 0
        }),
{
}

/// No keyword and an empty keyword both leave the catalog whole; a non-empty
/// keyword keeps exactly the identifiers that contain it.
pub proof fn lemma_filter_semantics(all: Seq<Seq<char>>, k: Seq<char>)
    ensures
        filter_spec(all, None) == all,
        filter_spec(all, Some(Seq::empty())) == all,
        k.len() > 0 ==> forall|v: Seq<char>|
            #[trigger] filter_spec(all, Some(k)).contains(v) <==> (all.contains(v) && contains_sub(
                v,
                k,
            )),
{
    if k.len() > 0 {
        assert forall|v: Seq<char>|
            #[trigger] filter_spec(all, Some(k)).contains(v) <==> (all.contains(v) && contains_sub(
                v,
                k,
            )) by {
            let f = all.filter(containing(k));
            if f.contains(v) {
                let i = choose|i: int| 0 <= i < f.len() && f[i] == v;
                all.lemma_filter_contains_rev(containing(k), v);
                all.lemma_filter_pred(containing(k), i);
            }
            if all.contains(v) && contains_sub(v, k) {
                let i = choose|i: int| 0 <= i < all.len() && all[i] == v;
                all.lemma_filter_contains(containing(k), i);
            }
        }
    }
}

/// No record of a page is active without being installed.
pub proof fn lemma_active_implies_installed(
    all: Seq<Seq<char>>,
    installed: Seq<Seq<char>>,
    current: Option<Seq<char>>,
    page: int,
    page_size: int,
    key_word: Option<Seq<char>>,
)
    ensures
        forall|i: int|
            0 <= i < page_spec(all, installed, current, page, page_size, key_word).1.len() ==> (
            #[trigger] page_spec(all, installed, current, page, page_size, key_word).1[i]).2
                ==> page_spec(all, installed, current, page, page_size, key_word).1[i].1,
{
}

} // verus!
