//! The Python backend: platform and architecture tags, installer locations,
//! and the extraction of release identifiers from the distributor's listing.

use crate::error::LvmError;
use crate::semver::{chars_of, newest_first_of, sort_versions_desc, views};
use vstd::prelude::*;
use vstd::string::StringExecFns;

verus! {

/// The Python backend; it holds no state of its own.
#[derive(Clone, Copy, Debug)]
pub struct PythonInstaller;

/// The pattern that picks release directories out of the distributor's listing.
pub const LISTING_PATTERN: &'static str = "href=\"(\\d+\\.\\d+\\.\\d+)/\"";

/// For each match of `pattern` in `text`, left to right, the text of its first
/// group, or `None` where that group took no part in the match.
pub uninterp spec fn group_one_matches(pattern: Seq<char>, text: Seq<char>) -> Seq<Option<Seq<char>>>;

/// Whether `pattern` compiles into a regular expression under the default limits.
pub uninterp spec fn pattern_compiles(pattern: Seq<char>) -> bool;

pub open spec fn opt_views(v: Seq<Option<String>>) -> Seq<Option<Seq<char>>> {
    v.map_values(
        |o: Option<String>|
            match o {
                Some(s) => Some(s@),
                None => None,
            },
    )
}

/// Relies on regex: `Regex::new` compiles `pattern` (an error for an invalid or
/// oversized pattern, which depends on the pattern alone), `Regex::captures_iter` walks the matches in `text` left to
/// right, and `Captures::get(1)` gives the first group's text, if it took part.
#[verifier::external_body]
fn regex_group_one(pattern: &str, text: &str) -> (r: Result<Vec<Option<String>>, String>)
    ensures
        r is Ok <==> pattern_compiles(pattern@),
        r is Ok ==> opt_views(r->Ok_0@) == group_one_matches(pattern@, text@),
{
    let re = regex::Regex::new(pattern).map_err(|e| e.to_string())?;
    Ok(re.captures_iter(text).map(|c| c.get(1).map(|m| m.as_str().to_string())).collect())
}

/// A Python 3 release: the identifier starts with `3.`.
pub open spec fn is_python3(v: Seq<char>) -> bool {
    v.len() >= 2 && v[0] == '3' && v[1] == '.'
}

/// The Python 3 identifiers among the matches, in order.
pub open spec fn python3_tokens(m: Seq<Option<Seq<char>>>) -> Seq<Seq<char>>
    decreases m.len(),
{
    if m.len() == 0 {
        seq![]
    } else {
        let pre = python3_tokens(m.drop_last());
        match m.last() {
            Some(v) => if is_python3(v) {
                pre.push(v)
            } else {
                pre
            },
            None => pre,
        }
    }
}

/// Whether two strings hold the same characters.
pub fn str_eq(a: &str, b: &str) -> (r: bool)
    ensures
        r == (a@ == b@),
{
    let x = chars_of(a);
    let y = chars_of(b);
    if x.len() != y.len() {
        return false;
    }
    let mut i: usize = 0;
    while i < x.len()
        invariant
            x@ == a@,
            y@ == b@,
            x@.len() == y@.len(),
            i <= x@.len(),
            forall|k: int| 0 <= k < i ==> x@[k] == y@[k],
        decreases x@.len() - i,
    {
        if x[i] != y[i] {
            return false;
        }
        i += 1;
    }
    proof {
        assert(x@ =~= y@);
    }
    true
}

/// Keeps the Python 3 identifiers among the matches and orders them newest first.
/// A listing with none of them means that its format changed.
pub fn select_versions(matches: Vec<Option<String>>) -> (r: Result<Vec<String>, LvmError>)
    ensures
        r is Ok <==> python3_tokens(opt_views(matches@)).len() > 0,
        r is Ok ==> newest_first_of(views(r->Ok_0@), python3_tokens(opt_views(matches@))),
        r is Err ==> r->Err_0 is ParseEmpty,
{
    let ghost m = opt_views(matches@);
    let mut versions: Vec<String> = Vec::new();
    let n = matches.len();
    let mut i: usize = 0;
    while i < n
        invariant
            n == matches@.len(),
            m == opt_views(matches@),
            i <= n,
            views(versions@) == python3_tokens(m.take(i as int)),
        decreases n - i,
    {
        proof {
            assert(m.take(i + 1).drop_last() =~= m.take(i as int));
        }
        match &matches[i] {
            Some(v) => {
                let keep = v.unicode_len() >= 2 && v.get_char(0) == '3' && v.get_char(1) == '.';
                if keep {
                    versions.push(v.clone());
                    proof {
                        assert(views(versions@) =~= views(versions@).drop_last().push(v@));
                    }
                }
            },
            None => {},
        }
        i += 1;
    }
    proof {
        assert(m.take(n as int) =~= m);
    }
    if versions.len() == 0 {
        return Err(LvmError::ParseEmpty);
    }
    sort_versions_desc(&mut versions);
    Ok(versions)
}

/// Where the distributor keeps the installer of `version` for a platform and
/// architecture tag; `None` for a platform that has no installer.
pub open spec fn download_url_spec(version: Seq<char>, platform: Seq<char>, arch: Seq<char>) -> Option<
    Seq<char>,
> {
    let dir = "https://www.python.org/ftp/python/"@ + version + "/"@;
    if platform == "windows"@ {
        let suffix = if arch == "x86_64"@ {
            "amd64"@
        } else {
            "win32"@
        };
        Some(dir + "python-"@ + version + "-embed-"@ + suffix + ".zip"@)
    } else if platform == "macos"@ {
        Some(dir + "python-"@ + version + "-macosx11.0.pkg"@)
    } else if platform == "linux"@ {
        Some(dir + "Python-"@ + version + ".tgz"@)
    } else {
        None
    }
}

/// The text after the last `/` of `s`; all of `s` where it has none.
pub open spec fn last_segment(s: Seq<char>) -> Seq<char>
    decreases s.len(),
{
    if s.len() == 0 {
        s
    } else if s.last() == '/' {
        Seq::empty()
    } else {
        last_segment(s.drop_last()).push(s.last())
    }
}

/// The file name that a download from `url` is saved under.
pub fn file_name_of(url: &str) -> (r: String)
    ensures
        r@ == last_segment(url@),
{
    let cs = chars_of(url);
    let n = cs.len();
    let mut i: usize = n;
    proof {
        assert(cs@.take(n as int) =~= cs@);
        assert(cs@.subrange(n as int, n as int) =~= Seq::<char>::empty());
        assert(last_segment(cs@) + Seq::<char>::empty() =~= last_segment(cs@));
    }
    while i > 0 && cs[i - 1] != '/'
        invariant
            cs@ == url@,
            n == cs@.len(),
            i <= n,
            last_segment(cs@) == last_segment(cs@.take(i as int)) + cs@.subrange(i as int, n as int),
        decreases i,
    {
        proof {
            let t = cs@.take(i as int);
            assert(t.drop_last() =~= cs@.take(i - 1));
            assert(cs@.subrange(i - 1, n as int) =~= seq![t.last()] + cs@.subrange(i as int, n as int));
            assert(last_segment(t) == last_segment(t.drop_last()).push(t.last()));
            assert(last_segment(t.drop_last()).push(t.last()) + cs@.subrange(i as int, n as int)
                =~= last_segment(t.drop_last()) + cs@.subrange(i - 1, n as int));
        }
        i -= 1;
    }
    proof {
        let t = cs@.take(i as int);
        if i > 0 {
            assert(t.last() == cs@[i - 1]);
        }
        assert(last_segment(t) =~= Seq::<char>::empty());
        assert(Seq::<char>::empty() + cs@.subrange(i as int, n as int) =~= cs@.subrange(i as int, n as int));
    }
    String::from_str(url.substring_char(i, n))
}

impl PythonInstaller {
    pub fn new() -> Self {
        PythonInstaller
    }

    /// The platform tag for an operating system name: `windows`, `macos` and
    /// `linux` stand for themselves, anything else is `unknown`.
    pub fn get_platform(&self, os: &str) -> (r: String)
        ensures
            r@ == (if os@ == "windows"@ || os@ == "macos"@ || os@ == "linux"@ {
                os@
            } else {
                "unknown"@
            }),
    {
        if str_eq(os, "windows") || str_eq(os, "macos") || str_eq(os, "linux") {
            String::from_str(os)
        } else {
            String::from_str("unknown")
        }
    }

    /// The architecture tag for a target architecture name: `x86_64` stays,
    /// `aarch64` becomes `arm64`, anything else is `unknown`.
    pub fn get_arch(&self, arch: &str) -> (r: String)
        ensures
            r@ == (if arch@ == "x86_64"@ {
                "x86_64"@
            } else if arch@ == "aarch64"@ {
                "arm64"@
            } else {
                "unknown"@
            }),
    {
        if str_eq(arch, "x86_64") {
            String::from_str("x86_64")
        } else if str_eq(arch, "aarch64") {
            String::from_str("arm64")
        } else {
            String::from_str("unknown")
        }
    }

    /// The base directory of all installations: `custom` where it is set,
    /// otherwise `.lvm` under `home`, joined with `separator`.
    pub fn get_base_dir(&self, custom: Option<String>, home: &str, separator: &str) -> (r: String)
        ensures
            r@ == (match custom {
                Some(c) => c@,
                None => home@ + separator@ + ".lvm"@,
            }),
    {
        match custom {
            Some(c) => c,
            None => {
                let mut r = String::from_str(home);
                r.append(separator);
                r.append(".lvm");
                r
            },
        }
    }

    /// The address of the installer of `version` for the given platform and
    /// architecture tags (see `get_platform` and `get_arch`).
    pub fn download_url(&self, version: &str, platform: &str, arch: &str) -> (r: Result<
        String,
        LvmError,
    >)
        ensures
            download_url_spec(version@, platform@, arch@) is Some <==> r is Ok,
            r is Ok ==> r->Ok_0@ == download_url_spec(version@, platform@, arch@)->0,
            r is Err ==> r->Err_0 is UnsupportedPlatform,
    {
        let mut url = String::from_str("https://www.python.org/ftp/python/");
        url.append(version);
        url.append("/");
        if str_eq(platform, "windows") {
            url.append("python-");
            url.append(version);
            url.append("-embed-");
            if str_eq(arch, "x86_64") {
                url.append("amd64");
            } else {
                url.append("win32");
            }
            url.append(".zip");
        } else if str_eq(platform, "macos") {
            url.append("python-");
            url.append(version);
            url.append("-macosx11.0.pkg");
        } else if str_eq(platform, "linux") {
            url.append("Python-");
            url.append(version);
            url.append(".tgz");
        } else {
            return Err(LvmError::UnsupportedPlatform(String::from_str(platform)));
        }
        Ok(url)
    }

    /// The release identifiers of the distributor's listing page: the Python 3
    /// directories that it links, newest first.
    pub fn catalog_from_listing(&self, html: &str) -> (r: Result<Vec<String>, LvmError>)
        ensures
            python3_tokens(group_one_matches(LISTING_PATTERN@, html@)).len() == 0 ==> r is Err,
            r is Ok ==> newest_first_of(
                views(r->Ok_0@),
                python3_tokens(group_one_matches(LISTING_PATTERN@, html@)),
            ),
            pattern_compiles(LISTING_PATTERN@) && python3_tokens(
                group_one_matches(LISTING_PATTERN@, html@),
            ).len() > 0 ==> r is Ok,
            r is Err ==> (r->Err_0 is ParseEmpty || r->Err_0 is Pattern),
            r is Err && r->Err_0 is Pattern ==> !pattern_compiles(LISTING_PATTERN@),
            r is Err && r->Err_0 is ParseEmpty ==> python3_tokens(
                group_one_matches(LISTING_PATTERN@, html@),
            ).len() == 0,
    {
        match regex_group_one(LISTING_PATTERN, html) {
            Ok(matches) => select_versions(matches),
            Err(e) => Err(LvmError::Pattern(e)),
        }
    }
}

} // verus!
