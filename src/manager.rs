//! The language backend registry and the catalog request that it serves.

use crate::catalog::{
    build_page, contains_sub, containing, filter_spec, opt_string_view, opt_view, page_spec,
    PageResult,
};
use crate::error::LvmError;
use crate::python::{str_eq, PythonInstaller};
use crate::semver::{lemma_filter_len_of_permutation, newest_first_of, sort_versions_desc, views};
use vstd::prelude::*;

verus! {

/// The languages that have a backend.
#[derive(PartialEq, Eq, Structural, Clone, Copy, Debug)]
pub enum Language {
    Python,
}

/// A resolved backend, by language.
pub struct LanguageManager {
    language: Language,
    installer: PythonInstaller,
}

impl LanguageManager {
    pub closed spec fn language_spec(&self) -> Language {
        self.language
    }

    /// Resolves a language name; only an exact, registered name resolves.
    pub fn new(language: String) -> (r: Result<Self, LvmError>)
        ensures
            r is Ok <==> language@ == "python"@,
            r is Ok ==> r->Ok_0.language_spec() == Language::Python,
            r is Err ==> r->Err_0 == LvmError::UnsupportedLanguage(language),
    {
        if str_eq(language.as_str(), "python") {
            Ok(LanguageManager { language: Language::Python, installer: PythonInstaller::new() })
        } else {
            Err(LvmError::UnsupportedLanguage(language))
        }
    }

    /// The language that this manager serves.
    pub fn language(&self) -> (r: Language)
        ensures
            r == self.language_spec(),
    {
        self.language
    }

    /// The backend that this manager resolved to.
    pub fn installer(&self) -> &PythonInstaller {
        &self.installer
    }

    /// One page of the catalog view, from what the backend returned: the
    /// catalog, the installed versions and the active marker. A failure of any
    /// of them fails the whole request with that error; a page of size zero is
    /// refused first. The catalog is ordered newest first, then filtered by
    /// `key_word` and cut into pages.
    pub fn list_versions(
        &self,
        page: usize,
        page_size: usize,
        key_word: Option<&str>,
        catalog: Result<Vec<String>, LvmError>,
        installed: Result<Vec<String>, LvmError>,
        current: Result<Option<String>, LvmError>,
    ) -> (r: Result<PageResult, LvmError>)
        ensures
            page_size == 0 ==> r == Err::<PageResult, LvmError>(LvmError::InvalidPageSize),
            page_size > 0 && catalog is Err ==> r == Err::<PageResult, LvmError>(catalog->Err_0),
            page_size > 0 && catalog is Ok && installed is Err ==> r == Err::<PageResult, LvmError>(
                installed->Err_0,
            ),
            page_size > 0 && catalog is Ok && installed is Ok && current is Err ==> r == Err::<
                PageResult,
                LvmError,
            >(current->Err_0),
            page_size > 0 && catalog is Ok && installed is Ok && current is Ok ==> r is Ok,
            r is Ok ==> exists|sorted: Seq<Seq<char>>|
                #[trigger] newest_first_of(sorted, views(catalog->Ok_0@)) && r->Ok_0@ == page_spec(
                    sorted,
                    views(installed->Ok_0@),
                    opt_string_view(current->Ok_0),
                    page as int,
                    page_size as int,
                    opt_view(key_word),
                ),
            r is Ok ==> r->Ok_0@.0 == filter_spec(views(catalog->Ok_0@), opt_view(key_word)).len(),
            r is Ok && key_word is Some ==> forall|i: int|
                0 <= i < r->Ok_0@.1.len() ==> contains_sub(
                    #[trigger] r->Ok_0@.1[i].0,
                    key_word->0@,
                ),
    {
        if page_size == 0 {
            return Err(LvmError::InvalidPageSize);
        }
        let mut all = match catalog {
            Ok(v) => v,
            Err(e) => return Err(e),
        };
        let installed = match installed {
            Ok(v) => v,
            Err(e) => return Err(e),
        };
        let current = match current {
            Ok(v) => v,
            Err(e) => return Err(e),
        };
        let ghost input = views(all@);
        sort_versions_desc(&mut all);
        let r = build_page(&all, &installed, &current, page, page_size, key_word);
        proof {
            broadcast use vstd::seq_lib::group_to_multiset_ensures;
            let sorted = views(all@);
            match key_word {
                Some(k) => {
                    lemma_filter_len_of_permutation(sorted, input, containing(k@));
                    if k@.len() == 0 {
                        assert(sorted.to_multiset().len() == input.to_multiset().len());
                    }
                    if r is Ok {
                        let f = filter_spec(sorted, Some(k@));
                        assert forall|i: int| 0 <= i < r->Ok_0@.1.len() implies contains_sub(
                            #[trigger] r->Ok_0@.1[i].0,
                            k@,
                        ) by {
                            let j = page * page_size + i;
                            assert(r->Ok_0@.1[i].0 == f[j]);
                            if k@.len() > 0 {
                                sorted.lemma_filter_pred(containing(k@), j);
                            } else {
                                assert(contains_sub(f[j], k@)) by {
                                    assert(f[j].subrange(0, 0) =~= k@);
                                    assert(crate::catalog::occurs_at(f[j], k@, 0));
                                }
                            }
                        }
                    }
                },
                None => {
                    assert(sorted.to_multiset().len() == input.to_multiset().len());
                },
            }
        }
        r
    }
}

} // verus!
