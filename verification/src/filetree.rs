//! The file tree: the index of a project's files keyed by root-relative
//! path, with language tag, optional annotations, and the extraction flag.

use vstd::prelude::*;
use crate::symbol::{opt_view, Language};

verus! {

/// Why a file-tree operation was refused.
#[derive(Clone, Copy, PartialEq, Eq, Structural, Debug)]
pub enum TreeError {
    NotFound,
    AlreadyDefined,
}

/// One indexed file.
pub struct FileEntry {
    pub path: String,
    pub language: Language,
    pub definition: Option<String>,
    pub mark: Option<String>,
    pub symbols_extracted: bool,
}

pub struct FileEntryV {
    pub path: Seq<char>,
    pub language: Language,
    pub definition: Option<Seq<char>>,
    pub mark: Option<Seq<char>>,
    pub symbols_extracted: bool,
}

impl View for FileEntry {
    type V = FileEntryV;

    open spec fn view(&self) -> FileEntryV {
        FileEntryV {
            path: self.path@,
            language: self.language,
            definition: opt_view(self.definition),
            mark: opt_view(self.mark),
            symbols_extracted: self.symbols_extracted,
        }
    }
}

pub open spec fn feviews(s: Seq<FileEntry>) -> Seq<FileEntryV> {
    s.map_values(|e: FileEntry| e@)
}

pub open spec fn ft_has(fs: Seq<FileEntryV>, p: Seq<char>) -> bool {
    exists|i: int| 0 <= i < fs.len() && (#[trigger] fs[i]).path == p
}

pub open spec fn ft_idx(fs: Seq<FileEntryV>, p: Seq<char>) -> int {
    choose|i: int| 0 <= i < fs.len() && (#[trigger] fs[i]).path == p
}

/// The entry stored under path `p`.
pub open spec fn ft_get(fs: Seq<FileEntryV>, p: Seq<char>) -> FileEntryV {
    fs[ft_idx(fs, p)]
}

pub open spec fn ft_unique(fs: Seq<FileEntryV>) -> bool {
    forall|i: int, j: int|
        0 <= i < j < fs.len() ==> (#[trigger] fs[i]).path != (#[trigger] fs[j]).path
}

pub proof fn lemma_ft_get_at(fs: Seq<FileEntryV>, i: int)
    requires
        ft_unique(fs),
        0 <= i < fs.len(),
    ensures
        ft_has(fs, fs[i].path),
        ft_get(fs, fs[i].path) == fs[i],
{
    assert(ft_has(fs, fs[i].path));
    let j = ft_idx(fs, fs[i].path);
    if i != j {
        assert(fs[i].path != fs[j].path);
    }
}

/// Index of a project's files; paths are forward-slash, root-relative,
/// and unique.
pub struct FileTree {
    pub entries: Vec<FileEntry>,
}

impl FileTree {
    pub open spec fn files(self) -> Seq<FileEntryV> {
        feviews(self.entries@)
    }

    pub open spec fn wf(self) -> bool {
        ft_unique(self.files())
    }

    pub fn new() -> (r: FileTree)
        ensures
            r.wf(),
            r.files() =~= Seq::<FileEntryV>::empty(),
    {
        let r = FileTree { entries: Vec::new() };
        proof {
            assert(r.files() =~= Seq::<FileEntryV>::empty());
        }
        r
    }

    pub fn len(&self) -> (r: usize)
        ensures
            r == self.files().len(),
    {
        self.entries.len()
    }

    fn find(&self, path: &str) -> (r: Option<usize>)
        ensures
            match r {
                Some(i) => i < self.files().len() && self.files()[i as int].path == path@,
                None => !ft_has(self.files(), path@),
            },
    {
        let mut i: usize = 0;
        while i < self.entries.len()
            invariant
                i <= self.entries@.len(),
                forall|t: int| 0 <= t < i ==> (#[trigger] self.files()[t]).path != path@,
            decreases self.entries@.len() - i,
        {
            if crate::symbol::str_eq(self.entries[i].path.as_str(), path) {
                return Some(i);
            }
            i = i + 1;
        }
        proof {
            if ft_has(self.files(), path@) {
                let t = ft_idx(self.files(), path@);
                assert(self.files()[t].path != path@);
            }
        }
        None
    }

    /// Replace the entry at a found index, leaving every other entry in
    /// place.
    fn replace_at(&mut self, i: usize, entry: FileEntry)
        requires
            old(self).wf(),
            i < old(self).files().len(),
            entry@.path == old(self).files()[i as int].path,
        ensures
            final(self).wf(),
            final(self).files().len() == old(self).files().len(),
            final(self).files()[i as int] == entry@,
            forall|t: int|
                0 <= t < old(self).files().len() && t != i ==> final(self).files()[t] == old(
                    self,
                ).files()[t],
            ft_has(final(self).files(), entry@.path),
            ft_get(final(self).files(), entry@.path) == entry@,
            forall|p: Seq<char>|
                #[trigger] ft_has(final(self).files(), p) <==> ft_has(old(self).files(), p),
            forall|p: Seq<char>|
                p != entry@.path && ft_has(old(self).files(), p) ==> #[trigger] ft_get(
                    final(self).files(),
                    p,
                ) == ft_get(old(self).files(), p),
    {
        let ghost f0 = self.files();
        self.entries.remove(i);
        self.entries.insert(i, entry);
        proof {
            let f1 = self.files();
            assert(f1.len() == f0.len());
            assert(forall|t: int| 0 <= t < f0.len() && t != i ==> f1[t] == f0[t]);
            assert(f1[i as int].path == f0[i as int].path);
            assert(ft_unique(f1)) by {
                assert forall|a: int, b: int|
                    0 <= a < b < f1.len() implies (#[trigger] f1[a]).path
                    != (#[trigger] f1[b]).path by {
                    assert(f0[a].path != f0[b].path);
                }
            }
            lemma_ft_get_at(f1, i as int);
            assert forall|p: Seq<char>|
                #[trigger] ft_has(f1, p) <==> ft_has(f0, p) by {
                if ft_has(f1, p) {
                    let t = ft_idx(f1, p);
                    assert(f0[t].path == p);
                }
                if ft_has(f0, p) {
                    let t = ft_idx(f0, p);
                    assert(f1[t].path == p);
                }
            }
            assert forall|p: Seq<char>|
                p != f1[i as int].path && ft_has(f0, p) implies #[trigger] ft_get(f1, p)
                == ft_get(f0, p) by {
                let t = ft_idx(f0, p);
                assert(f0[t].path == p);
                lemma_ft_get_at(f0, t);
                lemma_ft_get_at(f1, t);
            }
        }
    }

    /// Insert or refresh a file: a new path gets a fresh entry with no
    /// annotations and the extraction flag clear; an existing entry keeps
    /// its annotations and flag and only takes the new language.
    pub fn upsert(&mut self, path: &str, language: Language)
        requires
            old(self).wf(),
        ensures
            final(self).wf(),
            ft_has(final(self).files(), path@),
            ft_get(final(self).files(), path@).language == language,
            ft_get(final(self).files(), path@).path == path@,
            !ft_has(old(self).files(), path@) ==> ft_get(final(self).files(), path@) == (
            FileEntryV {
                path: path@,
                language,
                definition: None,
                mark: None,
                symbols_extracted: false,
            }),
            ft_has(old(self).files(), path@) ==> ft_get(final(self).files(), path@) == (
            FileEntryV {
                language,
                ..ft_get(old(self).files(), path@)
            }),
            forall|p: Seq<char>|
                p != path@ ==> (#[trigger] ft_has(final(self).files(), p) <==> ft_has(
                    old(self).files(),
                    p,
                )),
            forall|p: Seq<char>|
                p != path@ && ft_has(old(self).files(), p) ==> #[trigger] ft_get(
                    final(self).files(),
                    p,
                ) == ft_get(old(self).files(), p),
    {
        let ghost f0 = self.files();
        match self.find(path) {
            Some(i) => {
                proof {
                    lemma_ft_get_at(f0, i as int);
                }
                let old_entry = &self.entries[i];
                let entry = FileEntry {
                    path: old_entry.path.clone(),
                    language,
                    definition: crate::symbol::clone_opt(&old_entry.definition),
                    mark: crate::symbol::clone_opt(&old_entry.mark),
                    symbols_extracted: old_entry.symbols_extracted,
                };
                self.replace_at(i, entry);
            },
            None => {
                let entry = FileEntry {
                    path: path.to_owned(),
                    language,
                    definition: None,
                    mark: None,
                    symbols_extracted: false,
                };
                self.entries.push(entry);
                proof {
                    let f1 = self.files();
                    assert(f1 =~= f0.push(f1[f0.len() as int]));
                    assert(ft_unique(f1)) by {
                        assert forall|a: int, b: int|
                            0 <= a < b < f1.len() implies (#[trigger] f1[a]).path
                            != (#[trigger] f1[b]).path by {
                            if b == f0.len() {
                                assert(ft_has(f0, f0[a].path));
                            } else {
                                assert(f0[a].path != f0[b].path);
                            }
                        }
                    }
                    lemma_ft_get_at(f1, f0.len() as int);
                    assert forall|p: Seq<char>|
                        p != path@ implies (#[trigger] ft_has(f1, p) <==> ft_has(
                        f0,
                        p,
                    )) by {
                        if ft_has(f1, p) {
                            let t = ft_idx(f1, p);
                            assert(t < f0.len());
                            assert(f0[t].path == p);
                        }
                        if ft_has(f0, p) {
                            let t = ft_idx(f0, p);
                            assert(f1[t].path == p);
                        }
                    }
                    assert forall|p: Seq<char>|
                        p != path@ && ft_has(f0, p) implies #[trigger] ft_get(f1, p)
                        == ft_get(f0, p) by {
                        let t = ft_idx(f0, p);
                        assert(f0[t].path == p);
                        lemma_ft_get_at(f0, t);
                        lemma_ft_get_at(f1, t);
                    }
                }
            },
        }
    }

    /// The entry for a path.
    pub fn get(&self, path: &str) -> (r: Option<FileEntry>)
        requires
            self.wf(),
        ensures
            match r {
                Some(e) => ft_has(self.files(), path@) && e@ == ft_get(self.files(), path@),
                None => !ft_has(self.files(), path@),
            },
    {
        match self.find(path) {
            Some(i) => {
                proof {
                    lemma_ft_get_at(self.files(), i as int);
                }
                let e = &self.entries[i];
                Some(
                    FileEntry {
                        path: e.path.clone(),
                        language: e.language,
                        definition: crate::symbol::clone_opt(&e.definition),
                        mark: crate::symbol::clone_opt(&e.mark),
                        symbols_extracted: e.symbols_extracted,
                    },
                )
            },
            None => None,
        }
    }

    /// Remove a path; reports whether it was present.
    pub fn remove(&mut self, path: &str) -> (r: bool)
        requires
            old(self).wf(),
        ensures
            final(self).wf(),
            r == ft_has(old(self).files(), path@),
            !ft_has(final(self).files(), path@),
            forall|p: Seq<char>|
                p != path@ ==> (#[trigger] ft_has(final(self).files(), p) <==> ft_has(
                    old(self).files(),
                    p,
                )),
            forall|p: Seq<char>|
                p != path@ && ft_has(old(self).files(), p) ==> #[trigger] ft_get(
                    final(self).files(),
                    p,
                ) == ft_get(old(self).files(), p),
    {
        let ghost f0 = self.files();
        match self.find(path) {
            Some(i) => {
                self.entries.remove(i);
                proof {
                    let f1 = self.files();
                    assert(f1 =~= f0.remove(i as int));
                    assert(forall|t: int| 0 <= t < i ==> f1[t] == f0[t]);
                    assert(forall|t: int| i <= t < f1.len() ==> f1[t] == f0[t + 1]);
                    assert(ft_unique(f1)) by {
                        assert forall|a: int, b: int|
                            0 <= a < b < f1.len() implies (#[trigger] f1[a]).path
                            != (#[trigger] f1[b]).path by {
                            let a0: int = if a < i { a } else { a + 1 };
                            let b2: int = if b < i { b } else { b + 1 };
                            assert(f0[a0].path != f0[b2].path);
                        }
                    }
                    assert(!ft_has(f1, path@)) by {
                        if ft_has(f1, path@) {
                            let t = ft_idx(f1, path@);
                            let t0: int = if t < i { t } else { t + 1 };
                            assert(f0[t0].path == path@);
                            assert(t0 != i);
                            assert(f0[t0].path != f0[i as int].path);
                        }
                    }
                    assert forall|p: Seq<char>|
                        p != path@ implies (#[trigger] ft_has(f1, p) <==> ft_has(
                        f0,
                        p,
                    )) by {
                        if ft_has(f1, p) {
                            let t = ft_idx(f1, p);
                            let t0: int = if t < i { t } else { t + 1 };
                            assert(f0[t0].path == p);
                        }
                        if ft_has(f0, p) {
                            let t = ft_idx(f0, p);
                            assert(t != i);
                            let t1: int = if t < i { t } else { t - 1 };
                            assert(f1[t1].path == p);
                        }
                    }
                    assert forall|p: Seq<char>|
                        p != path@ && ft_has(f0, p) implies #[trigger] ft_get(f1, p)
                        == ft_get(f0, p) by {
                        let t = ft_idx(f0, p);
                        assert(f0[t].path == p);
                        assert(t != i);
                        let t1: int = if t < i { t } else { t - 1 };
                        assert(f1[t1].path == p);
                        lemma_ft_get_at(f0, t);
                        lemma_ft_get_at(f1, t1);
                    }
                }
                true
            },
            None => false,
        }
    }

    /// Attach a definition to a file that has none yet.
    pub fn define(&mut self, path: &str, definition: &str) -> (r: Result<(), TreeError>)
        requires
            old(self).wf(),
        ensures
            final(self).wf(),
            r matches Err(e) ==> *final(self) == *old(self) && (e == TreeError::NotFound
                <==> !ft_has(old(self).files(), path@)) && (e == TreeError::AlreadyDefined
                <==> ft_has(old(self).files(), path@) && ft_get(old(self).files(), path@)
                .definition is Some),
            r is Ok <==> ft_has(old(self).files(), path@) && ft_get(old(self).files(), path@)
                .definition is None,
            r is Ok ==> ft_get(final(self).files(), path@) == (FileEntryV {
                definition: Some(definition@),
                ..ft_get(old(self).files(), path@)
            }),
            forall|p: Seq<char>|
                #[trigger] ft_has(final(self).files(), p) <==> ft_has(old(self).files(), p),
            forall|p: Seq<char>|
                p != path@ && ft_has(old(self).files(), p) ==> #[trigger] ft_get(
                    final(self).files(),
                    p,
                ) == ft_get(old(self).files(), p),
    {
        let ghost f0 = self.files();
        match self.find(path) {
            Some(i) => {
                proof {
                    lemma_ft_get_at(f0, i as int);
                }
                if self.entries[i].definition.is_some() {
                    return Err(TreeError::AlreadyDefined);
                }
                let e = &self.entries[i];
                let entry = FileEntry {
                    path: e.path.clone(),
                    language: e.language,
                    definition: Some(definition.to_owned()),
                    mark: crate::symbol::clone_opt(&e.mark),
                    symbols_extracted: e.symbols_extracted,
                };
                self.replace_at(i, entry);
                Ok(())
            },
            None => Err(TreeError::NotFound),
        }
    }

    /// Overwrite a file's definition unconditionally.
    pub fn redefine(&mut self, path: &str, definition: &str) -> (r: Result<(), TreeError>)
        requires
            old(self).wf(),
        ensures
            final(self).wf(),
            r is Ok <==> ft_has(old(self).files(), path@),
            r is Err ==> *final(self) == *old(self),
            r is Ok ==> ft_get(final(self).files(), path@) == (FileEntryV {
                definition: Some(definition@),
                ..ft_get(old(self).files(), path@)
            }),
            forall|p: Seq<char>|
                #[trigger] ft_has(final(self).files(), p) <==> ft_has(old(self).files(), p),
            forall|p: Seq<char>|
                p != path@ && ft_has(old(self).files(), p) ==> #[trigger] ft_get(
                    final(self).files(),
                    p,
                ) == ft_get(old(self).files(), p),
    {
        let ghost f0 = self.files();
        match self.find(path) {
            Some(i) => {
                proof {
                    lemma_ft_get_at(f0, i as int);
                }
                let e = &self.entries[i];
                let entry = FileEntry {
                    path: e.path.clone(),
                    language: e.language,
                    definition: Some(definition.to_owned()),
                    mark: crate::symbol::clone_opt(&e.mark),
                    symbols_extracted: e.symbols_extracted,
                };
                self.replace_at(i, entry);
                Ok(())
            },
            None => Err(TreeError::NotFound),
        }
    }

    /// Overwrite a file's mark.
    pub fn mark(&mut self, path: &str, mark: &str) -> (r: Result<(), TreeError>)
        requires
            old(self).wf(),
        ensures
            final(self).wf(),
            r is Ok <==> ft_has(old(self).files(), path@),
            r is Err ==> *final(self) == *old(self),
            r is Ok ==> ft_get(final(self).files(), path@) == (FileEntryV {
                mark: Some(mark@),
                ..ft_get(old(self).files(), path@)
            }),
            forall|p: Seq<char>|
                #[trigger] ft_has(final(self).files(), p) <==> ft_has(old(self).files(), p),
            forall|p: Seq<char>|
                p != path@ && ft_has(old(self).files(), p) ==> #[trigger] ft_get(
                    final(self).files(),
                    p,
                ) == ft_get(old(self).files(), p),
    {
        let ghost f0 = self.files();
        match self.find(path) {
            Some(i) => {
                proof {
                    lemma_ft_get_at(f0, i as int);
                }
                let e = &self.entries[i];
                let entry = FileEntry {
                    path: e.path.clone(),
                    language: e.language,
                    definition: crate::symbol::clone_opt(&e.definition),
                    mark: Some(mark.to_owned()),
                    symbols_extracted: e.symbols_extracted,
                };
                self.replace_at(i, entry);
                Ok(())
            },
            None => Err(TreeError::NotFound),
        }
    }

    /// Mark a file as having had its symbols extracted.
    pub fn set_extracted(&mut self, path: &str) -> (r: bool)
        requires
            old(self).wf(),
        ensures
            final(self).wf(),
            r == ft_has(old(self).files(), path@),
            r ==> ft_get(final(self).files(), path@) == (FileEntryV {
                symbols_extracted: true,
                ..ft_get(old(self).files(), path@)
            }),
            forall|p: Seq<char>|
                #[trigger] ft_has(final(self).files(), p) <==> ft_has(old(self).files(), p),
            forall|p: Seq<char>|
                p != path@ && ft_has(old(self).files(), p) ==> #[trigger] ft_get(
                    final(self).files(),
                    p,
                ) == ft_get(old(self).files(), p),
    {
        let ghost f0 = self.files();
        match self.find(path) {
            Some(i) => {
                proof {
                    lemma_ft_get_at(f0, i as int);
                }
                let e = &self.entries[i];
                let entry = FileEntry {
                    path: e.path.clone(),
                    language: e.language,
                    definition: crate::symbol::clone_opt(&e.definition),
                    mark: crate::symbol::clone_opt(&e.mark),
                    symbols_extracted: true,
                };
                self.replace_at(i, entry);
                true
            },
            None => false,
        }
    }

    /// A snapshot of all entries, in store order.
    pub fn list(&self) -> (r: Vec<FileEntry>)
        ensures
            feviews(r@) == self.files(),
    {
        let mut out: Vec<FileEntry> = Vec::new();
        let mut i: usize = 0;
        proof {
            assert(feviews(out@) =~= self.files().take(0));
        }
        while i < self.entries.len()
            invariant
                i <= self.entries@.len(),
                feviews(out@) =~= self.files().take(i as int),
            decreases self.entries@.len() - i,
        {
            let ghost o0 = out@;
            let e = &self.entries[i];
            out.push(
                FileEntry {
                    path: e.path.clone(),
                    language: e.language,
                    definition: crate::symbol::clone_opt(&e.definition),
                    mark: crate::symbol::clone_opt(&e.mark),
                    symbols_extracted: e.symbols_extracted,
                },
            );
            proof {
                assert(feviews(out@) =~= feviews(o0).push(self.files()[i as int]));
                assert(self.files().take(i + 1) =~= self.files().take(i as int).push(
                    self.files()[i as int],
                ));
            }
            i = i + 1;
        }
        proof {
            assert(self.files().take(self.entries@.len() as int) =~= self.files());
        }
        out
    }
}

} // verus!
