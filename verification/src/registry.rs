//! The project registry: indexed projects keyed by canonical root path,
//! bounded by a cap; inserting past the cap evicts the least recently
//! active project that no live session points at, and refuses when every
//! project is still referenced.

use vstd::prelude::*;
use crate::filetree::FileTree;
use crate::symtab::SymbolTable;

verus! {

/// One indexed project: its root and derived indices, and when it was
/// last touched.
pub struct Project {
    pub root: String,
    pub tree: FileTree,
    pub table: SymbolTable,
    pub last_active: i64,
}

pub open spec fn proj_has(ps: Seq<Project>, root: Seq<char>) -> bool {
    exists|i: int| 0 <= i < ps.len() && (#[trigger] ps[i]).root@ == root
}

pub open spec fn proj_idx(ps: Seq<Project>, root: Seq<char>) -> int {
    choose|i: int| 0 <= i < ps.len() && (#[trigger] ps[i]).root@ == root
}

pub open spec fn proj_unique(ps: Seq<Project>) -> bool {
    forall|i: int, j: int|
        0 <= i < j < ps.len() ==> (#[trigger] ps[i]).root@ != (#[trigger] ps[j]).root@
}

/// Whether `root` is among the roots that live sessions point at.
pub open spec fn live_root(live: Seq<Seq<char>>, root: Seq<char>) -> bool {
    live.contains(root)
}

/// Registry of indexed projects with a capacity bound.
pub struct ProjectRegistry {
    pub projects: Vec<Project>,
    pub max_projects: usize,
}

impl ProjectRegistry {
    pub open spec fn wf(self) -> bool {
        proj_unique(self.projects@)
    }

    pub fn new(max_projects: usize) -> (r: ProjectRegistry)
        ensures
            r.wf(),
            r.projects@.len() == 0,
            r.max_projects == max_projects,
    {
        ProjectRegistry { projects: Vec::new(), max_projects }
    }

    pub fn len(&self) -> (r: usize)
        ensures
            r == self.projects@.len(),
    {
        self.projects.len()
    }

    /// Index of the project with this root.
    pub fn find(&self, root: &str) -> (r: Option<usize>)
        ensures
            match r {
                Some(i) => i < self.projects@.len() && self.projects@[i as int].root@
                    == root@,
                None => !proj_has(self.projects@, root@),
            },
    {
        let mut i: usize = 0;
        while i < self.projects.len()
            invariant
                i <= self.projects@.len(),
                forall|t: int| 0 <= t < i ==> (#[trigger] self.projects@[t]).root@ != root@,
            decreases self.projects@.len() - i,
        {
            if crate::symbol::str_eq(self.projects[i].root.as_str(), root) {
                return Some(i);
            }
            i = i + 1;
        }
        proof {
            if proj_has(self.projects@, root@) {
                let t = proj_idx(self.projects@, root@);
                assert(self.projects@[t].root@ != root@);
            }
        }
        None
    }

    /// Refresh a project's activity stamp.
    pub fn touch(&mut self, root: &str, now: i64) -> (r: bool)
        requires
            old(self).wf(),
        ensures
            final(self).wf(),
            r == proj_has(old(self).projects@, root@),
            final(self).projects@.len() == old(self).projects@.len(),
            final(self).max_projects == old(self).max_projects,
            r ==> exists|i: int|
                0 <= i < old(self).projects@.len() && (#[trigger] old(self).projects@[
                i]).root@ == root@ && final(self).projects@[i] == (Project {
                    last_active: now,
                    ..old(self).projects@[i]
                }) && (forall|t: int|
                    0 <= t < old(self).projects@.len() && t != i
                        ==> #[trigger] final(self).projects@[t] == old(self).projects@[t]),
            !r ==> final(self).projects@ == old(self).projects@,
    {
        let found = self.find(root);
        match found {
            Some(i) => {
                let ghost p0 = self.projects@;
                let mut p = self.projects.remove(i);
                p.last_active = now;
                self.projects.insert(i, p);
                proof {
                    let p1 = self.projects@;
                    assert(forall|t: int| 0 <= t < p0.len() && t != i ==> p1[t] == p0[t]);
                    assert(p1[i as int] == (Project { last_active: now, ..p0[i as int] }));
                    assert(p1[i as int].root@ == p0[i as int].root@);
                    assert(proj_unique(p1)) by {
                        assert forall|a: int, b: int|
                            0 <= a < b < p1.len() implies (#[trigger] p1[a]).root@
                            != (#[trigger] p1[b]).root@ by {
                            assert(p0[a].root@ != p0[b].root@);
                        }
                    }
                }
                true
            },
            None => false,
        }
    }

    /// Insert a newly indexed project. Under the cap the project is
    /// simply added. At the cap, the least recently active project whose
    /// root no live session holds is evicted first; when every project is
    /// still referenced, the insertion is refused and nothing changes.
    pub fn insert_project(&mut self, project: Project, live_roots: &Vec<String>) -> (r: Result<
        (),
        (),
    >)
        requires
            old(self).wf(),
            !proj_has(old(self).projects@, project.root@),
        ensures
            final(self).wf(),
            final(self).max_projects == old(self).max_projects,
            r is Err ==> *final(self) == *old(self) && old(self).projects@.len() >= old(
                self,
            ).max_projects && (forall|t: int|
                0 <= t < old(self).projects@.len() ==> live_root(
                    crate::symtab::strviews(live_roots@),
                    (#[trigger] old(self).projects@[t]).root@,
                )),
            r is Ok ==> proj_has(final(self).projects@, project.root@),
            r is Ok ==> final(self).projects@.len() <= old(self).projects@.len() + 1,
            r is Ok ==> forall|n: Seq<char>|
                #[trigger] proj_has(final(self).projects@, n) ==> (n == project.root@
                    || proj_has(old(self).projects@, n)),
            r is Ok && old(self).projects@.len() < old(self).max_projects ==> forall|
                n: Seq<char>,
            |
                #[trigger] proj_has(old(self).projects@, n) ==> proj_has(
                    final(self).projects@,
                    n,
                ),
            r is Ok && old(self).projects@.len() < old(self).max_projects
                ==> final(self).projects@ == old(self).projects@.push(project),
            r is Ok && old(self).projects@.len() >= old(self).max_projects ==> exists|e: int|
                0 <= e < old(self).projects@.len() && !live_root(
                    crate::symtab::strviews(live_roots@),
                    (#[trigger] old(self).projects@[e]).root@,
                ) && (forall|t: int|
                    0 <= t < old(self).projects@.len() && !live_root(
                        crate::symtab::strviews(live_roots@),
                        (#[trigger] old(self).projects@[t]).root@,
                    ) ==> old(self).projects@[e].last_active
                        <= old(self).projects@[t].last_active) && (forall|n: Seq<char>|
                    n != old(self).projects@[e].root@ && #[trigger] proj_has(
                        old(self).projects@,
                        n,
                    ) ==> proj_has(final(self).projects@, n)) && final(self).projects@
                    == old(self).projects@.remove(e).push(project),
    {
        let ghost p0 = self.projects@;
        let ghost lv = crate::symtab::strviews(live_roots@);
        let ghost pj = project;
        if self.projects.len() < self.max_projects {
            self.projects.push(project);
            proof {
                let p1 = self.projects@;
                assert(p1 =~= p0.push(pj));
                assert(p1 =~= p0.push(p1[p0.len() as int]));
                assert(proj_unique(p1)) by {
                    assert forall|a: int, b: int|
                        0 <= a < b < p1.len() implies (#[trigger] p1[a]).root@
                        != (#[trigger] p1[b]).root@ by {
                        if b == p0.len() {
                            assert(proj_has(p0, p0[a].root@));
                        } else {
                            assert(p0[a].root@ != p0[b].root@);
                        }
                    }
                }
                assert(proj_has(p1, project.root@)) by {
                    assert(p1[p0.len() as int].root@ == project.root@);
                }
                assert forall|n: Seq<char>|
                    #[trigger] proj_has(p1, n) implies (n == project.root@ || proj_has(
                    p0,
                    n,
                )) by {
                    let t = proj_idx(p1, n);
                    if t < p0.len() {
                        assert(p0[t].root@ == n);
                    }
                }
                assert forall|n: Seq<char>|
                    #[trigger] proj_has(p0, n) implies proj_has(p1, n) by {
                    let t = proj_idx(p0, n);
                    assert(p1[t].root@ == n);
                }
            }
            return Ok(());
        }
        // at capacity: look for the least recently active evictable project
        let mut victim: Option<usize> = None;
        let mut i: usize = 0;
        while i < self.projects.len()
            invariant
                i <= self.projects@.len(),
                lv == crate::symtab::strviews(live_roots@),
                match victim {
                    Some(v) => v < i && !live_root(lv, self.projects@[v as int].root@)
                        && forall|t: int|
                        0 <= t < i && !live_root(lv, (#[trigger] self.projects@[t]).root@)
                            ==> self.projects@[v as int].last_active
                            <= self.projects@[t].last_active,
                    None => forall|t: int|
                        0 <= t < i ==> live_root(lv, (#[trigger] self.projects@[t]).root@),
                },
            decreases self.projects@.len() - i,
        {
            let mut is_live = false;
            let mut k: usize = 0;
            while k < live_roots.len()
                invariant
                    k <= live_roots@.len(),
                    i < self.projects@.len(),
                    lv == crate::symtab::strviews(live_roots@),
                    is_live ==> live_root(lv, self.projects@[i as int].root@),
                    !is_live ==> forall|t: int|
                        0 <= t < k ==> lv[t] != self.projects@[i as int].root@,
                decreases live_roots@.len() - k,
            {
                if crate::symbol::str_eq(
                    live_roots[k].as_str(),
                    self.projects[i].root.as_str(),
                ) {
                    is_live = true;
                    proof {
                        assert(lv[k as int] == self.projects@[i as int].root@);
                    }
                }
                k = k + 1;
            }
            proof {
                if !is_live && live_root(lv, self.projects@[i as int].root@) {
                    let t = choose|t: int|
                        0 <= t < lv.len() && lv[t] == self.projects@[i as int].root@;
                    assert(lv[t] != self.projects@[i as int].root@);
                }
            }
            if !is_live {
                match victim {
                    Some(v) => {
                        if self.projects[i].last_active < self.projects[v].last_active {
                            victim = Some(i);
                        }
                    },
                    None => {
                        victim = Some(i);
                    },
                }
            }
            i = i + 1;
        }
        match victim {
            Some(v) => {
                self.projects.remove(v);
                let ghost pr = self.projects@;
                proof {
                    assert(pr =~= p0.remove(v as int));
                    assert(forall|t: int| 0 <= t < v ==> pr[t] == p0[t]);
                    assert(forall|t: int| v <= t < pr.len() ==> pr[t] == p0[t + 1]);
                    assert(proj_unique(pr)) by {
                        assert forall|a: int, b: int|
                            0 <= a < b < pr.len() implies (#[trigger] pr[a]).root@
                            != (#[trigger] pr[b]).root@ by {
                            let a0: int = if a < v { a } else { a + 1 };
                            let b2: int = if b < v { b } else { b + 1 };
                            assert(p0[a0].root@ != p0[b2].root@);
                        }
                    }
                    assert(!proj_has(pr, project.root@)) by {
                        if proj_has(pr, project.root@) {
                            let t = proj_idx(pr, project.root@);
                            let t0: int = if t < v { t } else { t + 1 };
                            assert(p0[t0].root@ == project.root@);
                            assert(proj_has(p0, project.root@));
                        }
                    }
                }
                self.projects.push(project);
                proof {
                    let p1 = self.projects@;
                    assert(p1 =~= pr.push(pj));
                    assert(p1 =~= p0.remove(v as int).push(pj));
                    assert(p1 =~= pr.push(p1[pr.len() as int]));
                    assert(proj_unique(p1)) by {
                        assert forall|a: int, b: int|
                            0 <= a < b < p1.len() implies (#[trigger] p1[a]).root@
                            != (#[trigger] p1[b]).root@ by {
                            if b == pr.len() {
                                assert(proj_has(pr, pr[a].root@));
                            } else {
                                assert(pr[a].root@ != pr[b].root@);
                            }
                        }
                    }
                    assert(proj_has(p1, project.root@)) by {
                        assert(p1[pr.len() as int].root@ == project.root@);
                    }
                    assert forall|n: Seq<char>|
                        #[trigger] proj_has(p1, n) implies (n == project.root@ || proj_has(
                        p0,
                        n,
                    )) by {
                        let t = proj_idx(p1, n);
                        if t < pr.len() {
                            let t0: int = if t < v { t } else { t + 1 };
                            assert(p0[t0].root@ == n);
                        }
                    }
                    assert forall|n: Seq<char>|
                        n != p0[v as int].root@ && #[trigger] proj_has(p0, n) implies
                        proj_has(p1, n) by {
                        let t = proj_idx(p0, n);
                        assert(p0[t].root@ == n);
                        assert(t != v);
                        let t1: int = if t < v { t } else { t - 1 };
                        assert(p1[t1].root@ == n);
                    }
                }
                Ok(())
            },
            None => {
                Err(())
            },
        }
    }
}

} // verus!
