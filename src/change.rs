use crate::file_set::{FileId, FileSet, PathView};
use vstd::prelude::*;

verus! {

/// The text of an overlay entry: `None` stands for a removed file.
pub open spec fn opt_text(o: Option<String>) -> Option<Seq<char>> {
    match o {
        Some(s) => Some(s@),
        None => None,
    }
}

/// A snapshot of a file set, published when the set of files changes.
#[derive(Debug, Clone)]
pub struct SourceRoot {
    file_set: FileSet,
    local: bool,
}

impl SourceRoot {
    pub closed spec fn files(&self) -> Map<u32, PathView> {
        self.file_set@
    }

    pub closed spec fn spec_is_local(&self) -> bool {
        self.local
    }

    /// A root of the local workspace holding `file_set`.
    pub fn new_local(file_set: FileSet) -> (r: SourceRoot)
        ensures
            r.files() == file_set@,
            r.spec_is_local(),
    {
        SourceRoot { file_set, local: true }
    }

    pub fn file_set(&self) -> (r: &FileSet)
        ensures
            r@ == self.files(),
    {
        &self.file_set
    }

    pub fn is_local(&self) -> (r: bool)
        ensures
            r == self.spec_is_local(),
    {
        self.local
    }
}

/// The file sets of a list of roots.
pub open spec fn root_files(roots: Seq<SourceRoot>) -> Seq<Map<u32, PathView>> {
    roots.map_values(|r: SourceRoot| r.files())
}

/// A journal of file contents and roots, handed to the analysis database as a whole.
#[derive(Debug)]
pub struct Change {
    file_changes: Vec<(FileId, Option<String>)>,
    roots: Option<Vec<SourceRoot>>,
}

impl Change {
    /// Per file, its latest content (`None`: removed).
    pub closed spec fn overlay(&self) -> Map<u32, Option<Seq<char>>> {
        Map::new(
            |f: u32| exists|i: int| 0 <= i < self.file_changes@.len() && self.file_changes@[i].0.0 == f,
            |f: u32|
                opt_text(
                    self.file_changes@[choose|i: int|
                        0 <= i < self.file_changes@.len() && self.file_changes@[i].0.0 == f].1,
                ),
        )
    }

    /// The file sets of the published roots, if the roots changed.
    pub closed spec fn root_sets(&self) -> Option<Seq<Map<u32, PathView>>> {
        match self.roots {
            Some(v) => Some(root_files(v@)),
            None => None,
        }
    }

    /// Each file has at most one entry.
    pub closed spec fn wf(&self) -> bool {
        forall|i: int, j: int|
            0 <= i < j < self.file_changes@.len() ==> self.file_changes@[i].0.0
                != self.file_changes@[j].0.0
    }

    /// An empty journal.
    pub fn new() -> (r: Change)
        ensures
            r.wf(),
            r.overlay() == Map::<u32, Option<Seq<char>>>::empty(),
            r.root_sets() is None,
    {
        let r = Change { file_changes: Vec::new(), roots: None };
        assert(r.overlay() =~= Map::<u32, Option<Seq<char>>>::empty());
        r
    }

    /// Records `content` as the latest content of `file`.
    pub fn change_file(&mut self, file: FileId, content: Option<String>)
        requires
            old(self).wf(),
        ensures
            final(self).wf(),
            final(self).overlay() == old(self).overlay().insert(file.0, opt_text(content)),
            final(self).root_sets() == old(self).root_sets(),
    {
        let mut i: usize = 0;
        while i < self.file_changes.len()
            invariant
                self == old(self),
                self.wf(),
                i <= self.file_changes@.len(),
                forall|j: int| 0 <= j < i ==> self.file_changes@[j].0.0 != file.0,
            decreases self.file_changes@.len() - i,
        {
            if self.file_changes[i].0.0 == file.0 {
                let ghost before = self.file_changes@;
                self.file_changes.set(i, (file, content));
                let ghost after = self.file_changes@;
                assert forall|f: u32|
                    #![trigger self.overlay().contains_key(f)]
                    self.overlay().contains_key(f) == old(self).overlay().insert(file.0, opt_text(content)).contains_key(f)
                    && (self.overlay().contains_key(f) ==> self.overlay()[f] == old(self).overlay().insert(file.0, opt_text(content))[f]) by {
                    if f == file.0 {
                        assert(after[i as int].0.0 == f);
                        let k = choose|i: int| 0 <= i < self.file_changes@.len() && self.file_changes@[i].0.0 == f;
                        if k < i {
                            assert(before[k].0.0 != before[i as int].0.0);
                        } else if k > i {
                            assert(before[i as int].0.0 != before[k].0.0);
                        }
                    } else {
                        if exists|k: int| 0 <= k < after.len() && after[k].0.0 == f {
                            let k = choose|i: int| 0 <= i < self.file_changes@.len() && self.file_changes@[i].0.0 == f;
                            assert(before[k].0.0 == f);
                            let m = choose|i: int| 0 <= i < old(self).file_changes@.len() && old(self).file_changes@[i].0.0 == f;
                            if m < k {
                                assert(before[m].0.0 != before[k].0.0);
                            } else if m > k {
                                assert(before[k].0.0 != before[m].0.0);
                            }
                        }
                        if exists|k: int| 0 <= k < before.len() && before[k].0.0 == f {
                            let k = choose|i: int| 0 <= i < old(self).file_changes@.len() && old(self).file_changes@[i].0.0 == f;
                            assert(after[k].0.0 == f);
                        }
                    }
                }
                assert(self.overlay() =~= old(self).overlay().insert(file.0, opt_text(content)));
                return;
            }
            i += 1;
        }
        let ghost before = self.file_changes@;
        self.file_changes.push((file, content));
        let ghost after = self.file_changes@;
        assert forall|f: u32|
            #![trigger self.overlay().contains_key(f)]
            self.overlay().contains_key(f) == old(self).overlay().insert(file.0, opt_text(content)).contains_key(f)
            && (self.overlay().contains_key(f) ==> self.overlay()[f] == old(self).overlay().insert(file.0, opt_text(content))[f]) by {
            if f == file.0 {
                assert(after[before.len() as int].0.0 == f);
                let k = choose|i: int| 0 <= i < self.file_changes@.len() && self.file_changes@[i].0.0 == f;
                assert(k == before.len());
            } else {
                if exists|k: int| 0 <= k < after.len() && after[k].0.0 == f {
                    let k = choose|i: int| 0 <= i < self.file_changes@.len() && self.file_changes@[i].0.0 == f;
                    assert(before[k].0.0 == f);
                    let m = choose|i: int| 0 <= i < old(self).file_changes@.len() && old(self).file_changes@[i].0.0 == f;
                    if m < k {
                        assert(before[m].0.0 != before[k].0.0);
                    } else if m > k {
                        assert(before[k].0.0 != before[m].0.0);
                    }
                }
                if exists|k: int| 0 <= k < before.len() && before[k].0.0 == f {
                    let k = choose|i: int| 0 <= i < old(self).file_changes@.len() && old(self).file_changes@[i].0.0 == f;
                    assert(after[k].0.0 == f);
                }
            }
        }
        assert(self.overlay() =~= old(self).overlay().insert(file.0, opt_text(content)));
    }

    /// Publishes `roots` with this change.
    pub fn set_roots(&mut self, roots: Vec<SourceRoot>)
        requires
            old(self).wf(),
        ensures
            final(self).wf(),
            final(self).overlay() == old(self).overlay(),
            final(self).root_sets() == Some(root_files(roots@)),
    {
        self.roots = Some(roots);
    }

    /// The overlay entries, one per changed file.
    pub fn file_changes(&self) -> (r: &[(FileId, Option<String>)])
        requires
            self.wf(),
        ensures
            forall|i: int, j: int| 0 <= i < j < r@.len() ==> r@[i].0.0 != r@[j].0.0,
            forall|i: int|
                0 <= i < r@.len() ==> #[trigger] self.overlay().contains_key(r@[i].0.0)
                    && self.overlay()[r@[i].0.0] == opt_text(r@[i].1),
            forall|f: u32|
                #[trigger] self.overlay().contains_key(f) ==> exists|i: int|
                    0 <= i < r@.len() && r@[i].0.0 == f,
    {
        proof {
            let s = self.file_changes@;
            assert forall|i: int|
                0 <= i < s.len() implies #[trigger] self.overlay().contains_key(s[i].0.0)
                && self.overlay()[s[i].0.0] == opt_text(s[i].1) by {
                let f = s[i].0.0;
                let k = choose|i: int| 0 <= i < self.file_changes@.len() && self.file_changes@[i].0.0 == f;
                if k < i {
                    assert(s[k].0.0 != s[i].0.0);
                } else if k > i {
                    assert(s[i].0.0 != s[k].0.0);
                }
            }
        }
        self.file_changes.as_slice()
    }

    /// The published roots, if the roots changed.
    pub fn roots(&self) -> (r: Option<&Vec<SourceRoot>>)
        ensures
            match r {
                Some(v) => self.root_sets() == Some(root_files(v@)),
                None => self.root_sets() is None,
            },
    {
        match &self.roots {
            Some(v) => Some(v),
            None => None,
        }
    }
}

} // verus!
