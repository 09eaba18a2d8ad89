use vstd::prelude::*;

verus! {

/// A stable handle for a tracked file; never reused within a process.
#[derive(Debug, Clone, Copy, PartialEq, Eq, Hash, Structural)]
pub struct FileId(pub u32);

/// The abstract value of a `VfsPath`.
pub enum PathView {
    Path(Seq<char>),
    Virtual(Seq<char>),
}

/// A workspace path (`/` followed by the path relative to the workspace root),
/// or an opaque URI for other schemes.
#[derive(Debug, Clone)]
pub enum VfsPath {
    Path(String),
    Virtual(String),
}

impl View for VfsPath {
    type V = PathView;

    open spec fn view(&self) -> PathView {
        match self {
            VfsPath::Path(s) => PathView::Path(s@),
            VfsPath::Virtual(s) => PathView::Virtual(s@),
        }
    }
}

impl PartialEq for VfsPath {
    fn eq(&self, o: &VfsPath) -> (r: bool) {
        match (self, o) {
            (VfsPath::Path(a), VfsPath::Path(b)) => a.eq(b),
            (VfsPath::Virtual(a), VfsPath::Virtual(b)) => a.eq(b),
            _ => false,
        }
    }
}

impl vstd::std_specs::cmp::PartialEqSpecImpl for VfsPath {
    open spec fn obeys_eq_spec() -> bool {
        true
    }

    open spec fn eq_spec(&self, o: &VfsPath) -> bool {
        self@ == o@
    }
}

impl Eq for VfsPath {

}

impl VfsPath {
    /// The stored string: the path itself, or the URI.
    pub fn as_str(&self) -> (r: &str)
        ensures
            r@ == match self@ {
                PathView::Path(s) => s,
                PathView::Virtual(s) => s,
            },
    {
        match self {
            VfsPath::Path(s) => s.as_str(),
            VfsPath::Virtual(s) => s.as_str(),
        }
    }

    /// A copy with the same value.
    pub fn duplicate(&self) -> (r: VfsPath)
        ensures
            r@ == self@,
    {
        match self {
            VfsPath::Path(s) => VfsPath::Path(s.clone()),
            VfsPath::Virtual(s) => VfsPath::Virtual(s.clone()),
        }
    }
}

/// A bijection between file identifiers and paths.
#[derive(Debug, Clone)]
pub struct FileSet {
    paths: Vec<Option<VfsPath>>,
}

impl View for FileSet {
    type V = Map<u32, PathView>;

    closed spec fn view(&self) -> Map<u32, PathView> {
        Map::new(
            |f: u32| (f as int) < self.paths@.len() && self.paths@[f as int] is Some,
            |f: u32| self.paths@[f as int]->Some_0@,
        )
    }
}

impl FileSet {
    /// No two files share a path.
    pub closed spec fn wf(&self) -> bool {
        &&& self.paths@.len() <= u32::MAX
        &&& forall|f: u32, g: u32|
            #![trigger self@[f], self@[g]]
            self@.contains_key(f) && self@.contains_key(g) && self@[f] == self@[g] ==> f == g
    }

    pub fn new() -> (r: FileSet)
        ensures
            r@ == Map::<u32, PathView>::empty(),
            r.wf(),
    {
        let r = FileSet { paths: Vec::new() };
        assert(r@ =~= Map::<u32, PathView>::empty());
        r
    }

    /// The file whose path is `path`, if any.
    pub fn get_file_for_path(&self, path: &VfsPath) -> (r: Option<FileId>)
        requires
            self.wf(),
        ensures
            match r {
                Some(f) => self@.contains_key(f.0) && self@[f.0] == path@ && forall|g: u32|
                    self@.contains_key(g) && #[trigger] self@[g] == path@ ==> g == f.0,
                None => forall|f: u32| self@.contains_key(f) ==> #[trigger] self@[f] != path@,
            },
    {
        let mut i: usize = 0;
        while i < self.paths.len()
            invariant
                self.wf(),
                i <= self.paths@.len(),
                forall|f: u32| (f as int) < i && self@.contains_key(f) ==> #[trigger] self@[f] != path@,
            decreases self.paths@.len() - i,
        {
            match &self.paths[i] {
                Some(p) => {
                    if *p == *path {
                        assert(self@.contains_key(i as u32));
                        return Some(FileId(i as u32));
                    }
                },
                None => {},
            }
            i += 1;
        }
        None
    }

    /// The path of `file`, if it is in the set.
    pub fn get_path_for_file(&self, file: FileId) -> (r: Option<&VfsPath>)
        ensures
            match r {
                Some(p) => self@.contains_key(file.0) && self@[file.0] == p@,
                None => !self@.contains_key(file.0),
            },
    {
        if (file.0 as usize) < self.paths.len() {
            match &self.paths[file.0 as usize] {
                Some(p) => Some(p),
                None => None,
            }
        } else {
            None
        }
    }

    /// Adds `file` with `path`; neither may be in the set already.
    pub fn insert(&mut self, file: FileId, path: VfsPath)
        requires
            old(self).wf(),
            !old(self)@.contains_key(file.0),
            file.0 < u32::MAX,
            forall|f: u32| old(self)@.contains_key(f) ==> #[trigger] old(self)@[f] != path@,
        ensures
            final(self).wf(),
            final(self)@ == old(self)@.insert(file.0, path@),
    {
        while self.paths.len() <= file.0 as usize
            invariant
                self@ == old(self)@,
                self.paths@.len() == old(self).paths@.len() || self.paths@.len() <= file.0 + 1,
            decreases file.0 as int + 1 - self.paths@.len(),
        {
            let ghost before = self@;
            self.paths.push(None);
            assert(self@ =~= before);
        }
        self.paths.set(file.0 as usize, Some(path));
        assert(self@ =~= old(self)@.insert(file.0, path@));
    }

    /// Takes `file` out of the set.
    pub fn remove_file(&mut self, file: FileId)
        requires
            old(self).wf(),
        ensures
            final(self).wf(),
            final(self)@ == old(self)@.remove(file.0),
    {
        if (file.0 as usize) < self.paths.len() {
            self.paths.set(file.0 as usize, None);
        }
        assert(self@ =~= old(self)@.remove(file.0));
    }

    /// A copy of the set.
    pub fn snapshot(&self) -> (r: FileSet)
        requires
            self.wf(),
        ensures
            r@ == self@,
            r.wf(),
    {
        let mut paths: Vec<Option<VfsPath>> = Vec::new();
        let mut i: usize = 0;
        while i < self.paths.len()
            invariant
                i <= self.paths@.len(),
                paths@.len() == i,
                forall|j: int|
                    0 <= j < i ==> (#[trigger] paths@[j] is Some <==> self.paths@[j] is Some) && (
                    paths@[j] is Some ==> paths@[j]->Some_0@ == self.paths@[j]->Some_0@),
            decreases self.paths@.len() - i,
        {
            match &self.paths[i] {
                Some(p) => paths.push(Some(p.duplicate())),
                None => paths.push(None),
            }
            i += 1;
        }
        let r = FileSet { paths };
        assert(r@ =~= self@);
        r
    }
}

} // verus!
