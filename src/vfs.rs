use crate::change::{Change, SourceRoot, root_files};
use crate::file_set::{FileId, FileSet, PathView, VfsPath};
use crate::line_map::{LineMap, MAX_FILE_LEN, strip_cr};
use crate::uri::{
    join_path, local_path_of_uri, path_join, path_strip_prefix, strip_path_prefix,
    uri_local_path, url_from_file_path, url_from_path,
};
use lsp_types::Url;
use vstd::prelude::*;
use vstd::string::*;
use vstd::utf8::encode_utf8;

verus! {

/// The text that an edit stores: none when the edit has none, or when it is too long.
pub open spec fn normalized(text: Option<String>) -> Option<Seq<char>> {
    match text {
        Some(t) => if encode_utf8(t@).len() <= MAX_FILE_LEN && encode_utf8(strip_cr(t@)).len()
            <= MAX_FILE_LEN {
            Some(strip_cr(t@))
        } else {
            None
        },
        None => None,
    }
}

/// A path of the workspace: `/` followed by the path below the workspace root.
pub open spec fn is_workspace_path(p: PathView) -> bool {
    match p {
        PathView::Path(s) => s.len() > 0 && s[0] == '/',
        PathView::Virtual(_) => false,
    }
}

/// The workspace path of a path relative to the workspace root.
pub open spec fn workspace_path(rel: Seq<char>) -> PathView {
    PathView::Path(seq!['/'] + rel)
}

/// The file whose path is `p`, if any.
pub open spec fn file_for(m: Map<u32, PathView>, p: PathView) -> Option<FileId> {
    if exists|f: u32| m.contains_key(f) && m[f] == p {
        Some(FileId(choose|f: u32| m.contains_key(f) && m[f] == p))
    } else {
        None
    }
}

/// File contents after an overlay: a `None` entry removes the file.
pub open spec fn apply_overlay(base: Map<u32, Seq<char>>, ov: Map<u32, Option<Seq<char>>>) -> Map<
    u32,
    Seq<char>,
> {
    Map::new(
        |f: u32|
            if ov.contains_key(f) {
                ov[f] is Some
            } else {
                base.contains_key(f)
            },
        |f: u32|
            if ov.contains_key(f) {
                ov[f]->Some_0
            } else {
                base[f]
            },
    )
}

/// The file set after a change: the published root if there is one, else `base`.
pub open spec fn apply_roots(base: Map<u32, PathView>, c: Change) -> Map<u32, PathView> {
    match c.root_sets() {
        Some(s) => if s.len() > 0 {
            s[0]
        } else {
            Map::empty()
        },
        None => base,
    }
}

/// The virtual file system: files of the local workspace by identifier, their
/// texts and line maps, and the journal of changes not yet drained.
pub struct Vfs {
    files: Vec<Option<(String, LineMap)>>,
    local_root: String,
    local_file_set: FileSet,
    root_changed: bool,
    change: Change,
    drained_paths: Ghost<Map<u32, PathView>>,
    drained_texts: Ghost<Map<u32, Seq<char>>>,
}

/// What one edit of the workspace path `p` does: `new` is the normalized text,
/// or none for a close.
pub open spec fn content_step(
    pre: Vfs,
    p: PathView,
    new: Option<Seq<char>>,
    post: Vfs,
    r: Option<FileId>,
) -> bool {
    let old_file = file_for(pre.file_paths(), p);
    &&& post.wf()
    &&& post.root() == pre.root()
    &&& post.drained_file_paths() == pre.drained_file_paths()
    &&& post.drained_contents() == pre.drained_contents()
    &&& match (old_file, new) {
        (Some(f), None) => {
            &&& r is None
            &&& post.file_paths() == pre.file_paths().remove(f.0)
            &&& post.contents() == pre.contents().remove(f.0)
            &&& post.journal() == pre.journal().insert(f.0, None)
            &&& post.roots_pending()
            &&& post.next_id() == pre.next_id()
        },
        (None, None) => r is None && post == pre,
        (Some(f), Some(t)) => {
            &&& r == Some(f)
            &&& post.file_paths() == pre.file_paths()
            &&& post.contents() == pre.contents().insert(f.0, t)
            &&& post.journal() == pre.journal().insert(f.0, Some(t))
            &&& post.roots_pending() == pre.roots_pending()
            &&& post.next_id() == pre.next_id()
        },
        (None, Some(t)) => {
            let g = pre.next_id() as u32;
            &&& r == Some(FileId(g))
            &&& post.file_paths() == pre.file_paths().insert(g, p)
            &&& post.contents() == pre.contents().insert(g, t)
            &&& post.journal() == pre.journal().insert(g, Some(t))
            &&& post.roots_pending()
            &&& post.next_id() == pre.next_id() + 1
        },
    }
}

/// What an edit of the local file `path` does: a path outside the workspace
/// root is ignored.
pub open spec fn path_step(
    pre: Vfs,
    path: Seq<char>,
    text: Option<String>,
    post: Vfs,
    r: Option<FileId>,
) -> bool {
    match path_strip_prefix(path, pre.root()) {
        Some(rel) => content_step(pre, workspace_path(rel), normalized(text), post, r),
        None => r is None && post == pre,
    }
}

impl Vfs {
    /// The path of each live file.
    pub closed spec fn file_paths(&self) -> Map<u32, PathView> {
        self.local_file_set@
    }

    /// The text of each live file.
    pub closed spec fn contents(&self) -> Map<u32, Seq<char>> {
        Map::new(
            |f: u32| (f as int) < self.files@.len() && self.files@[f as int] is Some,
            |f: u32| self.files@[f as int]->Some_0.0@,
        )
    }

    /// The identifier that the next new file gets; every identifier handed out is below it.
    pub closed spec fn next_id(&self) -> nat {
        self.files@.len()
    }

    pub closed spec fn root(&self) -> Seq<char> {
        self.local_root@
    }

    /// Whether the file set changed since the last drain.
    pub closed spec fn roots_pending(&self) -> bool {
        self.root_changed
    }

    /// File changes recorded since the last drain.
    pub closed spec fn journal(&self) -> Map<u32, Option<Seq<char>>> {
        self.change.overlay()
    }

    /// The file set as of the last drain.
    pub closed spec fn drained_file_paths(&self) -> Map<u32, PathView> {
        self.drained_paths@
    }

    /// The file texts as of the last drain.
    pub closed spec fn drained_contents(&self) -> Map<u32, Seq<char>> {
        self.drained_texts@
    }

    /// The line map of the text in slot `i`.
    pub closed spec fn slot_ok(&self, i: int) -> bool {
        self.files@[i] is Some ==> self.files@[i]->Some_0.1.wf()
            && self.files@[i]->Some_0.1.is_map_of(encode_utf8(self.files@[i]->Some_0.0@))
    }

    pub closed spec fn wf(&self) -> bool {
        &&& self.local_file_set.wf()
        &&& self.change.wf()
        &&& self.change.root_sets() is None
        &&& self.files@.len() <= u32::MAX
        &&& self.file_paths().dom() == self.contents().dom()
        &&& forall|f: u32| #[trigger]
            self.file_paths().contains_key(f) ==> is_workspace_path(self.file_paths()[f])
        &&& forall|i: int| 0 <= i < self.files@.len() ==> #[trigger] self.slot_ok(i)
        &&& apply_overlay(self.drained_contents(), self.journal()) == self.contents()
        &&& !self.root_changed ==> self.drained_file_paths() == self.file_paths()
    }

    /// An empty file system over the workspace at `local_root`.
    pub fn new(local_root: String) -> (r: Vfs)
        ensures
            r.wf(),
            r.root() == local_root@,
            r.file_paths() == Map::<u32, PathView>::empty(),
            r.contents() == Map::<u32, Seq<char>>::empty(),
            r.journal() == Map::<u32, Option<Seq<char>>>::empty(),
            !r.roots_pending(),
            r.next_id() == 0,
            r.drained_file_paths() == Map::<u32, PathView>::empty(),
            r.drained_contents() == Map::<u32, Seq<char>>::empty(),
    {
        let r = Vfs {
            files: Vec::new(),
            local_root,
            local_file_set: FileSet::new(),
            root_changed: false,
            change: Change::new(),
            drained_paths: Ghost(Map::empty()),
            drained_texts: Ghost(Map::empty()),
        };
        assert(r.contents() =~= Map::<u32, Seq<char>>::empty());
        assert(apply_overlay(r.drained_contents(), r.journal()) =~= r.contents());
        r
    }

    /// The number of identifiers handed out so far.
    pub fn file_count(&self) -> (r: usize)
        ensures
            r == self.next_id(),
    {
        self.files.len()
    }

    fn alloc_file_id(&mut self) -> (r: FileId)
        requires
            old(self).wf(),
            old(self).next_id() < u32::MAX,
        ensures
            final(self).wf(),
            r.0 == old(self).next_id(),
            final(self).next_id() == old(self).next_id() + 1,
            final(self).file_paths() == old(self).file_paths(),
            final(self).contents() == old(self).contents(),
            final(self).journal() == old(self).journal(),
            final(self).roots_pending() == old(self).roots_pending(),
            final(self).root() == old(self).root(),
            final(self).drained_file_paths() == old(self).drained_file_paths(),
            final(self).drained_contents() == old(self).drained_contents(),
    {
        let id = self.files.len() as u32;
        self.files.push(None);
        assert(self.contents() =~= old(self).contents());
        assert forall|i: int| 0 <= i < self.files@.len() implies #[trigger] self.slot_ok(i) by {
            if i < old(self).files@.len() {
                assert(old(self).slot_ok(i));
            }
        }
        FileId(id)
    }
}

impl Vfs {
    /// Applies an edit to the workspace path `vpath`: `text` replaces the file's
    /// content, or, when there is none, closes the file.
    fn apply_content(&mut self, vpath: VfsPath, text: Option<String>) -> (r: Option<FileId>)
        requires
            old(self).wf(),
            old(self).next_id() < u32::MAX,
            is_workspace_path(vpath@),
        ensures
            content_step(*old(self), vpath@, normalized(text), *final(self), r),
    {
        let content = match text {
            Some(t) => LineMap::normalize(t),
            None => None,
        };
        assert(match content {
            Some(c) => normalized(text) == Some(c.0@),
            None => normalized(text) is None,
        });
        match self.local_file_set.get_file_for_path(&vpath) {
            Some(file) => {
                assert(file_for(old(self).file_paths(), vpath@) == Some(file));
                match content {
                    None => {
                        self.local_file_set.remove_file(file);
                        self.root_changed = true;
                        self.files.set(file.0 as usize, None);
                        self.change.change_file(file, None);
                        assert(self.contents() =~= old(self).contents().remove(file.0));
                        assert(self.file_paths().dom() =~= self.contents().dom());
                        assert forall|i: int| 0 <= i < self.files@.len() implies #[trigger] self.slot_ok(i) by {
                            assert(old(self).slot_ok(i));
                        }
                        assert(apply_overlay(self.drained_contents(), self.journal()) =~= self.contents());
                        None
                    },
                    Some((text, line_map)) => {
                        let ghost t = text@;
                        self.change.change_file(file, Some(text.clone()));
                        self.files.set(file.0 as usize, Some((text, line_map)));
                        assert(self.contents() =~= old(self).contents().insert(file.0, t));
                        assert(self.file_paths().dom() =~= self.contents().dom());
                        assert forall|i: int| 0 <= i < self.files@.len() implies #[trigger] self.slot_ok(i) by {
                            assert(old(self).slot_ok(i));
                        }
                        assert(apply_overlay(self.drained_contents(), self.journal()) =~= self.contents());
                        Some(file)
                    },
                }
            },
            None => {
                assert(file_for(old(self).file_paths(), vpath@) is None);
                match content {
                    None => None,
                    Some((text, line_map)) => {
                        let ghost t = text@;
                        let ghost p = vpath@;
                        let ghost lm = line_map;
                        assert(lm.wf() && lm.is_map_of(encode_utf8(t)));
                        let file = self.alloc_file_id();
                        let ghost mid = *self;
                        self.local_file_set.insert(file, vpath);
                        self.root_changed = true;
                        self.change.change_file(file, Some(text.clone()));
                        self.files.set(file.0 as usize, Some((text, line_map)));
                        assert(self.contents() =~= old(self).contents().insert(file.0, t));
                        assert(self.file_paths() =~= old(self).file_paths().insert(file.0, p));
                        assert forall|i: int| 0 <= i < self.files@.len() implies #[trigger] self.slot_ok(i) by {
                            if i < old(self).files@.len() {
                                assert(mid.slot_ok(i));
                            } else {
                                assert(self.files@[i] == Some((text, lm)));
                            }
                        }
                        assert(self.file_paths().dom() =~= self.contents().dom());
                        assert(apply_overlay(self.drained_contents(), self.journal()) =~= self.contents());
                        Some(file)
                    },
                }
            },
        }
    }
}

impl Vfs {
    /// The workspace path of the local file `path`, if it lies under the workspace root.
    fn path_to_vpath(&self, path: &str) -> (r: Option<VfsPath>)
        ensures
            match path_strip_prefix(path@, self.root()) {
                Some(rel) => r matches Some(v) && v@ == workspace_path(rel),
                None => r is None,
            },
    {
        match strip_path_prefix(path, self.local_root.as_str()) {
            Some(rel) => {
                let mut s = String::from_str("/");
                proof {
                    reveal_strlit("/");
                }
                assert("/"@ =~= seq!['/']);
                s.append(rel.as_str());
                assert(s@ =~= seq!['/'] + rel@);
                Some(VfsPath::Path(s))
            },
            None => None,
        }
    }

    /// Sets the content of the local file `path`, or closes it when `text` is
    /// `None`; returns the file, or `None` when it is closed or ignored.
    pub fn set_path_content(&mut self, path: &str, text: Option<String>) -> (r: Option<FileId>)
        requires
            old(self).wf(),
            old(self).next_id() < u32::MAX,
        ensures
            path_step(*old(self), path@, text, *final(self), r),
            old(self).next_id() <= final(self).next_id(),
            r matches Some(f) ==> (f.0 as int) < final(self).next_id(),
            final(self).roots_pending() == (old(self).roots_pending() || final(self).file_paths()
                != old(self).file_paths()),
    {
        match self.path_to_vpath(path) {
            Some(vpath) => {
                let ghost p = vpath@;
                let ghost t = normalized(text);
                let r = self.apply_content(vpath, text);
                proof {
                    lemma_returned_id_below_next(*old(self), p, t, *self, r);
                    lemma_roots_pending_tracks_membership(*old(self), p, t, *self, r);
                }
                r
            },
            None => None,
        }
    }

    /// Sets the content of the file that the `file:` URI `uri` names, or closes
    /// it when `text` is `None`. A URI of another scheme, or one that names no
    /// local file under the workspace root, is ignored.
    pub fn set_uri_content(&mut self, uri: &Url, text: Option<String>) -> (r: Option<FileId>)
        requires
            old(self).wf(),
            old(self).next_id() < u32::MAX,
        ensures
            match uri_local_path(*uri) {
                Some(p) => path_step(*old(self), p, text, *final(self), r),
                None => r is None && *final(self) == *old(self),
            },
            old(self).next_id() <= final(self).next_id(),
            r matches Some(f) ==> (f.0 as int) < final(self).next_id(),
            final(self).roots_pending() == (old(self).roots_pending() || final(self).file_paths()
                != old(self).file_paths()),
    {
        match local_path_of_uri(uri) {
            Some(path) => self.set_path_content(path.as_str(), text),
            None => None,
        }
    }

    /// The file of the local path `path`, if it is open.
    pub fn get_file_for_path(&self, path: &str) -> (r: Option<FileId>)
        requires
            self.wf(),
        ensures
            r == match path_strip_prefix(path@, self.root()) {
                Some(rel) => file_for(self.file_paths(), workspace_path(rel)),
                None => None,
            },
    {
        match self.path_to_vpath(path) {
            Some(vpath) => self.local_file_set.get_file_for_path(&vpath),
            None => None,
        }
    }

    /// The file that the `file:` URI `uri` names, if it is open.
    pub fn get_file_for_uri(&self, uri: &Url) -> (r: Option<FileId>)
        requires
            self.wf(),
        ensures
            r == match uri_local_path(*uri) {
                Some(p) => match path_strip_prefix(p, self.root()) {
                    Some(rel) => file_for(self.file_paths(), workspace_path(rel)),
                    None => None,
                },
                None => None,
            },
    {
        match local_path_of_uri(uri) {
            Some(path) => self.get_file_for_path(path.as_str()),
            None => None,
        }
    }

    /// The local path of `file`: its workspace path joined onto the workspace root.
    pub fn get_path_for_file(&self, file: FileId) -> (r: Option<String>)
        requires
            self.wf(),
        ensures
            match r {
                Some(p) => self.file_paths().contains_key(file.0) && (self.file_paths()[file.0] matches PathView::Path(s)
                    && p@ == path_join(self.root(), s.drop_first())),
                None => !self.file_paths().contains_key(file.0),
            },
    {
        match self.local_file_set.get_path_for_file(file) {
            Some(vpath) => {
                let s = vpath.as_str();
                let n = s.unicode_len();
                let rel = s.substring_char(1, n);
                Some(join_path(self.local_root.as_str(), rel))
            },
            None => None,
        }
    }

    /// The `file:` URI of `file`, if it is open.
    pub fn get_uri_for_file(&self, file: FileId) -> (r: Option<Url>)
        requires
            self.wf(),
        ensures
            r == if self.file_paths().contains_key(file.0) {
                match self.file_paths()[file.0] {
                    PathView::Path(s) => url_from_path(path_join(self.root(), s.drop_first())),
                    PathView::Virtual(_) => None,
                }
            } else {
                None
            },
    {
        match self.get_path_for_file(file) {
            Some(path) => url_from_file_path(path.as_str()),
            None => None,
        }
    }

    /// The line map of `file`, if it is open.
    pub fn get_line_map(&self, file: FileId) -> (r: Option<&LineMap>)
        requires
            self.wf(),
        ensures
            match r {
                Some(m) => self.contents().contains_key(file.0) && m.wf() && m.is_map_of(
                    encode_utf8(self.contents()[file.0]),
                ),
                None => !self.contents().contains_key(file.0),
            },
    {
        if (file.0 as usize) < self.files.len() {
            proof {
                assert(self.slot_ok(file.0 as int));
            }
            match &self.files[file.0 as usize] {
                Some(entry) => Some(&entry.1),
                None => None,
            }
        } else {
            None
        }
    }

    /// Drains the journal: the file changes since the last drain, and the
    /// current file set as the one root when the set changed since then.
    pub fn take_change(&mut self) -> (r: Change)
        requires
            old(self).wf(),
        ensures
            drain_step(*old(self), r, *final(self)),
    {
        let mut change = Change::new();
        std::mem::swap(&mut change, &mut self.change);
        if self.root_changed {
            self.root_changed = false;
            let mut roots: Vec<SourceRoot> = Vec::new();
            roots.push(SourceRoot::new_local(self.local_file_set.snapshot()));
            change.set_roots(roots);
            assert(root_files(roots@) =~= seq![old(self).file_paths()]);
        }
        self.drained_paths = Ghost(self.local_file_set@);
        self.drained_texts = Ghost(self.contents());
        assert(apply_overlay(self.drained_contents(), self.journal()) =~= self.contents());
        assert forall|i: int| 0 <= i < self.files@.len() implies #[trigger] self.slot_ok(i) by {
            assert(old(self).slot_ok(i));
        }
        change
    }
}

/// What draining the journal does.
pub open spec fn drain_step(pre: Vfs, r: Change, post: Vfs) -> bool {
    &&& post.wf()
    &&& r.overlay() == pre.journal()
    &&& r.root_sets() == if pre.roots_pending() {
        Some(seq![pre.file_paths()])
    } else {
        None::<Seq<Map<u32, PathView>>>
    }
    &&& apply_overlay(pre.drained_contents(), r.overlay()) == pre.contents()
    &&& apply_roots(pre.drained_file_paths(), r) == pre.file_paths()
    &&& post.file_paths() == pre.file_paths()
    &&& post.contents() == pre.contents()
    &&& post.next_id() == pre.next_id()
    &&& post.root() == pre.root()
    &&& post.journal() == Map::<u32, Option<Seq<char>>>::empty()
    &&& !post.roots_pending()
    &&& post.drained_file_paths() == pre.file_paths()
    &&& post.drained_contents() == pre.contents()
}

impl Vfs {
    /// Every open file has an identifier below the next one.
    pub proof fn lemma_ids_below_next(&self)
        requires
            self.wf(),
        ensures
            forall|f: u32| #[trigger] self.file_paths().contains_key(f) ==> (f as int) < self.next_id(),
    {
        assert forall|f: u32| #[trigger] self.file_paths().contains_key(f) implies (f as int) < self.next_id() by {
            assert(self.contents().contains_key(f));
        }
    }
}

/// A file returned by an edit has an identifier below the next one, and the
/// next identifier never goes down.
pub proof fn lemma_returned_id_below_next(
    pre: Vfs,
    p: PathView,
    new: Option<Seq<char>>,
    post: Vfs,
    r: Option<FileId>,
)
    requires
        pre.wf(),
        content_step(pre, p, new, post, r),
    ensures
        r matches Some(f) ==> (f.0 as int) < post.next_id(),
        pre.next_id() <= post.next_id(),
{
    pre.lemma_ids_below_next();
    if file_for(pre.file_paths(), p) is Some {
        let g = choose|g: u32| pre.file_paths().contains_key(g) && pre.file_paths()[g] == p;
        assert(pre.file_paths().contains_key(g));
    }
}

/// Identifiers are not reused: an edit that opens a path with no open file
/// (a new path, or one closed before) gets the next identifier, which differs
/// from every identifier handed out before it.
pub proof fn lemma_reopen_gets_fresh_id(
    pre: Vfs,
    p: PathView,
    t: Seq<char>,
    post: Vfs,
    r: Option<FileId>,
    earlier: FileId,
)
    requires
        pre.wf(),
        content_step(pre, p, Some(t), post, r),
        file_for(pre.file_paths(), p) is None,
        (earlier.0 as int) < pre.next_id(),
    ensures
        r == Some(FileId(pre.next_id() as u32)),
        r != Some(earlier),
{
}

/// The roots are pending exactly when some edit since the last drain changed
/// which files are open; a drain publishes them once, as the current file set.
pub proof fn lemma_roots_pending_tracks_membership(
    pre: Vfs,
    p: PathView,
    new: Option<Seq<char>>,
    post: Vfs,
    r: Option<FileId>,
)
    requires
        pre.wf(),
        content_step(pre, p, new, post, r),
    ensures
        post.roots_pending() == (pre.roots_pending() || post.file_paths() != pre.file_paths()),
{
    pre.lemma_ids_below_next();
    match (file_for(pre.file_paths(), p), new) {
        (Some(f), None) => {
            let g = choose|g: u32| pre.file_paths().contains_key(g) && pre.file_paths()[g] == p;
            assert(pre.file_paths().contains_key(f.0));
            assert(!post.file_paths().contains_key(f.0));
        },
        (None, Some(_)) => {
            let g = pre.next_id() as u32;
            assert(!pre.file_paths().contains_key(g));
            assert(post.file_paths().contains_key(g));
        },
        _ => {},
    }
}

/// Draining the journal of a file system that has not been drained before
/// (one made by `new`, then edited) and replaying the change onto an empty
/// file system gives the current file set and texts.
pub proof fn lemma_replay_onto_empty(pre: Vfs, r: Change, post: Vfs)
    requires
        pre.wf(),
        pre.drained_file_paths() == Map::<u32, PathView>::empty(),
        pre.drained_contents() == Map::<u32, Seq<char>>::empty(),
        drain_step(pre, r, post),
    ensures
        apply_roots(Map::<u32, PathView>::empty(), r) == pre.file_paths(),
        apply_overlay(Map::<u32, Seq<char>>::empty(), r.overlay()) == pre.contents(),
{
}

/// Edits leave the drained state alone, so it stays empty until the first drain.
pub proof fn lemma_edit_keeps_drained_state(
    pre: Vfs,
    p: PathView,
    new: Option<Seq<char>>,
    post: Vfs,
    r: Option<FileId>,
)
    requires
        content_step(pre, p, new, post, r),
    ensures
        post.drained_file_paths() == pre.drained_file_paths(),
        post.drained_contents() == pre.drained_contents(),
{
}

} // verus!
