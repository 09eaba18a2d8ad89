use lsp_types::Url;
use nil_vfs::file_set::{FileId, FileSet, VfsPath};
use nil_vfs::vfs::Vfs;

fn uri(s: &str) -> Url {
    Url::parse(s).unwrap()
}

fn text_of(vfs: &Vfs, file: FileId) -> Vec<u32> {
    let map = vfs.get_line_map(file).unwrap();
    map.line_starts().to_vec()
}

#[test]
fn overwrite_edit() {
    let mut vfs = Vfs::new("/ws".into());
    let a = uri("file:///ws/a.txt");
    let f = vfs.set_uri_content(&a, Some("x".into())).unwrap();
    assert_eq!(vfs.set_uri_content(&a, Some("yy".into())), Some(f));
    assert_eq!(text_of(&vfs, f), vec![0, 2]);
    let change = vfs.take_change();
    assert_eq!(change.file_changes(), &[(f, Some("yy".to_string()))]);
    let roots = change.roots().unwrap();
    assert_eq!(roots.len(), 1);
    assert!(roots[0].is_local());
    assert_eq!(
        roots[0].file_set().get_file_for_path(&VfsPath::Path("/a.txt".into())),
        Some(f)
    );
    let again = vfs.take_change();
    assert!(again.file_changes().is_empty());
    assert!(again.roots().is_none());
}

#[test]
fn close_then_reopen() {
    let mut vfs = Vfs::new("/ws".into());
    let p = uri("file:///ws/dir/b.nix");
    let f1 = vfs.set_uri_content(&p, Some("1".into())).unwrap();
    assert_eq!(vfs.set_uri_content(&p, None), None);
    assert!(vfs.get_line_map(f1).is_none());
    assert_eq!(vfs.get_file_for_uri(&p), None);
    let f2 = vfs.set_uri_content(&p, Some("2".into())).unwrap();
    assert_ne!(f1, f2);
    assert_eq!(vfs.get_file_for_uri(&p), Some(f2));
    let change = vfs.take_change();
    assert_eq!(
        change.file_changes(),
        &[(f1, None), (f2, Some("2".to_string()))]
    );
}

#[test]
fn out_of_workspace_uri() {
    let mut vfs = Vfs::new("/ws".into());
    let other = uri("file:///other/a.txt");
    assert_eq!(vfs.set_uri_content(&other, Some("x".into())), None);
    assert_eq!(vfs.file_count(), 0);
    assert_eq!(vfs.get_file_for_uri(&other), None);
    let change = vfs.take_change();
    assert!(change.file_changes().is_empty());
    assert!(change.roots().is_none());
}

#[test]
fn crlf_normalization_in_vfs() {
    let mut vfs = Vfs::new("/ws".into());
    let f = vfs
        .set_uri_content(&uri("file:///ws/c.txt"), Some("a\r\nb".into()))
        .unwrap();
    assert_eq!(vfs.get_line_map(f).unwrap().pos(1, 0), 2);
    let change = vfs.take_change();
    assert_eq!(change.file_changes(), &[(f, Some("a\nb".to_string()))]);
}

#[test]
fn close_of_unknown_file_is_noop() {
    let mut vfs = Vfs::new("/ws".into());
    assert_eq!(vfs.set_uri_content(&uri("file:///ws/none.txt"), None), None);
    assert_eq!(vfs.file_count(), 0);
    assert!(vfs.take_change().roots().is_none());
}

#[test]
fn non_file_uri_is_ignored() {
    let mut vfs = Vfs::new("/ws".into());
    assert_eq!(vfs.set_uri_content(&uri("untitled:Untitled-1"), Some("x".into())), None);
    assert_eq!(vfs.file_count(), 0);
}

#[test]
fn uri_round_trip() {
    let mut vfs = Vfs::new("/ws".into());
    let a = uri("file:///ws/sub/a.nix");
    let f = vfs.set_uri_content(&a, Some("x".into())).unwrap();
    assert_eq!(vfs.get_path_for_file(f), Some("/ws/sub/a.nix".to_string()));
    assert_eq!(vfs.get_uri_for_file(f), Some(a));
    assert_eq!(vfs.get_uri_for_file(FileId(7)), None);
}

#[test]
fn path_edits() {
    let mut vfs = Vfs::new("/ws".into());
    assert_eq!(vfs.set_path_content("/elsewhere/x", Some("x".into())), None);
    let f = vfs.set_path_content("/ws/x", Some("x".into())).unwrap();
    assert_eq!(f, FileId(0));
    assert_eq!(vfs.get_file_for_path("/ws/x"), Some(f));
    assert_eq!(vfs.get_file_for_path("/ws/y"), None);
    let g = vfs.set_path_content("/ws/y", Some("y".into())).unwrap();
    assert_eq!(g, FileId(1));
}

#[test]
fn roots_published_once_per_membership_change() {
    let mut vfs = Vfs::new("/ws".into());
    let a = uri("file:///ws/a.txt");
    vfs.set_uri_content(&a, Some("x".into()));
    assert!(vfs.take_change().roots().is_some());
    vfs.set_uri_content(&a, Some("y".into()));
    assert!(vfs.take_change().roots().is_none());
    vfs.set_uri_content(&a, None);
    let change = vfs.take_change();
    let roots = change.roots().unwrap();
    assert_eq!(
        roots[0].file_set().get_file_for_path(&VfsPath::Path("/a.txt".into())),
        None
    );
}

#[test]
fn replay_reproduces_state() {
    let mut vfs = Vfs::new("/ws".into());
    let a = uri("file:///ws/a.txt");
    let b = uri("file:///ws/b.txt");
    let fa = vfs.set_uri_content(&a, Some("1".into())).unwrap();
    let fb = vfs.set_uri_content(&b, Some("2".into())).unwrap();
    vfs.set_uri_content(&a, Some("3".into()));
    vfs.set_uri_content(&b, None);
    let change = vfs.take_change();
    let mut changes = change.file_changes().to_vec();
    changes.sort_by_key(|c| c.0 .0);
    assert_eq!(changes, vec![(fa, Some("3".to_string())), (fb, None)]);
    let set: &FileSet = change.roots().unwrap()[0].file_set();
    assert_eq!(set.get_path_for_file(fa), Some(&VfsPath::Path("/a.txt".into())));
    assert_eq!(set.get_path_for_file(fb), None);
}

#[test]
fn too_large_edit_closes_file() {
    let mut vfs = Vfs::new("/ws".into());
    let a = uri("file:///ws/a.txt");
    let f = vfs.set_uri_content(&a, Some("1".into())).unwrap();
    let big = "a".repeat(nil_vfs::line_map::MAX_FILE_LEN + 1);
    assert_eq!(vfs.set_uri_content(&a, Some(big)), None);
    assert!(vfs.get_line_map(f).is_none());
}

#[test]
fn vfs_path_as_str_and_duplicate() {
    let p = VfsPath::Virtual("untitled:x".into());
    assert_eq!(p.as_str(), "untitled:x");
    assert_eq!(p.duplicate(), p);
    assert_ne!(p, VfsPath::Path("untitled:x".into()));
}

#[test]
fn file_uri_to_vfs_path() {
    let p = nil_vfs::uri::to_vfs_path(&uri("file:///ws/a%20b.nix"));
    assert_eq!(p, VfsPath::Path("/ws/a b.nix".into()));
    let back = nil_vfs::uri::from_vfs_path(&p).unwrap();
    assert_eq!(back.as_str(), "file:///ws/a%20b.nix");
}

#[test]
fn other_uri_to_vfs_path() {
    let p = nil_vfs::uri::to_vfs_path(&uri("untitled:Untitled-1"));
    assert_eq!(p, VfsPath::Virtual("untitled:Untitled-1".into()));
    assert_eq!(nil_vfs::uri::from_vfs_path(&p), Some(uri("untitled:Untitled-1")));
    assert_eq!(nil_vfs::uri::from_vfs_path(&VfsPath::Path("relative".into())), None);
}

#[test]
fn non_file_scheme_with_path_is_ignored() {
    let mut vfs = Vfs::new("/ws".into());
    let u = uri("untitled:///ws/a.txt");
    assert!(!nil_vfs::uri::is_file_uri(&u));
    assert_eq!(vfs.set_uri_content(&u, Some("x".into())), None);
    assert_eq!(vfs.file_count(), 0);
    assert_eq!(vfs.get_file_for_uri(&u), None);
    assert!(nil_vfs::uri::is_file_uri(&uri("file:///ws/a.txt")));
    assert_eq!(nil_vfs::uri::local_path_of_uri(&u), None);
    assert_eq!(
        nil_vfs::uri::local_path_of_uri(&uri("file:///ws/a.txt")),
        Some("/ws/a.txt".to_string())
    );
}

#[test]
fn path_join_with_trailing_separator() {
    let mut vfs = Vfs::new("/ws/".into());
    let f = vfs.set_path_content("/ws/a.nix", Some("x".into())).unwrap();
    assert_eq!(vfs.get_path_for_file(f), Some("/ws/a.nix".to_string()));
    assert_eq!(vfs.get_uri_for_file(f), Some(uri("file:///ws/a.nix")));
}
