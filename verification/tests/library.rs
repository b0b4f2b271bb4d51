use lazy_memfs::attr::{FileAttr, FileType, Timestamp, ROOT_INO};
use lazy_memfs::fs_ops::{
    dir_attr, dir_listing, file_attr, generated_children, read_file, read_slice, DirError,
    HELLO_FILE_INO, WORLD_FILE_INO, TestResolver,
};
use lazy_memfs::resolve::Search;
use lazy_memfs::tree::{ChildMap, LazyResolver, StateInMem};

const T0: Timestamp = Timestamp { secs: 0, nanos: 0 };

fn attr(ino: u64, kind: FileType) -> FileAttr {
    FileAttr {
        ino,
        size: 0,
        blocks: 0,
        atime: T0,
        mtime: T0,
        ctime: T0,
        crtime: T0,
        kind,
        perm: 0o755,
        nlink: 2,
        uid: 1000,
        gid: 1000,
        rdev: 0,
        blksize: 512,
        flags: 0,
    }
}

fn file(ino: u64, name: &str) -> StateInMem {
    StateInMem::File {
        file_name: name.to_string(),
        file_attr: attr(ino, FileType::RegularFile),
        contents: String::new(),
    }
}

fn lazy_file(ino: u64, name: &str) -> StateInMem {
    StateInMem::LazyFile { file_name: name.to_string(), file_attr: attr(ino, FileType::RegularFile) }
}

fn lazy_dir(ino: u64, name: &str) -> StateInMem {
    StateInMem::LazyDir { dir_name: name.to_string(), file_attr: attr(ino, FileType::Directory) }
}

fn dir(ino: u64, name: &str, entries: Vec<(u64, StateInMem)>) -> StateInMem {
    let mut childs = ChildMap::new();
    for (k, v) in entries {
        childs.insert(k, v);
    }
    StateInMem::Dir { dir_name: name.to_string(), file_attr: attr(ino, FileType::Directory), childs }
}

fn children(n: &StateInMem) -> &ChildMap {
    match n {
        StateInMem::Dir { childs, .. } => childs,
        _ => panic!("not a directory"),
    }
}

fn keys(c: &ChildMap) -> Vec<u64> {
    (0..c.len()).map(|i| c.key_at(i)).collect()
}

/// Hands out inodes from 100 on, and one lazy file per generated directory;
/// records the inode that each call is given.
struct Recorder {
    next: u64,
    calls: Vec<u64>,
}

impl LazyResolver for Recorder {
    fn gen_new_inode(&mut self) -> u64 {
        self.next += 1;
        self.next
    }

    fn gen_children(&mut self, parent_ino: &u64) -> ChildMap {
        self.calls.push(*parent_ino);
        let ino = self.gen_new_inode();
        let mut c = ChildMap::new();
        c.insert(ino, lazy_file(ino, "made.txt"));
        c
    }
}

fn recorder() -> Recorder {
    Recorder { next: 100, calls: Vec::new() }
}

/// root(1): 2 file a, 4 dir sub { 3 lazyfile b, 6 lazydir deep }, 5 lazydir lazy
fn sample() -> StateInMem {
    dir(
        ROOT_INO,
        "root",
        vec![
            (2, file(2, "a")),
            (4, dir(4, "sub", vec![(3, lazy_file(3, "b")), (6, lazy_dir(6, "deep"))])),
            (5, lazy_dir(5, "lazy")),
        ],
    )
}

#[test]
fn child_map_insert_keeps_keys_sorted_and_replaces() {
    let mut c = ChildMap::new();
    assert!(c.insert(7, file(7, "x")).is_none());
    assert!(c.insert(3, file(3, "y")).is_none());
    assert!(c.insert(9, file(9, "z")).is_none());
    assert_eq!(keys(&c), vec![3, 7, 9]);
    let prev = c.insert(7, file(7, "w")).expect("replaced");
    assert_eq!(prev.get_name().unwrap(), "x");
    assert_eq!(keys(&c), vec![3, 7, 9]);
    assert_eq!(c.get(&7).unwrap().get_name().unwrap(), "w");
    assert!(c.get(&8).is_none());
    assert_eq!(c.position(9), Some(2));
    assert_eq!(c.position(1), None);
}

#[test]
fn getters_follow_the_variant() {
    let f = file(2, "a");
    assert_eq!(f.get_fileattr().unwrap().ino, 2);
    assert_eq!(f.get_name().unwrap(), "a");
    let (n, a) = f.get_name_and_fileattr().unwrap();
    assert_eq!((n.as_str(), a.ino), ("a", 2));
    let d = lazy_dir(5, "lazy");
    assert_eq!(d.get_fileattr().unwrap().kind, FileType::Directory);
    assert_eq!(d.get_name().unwrap(), "lazy");
    let r = StateInMem::Resolving;
    assert!(r.get_fileattr().is_none());
    assert!(r.get_name().is_none());
    assert!(r.get_name_and_fileattr().is_none());
}

#[test]
fn file_obj_answers_with_self_or_direct_child() {
    let t = sample();
    assert_eq!(t.get_file_obj(ROOT_INO).unwrap().get_name().unwrap(), "root");
    assert_eq!(t.get_file_obj(2).unwrap().get_name().unwrap(), "a");
    assert_eq!(t.get_file_obj(4).unwrap().get_name().unwrap(), "sub");
    // an inode stored deeper is answered by the child that holds it
    assert_eq!(t.get_file_obj(3).unwrap().get_name().unwrap(), "sub");
    assert_eq!(t.get_file_obj(6).unwrap().get_name().unwrap(), "sub");
    assert!(t.get_file_obj(42).is_none());
    assert!(lazy_dir(5, "l").get_file_obj(5).is_none());
}

#[test]
fn attribute_of_inode() {
    let t = sample();
    assert_eq!(t.get_attribute(2).unwrap().ino, 2);
    assert_eq!(t.get_attribute(3).unwrap().ino, 4);
    assert!(t.get_attribute(42).is_none());
    assert_eq!(t.get_attribute(ROOT_INO).unwrap().ino, ROOT_INO);
}

#[test]
fn root_lookup_safety() {
    assert!(sample().root_lookup_is_safe());
    assert!(!StateInMem::Resolving.root_lookup_is_safe());
    let t = dir(9, "top", vec![(2, StateInMem::Resolving)]);
    assert!(!t.root_lookup_is_safe());
    let t = dir(9, "top", vec![(1, StateInMem::Resolving)]);
    assert!(t.root_lookup_is_safe());
}

#[test]
fn parents_by_walk() {
    let t = sample();
    assert_eq!(t.get_parent_inode_of(&ROOT_INO), Some(ROOT_INO));
    assert_eq!(t.get_parent_inode_of(&2), Some(ROOT_INO));
    assert_eq!(t.get_parent_inode_of(&4), Some(ROOT_INO));
    assert_eq!(t.get_parent_inode_of(&3), Some(4));
    assert_eq!(t.get_parent_inode_of(&6), Some(4));
    assert_eq!(t.get_parent_inode_of(&42), None);
    // a root with an inode of its own is its own parent
    let t2 = dir(8, "top", vec![(9, file(9, "f"))]);
    assert_eq!(t2.get_parent_inode_of(&8), Some(8));
    assert_eq!(t2.get_parent_inode_of(&9), Some(8));
}

#[test]
fn lookup_finds_plain_entries_without_resolving() {
    let mut t = sample();
    let mut r = recorder();
    assert_eq!(t.get_file_obj_with_parent(&ROOT_INO, "a", &mut r).unwrap().ino, 2);
    assert_eq!(t.get_file_obj_with_parent(&4, "b", &mut r).unwrap().ino, 3);
    assert_eq!(t.get_file_obj_with_parent(&ROOT_INO, "sub", &mut r).unwrap().ino, 4);
    assert!(t.get_file_obj_with_parent(&4, "a", &mut r).is_none());
    assert!(t.get_file_obj_with_parent(&ROOT_INO, "nothing", &mut r).is_none());
    assert!(r.calls.is_empty());
    // the root is its own parent
    assert_eq!(t.get_file_obj_with_parent(&ROOT_INO, "root", &mut r).unwrap().ino, ROOT_INO);
}

#[test]
fn lookup_resolves_a_lazy_directory_once() {
    let mut t = sample();
    let mut r = recorder();
    assert_eq!(t.get_file_obj_with_parent(&ROOT_INO, "lazy", &mut r).unwrap().ino, 5);
    assert_eq!(r.calls, vec![ROOT_INO]);
    let resolved = t.get_file_obj(5).unwrap();
    assert!(matches!(resolved, StateInMem::Dir { .. }));
    assert_eq!(keys(children(resolved)), vec![101]);
    // a second lookup finds the same entry and resolves nothing
    assert_eq!(t.get_file_obj_with_parent(&ROOT_INO, "lazy", &mut r).unwrap().ino, 5);
    assert_eq!(r.calls, vec![ROOT_INO]);
    // and the new child can be looked up under its directory
    assert_eq!(t.get_file_obj_with_parent(&5, "made.txt", &mut r).unwrap().ino, 101);
}

#[test]
fn lookup_gives_up_at_a_node_being_resolved() {
    let mut t = dir(ROOT_INO, "root", vec![(2, file(2, "a")), (3, StateInMem::Resolving)]);
    let mut r = recorder();
    // the walk meets the last entry first
    assert!(t.get_file_obj_with_parent(&ROOT_INO, "a", &mut r).is_none());
}

#[test]
fn locate_and_resolve_at() {
    let t = sample();
    match t.locate_entry(&4, "deep") {
        Search::Found(p) => assert_eq!(p, vec![1, 1]),
        other => panic!("unexpected {:?}", other),
    }
    let mut t = sample();
    let mut c = ChildMap::new();
    c.insert(77, file(77, "x"));
    t.resolve_at(&vec![1, 1], c);
    let deep = t.node_by_path(&vec![1, 1]);
    assert_eq!(deep.get_name().unwrap(), "deep");
    assert_eq!(keys(children(deep)), vec![77]);
}

#[test]
fn directory_listing_resolves_lazy_directories_in_walk_order() {
    let mut t = sample();
    let mut r = recorder();
    // the root needs no resolution
    assert_eq!(keys(t.get_crrent_dir(&ROOT_INO, &mut r).unwrap()), vec![2, 4, 5]);
    assert!(r.calls.is_empty());
    // inode 6 sits under 4; the walk visits 5 (greatest key) first and resolves it
    let c = t.get_crrent_dir(&6, &mut r).unwrap();
    assert_eq!(keys(c), vec![102]);
    assert_eq!(r.calls, vec![ROOT_INO, 4]);
    // listing again changes nothing
    assert_eq!(keys(t.get_crrent_dir(&6, &mut r).unwrap()), vec![102]);
    assert_eq!(r.calls, vec![ROOT_INO, 4]);
    // a missing directory is searched for in the whole resolved tree
    assert!(t.get_crrent_dir(&999, &mut r).is_none());
    assert!(t.get_crrent_dir(&2, &mut r).is_none());
    assert_eq!(r.calls, vec![ROOT_INO, 4]);
}

#[test]
fn missing_directory_resolves_everything_lazy() {
    let mut t = dir(ROOT_INO, "root", vec![(5, lazy_dir(5, "l")), (6, lazy_dir(6, "m"))]);
    let mut r = recorder();
    assert!(t.get_crrent_dir(&999, &mut r).is_none());
    assert_eq!(r.calls, vec![ROOT_INO, ROOT_INO]);
    assert!(matches!(t.get_file_obj(5).unwrap(), StateInMem::Dir { .. }));
    assert!(matches!(t.get_file_obj(6).unwrap(), StateInMem::Dir { .. }));
}

#[test]
fn resolve_dir_path_reports_the_path() {
    let mut t = sample();
    let mut r = recorder();
    match t.resolve_dir_path(&4, &mut r) {
        Search::Found(p) => assert_eq!(p, vec![1]),
        other => panic!("unexpected {:?}", other),
    }
    assert_eq!(r.calls, vec![ROOT_INO]);
}

#[test]
fn open_dir_reports_errors() {
    let mut t = sample();
    let mut r = recorder();
    let (parent, c) = t.open_dir(&4, &mut r).unwrap();
    assert_eq!(parent, ROOT_INO);
    assert_eq!(keys(c), vec![3, 6]);
    assert_eq!(t.open_dir(&42, &mut r).unwrap_err(), DirError::NoParent);
    assert_eq!(t.open_dir(&2, &mut r).unwrap_err(), DirError::NoDir);
}

#[test]
fn render_draws_the_tree() {
    let t = sample();
    let expected = "dir \"root\"\n  - ino:INodeNo(2) file \"a\"\n  - ino:INodeNo(4) dir \"sub\"\n    - ino:INodeNo(3) lazyfile \"b\"\n    - ino:INodeNo(6) lazydir \"deep\"\n  - ino:INodeNo(5) lazydir \"lazy\"";
    assert_eq!(t.render(), expected);
    assert_eq!(lazy_file(7, "x").render(), "lazyfile \"x\"");
    assert_eq!(StateInMem::Resolving.render(), "");
    assert_eq!(dir(3, "empty", vec![]).render(), "dir \"empty\"");
}

#[test]
fn render_orders_children_by_key_text() {
    let t = dir(ROOT_INO, "r", vec![(2, file(2, "two")), (10, file(10, "ten")), (1, file(1, "one"))]);
    assert_eq!(
        t.render(),
        "dir \"r\"\n  - ino:INodeNo(1) file \"one\"\n  - ino:INodeNo(10) file \"ten\"\n  - ino:INodeNo(2) file \"two\""
    );
    // a child being resolved draws as an empty line, trailing ones vanish
    let t = dir(ROOT_INO, "r", vec![(1, StateInMem::Resolving), (2, file(2, "f")), (3, StateInMem::Resolving)]);
    assert_eq!(t.render(), "dir \"r\"\n\n  - ino:INodeNo(2) file \"f\"");
}

#[test]
fn read_slices_of_contents() {
    let b = b"hello";
    assert_eq!(read_slice(b, 0, 3), b"hel".to_vec());
    assert_eq!(read_slice(b, 3, 10), b"lo".to_vec());
    assert_eq!(read_slice(b, 5, 10), Vec::<u8>::new());
    assert_eq!(read_slice(b, u64::MAX, u32::MAX), Vec::<u8>::new());
    assert_eq!(read_file(HELLO_FILE_INO, 0, 5).unwrap(), b"Hello".to_vec());
    assert_eq!(read_file(WORLD_FILE_INO, 7, 100).unwrap(), b"FUSE with Rust!\n".to_vec());
    assert_eq!(read_file(HELLO_FILE_INO, 23, 1).unwrap(), Vec::<u8>::new());
    assert!(read_file(42, 0, 1).is_none());
}

#[test]
fn listing_from_offsets() {
    let t = sample();
    let c = children(&t);
    let (v, broken) = dir_listing(ROOT_INO, 7, c, 0);
    assert!(!broken);
    let got: Vec<(u64, u64, FileType, String)> =
        v.iter().map(|e| (e.ino, e.offset, e.kind, e.name.clone())).collect();
    assert_eq!(
        got,
        vec![
            (ROOT_INO, 1, FileType::Directory, ".".to_string()),
            (7, 2, FileType::Directory, "..".to_string()),
            (2, 3, FileType::RegularFile, "a".to_string()),
            (4, 4, FileType::Directory, "sub".to_string()),
            (5, 5, FileType::Directory, "lazy".to_string()),
        ]
    );
    let (v, _) = dir_listing(ROOT_INO, 7, c, 1);
    assert_eq!(v.iter().map(|e| e.offset).collect::<Vec<_>>(), vec![2, 3, 4, 5]);
    let (v, _) = dir_listing(ROOT_INO, 7, c, 2);
    assert_eq!(v.iter().map(|e| e.offset).collect::<Vec<_>>(), vec![3, 4, 5]);
    let (v, _) = dir_listing(ROOT_INO, 7, c, 3);
    assert_eq!(v.iter().map(|e| e.ino).collect::<Vec<_>>(), vec![4, 5]);
    let (v, _) = dir_listing(ROOT_INO, 7, c, 4);
    assert_eq!(v.iter().map(|e| (e.ino, e.offset)).collect::<Vec<_>>(), vec![(5, 5)]);
    let (v, broken) = dir_listing(ROOT_INO, 7, c, 99);
    assert!(v.is_empty() && !broken);
}

#[test]
fn listing_stops_at_a_nameless_child() {
    let t = dir(ROOT_INO, "r", vec![(2, file(2, "f")), (3, StateInMem::Resolving), (4, file(4, "g"))]);
    let (v, broken) = dir_listing(ROOT_INO, ROOT_INO, children(&t), 2);
    assert!(broken);
    assert_eq!(v.iter().map(|e| e.ino).collect::<Vec<_>>(), vec![2]);
}

#[test]
fn generated_children_of_the_demo() {
    let c = generated_children(11, 12);
    assert_eq!(keys(&c), vec![11, 12]);
    let f = c.get(&11).unwrap();
    assert_eq!(f.get_name().unwrap(), "lazy.txt");
    assert_eq!(*f.get_fileattr().unwrap(), file_attr(11, 23));
    assert!(matches!(f, StateInMem::LazyFile { .. }));
    let d = c.get(&12).unwrap();
    assert_eq!(d.get_name().unwrap(), "lazydir");
    assert_eq!(*d.get_fileattr().unwrap(), dir_attr(12));
    assert_eq!(dir_attr(12).perm, 0o755);
    assert_eq!(dir_attr(12).nlink, 3);
    assert_eq!(file_attr(11, 23).perm, 0o644);
    // a shared key keeps the directory
    let c = generated_children(5, 5);
    assert_eq!(keys(&c), vec![5]);
    assert!(matches!(c.get(&5).unwrap(), StateInMem::LazyDir { .. }));
}

#[test]
fn resolution_keeps_names_attributes_and_keys() {
    let mut t = sample();
    let before = t.render();
    let mut r = recorder();
    t.get_crrent_dir(&999, &mut r);
    // every node that was there is still there, under the same key and name
    assert_eq!(t.get_parent_inode_of(&3), Some(4));
    assert_eq!(t.get_parent_inode_of(&6), Some(4));
    assert_eq!(t.get_file_obj_with_parent(&4, "deep", &mut r).unwrap().ino, 6);
    assert_ne!(t.render(), before);
    assert!(t.render().contains("- ino:INodeNo(5) dir \"lazy\""));
}

#[test]
fn clone_copies_the_whole_tree() {
    let t = sample();
    let c = t.clone();
    assert_eq!(c.render(), t.render());
    assert_eq!(keys(children(&c)), vec![2, 4, 5]);
    let m = children(&t).clone();
    assert_eq!(keys(&m), vec![2, 4, 5]);
    assert_eq!(m.get(&4).unwrap().render(), children(&t).get(&4).unwrap().render());
}

#[test]
fn the_file_systems_resolver_counts_inodes() {
    let mut r = TestResolver { max_inode: 10 };
    assert_eq!(r.gen_new_inode(), 11);
    let c = r.gen_children(&1);
    assert_eq!(keys(&c), vec![12, 13]);
    assert_eq!(c.get(&12).unwrap().get_name().unwrap(), "lazy.txt");
    assert_eq!(c.get(&13).unwrap().get_name().unwrap(), "lazydir");
    assert_eq!(r.max_inode, 13);
    let mut t = StateInMem::LazyDir { dir_name: "root".to_string(), file_attr: dir_attr(ROOT_INO) };
    let mut r = TestResolver { max_inode: ROOT_INO };
    assert_eq!(keys(t.get_crrent_dir(&ROOT_INO, &mut r).unwrap()), vec![2, 3]);
    assert_eq!(r.max_inode, 3);
    assert_eq!(t.get_file_obj_with_parent(&ROOT_INO, "lazydir", &mut r).unwrap().ino, 3);
    // looking it up resolved the lazydir (inode 3) with inodes 4 and 5
    assert_eq!(keys(t.get_crrent_dir(&3, &mut r).unwrap()), vec![4, 5]);
    assert_eq!(r.max_inode, 5);
}

#[test]
fn listings_resume_after_the_last_entry_taken() {
    let t = sample();
    let c = children(&t);
    let (full, _) = dir_listing(ROOT_INO, 7, c, 0);
    for (m, e) in full.iter().enumerate() {
        assert_eq!(e.offset, m as u64 + 1);
        let (rest, _) = dir_listing(ROOT_INO, 7, c, e.offset);
        let want: Vec<u64> = full[m + 1..].iter().map(|x| x.offset).collect();
        assert_eq!(rest.iter().map(|x| x.offset).collect::<Vec<_>>(), want);
    }
}
