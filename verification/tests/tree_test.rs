use lazy_memfs::attr::{FileAttr, FileType, Timestamp, ROOT_INO};
use lazy_memfs::tree::{ChildMap, LazyResolver, StateInMem};

const SUB_DIR_INO: u64 = 4;
const HELLO_FILE_INO: u64 = 2;
const WORLD_FILE_INO: u64 = 3;
const LAZY_DIR_INO: u64 = 5;

const HELLO_CONTENT: &str = "Hello, FUSE with Rust!\n";
const WORLD_CONTENT: &str = "World, FUSE with Rust!\n";

const NOW: Timestamp = Timestamp { secs: 0, nanos: 0 };

fn attr(ino: u64, size: u64, blocks: u64, kind: FileType, perm: u16, nlink: u32) -> FileAttr {
    FileAttr {
        ino,
        size,
        blocks,
        atime: NOW,
        mtime: NOW,
        ctime: NOW,
        crtime: NOW,
        kind,
        perm,
        nlink,
        uid: 1000,
        gid: 1000,
        rdev: 0,
        blksize: 512,
        flags: 0,
    }
}

fn set_up_test_tree() -> StateInMem {
    let mut sub_childs = ChildMap::new();
    sub_childs.insert(
        WORLD_FILE_INO,
        StateInMem::LazyFile {
            file_name: "world.txt".to_string(),
            file_attr: attr(WORLD_FILE_INO, WORLD_CONTENT.len() as u64, 1, FileType::RegularFile, 0o644, 1),
        },
    );
    let mut childs = ChildMap::new();
    childs.insert(
        HELLO_FILE_INO,
        StateInMem::LazyFile {
            file_name: "hello.txt".to_string(),
            file_attr: attr(HELLO_FILE_INO, HELLO_CONTENT.len() as u64, 1, FileType::RegularFile, 0o644, 1),
        },
    );
    childs.insert(
        SUB_DIR_INO,
        StateInMem::Dir {
            dir_name: "subdir".to_string(),
            file_attr: attr(SUB_DIR_INO, 0, 0, FileType::Directory, 0o755, 2),
            childs: sub_childs,
        },
    );
    childs.insert(
        LAZY_DIR_INO,
        StateInMem::LazyDir {
            dir_name: "lazydir".to_string(),
            file_attr: attr(LAZY_DIR_INO, 0, 0, FileType::Directory, 0o755, 2),
        },
    );
    StateInMem::Dir {
        dir_name: "root".to_string(),
        file_attr: attr(ROOT_INO, 0, 0, FileType::Directory, 0o755, 3),
        childs,
    }
}

struct TestResolver {
    max_inode: u64,
}

impl LazyResolver for TestResolver {
    fn gen_new_inode(&mut self) -> u64 {
        self.max_inode += 1;
        self.max_inode
    }

    fn gen_children(&mut self, parent_ino: &u64) -> ChildMap {
        let mut r_hash_map = ChildMap::new();
        println!("gen_children: tree: {}", parent_ino);
        let new_inode = self.gen_new_inode();
        r_hash_map.insert(
            new_inode,
            StateInMem::LazyFile {
                file_name: "lazy.txt".to_string(),
                file_attr: attr(new_inode, WORLD_CONTENT.len() as u64, 1, FileType::RegularFile, 0o644, 1),
            },
        );
        r_hash_map
    }
}

fn debug_print_dir(dir_children: &ChildMap) {
    for i in 0..dir_children.len() {
        println!("ino{:?} name {}", dir_children.key_at(i), dir_children.node_at(i).render());
    }
}

fn print_children(a: &ChildMap) {
    for i in 0..a.len() {
        println!("ino: {:?}, {}", a.key_at(i), a.node_at(i).render());
    }
}

#[test]
fn test00() {
    let mut tree = set_up_test_tree();
    let mut test_resolver = TestResolver { max_inode: 10 };

    match &tree {
        StateInMem::Dir { childs, .. } => {
            debug_print_dir(childs);
        }
        _ => {}
    }

    println!("-----------------------------------------------------------------");
    if let Some(a) = tree.get_crrent_dir(&ROOT_INO, &mut test_resolver) {
        print_children(a);
    }
    println!("-----------------------------------------------------------------");
    if let Some(a) = tree.get_crrent_dir(&ROOT_INO, &mut test_resolver) {
        print_children(a);
    }
    println!("-----------------------------------------------------------------");
    if let Some(a) = tree.get_crrent_dir(&LAZY_DIR_INO, &mut test_resolver) {
        print_children(a);
    }
    println!("-----------------------------------------------------------------");
    if let Some(a) = tree.get_crrent_dir(&ROOT_INO, &mut test_resolver) {
        print_children(a);
    }
    println!("-----------------------------------------------------------------");
    match &tree {
        StateInMem::Dir { childs, .. } => {
            debug_print_dir(childs);
        }
        _ => {}
    }
    println!("parent ino {}", tree.get_parent_inode_of(&11).expect("parent not found"));
}
