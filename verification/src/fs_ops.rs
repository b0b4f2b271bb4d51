use vstd::prelude::*;
use vstd::string::StringSliceAdditionalSpecFns;
use crate::attr::{FileAttr, FileType, ROOT_INO, Timestamp};
use crate::resolve::{Search, resolutions};
use crate::tree::{ChildMap, LazyResolver, StateInMem};

verus! {

/// The inode of the file `hello.txt`.
pub const HELLO_FILE_INO: u64 = 2;

/// The inode of the file `world.txt`.
pub const WORLD_FILE_INO: u64 = 3;

/// What `hello.txt` holds.
pub const HELLO_CONTENT: &'static str = "Hello, FUSE with Rust!\n";

/// What `world.txt` holds.
pub const WORLD_CONTENT: &'static str = "World, FUSE with Rust!\n";

/// The bytes of a read of at most `size` bytes at `offset`: nothing at or
/// past the end, else up to the end or `size` bytes, whichever comes first.
pub open spec fn read_range(bytes: Seq<u8>, offset: u64, size: u32) -> Seq<u8> {
    if offset >= bytes.len() {
        Seq::empty()
    } else {
        bytes.subrange(offset as int, vstd::math::min(offset + size, bytes.len() as int))
    }
}

/// The bytes of a read of `bytes`, as [`read_range`] describes them.
pub fn read_slice(bytes: &[u8], offset: u64, size: u32) -> (r: Vec<u8>)
    ensures
        r@ == read_range(bytes@, offset, size),
{
    let mut out: Vec<u8> = Vec::new();
    let len = bytes.len();
    if offset >= len as u64 {
        return out;
    }
    let start = offset as usize;
    let remaining = len - start;
    let end = if (size as usize) < remaining {
        start + size as usize
    } else {
        len
    };
    let mut i = start;
    while i < end
        invariant
            start <= i <= end <= len,
            len == bytes@.len(),
            out@ =~= bytes@.subrange(start as int, i as int),
        decreases end - i,
    {
        out.push(bytes[i]);
        i = i + 1;
    }
    out
}

/// The contents of the files that can be read, by inode.
pub open spec fn file_content(ino: u64) -> Option<Seq<u8>> {
    if ino == HELLO_FILE_INO {
        Some(HELLO_CONTENT.spec_bytes())
    } else if ino == WORLD_FILE_INO {
        Some(WORLD_CONTENT.spec_bytes())
    } else {
        None
    }
}

/// A read of at most `size` bytes at `offset` of the file with inode
/// `ino`; no answer for an inode that has no contents.
pub fn read_file(ino: u64, offset: u64, size: u32) -> (r: Option<Vec<u8>>)
    ensures
        match (r, file_content(ino)) {
            (Some(v), Some(c)) => v@ == read_range(c, offset, size),
            (None, None) => true,
            _ => false,
        },
{
    if ino == HELLO_FILE_INO {
        Some(read_slice(HELLO_CONTENT.as_bytes(), offset, size))
    } else if ino == WORLD_FILE_INO {
        Some(read_slice(WORLD_CONTENT.as_bytes(), offset, size))
    } else {
        None
    }
}

/// One line of a directory listing: what the kernel is handed for an entry.
#[derive(Debug)]
pub struct DirEntry {
    pub ino: u64,
    pub offset: u64,
    pub kind: FileType,
    pub name: String,
}

/// `e` lists inode `ino` at `offset` with kind `kind` under `name`.
pub open spec fn entry_is(e: DirEntry, ino: u64, offset: int, kind: FileType, name: Seq<char>) -> bool {
    &&& e.ino == ino
    &&& e.offset == offset
    &&& e.kind == kind
    &&& e.name@ == name
}

/// `e` lists the child `entry` found at position `pos`: under its key,
/// its name and its kind, at offset `pos + 3`.
pub open spec fn lists_child(e: DirEntry, entry: (u64, StateInMem), pos: int) -> bool {
    &&& entry.1.name_spec() matches Some(nm)
    &&& entry.1.attr_spec() matches Some(a)
    &&& entry_is(e, entry.0, pos + 3, a.kind, nm@)
}

/// The number of the entries `.` and `..` that a listing from `offset` holds.
pub open spec fn dot_count(offset: u64) -> int {
    (if offset == 0 { 1int } else { 0int }) + (if offset <= 1 { 1int } else { 0int })
}

/// The position of the first child that a listing from `offset` holds.
pub open spec fn first_listed(offset: u64, n: int) -> int {
    let skip: int = if offset > 2 { offset - 2 } else { 0 };
    vstd::math::min(skip, n)
}

/// The listing of a directory with inode `ino`, whose parent is
/// `parent_ino` and whose children are `childs`, from position `offset`
/// on: `.` at offset 1 and `..` at offset 2, as far as `offset` leaves
/// them, then the children from position `offset - 2` on, each at its
/// position plus 3, until the first child that has no name. The flag says
/// whether the listing stopped at such a child.
pub fn dir_listing(ino: u64, parent_ino: u64, childs: &ChildMap, offset: u64) -> (r: (
    Vec<DirEntry>,
    bool,
))
    requires
        childs@.len() + 3 <= u64::MAX,
    ensures
        ({
            let (v, broken) = r;
            let nd = dot_count(offset);
            let start = first_listed(offset, childs@.len() as int);
            let count = v@.len() - nd;
            &&& count >= 0
            &&& offset == 0 ==> entry_is(v@[0], ino, 1, FileType::Directory, "."@)
            &&& offset <= 1 ==> entry_is(v@[nd - 1], parent_ino, 2, FileType::Directory, ".."@)
            &&& start + count <= childs@.len()
            &&& forall|k: int|
                #![trigger v@[nd + k]]
                0 <= k < count ==> lists_child(v@[nd + k], childs@[start + k], start + k)
            &&& broken == (start + count < childs@.len())
            &&& broken ==> childs@[start + count].1 is Resolving
            &&& forall|k1: int, k2: int|
                #![trigger v@[nd + k1], v@[nd + k2]]
                0 <= k1 < k2 < count ==> v@[nd + k1].ino < v@[nd + k2].ino
        }),
{
    proof {
        use_type_invariant(childs);
    }
    let mut v: Vec<DirEntry> = Vec::new();
    if offset == 0 {
        v.push(DirEntry { ino, offset: 1, kind: FileType::Directory, name: ".".to_owned() });
    }
    if offset <= 1 {
        v.push(DirEntry { ino: parent_ino, offset: 2, kind: FileType::Directory, name: "..".to_owned() });
    }
    let ghost nd = dot_count(offset);
    let n = childs.len();
    let skip: u64 = if offset > 2 {
        offset - 2
    } else {
        0
    };
    let start: usize = if skip < n as u64 {
        skip as usize
    } else {
        n
    };
    assert(start == first_listed(offset, n as int));
    let mut i = start;
    while i < n
        invariant
            start <= i <= n,
            n == childs@.len(),
            start == first_listed(offset, n as int),
            nd == dot_count(offset),
            childs.wf(),
            n + 3 <= u64::MAX,
            v@.len() == nd + (i - start),
            offset == 0 ==> entry_is(v@[0], ino, 1, FileType::Directory, "."@),
            offset <= 1 ==> entry_is(v@[nd - 1], parent_ino, 2, FileType::Directory, ".."@),
            forall|k: int|
                #![trigger v@[nd + k]]
                0 <= k < i - start ==> lists_child(v@[nd + k], childs@[start + k], start + k),
        decreases n - i,
    {
        let node = childs.node_at(i);
        match node.get_name_and_fileattr() {
            Some((name, attr)) => {
                let e = DirEntry {
                    ino: childs.key_at(i),
                    offset: i as u64 + 3,
                    kind: attr.kind,
                    name: name.clone(),
                };
                let ghost old_v = v@;
                v.push(e);
                proof {
                    let kk = i - start;
                    assert(v@[nd + kk] == e);
                    assert forall|k: int|
                        #![trigger v@[nd + k]]
                        0 <= k < i + 1 - start implies lists_child(v@[nd + k], childs@[start + k], start + k) by {
                        if k < kk {
                            assert(v@[nd + k] == old_v[nd + k]);
                        } else {
                            assert(k == kk);
                            assert(childs@[start + k].1 == *node);
                        }
                    }
                }
            },
            None => {
                proof {
                    assert forall|k1: int, k2: int|
                        #![trigger v@[nd + k1], v@[nd + k2]]
                        0 <= k1 < k2 < i - start implies v@[nd + k1].ino < v@[nd + k2].ino by {
                        assert(lists_child(v@[nd + k1], childs@[start + k1], start + k1));
                        assert(lists_child(v@[nd + k2], childs@[start + k2], start + k2));
                    }
                }
                return (v, true);
            },
        }
        i = i + 1;
    }
    proof {
        assert forall|k1: int, k2: int|
            #![trigger v@[nd + k1], v@[nd + k2]]
            0 <= k1 < k2 < i - start implies v@[nd + k1].ino < v@[nd + k2].ino by {
            assert(lists_child(v@[nd + k1], childs@[start + k1], start + k1));
            assert(lists_child(v@[nd + k2], childs@[start + k2], start + k2));
        }
    }
    (v, false)
}

/// Why a directory cannot be listed.
#[derive(Debug, PartialEq, Eq, Structural)]
pub enum DirError {
    /// No parent was found for the inode.
    NoParent,
    /// No directory was found for the inode.
    NoDir,
}

impl StateInMem {
    /// Opens directory `ino` for listing: its parent, by
    /// [`StateInMem::get_parent_inode_of`], and then its children, by
    /// [`StateInMem::resolve_dir_path`], which may resolve lazy directories
    /// on the way.
    pub fn open_dir<R: LazyResolver>(&mut self, ino: &u64, resolver: &mut R) -> (r: Result<
        (u64, &ChildMap),
        DirError,
    >)
        requires
            !(*old(self) is Resolving),
        ensures
            old(self).refines(*final(self)),
            ({
                let o = *old(self);
                let ro = o.root_ino_spec();
                match o.parent_of(*ino) {
                    None => r == Err::<(u64, &ChildMap), DirError>(DirError::NoParent) && *final(self) == o
                        && *final(resolver) == *old(resolver),
                    Some(q) => {
                        &&& !(o.dir_from(ro, ro, *ino) is Pending) ==> *final(self) == o
                            && *final(resolver) == *old(resolver)
                        &&& exists|n: nat|
                            resolutions(o, *old(resolver), *final(self), *final(resolver), *ino, n)
                        &&& match final(self).dir_from(ro, ro, *ino) {
                            Search::Found(p) => r is Ok && r->Ok_0.0 == q && Some(*r->Ok_0.1)
                                == final(self).node_at(p).unwrap().children_spec(),
                            Search::Pending(..) => r == Err::<(u64, &ChildMap), DirError>(DirError::NoDir)
                                && final(self).dir_count() >= u64::MAX,
                            _ => r == Err::<(u64, &ChildMap), DirError>(DirError::NoDir),
                        }
                    },
                }
            }),
            r matches Ok((_, c)) ==> c.wf(),
    {
        match self.get_parent_inode_of(ino) {
            Some(parent_ino) => {
                let ghost ro = self.root_ino_spec();
                match self.resolve_dir_path(ino, resolver) {
                    Search::Found(path) => {
                        proof {
                            self.lemma_dir_found(ro, ro, *ino);
                        }
                        match self.node_by_path(&path) {
                            StateInMem::Dir { childs, .. } => {
                                proof {
                                    use_type_invariant(childs);
                                }
                                Ok((parent_ino, childs))
                            },
                            _ => Err(DirError::NoDir),
                        }
                    },
                    _ => Err(DirError::NoDir),
                }
            },
            None => {
                proof {
                    self.lemma_refines_refl();
                }
                Err(DirError::NoParent)
            },
        }
    }

    /// The attributes of the node that answers for inode `ino` (see
    /// [`StateInMem::get_file_obj`]).
    pub fn get_attribute(&self, ino: u64) -> (r: Option<FileAttr>)
        requires
            ino != ROOT_INO || self.root_lookup_ok(),
        ensures
            r == match self.obj_from(ino) {
                Some(n) => n.attr_spec(),
                None => None,
            },
    {
        match self.get_file_obj(ino) {
            Some(n) => match n.get_fileattr() {
                Some(a) => Some(*a),
                None => None,
            },
            None => None,
        }
    }

    /// Whether a search for the root inode from this node can be made (see
    /// [`StateInMem::root_lookup_ok`]).
    pub fn root_lookup_is_safe(&self) -> (b: bool)
        ensures
            b == self.root_lookup_ok(),
        decreases self,
    {
        match self {
            StateInMem::Resolving => false,
            StateInMem::Dir { childs, file_attr, .. } => {
                if file_attr.ino == ROOT_INO {
                    return true;
                }
                if childs.get(&ROOT_INO).is_some() {
                    return true;
                }
                let mut i: usize = 0;
                proof {
                    assert(childs@.skip(0) =~= childs@);
                }
                while i < childs.len()
                    invariant
                        i <= childs@.len(),
                        self matches StateInMem::Dir { childs: c, .. } && c == childs,
                        self.root_lookup_ok() == StateInMem::root_lookup_ok_in(childs@.skip(i as int)),
                    decreases childs@.len() - i,
                {
                    let child = childs.node_at(i);
                    proof {
                        childs.lemma_entry_decreases(i as int);
                        assert(childs@.skip(i as int).drop_first() =~= childs@.skip(i + 1));
                        assert(childs@.skip(i as int)[0] == childs@[i as int]);
                    }
                    if !child.root_lookup_is_safe() {
                        return false;
                    }
                    if child.get_file_obj(ROOT_INO).is_some() {
                        return true;
                    }
                    i = i + 1;
                }
                true
            },
            _ => true,
        }
    }
}

/// The Unix epoch, the time stamp of every node that this file system makes.
pub open spec fn epoch_spec() -> Timestamp {
    Timestamp { secs: 0, nanos: 0 }
}

/// The attributes of a directory that this file system makes: mode 755,
/// three links, owned by user and group 1000.
pub open spec fn dir_attr_spec(ino: u64) -> FileAttr {
    FileAttr {
        ino,
        size: 0,
        blocks: 0,
        atime: epoch_spec(),
        mtime: epoch_spec(),
        ctime: epoch_spec(),
        crtime: epoch_spec(),
        kind: FileType::Directory,
        perm: 0o755,
        nlink: 3,
        uid: 1000,
        gid: 1000,
        rdev: 0,
        blksize: 512,
        flags: 0,
    }
}

/// The attributes of a regular file of `size` bytes that this file system
/// makes: one block, mode 644, one link, owned by user and group 1000.
pub open spec fn file_attr_spec(ino: u64, size: u64) -> FileAttr {
    FileAttr {
        ino,
        size,
        blocks: 1,
        atime: epoch_spec(),
        mtime: epoch_spec(),
        ctime: epoch_spec(),
        crtime: epoch_spec(),
        kind: FileType::RegularFile,
        perm: 0o644,
        nlink: 1,
        uid: 1000,
        gid: 1000,
        rdev: 0,
        blksize: 512,
        flags: 0,
    }
}

/// The attributes of [`dir_attr_spec`].
pub fn dir_attr(ino: u64) -> (a: FileAttr)
    ensures
        a == dir_attr_spec(ino),
{
    let t = Timestamp { secs: 0, nanos: 0 };
    FileAttr {
        ino,
        size: 0,
        blocks: 0,
        atime: t,
        mtime: t,
        ctime: t,
        crtime: t,
        kind: FileType::Directory,
        perm: 0o755,
        nlink: 3,
        uid: 1000,
        gid: 1000,
        rdev: 0,
        blksize: 512,
        flags: 0,
    }
}

/// The attributes of [`file_attr_spec`].
pub fn file_attr(ino: u64, size: u64) -> (a: FileAttr)
    ensures
        a == file_attr_spec(ino, size),
{
    let t = Timestamp { secs: 0, nanos: 0 };
    FileAttr {
        ino,
        size,
        blocks: 1,
        atime: t,
        mtime: t,
        ctime: t,
        crtime: t,
        kind: FileType::RegularFile,
        perm: 0o644,
        nlink: 1,
        uid: 1000,
        gid: 1000,
        rdev: 0,
        blksize: 512,
        flags: 0,
    }
}

/// `c` holds the children that this file system generates for a lazy
/// directory: a lazy file `lazy.txt` (as long as `world.txt`) under
/// `file_ino`, and a lazy directory `lazydir` under `dir_ino` (which wins
/// under a shared key).
pub open spec fn is_generated_children(c: ChildMap, file_ino: u64, dir_ino: u64) -> bool {
    &&& c.as_map().dom() == set![file_ino, dir_ino]
    &&& c.as_map()[dir_ino] matches StateInMem::LazyDir { dir_name, file_attr } && dir_name@
        == "lazydir"@ && file_attr == dir_attr_spec(dir_ino)
    &&& file_ino != dir_ino ==> (c.as_map()[file_ino] matches StateInMem::LazyFile {
        file_name,
        file_attr,
    } && file_name@ == "lazy.txt"@ && file_attr == file_attr_spec(file_ino, WORLD_CONTENT.len() as u64))
}

/// The children of [`is_generated_children`], stored in that order.
pub fn generated_children(file_ino: u64, dir_ino: u64) -> (c: ChildMap)
    ensures
        c.wf(),
        is_generated_children(c, file_ino, dir_ino),
{
    let mut c = ChildMap::new();
    let size = WORLD_CONTENT.len() as u64;
    c.insert(
        file_ino,
        StateInMem::LazyFile { file_name: "lazy.txt".to_owned(), file_attr: file_attr(file_ino, size) },
    );
    c.insert(
        dir_ino,
        StateInMem::LazyDir { dir_name: "lazydir".to_owned(), file_attr: dir_attr(dir_ino) },
    );
    proof {
        assert(c.as_map().dom() =~= set![file_ino, dir_ino]);
    }
    c
}

/// The resolver of this file system: it hands out inode numbers one after
/// another from `max_inode + 1` on (wrapping at `u64::MAX`), and gives each
/// lazy directory the children of [`is_generated_children`] under the next
/// two of them.
pub struct TestResolver {
    pub max_inode: u64,
}

impl LazyResolver for TestResolver {
    open spec fn generated(&self, parent: u64, next: Self, c: ChildMap) -> bool {
        let file_ino = self.max_inode.wrapping_add(1);
        let dir_ino = file_ino.wrapping_add(1);
        &&& next.max_inode == dir_ino
        &&& is_generated_children(c, file_ino, dir_ino)
    }

    open spec fn handed_out(&self, ino: u64, next: Self) -> bool {
        &&& next.max_inode == self.max_inode.wrapping_add(1)
        &&& ino == next.max_inode
    }

    fn gen_new_inode(&mut self) -> (i: u64) {
        self.max_inode = self.max_inode.wrapping_add(1);
        self.max_inode
    }

    fn gen_children(&mut self, parent_ino: &u64) -> (c: ChildMap) {
        let file_ino = self.gen_new_inode();
        let dir_ino = self.gen_new_inode();
        generated_children(file_ino, dir_ino)
    }
}

} // verus!
