//! A filesystem kept in memory as a list of inodes.
use vstd::prelude::*;

use crate::fs::generic::FileSystemError;
use crate::fs::structures::{DirectoryEntry, DirectoryEntryType, InodePointer};

verus! {

/// Ram Disk INode
pub enum RamDiskInode {
    Directory(String, Vec<(String, InodePointer)>),
    File(String, Vec<u8>),
    Null,
}

/// What a ram disk inode holds: its kind (0 directory, 1 file, 2 none), its
/// name, its entries (names and inodes) and its data.
pub type RamDiskInodeView = (nat, Seq<char>, Seq<(Seq<char>, InodePointer)>, Seq<u8>);

/// The entries of a directory as names and inodes.
pub open spec fn children_view(c: Seq<(String, InodePointer)>) -> Seq<(Seq<char>, InodePointer)> {
    Seq::new(c.len(), |i: int| (c[i].0@, c[i].1))
}

impl View for RamDiskInode {
    type V = RamDiskInodeView;

    open spec fn view(&self) -> RamDiskInodeView {
        match self {
            RamDiskInode::Directory(name, children) => (0, name@, children_view(children@), Seq::empty()),
            RamDiskInode::File(name, data) => (1, name@, Seq::empty(), data@),
            RamDiskInode::Null => (2, Seq::empty(), Seq::empty(), Seq::empty()),
        }
    }
}

/// Ram Disk Filesystem
pub struct RamDiskFilesystem {
    inodes: Vec<RamDiskInode>,
    mount_id: Option<usize>,
}

/// The inode views of `inodes`.
pub open spec fn inode_views(inodes: Seq<RamDiskInode>) -> Seq<RamDiskInodeView> {
    Seq::new(inodes.len(), |i: int| inodes[i]@)
}

impl RamDiskFilesystem {
    /// The inodes.
    pub closed spec fn spec_inodes(&self) -> Seq<RamDiskInodeView> {
        inode_views(self.inodes@)
    }

    /// The identifier the filesystem is mounted under.
    pub closed spec fn spec_mount_id(&self) -> Option<usize> {
        self.mount_id
    }

    /// Create a new RamDisk
    pub fn new() -> (r: Self)
        ensures
            r.spec_inodes().len() == 0,
            r.spec_mount_id() is None,
    {
        Self { inodes: Vec::new(), mount_id: None }
    }

    /// Initialize the filesystem: on an empty disk, the inodes of a root
    /// directory holding a file and a directory, which holds another file
    /// (with inode 0 unused).
    pub fn init(&mut self) -> (r: Result<(), FileSystemError>)
        ensures
            r is Ok,
            final(self).spec_mount_id() == old(self).spec_mount_id(),
            old(self).spec_inodes().len() >= 1 ==> final(self).spec_inodes() == old(self).spec_inodes(),
            old(self).spec_inodes().len() < 1 ==> {
                let i = final(self).spec_inodes();
                let at = |n: usize| InodePointer { device_id: 1, index: n };
                &&& i.len() == 5
                &&& i[0] == (2nat, Seq::<char>::empty(), Seq::<(Seq<char>, InodePointer)>::empty(), Seq::<u8>::empty())
                &&& i[1] == (0nat, ""@, seq![("file"@, at(3)), ("."@, at(1)), (".."@, at(1)), ("dir"@, at(2))], Seq::<u8>::empty())
                &&& i[2] == (0nat, "dir"@, seq![("."@, at(2)), (".."@, at(1)), ("file2"@, at(4))], Seq::<u8>::empty())
                &&& i[3] == (1nat, "file"@, Seq::<(Seq<char>, InodePointer)>::empty(), seq![72u8, 101, 108, 108, 111])
                &&& i[4] == (1nat, "file2"@, Seq::<(Seq<char>, InodePointer)>::empty(), seq![72u8, 101, 121, 33])
            },
    {
        // Add the null inode
        if self.inodes.len() < 1 {
            let id: usize = 1;
            let at = |n: usize| -> (r: InodePointer)
                ensures
                    r == (InodePointer { device_id: 1, index: n }),
                { InodePointer { device_id: id, index: n } };

            self.inodes.push(RamDiskInode::Null);
            self.inodes.push(RamDiskInode::Directory(String::from_str(""), Vec::new()));
            self.inodes.push(RamDiskInode::Directory(String::from_str("dir"), Vec::new()));
            self.inodes.push(RamDiskInode::File(String::from_str("file"), vec![72u8, 101, 108, 108, 111]));
            self.inodes.push(RamDiskInode::File(String::from_str("file2"), vec![72u8, 101, 121, 33]));

            let root_children = vec![
                (String::from_str("file"), at(3)),
                (String::from_str("."), at(1)),
                (String::from_str(".."), at(1)),
                (String::from_str("dir"), at(2)),
            ];
            self.inodes.set(1, RamDiskInode::Directory(String::from_str(""), root_children));

            let dir_children = vec![
                (String::from_str("."), at(2)),
                (String::from_str(".."), at(1)),
                (String::from_str("file2"), at(4)),
            ];
            self.inodes.set(2, RamDiskInode::Directory(String::from_str("dir"), dir_children));
            proof {
                assert(self.spec_inodes()[1].2 =~= seq![
                    ("file"@, InodePointer { device_id: 1, index: 3 }),
                    ("."@, InodePointer { device_id: 1, index: 1 }),
                    (".."@, InodePointer { device_id: 1, index: 1 }),
                    ("dir"@, InodePointer { device_id: 1, index: 2 }),
                ]);
                assert(self.spec_inodes()[2].2 =~= seq![
                    ("."@, InodePointer { device_id: 1, index: 2 }),
                    (".."@, InodePointer { device_id: 1, index: 1 }),
                    ("file2"@, InodePointer { device_id: 1, index: 4 }),
                ]);
            }
        }
        Ok(())
    }
}

/// `e` is the entry, of unknown type, for the directory entry `c`.
pub open spec fn entry_for(e: DirectoryEntry, c: (String, InodePointer)) -> bool {
    e.index == c.1 && e.name@ == c.0@ && e.entry_type == DirectoryEntryType::Unknown
}

/// `r` lists the entries `children` of a directory, of unknown type.
pub open spec fn lists_children(r: Seq<DirectoryEntry>, children: Seq<(Seq<char>, InodePointer)>) -> bool {
    &&& r.len() == children.len()
    &&& forall|i: int|
        0 <= i < r.len() ==> #[trigger] r[i].index == children[i].1 && r[i].name@ == children[i].0
            && r[i].entry_type == DirectoryEntryType::Unknown
}

/// Whether a directory entry names an inode other than `target`.
pub open spec fn names_other(target: InodePointer) -> spec_fn((Seq<char>, InodePointer)) -> bool {
    |c: (Seq<char>, InodePointer)| c.1 != target
}

/// The inodes `inodes` with every entry that names `target` dropped from the
/// directory at index `dir`; unchanged where that is no directory.
pub open spec fn without_entries(inodes: Seq<RamDiskInodeView>, dir: int, target: InodePointer) -> Seq<
    RamDiskInodeView,
> {
    if 0 <= dir < inodes.len() && inodes[dir].0 == 0 {
        let d = inodes[dir];
        inodes.update(dir, (d.0, d.1, d.2.filter(names_other(target)), d.3))
    } else {
        inodes
    }
}

impl RamDiskFilesystem {
    /// Set the mount_id of the filesystem
    pub fn set_mount_id(&mut self, mount_id: usize)
        ensures
            final(self).spec_mount_id() == Some(mount_id),
            final(self).spec_inodes() == old(self).spec_inodes(),
    {
        self.mount_id = Some(mount_id);
    }

    /// Get the index of the root directory of the filesystem
    pub fn get_root_index(&self) -> (r: Result<InodePointer, FileSystemError>)
        ensures
            match self.spec_mount_id() {
                Some(id) => r == Ok::<_, FileSystemError>(InodePointer { device_id: id, index: 1 }),
                None => r == Err::<InodePointer, _>(FileSystemError::UninitializedFilesystem),
            },
    {
        match self.mount_id {
            Some(id) => Ok(InodePointer { device_id: id, index: 1 }),
            None => Err(FileSystemError::UninitializedFilesystem),
        }
    }

    /// Get the directory entries for the given inode
    pub fn get_dir_entries(&self, inode: InodePointer) -> (r: Result<Vec<DirectoryEntry>, FileSystemError>)
        ensures
            if self.spec_mount_id() == Some(inode.device_id) {
                if inode.index < self.spec_inodes().len() {
                    let n = self.spec_inodes()[inode.index as int];
                    if n.0 == 0 {
                        r is Ok && lists_children(r->Ok_0@, n.2)
                    } else {
                        r == Err::<Vec<DirectoryEntry>, _>(FileSystemError::InodeIsADirectory(inode))
                    }
                } else {
                    r == Err::<Vec<DirectoryEntry>, _>(FileSystemError::BadInode(inode))
                }
            } else {
                r == Err::<Vec<DirectoryEntry>, _>(FileSystemError::UnmountedDevice)
            },
    {
        if self.mount_id != Some(inode.device_id) {
            return Err(FileSystemError::UnmountedDevice);
        }
        if inode.index >= self.inodes.len() {
            return Err(FileSystemError::BadInode(inode));
        }
        match &self.inodes[inode.index] {
            RamDiskInode::Directory(_, children) => {
                let mut result: Vec<DirectoryEntry> = Vec::new();
                let mut i: usize = 0;
                while i < children.len()
                    invariant
                        i <= children@.len(),
                        result@.len() == i,
                        forall|j: int| 0 <= j < i ==> entry_for(#[trigger] result@[j], children@[j]),
                    decreases children@.len() - i,
                {
                    let name = children[i].0.clone();
                    assert(name@ == children@[i as int].0@);
                    let entry = DirectoryEntry {
                        index: children[i].1,
                        name,
                        entry_type: DirectoryEntryType::Unknown,
                    };
                    let ghost before = result@;
                    result.push(entry);
                    assert(entry_for(result@[i as int], children@[i as int]));
                    assert forall|j: int| 0 <= j < i + 1 implies entry_for(#[trigger] result@[j], children@[j]) by {
                        if j < i {
                            assert(result@[j] == before[j]);
                        }
                    }
                    i = i + 1;
                }
                Ok(result)
            },
            _ => Err(FileSystemError::InodeIsADirectory(inode)),
        }
    }

    /// Add an entry to directory `dir`, which the new inode `made` (just
    /// pushed) names.
    fn add_child(&mut self, dir: InodePointer, name: String, made: InodePointer) -> (r: Result<InodePointer, FileSystemError>)
        ensures
            final(self).spec_mount_id() == old(self).spec_mount_id(),
            if dir.index < old(self).spec_inodes().len() {
                let n = old(self).spec_inodes()[dir.index as int];
                if n.0 == 0 {
                    r == Ok::<_, FileSystemError>(made) && final(self).spec_inodes() == old(self).spec_inodes().update(
                        dir.index as int,
                        (n.0, n.1, n.2.push((name@, made)), n.3),
                    )
                } else {
                    r == Err::<InodePointer, _>(FileSystemError::InodeIsADirectory(dir)) && final(self).spec_inodes()
                        == old(self).spec_inodes()
                }
            } else {
                r == Err::<InodePointer, _>(FileSystemError::BadInode(dir)) && final(self).spec_inodes()
                    == old(self).spec_inodes()
            },
    {
        if dir.index >= self.inodes.len() {
            return Err(FileSystemError::BadInode(dir));
        }
        let ghost before = self.spec_inodes();
        let mut node = RamDiskInode::Null;
        std::mem::swap(&mut node, &mut self.inodes[dir.index]);
        match node {
            RamDiskInode::Directory(dname, mut children) => {
                children.push((name, made));
                let ghost c = children@;
                self.inodes.set(dir.index, RamDiskInode::Directory(dname, children));
                proof {
                    assert(children_view(c) =~= before[dir.index as int].2.push((name@, made)));
                    assert(self.spec_inodes() =~= before.update(
                        dir.index as int,
                        (before[dir.index as int].0, before[dir.index as int].1, before[dir.index as int].2.push((name@, made)), before[dir.index as int].3),
                    ));
                }
                Ok(made)
            },
            other => {
                self.inodes.set(dir.index, other);
                proof {
                    assert(self.spec_inodes() =~= before);
                }
                Err(FileSystemError::InodeIsADirectory(dir))
            },
        }
    }

    /// Create a file in the directory at the given inode: a new, empty file
    /// inode is added at the end, and an entry for it in the directory.
    pub fn create_file(&mut self, inode: InodePointer, name: String) -> (r: Result<InodePointer, FileSystemError>)
        requires
            old(self).spec_inodes().len() < usize::MAX,
        ensures
            final(self).spec_mount_id() == old(self).spec_mount_id(),
            if old(self).spec_mount_id() == Some(inode.device_id) {
                let made = InodePointer { device_id: inode.device_id, index: old(self).spec_inodes().len() as usize };
                let pushed = old(self).spec_inodes().push((1nat, name@, Seq::empty(), Seq::empty()));
                if inode.index < pushed.len() {
                    let n = pushed[inode.index as int];
                    if n.0 == 0 {
                        r == Ok::<_, FileSystemError>(made) && final(self).spec_inodes() == pushed.update(
                            inode.index as int,
                            (n.0, n.1, n.2.push((name@, made)), n.3),
                        )
                    } else {
                        r == Err::<InodePointer, _>(FileSystemError::InodeIsADirectory(inode)) && final(self).spec_inodes()
                            == pushed
                    }
                } else {
                    r == Err::<InodePointer, _>(FileSystemError::BadInode(inode)) && final(self).spec_inodes() == pushed
                }
            } else {
                r == Err::<InodePointer, _>(FileSystemError::UnmountedDevice) && final(self).spec_inodes()
                    == old(self).spec_inodes()
            },
    {
        if self.mount_id != Some(inode.device_id) {
            return Err(FileSystemError::UnmountedDevice);
        }
        let next_id = self.inodes.len();
        self.inodes.push(RamDiskInode::File(name.clone(), Vec::new()));
        proof {
            assert(self.spec_inodes() =~= old(self).spec_inodes().push((1nat, name@, Seq::empty(), Seq::empty())));
        }
        let index = InodePointer { device_id: inode.device_id, index: next_id };
        self.add_child(inode, name, index)
    }

    /// Create a directory in the directory at the given inode: a new
    /// directory inode holding "." and ".." is added at the end, and an
    /// entry for it in the directory.
    pub fn create_directory(&mut self, inode: InodePointer, name: String) -> (r: Result<InodePointer, FileSystemError>)
        requires
            old(self).spec_inodes().len() < usize::MAX,
        ensures
            final(self).spec_mount_id() == old(self).spec_mount_id(),
            if old(self).spec_mount_id() == Some(inode.device_id) {
                let made = InodePointer { device_id: inode.device_id, index: old(self).spec_inodes().len() as usize };
                let pushed = old(self).spec_inodes().push(
                    (0nat, name@, seq![("."@, made), (".."@, inode)], Seq::empty()),
                );
                if inode.index < pushed.len() {
                    let n = pushed[inode.index as int];
                    if n.0 == 0 {
                        r == Ok::<_, FileSystemError>(made) && final(self).spec_inodes() == pushed.update(
                            inode.index as int,
                            (n.0, n.1, n.2.push((name@, made)), n.3),
                        )
                    } else {
                        r == Err::<InodePointer, _>(FileSystemError::InodeIsADirectory(inode)) && final(self).spec_inodes()
                            == pushed
                    }
                } else {
                    r == Err::<InodePointer, _>(FileSystemError::BadInode(inode)) && final(self).spec_inodes() == pushed
                }
            } else {
                r == Err::<InodePointer, _>(FileSystemError::UnmountedDevice) && final(self).spec_inodes()
                    == old(self).spec_inodes()
            },
    {
        if self.mount_id != Some(inode.device_id) {
            return Err(FileSystemError::UnmountedDevice);
        }
        let next_id = self.inodes.len();
        let index = InodePointer { device_id: inode.device_id, index: next_id };
        let new_dir = RamDiskInode::Directory(
            name.clone(),
            vec![(String::from_str("."), index), (String::from_str(".."), inode)],
        );
        self.inodes.push(new_dir);
        proof {
            assert(self.spec_inodes()[next_id as int].2 =~= seq![("."@, index), (".."@, inode)]);
            assert(self.spec_inodes() =~= old(self).spec_inodes().push(
                (0nat, name@, seq![("."@, index), (".."@, inode)], Seq::empty()),
            ));
        }
        self.add_child(inode, name, index)
    }

    /// Drop from the directory at index `dir` every entry that names
    /// `target`; anything but a directory stays as it is.
    fn drop_entries(&mut self, dir: usize, target: InodePointer)
        ensures
            final(self).spec_mount_id() == old(self).spec_mount_id(),
            final(self).spec_inodes() == without_entries(old(self).spec_inodes(), dir as int, target),
    {
        if dir >= self.inodes.len() {
            return;
        }
        let ghost before = self.spec_inodes();
        let mut node = RamDiskInode::Null;
        std::mem::swap(&mut node, &mut self.inodes[dir]);
        match node {
            RamDiskInode::Directory(dname, children) => {
                let ghost cv = children_view(children@);
                let mut kept: Vec<(String, InodePointer)> = Vec::new();
                let mut i: usize = 0;
                while i < children.len()
                    invariant
                        i <= children@.len(),
                        cv == children_view(children@),
                        children_view(kept@) == cv.take(i as int).filter(names_other(target)),
                    decreases children@.len() - i,
                {
                    proof {
                        assert(cv.take(i as int + 1) =~= cv.take(i as int).push(cv[i as int]));
                        cv.take(i as int).lemma_filter_push(cv[i as int], names_other(target));
                    }
                    if children[i].1 != target {
                        let name = children[i].0.clone();
                        let ghost prev = kept@;
                        kept.push((name, children[i].1));
                        proof {
                            assert(children_view(kept@) =~= children_view(prev).push(cv[i as int]));
                        }
                    }
                    i = i + 1;
                }
                proof {
                    assert(cv.take(children@.len() as int) =~= cv);
                }
                let ghost k = kept@;
                self.inodes.set(dir, RamDiskInode::Directory(dname, kept));
                proof {
                    assert(self.spec_inodes() =~= before.update(
                        dir as int,
                        (before[dir as int].0, before[dir as int].1, children_view(k), before[dir as int].3),
                    ));
                }
            },
            other => {
                self.inodes.set(dir, other);
                proof {
                    assert(self.spec_inodes() =~= before);
                }
            },
        }
    }

    /// Remove an inode at the given index from the given directory: the
    /// inode holds nothing from now on, and the directory, where it is a
    /// directory of this filesystem, no longer lists it.
    pub fn remove_inode(&mut self, inode: InodePointer, directory: InodePointer) -> (r: Result<(), FileSystemError>)
        ensures
            final(self).spec_mount_id() == old(self).spec_mount_id(),
            if old(self).spec_mount_id() == Some(inode.device_id) {
                if inode.index < old(self).spec_inodes().len() {
                    let nulled = old(self).spec_inodes().update(
                        inode.index as int,
                        (2nat, Seq::empty(), Seq::empty(), Seq::empty()),
                    );
                    &&& r is Ok
                    &&& directory.device_id == inode.device_id ==> final(self).spec_inodes() == without_entries(
                        nulled,
                        directory.index as int,
                        inode,
                    )
                    &&& directory.device_id != inode.device_id ==> final(self).spec_inodes() == nulled
                } else {
                    r == Err::<(), _>(FileSystemError::BadInode(inode)) && final(self).spec_inodes() == old(self).spec_inodes()
                }
            } else {
                r == Err::<(), _>(FileSystemError::UnmountedDevice) && final(self).spec_inodes() == old(self).spec_inodes()
            },
    {
        if self.mount_id != Some(inode.device_id) {
            return Err(FileSystemError::UnmountedDevice);
        }
        if inode.index < self.inodes.len() {
            self.inodes.set(inode.index, RamDiskInode::Null);
            proof {
                assert(self.spec_inodes() =~= old(self).spec_inodes().update(
                    inode.index as int,
                    (2nat, Seq::empty(), Seq::empty(), Seq::empty()),
                ));
            }
            if directory.device_id == inode.device_id {
                self.drop_entries(directory.index, inode);
            }
            Ok(())
        } else {
            Err(FileSystemError::BadInode(inode))
        }
    }

    /// Read the data stored in an inode
    pub fn read_inode(&self, inode: InodePointer) -> (r: Result<Vec<u8>, FileSystemError>)
        requires
            self.spec_mount_id() == Some(inode.device_id) ==> inode.index < self.spec_inodes().len(),
        ensures
            if self.spec_mount_id() == Some(inode.device_id) {
                let n = self.spec_inodes()[inode.index as int];
                if n.0 == 1 {
                    r is Ok && r->Ok_0@ == n.3
                } else {
                    r == Err::<Vec<u8>, _>(FileSystemError::BadInode(inode))
                }
            } else {
                r == Err::<Vec<u8>, _>(FileSystemError::UnmountedDevice)
            },
    {
        if self.mount_id != Some(inode.device_id) {
            return Err(FileSystemError::UnmountedDevice);
        }
        match &self.inodes[inode.index] {
            RamDiskInode::File(_, data) => Ok(data.clone()),
            _ => Err(FileSystemError::BadInode(inode)),
        }
    }
}

} // verus!
