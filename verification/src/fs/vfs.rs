//! Device identifiers handed to mounted filesystems, and the index of the
//! paths of the mounted filesystems.
use vstd::prelude::*;

use crate::bytes::push_char;
use crate::fs::generic::FileSystemError;
use crate::fs::structures::{DirectoryEntry, InodePointer};
use crate::types::DeviceIdentifier;

verus! {

/// The source of device identifiers: the next one to hand out.
pub struct DeviceIds {
    next: DeviceIdentifier,
}

impl DeviceIds {
    /// The next identifier to hand out.
    pub closed spec fn spec_next(&self) -> DeviceIdentifier {
        self.next
    }

    /// Identifiers start at 1.
    pub fn new() -> (r: Self)
        ensures
            r.spec_next() == 1,
    {
        DeviceIds { next: 1 }
    }
}

/// Get the next device identifier: the counter's value, which then moves
/// on by one (wrapping at the top).
pub fn next_device_id(ids: &mut DeviceIds) -> (r: DeviceIdentifier)
    ensures
        r == old(ids).spec_next(),
        final(ids).spec_next() == if old(ids).spec_next() == usize::MAX {
            0
        } else {
            old(ids).spec_next() + 1
        },
{
    let id = ids.next;
    ids.next = if id == usize::MAX {
        0
    } else {
        id + 1
    };
    id
}

/// Identifiers handed out one after the other differ, as long as the
/// counter does not wrap.
pub proof fn lemma_device_ids_distinct(a: DeviceIds, b: DeviceIds, first: DeviceIdentifier, second: DeviceIdentifier)
    requires
        first == a.spec_next(),
        b.spec_next() == if a.spec_next() == usize::MAX { 0 } else { a.spec_next() + 1 },
        second == b.spec_next(),
        a.spec_next() < usize::MAX,
    ensures
        first != second,
        second == first + 1,
{
}

/// The map that a list of keys and values gives: a later pair overrides an
/// earlier one with the same key.
pub open spec fn pairs_map<K, V>(s: Seq<(K, V)>) -> Map<K, V>
    decreases s.len(),
{
    if s.len() == 0 {
        Map::empty()
    } else {
        pairs_map(s.drop_last()).insert(s.last().0, s.last().1)
    }
}

/// The paths of a list of paths and inodes, as character sequences.
pub open spec fn path_pairs(v: Seq<(String, InodePointer)>) -> Seq<(Seq<char>, InodePointer)> {
    Seq::new(v.len(), |i: int| (v[i].0@, v[i].1))
}

/// The inodes of a list of inodes and paths, with the paths as character
/// sequences.
pub open spec fn inode_pairs(v: Seq<(InodePointer, String)>) -> Seq<(InodePointer, Seq<char>)> {
    Seq::new(v.len(), |i: int| (v[i].0, v[i].1@))
}

/// The paths that do not start with `prefix`.
pub open spec fn not_under(prefix: Seq<char>) -> Set<Seq<char>> {
    Set::new(|p: Seq<char>| !prefix.is_prefix_of(p))
}

/// Whether a pair's path does not start with `prefix`.
pub open spec fn pair_not_under(prefix: Seq<char>) -> spec_fn((Seq<char>, InodePointer)) -> bool {
    |e: (Seq<char>, InodePointer)| !prefix.is_prefix_of(e.0)
}

/// The pairs of `s` that come before the last one for key `k`, or all of
/// them: a lookup from the end of `s` up to `j` finds nothing for `k`.
proof fn lemma_pairs_map_take<K, V>(s: Seq<(K, V)>, j: int, k: K)
    requires
        0 <= j <= s.len(),
        forall|q: int| j <= q < s.len() ==> #[trigger] s[q].0 != k,
    ensures
        pairs_map(s.take(j)).contains_key(k) == pairs_map(s).contains_key(k),
        pairs_map(s).contains_key(k) ==> pairs_map(s.take(j))[k] == pairs_map(s)[k],
    decreases s.len() - j,
{
    if j < s.len() {
        assert(s.take(j + 1).drop_last() =~= s.take(j));
        lemma_pairs_map_take(s, j + 1, k);
    } else {
        assert(s.take(j) =~= s);
    }
}

/// Keeping the pairs whose key is outside a set keeps the map outside it.
proof fn lemma_pairs_map_filter(s: Seq<(Seq<char>, InodePointer)>, prefix: Seq<char>)
    ensures
        pairs_map(s.filter(pair_not_under(prefix))) =~= pairs_map(s).restrict(not_under(prefix)),
    decreases s.len(),
{
    if s.len() > 0 {
        let x = s.last();
        let t = s.drop_last();
        assert(t.push(x) =~= s);
        t.lemma_filter_push(x, pair_not_under(prefix));
        lemma_pairs_map_filter(t, prefix);
        if pair_not_under(prefix)(x) {
            assert(t.filter(pair_not_under(prefix)).push(x).drop_last() =~= t.filter(pair_not_under(prefix)));
        }
    } else {
        reveal(Seq::filter);
    }
}

/// The characters of a string.
fn chars_of(s: &str) -> (r: Vec<char>)
    ensures
        r@ == s@,
{
    let mut r: Vec<char> = Vec::new();
    for c in it: s.chars()
        invariant
            it.seq() == s@,
            r@ == s@.take(it.index() as int),
    {
        proof {
            assert(s@.take(it.index() + 1) =~= s@.take(it.index() as int).push(c));
        }
        r.push(c);
    }
    proof {
        assert(s@.take(s@.len() as int) =~= s@);
    }
    r
}

/// Whether the characters `prefix` start the characters `s`.
fn starts_with(s: &Vec<char>, prefix: &Vec<char>) -> (r: bool)
    ensures
        r == prefix@.is_prefix_of(s@),
{
    if prefix.len() > s.len() {
        return false;
    }
    let mut i: usize = 0;
    while i < prefix.len()
        invariant
            prefix@.len() <= s@.len(),
            i <= prefix@.len(),
            forall|j: int| 0 <= j < i ==> prefix@[j] == s@[j],
        decreases prefix@.len() - i,
    {
        if prefix[i] != s[i] {
            return false;
        }
        i = i + 1;
    }
    assert(prefix@ =~= s@.subrange(0, prefix@.len() as int));
    true
}

/// The index of the paths of the mounted filesystems: the inode each path
/// names, and the path by which each indexed inode was reached.
pub struct PathIndex {
    index: Vec<(String, InodePointer)>,
    indexed: Vec<(InodePointer, String)>,
}

impl PathIndex {
    /// The inode each indexed path names.
    pub closed spec fn paths(&self) -> Map<Seq<char>, InodePointer> {
        pairs_map(path_pairs(self.index@))
    }

    /// The path by which each indexed inode was reached.
    pub closed spec fn inodes(&self) -> Map<InodePointer, Seq<char>> {
        pairs_map(inode_pairs(self.indexed@))
    }

    /// An empty index.
    pub fn new() -> (r: Self)
        ensures
            r.paths() == Map::<Seq<char>, InodePointer>::empty(),
            r.inodes() == Map::<InodePointer, Seq<char>>::empty(),
    {
        let r = PathIndex { index: Vec::new(), indexed: Vec::new() };
        proof {
            assert(path_pairs(r.index@) =~= Seq::empty());
            assert(inode_pairs(r.indexed@) =~= Seq::empty());
        }
        r
    }

    /// Clear out the index.
    pub fn clear(&mut self)
        ensures
            final(self).paths() == Map::<Seq<char>, InodePointer>::empty(),
            final(self).inodes() == Map::<InodePointer, Seq<char>>::empty(),
    {
        self.index = Vec::new();
        self.indexed = Vec::new();
        proof {
            assert(path_pairs(self.index@) =~= Seq::empty());
            assert(inode_pairs(self.indexed@) =~= Seq::empty());
        }
    }

    /// Path to inode
    pub fn path_to_inode(&self, path: &str) -> (r: Result<InodePointer, FileSystemError>)
        ensures
            r == (if self.paths().contains_key(path@) {
                Ok::<InodePointer, FileSystemError>(self.paths()[path@])
            } else {
                Err(FileSystemError::BadPath)
            }),
    {
        let key = path.to_owned();
        let ghost s = path_pairs(self.index@);
        let mut j: usize = self.index.len();
        while j > 0
            invariant
                j <= self.index@.len(),
                s == path_pairs(self.index@),
                key@ == path@,
                forall|q: int| j <= q < s.len() ==> #[trigger] s[q].0 != path@,
            decreases j,
        {
            if self.index[j - 1].0 == key {
                proof {
                    lemma_pairs_map_take(s, j as int, path@);
                    assert(s.take(j as int).drop_last() =~= s.take(j - 1));
                    assert(s.take(j as int).last() == s[j - 1]);
                }
                return Ok(self.index[j - 1].1);
            }
            j = j - 1;
        }
        proof {
            lemma_pairs_map_take(s, 0, path@);
            assert(s.take(0) =~= Seq::<(Seq<char>, InodePointer)>::empty());
        }
        Err(FileSystemError::BadPath)
    }

    /// Attempt to get a path from an inode
    pub fn inode_to_path(&self, inode: InodePointer) -> (r: Result<String, FileSystemError>)
        ensures
            self.inodes().contains_key(inode) ==> r is Ok && r->Ok_0@ == self.inodes()[inode],
            !self.inodes().contains_key(inode) ==> r == Err::<String, FileSystemError>(FileSystemError::BadInode(inode)),
    {
        let ghost s = inode_pairs(self.indexed@);
        let mut j: usize = self.indexed.len();
        while j > 0
            invariant
                j <= self.indexed@.len(),
                s == inode_pairs(self.indexed@),
                forall|q: int| j <= q < s.len() ==> #[trigger] s[q].0 != inode,
            decreases j,
        {
            if self.indexed[j - 1].0 == inode {
                proof {
                    lemma_pairs_map_take(s, j as int, inode);
                    assert(s.take(j as int).drop_last() =~= s.take(j - 1));
                    assert(s.take(j as int).last() == s[j - 1]);
                }
                return Ok(self.indexed[j - 1].1.clone());
            }
            j = j - 1;
        }
        proof {
            lemma_pairs_map_take(s, 0, inode);
            assert(s.take(0) =~= Seq::<(InodePointer, Seq<char>)>::empty());
        }
        Err(FileSystemError::BadInode(inode))
    }

    /// Put `path` into the index as the path of `inode`: the step of
    /// indexing the filesystem that reaches `inode` by `path`. An inode
    /// already indexed is passed over (`false`); otherwise a non-empty path
    /// now names the inode, and the inode is reached by the path (`true`).
    pub fn index_path(&mut self, path: String, inode: InodePointer) -> (r: bool)
        ensures
            r == !old(self).inodes().contains_key(inode),
            !r ==> final(self).paths() == old(self).paths() && final(self).inodes() == old(self).inodes(),
            r ==> final(self).inodes() == old(self).inodes().insert(inode, path@),
            r ==> final(self).paths() == if path@.len() == 0 {
                old(self).paths()
            } else {
                old(self).paths().insert(path@, inode)
            },
    {
        if self.inode_to_path(inode).is_ok() {
            return false;
        }
        let ghost p0 = path_pairs(self.index@);
        let ghost i0 = inode_pairs(self.indexed@);
        if !path.as_str().is_empty() {
            self.index.push((path.clone(), inode));
            proof {
                assert(path_pairs(self.index@) =~= p0.push((path@, inode)));
                assert(path_pairs(self.index@).drop_last() =~= p0);
            }
        }
        self.indexed.push((inode, path));
        proof {
            assert(inode_pairs(self.indexed@) =~= i0.push((inode, path@)));
            assert(inode_pairs(self.indexed@).drop_last() =~= i0);
        }
        true
    }

    /// Put `path` followed by a slash into the index as a name of the
    /// directory `inode`.
    pub fn index_directory(&mut self, path: &str, inode: InodePointer)
        ensures
            final(self).paths() == old(self).paths().insert(path@.push('/'), inode),
            final(self).inodes() == old(self).inodes(),
    {
        let mut key = path.to_owned();
        push_char(&mut key, '/');
        let ghost p0 = path_pairs(self.index@);
        self.index.push((key, inode));
        proof {
            assert(path_pairs(self.index@) =~= p0.push((path@.push('/'), inode)));
            assert(path_pairs(self.index@).drop_last() =~= p0);
        }
    }

    /// Invalidate part of the index: every path that starts with `path`
    /// leaves it.
    pub fn invalidate_index(&mut self, path: &str) -> (r: Result<(), FileSystemError>)
        ensures
            r is Ok,
            final(self).paths() == old(self).paths().restrict(not_under(path@)),
            final(self).inodes() == old(self).inodes(),
    {
        let prefix = chars_of(path);
        let ghost s = path_pairs(self.index@);
        let mut kept: Vec<(String, InodePointer)> = Vec::new();
        let mut i: usize = 0;
        while i < self.index.len()
            invariant
                i <= self.index@.len(),
                s == path_pairs(self.index@),
                prefix@ == path@,
                path_pairs(kept@) == s.take(i as int).filter(pair_not_under(path@)),
            decreases self.index@.len() - i,
        {
            proof {
                assert(s.take(i as int + 1) =~= s.take(i as int).push(s[i as int]));
                s.take(i as int).lemma_filter_push(s[i as int], pair_not_under(path@));
            }
            let key = chars_of(self.index[i].0.as_str());
            if !starts_with(&key, &prefix) {
                let ghost before = kept@;
                kept.push((self.index[i].0.clone(), self.index[i].1));
                proof {
                    assert(path_pairs(kept@) =~= path_pairs(before).push(s[i as int]));
                }
            }
            i = i + 1;
        }
        proof {
            assert(s.take(s.len() as int) =~= s);
            lemma_pairs_map_filter(s, path@);
        }
        self.index = kept;
        Ok(())
    }
}

/// The path of an entry named `name` of the directory at `path`.
pub open spec fn child_path(path: Seq<char>, name: Seq<char>) -> Seq<char> {
    path.push('/') + name
}

/// The path of the entry named `name` of the directory at `path`: the path,
/// a slash and the name.
pub fn join_path(path: &str, name: &str) -> (r: String)
    ensures
        r@ == child_path(path@, name@),
{
    let mut r = path.to_owned();
    push_char(&mut r, '/');
    let ghost base = r@;
    for c in it: name.chars()
        invariant
            it.seq() == name@,
            base == path@.push('/'),
            r@ == base + name@.take(it.index() as int),
    {
        proof {
            assert(name@.take(it.index() + 1) =~= name@.take(it.index() as int).push(c));
            assert(base + name@.take(it.index() + 1) =~= (base + name@.take(it.index() as int)).push(c));
        }
        push_char(&mut r, c);
    }
    proof {
        assert(name@.take(name@.len() as int) =~= name@);
    }
    r
}

/// The paths to index below the directory at `path` from its listing: for
/// each entry, in order, the path of the entry and its inode.
pub fn child_paths(path: &str, entries: &Vec<DirectoryEntry>) -> (r: Vec<(String, InodePointer)>)
    ensures
        r@.len() == entries@.len(),
        forall|k: int|
            0 <= k < entries@.len() ==> (#[trigger] r@[k]).0@ == child_path(path@, entries@[k].name@) && r@[k].1
                == entries@[k].index,
{
    let mut r: Vec<(String, InodePointer)> = Vec::new();
    let mut k: usize = 0;
    while k < entries.len()
        invariant
            k <= entries@.len(),
            r@.len() == k,
            forall|j: int|
                0 <= j < k ==> (#[trigger] r@[j]).0@ == child_path(path@, entries@[j].name@) && r@[j].1
                    == entries@[j].index,
        decreases entries@.len() - k,
    {
        let p = join_path(path, entries[k].name.as_str());
        r.push((p, entries[k].index));
        k = k + 1;
    }
    r
}

/// What indexing does with the listing of an inode: a directory's entries
/// are indexed below it (`Ok(true)`), an inode that is not a directory has
/// nothing below it (`Ok(false)`), and any other error stops the indexing.
pub fn listing_outcome(listing: &Result<Vec<DirectoryEntry>, FileSystemError>) -> (r: Result<bool, FileSystemError>)
    ensures
        r == match listing {
            Ok(_) => Ok::<bool, FileSystemError>(true),
            Err(FileSystemError::InodeIsADirectory(_)) => Ok(false),
            Err(e) => Err(*e),
        },
{
    match listing {
        Ok(_) => Ok(true),
        Err(FileSystemError::InodeIsADirectory(_)) => Ok(false),
        Err(e) => Err(*e),
    }
}

/// A path put into the index for a new inode is found again: the path
/// names the inode and the inode is reached by the path.
pub proof fn lemma_indexed_path_found(before: PathIndex, after: PathIndex, path: Seq<char>, inode: InodePointer)
    requires
        path.len() > 0,
        after.inodes() == before.inodes().insert(inode, path),
        after.paths() == before.paths().insert(path, inode),
    ensures
        after.paths().contains_key(path),
        after.paths()[path] == inode,
        after.inodes().contains_key(inode),
        after.inodes()[inode] == path,
{
}

/// After invalidating the paths under a prefix, no path under it is found,
/// and every other path names what it named before.
pub proof fn lemma_invalidated_paths_gone(before: PathIndex, after: PathIndex, prefix: Seq<char>)
    requires
        after.paths() == before.paths().restrict(not_under(prefix)),
    ensures
        forall|p: Seq<char>| prefix.is_prefix_of(p) ==> !#[trigger] after.paths().contains_key(p),
        forall|p: Seq<char>|
            !prefix.is_prefix_of(p) && #[trigger] before.paths().contains_key(p) ==> after.paths().contains_key(p)
                && after.paths()[p] == before.paths()[p],
{
}

} // verus!
