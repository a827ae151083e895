use vstd::prelude::*;

use crate::commit::{commit_field, get_commit_field_hash, person_text, CommitField};
use crate::directory::{components, lookup, valid_name, valid_name_exec, Directory, Path};
use crate::hash;
use crate::objects::{object_id, ObjectStore, ObjectType, ObjectView};
use crate::tree::{file_mode, parse_tree, read_tree, tree_bytes, EntryType, FileType, Mode, TreeEntry};
use crate::Error;
use vstd::string::StringSliceAdditionalSpecFns;

verus! {

/// A memoised directory, keyed by the identifier of its tree object.
struct CachedDir {
    id: hash::Hash,
    dir: Directory,
}

/// Memoised directories; at most one per identifier.
pub struct DirCache {
    items: Vec<CachedDir>,
}

impl DirCache {
    /// The identifiers that have a memoised directory.
    pub closed spec fn keys(&self) -> Set<Seq<u8>> {
        Set::new(|k: Seq<u8>| exists|i: int| 0 <= i < self.items@.len() && (#[trigger] self.items@[i]).id@ == k)
    }

    /// The entries of the directory memoised under `k`.
    pub closed spec fn dir_at(&self, k: Seq<u8>) -> Seq<TreeEntry> {
        self.items@[choose|i: int| 0 <= i < self.items@.len() && (#[trigger] self.items@[i]).id@ == k].dir@
    }

    proof fn lemma_dir_at(&self, i: int)
        requires
            self.wf(),
            0 <= i < self.items@.len(),
        ensures
            self.keys().contains(self.items@[i].id@),
            self.dir_at(self.items@[i].id@) == self.items@[i].dir@,
    {
        let k = self.items@[i].id@;
        let j = choose|j: int| 0 <= j < self.items@.len() && (#[trigger] self.items@[j]).id@ == k;
        assert(j == i);
    }

    /// Every memoised directory is well formed.
    pub closed spec fn wf(&self) -> bool {
        &&& forall|i: int| 0 <= i < self.items@.len() ==> (#[trigger] self.items@[i]).dir.wf()
        &&& forall|a: int, b: int|
            0 <= a < self.items@.len() && 0 <= b < self.items@.len() && a != b ==> (
            #[trigger] self.items@[a]).id@ != (#[trigger] self.items@[b]).id@
    }

    pub fn new() -> (r: DirCache)
        ensures
            r.wf(),
            r.keys() == Set::<Seq<u8>>::empty(),
    {
        let r = DirCache { items: Vec::new() };
        assert(r.keys() =~= Set::<Seq<u8>>::empty());
        r
    }

    fn position(&self, id: hash::Hash) -> (r: Option<usize>)
        ensures
            match r {
                Some(i) => i < self.items@.len() && self.items@[i as int].id@ == id@,
                None => !self.keys().contains(id@),
            },
    {
        let mut i: usize = 0;
        while i < self.items.len()
            invariant
                i <= self.items@.len(),
                forall|k: int| 0 <= k < i ==> (#[trigger] self.items@[k]).id@ != id@,
            decreases self.items@.len() - i,
        {
            if self.items[i].id == id {
                return Some(i);
            }
            i += 1;
        }
        None
    }

    /// Takes the directory memoised under `id` out of the cache.
    pub fn take(&mut self, id: hash::Hash) -> (r: Option<Directory>)
        requires
            old(self).wf(),
        ensures
            final(self).wf(),
            r.is_some() == old(self).keys().contains(id@),
            r.is_some() ==> r.unwrap().wf() && r.unwrap()@ == old(self).dir_at(id@),
            final(self).keys() == old(self).keys().remove(id@),
            forall|k: Seq<u8>| final(self).keys().contains(k) ==> #[trigger] final(self).dir_at(k) == old(self).dir_at(k),
    {
        match self.position(id) {
            None => {
                assert(self.keys() =~= self.keys().remove(id@));
                None
            },
            Some(i) => {
                let ghost old_items = self.items@;
                let c = self.items.swap_remove(i);
                proof {
                    assert forall|k: int| 0 <= k < self.items@.len() implies #[trigger] self.items@[k]
                        == old_items[if k == i { old_items.len() - 1 } else { k }] by {}
                    assert forall|k: Seq<u8>| self.keys().contains(k) <==> (#[trigger] old(self).keys().remove(id@).contains(k)) by {
                        if self.keys().contains(k) {
                            let m = choose|m: int| 0 <= m < self.items@.len() && (#[trigger] self.items@[m]).id@ == k;
                            let m2 = if m == i { old_items.len() - 1 } else { m };
                            assert(old_items[m2].id@ == k);
                            assert(m2 != i);
                        }
                        if old(self).keys().remove(id@).contains(k) {
                            let m = choose|m: int| 0 <= m < old_items.len() && (#[trigger] old_items[m]).id@ == k;
                            assert(m != i);
                            let m2 = if m == old_items.len() - 1 { i as int } else { m };
                            assert(self.items@[m2].id@ == k);
                        }
                    }
                    assert(self.keys() =~= old(self).keys().remove(id@));
                    assert forall|a: int, b: int|
                        0 <= a < self.items@.len() && 0 <= b < self.items@.len() && a != b implies (
                        #[trigger] self.items@[a]).id@ != (#[trigger] self.items@[b]).id@ by {
                        let a2 = if a == i { old_items.len() - 1 } else { a };
                        let b2 = if b == i { old_items.len() - 1 } else { b };
                        assert(old_items[a2].id@ != old_items[b2].id@);
                    }
                    old(self).lemma_dir_at(i as int);
                    assert forall|k: Seq<u8>| self.keys().contains(k) implies #[trigger] self.dir_at(k) == old(self).dir_at(k) by {
                        let m = choose|m: int| 0 <= m < self.items@.len() && (#[trigger] self.items@[m]).id@ == k;
                        self.lemma_dir_at(m);
                        let m2 = if m == i { old_items.len() - 1 } else { m };
                        assert(old_items[m2] == self.items@[m]);
                        old(self).lemma_dir_at(m2);
                    }
                }
                Some(c.dir)
            },
        }
    }

    /// Memoises `dir` under `id`, replacing what was there.
    pub fn insert(&mut self, id: hash::Hash, dir: Directory)
        requires
            old(self).wf(),
            dir.wf(),
        ensures
            final(self).wf(),
            final(self).keys() == old(self).keys().insert(id@),
            final(self).dir_at(id@) == dir@,
            forall|k: Seq<u8>| k != id@ && old(self).keys().contains(k) ==> #[trigger] final(self).dir_at(k) == old(self).dir_at(k),
    {
        let ghost d = dir@;
        let _ = self.take(id);
        let ghost mid_cache = *self;
        let ghost mid = self.keys();
        let ghost old_items = self.items@;
        self.items.push(CachedDir { id, dir });
        proof {
            assert forall|k: Seq<u8>| self.keys().contains(k) <==> mid.insert(id@).contains(k) by {
                if mid.contains(k) {
                    let m = choose|m: int| 0 <= m < old_items.len() && (#[trigger] old_items[m]).id@ == k;
                    assert(self.items@[m].id@ == k);
                }
                if k == id@ {
                    assert(self.items@[old_items.len() as int].id@ == k);
                }
                if self.keys().contains(k) && k != id@ {
                    let m = choose|m: int| 0 <= m < self.items@.len() && (#[trigger] self.items@[m]).id@ == k;
                    assert(old_items[m].id@ == k);
                }
            }
            assert(self.keys() =~= mid.insert(id@));
            assert forall|a: int, b: int|
                0 <= a < self.items@.len() && 0 <= b < self.items@.len() && a != b implies (
                #[trigger] self.items@[a]).id@ != (#[trigger] self.items@[b]).id@ by {
                if a == old_items.len() {
                    assert(!mid.contains(id@));
                    assert(old_items[b].id@ != id@);
                } else if b == old_items.len() {
                    assert(!mid.contains(id@));
                    assert(old_items[a].id@ != id@);
                }
            }
            self.lemma_dir_at(old_items.len() as int);
            assert forall|k: Seq<u8>| k != id@ && old(self).keys().contains(k) implies #[trigger] self.dir_at(k) == old(self).dir_at(k) by {
                assert(mid_cache.keys().contains(k));
                let m = choose|m: int| 0 <= m < old_items.len() && (#[trigger] old_items[m]).id@ == k;
                mid_cache.lemma_dir_at(m);
                assert(self.items@[m] == old_items[m]);
                self.lemma_dir_at(m);
            }
        }
    }

    /// The directory memoised under `id`.
    pub fn get(&self, id: hash::Hash) -> (r: Option<&Directory>)
        requires
            self.wf(),
        ensures
            r.is_some() == self.keys().contains(id@),
            r.is_some() ==> r.unwrap().wf() && r.unwrap()@ == self.dir_at(id@),
    {
        match self.position(id) {
            Some(i) => {
                proof {
                    self.lemma_dir_at(i as int);
                }
                Some(&self.items[i].dir)
            },
            None => None,
        }
    }

    /// Forgets every memoised directory.
    pub fn clear(&mut self)
        ensures
            final(self).wf(),
            final(self).keys() == Set::<Seq<u8>>::empty(),
    {
        self.items = Vec::new();
        assert(self.keys() =~= Set::<Seq<u8>>::empty());
    }
}

/// The tree that a stored commit names: `Ok(None)` when no commit is stored under `c`,
/// an error when the commit's `tree` header is missing or malformed.
pub open spec fn commit_root(objs: Map<Seq<u8>, ObjectView>, c: Seq<u8>) -> Result<
    Option<Seq<u8>>,
    Error,
> {
    if objs.contains_key(c) && objs[c].obj_type == ObjectType::Commit {
        match commit_field(objs[c].content, CommitField::Tree) {
            Err(e) => Err(e),
            Ok(None) => Err(Error::InvalidObject),
            Ok(Some(x)) => if hash::is_hex_id(x) {
                Ok(Some(hash::parse_hex_id(x)))
            } else {
                Err(Error::InvalidObject)
            },
        }
    } else {
        Ok(None)
    }
}

/// The tree of a stored commit, when it can be read.
pub open spec fn tree_of(objs: Map<Seq<u8>, ObjectView>, c: Seq<u8>) -> Option<Seq<u8>> {
    match commit_root(objs, c) {
        Ok(Some(t)) => Some(t),
        _ => None,
    }
}

/// Local repository residing in memory.
pub struct Repository {
    directories: DirCache,
    objects: ObjectStore,
    staged: ObjectStore,
    upstream_head: hash::Hash,
    head: hash::Hash,
    root: Option<hash::Hash>,
}

impl Repository {
    pub closed spec fn wf(&self) -> bool {
        &&& self.directories.wf()
        &&& self.objects.wf()
        &&& self.staged.wf()
    }

    /// The main object store.
    pub closed spec fn objects(&self) -> Map<Seq<u8>, ObjectView> {
        self.objects@
    }

    /// The scratch store of staged, unpublished objects.
    pub closed spec fn scratch(&self) -> Map<Seq<u8>, ObjectView> {
        self.staged@
    }

    /// The identifiers with a memoised directory.
    pub closed spec fn cached(&self) -> Set<Seq<u8>> {
        self.directories.keys()
    }

    /// The entries of the directory memoised under `k`.
    pub closed spec fn cached_dir(&self, k: Seq<u8>) -> Seq<TreeEntry> {
        self.directories.dir_at(k)
    }

    /// The working tree's top directory is known: the tree is empty or its directory is
    /// memoised.
    pub open spec fn root_known(&self) -> bool {
        self.root().is_none() || self.cached().contains(self.root().unwrap())
    }

    /// The entries of the working tree's top directory, when it is known.
    pub open spec fn root_entries(&self) -> Seq<TreeEntry> {
        match self.root() {
            None => Seq::empty(),
            Some(h) => self.cached_dir(h),
        }
    }

    pub closed spec fn head(&self) -> Seq<u8> {
        self.head@
    }

    pub closed spec fn upstream_head(&self) -> Seq<u8> {
        self.upstream_head@
    }

    pub closed spec fn root(&self) -> Option<Seq<u8>> {
        match self.root {
            Some(h) => Some(h@),
            None => None,
        }
    }

    /// Every tree object in either store parses, with valid names.
    pub open spec fn readable(&self) -> bool {
        trees_readable(self.scratch()) && trees_readable(self.objects())
    }

    /// The head is the remote's tip and the working tree is the head's tree, or empty.
    pub open spec fn clean(&self) -> bool {
        &&& self.head() == self.upstream_head()
        &&& (self.root().is_none() || self.root() == tree_of(self.objects(), self.head()))
    }

    /// An empty repository.
    pub fn new() -> (r: Repository)
        ensures
            r.wf(),
            r.objects() == Map::<Seq<u8>, ObjectView>::empty(),
            r.scratch() == Map::<Seq<u8>, ObjectView>::empty(),
            r.head() == hash::zero_id(),
            r.upstream_head() == hash::zero_id(),
            r.root().is_none(),
    {
        Repository {
            directories: DirCache::new(),
            objects: ObjectStore::new(),
            staged: ObjectStore::new(),
            upstream_head: hash::Hash::zero(),
            head: hash::Hash::zero(),
            root: None,
        }
    }

    /// The identifier of the current tip.
    pub fn head_hash(&self) -> (r: hash::Hash)
        ensures
            r@ == self.head(),
    {
        self.head
    }

    /// The identifier of the remote's tip at the last sync.
    pub fn upstream_hash(&self) -> (r: hash::Hash)
        ensures
            r@ == self.upstream_head(),
    {
        self.upstream_head
    }

    /// The identifier of the working tree; `None` when it is empty.
    pub fn root_hash(&self) -> (r: Option<hash::Hash>)
        ensures
            r.is_some() == self.root().is_some(),
            r.is_some() ==> r.unwrap()@ == self.root().unwrap(),
    {
        self.root
    }

    /// The main object store.
    pub fn object_store(&self) -> (r: &ObjectStore)
        ensures
            r@ == self.objects(),
            self.wf() ==> r.wf(),
    {
        &self.objects
    }

    /// The scratch store.
    pub fn scratch_store(&self) -> (r: &ObjectStore)
        ensures
            r@ == self.scratch(),
            self.wf() ==> r.wf(),
    {
        &self.staged
    }

    /// The content of an object of the expected type, from the scratch store or else
    /// the main store.
    pub fn any_store_get(&self, hash: hash::Hash, obj_type: ObjectType) -> (r: Option<&[u8]>)
        requires
            self.wf(),
        ensures
            (self.scratch().contains_key(hash@) && self.scratch()[hash@].obj_type == obj_type)
                ==> r.is_some() && r.unwrap()@ == self.scratch()[hash@].content,
            !(self.scratch().contains_key(hash@) && self.scratch()[hash@].obj_type == obj_type)
                ==> (r.is_some() == (self.objects().contains_key(hash@)
                && self.objects()[hash@].obj_type == obj_type)) && (r.is_some() ==> r.unwrap()@
                == self.objects()[hash@].content),
    {
        match self.staged.get_as(hash, obj_type) {
            Some(entries) => Some(entries),
            None => self.objects.get_as(hash, obj_type),
        }
    }

    /// The directory of a stored tree; `Ok(None)` when no tree is stored under `hash`.
    pub fn try_find_dir(&self, hash: hash::Hash) -> (r: Result<Option<Directory>, Error>)
        requires
            self.wf(),
        ensures
            r matches Ok(Some(d)) ==> d.wf(),
            self.readable() ==> r.is_ok(),
    {
        match self.any_store_get(hash, ObjectType::Tree) {
            Some(entries) => match Directory::from_tree(entries) {
                Ok(d) => Ok(Some(d)),
                Err(e) => Err(e),
            },
            None => Ok(None),
        }
    }

    /// The directory of a stored tree, or an empty one when no tree is stored under `hash`.
    pub fn find_dir(&self, hash: hash::Hash) -> (r: Result<Directory, Error>)
        requires
            self.wf(),
        ensures
            self.readable() ==> r.is_ok(),
            r.is_ok() ==> r.unwrap().wf(),
    {
        match self.try_find_dir(hash) {
            Ok(Some(d)) => Ok(d),
            Ok(None) => Ok(Directory::new()),
            Err(e) => Err(e),
        }
    }

    /// Takes a directory out of the cache, or reads it from the stores.
    pub fn remove_dir(&mut self, dir_hash: hash::Hash) -> (r: Result<Directory, Error>)
        requires
            old(self).wf(),
        ensures
            final(self).wf(),
            final(self).objects() == old(self).objects(),
            final(self).scratch() == old(self).scratch(),
            final(self).head() == old(self).head(),
            final(self).upstream_head() == old(self).upstream_head(),
            final(self).root() == old(self).root(),
            final(self).cached() == old(self).cached().remove(dir_hash@),
            old(self).readable() ==> r.is_ok(),
            r.is_ok() ==> r.unwrap().wf(),
            old(self).cached().contains(dir_hash@) ==> r.is_ok() && r.unwrap()@ == old(
                self,
            ).cached_dir(dir_hash@),
    {
        match self.directories.take(dir_hash) {
            Some(dir) => Ok(dir),
            None => self.find_dir(dir_hash),
        }
    }

    /// The tree named by a stored commit.
    pub fn get_commit_root(&self, commit_hash: hash::Hash) -> (r: Result<Option<hash::Hash>, Error>)
        requires
            self.wf(),
        ensures
            match commit_root(self.objects(), commit_hash@) {
                Err(e) => r == Err::<Option<hash::Hash>, Error>(e),
                Ok(None) => r == Ok::<Option<hash::Hash>, Error>(None),
                Ok(Some(t)) => r.is_ok() && r.unwrap().is_some() && r.unwrap().unwrap()@ == t,
            },
    {
        match self.objects.get_as(commit_hash, ObjectType::Commit) {
            Some(commit) => match get_commit_field_hash(commit, CommitField::Tree) {
                Ok(Some(hash)) => Ok(Some(hash)),
                Ok(None) => Err(Error::InvalidObject),
                Err(e) => Err(e),
            },
            None => Ok(None),
        }
    }

    /// Follows delta hints through the scratch store to an identifier outside it; gives
    /// up, with `None`, on a missing hint or after as many steps as there are staged
    /// objects.
    pub fn find_committed_hash_root(&self, hash: hash::Hash) -> (r: Option<hash::Hash>)
        requires
            self.wf(),
        ensures
            r.is_some() ==> !self.scratch().contains_key(r.unwrap()@),
    {
        let mut h = hash;
        let mut fuel = self.staged.count();
        loop
            invariant
                self.wf(),
            decreases fuel,
        {
            match self.staged.get(h) {
                None => return Some(h),
                Some(entry) => {
                    if fuel == 0 {
                        return None;
                    }
                    match entry.delta_hint() {
                        Some(next) => {
                            h = next;
                        },
                        None => return None,
                    }
                    fuel = fuel - 1;
                },
            }
        }
    }

    /// Applies a file change below `directory`: `steps[idx..]` are the directories still
    /// to walk and `file_name` the file at the bottom. Each changed directory is written
    /// to the scratch store and memoised. Gives the changed directory, or `None` when it
    /// became empty.
    pub fn update_dir(
        &mut self,
        directory: Directory,
        steps: &Vec<Vec<u8>>,
        idx: usize,
        file_name: &Vec<u8>,
        data: Option<(Vec<u8>, FileType)>,
    ) -> (r: Result<Option<Directory>, Error>)
        requires
            old(self).wf(),
            directory.wf(),
            idx <= steps@.len(),
            forall|k: int| 0 <= k < steps@.len() ==> valid_name((#[trigger] steps@[k])@),
            valid_name(file_name@),
        ensures
            final(self).wf(),
            final(self).objects() == old(self).objects(),
            final(self).head() == old(self).head(),
            final(self).upstream_head() == old(self).upstream_head(),
            final(self).root() == old(self).root(),
            fresh_not_in(old(self).scratch(), final(self).scratch(), old(self).objects()),
            old(self).readable() ==> final(self).readable() && r.is_ok(),
            r matches Ok(Some(d)) ==> d.wf() && d@.len() > 0,
            data.is_some() && r.is_ok() ==> r.unwrap().is_some(),
            r matches Ok(Some(d)) ==> path_placed(d@, rest_comps(steps@, idx as int, file_name@), data_view(data)),
            r matches Ok(Some(d)) ==> forall|n: Seq<u8>|
                n != step_node(steps@, idx, file_name@) ==> #[trigger] lookup(d@, n) == lookup(
                    directory@,
                    n,
                ),
            r matches Ok(None) ==> forall|n: Seq<u8>|
                n != step_node(steps@, idx, file_name@) ==> #[trigger] lookup(directory@, n).is_none(),
            idx == steps@.len() && data.is_some() ==> r.is_ok() && r.unwrap().is_some() && lookup(
                r.unwrap().unwrap()@,
                file_name@,
            ) == Some(
                TreeEntry {
                    name: file_name@,
                    hash: object_id(ObjectType::Blob, data.unwrap().0@),
                    mode: file_mode(data.unwrap().1),
                },
            ),
            idx == steps@.len() && data.is_none() ==> r.is_ok() && (r.unwrap() matches Some(d)
                ==> lookup(d@, file_name@).is_none()),
            idx < steps@.len() ==> (r matches Ok(Some(d)) ==> (lookup(d@, steps@[idx as int]@) matches Some(
                e,
            ) ==> e.mode == Mode::Directory)),
        decreases steps@.len() - idx,
    {
        let ghost orig = directory@;
        let ghost dv = data_view(data);
        let ghost mut witness: Seq<TreeEntry> = Seq::empty();
        let ghost comps = rest_comps(steps@, idx as int, file_name@);
        proof {
            assert(comps[0] == step_node(steps@, idx, file_name@));
            if idx < steps@.len() {
                assert(comps.drop_first() =~= rest_comps(steps@, idx + 1, file_name@));
            } else {
                assert(comps.len() == 1);
            }
        }
        let node: &Vec<u8> = if idx < steps.len() {
            &steps[idx]
        } else {
            file_name
        };
        let prev = directory.get(node.as_slice());
        let delta_hint = match prev {
            Some((h, _)) => self.find_committed_hash_root(h),
            None => None,
        };
        let mut result: Option<(hash::Hash, Mode)> = None;
        if idx < steps.len() {
            let subdir = match prev {
                Some((h, _)) => match self.remove_dir(h) {
                    Ok(d) => d,
                    Err(e) => return Err(e),
                },
                None => Directory::new(),
            };
            match self.update_dir(subdir, steps, idx + 1, file_name, data) {
                Err(e) => return Err(e),
                Ok(Some(sub)) => {
                    proof {
                        witness = sub@;
                    }
                    let ghost sc = self.scratch();
                    let h = self.staged.serialize_directory(&sub, delta_hint);
                    proof {
                        if trees_readable(sc) {
                            lemma_store_dir_readable(sc, h@, sub@, crate::objects::hint_view(delta_hint));
                        }
                    }
                    assert(h@ == object_id(ObjectType::Tree, tree_bytes(witness)));
                    assert(crate::directory::well_ordered(witness) && witness.len() > 0);
                    self.directories.insert(h, sub);
                    result = Some((h, Mode::Directory));
                },
                Ok(None) => {},
            }
        } else {
            match data {
                Some((bytes, ft)) => {
                    let ghost sc = self.scratch();
                    let h = self.staged.insert(ObjectType::Blob, bytes, delta_hint);
                    proof {
                        assert forall|k: Seq<u8>|
                            #[trigger] self.scratch().contains_key(k) && self.scratch()[k].obj_type == ObjectType::Tree
                                && trees_readable(sc) implies crate::directory::readable_tree(self.scratch()[k].content) by {
                            assert(k != h@);
                            assert(sc.contains_key(k));
                        }
                    }
                    result = Some((h, Mode::from(ft)));
                },
                None => {},
            }
        }
        let mut directory = directory;
        match result {
            Some((h, mode)) => {
                if self.objects.has(h) {
                    let ghost sc = self.scratch();
                    let _ = self.staged.remove(h);
                    proof {
                        assert forall|k: Seq<u8>|
                            #[trigger] self.scratch().contains_key(k) && self.scratch()[k].obj_type == ObjectType::Tree
                                && trees_readable(sc) implies crate::directory::readable_tree(self.scratch()[k].content) by {
                            assert(sc.contains_key(k));
                        }
                    }
                }
                directory.insert(node.clone(), h, mode);
                proof {
                    crate::directory::lemma_lookup_len(directory@, node@);
                    if idx < steps@.len() {
                        assert(mode == Mode::Directory);
                        assert(comps.len() > 1);
                        assert(comps[0] == node@);
                        let e = TreeEntry { name: node@, hash: h@, mode: Mode::Directory };
                        assert(lookup(directory@, comps[0]) == Some(e));
                        assert(path_placed(witness, comps.drop_first(), dv));
                        assert(h@ == object_id(ObjectType::Tree, tree_bytes(witness)));
                        assert(crate::directory::well_ordered(witness) && witness.len() > 0);
                        assert(exists|s: Seq<TreeEntry>|
                            crate::directory::well_ordered(s) && s.len() > 0 && e.hash == object_id(
                                ObjectType::Tree,
                                tree_bytes(s),
                            ) && #[trigger] path_placed(s, comps.drop_first(), dv));
                        assert(e.mode == Mode::Directory);
                        assert(!(comps.len() <= 1));
                        lemma_path_placed_dir(directory@, comps, dv, e, witness);
                        assert(path_placed(directory@, comps, dv));
                    } else {
                        assert(comps.len() == 1);
                        assert(placed_chain(directory@, comps, dv, Seq::empty()));
                    }
                }
                Ok(Some(directory))
            },
            None => {
                directory.remove(node.as_slice());
                if directory.is_empty() {
                    proof {
                        assert forall|n: Seq<u8>| n != node@ implies #[trigger] lookup(orig, n).is_none() by {
                            assert(lookup(directory@, n) == lookup(orig, n));
                        }
                    }
                    Ok(None)
                } else {
                    proof {
                        assert(comps[0] == node@);
                        if comps.len() > 1 {
                            assert(dv.is_none());
                        }
                        assert(placed_chain(directory@, comps, dv, Seq::empty()));
                    }
                    Ok(Some(directory))
                }
            },
        }
    }

    /// Places a file in the working tree, or deletes it when `data` is `None`; it stays
    /// staged until the next [`Self::commit`]. Missing directories are created, and
    /// directories left empty are deleted. `PathError` when the path names nothing.
    pub fn stage(&mut self, path: &str, data: Option<(Vec<u8>, FileType)>) -> (r: Result<(), Error>)
        requires
            old(self).wf(),
        ensures
            final(self).wf(),
            final(self).objects() == old(self).objects(),
            final(self).head() == old(self).head(),
            final(self).upstream_head() == old(self).upstream_head(),
            fresh_not_in(old(self).scratch(), final(self).scratch(), old(self).objects()),
            old(self).readable() ==> final(self).readable(),
            old(self).readable() && valid_path(components(path.spec_bytes())) ==> r.is_ok(),
            r.is_ok() && final(self).root().is_some() ==> path_placed(
                final(self).root_entries(),
                components(path.spec_bytes()),
                data_view(data),
            ),
            r.is_ok() && final(self).root().is_none() ==> data.is_none(),
            components(path.spec_bytes()).len() == 0 ==> r == Err::<(), Error>(Error::PathError)
                && *final(self) == *old(self),
            r.is_ok() && final(self).root().is_some() ==> final(self).cached().contains(
                final(self).root().unwrap(),
            ),
            r.is_ok() && data.is_some() ==> final(self).root().is_some(),
            r.is_ok() && final(self).root().is_some() ==> crate::directory::well_ordered(
                final(self).root_entries(),
            ) && final(self).root_entries().len() > 0,
            r.is_ok() && old(self).root_known() ==> forall|n: Seq<u8>|
                n != components(path.spec_bytes())[0] ==> #[trigger] lookup(
                    final(self).root_entries(),
                    n,
                ) == lookup(old(self).root_entries(), n),
            r.is_ok() && components(path.spec_bytes()).len() == 1 && data.is_some() ==> lookup(
                final(self).root_entries(),
                components(path.spec_bytes())[0],
            ) == Some(
                TreeEntry {
                    name: components(path.spec_bytes())[0],
                    hash: object_id(ObjectType::Blob, data.unwrap().0@),
                    mode: file_mode(data.unwrap().1),
                },
            ),
            r.is_ok() && components(path.spec_bytes()).len() == 1 && data.is_none() ==> lookup(
                final(self).root_entries(),
                components(path.spec_bytes())[0],
            ).is_none(),
            r.is_ok() && final(self).root().is_some() ==> final(self).root().unwrap() == object_id(
                ObjectType::Tree,
                tree_bytes(final(self).root_entries()),
            ),
            r.is_ok() && components(path.spec_bytes()).len() > 1 ==> (lookup(
                final(self).root_entries(),
                components(path.spec_bytes())[0],
            ) matches Some(e) ==> e.mode == Mode::Directory),
    {
        let p = Path::new(path);
        let file_name = match p.file() {
            Ok(f) => f,
            Err(e) => return Err(e),
        };
        let subdirs = match p.dirs() {
            Ok(d) => d,
            Err(e) => return Err(e),
        };
        if !valid_name_exec(file_name.as_slice()) {
            return Err(Error::PathError);
        }
        proof {
            let comps0 = components(path.spec_bytes());
            assert(comps0.len() > 0);
            assert(subdirs@.map_values(|v: Vec<u8>| v@) == comps0.drop_last());
            assert(comps0.drop_last().len() == subdirs@.len());
            assert forall|m: int| 0 <= m < subdirs@.len() implies (#[trigger] subdirs@[m])@ == comps0[m] by {
                assert(subdirs@.map_values(|v: Vec<u8>| v@)[m] == subdirs@[m]@);
                assert(comps0.drop_last()[m] == comps0[m]);
            }
        }
        let mut k: usize = 0;
        while k < subdirs.len()
            invariant
                *self == *old(self),
                self.wf(),
                k <= subdirs@.len(),
                subdirs@.len() < components(path.spec_bytes()).len(),
                forall|m: int| 0 <= m < subdirs@.len() ==> (#[trigger] subdirs@[m])@ == components(path.spec_bytes())[m],
                forall|m: int| 0 <= m < k ==> valid_name((#[trigger] subdirs@[m])@),
            decreases subdirs@.len() - k,
        {
            if !valid_name_exec(subdirs[k].as_slice()) {
                return Err(Error::PathError);
            }
            k += 1;
        }
        let ghost comps = components(path.spec_bytes());
        proof {
            assert(comps.len() > 0);
            assert(file_name@ == comps.last());
            assert(subdirs@.map_values(|v: Vec<u8>| v@) == comps.drop_last());
            assert(comps.drop_last().len() == subdirs@.len());
            assert(comps.len() == 1 ==> subdirs@.len() == 0 && file_name@ == comps[0]);
            if subdirs@.len() > 0 {
                assert(subdirs@.map_values(|v: Vec<u8>| v@)[0] == subdirs@[0]@);
                assert(comps.drop_last()[0] == comps[0]);
            } else {
                assert(subdirs@.map_values(|v: Vec<u8>| v@).len() == 0);
                assert(comps.len() == 1);
            }
            assert(step_node(subdirs@, 0, file_name@) == comps[0]);
        }
        let root_dir = match self.root {
            Some(hash) => match self.remove_dir(hash) {
                Ok(d) => d,
                Err(e) => return Err(e),
            },
            None => Directory::new(),
        };
        let ghost start_entries = root_dir@;
        let ghost dv = data_view(data);
        proof {
            assert(rest_comps(subdirs@, 0, file_name@) =~= comps);
        }
        assert(old(self).root_known() ==> start_entries == old(self).root_entries());
        match self.update_dir(root_dir, &subdirs, 0, &file_name, data) {
            Err(e) => Err(e),
            Ok(Some(root_dir)) => {
                let ghost new_entries = root_dir@;
                let prev_hash = match self.root {
                    Some(h) => self.find_committed_hash_root(h),
                    None => None,
                };
                let ghost sc = self.scratch();
                let hash = self.staged.serialize_directory(&root_dir, prev_hash);
                proof {
                    if trees_readable(sc) {
                        lemma_store_dir_readable(sc, hash@, root_dir@, crate::objects::hint_view(prev_hash));
                    }
                }
                if self.objects.has(hash) {
                    let ghost sc2 = self.scratch();
                    let _ = self.staged.remove(hash);
                    proof {
                        assert forall|k: Seq<u8>|
                            #[trigger] self.scratch().contains_key(k) && self.scratch()[k].obj_type == ObjectType::Tree
                                && trees_readable(sc2) implies crate::directory::readable_tree(self.scratch()[k].content) by {
                            assert(sc2.contains_key(k));
                        }
                    }
                }
                self.directories.insert(hash, root_dir);
                self.root = Some(hash);
                assert(self.root_entries() == new_entries);
                Ok(())
            },
            Ok(None) => {
                self.root = None;
                assert(self.root_entries() =~= Seq::<TreeEntry>::empty());
                Ok(())
            },
        }
    }

    /// Memoises the directory of the tree stored under `hash`, if it is not yet; gives
    /// whether one is memoised now.
    pub fn load_dir(&mut self, hash: hash::Hash) -> (r: Result<bool, Error>)
        requires
            old(self).wf(),
        ensures
            final(self).wf(),
            final(self).objects() == old(self).objects(),
            final(self).scratch() == old(self).scratch(),
            final(self).head() == old(self).head(),
            final(self).upstream_head() == old(self).upstream_head(),
            final(self).root() == old(self).root(),
            r matches Ok(b) ==> b == final(self).cached().contains(hash@),
            old(self).cached().contains(hash@) ==> r == Ok::<bool, Error>(true) && *final(self) == *old(self),
    {
        if self.directories.get(hash).is_some() {
            return Ok(true);
        }
        match self.try_find_dir(hash) {
            Err(e) => Err(e),
            Ok(None) => Ok(false),
            Ok(Some(dir)) => {
                self.directories.insert(hash, dir);
                Ok(true)
            },
        }
    }

    /// The entry `node` of the directory `dir`, if its mode passes `filter`; `PathError`
    /// when there is no such entry or its mode does not pass, `MissingObject` when the
    /// directory is not stored.
    pub fn find_in_dir(&mut self, dir: hash::Hash, node: &[u8], filter: EntryType) -> (r: Result<
        (hash::Hash, Mode),
        Error,
    >)
        requires
            old(self).wf(),
        ensures
            final(self).wf(),
            final(self).objects() == old(self).objects(),
            final(self).scratch() == old(self).scratch(),
            final(self).head() == old(self).head(),
            final(self).upstream_head() == old(self).upstream_head(),
            final(self).root() == old(self).root(),
            r matches Ok((_, m)) ==> crate::tree::mode_matches(m, filter),
            old(self).cached().contains(dir@) ==> *final(self) == *old(self) && match lookup(
                old(self).cached_dir(dir@),
                node@,
            ) {
                None => r == Err::<(hash::Hash, Mode), Error>(Error::PathError),
                Some(e) => if crate::tree::mode_matches(e.mode, filter) {
                    r.is_ok() && r.unwrap().0@ == e.hash && r.unwrap().1 == e.mode
                } else {
                    r == Err::<(hash::Hash, Mode), Error>(Error::PathError)
                },
            },
    {
        match self.load_dir(dir) {
            Err(e) => return Err(e),
            Ok(false) => return Err(Error::MissingObject),
            Ok(true) => {},
        }
        match self.directories.get(dir) {
            None => Err(Error::MissingObject),
            Some(directory) => match directory.get(node) {
                Some((hash, mode)) => {
                    if mode.matches(filter) {
                        Ok((hash, mode))
                    } else {
                        Err(Error::PathError)
                    }
                },
                None => Err(Error::PathError),
            },
        }
    }

    /// The (mode, name) of each entry of a directory whose mode passes `entry_type`.
    /// `PathError` when the path leads nowhere.
    pub fn read_dir(&mut self, path: &str, entry_type: EntryType) -> (r: Result<
        Vec<(Mode, Vec<u8>)>,
        Error,
    >)
        requires
            old(self).wf(),
        ensures
            final(self).wf(),
            final(self).objects() == old(self).objects(),
            final(self).scratch() == old(self).scratch(),
            final(self).root() == old(self).root(),
            old(self).root().is_none() ==> r == Err::<Vec<(Mode, Vec<u8>)>, Error>(Error::PathError),
            r.is_ok() ==> forall|i: int|
                0 <= i < r.unwrap()@.len() ==> crate::tree::mode_matches(
                    (#[trigger] r.unwrap()@[i]).0,
                    entry_type,
                ),
    {
        let p = Path::new(path);
        let mut current = match self.root {
            Some(h) => h,
            None => return Err(Error::PathError),
        };
        let parts = p.all();
        let mut i: usize = 0;
        while i < parts.len()
            invariant
                self.wf(),
                self.objects() == old(self).objects(),
                self.scratch() == old(self).scratch(),
                self.root() == old(self).root(),
                old(self).root().is_some(),
                i <= parts@.len(),
            decreases parts@.len() - i,
        {
            current = match self.find_in_dir(current, parts[i].as_slice(), EntryType::Directory) {
                Ok((h, _)) => h,
                Err(e) => return Err(e),
            };
            i += 1;
        }
        match self.load_dir(current) {
            Err(e) => return Err(e),
            Ok(false) => return Err(Error::MissingObject),
            Ok(true) => {},
        }
        let directory = match self.directories.get(current) {
            Some(d) => d,
            None => return Err(Error::MissingObject),
        };
        let mut out: Vec<(Mode, Vec<u8>)> = Vec::new();
        let mut k: usize = 0;
        while k < directory.len()
            invariant
                directory.wf(),
                k <= directory@.len(),
                forall|m: int| 0 <= m < out@.len() ==> crate::tree::mode_matches(
                    (#[trigger] out@[m]).0,
                    entry_type,
                ),
            decreases directory@.len() - k,
        {
            let (name, _h, mode) = directory.entry(k);
            if mode.matches(entry_type) {
                out.push((mode, name.clone()));
            }
            k += 1;
        }
        Ok(out)
    }

    /// The content of a file of the working tree. `PathError` when the path leads
    /// nowhere, `MissingObject` when the file's blob is not stored.
    pub fn read_file(&mut self, path: &str) -> (r: Result<Vec<u8>, Error>)
        requires
            old(self).wf(),
        ensures
            r.is_ok() ==> blob_in_stores(old(self).scratch(), old(self).objects(), r.unwrap()@),
            old(self).root_known() && old(self).root().is_some() && components(path.spec_bytes()).len() == 1
                ==> match lookup(old(self).root_entries(), components(path.spec_bytes())[0]) {
                None => r == Err::<Vec<u8>, Error>(Error::PathError),
                Some(e) => if e.mode == Mode::Directory {
                    r == Err::<Vec<u8>, Error>(Error::PathError)
                } else {
                    match blob_at(old(self).scratch(), old(self).objects(), e.hash) {
                        None => r == Err::<Vec<u8>, Error>(Error::MissingObject),
                        Some(c) => r.is_ok() && r.unwrap()@ == c,
                    }
                },
            },
            final(self).wf(),
            final(self).objects() == old(self).objects(),
            final(self).scratch() == old(self).scratch(),
            final(self).root() == old(self).root(),
            old(self).root().is_none() || components(path.spec_bytes()).len() == 0 ==> r == Err::<
                Vec<u8>,
                Error,
            >(Error::PathError),
    {
        let p = Path::new(path);
        let mut current = match self.root {
            Some(h) => h,
            None => return Err(Error::PathError),
        };
        let dirs = match p.dirs() {
            Ok(d) => d,
            Err(e) => return Err(e),
        };
        let file = match p.file() {
            Ok(f) => f,
            Err(e) => return Err(e),
        };
        proof {
            let comps = components(path.spec_bytes());
            assert(dirs@.map_values(|v: Vec<u8>| v@) == comps.drop_last());
            assert(comps.drop_last().len() == dirs@.len());
            assert(file@ == comps.last());
        }
        let mut i: usize = 0;
        while i < dirs.len()
            invariant
                self.wf(),
                self.objects() == old(self).objects(),
                self.scratch() == old(self).scratch(),
                self.root() == old(self).root(),
                old(self).root().is_some(),
                components(path.spec_bytes()).len() > 0,
                components(path.spec_bytes()).len() == 1 ==> dirs@.len() == 0 && *self == *old(self)
                    && Some(current@) == old(self).root() && file@ == components(path.spec_bytes())[0],
                i <= dirs@.len(),
            decreases dirs@.len() - i,
        {
            current = match self.find_in_dir(current, dirs[i].as_slice(), EntryType::Directory) {
                Ok((h, _)) => h,
                Err(e) => return Err(e),
            };
            i += 1;
        }
        let (hash, _mode) = match self.find_in_dir(current, file.as_slice(), EntryType::File) {
            Ok(x) => x,
            Err(e) => return Err(e),
        };
        match self.any_store_get(hash, ObjectType::Blob) {
            Some(content) => {
                let bytes = crate::tree::copy_range(content, 0, content.len());
                assert(bytes@ =~= content@);
                assert(blob_in_stores(old(self).scratch(), old(self).objects(), bytes@)) by {
                    assert(stored_blob(old(self).scratch(), hash@, bytes@) || stored_blob(
                        old(self).objects(),
                        hash@,
                        bytes@,
                    ));
                }
                Ok(bytes)
            },
            None => Err(Error::MissingObject),
        }
    }

    /// The content of a text file of the working tree; `InvalidObject` when it is not
    /// UTF-8.
    pub fn read_text(&mut self, path: &str) -> (r: Result<String, Error>)
        requires
            old(self).wf(),
        ensures
            final(self).wf(),
            final(self).objects() == old(self).objects(),
            final(self).root() == old(self).root(),
    {
        match self.read_file(path) {
            Ok(bytes) => match utf8_string(bytes) {
                Some(s) => Ok(s),
                None => Err(Error::InvalidObject),
            },
            Err(e) => Err(e),
        }
    }

    /// The main store of a well-formed repository is finite.
    pub proof fn lemma_objects_finite(&self)
        requires
            self.wf(),
        ensures
            self.objects().dom().finite(),
    {
        self.objects.lemma_finite();
    }

    /// Sets the head and the remote's tip to `head`, and the working tree to `root`.
    pub fn set_heads(&mut self, head: hash::Hash, root: Option<hash::Hash>)
        requires
            old(self).wf(),
        ensures
            final(self).wf(),
            final(self).head() == head@,
            final(self).upstream_head() == head@,
            final(self).root() == match root {
                Some(h) => Some(h@),
                None => None,
            },
            final(self).objects() == old(self).objects(),
            final(self).scratch() == old(self).scratch(),
    {
        self.head = head;
        self.upstream_head = head;
        self.root = root;
    }

    /// Stores every record of a packfile reader in the main store.
    pub fn read_objects(&mut self, reader: &mut crate::packfile::PackfileReader) -> (r: Result<(), Error>)
        requires
            old(self).wf(),
        ensures
            final(self).wf(),
            final(self).head() == old(self).head(),
            final(self).upstream_head() == old(self).upstream_head(),
            final(self).root() == old(self).root(),
            match crate::packfile::read_records(old(reader).pending(), old(reader).count()) {
                Err(e) => r == Err::<(), Error>(e),
                Ok(recs) => match crate::packfile::resolved_store(old(self).objects(), recs) {
                    Err(e) => r == Err::<(), Error>(e),
                    Ok(m) => r.is_ok() && final(self).objects() == m,
                },
            },
    {
        reader.read_all_objects(&mut self.objects)
    }

    /// Stores the objects of packfile records in the main store (see
    /// [`crate::packfile::resolve_objects`]).
    pub fn store_records(
        &mut self,
        records: Vec<crate::packfile::PackfileObject<Vec<u8>>>,
    ) -> (r: Result<(), Error>)
        requires
            old(self).wf(),
            forall|k: int| 0 <= k < records@.len() ==> !((#[trigger] records@[k]) matches crate::packfile::PackfileObject::OfsDelta(_, _)),
        ensures
            final(self).wf(),
            final(self).head() == old(self).head(),
            final(self).upstream_head() == old(self).upstream_head(),
            final(self).root() == old(self).root(),
            match crate::packfile::resolved_store(old(self).objects(), crate::packfile::records_view(records@)) {
                Err(e) => r == Err::<(), Error>(e),
                Ok(m) => r.is_ok() && final(self).objects() == m,
            },
    {
        crate::packfile::resolve_objects(&mut self.objects, records)
    }

    /// Makes the remote's tip the head.
    pub fn set_upstream_to_head(&mut self)
        requires
            old(self).wf(),
        ensures
            final(self).wf(),
            final(self).upstream_head() == final(self).head(),
            final(self).head() == old(self).head(),
            final(self).root() == old(self).root(),
            final(self).objects() == old(self).objects(),
            final(self).scratch() == old(self).scratch(),
    {
        self.upstream_head = self.head;
    }

    /// Moves an object, and every staged object that a tree among them names, from the
    /// scratch store into the main store.
    #[verifier::rlimit(100)]
    pub fn commit_object(&mut self, hash: hash::Hash)
        requires
            old(self).wf(),
        ensures
            final(self).wf(),
            final(self).head() == old(self).head(),
            final(self).upstream_head() == old(self).upstream_head(),
            final(self).root() == old(self).root(),
            old(self).objects().dom() <= final(self).objects().dom(),
            promoted(old(self).scratch(), final(self).scratch(), old(self).objects(), final(self).objects()),
            old(self).scratch().contains_key(hash@) ==> final(self).objects().contains_key(hash@)
                && !final(self).scratch().contains_key(hash@),
    {
        let mut stack: Vec<hash::Hash> = vec![hash];
        proof {
            assert(stack@[0]@ == hash@);
            assert(self.objects().dom() =~= old(self).objects().dom() + (old(self).scratch().dom()
                - self.scratch().dom()));
        }
        loop
            invariant
                self.wf(),
                self.head() == old(self).head(),
                self.upstream_head() == old(self).upstream_head(),
                self.root() == old(self).root(),
                old(self).objects().dom() <= self.objects().dom(),
                self.scratch().dom() <= old(self).scratch().dom(),
                forall|k: Seq<u8>| #[trigger] self.scratch().contains_key(k) ==> self.scratch()[k] == old(self).scratch()[k],
                self.objects().dom() == old(self).objects().dom() + (old(self).scratch().dom()
                    - self.scratch().dom()),
                old(self).scratch().contains_key(hash@) ==> crate::push::in_stack(stack@, hash@)
                    || !self.scratch().contains_key(hash@),
                forall|k: Seq<u8>|
                    old(self).scratch().contains_key(k) && !self.scratch().contains_key(k) ==> kids_settled(
                        #[trigger] tree_children(old(self).scratch()[k]),
                        self.scratch(),
                        stack@,
                    ),
            ensures
                promoted(old(self).scratch(), self.scratch(), old(self).objects(), self.objects()),
                old(self).scratch().contains_key(hash@) ==> self.objects().contains_key(hash@)
                    && !self.scratch().contains_key(hash@),
            decreases self.scratch().dom().len(), stack@.len(),
        {
            proof {
                self.staged.lemma_finite();
            }
            let ghost stack0 = stack@;
            let ghost sc0 = self.scratch();
            let ghost ob0 = self.objects();
            let h = match stack.pop() {
                Some(h) => h,
                None => {
                    proof {
                        assert forall|k: Seq<u8>|
                            old(self).scratch().contains_key(k) && !self.scratch().contains_key(k) implies (#[trigger] tree_children(
                                old(self).scratch()[k],
                            ) matches Some(es) ==> forall|j: int| 0 <= j < es.len() ==> !self.scratch().contains_key(#[trigger] es[j])) by {
                            assert(kids_settled(tree_children(old(self).scratch()[k]), self.scratch(), stack@));
                            if let Some(es) = tree_children(old(self).scratch()[k]) {
                                assert forall|j: int| 0 <= j < es.len() implies !self.scratch().contains_key(#[trigger] es[j]) by {
                                    if crate::push::in_stack(stack@, es[j]) {
                                        let q = choose|q: int| 0 <= q < stack@.len() && (#[trigger] stack@[q])@ == es[j];
                                    }
                                }
                            }
                        }
                        if old(self).scratch().contains_key(hash@) && crate::push::in_stack(stack@, hash@) {
                            let q = choose|q: int| 0 <= q < stack@.len() && (#[trigger] stack@[q])@ == hash@;
                        }
                    }
                    break;
                },
            };
            proof {
                assert(stack0 == stack@.push(h));
                assert forall|x: Seq<u8>| crate::push::in_stack(stack0, x) && x != h@ implies crate::push::in_stack(stack@, x) by {
                    let i = choose|i: int| 0 <= i < stack0.len() && (#[trigger] stack0[i])@ == x;
                    assert(i < stack@.len());
                    assert(stack@[i] == stack0[i]);
                }
                if sc0.contains_key(h@) {
                    self.staged.lemma_stored_identity(h@);
                }
            }
            match self.staged.remove(h) {
                None => {
                    proof {
                        assert forall|k: Seq<u8>|
                            old(self).scratch().contains_key(k) && !self.scratch().contains_key(k) implies kids_settled(
                                #[trigger] tree_children(old(self).scratch()[k]),
                                self.scratch(),
                                stack@,
                            ) by {
                            assert(kids_settled(tree_children(old(self).scratch()[k]), sc0, stack0));
                            if let Some(es) = tree_children(old(self).scratch()[k]) {
                                assert forall|j: int| 0 <= j < es.len() implies !self.scratch().contains_key(#[trigger] es[j])
                                    || crate::push::in_stack(stack@, es[j]) by {
                                    if es[j] != h@ && crate::push::in_stack(stack0, es[j]) {
                                        assert(crate::push::in_stack(stack@, es[j]));
                                    }
                                }
                            }
                        }
                    }
                },
                Some(obj) => {
                    let ghost mid_stack = stack@;
                    assert(obj@ == sc0[h@]);
                    assert(sc0[h@] == old(self).scratch()[h@]);
                    if obj.obj_type() != ObjectType::Tree {
                        assert(tree_children(sc0[h@]).is_none());
                    }
                    if obj.obj_type() == ObjectType::Tree {
                        match read_tree(obj.content()) {
                            Ok(entries) => {
                                let ghost es = crate::tree::entries_view(entries@);
                                assert(obj@ == sc0[h@]);
                                let mut i: usize = 0;
                                while i < entries.len()
                                    invariant
                                        i <= entries@.len(),
                                        es == crate::tree::entries_view(entries@),
                                        stack@.len() == mid_stack.len() + i,
                                        forall|m: int| 0 <= m < mid_stack.len() ==> #[trigger] stack@[m] == mid_stack[m],
                                        forall|m: int| 0 <= m < i ==> crate::push::in_stack(stack@, (#[trigger] es[m]).hash),
                                    decreases entries@.len() - i,
                                {
                                    let ghost st = stack@;
                                    stack.push(entries[i].1);
                                    proof {
                                        assert(stack@[st.len() as int]@ == es[i as int].hash);
                                        assert forall|m: int| 0 <= m < i + 1 implies crate::push::in_stack(stack@, (#[trigger] es[m]).hash) by {
                                            if m < i {
                                                let q = choose|q: int| 0 <= q < st.len() && (#[trigger] st[q])@ == es[m].hash;
                                                assert(stack@[q] == st[q]);
                                            }
                                        }
                                    }
                                    i += 1;
                                }
                                proof {
                                    let kids = es.map_values(|e: TreeEntry| e.hash);
                                    assert(tree_children(sc0[h@]) == Some(kids));
                                    assert forall|j: int| 0 <= j < kids.len() implies crate::push::in_stack(stack@, #[trigger] kids[j]) by {
                                        assert(kids[j] == es[j].hash);
                                    }
                                }
                            },
                            Err(_) => {
                                assert(tree_children(sc0[h@]).is_none());
                            },
                        }
                    }
                    let _ = self.objects.insert_entry(obj);
                    proof {
                        assert(self.objects().dom() =~= old(self).objects().dom() + (old(self).scratch().dom()
                            - self.scratch().dom()));
                        assert forall|x: Seq<u8>| crate::push::in_stack(mid_stack, x) implies crate::push::in_stack(stack@, x) by {
                            let q = choose|q: int| 0 <= q < mid_stack.len() && (#[trigger] mid_stack[q])@ == x;
                            assert(stack@[q] == mid_stack[q]);
                        }
                        assert forall|k: Seq<u8>|
                            old(self).scratch().contains_key(k) && !self.scratch().contains_key(k) implies kids_settled(
                                #[trigger] tree_children(old(self).scratch()[k]),
                                self.scratch(),
                                stack@,
                            ) by {
                            if k != h@ {
                                assert(kids_settled(tree_children(old(self).scratch()[k]), sc0, stack0));
                                if let Some(es) = tree_children(old(self).scratch()[k]) {
                                    assert forall|j: int| 0 <= j < es.len() implies !self.scratch().contains_key(#[trigger] es[j])
                                        || crate::push::in_stack(stack@, es[j]) by {
                                        if es[j] != h@ && crate::push::in_stack(stack0, es[j]) {
                                            assert(crate::push::in_stack(mid_stack, es[j]));
                                        }
                                    }
                                }
                            } else {
                                assert(kids_settled(tree_children(old(self).scratch()[k]), self.scratch(), stack@));
                            }
                        }
                    }
                },
            }
        }
    }

    /// Creates a commit of the working tree and makes it the head. `InvalidObject` when
    /// a name or email holds `<`, `>` or a newline, or a string is not UTF-8. Without a
    /// timestamp, the current time is used. Staged objects of a changed working tree move
    /// to the main store first.
    pub fn commit(
        &mut self,
        message: &str,
        author: (&str, &str),
        committer: (&str, &str),
        timestamp: Option<u64>,
    ) -> (r: Result<hash::Hash, Error>)
        requires
            old(self).wf(),
        ensures
            final(self).wf(),
            !commit_strings_ok(message, author, committer) ==> r == Err::<hash::Hash, Error>(
                Error::InvalidObject,
            ) && *final(self) == *old(self),
            commit_strings_ok(message, author, committer) && (old(self).root().is_none()
                || commit_root(old(self).objects(), old(self).head()).is_ok()) ==> r.is_ok(),
            r.is_ok() ==> r.unwrap()@ == final(self).head(),
            r.is_ok() ==> final(self).root() == old(self).root(),
            r.is_ok() ==> final(self).upstream_head() == old(self).upstream_head(),
            r.is_ok() ==> exists|ts: u64|
                timestamp_used(timestamp, ts) && final(self).objects()[final(self).head()]
                    == #[trigger] commit_view(old(self).root(), old(self).head(), message, author, committer, ts),
            r.is_ok() ==> moved_up(old(self).scratch(), final(self).scratch(), final(self).objects()),
            r.is_ok() ==> root_moved_up(
                old(self).root(),
                commit_root(old(self).objects(), old(self).head()),
                old(self).scratch(),
                final(self).scratch(),
                final(self).objects(),
            ),
            r.is_ok() ==> commit_root(final(self).objects(), final(self).head()) == Ok::<
                Option<Seq<u8>>,
                Error,
            >(Some(root_or_zero(final(self).root()))),
    {
        if !crate::commit::valid_person_part_exec(author.0.as_bytes())
            || !crate::commit::valid_person_part_exec(author.1.as_bytes())
            || !crate::commit::valid_person_part_exec(committer.0.as_bytes())
            || !crate::commit::valid_person_part_exec(committer.1.as_bytes())
            || !crate::tree::is_utf8(author.0.as_bytes()) || !crate::tree::is_utf8(author.1.as_bytes())
            || !crate::tree::is_utf8(committer.0.as_bytes())
            || !crate::tree::is_utf8(committer.1.as_bytes())
            || !crate::tree::is_utf8(message.as_bytes()) {
            return Err(Error::InvalidObject);
        }
        let timestamp_value = match timestamp {
            Some(t) => t,
            None => unix_now(),
        };
        let ghost old_root = self.root();
        let ghost old_head = self.head();
        if let Some(root) = self.root {
            match self.get_commit_root(self.head) {
                Err(e) => return Err(e),
                Ok(Some(t)) => {
                    if !(t == root) {
                        self.commit_object(root);
                    }
                },
                Ok(None) => self.commit_object(root),
            }
        }
        let tree = match self.root {
            Some(h) => h,
            None => hash::Hash::zero(),
        };
        let parent = if self.head.is_zero() {
            None
        } else {
            Some(self.head)
        };
        let serialized = crate::commit::write_commit(
            tree,
            parent,
            (author.0.as_bytes(), author.1.as_bytes()),
            (committer.0.as_bytes(), committer.1.as_bytes()),
            timestamp_value,
            message.as_bytes(),
        );
        let ghost content = serialized@;
        proof {
            crate::commit::lemma_commit_text_utf8(
                tree@,
                match parent {
                    Some(p) => Some(p@),
                    None => None,
                },
                (author.0.spec_bytes(), author.1.spec_bytes()),
                (committer.0.spec_bytes(), committer.1.spec_bytes()),
                timestamp_value as nat,
                message.spec_bytes(),
            );
            assert(content == commit_content(old_root, old_head, message, author, committer, timestamp_value));
        }
        self.head = self.objects.insert(ObjectType::Commit, serialized, None);
        proof {
            crate::commit::lemma_commit_tree(
                tree@,
                match parent {
                    Some(p) => Some(hash::hex_of(p@)),
                    None => None,
                },
                person_text(author.0.spec_bytes(), author.1.spec_bytes(), timestamp_value as nat),
                person_text(committer.0.spec_bytes(), committer.1.spec_bytes(), timestamp_value as nat),
                message.spec_bytes(),
            );
            hash::lemma_hex_round_trip(tree@);
            assert(self.objects()[self.head()] == commit_view(old_root, old_head, message, author, committer, timestamp_value));
            assert(timestamp_used(timestamp, timestamp_value));
        }
        Ok(self.head)
    }

    /// Resets the head to the remote's tip.
    pub fn discard_commits(&mut self)
        requires
            old(self).wf(),
        ensures
            final(self).wf(),
            final(self).head() == old(self).upstream_head(),
            final(self).upstream_head() == old(self).upstream_head(),
            final(self).objects() == old(self).objects(),
            final(self).scratch() == old(self).scratch(),
            final(self).root() == old(self).root(),
    {
        self.head = self.upstream_head;
    }

    /// Drops staged changes: the scratch store and the cache are emptied and the working
    /// tree goes back to the head's tree.
    pub fn discard_changes(&mut self) -> (r: Result<(), Error>)
        requires
            old(self).wf(),
        ensures
            final(self).wf(),
            final(self).head() == old(self).head(),
            final(self).upstream_head() == old(self).upstream_head(),
            final(self).objects() == old(self).objects(),
            r.is_ok() == commit_root(old(self).objects(), old(self).head()).is_ok(),
            r.is_ok() ==> final(self).scratch() == Map::<Seq<u8>, ObjectView>::empty()
                && final(self).cached() == Set::<Seq<u8>>::empty() && final(self).root() == tree_of(
                old(self).objects(),
                old(self).head(),
            ),
    {
        let root = match self.get_commit_root(self.head) {
            Ok(r) => r,
            Err(e) => return Err(e),
        };
        self.staged = ObjectStore::new();
        self.directories.clear();
        self.root = root;
        Ok(())
    }

    /// Resets the repository to the remote's tip.
    pub fn discard(&mut self) -> (r: Result<(), Error>)
        requires
            old(self).wf(),
        ensures
            final(self).wf(),
            final(self).head() == old(self).upstream_head(),
            final(self).upstream_head() == old(self).upstream_head(),
            final(self).objects() == old(self).objects(),
            r.is_ok() == commit_root(old(self).objects(), old(self).upstream_head()).is_ok(),
            r.is_ok() ==> final(self).scratch() == Map::<Seq<u8>, ObjectView>::empty()
                && final(self).root() == tree_of(old(self).objects(), old(self).upstream_head()),
    {
        self.discard_commits();
        self.discard_changes()
    }
}

/// Every identifier that entered the scratch store is absent from the main store.
pub open spec fn fresh_not_in(
    before: Map<Seq<u8>, ObjectView>,
    after: Map<Seq<u8>, ObjectView>,
    objs: Map<Seq<u8>, ObjectView>,
) -> bool {
    forall|k: Seq<u8>|
        #[trigger] after.contains_key(k) && !before.contains_key(k) ==> !objs.contains_key(k)
}

/// The name that a walk step works on: the next directory, or the file at the bottom.
pub open spec fn step_node(steps: Seq<Vec<u8>>, idx: usize, file_name: Seq<u8>) -> Seq<u8> {
    if idx < steps.len() {
        steps[idx as int]@
    } else {
        file_name
    }
}

/// The tree identifier that a commit records for a working tree: the zero identifier
/// for an empty one.
pub open spec fn root_or_zero(root: Option<Seq<u8>>) -> Seq<u8> {
    match root {
        Some(r) => r,
        None => hash::zero_id(),
    }
}

/// Relies on std's `SystemTime::elapsed` from `UNIX_EPOCH`: the whole seconds since the
/// Unix epoch by the wall clock, or 0 for a clock set before it.
#[verifier::external_body]
fn unix_now() -> (r: u64) {
    match std::time::UNIX_EPOCH.elapsed() {
        Ok(d) => d.as_secs(),
        Err(_) => 0,
    }
}

/// Relies on std's `String::from_utf8`: the bytes as a string when they are valid UTF-8.
#[verifier::external_body]
fn utf8_string(bytes: Vec<u8>) -> (r: Option<String>)
    ensures
        r.is_some() == vstd::utf8::valid_utf8(bytes@),
        r.is_some() ==> r.unwrap()@ == vstd::utf8::decode_utf8(bytes@),
{
    String::from_utf8(bytes).ok()
}

/// The scratch store or the main store holds a blob with `content`.
pub open spec fn blob_in_stores(
    scratch: Map<Seq<u8>, ObjectView>,
    objs: Map<Seq<u8>, ObjectView>,
    content: Seq<u8>,
) -> bool {
    exists|k: Seq<u8>| #[trigger] stored_blob(scratch, k, content) || stored_blob(objs, k, content)
}

/// `store` holds a blob with `content` under `k`.
pub open spec fn stored_blob(store: Map<Seq<u8>, ObjectView>, k: Seq<u8>, content: Seq<u8>) -> bool {
    store.contains_key(k) && store[k].obj_type == ObjectType::Blob && store[k].content == content
}

/// Staging a file under a top-level name that the working tree lacks, then staging that
/// name as deleted, gives back the working tree's identifier. `before`, `staged` and
/// `after` are the repository before, between and after the two calls, related as
/// [`Repository::stage`] promises.
pub proof fn lemma_stage_then_unstage(
    before: Repository,
    staged: Repository,
    after: Repository,
    name: Seq<u8>,
)
    requires
        before.root_known(),
        crate::directory::well_ordered(before.root_entries()),
        before.root() matches Some(h) ==> before.root_entries().len() > 0 && h == object_id(
            ObjectType::Tree,
            tree_bytes(before.root_entries()),
        ),
        lookup(before.root_entries(), name).is_none(),
        staged.root_known(),
        staged.root().is_some(),
        crate::directory::well_ordered(staged.root_entries()),
        forall|n: Seq<u8>| n != name ==> #[trigger] lookup(staged.root_entries(), n) == lookup(
            before.root_entries(),
            n,
        ),
        forall|n: Seq<u8>| n != name ==> #[trigger] lookup(after.root_entries(), n) == lookup(
            staged.root_entries(),
            n,
        ),
        after.root() matches Some(h) ==> crate::directory::well_ordered(after.root_entries())
            && after.root_entries().len() > 0 && lookup(after.root_entries(), name).is_none()
            && h == object_id(ObjectType::Tree, tree_bytes(after.root_entries())),
    ensures
        after.root() == before.root(),
{
    let a = before.root_entries();
    let c = after.root_entries();
    assert forall|n: Seq<u8>| #[trigger] lookup(c, n) == lookup(a, n) by {
        if n != name {
            assert(lookup(c, n) == lookup(staged.root_entries(), n));
        } else if after.root().is_none() {
            assert(c =~= Seq::<TreeEntry>::empty());
        }
    }
    if after.root().is_none() {
        assert(c =~= Seq::<TreeEntry>::empty());
        if a.len() > 0 {
            crate::directory::lemma_lookup_at(a, 0);
            assert(lookup(c, a[0].name).is_some());
        }
    } else {
        crate::directory::lemma_lookup_determines(c, a);
        if before.root().is_none() {
            assert(a =~= Seq::<TreeEntry>::empty());
        }
    }
}

/// Names and emails free of `<`, `>` and newlines, and every string UTF-8.
pub open spec fn commit_strings_ok(message: &str, author: (&str, &str), committer: (&str, &str)) -> bool {
    &&& crate::commit::valid_person_part(author.0.spec_bytes())
    &&& crate::commit::valid_person_part(author.1.spec_bytes())
    &&& crate::commit::valid_person_part(committer.0.spec_bytes())
    &&& crate::commit::valid_person_part(committer.1.spec_bytes())
    &&& vstd::utf8::valid_utf8(author.0.spec_bytes())
    &&& vstd::utf8::valid_utf8(author.1.spec_bytes())
    &&& vstd::utf8::valid_utf8(committer.0.spec_bytes())
    &&& vstd::utf8::valid_utf8(committer.1.spec_bytes())
    &&& vstd::utf8::valid_utf8(message.spec_bytes())
}

/// The timestamp given, or any when none is.
pub open spec fn timestamp_used(timestamp: Option<u64>, ts: u64) -> bool {
    match timestamp {
        Some(t) => ts == t,
        None => true,
    }
}

/// The commit object that `Repository::commit` stores (see `commit_content`).
pub open spec fn commit_view(
    root: Option<Seq<u8>>,
    head: Seq<u8>,
    message: &str,
    author: (&str, &str),
    committer: (&str, &str),
    ts: u64,
) -> ObjectView {
    ObjectView {
        obj_type: ObjectType::Commit,
        content: commit_content(root, head, message, author, committer, ts),
        delta_hint: hash::zero_id(),
    }
}

/// The content of the commit that `Repository::commit` stores for a working tree `root`
/// on top of `head`: `tree` names the root (the zero identifier for an empty tree), a
/// `parent` header appears when the head is not zero, and both people carry `ts` and
/// `+0000`.
pub open spec fn commit_content(
    root: Option<Seq<u8>>,
    head: Seq<u8>,
    message: &str,
    author: (&str, &str),
    committer: (&str, &str),
    ts: u64,
) -> Seq<u8> {
    crate::commit::commit_text(
        hash::hex_of(root_or_zero(root)),
        if head == hash::zero_id() {
            None
        } else {
            Some(hash::hex_of(head))
        },
        person_text(author.0.spec_bytes(), author.1.spec_bytes(), ts as nat),
        person_text(committer.0.spec_bytes(), committer.1.spec_bytes(), ts as nat),
        message.spec_bytes(),
    )
}

/// Every tree object of `store` parses, with valid names.
pub open spec fn trees_readable(store: Map<Seq<u8>, ObjectView>) -> bool {
    forall|k: Seq<u8>|
        #[trigger] store.contains_key(k) && store[k].obj_type == ObjectType::Tree ==> crate::directory::readable_tree(
            store[k].content,
        )
}

/// Storing the tree of a well-formed directory keeps a store's trees readable.
proof fn lemma_store_dir_readable(
    before: Map<Seq<u8>, ObjectView>,
    k: Seq<u8>,
    dir: Seq<TreeEntry>,
    hint: Seq<u8>,
)
    requires
        trees_readable(before),
        crate::directory::well_ordered(dir),
    ensures
        trees_readable(
            before.insert(k, ObjectView { obj_type: ObjectType::Tree, content: tree_bytes(dir), delta_hint: hint }),
        ),
{
    crate::directory::lemma_directory_round_trip(dir);
}

/// A path of at least one component, each a valid entry name.
pub open spec fn valid_path(comps: Seq<Seq<u8>>) -> bool {
    comps.len() > 0 && forall|k: int| 0 <= k < comps.len() ==> valid_name(#[trigger] comps[k])
}

/// The content of the blob stored under `k`, looked up in the scratch store first.
pub open spec fn blob_at(scratch: Map<Seq<u8>, ObjectView>, objs: Map<Seq<u8>, ObjectView>, k: Seq<u8>) -> Option<
    Seq<u8>,
> {
    if scratch.contains_key(k) && scratch[k].obj_type == ObjectType::Blob {
        Some(scratch[k].content)
    } else if objs.contains_key(k) && objs[k].obj_type == ObjectType::Blob {
        Some(objs[k].content)
    } else {
        None
    }
}

/// The path components from step `idx` on, then the file name.
pub open spec fn rest_comps(steps: Seq<Vec<u8>>, idx: int, file: Seq<u8>) -> Seq<Seq<u8>> {
    steps.subrange(idx, steps.len() as int).map_values(|v: Vec<u8>| v@).push(file)
}

/// The file data of a stage request, in mathematical terms.
pub open spec fn data_view(data: Option<(Vec<u8>, FileType)>) -> Option<(Seq<u8>, FileType)> {
    match data {
        Some((b, ft)) => Some((b@, ft)),
        None => None,
    }
}

/// The directory `d` holds the staged change at the path `comps`: the file itself (or
/// nothing, for a deletion) at the last component, and at each component before it a
/// directory whose tree identifier is that of the next directory of `subs`, which holds
/// the rest of the change; a directory left empty by a deletion is gone.
pub open spec fn placed_chain(
    d: Seq<TreeEntry>,
    comps: Seq<Seq<u8>>,
    data: Option<(Seq<u8>, FileType)>,
    subs: Seq<Seq<TreeEntry>>,
) -> bool
    decreases comps.len(),
{
    if comps.len() <= 1 {
        match data {
            Some((b, ft)) => lookup(d, comps[0]) == Some(
                TreeEntry { name: comps[0], hash: object_id(ObjectType::Blob, b), mode: file_mode(ft) },
            ),
            None => lookup(d, comps[0]).is_none(),
        }
    } else {
        match lookup(d, comps[0]) {
            None => data.is_none(),
            Some(e) => e.mode == Mode::Directory && subs.len() > 0 && crate::directory::well_ordered(subs[0])
                && subs[0].len() > 0 && e.hash == object_id(ObjectType::Tree, tree_bytes(subs[0]))
                && placed_chain(subs[0], comps.drop_first(), data, subs.drop_first()),
        }
    }
}

/// The directory `d` holds the staged change at the path `comps` (see `placed_chain`).
pub open spec fn path_placed(d: Seq<TreeEntry>, comps: Seq<Seq<u8>>, data: Option<(Seq<u8>, FileType)>) -> bool {
    exists|subs: Seq<Seq<TreeEntry>>| #[trigger] placed_chain(d, comps, data, subs)
}

proof fn lemma_path_placed_dir(
    d: Seq<TreeEntry>,
    comps: Seq<Seq<u8>>,
    data: Option<(Seq<u8>, FileType)>,
    e: TreeEntry,
    s: Seq<TreeEntry>,
)
    requires
        comps.len() > 1,
        lookup(d, comps[0]) == Some(e),
        e.mode == Mode::Directory,
        crate::directory::well_ordered(s),
        s.len() > 0,
        e.hash == object_id(ObjectType::Tree, tree_bytes(s)),
        path_placed(s, comps.drop_first(), data),
    ensures
        path_placed(d, comps, data),
{
    let rest = choose|subs: Seq<Seq<TreeEntry>>| #[trigger] placed_chain(s, comps.drop_first(), data, subs);
    let subs = seq![s] + rest;
    assert(subs.drop_first() =~= rest);
    assert(placed_chain(d, comps, data, subs));
}

/// The identifiers that a staged tree names, when it is a tree that parses.
pub open spec fn tree_children(o: ObjectView) -> Option<Seq<Seq<u8>>> {
    if o.obj_type != ObjectType::Tree {
        None
    } else {
        match crate::tree::parse_tree(o.content) {
            None => None,
            Some(es) => Some(es.map_values(|e: TreeEntry| e.hash)),
        }
    }
}

/// Objects left the scratch store only for the main store, and every staged object that
/// a tree among them names left too.
pub open spec fn moved_up(
    scratch_before: Map<Seq<u8>, ObjectView>,
    scratch_after: Map<Seq<u8>, ObjectView>,
    objs_after: Map<Seq<u8>, ObjectView>,
) -> bool {
    &&& scratch_after.dom() <= scratch_before.dom()
    &&& forall|k: Seq<u8>|
        scratch_before.contains_key(k) && !scratch_after.contains_key(k) ==> #[trigger] objs_after.contains_key(k)
    &&& forall|k: Seq<u8>|
        scratch_before.contains_key(k) && !scratch_after.contains_key(k) ==> (#[trigger] tree_children(scratch_before[k]) matches Some(es)
            ==> forall|j: int| 0 <= j < es.len() ==> !scratch_after.contains_key(#[trigger] es[j]))
}

/// A working tree that differs from the head's tree, and is staged, is now in the main
/// store and out of the scratch store.
pub open spec fn root_moved_up(
    root: Option<Seq<u8>>,
    head_tree: Result<Option<Seq<u8>>, Error>,
    scratch_before: Map<Seq<u8>, ObjectView>,
    scratch_after: Map<Seq<u8>, ObjectView>,
    objs_after: Map<Seq<u8>, ObjectView>,
) -> bool {
    match root {
        Some(t) => head_tree != Ok::<Option<Seq<u8>>, Error>(Some(t)) && scratch_before.contains_key(t)
            ==> objs_after.contains_key(t) && !scratch_after.contains_key(t),
        None => true,
    }
}

/// Every child is out of the scratch store or still to be visited.
pub open spec fn kids_settled(
    kids: Option<Seq<Seq<u8>>>,
    scratch: Map<Seq<u8>, ObjectView>,
    stack: Seq<hash::Hash>,
) -> bool {
    kids matches Some(es) ==> forall|j: int|
        0 <= j < es.len() ==> !scratch.contains_key(#[trigger] es[j]) || crate::push::in_stack(stack, es[j])
}

/// Moving objects from the scratch store to the main store: the scratch store only lost
/// objects, each of them is now in the main store, nothing else joined it, and every
/// staged object that a moved tree names was moved too.
pub open spec fn promoted(
    scratch_before: Map<Seq<u8>, ObjectView>,
    scratch_after: Map<Seq<u8>, ObjectView>,
    objs_before: Map<Seq<u8>, ObjectView>,
    objs_after: Map<Seq<u8>, ObjectView>,
) -> bool {
    &&& scratch_after.dom() <= scratch_before.dom()
    &&& objs_after.dom() == objs_before.dom() + (scratch_before.dom() - scratch_after.dom())
    &&& forall|k: Seq<u8>|
        scratch_before.contains_key(k) && !scratch_after.contains_key(k) ==> (#[trigger] tree_children(scratch_before[k]) matches Some(es)
            ==> forall|j: int| 0 <= j < es.len() ==> !scratch_after.contains_key(#[trigger] es[j]))
}

} // verus!
