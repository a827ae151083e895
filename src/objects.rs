use vstd::prelude::*;

use crate::hash::{self, sha1_digest, sha1_of};

verus! {

/// The four kinds of stored objects.
#[derive(Debug, Clone, Copy, PartialEq, Eq, Structural)]
pub enum ObjectType {
    Commit,
    Tree,
    Blob,
    Tag,
}

/// The name of an object type as it appears in an object header.
pub open spec fn kind_name(t: ObjectType) -> Seq<u8> {
    match t {
        ObjectType::Commit => seq![99u8, 111, 109, 109, 105, 116],
        ObjectType::Tree => seq![116u8, 114, 101, 101],
        ObjectType::Blob => seq![98u8, 108, 111, 98],
        ObjectType::Tag => seq![116u8, 97, 103],
    }
}

/// The decimal digits of a natural number, without leading zeros.
pub open spec fn decimal(n: nat) -> Seq<u8>
    decreases n,
{
    if n < 10 {
        seq![(48 + n) as u8]
    } else {
        decimal(n / 10).push((48 + n % 10) as u8)
    }
}

/// The header `"<type> <decimal length>\0"` that precedes the content when hashing.
pub open spec fn object_header(t: ObjectType, len: nat) -> Seq<u8> {
    kind_name(t).push(32u8) + decimal(len).push(0u8)
}

/// The identifier of an object: the digest of its header followed by its content.
pub open spec fn object_id(t: ObjectType, content: Seq<u8>) -> Seq<u8> {
    sha1_of(object_header(t, content.len()) + content)
}

impl ObjectType {
    /// Appends the type's name.
    pub fn write_name(&self, out: &mut Vec<u8>)
        ensures
            final(out)@ == old(out)@ + kind_name(*self),
    {
        let name: Vec<u8> = match self {
            ObjectType::Commit => vec![99u8, 111, 109, 109, 105, 116],
            ObjectType::Tree => vec![116u8, 114, 101, 101],
            ObjectType::Blob => vec![98u8, 108, 111, 98],
            ObjectType::Tag => vec![116u8, 97, 103],
        };
        append_bytes(out, name.as_slice());
        assert(name@ =~= kind_name(*self));
    }
}

/// Appends every byte of `b`.
pub fn append_bytes(out: &mut Vec<u8>, b: &[u8])
    ensures
        final(out)@ == old(out)@ + b@,
{
    let ghost start = out@;
    let mut i: usize = 0;
    while i < b.len()
        invariant
            0 <= i <= b@.len(),
            out@ == start + b@.subrange(0, i as int),
        decreases b@.len() - i,
    {
        out.push(b[i]);
        assert(b@.subrange(0, i + 1) =~= b@.subrange(0, i as int).push(b@[i as int]));
        i += 1;
    }
    assert(b@.subrange(0, b@.len() as int) =~= b@);
}

/// Appends the decimal digits of `n`.
pub fn write_decimal(out: &mut Vec<u8>, n: u64)
    ensures
        final(out)@ == old(out)@ + decimal(n as nat),
    decreases n,
{
    if n >= 10 {
        write_decimal(out, n / 10);
    }
    out.push(48 + (n % 10) as u8);
    assert(final(out)@ =~= old(out)@ + decimal(n as nat)) by {
        if n < 10 {
            assert(decimal(n as nat) =~= seq![(48 + n) as u8]);
        }
    }
}

/// The header bytes of an object of type `t` and content length `len`.
pub fn write_object_header(out: &mut Vec<u8>, t: ObjectType, len: usize)
    ensures
        final(out)@ == old(out)@ + object_header(t, len as nat),
{
    let ghost start = out@;
    t.write_name(out);
    out.push(32u8);
    write_decimal(out, len as u64);
    out.push(0u8);
    assert(out@ =~= start + object_header(t, len as nat));
}

/// Computes the identifier of an object of type `t` holding `content`.
pub fn object_hash(t: ObjectType, content: &[u8]) -> (r: hash::Hash)
    ensures
        r@ == object_id(t, content@),
{
    let mut buf: Vec<u8> = Vec::new();
    write_object_header(&mut buf, t, content.len());
    append_bytes(&mut buf, content);
    let digest = sha1_digest(buf.as_slice());
    hash::Hash::new(digest)
}

/// The stored form of an optional hint: an absent one is the zero identifier.
pub open spec fn hint_view(h: Option<hash::Hash>) -> Seq<u8> {
    match h {
        Some(h) => h@,
        None => hash::zero_id(),
    }
}

/// What an object holds, in mathematical terms.
pub struct ObjectView {
    pub obj_type: ObjectType,
    pub content: Seq<u8>,
    pub delta_hint: Seq<u8>,
}

/// A typed, immutable byte string, with an optional hint naming a related object.
pub struct Object {
    obj_type: ObjectType,
    content: Vec<u8>,
    delta_hint: hash::Hash,
}

impl View for Object {
    type V = ObjectView;

    closed spec fn view(&self) -> ObjectView {
        ObjectView { obj_type: self.obj_type, content: self.content@, delta_hint: self.delta_hint@ }
    }
}

impl Object {
    /// Builds an object; an absent hint is stored as the zero identifier.
    pub fn new(obj_type: ObjectType, content: Vec<u8>, delta_hint: Option<hash::Hash>) -> (r: Object)
        ensures
            r@.obj_type == obj_type,
            r@.content == content@,
            r@.delta_hint == match delta_hint {
                Some(h) => h@,
                None => crate::hash::zero_id(),
            },
    {
        let delta_hint = match delta_hint {
            Some(h) => h,
            None => hash::Hash::zero(),
        };
        Object { obj_type, content, delta_hint }
    }

    pub fn obj_type(&self) -> (r: ObjectType)
        ensures
            r == self@.obj_type,
    {
        self.obj_type
    }

    pub fn content(&self) -> (r: &[u8])
        ensures
            r@ == self@.content,
    {
        self.content.as_slice()
    }

    /// The hint, unless it is the zero identifier.
    pub fn delta_hint(&self) -> (r: Option<hash::Hash>)
        ensures
            r.is_none() == (self@.delta_hint == crate::hash::zero_id()),
            r.is_some() ==> r.unwrap()@ == self@.delta_hint,
    {
        if self.delta_hint.is_zero() {
            None
        } else {
            Some(self.delta_hint)
        }
    }

    /// The identifier of this object.
    pub fn id(&self) -> (r: hash::Hash)
        ensures
            r@ == object_id(self@.obj_type, self@.content),
    {
        object_hash(self.obj_type, self.content.as_slice())
    }
}

struct Entry {
    id: hash::Hash,
    object: Object,
}

/// The number of shards of an object store.
pub const SHARDS: usize = 256;

/// A keyed mapping from identifiers to objects, sharded by the identifier's first byte.
pub struct ObjectStore {
    shards: Vec<Vec<Entry>>,
    contents: Ghost<Map<Seq<u8>, ObjectView>>,
}

impl View for ObjectStore {
    type V = Map<Seq<u8>, ObjectView>;

    closed spec fn view(&self) -> Map<Seq<u8>, ObjectView> {
        self.contents@
    }
}

impl ObjectStore {
    spec fn entry_at(&self, i: int, j: int) -> Entry {
        self.shards@[i]@[j]
    }

    /// The store's internal invariant.
    pub closed spec fn wf(&self) -> bool {
        &&& self.shards@.len() == SHARDS
        &&& self.contents@.dom().finite()
        &&& forall|k: Seq<u8>| #[trigger]
            self.contents@.contains_key(k) ==> object_id(self.contents@[k].obj_type, self.contents@[k].content) == k
        &&& forall|i: int, j: int|
            0 <= i < SHARDS && 0 <= j < self.shards@[i]@.len() ==> {
                let e = #[trigger] self.entry_at(i, j);
                &&& e.id@[0] == i
                &&& self.contents@.contains_key(e.id@)
                &&& self.contents@[e.id@] == e.object@
            }
        &&& forall|i: int, j: int, k: int|
            0 <= i < SHARDS && 0 <= j < self.shards@[i]@.len() && 0 <= k
                < self.shards@[i]@.len() && #[trigger] self.entry_at(i, j).id@
                == #[trigger] self.entry_at(i, k).id@ ==> j == k
        &&& forall|key: Seq<u8>| #[trigger]
            self.contents@.contains_key(key) ==> key.len() == 20 && exists|j: int|
                0 <= j < self.shards@[key[0] as int]@.len() && (#[trigger] self.entry_at(
                    key[0] as int,
                    j,
                )).id@ == key
    }

    /// An empty store.
    pub fn new() -> (r: ObjectStore)
        ensures
            r.wf(),
            r@ == Map::<Seq<u8>, ObjectView>::empty(),
    {
        let mut shards: Vec<Vec<Entry>> = Vec::new();
        let mut i: usize = 0;
        while i < SHARDS
            invariant
                0 <= i <= SHARDS,
                shards@.len() == i,
                forall|k: int| 0 <= k < i ==> (#[trigger] shards@[k])@.len() == 0,
            decreases SHARDS - i,
        {
            shards.push(Vec::new());
            i += 1;
        }
        ObjectStore { shards, contents: Ghost(Map::empty()) }
    }

    /// Every stored object is stored under its identity: hashing its type and content
    /// again gives the key it is stored under.
    pub proof fn lemma_stored_identity(&self, k: Seq<u8>)
        requires
            self.wf(),
            self@.contains_key(k),
        ensures
            object_id(self@[k].obj_type, self@[k].content) == k,
            k == sha1_of(object_header(self@[k].obj_type, self@[k].content.len()) + self@[k].content),
    {
    }

    /// A well-formed store holds finitely many records.
    pub proof fn lemma_finite(&self)
        requires
            self.wf(),
        ensures
            self@.dom().finite(),
    {
    }

    /// The number of stored records, saturating at the largest `usize`.
    pub fn count(&self) -> (r: usize)
        requires
            self.wf(),
    {
        let mut n: usize = 0;
        let mut i: usize = 0;
        while i < SHARDS
            invariant
                i <= SHARDS,
                self.shards@.len() == SHARDS,
            decreases SHARDS - i,
        {
            n = n.saturating_add(self.shards[i].len());
            i += 1;
        }
        n
    }

    /// Where `id` sits in its shard, if it is stored.
    fn find(&self, id: hash::Hash) -> (r: Option<usize>)
        requires
            self.wf(),
        ensures
            r.is_some() == self@.contains_key(id@),
            r.is_some() ==> {
                let j = r.unwrap() as int;
                &&& 0 <= j < self.shards@[id@[0] as int]@.len()
                &&& self.entry_at(id@[0] as int, j).id@ == id@
            },
    {
        let shard = &self.shards[id.first_byte()];
        let mut j: usize = 0;
        while j < shard.len()
            invariant
                self.wf(),
                shard == &self.shards@[id@[0] as int],
                0 <= j <= shard@.len(),
                forall|k: int| 0 <= k < j ==> self.entry_at(id@[0] as int, k).id@ != id@,
            decreases shard@.len() - j,
        {
            if shard[j].id == id {
                assert(self.entry_at(id@[0] as int, j as int).id@ == id@);
                return Some(j);
            }
            j += 1;
        }
        proof {
            if self@.contains_key(id@) {
                let k = choose|k: int|
                    0 <= k < self.shards@[id@[0] as int]@.len() && (#[trigger] self.entry_at(
                        id@[0] as int,
                        k,
                    )).id@ == id@;
                assert(self.entry_at(id@[0] as int, k).id@ != id@);
            }
        }
        None
    }

    pub fn has(&self, object: hash::Hash) -> (r: bool)
        requires
            self.wf(),
        ensures
            r == self@.contains_key(object@),
    {
        self.find(object).is_some()
    }

    pub fn get(&self, object: hash::Hash) -> (r: Option<&Object>)
        requires
            self.wf(),
        ensures
            r.is_some() == self@.contains_key(object@),
            r.is_some() ==> r.unwrap()@ == self@[object@],
    {
        match self.find(object) {
            Some(j) => Some(&self.shards[object.first_byte()][j].object),
            None => None,
        }
    }

    /// The content of the object, if it is stored with the expected type.
    pub fn get_as(&self, object: hash::Hash, obj_type: ObjectType) -> (r: Option<&[u8]>)
        requires
            self.wf(),
        ensures
            r.is_some() == (self@.contains_key(object@) && self@[object@].obj_type == obj_type),
            r.is_some() ==> r.unwrap()@ == self@[object@].content,
    {
        match self.get(object) {
            Some(entry) => {
                if entry.obj_type() == obj_type {
                    Some(entry.content())
                } else {
                    None
                }
            },
            None => None,
        }
    }

    /// The identifier that an object of type `obj_type` holding `content` has.
    pub fn hash(&self, obj_type: ObjectType, content: &[u8]) -> (r: hash::Hash)
        ensures
            r@ == object_id(obj_type, content@),
    {
        object_hash(obj_type, content)
    }

    /// Stores `entry` under its identifier, replacing a record already there.
    pub fn insert_entry(&mut self, entry: Object) -> (r: hash::Hash)
        requires
            old(self).wf(),
        ensures
            final(self).wf(),
            r@ == object_id(entry@.obj_type, entry@.content),
            final(self)@ == old(self)@.insert(r@, entry@),
    {
        let id = entry.id();
        let s = id.first_byte();
        let ghost old_self = *self;
        let ghost v = entry@;
        let ghost mut pos: int = 0;
        match self.find(id) {
            Some(j) => {
                proof {
                    pos = j as int;
                }
                self.shards[s][j] = Entry { id, object: entry };
            },
            None => {
                proof {
                    pos = self.shards@[s as int]@.len() as int;
                }
                self.shards[s].push(Entry { id, object: entry });
            },
        }
        assert(self.entry_at(s as int, pos).id@ == id@);
        self.contents = Ghost(self.contents@.insert(id@, v));
        proof {
            assert forall|i: int, j: int|
                0 <= i < SHARDS && 0 <= j < self.shards@[i]@.len() implies {
                let e = #[trigger] self.entry_at(i, j);
                &&& e.id@[0] == i
                &&& self.contents@.contains_key(e.id@)
                &&& self.contents@[e.id@] == e.object@
            } by {
                if i != s && j < old_self.shards@[i]@.len() {
                    assert(self.entry_at(i, j) == old_self.entry_at(i, j));
                }
                if i == s && j < old_self.shards@[i]@.len() && self.entry_at(i, j).id@ != id@ {
                    assert(self.entry_at(i, j) == old_self.entry_at(i, j));
                }
            }
            assert forall|i: int, j: int, k: int|
                0 <= i < SHARDS && 0 <= j < self.shards@[i]@.len() && 0 <= k
                    < self.shards@[i]@.len() && #[trigger] self.entry_at(i, j).id@
                    == #[trigger] self.entry_at(i, k).id@ implies j == k by {
                if i != s {
                    assert(self.entry_at(i, j) == old_self.entry_at(i, j));
                    assert(self.entry_at(i, k) == old_self.entry_at(i, k));
                } else {
                    let n = old_self.shards@[i]@.len();
                    if j < n && self.entry_at(i, j).id@ != id@ {
                        assert(self.entry_at(i, j) == old_self.entry_at(i, j));
                    }
                    if k < n && self.entry_at(i, k).id@ != id@ {
                        assert(self.entry_at(i, k) == old_self.entry_at(i, k));
                    }
                    if self.entry_at(i, j).id@ == id@ {
                        if j < n && k < n {
                            if j != k {
                                assert(old_self.entry_at(i, j).id@ == id@ || old_self.entry_at(
                                    i,
                                    k,
                                ).id@ == id@);
                            }
                        }
                    }
                }
            }
            assert forall|key: Seq<u8>| #[trigger]
                self.contents@.contains_key(key) implies key.len() == 20 && exists|j: int|
                    0 <= j < self.shards@[key[0] as int]@.len() && (#[trigger] self.entry_at(
                        key[0] as int,
                        j,
                    )).id@ == key by {
                if key == id@ {
                    assert(self.entry_at(s as int, pos).id@ == key);
                } else {
                    let j = choose|j: int|
                        0 <= j < old_self.shards@[key[0] as int]@.len() && (#[trigger] old_self.entry_at(
                            key[0] as int,
                            j,
                        )).id@ == key;
                    assert(self.entry_at(key[0] as int, j) == old_self.entry_at(key[0] as int, j));
                }
            }
        }
        id
    }

    /// Stores an object built from its parts (see [`Object::new`]).
    pub fn insert(
        &mut self,
        obj_type: ObjectType,
        content: Vec<u8>,
        delta_hint: Option<hash::Hash>,
    ) -> (r: hash::Hash)
        requires
            old(self).wf(),
        ensures
            final(self).wf(),
            r@ == object_id(obj_type, content@),
            final(self)@ == old(self)@.insert(
                r@,
                ObjectView { obj_type, content: content@, delta_hint: hint_view(delta_hint) },
            ),
    {
        let r = self.insert_entry(Object::new(obj_type, content, delta_hint));
        r
    }

    /// Stores the tree object of `dir` and gives its identifier.
    pub fn serialize_directory(
        &mut self,
        dir: &crate::directory::Directory,
        delta_hint: Option<hash::Hash>,
    ) -> (r: hash::Hash)
        requires
            old(self).wf(),
            dir.wf(),
        ensures
            final(self).wf(),
            r@ == object_id(ObjectType::Tree, crate::tree::tree_bytes(dir@)),
            final(self)@ == old(self)@.insert(
                r@,
                ObjectView {
                    obj_type: ObjectType::Tree,
                    content: crate::tree::tree_bytes(dir@),
                    delta_hint: hint_view(delta_hint),
                },
            ),
    {
        let serialized = dir.serialize();
        self.insert(ObjectType::Tree, serialized, delta_hint)
    }

    /// Takes the object out of the store.
    pub fn remove(&mut self, object: hash::Hash) -> (r: Option<Object>)
        requires
            old(self).wf(),
        ensures
            final(self).wf(),
            r.is_some() == old(self)@.contains_key(object@),
            r.is_some() ==> r.unwrap()@ == old(self)@[object@],
            final(self)@ == old(self)@.remove(object@),
    {
        let ghost old_self = *self;
        match self.find(object) {
            None => {
                assert(self@ =~= old_self@.remove(object@));
                None
            },
            Some(j) => {
                let s = object.first_byte();
                let e = self.shards[s].remove(j);
                self.contents = Ghost(self.contents@.remove(object@));
                proof {
                    let n = old_self.shards@[s as int]@.len();
                    assert forall|i: int, k: int|
                        0 <= i < SHARDS && 0 <= k < self.shards@[i]@.len() implies
                        #[trigger] self.entry_at(i, k) == (if i == s && k >= j {
                            old_self.entry_at(i, k + 1)
                        } else {
                            old_self.entry_at(i, k)
                        }) by {}
                    assert forall|i: int, k: int|
                        0 <= i < SHARDS && 0 <= k < self.shards@[i]@.len() implies {
                        let e = #[trigger] self.entry_at(i, k);
                        &&& e.id@[0] == i
                        &&& self.contents@.contains_key(e.id@)
                        &&& self.contents@[e.id@] == e.object@
                    } by {
                        if i == s && k >= j {
                            assert(old_self.entry_at(i, k + 1).id@ != object@);
                        } else if i == s {
                            assert(old_self.entry_at(i, k).id@ != object@);
                        }
                    }
                    assert forall|i: int, k: int, l: int|
                        0 <= i < SHARDS && 0 <= k < self.shards@[i]@.len() && 0 <= l
                            < self.shards@[i]@.len() && #[trigger] self.entry_at(i, k).id@
                            == #[trigger] self.entry_at(i, l).id@ implies k == l by {
                        let k2 = if i == s && k >= j { k + 1 } else { k };
                        let l2 = if i == s && l >= j { l + 1 } else { l };
                        assert(old_self.entry_at(i, k2).id@ == old_self.entry_at(i, l2).id@);
                    }
                    assert forall|key: Seq<u8>| #[trigger]
                        self.contents@.contains_key(key) implies key.len() == 20 && exists|k: int|
                            0 <= k < self.shards@[key[0] as int]@.len() && (#[trigger] self.entry_at(
                                key[0] as int,
                                k,
                            )).id@ == key by {
                        let k = choose|k: int|
                            0 <= k < old_self.shards@[key[0] as int]@.len() && (#[trigger] old_self.entry_at(
                                key[0] as int,
                                k,
                            )).id@ == key;
                        if key[0] == s && k > j {
                            assert(self.entry_at(key[0] as int, k - 1).id@ == key);
                        } else {
                            assert(k != j || key[0] != s);
                            assert(self.entry_at(key[0] as int, k).id@ == key);
                        }
                    }
                }
                Some(e.object)
            },
        }
    }
}

} // verus!
