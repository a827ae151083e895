use vstd::prelude::*;
use vstd::string::StringSliceAdditionalSpecFns;

use crate::commit::{get_commit_field_hash, CommitField, CommitParentsIter};
use crate::hash;
use crate::objects::{append_bytes, object_id, ObjectType, ObjectView};
use crate::packfile::{dump_packfile_header, dump_packfile_object, pack_header, packfile_bytes, PackfileObject};
use crate::repository::Repository;
use crate::protocol::hex4;
use crate::tree::{copy_range, read_tree};
use crate::Error;

verus! {

/// A set of identifiers.
pub struct IdSet {
    ids: Vec<hash::Hash>,
}

impl View for IdSet {
    type V = Set<Seq<u8>>;

    closed spec fn view(&self) -> Set<Seq<u8>> {
        Set::new(|k: Seq<u8>| exists|i: int| 0 <= i < self.ids@.len() && (#[trigger] self.ids@[i])@ == k)
    }
}

impl IdSet {
    pub fn new() -> (r: IdSet)
        ensures
            r@ == Set::<Seq<u8>>::empty(),
    {
        let r = IdSet { ids: Vec::new() };
        assert(r@ =~= Set::<Seq<u8>>::empty());
        r
    }

    pub fn contains(&self, id: hash::Hash) -> (r: bool)
        ensures
            r == self@.contains(id@),
    {
        let mut i: usize = 0;
        while i < self.ids.len()
            invariant
                i <= self.ids@.len(),
                forall|k: int| 0 <= k < i ==> (#[trigger] self.ids@[k])@ != id@,
            decreases self.ids@.len() - i,
        {
            if self.ids[i] == id {
                return true;
            }
            i += 1;
        }
        false
    }

    pub fn insert(&mut self, id: hash::Hash)
        ensures
            final(self)@ == old(self)@.insert(id@),
    {
        if !self.contains(id) {
            let ghost before = self.ids@;
            self.ids.push(id);
            proof {
                assert forall|k: Seq<u8>| self@.contains(k) <==> old(self)@.insert(id@).contains(k) by {
                    if old(self)@.contains(k) {
                        let m = choose|m: int| 0 <= m < before.len() && (#[trigger] before[m])@ == k;
                        assert(self.ids@[m]@ == k);
                    }
                    if k == id@ {
                        assert(self.ids@[before.len() as int]@ == k);
                    }
                    if self@.contains(k) && k != id@ {
                        let m = choose|m: int| 0 <= m < self.ids@.len() && (#[trigger] self.ids@[m])@ == k;
                        assert(before[m]@ == k);
                    }
                }
                assert(self@ =~= old(self)@.insert(id@));
            }
        } else {
            assert(self@ =~= old(self)@.insert(id@));
        }
    }
}

/// The parents of a commit from the `i`-th on, reading at most `fuel` of them; `None`
/// when a header is malformed.
pub open spec fn parents_from(c: Seq<u8>, i: nat, fuel: nat) -> Option<Seq<Seq<u8>>>
    decreases fuel,
{
    if fuel == 0 {
        Some(Seq::empty())
    } else {
        match crate::commit::commit_field(c, CommitField::Parent(i as usize)) {
            Err(_) => None,
            Ok(None) => Some(Seq::empty()),
            Ok(Some(x)) => if hash::is_hex_id(x) {
                match parents_from(c, i + 1, (fuel - 1) as nat) {
                    None => None,
                    Some(rest) => Some(seq![hash::parse_hex_id(x)] + rest),
                }
            } else {
                None
            },
        }
    }
}

/// The identifiers that an object names: a commit's parents (at most one per byte of
/// content) and tree, a tree's entries; `None` when the object is malformed.
pub open spec fn links_of(t: ObjectType, c: Seq<u8>) -> Option<Seq<Seq<u8>>> {
    match t {
        ObjectType::Commit => match parents_from(c, 0, c.len()) {
            None => None,
            Some(ps) => match crate::commit::commit_field(c, CommitField::Tree) {
                Ok(Some(x)) => if hash::is_hex_id(x) {
                    Some(ps.push(hash::parse_hex_id(x)))
                } else {
                    None
                },
                _ => None,
            },
        },
        ObjectType::Tree => match crate::tree::parse_tree(c) {
            None => None,
            Some(es) => Some(es.map_values(|e: crate::tree::TreeEntry| e.hash)),
        },
        _ => Some(Seq::empty()),
    }
}

/// The identifiers that an object names (see `links_of`).
fn object_links(t: ObjectType, content: &[u8]) -> (r: Result<Vec<hash::Hash>, Error>)
    ensures
        match links_of(t, content@) {
            None => r.is_err(),
            Some(ls) => r.is_ok() && r.unwrap()@.map_values(|h: hash::Hash| h@) == ls,
        },
{
    let mut links: Vec<hash::Hash> = Vec::new();
    match t {
        ObjectType::Commit => {
            let mut parents = CommitParentsIter::new(content);
            let mut k: usize = 0;
            let ghost c = content@;
            while k < content.len()
                invariant
                    t == ObjectType::Commit,
                    k <= c.len(),
                    c == content@,
                    parents.content() == c,
                    parents.index() == k,
                    parents_from(c, 0, c.len()) == match parents_from(c, k as nat, (c.len() - k) as nat) {
                        None => None,
                        Some(rest) => Some(links@.map_values(|h: hash::Hash| h@) + rest),
                    },
                ensures
                    parents_from(c, 0, c.len()) == Some(links@.map_values(|h: hash::Hash| h@)),
                decreases c.len() - k,
            {
                let ghost before = links@;
                let ghost pf = parents_from(c, k as nat, (c.len() - k) as nat);
                assert(pf == match crate::commit::commit_field(c, CommitField::Parent(k)) {
                    Err(_) => None,
                    Ok(None) => Some(Seq::<Seq<u8>>::empty()),
                    Ok(Some(x)) => if hash::is_hex_id(x) {
                        match parents_from(c, (k + 1) as nat, (c.len() - k - 1) as nat) {
                            None => None,
                            Some(rest) => Some(seq![hash::parse_hex_id(x)] + rest),
                        }
                    } else {
                        None
                    },
                });
                match parents.next() {
                    Err(e) => {
                        assert(pf.is_none());
                        assert(parents_from(c, 0, c.len()).is_none());
                        assert(links_of(t, content@).is_none());
                        return Err(e);
                    },
                    Ok(None) => {
                        proof {
                            assert(parents_from(c, k as nat, (c.len() - k) as nat) == Some(Seq::<Seq<u8>>::empty()));
                            assert(links@.map_values(|h: hash::Hash| h@) + Seq::<Seq<u8>>::empty() =~= links@.map_values(|h: hash::Hash| h@));
                            assert(parents_from(c, c.len(), 0) == Some(Seq::<Seq<u8>>::empty()));
                        }
                        break;
                    },
                    Ok(Some(p)) => {
                        links.push(p);
                        proof {
                            assert(links@.map_values(|h: hash::Hash| h@) =~= before.map_values(|h: hash::Hash| h@).push(p@));
                            match parents_from(c, (k + 1) as nat, (c.len() - k - 1) as nat) {
                                None => {},
                                Some(rest) => {
                                    assert(links@.map_values(|h: hash::Hash| h@) + rest =~= before.map_values(
                                        |h: hash::Hash| h@,
                                    ) + (seq![p@] + rest));
                                },
                            }
                        }
                    },
                }
                k += 1;
                proof {
                    if k == c.len() {
                        assert(parents_from(c, k as nat, 0) == Some(Seq::<Seq<u8>>::empty()));
                        assert(links@.map_values(|h: hash::Hash| h@) + Seq::<Seq<u8>>::empty() =~= links@.map_values(|h: hash::Hash| h@));
                    }
                }
            }
            let ghost ps = links@.map_values(|h: hash::Hash| h@);
            assert(parents_from(c, 0, c.len()) == Some(ps));
            match get_commit_field_hash(content, CommitField::Tree) {
                Err(e) => return Err(e),
                Ok(None) => return Err(Error::InvalidObject),
                Ok(Some(t)) => {
                    links.push(t);
                    assert(links@.map_values(|h: hash::Hash| h@) =~= ps.push(t@));
                },
            }
        },
        ObjectType::Tree => {
            let entries = match read_tree(content) {
                Ok(v) => v,
                Err(e) => return Err(e),
            };
            let ghost es = crate::tree::entries_view(entries@);
            let mut k: usize = 0;
            while k < entries.len()
                invariant
                    k <= entries@.len(),
                    es == crate::tree::entries_view(entries@),
                    links@.map_values(|h: hash::Hash| h@) == es.subrange(0, k as int).map_values(
                        |e: crate::tree::TreeEntry| e.hash,
                    ),
                decreases entries@.len() - k,
            {
                assert(es[k as int].hash == entries@[k as int].1@);
                let ghost bv = links@;
                links.push(entries[k].1);
                assert(links@.map_values(|h: hash::Hash| h@) =~= bv.map_values(|h: hash::Hash| h@).push(es[k as int].hash));
                assert(es.subrange(0, k + 1).map_values(|e: crate::tree::TreeEntry| e.hash) =~= es.subrange(0, k as int).map_values(
                    |e: crate::tree::TreeEntry| e.hash,
                ).push(es[k as int].hash));
                assert(links@.map_values(|h: hash::Hash| h@) =~= es.subrange(0, k + 1).map_values(
                    |e: crate::tree::TreeEntry| e.hash,
                ));
                k += 1;
            }
            assert(es.subrange(0, es.len() as int) =~= es);
        },
        _ => {
            assert(links@.map_values(|h: hash::Hash| h@) =~= Seq::<Seq<u8>>::empty());
        },
    }
    Ok(links)
}

/// Every stored object's links can be read.
pub open spec fn links_readable(objs: Map<Seq<u8>, ObjectView>) -> bool {
    forall|k: Seq<u8>| #[trigger] objs.contains_key(k) ==> links_of(objs[k].obj_type, objs[k].content).is_some()
}

/// The identifiers of a sequence of hashes.
pub open spec fn ids_of(hs: Seq<hash::Hash>) -> Seq<Seq<u8>> {
    hs.map_values(|h: hash::Hash| h@)
}

/// Whether `x` is on the stack.
pub open spec fn in_stack(stack: Seq<hash::Hash>, x: Seq<u8>) -> bool {
    exists|i: int| 0 <= i < stack.len() && (#[trigger] stack[i])@ == x
}

/// `x` is skipped, still to be visited, or not stored.
pub open spec fn settled(objs: Map<Seq<u8>, ObjectView>, skip: Set<Seq<u8>>, stack: Seq<hash::Hash>, x: Seq<u8>) -> bool {
    skip.contains(x) || in_stack(stack, x) || !objs.contains_key(x)
}

/// `x` is among the identifiers that object `p` names.
pub open spec fn links_contains(objs: Map<Seq<u8>, ObjectView>, p: Seq<u8>, x: Seq<u8>) -> bool {
    links_of(objs[p].obj_type, objs[p].content) matches Some(ls) && ls.contains(x)
}

/// `path` is a chain of stored objects outside `skip`, each named by the one before.
pub open spec fn link_path(objs: Map<Seq<u8>, ObjectView>, skip: Set<Seq<u8>>, path: Seq<Seq<u8>>) -> bool {
    &&& path.len() > 0
    &&& forall|i: int| 0 <= i < path.len() ==> objs.contains_key(#[trigger] path[i]) && !skip.contains(path[i])
    &&& forall|i: int| 0 <= i < path.len() - 1 ==> links_contains(objs, #[trigger] path[i], path[i + 1])
}

/// `x` is reached from `from` through stored objects outside `skip`.
pub open spec fn reachable(objs: Map<Seq<u8>, ObjectView>, skip: Set<Seq<u8>>, from: Seq<u8>, x: Seq<u8>) -> bool {
    exists|path: Seq<Seq<u8>>| #[trigger] link_path(objs, skip, path) && path[0] == from && path.last() == x
}

proof fn lemma_reach_step(
    objs: Map<Seq<u8>, ObjectView>,
    skip: Set<Seq<u8>>,
    start: Seq<u8>,
    h: Seq<u8>,
    out: Seq<hash::Hash>,
    base: int,
)
    requires
        objs.contains_key(h),
        !skip.contains(h),
        forall|k: int| base <= k < out.len() ==> reachable(objs, skip, start, (#[trigger] out[k])@),
        h == start || exists|k: int| base <= k < out.len() && links_contains(objs, (#[trigger] out[k])@, h),
    ensures
        reachable(objs, skip, start, h),
{
    if h == start {
        let path = seq![h];
        assert(link_path(objs, skip, path));
    } else {
        let k = choose|k: int| base <= k < out.len() && links_contains(objs, (#[trigger] out[k])@, h);
        assert(reachable(objs, skip, start, out[k]@));
        let p = choose|p: Seq<Seq<u8>>| #[trigger] link_path(objs, skip, p) && p[0] == start && p.last() == out[k]@;
        let path = p.push(h);
        assert forall|i: int| 0 <= i < path.len() - 1 implies links_contains(objs, #[trigger] path[i], path[i + 1]) by {
            if i < p.len() - 1 {
                assert(path[i] == p[i] && path[i + 1] == p[i + 1]);
            }
        }
        assert(link_path(objs, skip, path));
    }
}

/// A path avoiding a set also avoids every smaller set.
pub proof fn lemma_reachable_mono(
    objs: Map<Seq<u8>, ObjectView>,
    small: Set<Seq<u8>>,
    big: Set<Seq<u8>>,
    from: Seq<u8>,
    x: Seq<u8>,
)
    requires
        small <= big,
        reachable(objs, big, from, x),
    ensures
        reachable(objs, small, from, x),
{
    let path = choose|path: Seq<Seq<u8>>| #[trigger] link_path(objs, big, path) && path[0] == from && path.last() == x;
    assert(link_path(objs, small, path));
}

/// What a finished walk from `start` leaves: `added` lists, once each, the objects it
/// visited, all stored and none skipped before; the skip set grew by exactly those; the
/// start and every stored link of each visited object is now skipped or was never
/// stored, so everything stored and reachable without crossing the old skip set was
/// visited.
pub open spec fn walk_done(
    objs: Map<Seq<u8>, ObjectView>,
    skip_before: Set<Seq<u8>>,
    skip_after: Set<Seq<u8>>,
    added: Seq<Seq<u8>>,
    start: Seq<u8>,
) -> bool {
    &&& added.no_duplicates()
    &&& forall|k: int| 0 <= k < added.len() ==> objs.contains_key(#[trigger] added[k]) && !skip_before.contains(added[k])
    &&& forall|k: int| 0 <= k < added.len() ==> reachable(objs, skip_before, start, #[trigger] added[k])
    &&& skip_after == skip_before + added.to_set()
    &&& skip_after.contains(start) || !objs.contains_key(start)
    &&& forall|k: int|
        0 <= k < added.len() ==> (links_of(objs[#[trigger] added[k]].obj_type, objs[added[k]].content) matches Some(ls)
            && forall|j: int| 0 <= j < ls.len() ==> skip_after.contains(#[trigger] ls[j]) || !objs.contains_key(ls[j]))
}

/// What the walks from the first `i` heads have gathered: `ids`, once each, stored,
/// reachable from one of those heads without crossing `skip`, closed under stored links
/// up to the skip set `now`, which is `skip` and `ids`.
pub open spec fn pack_inv(
    objs: Map<Seq<u8>, ObjectView>,
    skip: Set<Seq<u8>>,
    heads: Seq<(&str, hash::Hash)>,
    i: int,
    ids: Seq<Seq<u8>>,
    now: Set<Seq<u8>>,
) -> bool {
    &&& now == skip + ids.to_set()
    &&& ids.no_duplicates()
    &&& forall|k: int| 0 <= k < ids.len() ==> objs.contains_key(#[trigger] ids[k]) && !skip.contains(ids[k])
    &&& forall|k: int|
        0 <= k < ids.len() ==> exists|h: int| 0 <= h < i && reachable(objs, skip, heads[h].1@, #[trigger] ids[k])
    &&& forall|h: int| 0 <= h < i ==> now.contains((#[trigger] heads[h]).1@) || !objs.contains_key(heads[h].1@)
    &&& forall|k: int|
        0 <= k < ids.len() ==> (links_of(objs[#[trigger] ids[k]].obj_type, objs[ids[k]].content) matches Some(ls)
            && forall|j: int| 0 <= j < ls.len() ==> now.contains(#[trigger] ls[j]) || !objs.contains_key(ls[j]))
}

proof fn lemma_pack_step(
    objs: Map<Seq<u8>, ObjectView>,
    skip0: Set<Seq<u8>>,
    heads: Seq<(&str, hash::Hash)>,
    i: int,
    ids0: Seq<Seq<u8>>,
    added: Seq<Seq<u8>>,
    skip_mid: Set<Seq<u8>>,
    skip_new: Set<Seq<u8>>,
)
    requires
        0 <= i < heads.len(),
        pack_inv(objs, skip0, heads, i, ids0, skip_mid),
        walk_done(objs, skip_mid, skip_new, added, heads[i].1@),
    ensures
        pack_inv(objs, skip0, heads, i + 1, ids0 + added, skip_new),
{
    let all = ids0 + added;
    assert forall|a: int, b: int| 0 <= a < all.len() && 0 <= b < all.len() && a != b implies all[a] != all[b] by {
        if a < ids0.len() && b < ids0.len() {
        } else if a >= ids0.len() && b >= ids0.len() {
            assert(added[a - ids0.len()] == all[a] && added[b - ids0.len()] == all[b]);
        } else if a < ids0.len() {
            assert(skip_mid.contains(ids0[a]));
            assert(!skip_mid.contains(added[b - ids0.len()]));
        } else {
            assert(skip_mid.contains(ids0[b]));
            assert(!skip_mid.contains(added[a - ids0.len()]));
        }
    }
    assert forall|k: int| 0 <= k < all.len() implies objs.contains_key(#[trigger] all[k]) && !skip0.contains(all[k]) by {
        if k >= ids0.len() {
            assert(all[k] == added[k - ids0.len()]);
            assert(!skip_mid.contains(added[k - ids0.len()]));
        }
    }
    assert forall|k: int| 0 <= k < all.len() implies exists|h: int|
        0 <= h < i + 1 && reachable(objs, skip0, heads[h].1@, #[trigger] all[k]) by {
        if k >= ids0.len() {
            assert(all[k] == added[k - ids0.len()]);
            assert(reachable(objs, skip_mid, heads[i].1@, all[k]));
            lemma_reachable_mono(objs, skip0, skip_mid, heads[i].1@, all[k]);
        } else {
            assert(all[k] == ids0[k]);
            let h = choose|h: int| 0 <= h < i && reachable(objs, skip0, heads[h].1@, ids0[k]);
        }
    }
    assert forall|x: Seq<u8>| skip_new.contains(x) <==> (skip0 + all.to_set()).contains(x) by {
        if added.to_set().contains(x) {
            let k = choose|k: int| 0 <= k < added.len() && added[k] == x;
            assert(all[ids0.len() + k] == x);
        }
        if ids0.to_set().contains(x) {
            let k = choose|k: int| 0 <= k < ids0.len() && ids0[k] == x;
            assert(all[k] == x);
        }
        if all.to_set().contains(x) {
            let k = choose|k: int| 0 <= k < all.len() && all[k] == x;
            if k < ids0.len() {
                assert(ids0[k] == x);
            } else {
                assert(added[k - ids0.len()] == x);
            }
        }
    }
    assert(skip_new =~= skip0 + all.to_set());
    assert forall|k: int|
        0 <= k < all.len() implies (links_of(objs[#[trigger] all[k]].obj_type, objs[all[k]].content) matches Some(ls)
            && forall|j: int| 0 <= j < ls.len() ==> skip_new.contains(#[trigger] ls[j]) || !objs.contains_key(ls[j])) by {
        if k >= ids0.len() {
            assert(all[k] == added[k - ids0.len()]);
        } else {
            assert(all[k] == ids0[k]);
        }
    }
}

/// `ids` lists, once each, the stored objects reachable from the heads without crossing
/// `skip`: none is in `skip`, each head is among them, in `skip` or not stored, and every
/// stored link of each is among them or in `skip`.
pub open spec fn pack_walk(
    objs: Map<Seq<u8>, ObjectView>,
    skip: Set<Seq<u8>>,
    heads: Seq<(&str, hash::Hash)>,
    ids: Seq<Seq<u8>>,
) -> bool {
    &&& ids.no_duplicates()
    &&& forall|k: int| 0 <= k < ids.len() ==> objs.contains_key(#[trigger] ids[k]) && !skip.contains(ids[k])
    &&& forall|k: int|
        0 <= k < ids.len() ==> exists|h: int| 0 <= h < heads.len() && reachable(objs, skip, heads[h].1@, #[trigger] ids[k])
    &&& forall|h: int| 0 <= h < heads.len() ==> (skip + ids.to_set()).contains((#[trigger] heads[h]).1@)
        || !objs.contains_key(heads[h].1@)
    &&& forall|k: int|
        0 <= k < ids.len() ==> (links_of(objs[#[trigger] ids[k]].obj_type, objs[ids[k]].content) matches Some(ls)
            && forall|j: int| 0 <= j < ls.len() ==> (skip + ids.to_set()).contains(#[trigger] ls[j]) || !objs.contains_key(ls[j]))
}

/// The records of the objects named by `ids`, in order, for objects of the main store.
pub open spec fn records_of(objs: Map<Seq<u8>, ObjectView>, ids: Seq<Seq<u8>>) -> Seq<u8>
    decreases ids.len(),
{
    if ids.len() == 0 {
        Seq::empty()
    } else {
        records_of(objs, ids.drop_last()) + {
            let o = objs[ids.last()];
            crate::packfile::record_bytes(
                match o.obj_type {
                    ObjectType::Commit => 1u8,
                    ObjectType::Tree => 2u8,
                    ObjectType::Blob => 3u8,
                    ObjectType::Tag => 4u8,
                },
                o.content,
                None,
            )
        }
    }
}

impl Repository {
    /// Walks the objects reachable from `start` through parents, trees and their
    /// entries, skipping those in `to_skip` and those not stored (a shallow history
    /// stops there). Each object reached is added to `to_skip` and to `out`, once.
    #[verifier::rlimit(100)]
    pub fn collect_objects(&self, start: hash::Hash, to_skip: &mut IdSet, out: &mut Vec<hash::Hash>) -> (r: Result<
        (),
        Error,
    >)
        requires
            self.wf(),
            forall|k: int| 0 <= k < old(out)@.len() ==> self.objects().contains_key(#[trigger] old(out)@[k]@),
        ensures
            old(to_skip)@ <= final(to_skip)@,
            forall|k: int| 0 <= k < final(out)@.len() ==> self.objects().contains_key(#[trigger] final(out)@[k]@),
            forall|k: int| old(out)@.len() <= k < final(out)@.len() ==> !old(to_skip)@.contains(#[trigger] final(out)@[k]@),
            old(out)@.len() <= final(out)@.len(),
            final(out)@.subrange(0, old(out)@.len() as int) == old(out)@,
            links_readable(self.objects()) ==> r.is_ok(),
            r.is_ok() ==> walk_done(
                self.objects(),
                old(to_skip)@,
                final(to_skip)@,
                ids_of(final(out)@.subrange(old(out)@.len() as int, final(out)@.len() as int)),
                start@,
            ),
    {
        let mut stack: Vec<hash::Hash> = vec![start];
        let ghost dom = self.objects().dom();
        let ghost objs = self.objects();
        let ghost base = old(out)@.len() as int;
        proof {
            self.lemma_objects_finite();
            assert(stack@[0]@ == start@);
        }
        loop
            invariant
                self.wf(),
                objs == self.objects(),
                dom == objs.dom(),
                dom.finite(),
                base == old(out)@.len(),
                old(to_skip)@ <= to_skip@,
                forall|k: int| 0 <= k < out@.len() ==> self.objects().contains_key(#[trigger] out@[k]@),
                forall|k: int| old(out)@.len() <= k < out@.len() ==> !old(to_skip)@.contains(#[trigger] out@[k]@),
                out@.subrange(0, old(out)@.len() as int) == old(out)@,
                old(out)@.len() <= out@.len(),
                forall|k: int| base <= k < out@.len() ==> to_skip@.contains(#[trigger] out@[k]@),
                forall|x: Seq<u8>| #[trigger] to_skip@.contains(x) ==> old(to_skip)@.contains(x) || exists|k: int|
                    base <= k < out@.len() && (#[trigger] out@[k])@ == x,
                forall|a: int, b: int| base <= a < b < out@.len() ==> (#[trigger] out@[a])@ != (#[trigger] out@[b])@,
                forall|k: int|
                    base <= k < out@.len() ==> (links_of(objs[(#[trigger] out@[k])@].obj_type, objs[out@[k]@].content) matches Some(
                        ls,
                    ) && forall|j: int| 0 <= j < ls.len() ==> settled(objs, to_skip@, stack@, #[trigger] ls[j])),
                settled(objs, to_skip@, stack@, start@),
                forall|k: int| base <= k < out@.len() ==> reachable(objs, old(to_skip)@, start@, (#[trigger] out@[k])@),
                forall|i: int|
                    0 <= i < stack@.len() ==> (#[trigger] stack@[i])@ == start@ || exists|k: int|
                        base <= k < out@.len() && links_contains(objs, (#[trigger] out@[k])@, stack@[i]@),
            decreases dom.difference(to_skip@).len(), stack@.len(),
        {
            let ghost stack0 = stack@;
            let ghost skip0 = to_skip@;
            let ghost out0 = out@;
            let h = match stack.pop() {
                Some(h) => h,
                None => {
                    proof {
                        let new_ids = ids_of(out@.subrange(base, out@.len() as int));
                        assert forall|k: int| 0 <= k < new_ids.len() implies #[trigger] new_ids[k] == out@[base + k]@ by {}
                        assert(stack@.len() == 0);
                        assert forall|x: Seq<u8>| settled(objs, to_skip@, stack@, x) implies to_skip@.contains(x)
                            || !objs.contains_key(x) by {
                            if in_stack(stack@, x) {
                                let i = choose|i: int| 0 <= i < stack@.len() && (#[trigger] stack@[i])@ == x;
                            }
                        }
                        assert(new_ids.no_duplicates()) by {
                            assert forall|a: int, b: int| 0 <= a < new_ids.len() && 0 <= b < new_ids.len() && a != b implies new_ids[a] != new_ids[b] by {
                                if a < b {
                                    assert(out@[base + a]@ != out@[base + b]@);
                                } else {
                                    assert(out@[base + b]@ != out@[base + a]@);
                                }
                            }
                        }
                        assert forall|k: int| 0 <= k < new_ids.len() implies objs.contains_key(#[trigger] new_ids[k])
                            && !old(to_skip)@.contains(new_ids[k]) by {
                            assert(new_ids[k] == out@[base + k]@);
                        }
                        assert forall|x: Seq<u8>| #[trigger] to_skip@.contains(x) == (old(to_skip)@ + new_ids.to_set()).contains(x) by {
                            if to_skip@.contains(x) && !old(to_skip)@.contains(x) {
                                let k = choose|k: int| base <= k < out@.len() && (#[trigger] out@[k])@ == x;
                                assert(new_ids[k - base] == x);
                            }
                            if new_ids.to_set().contains(x) {
                                let k = choose|k: int| 0 <= k < new_ids.len() && new_ids[k] == x;
                                assert(out@[base + k]@ == x);
                            }
                        }
                        assert(to_skip@ =~= old(to_skip)@ + new_ids.to_set());
                        assert forall|k: int| 0 <= k < new_ids.len() implies (links_of(objs[#[trigger] new_ids[k]].obj_type, objs[new_ids[k]].content) matches Some(ls)
                            && forall|j: int| 0 <= j < ls.len() ==> to_skip@.contains(#[trigger] ls[j]) || !objs.contains_key(ls[j])) by {
                            assert(new_ids[k] == out@[base + k]@);
                            let ls = links_of(objs[out@[base + k]@].obj_type, objs[out@[base + k]@].content).unwrap();
                            assert forall|j: int| 0 <= j < ls.len() implies to_skip@.contains(#[trigger] ls[j]) || !objs.contains_key(ls[j]) by {
                                assert(settled(objs, to_skip@, stack@, ls[j]));
                            }
                        }
                        assert(settled(objs, to_skip@, stack@, start@));
                    }
                    return Ok(());
                },
            };
            proof {
                assert(stack0 == stack@.push(h));
                assert forall|x: Seq<u8>| settled(objs, skip0, stack0, x) && x != h@ implies settled(objs, skip0, stack@, x) by {
                    if in_stack(stack0, x) {
                        let i = choose|i: int| 0 <= i < stack0.len() && (#[trigger] stack0[i])@ == x;
                        assert(i < stack@.len());
                        assert(stack@[i] == stack0[i]);
                    }
                }
                assert forall|i: int| 0 <= i < stack@.len() implies (#[trigger] stack@[i])@ == start@ || exists|k: int|
                    base <= k < out@.len() && links_contains(objs, (#[trigger] out@[k])@, stack@[i]@) by {
                    assert(stack@[i] == stack0[i]);
                }
                assert(stack0[stack0.len() - 1] == h);
            }
            if to_skip.contains(h) {
                continue;
            }
            let entry = match self.object_store().get(h) {
                Some(e) => e,
                None => continue,
            };
            proof {
                dom.lemma_set_insert_diff_decreases(to_skip@, h@);
                lemma_reach_step(objs, old(to_skip)@, start@, h@, out0, base);
            }
            let ghost before = out@;
            to_skip.insert(h);
            out.push(h);
            assert(out@.subrange(0, old(out)@.len() as int) =~= before.subrange(0, old(out)@.len() as int));
            let mut links = match object_links(entry.obj_type(), entry.content()) {
                Ok(v) => v,
                Err(e) => return Err(e),
            };
            let ghost ls = links@.map_values(|x: hash::Hash| x@);
            let ghost mid_stack = stack@;
            stack.append(&mut links);
            proof {
                assert forall|j: int| 0 <= j < ls.len() implies in_stack(stack@, #[trigger] ls[j]) by {
                    assert(stack@[mid_stack.len() + j]@ == ls[j]);
                }
                assert forall|x: Seq<u8>| in_stack(mid_stack, x) implies in_stack(stack@, x) by {
                    let i = choose|i: int| 0 <= i < mid_stack.len() && (#[trigger] mid_stack[i])@ == x;
                    assert(stack@[i] == mid_stack[i]);
                }
                assert forall|x: Seq<u8>| #[trigger] to_skip@.contains(x) implies old(to_skip)@.contains(x) || exists|k: int|
                    base <= k < out@.len() && (#[trigger] out@[k])@ == x by {
                    if x == h@ {
                        assert(out@[out@.len() - 1]@ == x);
                    } else {
                        assert(skip0.contains(x));
                        if !old(to_skip)@.contains(x) {
                            let k = choose|k: int| base <= k < out0.len() && (#[trigger] out0[k])@ == x;
                            assert(out@[k] == out0[k]);
                        }
                    }
                }
                assert forall|k: int|
                    base <= k < out@.len() implies (links_of(objs[(#[trigger] out@[k])@].obj_type, objs[out@[k]@].content) matches Some(
                        ls2,
                    ) && forall|j: int| 0 <= j < ls2.len() ==> settled(objs, to_skip@, stack@, #[trigger] ls2[j])) by {
                    if k < out@.len() - 1 {
                        assert(out@[k] == out0[k]);
                        let ls2 = links_of(objs[out0[k]@].obj_type, objs[out0[k]@].content).unwrap();
                        assert forall|j: int| 0 <= j < ls2.len() implies settled(objs, to_skip@, stack@, #[trigger] ls2[j]) by {
                            assert(settled(objs, skip0, stack0, ls2[j]));
                        }
                    } else {
                        assert(out@[k] == h);
                    }
                }
                assert(settled(objs, skip0, stack0, start@));
                assert forall|k: int| base <= k < out@.len() implies reachable(objs, old(to_skip)@, start@, (#[trigger] out@[k])@) by {
                    if k < out@.len() - 1 {
                        assert(out@[k] == out0[k]);
                    }
                }
                assert(ls == links_of(objs[h@].obj_type, objs[h@].content).unwrap());
                assert forall|i: int| 0 <= i < stack@.len() implies (#[trigger] stack@[i])@ == start@ || exists|k: int|
                    base <= k < out@.len() && links_contains(objs, (#[trigger] out@[k])@, stack@[i]@) by {
                    if i < mid_stack.len() {
                        assert(stack@[i] == mid_stack[i]);
                        if stack@[i]@ != start@ {
                            let k = choose|k: int| base <= k < out0.len() && links_contains(objs, (#[trigger] out0[k])@, mid_stack[i]@);
                            assert(out@[k] == out0[k]);
                        }
                    } else {
                        let j = i - mid_stack.len();
                        assert(stack@[i]@ == ls[j]);
                        assert(ls.contains(ls[j]));
                        assert(out@[out@.len() - 1] == h);
                        assert(links_contains(objs, out@[out@.len() - 1]@, stack@[i]@));
                    }
                }
            }
        }
    }

    /// Appends the records of the objects named by `ids`, as raw objects.
    pub fn write_records(&self, ids: &Vec<hash::Hash>, dst: &mut Vec<u8>)
        requires
            self.wf(),
            forall|k: int| 0 <= k < ids@.len() ==> self.objects().contains_key(#[trigger] ids@[k]@),
        ensures
            final(dst)@ == old(dst)@ + records_of(self.objects(), ids@.map_values(|h: hash::Hash| h@)),
    {
        let ghost start = dst@;
        let mut i: usize = 0;
        while i < ids.len()
            invariant
                self.wf(),
                i <= ids@.len(),
                forall|k: int| 0 <= k < ids@.len() ==> self.objects().contains_key(#[trigger] ids@[k]@),
                dst@ == start + records_of(self.objects(), ids@.subrange(0, i as int).map_values(|h: hash::Hash| h@)),
            decreases ids@.len() - i,
        {
            let entry = match self.object_store().get(ids[i]) {
                Some(e) => e,
                None => {
                    assert(self.objects().contains_key(ids@[i as int]@));
                    return;
                },
            };
            let bytes = copy_range(entry.content(), 0, entry.content().len());
            assert(bytes@ =~= entry@.content);
            let object = match entry.obj_type() {
                ObjectType::Commit => PackfileObject::Commit(bytes),
                ObjectType::Tree => PackfileObject::Tree(bytes),
                ObjectType::Blob => PackfileObject::Blob(bytes),
                ObjectType::Tag => PackfileObject::Tag(bytes),
            };
            dump_packfile_object(&object, dst);
            proof {
                let s1 = ids@.subrange(0, i + 1).map_values(|h: hash::Hash| h@);
                assert(s1.drop_last() =~= ids@.subrange(0, i as int).map_values(|h: hash::Hash| h@));
                assert(s1.last() == ids@[i as int]@);
            }
            i += 1;
        }
        assert(ids@.subrange(0, ids@.len() as int) =~= ids@);
    }

    /// A packfile of every stored object reachable from `heads_to_include` without
    /// crossing the identifiers in `to_skip`, each once, with its SHA-1 trailer.
    /// `InvalidObject` (or the parse error) when an object reached cannot be read;
    /// `InvalidPackfile` when there are more than 2^32 - 1 objects.
    #[verifier::rlimit(100)]
    pub fn pack(&self, to_skip: IdSet, heads_to_include: &[(&str, hash::Hash)]) -> (r: Result<
        Vec<u8>,
        Error,
    >)
        requires
            self.wf(),
        ensures
            links_readable(self.objects()) && self.objects().dom().len() <= u32::MAX ==> r.is_ok(),
            r.is_ok() ==> exists|ids: Seq<Seq<u8>>|
                #[trigger] pack_walk(self.objects(), to_skip@, heads_to_include@, ids) && r.unwrap()@
                    == packfile_bytes(records_of(self.objects(), ids), ids.len()),
    {
        let ghost skip0 = to_skip@;
        let ghost objs = self.objects();
        let mut to_skip = to_skip;
        let mut ids: Vec<hash::Hash> = Vec::new();
        let mut i: usize = 0;
        proof {
            self.lemma_objects_finite();
            assert(to_skip@ =~= skip0 + ids_of(ids@).to_set());
            assert(ids_of(ids@) =~= Seq::<Seq<u8>>::empty());
        }
        while i < heads_to_include.len()
            invariant
                self.wf(),
                objs == self.objects(),
                objs.dom().finite(),
                i <= heads_to_include@.len(),
                pack_inv(objs, skip0, heads_to_include@, i as int, ids_of(ids@), to_skip@),
            decreases heads_to_include@.len() - i,
        {
            let ghost ids0 = ids@;
            let ghost skip_mid = to_skip@;
            proof {
                assert forall|k: int| 0 <= k < ids@.len() implies self.objects().contains_key(#[trigger] ids@[k]@) by {
                    assert(ids_of(ids@)[k] == ids@[k]@);
                }
            }
            match self.collect_objects(heads_to_include[i].1, &mut to_skip, &mut ids) {
                Err(e) => return Err(e),
                Ok(()) => {},
            }
            proof {
                let added = ids_of(ids@.subrange(ids0.len() as int, ids@.len() as int));
                assert(ids@ =~= ids0 + ids@.subrange(ids0.len() as int, ids@.len() as int));
                assert(ids_of(ids@) =~= ids_of(ids0) + added);
                lemma_pack_step(objs, skip0, heads_to_include@, i as int, ids_of(ids0), added, skip_mid, to_skip@);
            }
            i += 1;
        }
        proof {
            assert forall|k: int| 0 <= k < ids@.len() implies self.objects().contains_key(#[trigger] ids@[k]@) by {
                assert(ids_of(ids@)[k] == ids@[k]@);
            }
        }
        if ids.len() > 0xffff_ffff {
            proof {
                assert(ids_of(ids@).len() == ids@.len());
                ids_of(ids@).unique_seq_to_set();
                assert(ids_of(ids@).to_set().subset_of(objs.dom()));
                vstd::set_lib::lemma_len_subset(ids_of(ids@).to_set(), objs.dom());
            }
            return Err(Error::InvalidPackfile);
        }
        let mut out: Vec<u8> = Vec::new();
        dump_packfile_header(ids.len(), &mut out);
        self.write_records(&ids, &mut out);
        let ghost body = out@.subrange(12, out@.len() as int);
        assert(out@ =~= pack_header(ids@.len() as nat) + body);
        assert(body =~= records_of(objs, ids_of(ids@)));
        let checksum = hash::sha1_digest(out.as_slice());
        append_bytes(&mut out, checksum.as_slice());
        assert(out@ =~= packfile_bytes(body, ids@.len() as nat));
        assert(pack_walk(objs, skip0, heads_to_include@, ids_of(ids@)));
        Ok(out)
    }

    /// Records that the remote's tip is now the head, once a push went through.
    pub fn complete_push(&mut self)
        requires
            old(self).wf(),
        ensures
            final(self).wf(),
            final(self).upstream_head() == final(self).head(),
            final(self).head() == old(self).head(),
            final(self).root() == old(self).root(),
            final(self).objects() == old(self).objects(),
            final(self).scratch() == old(self).scratch(),
    {
        self.set_upstream_to_head();
    }
}

/// A branch to update on the remote.
pub struct PushTarget {
    pub name: Vec<u8>,
    pub new_hash: hash::Hash,
    pub old_hash: hash::Hash,
}

/// The decisions of a push, fed with what the remote sends.
pub struct PushPlan {
    targets: Vec<PushTarget>,
    thin_pack: bool,
    report_status: bool,
}

/// `" refs/heads/"`.
pub open spec fn heads_marker() -> Seq<u8> {
    seq![32u8, 114, 101, 102, 115, 47, 104, 101, 97, 100, 115, 47]
}

/// Whether `s` starts with `p`.
pub open spec fn starts_with(s: Seq<u8>, p: Seq<u8>) -> bool {
    s.len() >= p.len() && s.subrange(0, p.len() as int) == p
}

fn starts_with_exec(s: &[u8], p: &[u8]) -> (r: bool)
    ensures
        r == starts_with(s@, p@),
{
    if s.len() < p.len() {
        return false;
    }
    hash::bytes_equal(&s[0..p.len()], p)
}

/// The position of the first occurrence of `p` in `s`, or -1.
pub open spec fn find_seq(s: Seq<u8>, p: Seq<u8>) -> int
    decreases s.len(),
{
    if starts_with(s, p) {
        0
    } else if s.len() == 0 {
        -1
    } else {
        let r = find_seq(s.drop_first(), p);
        if r < 0 {
            -1
        } else {
            r + 1
        }
    }
}

proof fn lemma_find_seq(s: Seq<u8>, p: Seq<u8>, i: int)
    requires
        0 <= i <= s.len(),
        forall|j: int| 0 <= j < i ==> !starts_with(#[trigger] s.subrange(j, s.len() as int), p),
    ensures
        starts_with(s.subrange(i, s.len() as int), p) ==> find_seq(s, p) == i,
        i == s.len() && !starts_with(s.subrange(i, s.len() as int), p) ==> find_seq(s, p) == -1,
    decreases i,
{
    assert(s.subrange(0, s.len() as int) =~= s);
    if i > 0 {
        assert forall|j: int| 0 <= j < i - 1 implies !starts_with(
            #[trigger] s.drop_first().subrange(j, s.drop_first().len() as int),
            p,
        ) by {
            assert(s.drop_first().subrange(j, s.drop_first().len() as int) =~= s.subrange(
                j + 1,
                s.len() as int,
            ));
        }
        assert(s.drop_first().subrange(i - 1, s.drop_first().len() as int) =~= s.subrange(
            i,
            s.len() as int,
        ));
        lemma_find_seq(s.drop_first(), p, i - 1);
    } else if s.len() == 0 {
        assert(s.subrange(0, 0) =~= s);
    }
}

fn find_seq_exec(s: &[u8], p: &[u8]) -> (r: Option<usize>)
    ensures
        find_seq(s@, p@) == match r {
            Some(i) => i as int,
            None => -1,
        },
        r matches Some(i) ==> i + p@.len() <= s@.len(),
{
    let mut i: usize = 0;
    loop
        invariant
            i <= s@.len(),
            forall|j: int| 0 <= j < i ==> !starts_with(#[trigger] s@.subrange(j, s@.len() as int), p@),
        decreases s@.len() - i,
    {
        let t = &s[i..s.len()];
        if starts_with_exec(t, p) {
            proof {
                lemma_find_seq(s@, p@, i as int);
            }
            return Some(i);
        }
        if i == s.len() {
            proof {
                lemma_find_seq(s@, p@, i as int);
            }
            return None;
        }
        i += 1;
    }
}

/// Whether the space-separated list `caps` holds `word`.
pub open spec fn has_word(caps: Seq<u8>, word: Seq<u8>) -> bool
    decreases caps.len(),
{
    let sp = crate::tree::find_byte(caps, 32u8);
    if sp < 0 || sp >= caps.len() {
        caps == word
    } else {
        caps.subrange(0, sp) == word || has_word(caps.subrange(sp + 1, caps.len() as int), word)
    }
}

/// Tests whether the space-separated list `caps[from..]` holds `word`.
pub fn has_word_exec(caps: &[u8], word: &[u8]) -> (r: bool)
    ensures
        r == has_word(caps@, word@),
{
    let len = caps.len();
    let mut from: usize = 0;
    assert(caps@.subrange(0, len as int) =~= caps@);
    loop
        invariant
            from <= len,
            len == caps@.len(),
            has_word(caps@, word@) == has_word(caps@.subrange(from as int, len as int), word@),
        decreases len - from,
    {
        let ghost t = caps@.subrange(from as int, len as int);
        match crate::tree::find_byte_in(caps, 32u8, from, len) {
            None => {
                return hash::bytes_equal(&caps[from..len], word);
            },
            Some(sp) => {
                assert(t.subrange(0, sp - from) =~= caps@.subrange(from as int, sp as int));
                assert(t.subrange(sp - from + 1, t.len() as int) =~= caps@.subrange(sp + 1, len as int));
                if hash::bytes_equal(&caps[from..sp], word) {
                    return true;
                }
                from = sp + 1;
            },
        }
    }
}

impl PushPlan {
    /// The branches still waiting for the remote's acknowledgement: (name, new, old).
    pub closed spec fn targets(&self) -> Seq<(Seq<u8>, Seq<u8>, Seq<u8>)> {
        self.targets@.map_values(|t: PushTarget| (t.name@, t.new_hash@, t.old_hash@))
    }

    pub closed spec fn thin(&self) -> bool {
        self.thin_pack
    }

    pub closed spec fn reports(&self) -> bool {
        self.report_status
    }

    /// A plan that updates each named branch to its identifier, with an unknown old tip.
    pub fn new(updated_heads: &[(&str, hash::Hash)]) -> (r: PushPlan)
        ensures
            r.targets().len() == updated_heads@.len(),
            forall|k: int|
                0 <= k < updated_heads@.len() ==> #[trigger] r.targets()[k] == (
                    updated_heads@[k].0.spec_bytes(),
                    updated_heads@[k].1@,
                    hash::zero_id(),
                ),
            !r.thin(),
            !r.reports(),
    {
        let mut targets: Vec<PushTarget> = Vec::new();
        let mut i: usize = 0;
        while i < updated_heads.len()
            invariant
                i <= updated_heads@.len(),
                targets@.len() == i,
                forall|k: int|
                    0 <= k < i ==> (#[trigger] targets@[k]).name@ == updated_heads@[k].0.spec_bytes()
                        && targets@[k].new_hash@ == updated_heads@[k].1@ && targets@[k].old_hash@
                        == hash::zero_id(),
            decreases updated_heads@.len() - i,
        {
            let (name, h) = updated_heads[i];
            let b = name.as_bytes();
            targets.push(PushTarget { name: copy_range(b, 0, b.len()), new_hash: h, old_hash: hash::Hash::zero() });
            i += 1;
        }
        PushPlan { targets, thin_pack: false, report_status: false }
    }

    /// Takes one advertised line `"<hash> refs/heads/<name>"`, where the first line also
    /// carries the remote's capabilities after a NUL byte. For a branch being pushed, the
    /// remote's tip becomes its old tip; that needs `force_push` or the tip being stored
    /// locally, else `MustForcePush`. Gives the tip to walk for a thin pack.
    pub fn on_advertised_ref(
        &mut self,
        repo: &Repository,
        line: &[u8],
        force_push: bool,
    ) -> (r: Result<Option<hash::Hash>, Error>)
        requires
            repo.wf(),
        ensures
            final(self).thin() == (old(self).thin() || advert_offers(line@, thin_pack_word())),
            final(self).reports() == (old(self).reports() || advert_offers(line@, report_status_word())),
            match advert_ref(line@) {
                Err(e) => r == Err::<Option<hash::Hash>, Error>(e),
                Ok(None) => r == Ok::<Option<hash::Hash>, Error>(None) && final(self).targets()
                    == old(self).targets(),
                Ok(Some((tip, name))) => if !has_target(old(self).targets(), name) {
                    r == Ok::<Option<hash::Hash>, Error>(None) && final(self).targets() == old(
                        self,
                    ).targets()
                } else if !(force_push || repo.objects().contains_key(tip)) {
                    r == Err::<Option<hash::Hash>, Error>(Error::MustForcePush)
                } else {
                    r.is_ok() && (r.unwrap().is_some() == final(self).thin()) && (r.unwrap().is_some()
                        ==> r.unwrap().unwrap()@ == tip) && final(self).targets() == with_old_tip(
                        old(self).targets(),
                        name,
                        tip,
                    )
                },
            },
    {
        let len = line.len();
        assert(line@.subrange(0, len as int) =~= line@);
        let (refs_end, caps) = match crate::tree::find_byte_in(line, 0u8, 0, len) {
            Some(z) => (z, Some(&line[z + 1..len])),
            None => (len, None),
        };
        let thin: Vec<u8> = vec![116u8, 104, 105, 110, 45, 112, 97, 99, 107];
        let report: Vec<u8> = vec![114u8, 101, 112, 111, 114, 116, 45, 115, 116, 97, 116, 117, 115];
        assert(thin@ =~= thin_pack_word());
        assert(report@ =~= report_status_word());
        if let Some(caps) = caps {
            if has_word_exec(caps, thin.as_slice()) {
                self.thin_pack = true;
            }
            if has_word_exec(caps, report.as_slice()) {
                self.report_status = true;
            }
        }
        let refs = &line[0..refs_end];
        assert(refs@ == advert_parts(line@).0);
        let marker: Vec<u8> = vec![32u8, 114, 101, 102, 115, 47, 104, 101, 97, 100, 115, 47];
        assert(marker@ =~= heads_marker());
        let m = match find_seq_exec(refs, marker.as_slice()) {
            Some(m) => m,
            None => return Ok(None),
        };
        let hex_part = &refs[0..m];
        let commit_hash = match hash::Hash::from_hex_bytes(hex_part) {
            Some(h) => h,
            None => return Err(Error::GitProtocolError),
        };
        let name = &refs[m + 12..refs_end];
        let ghost old_targets = self.targets();
        let allowed = force_push || repo.object_store().has(commit_hash);
        proof {
            assert(hex_part@ == refs@.subrange(0, m as int));
            assert(name@ == refs@.subrange(m + 12, refs@.len() as int));
            assert(advert_ref(line@) == Ok::<Option<(Seq<u8>, Seq<u8>)>, Error>(
                Some((commit_hash@, name@)),
            ));
        }
        let mut i: usize = 0;
        let mut found = false;
        while i < self.targets.len()
            invariant
                repo.wf(),
                i <= self.targets@.len(),
                self.targets@.len() == old_targets.len(),
                self.thin_pack == (old(self).thin() || advert_offers(line@, thin_pack_word())),
                self.report_status == (old(self).reports() || advert_offers(line@, report_status_word())),
                found == exists|k: int| 0 <= k < i && (#[trigger] old_targets[k]).0 == name@,
                found ==> allowed,
                allowed == (force_push || repo.objects().contains_key(commit_hash@)),
                advert_ref(line@) == Ok::<Option<(Seq<u8>, Seq<u8>)>, Error>(
                    Some((commit_hash@, name@)),
                ),
                old_targets == old(self).targets(),
                forall|k: int|
                    0 <= k < self.targets@.len() ==> #[trigger] self.targets()[k] == (if k < i
                        && old_targets[k].0 == name@ {
                        (old_targets[k].0, old_targets[k].1, commit_hash@)
                    } else {
                        old_targets[k]
                    }),
            decreases self.targets@.len() - i,
        {
            assert(self.targets()[i as int].0 == self.targets@[i as int].name@);
            let ghost at_start = self.targets();
            let ghost vec_start = self.targets@;
            if hash::bytes_equal(self.targets[i].name.as_slice(), name) {
                if !allowed {
                    proof {
                        assert(has_target(old_targets, name@));
                    }
                    return Err(Error::MustForcePush);
                }
                let ghost prev = self.targets@;
                self.targets[i].old_hash = commit_hash;
                proof {
                    assert forall|k: int| 0 <= k < self.targets@.len() && k != i implies #[trigger] self.targets@[k] == prev[k] by {}
                    assert(self.targets@[i as int].name@ == prev[i as int].name@);
                    assert(self.targets@[i as int].new_hash@ == prev[i as int].new_hash@);
                }
                found = true;
            }
            proof {
                assert forall|k: int| 0 <= k < self.targets@.len() implies #[trigger] self.targets()[k]
                    == (if k < i + 1 && old_targets[k].0 == name@ {
                    (old_targets[k].0, old_targets[k].1, commit_hash@)
                } else {
                    old_targets[k]
                }) by {
                    if k != i {
                        assert(self.targets@[k] == vec_start[k]);
                        assert(self.targets()[k] == at_start[k]);
                    } else {
                        assert(at_start[k] == old_targets[k]);
                    }
                }
            }
            i += 1;
        }
        proof {
            assert(self.targets() =~= with_old_tip(old_targets, name@, commit_hash@));
            if !found {
                assert(!has_target(old_targets, name@));
                assert(self.targets() =~= old_targets);
            }
        }
        if found && self.thin_pack {
            Ok(Some(commit_hash))
        } else {
            Ok(None)
        }
    }

    /// `UnsupportedByRemote` unless the remote advertised `report-status`.
    pub fn check_capabilities(&self) -> (r: Result<(), Error>)
        ensures
            r.is_ok() == self.reports(),
            r.is_err() ==> r == Err::<(), Error>(Error::UnsupportedByRemote),
    {
        if self.report_status {
            Ok(())
        } else {
            Err(Error::UnsupportedByRemote)
        }
    }

    /// The ref-update commands, framed, then a flush: one line
    /// `"<old> <new> refs/heads/<name>"` per branch, the first followed by a NUL and the
    /// client's capabilities, each ending with a newline. `GitProtocolError` when a line
    /// is too long for a pkt-line.
    #[verifier::rlimit(100)]
    pub fn commands(&self) -> (r: Result<Vec<u8>, Error>)
        ensures
            r.is_ok() == commands_fit(self.targets(), self.thin()),
            r.is_err() ==> r == Err::<Vec<u8>, Error>(Error::GitProtocolError),
            r.is_ok() ==> r.unwrap()@ == command_stream(self.targets(), self.thin()),
    {
        let mut out: Vec<u8> = Vec::new();
        let mut i: usize = 0;
        while i < self.targets.len()
            invariant
                i <= self.targets@.len(),
                out@ == command_stream(self.targets().subrange(0, i as int), self.thin()).subrange(
                    0,
                    out@.len() as int,
                ),
                out@ + hex4(0) == command_stream(self.targets().subrange(0, i as int), self.thin()),
                forall|k: int| 0 <= k < i ==> command_line(#[trigger] self.targets()[k], k == 0, self.thin()).len() + 4
                    <= crate::protocol::MAX_PKT_LEN,
            decreases self.targets@.len() - i,
        {
            let t = &self.targets[i];
            let mut line: Vec<u8> = Vec::new();
            t.old_hash.write_hex(&mut line);
            line.push(32u8);
            t.new_hash.write_hex(&mut line);
            let marker: Vec<u8> = vec![32u8, 114, 101, 102, 115, 47, 104, 101, 97, 100, 115, 47];
            append_bytes(&mut line, marker.as_slice());
            append_bytes(&mut line, t.name.as_slice());
            if i == 0 {
                let report: Vec<u8> = vec![0u8, 114, 101, 112, 111, 114, 116, 45, 115, 116, 97, 116, 117, 115];
                append_bytes(&mut line, report.as_slice());
                if self.thin_pack {
                    let thin: Vec<u8> = vec![32u8, 116, 104, 105, 110, 45, 112, 97, 99, 107];
                    append_bytes(&mut line, thin.as_slice());
                }
            }
            line.push(10u8);
            proof {
                let tv = self.targets()[i as int];
                assert(tv == (t.name@, t.new_hash@, t.old_hash@));
                assert(line@ =~= command_line(tv, i == 0, self.thin()));
            }
            if line.len() > crate::protocol::MAX_PKT_LEN - 4 {
                return Err(Error::GitProtocolError);
            }
            let ghost before = out@;
            crate::protocol::write_line(&mut out, &crate::protocol::PacketLine::Bytes(line.as_slice()));
            proof {
                let tv = self.targets()[i as int];
                assert(tv == (t.name@, t.new_hash@, t.old_hash@));
                assert(line@ =~= command_line(tv, i == 0, self.thin()));
                let p1 = self.targets().subrange(0, i + 1);
                assert(p1.drop_last() =~= self.targets().subrange(0, i as int));
                assert(p1.last() == tv);
                assert(out@ =~= before + crate::clone::data_line(line@));
            }
            i += 1;
        }
        crate::protocol::write_line(&mut out, &crate::protocol::PacketLine::FlushPacket);
        assert(self.targets().subrange(0, self.targets().len() as int) =~= self.targets());
        Ok(out)
    }

    /// Takes one report line after the packfile: `"ok refs/heads/<name>"` acknowledges a
    /// branch; anything else is `GitProtocolError`.
    pub fn on_report_line(&mut self, line: &[u8]) -> (r: Result<(), Error>)
        ensures
            !starts_with(line@, ok_prefix()) ==> r == Err::<(), Error>(Error::GitProtocolError)
                && final(self).targets() == old(self).targets(),
            starts_with(line@, ok_prefix()) ==> r.is_ok() && acknowledged(
                old(self).targets(),
                final(self).targets(),
                line@.subrange(14, line@.len() as int),
            ),
            final(self).thin() == old(self).thin(),
            final(self).reports() == old(self).reports(),
    {
        let prefix: Vec<u8> = vec![111u8, 107, 32, 114, 101, 102, 115, 47, 104, 101, 97, 100, 115, 47];
        assert(prefix@ =~= ok_prefix());
        if !starts_with_exec(line, prefix.as_slice()) {
            return Err(Error::GitProtocolError);
        }
        let name = &line[14..line.len()];
        let ghost old_t = self.targets();
        let mut i: usize = 0;
        while i < self.targets.len()
            invariant
                i <= self.targets@.len(),
                self.thin_pack == old(self).thin(),
                self.report_status == old(self).reports(),
                forall|k: int| 0 <= k < i ==> (#[trigger] self.targets()[k]).0 != name@,
                forall|k: int| 0 <= k < self.targets().len() ==> old_t.contains(#[trigger] self.targets()[k]),
                forall|k: int| 0 <= k < old_t.len() && (#[trigger] old_t[k]).0 != name@ ==> self.targets().contains(old_t[k]),
            decreases self.targets@.len() - i,
        {
            assert(self.targets()[i as int].0 == self.targets@[i as int].name@);
            if hash::bytes_equal(self.targets[i].name.as_slice(), name) {
                let ghost cur = self.targets();
                self.targets.remove(i);
                proof {
                    let nxt = self.targets();
                    assert forall|k: int| 0 <= k < nxt.len() implies #[trigger] nxt[k] == cur[if k < i { k } else { k + 1 }] by {}
                    assert forall|k: int| 0 <= k < old_t.len() && (#[trigger] old_t[k]).0 != name@ implies nxt.contains(old_t[k]) by {
                        let j = choose|j: int| 0 <= j < cur.len() && cur[j] == old_t[k];
                        assert(j != i);
                        let j2 = if j < i { j } else { j - 1 };
                        assert(nxt[j2] == old_t[k]);
                    }
                    assert forall|k: int| 0 <= k < nxt.len() implies old_t.contains(#[trigger] nxt[k]) by {
                        let k2 = if k < i { k } else { k + 1 };
                        assert(nxt[k] == cur[k2]);
                        assert(old_t.contains(cur[k2]));
                    }
                }
            } else {
                i += 1;
            }
        }
        Ok(())
    }

    /// `GitProtocolError` unless every branch was acknowledged.
    pub fn finish(&self) -> (r: Result<(), Error>)
        ensures
            r.is_ok() == (self.targets().len() == 0),
            r.is_err() ==> r == Err::<(), Error>(Error::GitProtocolError),
    {
        if self.targets.len() == 0 {
            Ok(())
        } else {
            Err(Error::GitProtocolError)
        }
    }
}

/// `"unpack ok"`.
pub open spec fn unpack_ok() -> Seq<u8> {
    seq![117u8, 110, 112, 97, 99, 107, 32, 111, 107]
}

/// `GitProtocolError` unless the remote's first report line is `"unpack ok"`.
pub fn check_unpack(line: Option<&[u8]>) -> (r: Result<(), Error>)
    ensures
        r.is_ok() == (line matches Some(l) && l@ == unpack_ok()),
        r.is_err() ==> r == Err::<(), Error>(Error::GitProtocolError),
{
    let expected: Vec<u8> = vec![117u8, 110, 112, 97, 99, 107, 32, 111, 107];
    assert(expected@ =~= unpack_ok());
    match line {
        Some(l) => {
            if hash::bytes_equal(l, expected.as_slice()) {
                Ok(())
            } else {
                Err(Error::GitProtocolError)
            }
        },
        None => Err(Error::GitProtocolError),
    }
}

/// The part of an advertised line before its first NUL, and what follows the NUL.
pub open spec fn advert_parts(line: Seq<u8>) -> (Seq<u8>, Option<Seq<u8>>) {
    let z = crate::tree::find_byte(line, 0u8);
    if z < 0 {
        (line, None)
    } else {
        (line.subrange(0, z), Some(line.subrange(z + 1, line.len() as int)))
    }
}

/// Whether an advertised line lists `word` among its capabilities.
pub open spec fn advert_offers(line: Seq<u8>, word: Seq<u8>) -> bool {
    match advert_parts(line).1 {
        Some(caps) => has_word(caps, word),
        None => false,
    }
}

/// `"thin-pack"`.
pub open spec fn thin_pack_word() -> Seq<u8> {
    seq![116u8, 104, 105, 110, 45, 112, 97, 99, 107]
}

/// `"report-status"`.
pub open spec fn report_status_word() -> Seq<u8> {
    seq![114u8, 101, 112, 111, 114, 116, 45, 115, 116, 97, 116, 117, 115]
}

/// The (tip, branch name) of an advertised branch line; `None` for a line that names no
/// branch, `GitProtocolError` for a malformed tip.
pub open spec fn advert_ref(line: Seq<u8>) -> Result<Option<(Seq<u8>, Seq<u8>)>, Error> {
    let refs = advert_parts(line).0;
    let m = find_seq(refs, heads_marker());
    if m < 0 {
        Ok(None)
    } else if !hash::is_hex_id(refs.subrange(0, m)) {
        Err(Error::GitProtocolError)
    } else {
        Ok(Some((hash::parse_hex_id(refs.subrange(0, m)), refs.subrange(m + 12, refs.len() as int))))
    }
}

/// Whether a branch of that name is among the targets.
pub open spec fn has_target(ts: Seq<(Seq<u8>, Seq<u8>, Seq<u8>)>, name: Seq<u8>) -> bool {
    exists|k: int| 0 <= k < ts.len() && (#[trigger] ts[k]).0 == name
}

/// The targets with `tip` as the old tip of the branch `name`.
pub open spec fn with_old_tip(
    ts: Seq<(Seq<u8>, Seq<u8>, Seq<u8>)>,
    name: Seq<u8>,
    tip: Seq<u8>,
) -> Seq<(Seq<u8>, Seq<u8>, Seq<u8>)> {
    Seq::new(
        ts.len(),
        |k: int|
            if ts[k].0 == name {
                (ts[k].0, ts[k].1, tip)
            } else {
                ts[k]
            },
    )
}

/// The ref-update line of a target: `"<old> <new> refs/heads/<name>"`, then for the first
/// line a NUL, `report-status` and, for a thin pack, ` thin-pack`; then a newline.
pub open spec fn command_line(t: (Seq<u8>, Seq<u8>, Seq<u8>), first: bool, thin: bool) -> Seq<u8> {
    hash::hex_of(t.2) + seq![32u8] + hash::hex_of(t.1) + heads_marker() + t.0 + (if first {
        seq![0u8] + report_status_word() + (if thin {
            seq![32u8] + thin_pack_word()
        } else {
            Seq::empty()
        })
    } else {
        Seq::empty()
    }) + seq![10u8]
}

/// Every ref-update line of `ts` fits in a pkt-line.
pub open spec fn commands_fit(ts: Seq<(Seq<u8>, Seq<u8>, Seq<u8>)>, thin: bool) -> bool {
    forall|k: int| 0 <= k < ts.len() ==> command_line(#[trigger] ts[k], k == 0, thin).len() + 4
        <= crate::protocol::MAX_PKT_LEN
}

/// The framed ref-update lines of `ts` and the closing flush.
pub open spec fn command_stream(ts: Seq<(Seq<u8>, Seq<u8>, Seq<u8>)>, thin: bool) -> Seq<u8>
    decreases ts.len(),
{
    if ts.len() == 0 {
        crate::protocol::hex4(0)
    } else {
        command_stream(ts.drop_last(), thin).subrange(
            0,
            command_stream(ts.drop_last(), thin).len() - 4,
        ) + crate::clone::data_line(command_line(ts.last(), ts.len() == 1, thin)) + crate::protocol::hex4(0)
    }
}

/// `"ok refs/heads/"`.
pub open spec fn ok_prefix() -> Seq<u8> {
    seq![111u8, 107, 32, 114, 101, 102, 115, 47, 104, 101, 97, 100, 115, 47]
}

/// `after` is `before` without the branch `name`: none of its targets has that name, each
/// comes from `before`, and every other target of `before` stays.
pub open spec fn acknowledged(
    before: Seq<(Seq<u8>, Seq<u8>, Seq<u8>)>,
    after: Seq<(Seq<u8>, Seq<u8>, Seq<u8>)>,
    name: Seq<u8>,
) -> bool {
    &&& forall|k: int| 0 <= k < after.len() ==> (#[trigger] after[k]).0 != name && before.contains(after[k])
    &&& forall|k: int| 0 <= k < before.len() && (#[trigger] before[k]).0 != name ==> after.contains(before[k])
}

} // verus!
