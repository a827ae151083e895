use vstd::prelude::*;

use crate::hash;
use crate::tree::{
    find_byte, find_byte_in, copy_range, entries_view, entry_bytes, parse_tree, read_tree, tree_bytes,
    Mode, TreeEntry,
};
use crate::objects::append_bytes;
use crate::Error;
use vstd::string::StringSliceAdditionalSpecFns;

verus! {

/// The non-empty components of a slash-separated path.
pub open spec fn components(s: Seq<u8>) -> Seq<Seq<u8>>
    decreases s.len(),
{
    if s.len() == 0 {
        Seq::empty()
    } else {
        let k = find_byte(s, 47u8);
        if k < 0 || k >= s.len() {
            seq![s]
        } else if k == 0 {
            components(s.subrange(1, s.len() as int))
        } else {
            seq![s.subrange(0, k)] + components(s.subrange(k + 1, s.len() as int))
        }
    }
}

proof fn lemma_find_byte_bounds(s: Seq<u8>, b: u8)
    ensures
        -1 <= find_byte(s, b) < s.len(),
        find_byte(s, b) >= 0 ==> s[find_byte(s, b)] == b,
        forall|j: int| 0 <= j < find_byte(s, b) ==> s[j] != b,
        find_byte(s, b) < 0 ==> forall|j: int| 0 <= j < s.len() ==> s[j] != b,
    decreases s.len(),
{
    if s.len() > 0 {
        lemma_find_byte_bounds(s.drop_first(), b);
        if s[0] != b {
            assert forall|j: int| 0 <= j < find_byte(s, b) implies s[j] != b by {
                if j > 0 {
                    assert(s[j] == s.drop_first()[j - 1]);
                }
            }
            if find_byte(s, b) < 0 {
                assert forall|j: int| 0 <= j < s.len() implies s[j] != b by {
                    if j > 0 {
                        assert(s[j] == s.drop_first()[j - 1]);
                    }
                }
            }
        }
    }
}

/// A slash-separated path; empty components are ignored.
pub struct Path<'a>(&'a str);

impl<'a> Path<'a> {
    /// The path's text as bytes.
    pub closed spec fn text(&self) -> Seq<u8> {
        self.0.spec_bytes()
    }

    pub fn new(string: &'a str) -> (r: Path<'a>)
        ensures
            r.text() == string.spec_bytes(),
    {
        Path(string)
    }

    /// Every component, in order.
    pub fn all(&self) -> (r: Vec<Vec<u8>>)
        ensures
            r@.map_values(|v: Vec<u8>| v@) == components(self.text()),
    {
        let s = self.0.as_bytes();
        let len = s.len();
        let mut out: Vec<Vec<u8>> = Vec::new();
        let mut i: usize = 0;
        assert(s@.subrange(0, len as int) =~= s@);
        while i < len
            invariant
                s@ == self.text(),
                len == s@.len(),
                0 <= i <= len,
                components(s@) == out@.map_values(|v: Vec<u8>| v@) + components(
                    s@.subrange(i as int, len as int),
                ),
            decreases len - i,
        {
            let ghost t = s@.subrange(i as int, len as int);
            let ghost before = out@.map_values(|v: Vec<u8>| v@);
            proof {
                lemma_find_byte_bounds(t, 47u8);
            }
            match find_byte_in(s, 47u8, i, len) {
                None => {
                    let part = copy_range(s, i, len);
                    out.push(part);
                    proof {
                        assert(part@ =~= t);
                        assert(out@.map_values(|v: Vec<u8>| v@) =~= before + seq![t]);
                        assert(s@.subrange(len as int, len as int) =~= Seq::<u8>::empty());
                    }
                    i = len;
                },
                Some(k) => {
                    if k > i {
                        let part = copy_range(s, i, k);
                        out.push(part);
                        proof {
                            assert(part@ =~= t.subrange(0, k - i));
                            assert(out@.map_values(|v: Vec<u8>| v@) =~= before + seq![
                                t.subrange(0, k - i),
                            ]);
                            assert(t.subrange(k - i + 1, t.len() as int) =~= s@.subrange(
                                k + 1,
                                len as int,
                            ));
                            assert(out@.map_values(|v: Vec<u8>| v@) + components(
                                s@.subrange(k + 1, len as int),
                            ) =~= before + components(t));
                        }
                    } else {
                        proof {
                            assert(t.subrange(1, t.len() as int) =~= s@.subrange(
                                k + 1,
                                len as int,
                            ));
                        }
                    }
                    i = k + 1;
                },
            }
        }
        proof {
            assert(components(s@.subrange(len as int, len as int)) =~= Seq::<Seq<u8>>::empty()) by {
                assert(s@.subrange(len as int, len as int).len() == 0);
            }
            assert(out@.map_values(|v: Vec<u8>| v@) + Seq::<Seq<u8>>::empty() =~= out@.map_values(
                |v: Vec<u8>| v@,
            ));
        }
        out
    }

    /// Every component but the last; `PathError` when there is none.
    pub fn dirs(&self) -> (r: Result<Vec<Vec<u8>>, Error>)
        ensures
            components(self.text()).len() == 0 ==> r == Err::<Vec<Vec<u8>>, Error>(Error::PathError),
            components(self.text()).len() > 0 ==> r.is_ok() && r.unwrap()@.map_values(
                |v: Vec<u8>| v@,
            ) == components(self.text()).drop_last(),
    {
        let mut all = self.all();
        if all.len() == 0 {
            return Err(Error::PathError);
        }
        let ghost before = all@;
        all.pop();
        assert(all@.map_values(|v: Vec<u8>| v@) =~= before.map_values(|v: Vec<u8>| v@).drop_last());
        Ok(all)
    }

    /// The last component; `PathError` when there is none.
    pub fn file(&self) -> (r: Result<Vec<u8>, Error>)
        ensures
            components(self.text()).len() == 0 ==> r == Err::<Vec<u8>, Error>(Error::PathError),
            components(self.text()).len() > 0 ==> r.is_ok() && r.unwrap()@ == components(
                self.text(),
            ).last(),
    {
        let mut all = self.all();
        match all.pop() {
            Some(last) => Ok(last),
            None => Err(Error::PathError),
        }
    }
}

/// Strict lexicographic order on byte strings; a proper prefix comes first.
pub open spec fn lex_lt(a: Seq<u8>, b: Seq<u8>) -> bool
    decreases a.len(),
{
    if a.len() == 0 {
        b.len() > 0
    } else if b.len() == 0 {
        false
    } else if a[0] != b[0] {
        a[0] < b[0]
    } else {
        lex_lt(a.drop_first(), b.drop_first())
    }
}

pub proof fn lemma_lex_trans(a: Seq<u8>, b: Seq<u8>, c: Seq<u8>)
    requires
        lex_lt(a, b),
        lex_lt(b, c),
    ensures
        lex_lt(a, c),
    decreases a.len(),
{
    if a.len() > 0 && b.len() > 0 && c.len() > 0 && a[0] == b[0] && b[0] == c[0] {
        lemma_lex_trans(a.drop_first(), b.drop_first(), c.drop_first());
    }
}

pub proof fn lemma_lex_total(a: Seq<u8>, b: Seq<u8>)
    ensures
        a != b ==> lex_lt(a, b) || lex_lt(b, a),
        !(lex_lt(a, b) && lex_lt(b, a)),
        !lex_lt(a, a),
    decreases a.len(),
{
    if a.len() > 0 && b.len() > 0 {
        lemma_lex_total(a.drop_first(), b.drop_first());
        if a[0] == b[0] && a != b {
            assert(a =~= seq![a[0]] + a.drop_first());
            assert(b =~= seq![b[0]] + b.drop_first());
        }
    }
    if a.len() > 0 {
        lemma_lex_total(a.drop_first(), a.drop_first());
    }
    if a.len() == 0 && b.len() == 0 {
        assert(a =~= b);
    }
}

/// Compares two byte strings in lexicographic order.
pub fn lex_less(a: &[u8], b: &[u8]) -> (r: bool)
    ensures
        r == lex_lt(a@, b@),
{
    let mut i: usize = 0;
    assert(a@.subrange(0, a@.len() as int) =~= a@);
    assert(b@.subrange(0, b@.len() as int) =~= b@);
    while i < a.len() && i < b.len()
        invariant
            i <= a@.len(),
            i <= b@.len(),
            lex_lt(a@, b@) == lex_lt(a@.subrange(i as int, a@.len() as int), b@.subrange(
                i as int,
                b@.len() as int,
            )),
        decreases a@.len() - i,
    {
        let ghost sa = a@.subrange(i as int, a@.len() as int);
        let ghost sb = b@.subrange(i as int, b@.len() as int);
        assert(sa[0] == a@[i as int] && sb[0] == b@[i as int]);
        if a[i] != b[i] {
            return a[i] < b[i];
        }
        assert(sa.drop_first() =~= a@.subrange(i + 1, a@.len() as int));
        assert(sb.drop_first() =~= b@.subrange(i + 1, b@.len() as int));
        i += 1;
    }
    i < b.len()
}

/// The key that orders entries in a tree: a directory sorts as if its name ended
/// with a slash.
pub open spec fn entry_key(e: TreeEntry) -> Seq<u8> {
    if e.mode == Mode::Directory {
        e.name.push(47u8)
    } else {
        e.name
    }
}

/// A name that a directory entry can have: not empty, UTF-8, with no slash and no NUL.
pub open spec fn valid_name(n: Seq<u8>) -> bool {
    &&& n.len() > 0
    &&& forall|i: int| 0 <= i < n.len() ==> n[i] != 47u8 && n[i] != 0u8
    &&& vstd::utf8::valid_utf8(n)
}

/// One entry of an in-memory directory.
pub struct DirEntry {
    pub name: Vec<u8>,
    pub hash: hash::Hash,
    pub mode: Mode,
}

impl View for DirEntry {
    type V = TreeEntry;

    open spec fn view(&self) -> TreeEntry {
        TreeEntry { name: self.name@, hash: self.hash@, mode: self.mode }
    }
}

/// An in-memory view of a tree object: entries with distinct names, kept in the order
/// in which a tree object lists them. That order is git's: names compare byte by byte,
/// with a directory's name read as if it ended in `/` (see `entry_key`), so `a.txt`
/// comes before the directory `a`. Ordering by the bare name instead would give other
/// bytes, and so another identifier, for such a tree.
pub struct Directory {
    entries: Vec<DirEntry>,
}

/// The entry named `name` among `es`, if there is one.
pub open spec fn lookup(es: Seq<TreeEntry>, name: Seq<u8>) -> Option<TreeEntry> {
    if exists|i: int| 0 <= i < es.len() && (#[trigger] es[i]).name == name {
        Some(es[choose|i: int| 0 <= i < es.len() && (#[trigger] es[i]).name == name])
    } else {
        None
    }
}

/// Entries with valid, distinct names in tree order.
pub open spec fn well_ordered(es: Seq<TreeEntry>) -> bool {
    &&& forall|i: int| 0 <= i < es.len() ==> valid_name(#[trigger] es[i].name)
    &&& forall|i: int| 0 <= i < es.len() ==> (#[trigger] es[i]).hash.len() == 20
    &&& forall|i: int, j: int|
        0 <= i < j < es.len() ==> lex_lt(entry_key(#[trigger] es[i]), entry_key(#[trigger] es[j]))
    &&& forall|i: int, j: int|
        0 <= i < es.len() && 0 <= j < es.len() && i != j ==> (#[trigger] es[i]).name != (
        #[trigger] es[j]).name
}

impl View for Directory {
    type V = Seq<TreeEntry>;

    closed spec fn view(&self) -> Seq<TreeEntry> {
        self.entries@.map_values(|e: DirEntry| e@)
    }
}

pub proof fn lemma_lookup_at(es: Seq<TreeEntry>, i: int)
    requires
        well_ordered(es),
        0 <= i < es.len(),
    ensures
        lookup(es, es[i].name) == Some(es[i]),
{
    let k = choose|k: int| 0 <= k < es.len() && (#[trigger] es[k]).name == es[i].name;
    assert(k == i);
}

proof fn lemma_key_distinct(a: TreeEntry, b: TreeEntry)
    requires
        valid_name(a.name),
        valid_name(b.name),
        a.name != b.name,
    ensures
        entry_key(a) != entry_key(b),
{
    if entry_key(a) == entry_key(b) {
        if a.mode == Mode::Directory && b.mode != Mode::Directory {
            assert(entry_key(a)[a.name.len() as int] == 47u8);
            assert(b.name[a.name.len() as int] != 47u8);
        } else if a.mode != Mode::Directory && b.mode == Mode::Directory {
            assert(entry_key(b)[b.name.len() as int] == 47u8);
            assert(a.name[b.name.len() as int] != 47u8);
        } else if a.mode == Mode::Directory {
            assert(a.name =~= entry_key(a).drop_last());
            assert(b.name =~= entry_key(b).drop_last());
        }
    }
}

/// Reading back the tree object of a directory gives its entries, in order.
pub proof fn lemma_directory_round_trip(es: Seq<TreeEntry>)
    requires
        well_ordered(es),
    ensures
        parse_tree(tree_bytes(es)) == Some(es),
{
    assert forall|i: int| 0 <= i < es.len() implies crate::tree::valid_entry(#[trigger] es[i]) by {
        assert(valid_name(es[i].name));
    }
    crate::tree::lemma_tree_round_trip(es);
}

/// A directory holding an entry is not empty.
pub proof fn lemma_lookup_len(es: Seq<TreeEntry>, name: Seq<u8>)
    ensures
        lookup(es, name).is_some() ==> es.len() > 0,
{
}

proof fn lemma_lookup_tail(a: Seq<TreeEntry>, n: Seq<u8>)
    requires
        well_ordered(a),
        a.len() > 0,
    ensures
        well_ordered(a.drop_first()),
        n != a[0].name ==> lookup(a.drop_first(), n) == lookup(a, n),
        n == a[0].name ==> lookup(a.drop_first(), n).is_none(),
{
    let t = a.drop_first();
    assert forall|i: int| 0 <= i < t.len() implies #[trigger] t[i] == a[i + 1] by {}
    assert forall|i: int, j: int| 0 <= i < j < t.len() implies lex_lt(
        entry_key(#[trigger] t[i]),
        entry_key(#[trigger] t[j]),
    ) by {
        assert(lex_lt(entry_key(a[i + 1]), entry_key(a[j + 1])));
    }
    assert forall|i: int, j: int|
        0 <= i < t.len() && 0 <= j < t.len() && i != j implies (#[trigger] t[i]).name != (
        #[trigger] t[j]).name by {
        assert(a[i + 1].name != a[j + 1].name);
    }
    assert forall|i: int| 0 <= i < t.len() implies valid_name(#[trigger] t[i].name) by {
        assert(valid_name(a[i + 1].name));
    }
    assert forall|i: int| 0 <= i < t.len() implies (#[trigger] t[i]).hash.len() == 20 by {
        assert(a[i + 1].hash.len() == 20);
    }
    if n != a[0].name {
        if exists|i: int| 0 <= i < a.len() && (#[trigger] a[i]).name == n {
            let i = choose|i: int| 0 <= i < a.len() && (#[trigger] a[i]).name == n;
            lemma_lookup_at(a, i);
            assert(i > 0);
            assert(t[i - 1] == a[i]);
            lemma_lookup_at(t, i - 1);
        } else {
            assert forall|i: int| 0 <= i < t.len() implies (#[trigger] t[i]).name != n by {
                assert(t[i] == a[i + 1]);
            }
        }
    } else {
        assert forall|i: int| 0 <= i < t.len() implies (#[trigger] t[i]).name != n by {
            assert(t[i] == a[i + 1]);
            assert(a[i + 1].name != a[0].name);
        }
    }
}

/// Two directories that hold the same entry under every name are the same sequence:
/// the order of a directory's entries is determined by its entries.
pub proof fn lemma_lookup_determines(a: Seq<TreeEntry>, b: Seq<TreeEntry>)
    requires
        well_ordered(a),
        well_ordered(b),
        forall|n: Seq<u8>| #[trigger] lookup(a, n) == lookup(b, n),
    ensures
        a == b,
    decreases a.len(),
{
    if a.len() == 0 || b.len() == 0 {
        if a.len() > 0 {
            lemma_lookup_at(a, 0);
            assert(lookup(b, a[0].name).is_some());
        }
        if b.len() > 0 {
            lemma_lookup_at(b, 0);
            assert(lookup(a, b[0].name).is_some());
        }
        assert(a =~= b);
    } else {
        let x = a[0];
        let y = b[0];
        lemma_lookup_at(a, 0);
        lemma_lookup_at(b, 0);
        assert(lookup(b, x.name) == Some(x));
        assert(lookup(a, y.name) == Some(y));
        let j = choose|j: int| 0 <= j < b.len() && (#[trigger] b[j]).name == x.name;
        let i = choose|i: int| 0 <= i < a.len() && (#[trigger] a[i]).name == y.name;
        lemma_lookup_at(b, j);
        lemma_lookup_at(a, i);
        assert(b[j] == x);
        assert(a[i] == y);
        if i != 0 && j != 0 {
            assert(lex_lt(entry_key(a[0]), entry_key(a[i])));
            assert(lex_lt(entry_key(b[0]), entry_key(b[j])));
            lemma_lex_trans(entry_key(x), entry_key(y), entry_key(x));
            lemma_lex_total(entry_key(x), entry_key(x));
        }
        assert(x == y);
        lemma_lookup_tail(a, x.name);
        lemma_lookup_tail(b, x.name);
        assert forall|n: Seq<u8>| #[trigger] lookup(a.drop_first(), n) == lookup(b.drop_first(), n) by {
            lemma_lookup_tail(a, n);
            lemma_lookup_tail(b, n);
        }
        lemma_lookup_determines(a.drop_first(), b.drop_first());
        assert(a =~= seq![x] + a.drop_first());
        assert(b =~= seq![y] + b.drop_first());
    }
}

/// Adding an entry under a name that a directory lacks, then removing that name, gives
/// the same directory back, and so the same tree object.
pub proof fn lemma_add_then_remove_restores(
    before: Seq<TreeEntry>,
    added: Seq<TreeEntry>,
    after: Seq<TreeEntry>,
    name: Seq<u8>,
)
    requires
        well_ordered(before),
        well_ordered(added),
        well_ordered(after),
        lookup(before, name).is_none(),
        forall|n: Seq<u8>| n != name ==> #[trigger] lookup(added, n) == lookup(before, n),
        lookup(after, name).is_none(),
        forall|n: Seq<u8>| n != name ==> #[trigger] lookup(after, n) == lookup(added, n),
    ensures
        after == before,
        tree_bytes(after) == tree_bytes(before),
{
    assert forall|n: Seq<u8>| #[trigger] lookup(after, n) == lookup(before, n) by {
        if n != name {
            assert(lookup(after, n) == lookup(added, n));
        }
    }
    lemma_lookup_determines(after, before);
}

fn key_of(name: &Vec<u8>, mode: Mode) -> (r: Vec<u8>)
    ensures
        r@ == entry_key(TreeEntry { name: name@, hash: Seq::empty(), mode }),
{
    let mut k = name.clone();
    assert(k@ == name@);
    if mode == Mode::Directory {
        k.push(47u8);
    }
    k
}

impl Directory {
    pub open spec fn wf(&self) -> bool {
        well_ordered(self@)
    }

    /// An empty directory.
    pub fn new() -> (r: Directory)
        ensures
            r.wf(),
            r@ == Seq::<TreeEntry>::empty(),
    {
        let r = Directory { entries: Vec::new() };
        assert(r@ =~= Seq::<TreeEntry>::empty());
        r
    }

    pub fn len(&self) -> (r: usize)
        ensures
            r == self@.len(),
    {
        self.entries.len()
    }

    pub fn is_empty(&self) -> (r: bool)
        ensures
            r == (self@.len() == 0),
    {
        self.entries.len() == 0
    }

    /// The entry at position `i`, as (name, identifier, mode).
    pub fn entry(&self, i: usize) -> (r: (&Vec<u8>, hash::Hash, Mode))
        requires
            i < self@.len(),
        ensures
            r.0@ == self@[i as int].name,
            r.1@ == self@[i as int].hash,
            r.2 == self@[i as int].mode,
    {
        let e = &self.entries[i];
        (&e.name, e.hash, e.mode)
    }

    fn position(&self, name: &[u8]) -> (r: Option<usize>)
        requires
            self.wf(),
        ensures
            match r {
                Some(i) => i < self@.len() && self@[i as int].name == name@,
                None => forall|i: int| 0 <= i < self@.len() ==> (#[trigger] self@[i]).name != name@,
            },
    {
        let mut i: usize = 0;
        while i < self.entries.len()
            invariant
                i <= self@.len(),
                self@.len() == self.entries@.len(),
                forall|k: int| 0 <= k < i ==> (#[trigger] self@[k]).name != name@,
            decreases self@.len() - i,
        {
            assert(self@[i as int].name == self.entries@[i as int].name@);
            if hash::bytes_equal(self.entries[i].name.as_slice(), name) {
                return Some(i);
            }
            i += 1;
        }
        None
    }

    /// The identifier and mode of the entry named `name`.
    pub fn get(&self, name: &[u8]) -> (r: Option<(hash::Hash, Mode)>)
        requires
            self.wf(),
        ensures
            match lookup(self@, name@) {
                None => r.is_none(),
                Some(e) => r.is_some() && r.unwrap().0@ == e.hash && r.unwrap().1 == e.mode,
            },
    {
        match self.position(name) {
            Some(i) => {
                proof {
                    lemma_lookup_at(self@, i as int);
                }
                let e = &self.entries[i];
                Some((e.hash, e.mode))
            },
            None => None,
        }
    }

    /// Removes the entry named `name`, if there is one.
    pub fn remove(&mut self, name: &[u8])
        requires
            old(self).wf(),
        ensures
            final(self).wf(),
            lookup(final(self)@, name@).is_none(),
            forall|n: Seq<u8>| n != name@ ==> #[trigger] lookup(final(self)@, n) == lookup(
                old(self)@,
                n,
            ),
            lookup(old(self)@, name@).is_none() ==> final(self)@ == old(self)@,
    {
        let ghost old_v = self@;
        match self.position(name) {
            None => {},
            Some(p) => {
                self.entries.remove(p);
                proof {
                    assert(self@ =~= old_v.remove(p as int));
                    let v = self@;
                    assert forall|i: int| 0 <= i < v.len() implies #[trigger] v[i] == old_v[if i < p {
                        i
                    } else {
                        i + 1
                    }] by {}
                    assert forall|i: int, j: int| 0 <= i < j < v.len() implies lex_lt(
                        entry_key(#[trigger] v[i]),
                        entry_key(#[trigger] v[j]),
                    ) by {
                        let i2 = if i < p { i } else { i + 1 };
                        let j2 = if j < p { j } else { j + 1 };
                        assert(lex_lt(entry_key(old_v[i2]), entry_key(old_v[j2])));
                    }
                    assert forall|i: int, j: int|
                        0 <= i < v.len() && 0 <= j < v.len() && i != j implies (#[trigger] v[i]).name
                        != (#[trigger] v[j]).name by {
                        let i2 = if i < p { i } else { i + 1 };
                        let j2 = if j < p { j } else { j + 1 };
                        assert(old_v[i2].name != old_v[j2].name);
                    }
                    assert forall|n: Seq<u8>| n != name@ implies #[trigger] lookup(v, n) == lookup(
                        old_v,
                        n,
                    ) by {
                        if exists|i: int| 0 <= i < old_v.len() && (#[trigger] old_v[i]).name == n {
                            let i = choose|i: int| 0 <= i < old_v.len() && (#[trigger] old_v[i]).name == n;
                            lemma_lookup_at(old_v, i);
                            let i2 = if i < p { i } else { i - 1 };
                            assert(v[i2] == old_v[i]);
                            lemma_lookup_at(v, i2);
                        } else {
                            assert forall|i: int| 0 <= i < v.len() implies (#[trigger] v[i]).name != n by {
                                let i2 = if i < p { i } else { i + 1 };
                                assert(v[i] == old_v[i2]);
                            }
                        }
                    }
                    assert forall|i: int| 0 <= i < v.len() implies (#[trigger] v[i]).name != name@ by {
                        let i2 = if i < p { i } else { i + 1 };
                        assert(v[i] == old_v[i2]);
                        assert(i2 != p);
                    }
                    lemma_lookup_at(old_v, p as int);
                }
            },
        }
    }

    /// Sets the entry named `name`, replacing any entry of that name.
    pub fn insert(&mut self, name: Vec<u8>, hash: hash::Hash, mode: Mode)
        requires
            old(self).wf(),
            valid_name(name@),
        ensures
            final(self).wf(),
            lookup(final(self)@, name@) == Some(TreeEntry { name: name@, hash: hash@, mode }),
            forall|n: Seq<u8>| n != name@ ==> #[trigger] lookup(final(self)@, n) == lookup(
                old(self)@,
                n,
            ),
    {
        let ghost old_v = self@;
        self.remove(name.as_slice());
        let ghost mid = self@;
        let ghost e = TreeEntry { name: name@, hash: hash@, mode };
        let key = key_of(&name, mode);
        assert(key@ == entry_key(e));
        let mut p: usize = 0;
        while p < self.entries.len()
            invariant
                self.wf(),
                self@ == mid,
                p <= mid.len(),
                self.entries@.len() == mid.len(),
                key@ == entry_key(e),
                forall|k: int| 0 <= k < p ==> lex_lt(entry_key(#[trigger] mid[k]), entry_key(e)),
            ensures
                self@ == mid,
                self.wf(),
                p <= mid.len(),
                forall|k: int| 0 <= k < p ==> lex_lt(entry_key(#[trigger] mid[k]), entry_key(e)),
                p < mid.len() ==> !lex_lt(entry_key(mid[p as int]), entry_key(e)),
            decreases mid.len() - p,
        {
            let k2 = key_of(&self.entries[p].name, self.entries[p].mode);
            assert(k2@ == entry_key(mid[p as int]));
            if !lex_less(k2.as_slice(), key.as_slice()) {
                break;
            }
            p += 1;
        }
        proof {
            if p < mid.len() {
                assert(mid[p as int].name != name@);
                lemma_key_distinct(mid[p as int], e);
                lemma_lex_total(entry_key(mid[p as int]), entry_key(e));
                assert(lex_lt(entry_key(e), entry_key(mid[p as int])));
            }
        }
        self.entries.insert(p, DirEntry { name, hash, mode });
        proof {
            let v = self@;
            assert(v =~= mid.insert(p as int, e));
            assert forall|i: int| 0 <= i < v.len() implies #[trigger] v[i] == (if i < p {
                mid[i]
            } else if i == p {
                e
            } else {
                mid[i - 1]
            }) by {}
            assert forall|i: int, j: int| 0 <= i < j < v.len() implies lex_lt(
                entry_key(#[trigger] v[i]),
                entry_key(#[trigger] v[j]),
            ) by {
                if j < p {
                } else if j == p {
                } else if i < p {
                    if j - 1 > p {
                        lemma_lex_trans(entry_key(e), entry_key(mid[p as int]), entry_key(mid[j - 1]));
                    }
                    lemma_lex_trans(entry_key(mid[i]), entry_key(e), entry_key(mid[j - 1]));
                } else if i == p {
                    if j - 1 > p {
                        lemma_lex_trans(entry_key(e), entry_key(mid[p as int]), entry_key(mid[j - 1]));
                    }
                } else {
                }
            }
            assert forall|i: int, j: int|
                0 <= i < v.len() && 0 <= j < v.len() && i != j implies (#[trigger] v[i]).name != (
                #[trigger] v[j]).name by {
                if i != p && j != p {
                    let i2 = if i < p { i } else { i - 1 };
                    let j2 = if j < p { j } else { j - 1 };
                    assert(mid[i2].name != mid[j2].name);
                } else if i == p {
                    let j2 = if j < p { j } else { j - 1 };
                    assert(mid[j2].name != name@);
                } else {
                    let i2 = if i < p { i } else { i - 1 };
                    assert(mid[i2].name != name@);
                }
            }
            lemma_lookup_at(v, p as int);
            assert forall|n: Seq<u8>| n != name@ implies #[trigger] lookup(v, n) == lookup(mid, n) by {
                if exists|i: int| 0 <= i < mid.len() && (#[trigger] mid[i]).name == n {
                    let i = choose|i: int| 0 <= i < mid.len() && (#[trigger] mid[i]).name == n;
                    lemma_lookup_at(mid, i);
                    let i2 = if i < p { i } else { i + 1 };
                    assert(v[i2] == mid[i]);
                    lemma_lookup_at(v, i2);
                } else {
                    assert forall|i: int| 0 <= i < v.len() implies (#[trigger] v[i]).name != n by {
                        if i != p {
                            let i2 = if i < p { i } else { i - 1 };
                            assert(v[i] == mid[i2]);
                        }
                    }
                }
            }
        }
    }

    /// The content of the tree object for this directory.
    pub fn serialize(&self) -> (r: Vec<u8>)
        requires
            self.wf(),
        ensures
            r@ == tree_bytes(self@),
    {
        let mut i: usize = self.entries.len();
        let ghost v = self@;
        // Entries are written back to front so that each step prepends to a suffix.
        let mut tail: Vec<u8> = Vec::new();
        assert(v.subrange(v.len() as int, v.len() as int) =~= Seq::<TreeEntry>::empty());
        while i > 0
            invariant
                i <= v.len(),
                v == self@,
                v.len() == self.entries@.len(),
                tail@ == tree_bytes(v.subrange(i as int, v.len() as int)),
            decreases i,
        {
            i -= 1;
            let e = &self.entries[i];
            let mut chunk = e.mode.text();
            chunk.push(32u8);
            append_bytes(&mut chunk, e.name.as_slice());
            chunk.push(0u8);
            append_bytes(&mut chunk, e.hash.bytes.as_slice());
            append_bytes(&mut chunk, tail.as_slice());
            proof {
                let s2 = v.subrange(i as int, v.len() as int);
                assert(s2[0] == v[i as int]);
                assert(s2.drop_first() =~= v.subrange(i + 1, v.len() as int));
                assert(chunk@ =~= entry_bytes(v[i as int]) + tail@);
            }
            tail = chunk;
        }
        assert(v.subrange(0, v.len() as int) =~= v);
        tail
    }

    /// Builds a directory from the content of a tree object; `InvalidObject` if the
    /// content is malformed or an entry's name is empty or holds a slash.
    pub fn from_tree(content: &[u8]) -> (r: Result<Directory, Error>)
        ensures
            parse_tree(content@).is_none() ==> r == Err::<Directory, Error>(Error::InvalidObject),
            r.is_ok() == readable_tree(content@),
            r.is_ok() ==> r.unwrap().wf(),
            r.is_ok() ==> forall|i: int|
                0 <= i < parse_tree(content@).unwrap().len() ==> lookup(
                    r.unwrap()@,
                    (#[trigger] parse_tree(content@).unwrap()[i]).name,
                ).is_some(),
    {
        let entries = match read_tree(content) {
            Ok(v) => v,
            Err(e) => return Err(e),
        };
        let ghost es = entries_view(entries@);
        let mut dir = Directory::new();
        let mut i: usize = 0;
        while i < entries.len()
            invariant
                i <= entries@.len(),
                dir.wf(),
                es == entries_view(entries@),
                es == parse_tree(content@).unwrap(),
                forall|k: int| 0 <= k < i ==> lookup(dir@, (#[trigger] es[k]).name).is_some(),
                forall|k: int| 0 <= k < i ==> valid_name((#[trigger] es[k]).name),
            decreases entries@.len() - i,
        {
            let (name, h, m) = &entries[i];
            if !valid_name_exec(name.as_slice()) {
                return Err(Error::InvalidObject);
            }
            assert(es[i as int].name == name@);
            dir.insert(name.clone(), *h, *m);
            proof {
                assert forall|k: int| 0 <= k < i + 1 implies lookup(dir@, (#[trigger] es[k]).name).is_some() by {
                    if es[k].name != name@ {
                    }
                }
            }
            i += 1;
        }
        Ok(dir)
    }
}

/// A tree content that parses and whose entries all have valid names.
pub open spec fn readable_tree(c: Seq<u8>) -> bool {
    parse_tree(c) matches Some(es) && forall|k: int| 0 <= k < es.len() ==> valid_name(#[trigger] es[k].name)
}

/// Tests whether a name can stand in a directory.
pub fn valid_name_exec(n: &[u8]) -> (r: bool)
    ensures
        r == valid_name(n@),
{
    if n.len() == 0 {
        return false;
    }
    let mut i: usize = 0;
    while i < n.len()
        invariant
            i <= n@.len(),
            forall|k: int| 0 <= k < i ==> n@[k] != 47u8 && n@[k] != 0u8,
        decreases n@.len() - i,
    {
        if n[i] == 47u8 || n[i] == 0u8 {
            return false;
        }
        i += 1;
    }
    crate::tree::is_utf8(n)
}

} // verus!
