use vstd::prelude::*;

use crate::hash;
use crate::objects::append_bytes;
use crate::Error;
use vstd::utf8::valid_utf8;

verus! {

/// Filter for entries in a directory.
#[derive(Debug, Clone, Copy, PartialEq, Eq, Structural)]
pub enum EntryType {
    Directory,
    File,
    All,
}

/// Types of files in directories.
#[derive(Debug, Clone, Copy, PartialEq, Eq, Structural)]
pub enum FileType {
    RegularFile,
    GroupWriteableFile,
    ExecutableFile,
    SymbolicLink,
    Gitlink,
}

/// A [`FileType`] or a directory.
#[derive(Debug, Clone, Copy, PartialEq, Eq, Structural)]
pub enum Mode {
    Directory,
    RegularFile,
    GroupWriteableFile,
    ExecutableFile,
    SymbolicLink,
    Gitlink,
}

/// The mode that a file of type `ft` has.
pub open spec fn file_mode(ft: FileType) -> Mode {
    match ft {
        FileType::RegularFile => Mode::RegularFile,
        FileType::GroupWriteableFile => Mode::GroupWriteableFile,
        FileType::ExecutableFile => Mode::ExecutableFile,
        FileType::SymbolicLink => Mode::SymbolicLink,
        FileType::Gitlink => Mode::Gitlink,
    }
}

impl From<FileType> for Mode {
    fn from(ft: FileType) -> (r: Mode) {
        match ft {
            FileType::RegularFile => Mode::RegularFile,
            FileType::GroupWriteableFile => Mode::GroupWriteableFile,
            FileType::ExecutableFile => Mode::ExecutableFile,
            FileType::SymbolicLink => Mode::SymbolicLink,
            FileType::Gitlink => Mode::Gitlink,
        }
    }
}

impl vstd::std_specs::convert::FromSpecImpl<FileType> for Mode {
    open spec fn obeys_from_spec() -> bool {
        true
    }

    open spec fn from_spec(ft: FileType) -> Mode {
        file_mode(ft)
    }
}

/// Whether an entry of mode `m` passes the filter `t`.
pub open spec fn mode_matches(m: Mode, t: EntryType) -> bool {
    match m {
        Mode::Directory => t != EntryType::File,
        _ => t != EntryType::Directory,
    }
}

/// The octal text of a mode as written in a tree object.
pub open spec fn mode_text(m: Mode) -> Seq<u8> {
    match m {
        Mode::Directory => seq![52u8, 48, 48, 48, 48],
        Mode::RegularFile => seq![49u8, 48, 48, 54, 52, 52],
        Mode::GroupWriteableFile => seq![49u8, 48, 48, 54, 54, 52],
        Mode::ExecutableFile => seq![49u8, 48, 48, 55, 53, 53],
        Mode::SymbolicLink => seq![49u8, 50, 48, 48, 48, 48],
        Mode::Gitlink => seq![49u8, 54, 48, 48, 48, 48],
    }
}

/// The mode spelled by an octal text; a directory may be written with or without
/// its leading zero.
pub open spec fn parse_mode(t: Seq<u8>) -> Option<Mode> {
    if t == seq![48u8, 52, 48, 48, 48, 48] || t == mode_text(Mode::Directory) {
        Some(Mode::Directory)
    } else if t == mode_text(Mode::RegularFile) {
        Some(Mode::RegularFile)
    } else if t == mode_text(Mode::GroupWriteableFile) {
        Some(Mode::GroupWriteableFile)
    } else if t == mode_text(Mode::ExecutableFile) {
        Some(Mode::ExecutableFile)
    } else if t == mode_text(Mode::SymbolicLink) {
        Some(Mode::SymbolicLink)
    } else if t == mode_text(Mode::Gitlink) {
        Some(Mode::Gitlink)
    } else {
        None
    }
}

/// Both spellings of the directory mode read as a directory, every mode reads back from
/// the text it is written as, and nothing else reads as a mode.
pub proof fn lemma_mode_spellings(t: Seq<u8>)
    ensures
        parse_mode(seq![48u8, 52, 48, 48, 48, 48]) == Some(Mode::Directory),
        parse_mode(seq![52u8, 48, 48, 48, 48]) == Some(Mode::Directory),
        parse_mode(t) matches Some(m) ==> t == mode_text(m) || t == seq![48u8, 52, 48, 48, 48, 48],
{
    assert(mode_text(Mode::Directory) =~= seq![52u8, 48, 48, 48, 48]);
}

impl Mode {
    /// Whether an entry of this mode passes the filter.
    pub fn matches(self, entry_type: EntryType) -> (r: bool)
        ensures
            r == mode_matches(self, entry_type),
    {
        match self {
            Mode::Directory => match entry_type {
                EntryType::File => false,
                _ => true,
            },
            _ => match entry_type {
                EntryType::Directory => false,
                _ => true,
            },
        }
    }

    /// The octal text of this mode.
    pub fn text(self) -> (r: Vec<u8>)
        ensures
            r@ == mode_text(self),
    {
        let r: Vec<u8> = match self {
            Mode::Directory => vec![52u8, 48, 48, 48, 48],
            Mode::RegularFile => vec![49u8, 48, 48, 54, 52, 52],
            Mode::GroupWriteableFile => vec![49u8, 48, 48, 54, 54, 52],
            Mode::ExecutableFile => vec![49u8, 48, 48, 55, 53, 53],
            Mode::SymbolicLink => vec![49u8, 50, 48, 48, 48, 48],
            Mode::Gitlink => vec![49u8, 54, 48, 48, 48, 48],
        };
        assert(r@ =~= mode_text(self));
        r
    }

    /// Reads the octal text of a mode.
    pub fn parse(t: &[u8]) -> (r: Option<Mode>)
        ensures
            r == parse_mode(t@),
    {
        let long_dir: Vec<u8> = vec![48u8, 52, 48, 48, 48, 48];
        assert(long_dir@ =~= seq![48u8, 52, 48, 48, 48, 48]);
        if hash::bytes_equal(t, long_dir.as_slice()) || hash::bytes_equal(
            t,
            Mode::Directory.text().as_slice(),
        ) {
            Some(Mode::Directory)
        } else if hash::bytes_equal(t, Mode::RegularFile.text().as_slice()) {
            Some(Mode::RegularFile)
        } else if hash::bytes_equal(t, Mode::GroupWriteableFile.text().as_slice()) {
            Some(Mode::GroupWriteableFile)
        } else if hash::bytes_equal(t, Mode::ExecutableFile.text().as_slice()) {
            Some(Mode::ExecutableFile)
        } else if hash::bytes_equal(t, Mode::SymbolicLink.text().as_slice()) {
            Some(Mode::SymbolicLink)
        } else if hash::bytes_equal(t, Mode::Gitlink.text().as_slice()) {
            Some(Mode::Gitlink)
        } else {
            None
        }
    }
}

/// One entry of a tree object, in mathematical terms.
pub struct TreeEntry {
    pub name: Seq<u8>,
    pub hash: Seq<u8>,
    pub mode: Mode,
}

/// The bytes `"<octal mode> <name>\0<20-byte hash>"` of one entry.
pub open spec fn entry_bytes(e: TreeEntry) -> Seq<u8> {
    mode_text(e.mode) + seq![32u8] + e.name + seq![0u8] + e.hash
}

/// The content of a tree object holding `es`, in that order.
pub open spec fn tree_bytes(es: Seq<TreeEntry>) -> Seq<u8>
    decreases es.len(),
{
    if es.len() == 0 {
        Seq::empty()
    } else {
        entry_bytes(es[0]) + tree_bytes(es.drop_first())
    }
}

/// The position of the first `b` in `s`, or -1.
pub open spec fn find_byte(s: Seq<u8>, b: u8) -> int
    decreases s.len(),
{
    if s.len() == 0 {
        -1
    } else if s[0] == b {
        0
    } else {
        let r = find_byte(s.drop_first(), b);
        if r < 0 {
            -1
        } else {
            r + 1
        }
    }
}

pub proof fn lemma_find_byte(s: Seq<u8>, b: u8, i: int)
    requires
        0 <= i <= s.len(),
        forall|j: int| 0 <= j < i ==> s[j] != b,
    ensures
        i < s.len() && s[i] == b ==> find_byte(s, b) == i,
        i == s.len() ==> find_byte(s, b) == -1,
    decreases i,
{
    if i > 0 {
        lemma_find_byte(s.drop_first(), b, i - 1);
    }
}

/// The first entry of a non-empty tree content and the number of bytes it takes,
/// or `None` if the entry is malformed.
pub open spec fn parse_entry(s: Seq<u8>) -> Option<(TreeEntry, int)> {
    let z = find_byte(s, 0u8);
    if z < 0 || s.len() < z + 21 {
        None
    } else {
        let desc = s.subrange(0, z);
        let sp = find_byte(desc, 32u8);
        if sp < 0 {
            None
        } else {
            match parse_mode(desc.subrange(0, sp)) {
                None => None,
                Some(_) if !valid_utf8(desc.subrange(sp + 1, z)) => None,
                Some(m) => Some(
                    (
                        TreeEntry {
                            name: desc.subrange(sp + 1, z),
                            hash: s.subrange(z + 1, z + 21),
                            mode: m,
                        },
                        z + 21,
                    ),
                ),
            }
        }
    }
}

/// The entries of a tree content, or `None` if it is malformed.
pub open spec fn parse_tree(s: Seq<u8>) -> Option<Seq<TreeEntry>>
    decreases s.len(),
{
    if s.len() == 0 {
        Some(Seq::empty())
    } else {
        match parse_entry(s) {
            None => None,
            Some((e, n)) => if n <= 0 || n > s.len() {
                None
            } else {
                match parse_tree(s.subrange(n, s.len() as int)) {
                    None => None,
                    Some(rest) => Some(seq![e] + rest),
                }
            },
        }
    }
}

/// A name that an entry can carry: UTF-8 with no NUL byte.
pub open spec fn valid_entry(e: TreeEntry) -> bool {
    &&& e.hash.len() == 20
    &&& forall|i: int| 0 <= i < e.name.len() ==> e.name[i] != 0u8
    &&& valid_utf8(e.name)
}

proof fn lemma_mode_text(m: Mode)
    ensures
        parse_mode(mode_text(m)) == Some(m),
        forall|i: int| 0 <= i < mode_text(m).len() ==> mode_text(m)[i] != 0u8 && mode_text(m)[i] != 32u8,
{
    assert(mode_text(Mode::Directory) != seq![48u8, 52, 48, 48, 48, 48]) by {
        assert(mode_text(Mode::Directory).len() == 5);
    }
    reveal_with_fuel(parse_mode, 1);
    if m != Mode::Directory {
        assert(mode_text(m) != seq![48u8, 52, 48, 48, 48, 48]) by {
            assert(mode_text(m)[0] == 49u8);
        }
        assert(mode_text(m) != mode_text(Mode::Directory)) by {
            assert(mode_text(m).len() == 6);
        }
    }
    if m != Mode::RegularFile && m != Mode::Directory {
        assert(mode_text(m) != mode_text(Mode::RegularFile)) by {
            if m == Mode::GroupWriteableFile {
                assert(mode_text(m)[4] != mode_text(Mode::RegularFile)[4]);
            } else if m == Mode::ExecutableFile {
                assert(mode_text(m)[3] != mode_text(Mode::RegularFile)[3]);
            } else {
                assert(mode_text(m)[1] != mode_text(Mode::RegularFile)[1]);
            }
        }
    }
    if m == Mode::ExecutableFile || m == Mode::SymbolicLink || m == Mode::Gitlink {
        assert(mode_text(m) != mode_text(Mode::GroupWriteableFile)) by {
            if m == Mode::ExecutableFile {
                assert(mode_text(m)[3] != mode_text(Mode::GroupWriteableFile)[3]);
            } else {
                assert(mode_text(m)[1] != mode_text(Mode::GroupWriteableFile)[1]);
            }
        }
    }
    if m == Mode::SymbolicLink || m == Mode::Gitlink {
        assert(mode_text(m) != mode_text(Mode::ExecutableFile)) by {
            assert(mode_text(m)[1] != mode_text(Mode::ExecutableFile)[1]);
        }
    }
    if m == Mode::Gitlink {
        assert(mode_text(m) != mode_text(Mode::SymbolicLink)) by {
            assert(mode_text(m)[1] != mode_text(Mode::SymbolicLink)[1]);
        }
    }
}

proof fn lemma_parse_entry_bytes(e: TreeEntry, rest: Seq<u8>)
    requires
        valid_entry(e),
    ensures
        parse_entry(entry_bytes(e) + rest) == Some((e, entry_bytes(e).len() as int)),
{
    let s = entry_bytes(e) + rest;
    let mt = mode_text(e.mode);
    lemma_mode_text(e.mode);
    let z: int = (mt.len() + 1 + e.name.len()) as int;
    assert forall|j: int| 0 <= j < z implies s[j] != 0u8 by {
        if j < mt.len() {
            assert(s[j] == mt[j]);
        } else if j > mt.len() {
            assert(s[j] == e.name[j - mt.len() - 1]);
        }
    }
    assert(s[z] == 0u8);
    lemma_find_byte(s, 0u8, z);
    let desc = s.subrange(0, z);
    assert forall|j: int| 0 <= j < mt.len() implies desc[j] != 32u8 by {
        assert(desc[j] == mt[j]);
    }
    assert(desc[mt.len() as int] == 32u8);
    lemma_find_byte(desc, 32u8, mt.len() as int);
    assert(desc.subrange(0, mt.len() as int) =~= mt);
    assert(desc.subrange(mt.len() + 1int, z) =~= e.name);
    assert(s.subrange(z + 1, z + 21) =~= e.hash);
}

/// Reading back the content of a tree object gives the entries it was made of.
pub proof fn lemma_tree_round_trip(es: Seq<TreeEntry>)
    requires
        forall|i: int| 0 <= i < es.len() ==> valid_entry(#[trigger] es[i]),
    ensures
        parse_tree(tree_bytes(es)) == Some(es),
    decreases es.len(),
{
    if es.len() == 0 {
        assert(tree_bytes(es) =~= Seq::<u8>::empty());
        assert(es =~= Seq::<TreeEntry>::empty());
    } else {
        let rest = es.drop_first();
        assert forall|i: int| 0 <= i < rest.len() implies valid_entry(#[trigger] rest[i]) by {
            assert(rest[i] == es[i + 1]);
        }
        lemma_tree_round_trip(rest);
        assert(valid_entry(es[0]));
        let s = tree_bytes(es);
        let n = entry_bytes(es[0]).len() as int;
        lemma_parse_entry_bytes(es[0], tree_bytes(rest));
        assert(s.subrange(n, s.len() as int) =~= tree_bytes(rest));
        assert(n > 0);
        assert(seq![es[0]] + rest =~= es);
    }
}

/// Copies `s[a..b]`.
pub fn copy_range(s: &[u8], a: usize, b: usize) -> (r: Vec<u8>)
    requires
        a <= b <= s@.len(),
    ensures
        r@ == s@.subrange(a as int, b as int),
{
    let mut r: Vec<u8> = Vec::new();
    let mut i: usize = a;
    while i < b
        invariant
            a <= i <= b <= s@.len(),
            r@ == s@.subrange(a as int, i as int),
        decreases b - i,
    {
        r.push(s[i]);
        assert(s@.subrange(a as int, i + 1) =~= s@.subrange(a as int, i as int).push(s@[i as int]));
        i += 1;
    }
    r
}

/// The position of the first `b` in `s[from..to]`, if any.
pub fn find_byte_in(s: &[u8], b: u8, from: usize, to: usize) -> (r: Option<usize>)
    requires
        from <= to <= s@.len(),
    ensures
        find_byte(s@.subrange(from as int, to as int), b) == match r {
            Some(i) => i - from,
            None => -1,
        },
        r.is_some() ==> from <= r.unwrap() < to,
{
    let ghost t = s@.subrange(from as int, to as int);
    let mut i: usize = from;
    while i < to
        invariant
            from <= i <= to <= s@.len(),
            t == s@.subrange(from as int, to as int),
            forall|j: int| 0 <= j < i - from ==> t[j] != b,
        decreases to - i,
    {
        if s[i] == b {
            proof {
                lemma_find_byte(t, b, i - from);
            }
            return Some(i);
        }
        i += 1;
    }
    proof {
        lemma_find_byte(t, b, t.len() as int);
    }
    None
}

/// Walks the entries of a tree object's content.
pub struct TreeIter<'a> {
    entries: &'a [u8],
    pos: usize,
}

impl<'a> TreeIter<'a> {
    /// The bytes not read yet.
    pub closed spec fn remaining(&self) -> Seq<u8> {
        self.entries@.subrange(self.pos as int, self.entries@.len() as int)
    }

    pub closed spec fn wf(&self) -> bool {
        self.pos <= self.entries@.len()
    }

    pub fn new(tree_object: &'a [u8]) -> (r: TreeIter<'a>)
        ensures
            r.wf(),
            r.remaining() == tree_object@,
    {
        let r = TreeIter { entries: tree_object, pos: 0 };
        assert(r.remaining() =~= tree_object@);
        r
    }

    /// The next entry as (name, identifier, mode); `InvalidObject` on a malformed entry.
    pub fn next(&mut self) -> (r: Result<Option<(Vec<u8>, hash::Hash, Mode)>, Error>)
        requires
            old(self).wf(),
        ensures
            final(self).wf(),
            old(self).remaining().len() == 0 ==> r == Ok::<Option<(Vec<u8>, hash::Hash, Mode)>, Error>(None),
            old(self).remaining().len() > 0 ==> match parse_entry(old(self).remaining()) {
                None => r == Err::<Option<(Vec<u8>, hash::Hash, Mode)>, Error>(Error::InvalidObject),
                Some((e, n)) => r.is_ok() && r.unwrap().is_some() && {
                    let (name, h, m) = r.unwrap().unwrap();
                    &&& name@ == e.name
                    &&& h@ == e.hash
                    &&& m == e.mode
                    &&& final(self).remaining() == old(self).remaining().subrange(
                        n,
                        old(self).remaining().len() as int,
                    )
                },
            },
    {
        let len = self.entries.len();
        if self.pos == len {
            return Ok(None);
        }
        let ghost rem = self.remaining();
        let start = self.pos;
        let z = match find_byte_in(self.entries, 0u8, start, len) {
            Some(z) => z,
            None => return Err(Error::InvalidObject),
        };
        if len - z < 21 {
            return Err(Error::InvalidObject);
        }
        proof {
            assert(rem.subrange(0, z - start) =~= self.entries@.subrange(start as int, z as int));
        }
        let sp = match find_byte_in(self.entries, 32u8, start, z) {
            Some(sp) => sp,
            None => return Err(Error::InvalidObject),
        };
        let mode_bytes = copy_range(self.entries, start, sp);
        proof {
            let desc = rem.subrange(0, z - start);
            assert(desc.subrange(0, sp - start) =~= mode_bytes@);
        }
        let mode = match Mode::parse(mode_bytes.as_slice()) {
            Some(m) => m,
            None => return Err(Error::InvalidObject),
        };
        let name = copy_range(self.entries, sp + 1, z);
        let hash_bytes = copy_range(self.entries, z + 1, z + 21);
        let h = hash::Hash::from_slice(hash_bytes.as_slice());
        self.pos = z + 21;
        proof {
            let desc = rem.subrange(0, z - start);
            assert(desc.subrange(sp - start + 1, z - start) =~= name@);
            assert(rem.subrange(z - start + 1, z - start + 21) =~= hash_bytes@);
            assert(self.remaining() =~= rem.subrange(z - start + 21, rem.len() as int));
        }
        if !is_utf8(name.as_slice()) {
            return Err(Error::InvalidObject);
        }
        Ok(Some((name, h, mode)))
    }
}

/// Reads every entry of a tree object's content; `InvalidObject` if any is malformed.
pub fn read_tree(content: &[u8]) -> (r: Result<Vec<(Vec<u8>, hash::Hash, Mode)>, Error>)
    ensures
        parse_tree(content@).is_none() ==> r == Err::<Vec<(Vec<u8>, hash::Hash, Mode)>, Error>(
            Error::InvalidObject,
        ),
        parse_tree(content@).is_some() ==> r.is_ok() && entries_view(r.unwrap()@) == parse_tree(
            content@,
        ).unwrap(),
{
    let mut iter = TreeIter::new(content);
    let mut out: Vec<(Vec<u8>, hash::Hash, Mode)> = Vec::new();
    loop
        invariant
            iter.wf(),
            parse_tree(content@) == match parse_tree(iter.remaining()) {
                None => None,
                Some(rest) => Some(entries_view(out@) + rest),
            },
        decreases iter.remaining().len(),
    {
        let ghost rem = iter.remaining();
        match iter.next() {
            Err(e) => {
                return Err(e);
            },
            Ok(None) => {
                assert(entries_view(out@) + Seq::<TreeEntry>::empty() =~= entries_view(out@));
                return Ok(out);
            },
            Ok(Some(t)) => {
                let ghost (e, n) = parse_entry(rem).unwrap();
                let ghost old_out = out@;
                out.push(t);
                proof {
                    assert(entries_view(out@) =~= entries_view(old_out) + seq![e]);
                    match parse_tree(iter.remaining()) {
                        None => {},
                        Some(rest) => {
                            assert(entries_view(out@) + rest =~= entries_view(old_out) + (seq![e]
                                + rest));
                        },
                    }
                }
            },
        }
    }
}

/// The entries read from a tree, in mathematical terms.
pub open spec fn entries_view(v: Seq<(Vec<u8>, hash::Hash, Mode)>) -> Seq<TreeEntry> {
    Seq::new(v.len(), |i: int| TreeEntry { name: v[i].0@, hash: v[i].1@, mode: v[i].2 })
}

/// Relies on std's `str::from_utf8`: whether the bytes are valid UTF-8.
#[verifier::external_body]
pub fn is_utf8(b: &[u8]) -> (r: bool)
    ensures
        r == valid_utf8(b@),
{
    std::str::from_utf8(b).is_ok()
}

/// Bytes below 0x80 are valid UTF-8.
pub proof fn lemma_ascii_utf8(s: Seq<u8>)
    requires
        forall|i: int| 0 <= i < s.len() ==> s[i] < 0x80u8,
    ensures
        valid_utf8(s),
    decreases s.len(),
{
    if s.len() > 0 {
        assert(vstd::utf8::is_leading_byte_width_1(s[0]));
        assert(vstd::utf8::valid_first_scalar(s));
        assert(vstd::utf8::pop_first_scalar(s) =~= s.drop_first());
        lemma_ascii_utf8(s.drop_first());
    }
}

} // verus!
