use vstd::prelude::*;

use crate::hash;
use crate::tree::{copy_range, find_byte, find_byte_in, lemma_find_byte};
use crate::Error;
use vstd::utf8::valid_utf8_concat;

verus! {

/// A field of a commit object.
#[derive(Debug, Clone, Copy, PartialEq, Eq, Structural)]
pub enum CommitField {
    Tree,
    Parent(usize),
    Author,
    AuthorEmail,
    AuthorTimezone,
    AuthorTimestamp,
    Committer,
    CommitterEmail,
    CommitterTimestamp,
    CommitterTimezone,
    Message,
}

/// The header key that holds a field.
pub open spec fn field_key(f: CommitField) -> Seq<u8> {
    match f {
        CommitField::Tree => seq![116u8, 114, 101, 101],
        CommitField::Parent(_) => seq![112u8, 97, 114, 101, 110, 116],
        CommitField::Author | CommitField::AuthorEmail | CommitField::AuthorTimestamp
        | CommitField::AuthorTimezone => seq![97u8, 117, 116, 104, 111, 114],
        _ => seq![99u8, 111, 109, 109, 105, 116, 116, 101, 114],
    }
}

fn field_key_bytes(f: CommitField) -> (r: Vec<u8>)
    ensures
        r@ == field_key(f),
{
    let r: Vec<u8> = match f {
        CommitField::Tree => vec![116u8, 114, 101, 101],
        CommitField::Parent(_) => vec![112u8, 97, 114, 101, 110, 116],
        CommitField::Author | CommitField::AuthorEmail | CommitField::AuthorTimestamp
        | CommitField::AuthorTimezone => vec![97u8, 117, 116, 104, 111, 114],
        _ => vec![99u8, 111, 109, 109, 105, 116, 116, 101, 114],
    };
    assert(r@ =~= field_key(f));
    r
}

/// The position of the first `a` immediately followed by `b` in `s`, or -1.
pub open spec fn find_pair(s: Seq<u8>, a: u8, b: u8) -> int
    decreases s.len(),
{
    if s.len() < 2 {
        -1
    } else if s[0] == a && s[1] == b {
        0
    } else {
        let r = find_pair(s.drop_first(), a, b);
        if r < 0 {
            -1
        } else {
            r + 1
        }
    }
}

pub proof fn lemma_find_pair(s: Seq<u8>, a: u8, b: u8, i: int)
    requires
        0 <= i,
        i + 1 <= s.len(),
        forall|j: int| 0 <= j < i ==> !(#[trigger] s[j] == a && s[j + 1] == b),
    ensures
        i + 1 < s.len() && s[i] == a && s[i + 1] == b ==> find_pair(s, a, b) == i,
        i + 1 == s.len() ==> find_pair(s, a, b) == -1,
    decreases i,
{
    if i > 0 {
        lemma_find_pair(s.drop_first(), a, b, i - 1);
    }
}

fn find_pair_in(s: &[u8], a: u8, b: u8, from: usize, to: usize) -> (r: Option<usize>)
    requires
        from <= to <= s@.len(),
    ensures
        find_pair(s@.subrange(from as int, to as int), a, b) == match r {
            Some(i) => i - from,
            None => -1,
        },
        r.is_some() ==> from <= r.unwrap() && r.unwrap() + 1 < to,
{
    let ghost t = s@.subrange(from as int, to as int);
    if to - from < 2 {
        return None;
    }
    let mut i: usize = from;
    while i + 1 < to
        invariant
            from <= i < to <= s@.len(),
            to - from >= 2,
            t == s@.subrange(from as int, to as int),
            forall|j: int| 0 <= j < i - from ==> !(#[trigger] t[j] == a && t[j + 1] == b),
        decreases to - i,
    {
        if s[i] == a && s[i + 1] == b {
            proof {
                lemma_find_pair(t, a, b, i - from);
            }
            return Some(i);
        }
        i += 1;
    }
    proof {
        lemma_find_pair(t, a, b, i - from);
    }
    None
}

/// The part of a person line (`<name> <<email>> <timestamp> <timezone>`) that a field
/// selects.
pub open spec fn person_part(v: Seq<u8>, f: CommitField) -> Result<Option<Seq<u8>>, Error> {
    let p = find_pair(v, 32u8, 60u8);
    if p < 0 {
        Err(Error::InvalidObject)
    } else {
        let name = v.subrange(0, p);
        let r1 = v.subrange(p + 2, v.len() as int);
        let q = find_pair(r1, 62u8, 32u8);
        if q < 0 {
            Err(Error::InvalidObject)
        } else {
            let email = r1.subrange(0, q);
            let r2 = r1.subrange(q + 2, r1.len() as int);
            let t = find_byte(r2, 32u8);
            if t < 0 {
                Err(Error::InvalidObject)
            } else {
                let timestamp = r2.subrange(0, t);
                let timezone = r2.subrange(t + 1, r2.len() as int);
                Ok(
                    Some(
                        match f {
                            CommitField::Author | CommitField::Committer => name,
                            CommitField::AuthorEmail | CommitField::CommitterEmail => email,
                            CommitField::AuthorTimestamp | CommitField::CommitterTimestamp => timestamp,
                            _ => timezone,
                        },
                    ),
                )
            }
        }
    }
}

/// Looks a header field up in the header lines `meta`, where `seen` parent lines have
/// already been passed.
pub open spec fn header_field(meta: Seq<u8>, f: CommitField, seen: nat) -> Result<
    Option<Seq<u8>>,
    Error,
>
    decreases meta.len(),
{
    if meta.len() == 0 {
        Ok(None)
    } else {
        let nl = find_byte(meta, 10u8);
        let line = if nl < 0 {
            meta
        } else {
            meta.subrange(0, nl)
        };
        let rest = if nl < 0 {
            Seq::empty()
        } else {
            meta.subrange(nl + 1, meta.len() as int)
        };
        let sp = find_byte(line, 32u8);
        if sp < 0 {
            Err(Error::InvalidObject)
        } else if nl >= meta.len() {
            Err(Error::InvalidObject)
        } else {
            let key = line.subrange(0, sp);
            let value = line.subrange(sp + 1, line.len() as int);
            if key != field_key(f) {
                header_field(rest, f, seen)
            } else {
                match f {
                    CommitField::Tree => Ok(Some(value)),
                    CommitField::Parent(n) => if n == seen {
                        Ok(Some(value))
                    } else {
                        header_field(rest, f, seen + 1)
                    },
                    _ => person_part(value, f),
                }
            }
        }
    }
}

/// A field of a commit object's content, which must be UTF-8: the message follows the
/// first blank line, the other fields are read from the header lines before it.
pub open spec fn commit_field(c: Seq<u8>, f: CommitField) -> Result<Option<Seq<u8>>, Error> {
    let b = find_pair(c, 10u8, 10u8);
    if !vstd::utf8::valid_utf8(c) || b < 0 {
        Err(Error::InvalidObject)
    } else {
        let meta = c.subrange(0, b);
        let message = c.subrange(b + 2, c.len() as int);
        if f == CommitField::Message {
            if message.len() == 0 {
                Ok(None)
            } else {
                Ok(Some(message))
            }
        } else {
            header_field(meta, f, 0)
        }
    }
}

proof fn lemma_find_byte_bounds(s: Seq<u8>, b: u8)
    ensures
        -1 <= find_byte(s, b) < s.len(),
    decreases s.len(),
{
    if s.len() > 0 {
        lemma_find_byte_bounds(s.drop_first(), b);
    }
}

proof fn lemma_find_pair_bounds(s: Seq<u8>, a: u8, b: u8)
    ensures
        -1 <= find_pair(s, a, b),
        find_pair(s, a, b) >= 0 ==> find_pair(s, a, b) + 1 < s.len(),
    decreases s.len(),
{
    if s.len() >= 2 {
        lemma_find_pair_bounds(s.drop_first(), a, b);
    }
}

proof fn lemma_parent_bound(meta: Seq<u8>, n: usize, seen: nat)
    ensures
        header_field(meta, CommitField::Parent(n), seen) matches Ok(Some(_)) ==> n < seen
            + meta.len(),
    decreases meta.len(),
{
    if meta.len() > 0 {
        lemma_find_byte_bounds(meta, 10u8);
        let nl = find_byte(meta, 10u8);
        let rest = if nl < 0 {
            Seq::empty()
        } else {
            meta.subrange(nl + 1, meta.len() as int)
        };
        lemma_parent_bound(rest, n, seen);
        lemma_parent_bound(rest, n, seen + 1);
    }
}

fn person_part_exec(v: &[u8], f: CommitField) -> (r: Result<Option<Vec<u8>>, Error>)
    ensures
        match person_part(v@, f) {
            Err(e) => r == Err::<Option<Vec<u8>>, Error>(e),
            Ok(None) => r == Ok::<Option<Vec<u8>>, Error>(None),
            Ok(Some(x)) => r.is_ok() && r.unwrap().is_some() && r.unwrap().unwrap()@ == x,
        },
{
    let len = v.len();
    assert(v@.subrange(0, len as int) =~= v@);
    let p = match find_pair_in(v, 32u8, 60u8, 0, len) {
        Some(p) => p,
        None => return Err(Error::InvalidObject),
    };
    let ghost r1 = v@.subrange(p + 2, len as int);
    let q = match find_pair_in(v, 62u8, 32u8, p + 2, len) {
        Some(q) => q,
        None => return Err(Error::InvalidObject),
    };
    let ghost r2 = r1.subrange(q - p - 2 + 2, r1.len() as int);
    assert(r2 =~= v@.subrange(q + 2, len as int));
    let t = match find_byte_in(v, 32u8, q + 2, len) {
        Some(t) => t,
        None => return Err(Error::InvalidObject),
    };
    let part = match f {
        CommitField::Author | CommitField::Committer => copy_range(v, 0, p),
        CommitField::AuthorEmail | CommitField::CommitterEmail => copy_range(v, p + 2, q),
        CommitField::AuthorTimestamp | CommitField::CommitterTimestamp => copy_range(v, q + 2, t),
        _ => copy_range(v, t + 1, len),
    };
    proof {
        assert(r1.subrange(0, q - p - 2) =~= v@.subrange(p + 2, q as int));
        assert(r2.subrange(0, t - q - 2) =~= v@.subrange(q + 2, t as int));
        assert(r2.subrange(t - q - 2 + 1, r2.len() as int) =~= v@.subrange(t + 1, len as int));
    }
    Ok(Some(part))
}

/// Reads a field of a commit object's content; `InvalidObject` on a malformed header.
pub fn get_commit_field(commit: &[u8], field: CommitField) -> (r: Result<Option<Vec<u8>>, Error>)
    ensures
        match commit_field(commit@, field) {
            Err(e) => r == Err::<Option<Vec<u8>>, Error>(e),
            Ok(None) => r == Ok::<Option<Vec<u8>>, Error>(None),
            Ok(Some(x)) => r.is_ok() && r.unwrap().is_some() && r.unwrap().unwrap()@ == x,
        },
{
    if !crate::tree::is_utf8(commit) {
        return Err(Error::InvalidObject);
    }
    let len = commit.len();
    assert(commit@.subrange(0, len as int) =~= commit@);
    let b = match find_pair_in(commit, 10u8, 10u8, 0, len) {
        Some(b) => b,
        None => return Err(Error::InvalidObject),
    };
    if field == CommitField::Message {
        if b + 2 == len {
            return Ok(None);
        }
        return Ok(Some(copy_range(commit, b + 2, len)));
    }
    let key = field_key_bytes(field);
    let mut pos: usize = 0;
    let mut seen: usize = 0;
    let ghost meta = commit@.subrange(0, b as int);
    assert(meta.subrange(0, b as int) =~= meta);
    while pos < b
        invariant
            pos <= b < len == commit@.len(),
            vstd::utf8::valid_utf8(commit@),
            find_pair(commit@, 10u8, 10u8) == b,
            meta == commit@.subrange(0, b as int),
            key@ == field_key(field),
            seen <= pos,
            field != CommitField::Message,
            header_field(meta, field, 0) == header_field(
                commit@.subrange(pos as int, b as int),
                field,
                seen as nat,
            ),
        decreases b - pos,
    {
        let ghost m = commit@.subrange(pos as int, b as int);
        let nl = find_byte_in(commit, 10u8, pos, b);
        let end = match nl {
            Some(k) => k,
            None => b,
        };
        let ghost line = m.subrange(0, end - pos);
        assert(line =~= commit@.subrange(pos as int, end as int));
        proof {
            lemma_find_byte_bounds(m, 10u8);
            if nl.is_none() {
                assert(line =~= m);
            }
        }
        let sp = match find_byte_in(commit, 32u8, pos, end) {
            Some(sp) => sp,
            None => {
                assert(find_byte(line, 32u8) < 0);
                assert(header_field(m, field, seen as nat) == Err::<Option<Seq<u8>>, Error>(
                    Error::InvalidObject,
                ));
                return Err(Error::InvalidObject);
            },
        };
        let ghost value = line.subrange(sp - pos + 1, line.len() as int);
        assert(value =~= commit@.subrange(sp + 1, end as int));
        assert(line.subrange(0, sp - pos) =~= commit@.subrange(pos as int, sp as int));
        let next = match nl {
            Some(k) => k + 1,
            None => b,
        };
        proof {
            if nl.is_some() {
                assert(m.subrange(end - pos + 1, m.len() as int) =~= commit@.subrange(
                    next as int,
                    b as int,
                ));
            } else {
                assert(commit@.subrange(b as int, b as int) =~= Seq::<u8>::empty());
            }
        }
        if crate::hash::bytes_equal(copy_range(commit, pos, sp).as_slice(), key.as_slice()) {
            match field {
                CommitField::Tree => {
                    return Ok(Some(copy_range(commit, sp + 1, end)));
                },
                CommitField::Parent(n) => {
                    if n == seen {
                        return Ok(Some(copy_range(commit, sp + 1, end)));
                    }
                    seen = seen + 1;
                },
                _ => {
                    let v = copy_range(commit, sp + 1, end);
                    assert(header_field(m, field, seen as nat) == person_part(v@, field));
                    return person_part_exec(v.as_slice(), field);
                },
            }
        }
        pos = next;
    }
    assert(commit@.subrange(pos as int, b as int).len() == 0);
    Ok(None)
}

/// Reads a field that holds an identifier; `InvalidObject` if it is not forty
/// hexadecimal digits.
pub fn get_commit_field_hash(commit: &[u8], field: CommitField) -> (r: Result<
    Option<hash::Hash>,
    Error,
>)
    ensures
        match commit_field(commit@, field) {
            Err(e) => r == Err::<Option<hash::Hash>, Error>(e),
            Ok(None) => r == Ok::<Option<hash::Hash>, Error>(None),
            Ok(Some(x)) => if hash::is_hex_id(x) {
                r.is_ok() && r.unwrap().is_some() && r.unwrap().unwrap()@ == hash::parse_hex_id(x)
            } else {
                r == Err::<Option<hash::Hash>, Error>(Error::InvalidObject)
            },
        },
{
    match get_commit_field(commit, field) {
        Err(e) => Err(e),
        Ok(None) => Ok(None),
        Ok(Some(hex)) => match hash::Hash::from_hex_bytes(hex.as_slice()) {
            Some(h) => Ok(Some(h)),
            None => Err(Error::InvalidObject),
        },
    }
}

/// Walks the `parent` headers of a commit object, in order.
pub struct CommitParentsIter<'a> {
    commit: &'a [u8],
    parent_index: usize,
}

impl<'a> CommitParentsIter<'a> {
    /// The commit content walked.
    pub closed spec fn content(&self) -> Seq<u8> {
        self.commit@
    }

    /// How many parents were handed out.
    pub closed spec fn index(&self) -> nat {
        self.parent_index as nat
    }

    pub fn new(commit_object: &'a [u8]) -> (r: CommitParentsIter<'a>)
        ensures
            r.content() == commit_object@,
            r.index() == 0,
    {
        CommitParentsIter { commit: commit_object, parent_index: 0 }
    }

    /// The next parent; `InvalidObject` on a malformed header.
    pub fn next(&mut self) -> (r: Result<Option<hash::Hash>, Error>)
        ensures
            final(self).content() == old(self).content(),
            match commit_field(old(self).content(), CommitField::Parent(old(self).index() as usize)) {
                Err(e) => r == Err::<Option<hash::Hash>, Error>(e),
                Ok(None) => r == Ok::<Option<hash::Hash>, Error>(None) && final(self).index()
                    == old(self).index(),
                Ok(Some(x)) => if hash::is_hex_id(x) {
                    r.is_ok() && r.unwrap().is_some() && r.unwrap().unwrap()@ == hash::parse_hex_id(
                        x,
                    ) && final(self).index() == old(self).index() + 1
                } else {
                    r == Err::<Option<hash::Hash>, Error>(Error::InvalidObject)
                },
            },
    {
        let field = CommitField::Parent(self.parent_index);
        match get_commit_field_hash(self.commit, field) {
            Err(e) => Err(e),
            Ok(None) => Ok(None),
            Ok(Some(parent)) => {
                let _len = self.commit.len();
                proof {
                    lemma_find_pair_bounds(self.commit@, 10u8, 10u8);
                    let b = find_pair(self.commit@, 10u8, 10u8);
                    lemma_parent_bound(self.commit@.subrange(0, b), self.parent_index, 0);
                }
                self.parent_index = self.parent_index + 1;
                Ok(Some(parent))
            },
        }
    }
}

/// The first pair is a pair, and none comes before it.
pub proof fn lemma_find_pair_first(s: Seq<u8>, a: u8, b: u8, k: int)
    requires
        0 <= k,
        k + 1 < s.len(),
        s[k] == a,
        s[k + 1] == b,
    ensures
        0 <= find_pair(s, a, b) <= k,
    decreases s.len(),
{
    if !(s[0] == a && s[1] == b) {
        lemma_find_pair_first(s.drop_first(), a, b, k - 1);
    }
}

/// No pair before `m` puts the first pair at `m` or later.
pub proof fn lemma_find_pair_after(s: Seq<u8>, a: u8, b: u8, m: int)
    requires
        0 <= m,
        forall|j: int| 0 <= j < m && j + 1 < s.len() ==> !(#[trigger] s[j] == a && s[j + 1] == b),
    ensures
        find_pair(s, a, b) < 0 || find_pair(s, a, b) >= m,
    decreases s.len(),
{
    if s.len() >= 2 && m > 0 {
        assert forall|j: int| 0 <= j < m - 1 && j + 1 < s.drop_first().len() implies !(
        #[trigger] s.drop_first()[j] == a && s.drop_first()[j + 1] == b) by {
            assert(s.drop_first()[j] == s[j + 1]);
            assert(s.drop_first()[j + 1] == s[j + 2]);
        }
        lemma_find_pair_after(s.drop_first(), a, b, m - 1);
    }
}

/// `"<name> <<email>> <seconds> +0000"`.
pub open spec fn person_text(name: Seq<u8>, email: Seq<u8>, ts: nat) -> Seq<u8> {
    name + seq![32u8, 60u8] + email + seq![62u8, 32u8] + crate::objects::decimal(ts) + seq![
        32u8,
        43,
        48,
        48,
        48,
        48,
    ]
}

/// The content of a commit object: a `tree` header, an optional `parent` header, the
/// `author` and `committer` headers, a blank line, and the message ending with a newline.
pub open spec fn commit_text(
    tree: Seq<u8>,
    parent: Option<Seq<u8>>,
    author: Seq<u8>,
    committer: Seq<u8>,
    message: Seq<u8>,
) -> Seq<u8> {
    commit_headers(tree, parent, author, committer) + seq![10u8] + message + seq![10u8]
}

/// The header lines of a commit object, each ending with a newline.
pub open spec fn commit_headers(
    tree: Seq<u8>,
    parent: Option<Seq<u8>>,
    author: Seq<u8>,
    committer: Seq<u8>,
) -> Seq<u8> {
    seq![116u8, 114, 101, 101, 32] + tree + seq![10u8] + match parent {
        Some(p) => seq![112u8, 97, 114, 101, 110, 116, 32] + p + seq![10u8],
        None => Seq::empty(),
    } + seq![97u8, 117, 116, 104, 111, 114, 32] + author + seq![10u8] + seq![
        99u8,
        111,
        109,
        109,
        105,
        116,
        116,
        101,
        114,
        32,
    ] + committer + seq![10u8]
}

/// Whether a string may stand in a person line: no `<`, `>` or newline.
pub open spec fn valid_person_part(s: Seq<u8>) -> bool {
    forall|i: int| 0 <= i < s.len() ==> s[i] != 60u8 && s[i] != 62u8 && s[i] != 10u8
}

/// Tests a string for `<`, `>` and newline.
pub fn valid_person_part_exec(s: &[u8]) -> (r: bool)
    ensures
        r == valid_person_part(s@),
{
    let mut i: usize = 0;
    while i < s.len()
        invariant
            i <= s@.len(),
            forall|k: int| 0 <= k < i ==> s@[k] != 60u8 && s@[k] != 62u8 && s@[k] != 10u8,
        decreases s@.len() - i,
    {
        if s[i] == 60u8 || s[i] == 62u8 || s[i] == 10u8 {
            return false;
        }
        i += 1;
    }
    true
}

/// Appends `"<name> <<email>> <seconds> +0000"`.
pub fn write_person(out: &mut Vec<u8>, name: &[u8], email: &[u8], ts: u64)
    ensures
        final(out)@ == old(out)@ + person_text(name@, email@, ts as nat),
{
    let ghost start = out@;
    crate::objects::append_bytes(out, name);
    out.push(32u8);
    out.push(60u8);
    crate::objects::append_bytes(out, email);
    out.push(62u8);
    out.push(32u8);
    crate::objects::write_decimal(out, ts);
    out.push(32u8);
    out.push(43u8);
    out.push(48u8);
    out.push(48u8);
    out.push(48u8);
    out.push(48u8);
    assert(out@ =~= start + person_text(name@, email@, ts as nat));
}

/// Builds the content of a commit object.
pub fn write_commit(
    tree: hash::Hash,
    parent: Option<hash::Hash>,
    author: (&[u8], &[u8]),
    committer: (&[u8], &[u8]),
    ts: u64,
    message: &[u8],
) -> (r: Vec<u8>)
    ensures
        r@ == commit_text(
            hash::hex_of(tree@),
            match parent {
                Some(p) => Some(hash::hex_of(p@)),
                None => None,
            },
            person_text(author.0@, author.1@, ts as nat),
            person_text(committer.0@, committer.1@, ts as nat),
            message@,
        ),
{
    let mut out: Vec<u8> = vec![116u8, 114, 101, 101, 32];
    tree.write_hex(&mut out);
    out.push(10u8);
    match parent {
        Some(p) => {
            let prefix: Vec<u8> = vec![112u8, 97, 114, 101, 110, 116, 32];
            crate::objects::append_bytes(&mut out, prefix.as_slice());
            p.write_hex(&mut out);
            out.push(10u8);
        },
        None => {},
    }
    let ghost s2 = out@;
    let a: Vec<u8> = vec![97u8, 117, 116, 104, 111, 114, 32];
    crate::objects::append_bytes(&mut out, a.as_slice());
    write_person(&mut out, author.0, author.1, ts);
    out.push(10u8);
    let c: Vec<u8> = vec![99u8, 111, 109, 109, 105, 116, 116, 101, 114, 32];
    crate::objects::append_bytes(&mut out, c.as_slice());
    write_person(&mut out, committer.0, committer.1, ts);
    out.push(10u8);
    out.push(10u8);
    crate::objects::append_bytes(&mut out, message);
    out.push(10u8);
    proof {
        let pt = match parent {
            Some(p) => Some(hash::hex_of(p@)),
            None => None,
        };
        assert(s2 =~= seq![116u8, 114, 101, 101, 32] + hash::hex_of(tree@) + seq![10u8] + match pt {
            Some(p) => seq![112u8, 97, 114, 101, 110, 116, 32] + p + seq![10u8],
            None => Seq::empty(),
        });
        assert(out@ =~= commit_text(
            hash::hex_of(tree@),
            pt,
            person_text(author.0@, author.1@, ts as nat),
            person_text(committer.0@, committer.1@, ts as nat),
            message@,
        ));
    }
    out
}

proof fn lemma_hex_chars(h: Seq<u8>, j: int)
    requires
        0 <= j < hash::hex_of(h).len(),
    ensures
        hash::hex_of(h)[j] != 10u8,
        hash::hex_of(h)[j] != 32u8,
{
    let b = h[j / 2];
    assert(b / 16 < 16 && b % 16 < 16);
}

/// The `tree` header of a commit object built by `write_commit` reads back as the tree
/// it was built with.
pub proof fn lemma_commit_tree(
    tree: Seq<u8>,
    parent: Option<Seq<u8>>,
    author: Seq<u8>,
    committer: Seq<u8>,
    message: Seq<u8>,
)
    requires
        tree.len() == 20,
        vstd::utf8::valid_utf8(commit_text(hash::hex_of(tree), parent, author, committer, message)),
    ensures
        commit_field(
            commit_text(hash::hex_of(tree), parent, author, committer, message),
            CommitField::Tree,
        ) == Ok::<Option<Seq<u8>>, Error>(Some(hash::hex_of(tree))),
{
    let hx = hash::hex_of(tree);
    let hd = commit_headers(hx, parent, author, committer);
    let c = commit_text(hx, parent, author, committer, message);
    assert(c =~= hd + (seq![10u8] + message + seq![10u8]));
    assert(hd.len() >= 47);
    assert forall|j: int| 0 <= j < 40 implies hd[5 + j] == hx[j] by {}
    assert(hd[45] == 10u8);
    assert(hd[46] == 112u8 || hd[46] == 97u8);
    assert(hd[hd.len() - 1] == 10u8);
    let k = hd.len() - 1;
    assert(c[k] == 10u8 && c[k + 1] == 10u8);
    lemma_find_pair_first(c, 10u8, 10u8, k);
    assert forall|j: int| 0 <= j < 46 && j + 1 < c.len() implies !(#[trigger] c[j] == 10u8 && c[j
        + 1] == 10u8) by {
        if j < 5 {
        } else if j < 45 {
            lemma_hex_chars(tree, j - 5);
        }
    }
    lemma_find_pair_after(c, 10u8, 10u8, 46);
    let b = find_pair(c, 10u8, 10u8);
    let meta = c.subrange(0, b);
    assert forall|j: int| 0 <= j < 45 implies meta[j] != 10u8 by {
        if j >= 5 {
            lemma_hex_chars(tree, j - 5);
        }
    }
    assert(meta[45] == 10u8);
    lemma_find_byte(meta, 10u8, 45);
    let line = meta.subrange(0, 45);
    assert(line[4] == 32u8);
    lemma_find_byte(line, 32u8, 4);
    assert(line.subrange(0, 4) =~= field_key(CommitField::Tree));
    assert(line.subrange(5, 45) =~= hx);
}

proof fn lemma_decimal_ascii(n: nat)
    ensures
        forall|i: int| 0 <= i < crate::objects::decimal(n).len() ==> #[trigger] crate::objects::decimal(n)[i] < 0x80u8,
    decreases n,
{
    let d = crate::objects::decimal(n);
    if n >= 10 {
        lemma_decimal_ascii(n / 10);
        let p = crate::objects::decimal(n / 10);
        assert forall|i: int| 0 <= i < d.len() implies #[trigger] d[i] < 0x80u8 by {
            if i < p.len() {
                assert(d[i] == p[i]);
            }
        }
    }
}

proof fn lemma_hex_ascii(h: Seq<u8>)
    ensures
        forall|i: int| 0 <= i < hash::hex_of(h).len() ==> #[trigger] hash::hex_of(h)[i] < 0x80u8,
{
    assert forall|i: int| 0 <= i < hash::hex_of(h).len() implies #[trigger] hash::hex_of(h)[i] < 0x80u8 by {
        let b = h[i / 2];
        assert(b / 16 < 16 && b % 16 < 16);
    }
}

/// The content of a commit built from UTF-8 names, emails and message is UTF-8.
pub proof fn lemma_commit_text_utf8(
    tree: Seq<u8>,
    parent: Option<Seq<u8>>,
    author: (Seq<u8>, Seq<u8>),
    committer: (Seq<u8>, Seq<u8>),
    ts: nat,
    message: Seq<u8>,
)
    requires
        vstd::utf8::valid_utf8(author.0),
        vstd::utf8::valid_utf8(author.1),
        vstd::utf8::valid_utf8(committer.0),
        vstd::utf8::valid_utf8(committer.1),
        vstd::utf8::valid_utf8(message),
    ensures
        vstd::utf8::valid_utf8(
            commit_text(
                hash::hex_of(tree),
                match parent {
                    Some(p) => Some(hash::hex_of(p)),
                    None => None,
                },
                person_text(author.0, author.1, ts),
                person_text(committer.0, committer.1, ts),
                message,
            ),
        ),
{
    lemma_decimal_ascii(ts);
    crate::tree::lemma_ascii_utf8(crate::objects::decimal(ts));
    lemma_hex_ascii(tree);
    crate::tree::lemma_ascii_utf8(hash::hex_of(tree));
    crate::tree::lemma_ascii_utf8(seq![32u8, 60u8]);
    crate::tree::lemma_ascii_utf8(seq![62u8, 32u8]);
    crate::tree::lemma_ascii_utf8(seq![32u8, 43, 48, 48, 48, 48]);
    crate::tree::lemma_ascii_utf8(seq![116u8, 114, 101, 101, 32]);
    crate::tree::lemma_ascii_utf8(seq![10u8]);
    crate::tree::lemma_ascii_utf8(seq![112u8, 97, 114, 101, 110, 116, 32]);
    crate::tree::lemma_ascii_utf8(seq![97u8, 117, 116, 104, 111, 114, 32]);
    crate::tree::lemma_ascii_utf8(seq![99u8, 111, 109, 109, 105, 116, 116, 101, 114, 32]);
    crate::tree::lemma_ascii_utf8(Seq::<u8>::empty());
    if let Some(p) = parent {
        lemma_hex_ascii(p);
        crate::tree::lemma_ascii_utf8(hash::hex_of(p));
    }
    lemma_person_utf8(author.0, author.1, ts);
    lemma_person_utf8(committer.0, committer.1, ts);
    let pt = match parent {
        Some(p) => Some(hash::hex_of(p)),
        None => None,
    };
    let pp = match pt {
        Some(p) => seq![112u8, 97, 114, 101, 110, 116, 32] + p + seq![10u8],
        None => Seq::empty(),
    };
    if let Some(p) = pt {
        valid_utf8_concat(seq![112u8, 97, 114, 101, 110, 116, 32], p);
        valid_utf8_concat(seq![112u8, 97, 114, 101, 110, 116, 32] + p, seq![10u8]);
    }
    let h1 = seq![116u8, 114, 101, 101, 32] + hash::hex_of(tree);
    valid_utf8_concat(seq![116u8, 114, 101, 101, 32], hash::hex_of(tree));
    valid_utf8_concat(h1, seq![10u8]);
    valid_utf8_concat(h1 + seq![10u8], pp);
    let h2 = h1 + seq![10u8] + pp;
    let pa = person_text(author.0, author.1, ts);
    let pc = person_text(committer.0, committer.1, ts);
    valid_utf8_concat(h2, seq![97u8, 117, 116, 104, 111, 114, 32]);
    valid_utf8_concat(h2 + seq![97u8, 117, 116, 104, 111, 114, 32], pa);
    let h3 = h2 + seq![97u8, 117, 116, 104, 111, 114, 32] + pa;
    valid_utf8_concat(h3, seq![10u8]);
    let c = seq![99u8, 111, 109, 109, 105, 116, 116, 101, 114, 32];
    valid_utf8_concat(h3 + seq![10u8], c);
    valid_utf8_concat(h3 + seq![10u8] + c, pc);
    let h4 = h3 + seq![10u8] + c + pc;
    valid_utf8_concat(h4, seq![10u8]);
    let hd = commit_headers(hash::hex_of(tree), pt, pa, pc);
    assert(hd =~= h4 + seq![10u8]);
    valid_utf8_concat(hd, seq![10u8]);
    valid_utf8_concat(hd + seq![10u8], message);
    valid_utf8_concat(hd + seq![10u8] + message, seq![10u8]);
}

proof fn lemma_person_utf8(name: Seq<u8>, email: Seq<u8>, ts: nat)
    requires
        vstd::utf8::valid_utf8(name),
        vstd::utf8::valid_utf8(email),
    ensures
        vstd::utf8::valid_utf8(person_text(name, email, ts)),
{
    lemma_decimal_ascii(ts);
    crate::tree::lemma_ascii_utf8(crate::objects::decimal(ts));
    crate::tree::lemma_ascii_utf8(seq![32u8, 60u8]);
    crate::tree::lemma_ascii_utf8(seq![62u8, 32u8]);
    crate::tree::lemma_ascii_utf8(seq![32u8, 43, 48, 48, 48, 48]);
    valid_utf8_concat(name, seq![32u8, 60u8]);
    valid_utf8_concat(name + seq![32u8, 60u8], email);
    valid_utf8_concat(name + seq![32u8, 60u8] + email, seq![62u8, 32u8]);
    let a = name + seq![32u8, 60u8] + email + seq![62u8, 32u8];
    valid_utf8_concat(a, crate::objects::decimal(ts));
    valid_utf8_concat(a + crate::objects::decimal(ts), seq![32u8, 43, 48, 48, 48, 48]);
}

} // verus!
