use vstd::prelude::*;
use vstd::string::StringSliceAdditionalSpecFns;

use crate::hash;
use crate::objects::append_bytes;
use crate::packfile::PackfileReader;
use crate::protocol::{hex4, write_line, PacketLine};
use crate::push::{has_word, has_word_exec, starts_with};
use crate::repository::{commit_root, tree_of, Repository};
use crate::tree::{copy_range, find_byte, find_byte_in};
use crate::Error;

verus! {

/// What to clone from a remote repository.
#[derive(Debug)]
pub enum Reference<'a> {
    Head,
    Commit(hash::Hash),
    Branch(&'a str),
}

/// `"fetch="`.
pub open spec fn fetch_prefix() -> Seq<u8> {
    seq![102u8, 101, 116, 99, 104, 61]
}

/// `"shallow"`.
pub open spec fn shallow_word() -> Seq<u8> {
    seq![115u8, 104, 97, 108, 108, 111, 119]
}

/// Whether a capability line offers `shallow` among its fetch options.
pub open spec fn offers_shallow(line: Seq<u8>) -> bool {
    starts_with(line, fetch_prefix()) && has_word(line.subrange(6, line.len() as int), shallow_word())
}

/// Tests whether a capability line offers `shallow` among its fetch options.
pub fn capability_offers_shallow(line: &[u8]) -> (r: bool)
    ensures
        r == offers_shallow(line@),
{
    let prefix: Vec<u8> = vec![102u8, 101, 116, 99, 104, 61];
    let word: Vec<u8> = vec![115u8, 104, 97, 108, 108, 111, 119];
    assert(prefix@ =~= fetch_prefix());
    assert(word@ =~= shallow_word());
    if line.len() < 6 || !hash::bytes_equal(&line[0..6], prefix.as_slice()) {
        return false;
    }
    has_word_exec(&line[6..line.len()], word.as_slice())
}

/// `"HEAD"`.
pub open spec fn head_name() -> Seq<u8> {
    seq![72u8, 69, 65, 68]
}

/// `"refs/heads/"`.
pub open spec fn heads_prefix() -> Seq<u8> {
    seq![114u8, 101, 102, 115, 47, 104, 101, 97, 100, 115, 47]
}

/// Whether an advertised reference name is the one asked for.
pub open spec fn names_reference(name: Seq<u8>, reference: Reference) -> bool {
    match reference {
        Reference::Head => name == head_name(),
        Reference::Branch(b) => name == heads_prefix() + b.spec_bytes(),
        Reference::Commit(_) => false,
    }
}

/// What an `ls-refs` line `"<hash> <name>"` says of the reference asked for: `None` when
/// it names another, `Err` when it is malformed or its hash is not forty hex digits.
pub open spec fn ref_line_target(line: Seq<u8>, reference: Reference) -> Result<Option<Seq<u8>>, Error> {
    let sp = find_byte(line, 32u8);
    if sp < 0 {
        Err(Error::GitProtocolError)
    } else if !names_reference(line.subrange(sp + 1, line.len() as int), reference) {
        Ok(None)
    } else if !hash::is_hex_id(line.subrange(0, sp)) {
        Err(Error::GitProtocolError)
    } else {
        Ok(Some(hash::parse_hex_id(line.subrange(0, sp))))
    }
}

/// Reads an `ls-refs` line (see `ref_line_target`).
pub fn match_ref_line(line: &[u8], reference: &Reference) -> (r: Result<Option<hash::Hash>, Error>)
    ensures
        match ref_line_target(line@, *reference) {
            Err(e) => r == Err::<Option<hash::Hash>, Error>(e),
            Ok(None) => r == Ok::<Option<hash::Hash>, Error>(None),
            Ok(Some(h)) => r.is_ok() && r.unwrap().is_some() && r.unwrap().unwrap()@ == h,
        },
{
    let len = line.len();
    assert(line@.subrange(0, len as int) =~= line@);
    let sp = match find_byte_in(line, 32u8, 0, len) {
        Some(sp) => sp,
        None => return Err(Error::GitProtocolError),
    };
    let name = &line[sp + 1..len];
    let wanted: Vec<u8> = match reference {
        Reference::Head => vec![72u8, 69, 65, 68],
        Reference::Branch(b) => {
            let mut w: Vec<u8> = vec![114u8, 101, 102, 115, 47, 104, 101, 97, 100, 115, 47];
            append_bytes(&mut w, b.as_bytes());
            w
        },
        Reference::Commit(_) => return Ok(None),
    };
    assert(names_reference(name@, *reference) == (name@ == wanted@)) by {
        match reference {
            Reference::Head => assert(wanted@ =~= head_name()),
            Reference::Branch(b) => assert(wanted@ =~= heads_prefix() + b.spec_bytes()),
            _ => {},
        }
    }
    if !hash::bytes_equal(name, wanted.as_slice()) {
        return Ok(None);
    }
    match hash::Hash::from_hex_bytes(&line[0..sp]) {
        Some(h) => Ok(Some(h)),
        None => Err(Error::GitProtocolError),
    }
}

/// The tip that `ls-refs` lines `lines[i..]` give for the reference, after `found` from
/// the lines before: a later matching line wins, and the first malformed line is an
/// error.
pub open spec fn scan_refs(
    lines: Seq<Vec<u8>>,
    reference: Reference,
    i: nat,
    found: Option<Seq<u8>>,
) -> Result<Option<Seq<u8>>, Error>
    decreases lines.len() - i,
{
    if i >= lines.len() {
        Ok(found)
    } else {
        match ref_line_target(lines[i as int]@, reference) {
            Err(e) => Err(e),
            Ok(None) => scan_refs(lines, reference, i + 1, found),
            Ok(Some(h)) => scan_refs(lines, reference, i + 1, Some(h)),
        }
    }
}

/// The commit to fetch: a commit reference names it; otherwise the last advertised line
/// that names the reference gives it, and none is `NoSuchReference`.
pub fn find_reference(lines: &Vec<Vec<u8>>, reference: &Reference) -> (r: Result<hash::Hash, Error>)
    ensures
        *reference matches Reference::Commit(h) ==> r == Ok::<hash::Hash, Error>(h),
        !(*reference matches Reference::Commit(_)) ==> match scan_refs(lines@, *reference, 0, None) {
            Err(e) => r == Err::<hash::Hash, Error>(e),
            Ok(None) => r == Err::<hash::Hash, Error>(Error::NoSuchReference),
            Ok(Some(h)) => r.is_ok() && r.unwrap()@ == h,
        },
{
    if let Reference::Commit(h) = reference {
        return Ok(*h);
    }
    let mut found: Option<hash::Hash> = None;
    let mut i: usize = 0;
    while i < lines.len()
        invariant
            i <= lines@.len(),
            !(*reference matches Reference::Commit(_)),
            scan_refs(lines@, *reference, 0, None) == scan_refs(
                lines@,
                *reference,
                i as nat,
                match found {
                    Some(h) => Some(h@),
                    None => None,
                },
            ),
        decreases lines@.len() - i,
    {
        match match_ref_line(lines[i].as_slice(), reference) {
            Err(e) => return Err(e),
            Ok(None) => {},
            Ok(Some(h)) => found = Some(h),
        }
        i += 1;
    }
    match found {
        Some(h) => Ok(h),
        None => Err(Error::NoSuchReference),
    }
}

/// `"command=ls-refs\n"`.
pub open spec fn ls_refs_command() -> Seq<u8> {
    seq![99u8, 111, 109, 109, 97, 110, 100, 61, 108, 115, 45, 114, 101, 102, 115, 10]
}

/// The framed `ls-refs` request: the command, a delimiter and a flush.
pub fn ls_refs_request() -> (r: Vec<u8>)
    ensures
        r@ == data_line(ls_refs_command()) + hex4(1) + hex4(0),
{
    let mut out: Vec<u8> = Vec::new();
    let cmd: Vec<u8> = vec![99u8, 111, 109, 109, 97, 110, 100, 61, 108, 115, 45, 114, 101, 102, 115, 10];
    assert(cmd@ =~= ls_refs_command());
    write_line(&mut out, &PacketLine::Bytes(cmd.as_slice()));
    write_line(&mut out, &PacketLine::DelimiterPacket);
    write_line(&mut out, &PacketLine::FlushPacket);
    assert(out@ =~= data_line(ls_refs_command()) + hex4(1) + hex4(0));
    out
}

/// The framed data line holding `payload`.
pub open spec fn data_line(payload: Seq<u8>) -> Seq<u8> {
    hex4(payload.len() + 4) + payload
}

/// The framed `fetch` request for `want`, asking for no progress, with `deepen <n>` when
/// a depth is given, then `done` and a flush.
pub open spec fn fetch_lines(want: Seq<u8>, depth: Option<nat>) -> Seq<u8> {
    data_line(seq![99u8, 111, 109, 109, 97, 110, 100, 61, 102, 101, 116, 99, 104, 10]) + hex4(1)
        + data_line(seq![119u8, 97, 110, 116, 32] + hash::hex_of(want)) + data_line(
        seq![110u8, 111, 45, 112, 114, 111, 103, 114, 101, 115, 115],
    ) + match depth {
        Some(n) => data_line(seq![100u8, 101, 101, 112, 101, 110, 32] + crate::objects::decimal(n)),
        None => Seq::empty(),
    } + data_line(seq![100u8, 111, 110, 101]) + hex4(0)
}

fn push_data_line(out: &mut Vec<u8>, payload: &Vec<u8>)
    requires
        payload@.len() + 4 <= crate::protocol::MAX_PKT_LEN,
    ensures
        final(out)@ == old(out)@ + data_line(payload@),
{
    write_line(out, &PacketLine::Bytes(payload.as_slice()));
}

/// The framed `fetch` request (see `fetch_lines`); `UnsupportedByRemote` when a depth is
/// asked of a remote that does not offer `shallow`.
pub fn fetch_request(want: hash::Hash, depth: Option<u64>, shallow_supported: bool) -> (r: Result<
    Vec<u8>,
    Error,
>)
    ensures
        depth.is_some() && !shallow_supported ==> r == Err::<Vec<u8>, Error>(Error::UnsupportedByRemote),
        !(depth.is_some() && !shallow_supported) ==> r.is_ok() && r.unwrap()@ == fetch_lines(
            want@,
            match depth {
                Some(n) => Some(n as nat),
                None => None,
            },
        ),
{
    if depth.is_some() && !shallow_supported {
        return Err(Error::UnsupportedByRemote);
    }
    let mut out: Vec<u8> = Vec::new();
    let cmd: Vec<u8> = vec![99u8, 111, 109, 109, 97, 110, 100, 61, 102, 101, 116, 99, 104, 10];
    push_data_line(&mut out, &cmd);
    write_line(&mut out, &PacketLine::DelimiterPacket);
    let mut w: Vec<u8> = vec![119u8, 97, 110, 116, 32];
    want.write_hex(&mut w);
    push_data_line(&mut out, &w);
    let np: Vec<u8> = vec![110u8, 111, 45, 112, 114, 111, 103, 114, 101, 115, 115];
    push_data_line(&mut out, &np);
    if let Some(n) = depth {
        let mut d: Vec<u8> = vec![100u8, 101, 101, 112, 101, 110, 32];
        crate::objects::write_decimal(&mut d, n);
        proof {
            lemma_decimal_len(n as nat);
        }
        push_data_line(&mut out, &d);
    }
    let done: Vec<u8> = vec![100u8, 111, 110, 101];
    push_data_line(&mut out, &done);
    write_line(&mut out, &PacketLine::FlushPacket);
    proof {
        assert(cmd@ =~= seq![99u8, 111, 109, 109, 97, 110, 100, 61, 102, 101, 116, 99, 104, 10]);
        assert(np@ =~= seq![110u8, 111, 45, 112, 114, 111, 103, 114, 101, 115, 115]);
        assert(done@ =~= seq![100u8, 111, 110, 101]);
        assert(w@ =~= seq![119u8, 97, 110, 116, 32] + hash::hex_of(want@));
        assert(out@ =~= fetch_lines(
            want@,
            match depth {
                Some(n) => Some(n as nat),
                None => None,
            },
        ));
    }
    Ok(out)
}

spec fn pow10(k: nat) -> nat
    decreases k,
{
    if k == 0 {
        1
    } else {
        10 * pow10((k - 1) as nat)
    }
}

proof fn lemma_decimal_len_below(n: nat, k: nat)
    requires
        k >= 1,
        n < pow10(k),
    ensures
        crate::objects::decimal(n).len() <= k,
    decreases k,
{
    if n >= 10 {
        let p = pow10((k - 1) as nat);
        assert(n / 10 < p) by (nonlinear_arith)
            requires
                n < 10 * p,
        ;
        if k == 1 {
            assert(pow10(0) == 1);
        } else {
            lemma_decimal_len_below(n / 10, (k - 1) as nat);
        }
    }
}

proof fn lemma_decimal_len(n: nat)
    requires
        n <= u64::MAX,
    ensures
        crate::objects::decimal(n).len() <= 20,
{
    reveal_with_fuel(pow10, 21);
    assert(pow10(20) == 100000000000000000000nat);
    lemma_decimal_len_below(n, 20);
}

/// `"packfile\n"`.
pub open spec fn packfile_marker() -> Seq<u8> {
    seq![112u8, 97, 99, 107, 102, 105, 108, 101, 10]
}

/// Whether a line of the fetch response is the `packfile` section marker.
pub fn is_packfile_marker(line: &[u8]) -> (r: bool)
    ensures
        r == (line@ == packfile_marker()),
{
    let m: Vec<u8> = vec![112u8, 97, 99, 107, 102, 105, 108, 101, 10];
    assert(m@ =~= packfile_marker());
    hash::bytes_equal(line, m.as_slice())
}

impl Repository {
    /// `DirtyWorkspace` unless the workspace is clean; the repository is left as it is.
    pub fn check_clean(&self) -> (r: Result<(), Error>)
        requires
            self.wf(),
        ensures
            r.is_ok() == self.clean(),
            r.is_err() ==> r == Err::<(), Error>(Error::DirtyWorkspace),
    {
        let head = self.head_hash();
        let upstream = self.upstream_hash();
        if !(head == upstream) {
            return Err(Error::DirtyWorkspace);
        }
        match self.root_hash() {
            None => Ok(()),
            Some(root) => match self.get_commit_root(head) {
                Ok(Some(t)) => {
                    if t == root {
                        Ok(())
                    } else {
                        Err(Error::DirtyWorkspace)
                    }
                },
                _ => Err(Error::DirtyWorkspace),
            },
        }
    }

    /// Makes `head` both the head and the remote's tip, and its tree the working tree.
    pub fn install_head(&mut self, head: hash::Hash) -> (r: Result<(), Error>)
        requires
            old(self).wf(),
        ensures
            final(self).wf(),
            final(self).objects() == old(self).objects(),
            r.is_ok() == commit_root(old(self).objects(), head@).is_ok(),
            r.is_ok() ==> final(self).head() == head@ && final(self).upstream_head() == head@
                && final(self).root() == tree_of(old(self).objects(), head@),
            r.is_err() ==> *final(self) == *old(self),
    {
        let root = match self.get_commit_root(head) {
            Ok(r) => r,
            Err(e) => return Err(e),
        };
        self.set_heads(head, root);
        Ok(())
    }

    /// Stores the objects of a whole packfile and, when a head is given, installs it.
    pub fn import_packfile(&mut self, packfile: Vec<u8>, head: Option<hash::Hash>) -> (r: Result<(), Error>)
        requires
            old(self).wf(),
        ensures
            final(self).wf(),
            !(crate::packfile::header_count(packfile@) matches Ok(Some(_))) ==> r == Err::<(), Error>(
                Error::InvalidPackfile,
            ),
            crate::packfile::header_count(packfile@) matches Ok(Some(n)) ==> match crate::packfile::read_records(
                packfile@.subrange(12, packfile@.len() as int),
                n,
            ) {
                Err(e) => r == Err::<(), Error>(e),
                Ok(recs) => match crate::packfile::resolved_store(old(self).objects(), recs) {
                    Err(e) => r == Err::<(), Error>(e),
                    Ok(m) => final(self).objects() == m && match head {
                        None => r.is_ok(),
                        Some(h) => r.is_ok() == commit_root(m, h@).is_ok() && (r.is_ok()
                            ==> final(self).head() == h@ && final(self).upstream_head() == h@
                            && final(self).root() == tree_of(m, h@)),
                    },
                },
            },
    {
        let mut reader = match PackfileReader::from_file(packfile) {
            Ok(r) => r,
            Err(e) => return Err(e),
        };
        match self.read_objects(&mut reader) {
            Ok(()) => {},
            Err(e) => return Err(e),
        }
        match head {
            Some(h) => self.install_head(h),
            None => Ok(()),
        }
    }
}

} // verus!
