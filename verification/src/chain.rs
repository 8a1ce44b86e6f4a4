//! The chain overlay: an ordered stack of archives consulted as one
//! namespace. The archive added last stands in front and wins; a name is
//! read from the first archive that resolves it.

use vstd::prelude::*;

verus! {

use vstd::slice::slice_to_vec;
use vstd::string::StringSliceAdditionalSpecFns;
use vstd::utf8::{encode_utf8, valid_utf8};
use crate::archive::{spec_open, spec_open_file, spec_read, Archive, ArchiveModel, File};
use crate::MpqError;

/// The bytes of the name `"(listfile)"`: the conventional index file whose
/// lines name the archive's contents.
pub open spec fn listfile_name() -> Seq<u8> {
    seq![0x28u8, 0x6C, 0x69, 0x73, 0x74, 0x66, 0x69, 0x6C, 0x65, 0x29]
}

fn listfile_bytes() -> (r: Vec<u8>)
    ensures
        r@ == listfile_name(),
{
    let name: [u8; 10] = [0x28, 0x6C, 0x69, 0x73, 0x74, 0x66, 0x69, 0x6C, 0x65, 0x29];
    let v = slice_to_vec(name.as_slice());
    assert(v@ =~= listfile_name());
    v
}

/// Relies on String::from_utf8: it succeeds exactly on valid UTF-8 and
/// carries the very bytes it was given.
#[verifier::external_body]
fn bytes_to_string(v: Vec<u8>) -> (r: Option<String>)
    ensures
        match r {
            Some(s) => encode_utf8(s@) == v@,
            None => !valid_utf8(v@),
        },
{
    match String::from_utf8(v) {
        Ok(s) => Some(s),
        Err(_) => None,
    }
}

/// What reading a whole named file out of one archive yields: the decoded
/// bytes of a buffer sized to the file's unpacked size.
#[verifier::opaque]
pub open spec fn spec_archive_read(a: Archive, name: Seq<u8>) -> Result<Seq<u8>, MpqError> {
    match spec_open_file(a.model(), a.bytes(), a.spec_sector_size(), name) {
        Err(e) => Err(e),
        Ok(f) => {
            let buf = Seq::new(f.block.unpacked_size as nat, |j: int| 0u8);
            match spec_read(a.bytes(), a.model().base, f, a.spec_sector_size(), buf) {
                Err(e) => Err(e),
                Ok(out) => Ok(out.0),
            }
        },
    }
}

/// The chain read from archive `i` on: the first archive that resolves the
/// name supplies the bytes; only a missing name moves the probe on, every
/// other error propagates; a name in no archive is `NotFound`.
pub open spec fn spec_chain_read(archives: Seq<Archive>, name: Seq<u8>, i: int) -> Result<
    Seq<u8>,
    MpqError,
>
    decreases archives.len() - i,
{
    if i < 0 || i >= archives.len() {
        Err(MpqError::NotFound)
    } else {
        match spec_archive_read(archives[i], name) {
            Err(MpqError::NotFound) => spec_chain_read(archives, name, i + 1),
            Err(e) => Err(e),
            Ok(bytes) => Ok(bytes),
        }
    }
}

/// The index `e` at which the line that starts at `i` ends: the next
/// newline, or the end of the buffer.
pub open spec fn spec_line_end(s: Seq<u8>, i: int) -> int
    decreases s.len() - i,
{
    if i < 0 || i >= s.len() {
        s.len() as int
    } else if s[i] == 0x0A {
        i
    } else {
        spec_line_end(s, i + 1)
    }
}

/// A line's end lies between its start and the end of the buffer.
pub proof fn lemma_line_end_bounds(s: Seq<u8>, i: int)
    requires
        0 <= i <= s.len(),
    ensures
        i <= spec_line_end(s, i) <= s.len(),
    decreases s.len() - i,
{
    if i < s.len() && s[i] != 0x0A {
        lemma_line_end_bounds(s, i + 1);
    }
}

/// The lines of `s` from position `i` on: split at newlines, a carriage
/// return stripped before each newline, and no empty line after a final
/// newline.
pub open spec fn spec_lines_from(s: Seq<u8>, i: int) -> Seq<Seq<u8>>
    decreases s.len() - i,
    via spec_lines_from_dec
{
    if i < 0 || i >= s.len() {
        Seq::empty()
    } else {
        let e = spec_line_end(s, i);
        let raw = s.subrange(i, e);
        let line = if e < s.len() && raw.len() > 0 && raw[raw.len() - 1] == 0x0D {
            raw.drop_last()
        } else {
            raw
        };
        let rest = if e < s.len() {
            spec_lines_from(s, e + 1)
        } else {
            Seq::empty()
        };
        seq![line] + rest
    }
}

#[via_fn]
proof fn spec_lines_from_dec(s: Seq<u8>, i: int) {
    if 0 <= i < s.len() {
        lemma_line_end_bounds(s, i);
    }
}

/// The union step of the chain listing: append each line of `xs` that `acc`
/// does not hold yet; a line that is not valid UTF-8 cannot become a string
/// and is corrupt.
pub open spec fn spec_add_lines(acc: Seq<Seq<u8>>, xs: Seq<Seq<u8>>, j: int) -> Result<
    Seq<Seq<u8>>,
    MpqError,
>
    decreases xs.len() - j,
{
    if j < 0 || j >= xs.len() {
        Ok(acc)
    } else if acc.contains(xs[j]) {
        spec_add_lines(acc, xs, j + 1)
    } else if !valid_utf8(xs[j]) {
        Err(MpqError::InvalidData)
    } else {
        spec_add_lines(acc.push(xs[j]), xs, j + 1)
    }
}

/// The chain listing from archive `i` on, with the lines `acc` gathered so
/// far: the union of the `"(listfile)"` lines of every archive, first
/// occurrence first; an archive without the file contributes nothing.
pub open spec fn spec_chain_list(archives: Seq<Archive>, i: int, acc: Seq<Seq<u8>>) -> Result<
    Seq<Seq<u8>>,
    MpqError,
>
    decreases archives.len() - i,
{
    if i < 0 || i >= archives.len() {
        Ok(acc)
    } else {
        match spec_archive_read(archives[i], listfile_name()) {
            Err(MpqError::NotFound) => spec_chain_list(archives, i + 1, acc),
            Err(e) => Err(e),
            Ok(content) => match spec_add_lines(acc, spec_lines_from(content, 0), 0) {
                Err(e) => Err(e),
                Ok(acc2) => spec_chain_list(archives, i + 1, acc2),
            },
        }
    }
}

/// Read the whole named file out of one archive, per [`spec_archive_read`].
fn read_from(a: &Archive, name: &[u8]) -> (r: Result<Vec<u8>, MpqError>)
    requires
        a.wf(),
    ensures
        match r {
            Ok(v) => spec_archive_read(*a, name@) == Ok::<Seq<u8>, MpqError>(v@),
            Err(e) => spec_archive_read(*a, name@) == Err::<Seq<u8>, MpqError>(e),
        },
{
    reveal(spec_archive_read);
    let file = match a.open_file_bytes(name) {
        Ok(f) => f,
        Err(e) => {
            return Err(e);
        },
    };
    let mut buf: Vec<u8> = vec![0u8; file.size() as usize];
    assert(buf@ =~= Seq::new(file@.block.unpacked_size as nat, |j: int| 0u8));
    match file.read(a, &mut buf) {
        Ok(_) => Ok(buf),
        Err(e) => Err(e),
    }
}

/// Split a buffer into its lines, as [`spec_lines_from`] lists them.
fn split_lines(s: &Vec<u8>) -> (r: Vec<Vec<u8>>)
    ensures
        r.deep_view() == spec_lines_from(s@, 0),
{
    let len = s.len();
    let mut out: Vec<Vec<u8>> = Vec::new();
    let ghost mut gout: Seq<Seq<u8>> = Seq::empty();
    let mut i: usize = 0;
    while i < len
        invariant
            len == s@.len(),
            i <= len,
            out@.len() == gout.len(),
            forall|q: int| 0 <= q < out@.len() ==> #[trigger] out@[q]@ == gout[q],
            spec_lines_from(s@, 0) == gout + spec_lines_from(s@, i as int),
        decreases len - i,
    {
        let mut e: usize = i;
        while e < len && s[e] != 0x0A
            invariant
                len == s@.len(),
                i <= e <= len,
                spec_line_end(s@, i as int) == spec_line_end(s@, e as int),
            decreases len - e,
        {
            e = e + 1;
        }
        assert(spec_line_end(s@, i as int) == e);
        let mut line = slice_to_vec(vstd::slice::slice_subrange(s.as_slice(), i, e));
        if e < len && line.len() > 0 && line[line.len() - 1] == 0x0D {
            line.pop();
        }
        out.push(line);
        proof {
            let rest = if e < len {
                spec_lines_from(s@, e as int + 1)
            } else {
                Seq::<Seq<u8>>::empty()
            };
            assert(gout + (seq![line@] + rest) =~= gout.push(line@) + rest);
            gout = gout.push(line@);
        }
        if e < len {
            i = e + 1;
        } else {
            i = len;
        }
    }
    proof {
        assert forall|q: int| 0 <= q < out@.len() implies out.deep_view()[q] == gout[q] by {
            assert(out.deep_view()[q] == out@[q]@);
        }
        assert(out.deep_view() =~~= gout);
    }
    out
}

/// Add the new lines of `lines` to the gathered set, converting each new
/// one to a string; `acc` mirrors `out` byte for byte.
pub open spec fn lines_strings_match(acc: Seq<Vec<u8>>, out: Seq<String>) -> bool {
    &&& acc.len() == out.len()
    &&& forall|q: int| 0 <= q < acc.len() ==> encode_utf8(#[trigger] out[q]@) == acc[q]@
}

fn vec_eq(a: &Vec<u8>, b: &Vec<u8>) -> (r: bool)
    ensures
        r == (a@ == b@),
{
    if a.len() != b.len() {
        assert(a@ != b@);
        return false;
    }
    let mut q: usize = 0;
    while q < a.len()
        invariant
            a@.len() == b@.len(),
            q <= a@.len(),
            forall|p: int| 0 <= p < q ==> a@[p] == b@[p],
        decreases a@.len() - q,
    {
        if a[q] != b[q] {
            assert(a@ != b@);
            return false;
        }
        q = q + 1;
    }
    assert(a@ =~= b@);
    true
}

fn contains_line(acc: &Vec<Vec<u8>>, line: &Vec<u8>) -> (b: bool)
    ensures
        b == acc.deep_view().contains(line@),
{
    let mut q: usize = 0;
    while q < acc.len()
        invariant
            q <= acc@.len(),
            forall|p: int| 0 <= p < q ==> acc.deep_view()[p] != line@,
        decreases acc@.len() - q,
    {
        assert(acc.deep_view()[q as int] == acc@[q as int]@);
        if vec_eq(&acc[q], line) {
            return true;
        }
        q = q + 1;
    }
    assert(!acc.deep_view().contains(line@));
    false
}

fn add_lines(acc: &mut Vec<Vec<u8>>, out: &mut Vec<String>, lines: &Vec<Vec<u8>>) -> (r: Result<
    (),
    MpqError,
>)
    requires
        lines_strings_match(old(acc)@, old(out)@),
    ensures
        lines_strings_match(final(acc)@, final(out)@),
        match r {
            Ok(()) => spec_add_lines(old(acc).deep_view(), lines.deep_view(), 0) == Ok::<
                Seq<Seq<u8>>,
                MpqError,
            >(final(acc).deep_view()),
            Err(e) => spec_add_lines(old(acc).deep_view(), lines.deep_view(), 0) == Err::<
                Seq<Seq<u8>>,
                MpqError,
            >(e),
        },
{
    let mut j: usize = 0;
    while j < lines.len()
        invariant
            j <= lines@.len(),
            lines_strings_match(acc@, out@),
            spec_add_lines(old(acc).deep_view(), lines.deep_view(), 0) == spec_add_lines(
                acc.deep_view(),
                lines.deep_view(),
                j as int,
            ),
        decreases lines@.len() - j,
    {
        let line = &lines[j];
        assert(lines.deep_view()[j as int] == lines@[j as int]@);
        if !contains_line(acc, line) {
            let copy = slice_to_vec(line.as_slice());
            match bytes_to_string(copy) {
                None => {
                    return Err(MpqError::InvalidData);
                },
                Some(s) => {
                    proof {
                        vstd::utf8::encode_utf8_valid_utf8(s@);
                    }
                    let ghost prev = acc.deep_view();
                    out.push(s);
                    acc.push(slice_to_vec(line.as_slice()));
                    proof {
                        assert forall|p: int| 0 <= p < acc@.len() implies acc.deep_view()[p]
                            == prev.push(line@)[p] by {
                            assert(acc.deep_view()[p] == acc@[p]@);
                        }
                        assert(acc.deep_view() =~~= prev.push(line@));
                    }
                },
            }
        }
        j = j + 1;
    }
    Ok(())
}

/// An ordered stack of archives overlaid into one namespace; the front
/// archive was added last and wins.
pub struct Chain {
    chain: Vec<Archive>,
}

impl Chain {
    /// The archives of the chain, front first.
    pub closed spec fn archives(&self) -> Seq<Archive> {
        self.chain@
    }

    /// Every archive of the chain is well-formed.
    pub closed spec fn wf(&self) -> bool {
        forall|i: int| 0 <= i < self.chain@.len() ==> (#[trigger] self.chain@[i]).wf()
    }

    /// An empty chain.
    pub fn new() -> (r: Chain)
        ensures
            r.wf(),
            r.archives().len() == 0,
    {
        Chain { chain: Vec::new() }
    }

    /// How many archives the chain holds.
    pub fn size(&self) -> (r: usize)
        ensures
            r == self.archives().len(),
    {
        self.chain.len()
    }

    /// Open the bytes of an archive and put it in front of the chain, where
    /// it shadows every archive added before it.
    pub fn add(&mut self, data: Vec<u8>) -> (r: Result<(), MpqError>)
        requires
            old(self).wf(),
        ensures
            final(self).wf(),
            match r {
                Ok(()) => {
                    &&& spec_open(data@) is Ok
                    &&& final(self).archives().len() == old(self).archives().len() + 1
                    &&& final(self).archives()[0].wf()
                    &&& final(self).archives()[0].bytes() == data@
                    &&& final(self).archives()[0].model() == spec_open(data@)->Ok_0
                    &&& final(self).archives().skip(1) == old(self).archives()
                },
                Err(e) => {
                    &&& spec_open(data@) == Err::<ArchiveModel, MpqError>(e)
                    &&& final(self).archives() == old(self).archives()
                },
            },
    {
        match Archive::open(data) {
            Ok(a) => {
                self.chain.insert(0, a);
                assert(self.chain@.skip(1) =~= old(self).chain@);
                Ok(())
            },
            Err(e) => Err(e),
        }
    }

    /// Read a named file out of the first archive that resolves it.
    pub fn read(&self, filename: &str) -> (r: Result<Vec<u8>, MpqError>)
        requires
            self.wf(),
        ensures
            match r {
                Ok(v) => spec_chain_read(self.archives(), filename.spec_bytes(), 0) == Ok::<
                    Seq<u8>,
                    MpqError,
                >(v@),
                Err(e) => spec_chain_read(self.archives(), filename.spec_bytes(), 0) == Err::<
                    Seq<u8>,
                    MpqError,
                >(e),
            },
    {
        let name = filename.as_bytes();
        let mut i: usize = 0;
        while i < self.chain.len()
            invariant
                self.wf(),
                i <= self.chain@.len(),
                name@ == filename.spec_bytes(),
                spec_chain_read(self.archives(), name@, 0) == spec_chain_read(
                    self.archives(),
                    name@,
                    i as int,
                ),
            decreases self.chain@.len() - i,
        {
            match read_from(&self.chain[i], name) {
                Ok(v) => {
                    return Ok(v);
                },
                Err(MpqError::NotFound) => {},
                Err(e) => {
                    return Err(e);
                },
            }
            i = i + 1;
        }
        Err(MpqError::NotFound)
    }

    /// Read a named file as a string out of the first archive that resolves
    /// it; contents that are not valid UTF-8 are corrupt.
    pub fn read_to_string(&self, filename: &str) -> (r: Result<String, MpqError>)
        requires
            self.wf(),
        ensures
            match r {
                Ok(s) => {
                    &&& spec_chain_read(self.archives(), filename.spec_bytes(), 0) is Ok
                    &&& encode_utf8(s@) == spec_chain_read(
                        self.archives(),
                        filename.spec_bytes(),
                        0,
                    )->Ok_0
                },
                Err(e) => spec_chain_read(self.archives(), filename.spec_bytes(), 0) == Err::<
                    Seq<u8>,
                    MpqError,
                >(e) || (e == MpqError::InvalidData && spec_chain_read(
                    self.archives(),
                    filename.spec_bytes(),
                    0,
                ) is Ok && !valid_utf8(
                    spec_chain_read(self.archives(), filename.spec_bytes(), 0)->Ok_0,
                )),
            },
    {
        let buf = match self.read(filename) {
            Ok(v) => v,
            Err(e) => {
                return Err(e);
            },
        };
        match bytes_to_string(buf) {
            Some(s) => Ok(s),
            None => Err(MpqError::InvalidData),
        }
    }

    /// The union of the `"(listfile)"` lines of every archive in the chain,
    /// first occurrence first.
    pub fn list(&self) -> (r: Result<Vec<String>, MpqError>)
        requires
            self.wf(),
        ensures
            match r {
                Ok(v) => ({
                    let m = spec_chain_list(self.archives(), 0, Seq::empty());
                    &&& m is Ok
                    &&& v@.len() == m->Ok_0.len()
                    &&& forall|q: int|
                        0 <= q < v@.len() ==> encode_utf8(#[trigger] v@[q]@) == m->Ok_0[q]
                }),
                Err(e) => spec_chain_list(self.archives(), 0, Seq::empty()) == Err::<
                    Seq<Seq<u8>>,
                    MpqError,
                >(e),
            },
    {
        let name = listfile_bytes();
        let mut acc: Vec<Vec<u8>> = Vec::new();
        let mut out: Vec<String> = Vec::new();
        assert(acc.deep_view() =~~= Seq::<Seq<u8>>::empty());
        let mut i: usize = 0;
        while i < self.chain.len()
            invariant
                self.wf(),
                i <= self.chain@.len(),
                name@ == listfile_name(),
                lines_strings_match(acc@, out@),
                spec_chain_list(self.archives(), 0, Seq::empty()) == spec_chain_list(
                    self.archives(),
                    i as int,
                    acc.deep_view(),
                ),
            decreases self.chain@.len() - i,
        {
            match read_from(&self.chain[i], name.as_slice()) {
                Err(MpqError::NotFound) => {},
                Err(e) => {
                    return Err(e);
                },
                Ok(content) => {
                    let lines = split_lines(&content);
                    match add_lines(&mut acc, &mut out, &lines) {
                        Err(e) => {
                            return Err(e);
                        },
                        Ok(()) => {},
                    }
                },
            }
            i = i + 1;
        }
        Ok(out)
    }
}

/// Chain precedence: when the front archive — the one added last — resolves
/// a name, the chain read is exactly that archive's read.
pub proof fn lemma_chain_precedence(archives: Seq<Archive>, name: Seq<u8>)
    requires
        archives.len() > 0,
        spec_archive_read(archives[0], name) is Ok,
    ensures
        spec_chain_read(archives, name, 0) == spec_archive_read(archives[0], name),
{
}

} // verus!
