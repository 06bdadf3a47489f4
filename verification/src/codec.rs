//! The binary profile codec.
//!
//! The encoding is deterministic and self-describing: every string and
//! byte payload is prefixed with its byte length as a little-endian
//! 64-bit count, variant tags are little-endian 32-bit words with
//! 0 = binary and 1 = text, and a directory node is laid out as its
//! name, its child-directory count and children, then its file count
//! and file entries, in pre-order.

use vstd::prelude::*;

verus! {

use vstd::string::StrSliceExecFns;
use vstd::utf8::encode_utf8;

use crate::profile::DirRoot;
use crate::profile::FileContent;
use crate::profile::FileInfo;
use crate::profile::FileType;
use crate::profile::content_eq;
use crate::profile::file_eq;
use crate::profile::file_wf;
use crate::profile::fits_u64;
use crate::profile::spec_content_bytes;
use crate::profile::tree_eq;
use crate::profile::tree_wf;
use crate::text::append_bytes;
use crate::text::utf8_to_string;

/// Why a profile file failed to decode.
#[derive(Clone, Copy, PartialEq, Eq, Structural, Debug)]
pub enum DecodeError {
    /// The input ends before (or after) the encoded tree does.
    TruncatedInput,
    /// A variant tag is neither binary nor text, or the kind tag and the
    /// payload tag disagree.
    InvalidTag,
    /// A payload tagged as text is not valid UTF-8.
    InvalidUtf8InTextPayload,
}

/// The eight little-endian bytes of `n`.
pub open spec fn spec_u64_le(n: u64) -> Seq<u8> {
    seq![
        n as u8,
        (n >> 8) as u8,
        (n >> 16) as u8,
        (n >> 24) as u8,
        (n >> 32) as u8,
        (n >> 40) as u8,
        (n >> 48) as u8,
        (n >> 56) as u8,
    ]
}

/// The four little-endian bytes of `n`.
pub open spec fn spec_u32_le(n: u32) -> Seq<u8> {
    seq![n as u8, (n >> 8) as u8, (n >> 16) as u8, (n >> 24) as u8]
}

/// A length-prefixed byte payload.
pub open spec fn spec_enc_bytes(b: Seq<u8>) -> Seq<u8> {
    spec_u64_le(b.len() as u64) + b
}

/// A length-prefixed string: the byte length and UTF-8 bytes of `s`.
pub open spec fn spec_enc_str(s: Seq<char>) -> Seq<u8> {
    spec_enc_bytes(encode_utf8(s))
}

/// The tag of a file kind: 0 for binary, 1 for text.
pub open spec fn type_tag(t: FileType) -> u32 {
    match t {
        FileType::Bin => 0,
        FileType::Text => 1,
    }
}

/// The tag of a payload variant: 0 for binary, 1 for text.
pub open spec fn content_tag(c: FileContent) -> u32 {
    match c {
        FileContent::Bin(_) => 0,
        FileContent::Text(_) => 1,
    }
}

/// The encoding of one file entry: name, kind tag, payload tag, payload.
pub open spec fn spec_enc_file(f: FileInfo) -> Seq<u8> {
    spec_enc_str(f.name@) + spec_u32_le(type_tag(f.file_type)) + spec_u32_le(
        content_tag(f.content),
    ) + spec_enc_bytes(spec_content_bytes(f.content))
}

/// The encoding of a directory node: name, child-directory count and
/// children, file count and file entries.
pub open spec fn spec_enc_tree(t: DirRoot) -> Seq<u8>
    decreases t, 1int,
{
    spec_enc_str(t.name@) + spec_u64_le(t.dirs@.len() as u64) + spec_enc_dirs(t.dirs@)
        + spec_u64_le(t.files@.len() as u64) + spec_enc_files(t.files@)
}

/// The concatenated encodings of a run of directory nodes.
pub open spec fn spec_enc_dirs(s: Seq<DirRoot>) -> Seq<u8>
    decreases s, 0int,
{
    if s.len() == 0 {
        Seq::empty()
    } else {
        spec_enc_tree(s[0]) + spec_enc_dirs(s.subrange(1, s.len() as int))
    }
}

/// The concatenated encodings of a run of file entries.
pub open spec fn spec_enc_files(s: Seq<FileInfo>) -> Seq<u8>
    decreases s,
{
    if s.len() == 0 {
        Seq::empty()
    } else {
        spec_enc_file(s[0]) + spec_enc_files(s.subrange(1, s.len() as int))
    }
}

/// Appending one node to a run appends its encoding.
proof fn lemma_enc_dirs_push(s: Seq<DirRoot>, x: DirRoot)
    ensures
        spec_enc_dirs(s.push(x)) == spec_enc_dirs(s) + spec_enc_tree(x),
    decreases s,
{
    if s.len() == 0 {
        assert(s.push(x)[0] == x);
        assert(s.push(x).subrange(1, s.push(x).len() as int) =~= Seq::<DirRoot>::empty());
        assert(spec_enc_dirs(Seq::<DirRoot>::empty()) =~= Seq::<u8>::empty());
        assert(spec_enc_tree(x) + Seq::<u8>::empty() =~= spec_enc_tree(x));
        assert(spec_enc_dirs(s.push(x)) =~= spec_enc_tree(x));
        assert(spec_enc_dirs(s) + spec_enc_tree(x) =~= spec_enc_tree(x));
    } else {
        let rest = s.subrange(1, s.len() as int);
        lemma_enc_dirs_push(rest, x);
        assert(s.push(x).subrange(1, s.push(x).len() as int) =~= rest.push(x));
        assert(s.push(x)[0] == s[0]);
        assert(spec_enc_tree(s[0]) + (spec_enc_dirs(rest) + spec_enc_tree(x)) =~= (spec_enc_tree(
            s[0],
        ) + spec_enc_dirs(rest)) + spec_enc_tree(x));
    }
}

/// Appending one file entry to a run appends its encoding.
proof fn lemma_enc_files_push(s: Seq<FileInfo>, x: FileInfo)
    ensures
        spec_enc_files(s.push(x)) == spec_enc_files(s) + spec_enc_file(x),
    decreases s,
{
    if s.len() == 0 {
        assert(s.push(x)[0] == x);
        assert(s.push(x).subrange(1, s.push(x).len() as int) =~= Seq::<FileInfo>::empty());
        assert(spec_enc_files(Seq::<FileInfo>::empty()) =~= Seq::<u8>::empty());
        assert(spec_enc_file(x) + Seq::<u8>::empty() =~= spec_enc_file(x));
        assert(spec_enc_files(s.push(x)) =~= spec_enc_file(x));
        assert(spec_enc_files(s) + spec_enc_file(x) =~= spec_enc_file(x));
    } else {
        let rest = s.subrange(1, s.len() as int);
        lemma_enc_files_push(rest, x);
        assert(s.push(x).subrange(1, s.push(x).len() as int) =~= rest.push(x));
        assert(s.push(x)[0] == s[0]);
        assert(spec_enc_file(s[0]) + (spec_enc_files(rest) + spec_enc_file(x)) =~= (spec_enc_file(
            s[0],
        ) + spec_enc_files(rest)) + spec_enc_file(x));
    }
}

/// Append the eight little-endian bytes of `n`.
fn push_u64_le(out: &mut Vec<u8>, n: u64)
    ensures
        final(out)@ == old(out)@ + spec_u64_le(n),
{
    out.push(n as u8);
    out.push((n >> 8) as u8);
    out.push((n >> 16) as u8);
    out.push((n >> 24) as u8);
    out.push((n >> 32) as u8);
    out.push((n >> 40) as u8);
    out.push((n >> 48) as u8);
    out.push((n >> 56) as u8);
    assert(out@ =~= old(out)@ + spec_u64_le(n));
}

/// Append the four little-endian bytes of `n`.
fn push_u32_le(out: &mut Vec<u8>, n: u32)
    ensures
        final(out)@ == old(out)@ + spec_u32_le(n),
{
    out.push(n as u8);
    out.push((n >> 8) as u8);
    out.push((n >> 16) as u8);
    out.push((n >> 24) as u8);
    assert(out@ =~= old(out)@ + spec_u32_le(n));
}

/// Append a length-prefixed byte payload.
fn push_blob(out: &mut Vec<u8>, b: &Vec<u8>)
    ensures
        final(out)@ == old(out)@ + spec_enc_bytes(b@),
{
    push_u64_le(out, b.len() as u64);
    append_bytes(out, b);
    assert(out@ =~= old(out)@ + spec_enc_bytes(b@));
}

/// Append a length-prefixed string.
fn push_str_enc(out: &mut Vec<u8>, s: &str)
    ensures
        final(out)@ == old(out)@ + spec_enc_str(s@),
{
    let bv = s.as_bytes_vec();
    push_blob(out, &bv);
}

/// Append the encoding of one file entry.
fn push_file_enc(out: &mut Vec<u8>, f: &FileInfo)
    ensures
        final(out)@ == old(out)@ + spec_enc_file(*f),
{
    push_str_enc(out, f.name.as_str());
    let tt: u32 = match f.file_type {
        FileType::Bin => 0,
        FileType::Text => 1,
    };
    push_u32_le(out, tt);
    let ct: u32 = match &f.content {
        FileContent::Bin(_) => 0,
        FileContent::Text(_) => 1,
    };
    push_u32_le(out, ct);
    let cb = f.content_bytes();
    push_blob(out, &cb);
    assert(out@ =~= old(out)@ + spec_enc_file(*f));
}

/// Append the encoding of a directory node.
fn push_tree_enc(out: &mut Vec<u8>, t: &DirRoot)
    ensures
        final(out)@ == old(out)@ + spec_enc_tree(*t),
    decreases *t,
{
    push_str_enc(out, t.name.as_str());
    push_u64_le(out, t.dirs.len() as u64);
    let ghost base = out@;
    let mut i: usize = 0;
    while i < t.dirs.len()
        invariant
            i <= t.dirs@.len(),
            out@ == base + spec_enc_dirs(t.dirs@.subrange(0, i as int)),
        decreases t.dirs@.len() - i,
    {
        proof {
            assert(decreases_to!(*t => t.dirs@[i as int]));
        }
        push_tree_enc(out, &t.dirs[i]);
        proof {
            lemma_enc_dirs_push(t.dirs@.subrange(0, i as int), t.dirs@[i as int]);
            assert(t.dirs@.subrange(0, i as int).push(t.dirs@[i as int]) =~= t.dirs@.subrange(
                0,
                i + 1,
            ));
            assert(out@ =~= base + spec_enc_dirs(t.dirs@.subrange(0, i + 1)));
        }
        i = i + 1;
    }
    assert(t.dirs@.subrange(0, t.dirs@.len() as int) =~= t.dirs@);
    push_u64_le(out, t.files.len() as u64);
    let ghost base2 = out@;
    let mut j: usize = 0;
    while j < t.files.len()
        invariant
            j <= t.files@.len(),
            out@ == base2 + spec_enc_files(t.files@.subrange(0, j as int)),
        decreases t.files@.len() - j,
    {
        push_file_enc(out, &t.files[j]);
        proof {
            lemma_enc_files_push(t.files@.subrange(0, j as int), t.files@[j as int]);
            assert(t.files@.subrange(0, j as int).push(t.files@[j as int]) =~= t.files@.subrange(
                0,
                j + 1,
            ));
            assert(out@ =~= base2 + spec_enc_files(t.files@.subrange(0, j + 1)));
        }
        j = j + 1;
    }
    assert(t.files@.subrange(0, t.files@.len() as int) =~= t.files@);
    assert(out@ =~= old(out)@ + spec_enc_tree(*t));
}

/// Two concatenations are equal and their first parts have equal length,
/// so both parts agree.
proof fn lemma_prefix_eq(x1: Seq<u8>, y1: Seq<u8>, x2: Seq<u8>, y2: Seq<u8>)
    requires
        x1 + y1 == x2 + y2,
        x1.len() == x2.len(),
    ensures
        x1 == x2,
        y1 == y2,
{
    assert((x1 + y1).len() == x1.len() + y1.len());
    assert((x2 + y2).len() == x2.len() + y2.len());
    assert(y1.len() == y2.len());
    assert(x1 =~= x2) by {
        assert(forall|i: int| 0 <= i < x1.len() ==> (x1 + y1)[i] == x1[i] && (x2 + y2)[i] == x2[i]);
    }
    assert(y1 =~= y2) by {
        assert(forall|i: int|
            0 <= i < y1.len() ==> (x1 + y1)[x1.len() + i] == y1[i] && (x2 + y2)[x2.len() + i]
                == y2[i]);
    }
}

/// Split a decomposition `x + y` of a slice of `b` into its two parts.
proof fn lemma_concat_sub(b: Seq<u8>, pos: int, end: int, x: Seq<u8>, y: Seq<u8>)
    requires
        0 <= pos <= end <= b.len(),
        x + y == b.subrange(pos, end),
    ensures
        pos + x.len() + y.len() == end,
        x == b.subrange(pos, pos + x.len()),
        y == b.subrange(pos + x.len(), end),
{
    assert((x + y).len() == x.len() + y.len());
    assert(b.subrange(pos, end).len() == end - pos);
    assert(x =~= b.subrange(pos, pos + x.len() as int)) by {
        assert(forall|i: int| 0 <= i < x.len() ==> (x + y)[i] == x[i]);
    }
    assert(y =~= b.subrange(pos + x.len() as int, end)) by {
        assert(forall|i: int| 0 <= i < y.len() ==> (x + y)[x.len() + i] == y[i]);
    }
}

/// Adjacent slices of `b` concatenate to the enclosing slice.
proof fn lemma_join_sub(b: Seq<u8>, pos: int, mid: int, end: int)
    requires
        0 <= pos <= mid <= end <= b.len(),
    ensures
        b.subrange(pos, mid) + b.subrange(mid, end) == b.subrange(pos, end),
{
    assert(b.subrange(pos, mid) + b.subrange(mid, end) =~= b.subrange(pos, end));
}

/// A 64-bit value is recovered from its little-endian bytes.
proof fn lemma_u64_le_parts(
    n: u64,
    b0: u8,
    b1: u8,
    b2: u8,
    b3: u8,
    b4: u8,
    b5: u8,
    b6: u8,
    b7: u8,
)
    requires
        n == (b0 as u64) | (b1 as u64) << 8 | (b2 as u64) << 16 | (b3 as u64) << 24 | (
        b4 as u64) << 32 | (b5 as u64) << 40 | (b6 as u64) << 48 | (b7 as u64) << 56,
    ensures
        spec_u64_le(n) == seq![b0, b1, b2, b3, b4, b5, b6, b7],
{
    assert(n as u8 == b0 && (n >> 8) as u8 == b1 && (n >> 16) as u8 == b2 && (n >> 24) as u8 == b3
        && (n >> 32) as u8 == b4 && (n >> 40) as u8 == b5 && (n >> 48) as u8 == b6 && (n >> 56) as u8
        == b7) by (bit_vector)
        requires
            n == (b0 as u64) | (b1 as u64) << 8 | (b2 as u64) << 16 | (b3 as u64) << 24 | (
            b4 as u64) << 32 | (b5 as u64) << 40 | (b6 as u64) << 48 | (b7 as u64) << 56,
    ;
    assert(spec_u64_le(n) =~= seq![b0, b1, b2, b3, b4, b5, b6, b7]);
}

/// Little-endian 64-bit encodings are injective.
proof fn lemma_u64_le_inj(x: u64, y: u64)
    requires
        spec_u64_le(x) == spec_u64_le(y),
    ensures
        x == y,
{
    assert(forall|i: int| 0 <= i < 8 ==> spec_u64_le(x)[i] == spec_u64_le(y)[i]);
    assert(x as u8 == y as u8 && (x >> 8) as u8 == (y >> 8) as u8 && (x >> 16) as u8 == (y
        >> 16) as u8 && (x >> 24) as u8 == (y >> 24) as u8 && (x >> 32) as u8 == (y >> 32) as u8 && (
    x >> 40) as u8 == (y >> 40) as u8 && (x >> 48) as u8 == (y >> 48) as u8 && (x >> 56) as u8 == (y
        >> 56) as u8);
    assert(x == y) by (bit_vector)
        requires
            x as u8 == y as u8 && (x >> 8) as u8 == (y >> 8) as u8 && (x >> 16) as u8 == (y
                >> 16) as u8 && (x >> 24) as u8 == (y >> 24) as u8 && (x >> 32) as u8 == (y
                >> 32) as u8 && (x >> 40) as u8 == (y >> 40) as u8 && (x >> 48) as u8 == (y
                >> 48) as u8 && (x >> 56) as u8 == (y >> 56) as u8,
    ;
}

/// A 32-bit value is recovered from its little-endian bytes.
proof fn lemma_u32_le_parts(n: u32, b0: u8, b1: u8, b2: u8, b3: u8)
    requires
        n == (b0 as u32) | (b1 as u32) << 8 | (b2 as u32) << 16 | (b3 as u32) << 24,
    ensures
        spec_u32_le(n) == seq![b0, b1, b2, b3],
{
    assert(n as u8 == b0 && (n >> 8) as u8 == b1 && (n >> 16) as u8 == b2 && (n >> 24) as u8
        == b3) by (bit_vector)
        requires
            n == (b0 as u32) | (b1 as u32) << 8 | (b2 as u32) << 16 | (b3 as u32) << 24,
    ;
    assert(spec_u32_le(n) =~= seq![b0, b1, b2, b3]);
}

/// Little-endian 32-bit encodings are injective.
proof fn lemma_u32_le_inj(x: u32, y: u32)
    requires
        spec_u32_le(x) == spec_u32_le(y),
    ensures
        x == y,
{
    assert(forall|i: int| 0 <= i < 4 ==> spec_u32_le(x)[i] == spec_u32_le(y)[i]);
    assert(x as u8 == y as u8 && (x >> 8) as u8 == (y >> 8) as u8 && (x >> 16) as u8 == (y
        >> 16) as u8 && (x >> 24) as u8 == (y >> 24) as u8);
    assert(x == y) by (bit_vector)
        requires
            x as u8 == y as u8 && (x >> 8) as u8 == (y >> 8) as u8 && (x >> 16) as u8 == (y
                >> 16) as u8 && (x >> 24) as u8 == (y >> 24) as u8,
    ;
}

/// Two length-prefixed payloads that start at the same place are the same
/// payload and end at the same place.
proof fn lemma_enc_bytes_same_start(b: Seq<u8>, pos: int, e1: int, e2: int, b1: Seq<u8>, b2: Seq<u8>)
    requires
        0 <= pos <= e1 <= b.len(),
        0 <= pos <= e2 <= b.len(),
        fits_u64(b1.len()),
        fits_u64(b2.len()),
        spec_enc_bytes(b1) == b.subrange(pos, e1),
        spec_enc_bytes(b2) == b.subrange(pos, e2),
    ensures
        e1 == e2,
        b1 == b2,
{
    lemma_concat_sub(b, pos, e1, spec_u64_le(b1.len() as u64), b1);
    lemma_concat_sub(b, pos, e2, spec_u64_le(b2.len() as u64), b2);
    lemma_u64_le_inj(b1.len() as u64, b2.len() as u64);
}

/// Read a little-endian 64-bit count at `pos`.
fn read_u64_le(b: &Vec<u8>, pos: usize) -> (r: Result<(u64, usize), DecodeError>)
    requires
        pos <= b@.len(),
    ensures
        r matches Ok(v) ==> v.1 == pos + 8 && v.1 <= b@.len() && spec_u64_le(v.0) == b@.subrange(
            pos as int,
            v.1 as int,
        ),
        r matches Err(e) ==> e == DecodeError::TruncatedInput && b@.len() < pos + 8,
{
    if b.len() - pos < 8 {
        return Err(DecodeError::TruncatedInput);
    }
    let b0 = b[pos];
    let b1 = b[pos + 1];
    let b2 = b[pos + 2];
    let b3 = b[pos + 3];
    let b4 = b[pos + 4];
    let b5 = b[pos + 5];
    let b6 = b[pos + 6];
    let b7 = b[pos + 7];
    let n: u64 = (b0 as u64) | (b1 as u64) << 8 | (b2 as u64) << 16 | (b3 as u64) << 24 | (
    b4 as u64) << 32 | (b5 as u64) << 40 | (b6 as u64) << 48 | (b7 as u64) << 56;
    proof {
        lemma_u64_le_parts(n, b0, b1, b2, b3, b4, b5, b6, b7);
        assert(seq![b0, b1, b2, b3, b4, b5, b6, b7] =~= b@.subrange(pos as int, pos + 8));
    }
    Ok((n, pos + 8))
}

/// Read a little-endian 32-bit tag at `pos`.
fn read_u32_le(b: &Vec<u8>, pos: usize) -> (r: Result<(u32, usize), DecodeError>)
    requires
        pos <= b@.len(),
    ensures
        r matches Ok(v) ==> v.1 == pos + 4 && v.1 <= b@.len() && spec_u32_le(v.0) == b@.subrange(
            pos as int,
            v.1 as int,
        ),
        r matches Err(e) ==> e == DecodeError::TruncatedInput && b@.len() < pos + 4,
{
    if b.len() - pos < 4 {
        return Err(DecodeError::TruncatedInput);
    }
    let b0 = b[pos];
    let b1 = b[pos + 1];
    let b2 = b[pos + 2];
    let b3 = b[pos + 3];
    let n: u32 = (b0 as u32) | (b1 as u32) << 8 | (b2 as u32) << 16 | (b3 as u32) << 24;
    proof {
        lemma_u32_le_parts(n, b0, b1, b2, b3);
        assert(seq![b0, b1, b2, b3] =~= b@.subrange(pos as int, pos + 4));
    }
    Ok((n, pos + 4))
}

/// Read a length-prefixed byte payload at `pos`.
fn read_blob(b: &Vec<u8>, pos: usize) -> (r: Result<(Vec<u8>, usize), DecodeError>)
    requires
        pos <= b@.len(),
    ensures
        r matches Ok(v) ==> pos < v.1 <= b@.len() && fits_u64(v.0@.len()) && spec_enc_bytes(v.0@)
            == b@.subrange(pos as int, v.1 as int),
        r matches Err(e) ==> e == DecodeError::TruncatedInput && (forall|bb: Seq<u8>, e2: int|
            pos <= e2 <= b@.len() && fits_u64(bb.len()) ==> spec_enc_bytes(bb) != b@.subrange(
                pos as int,
                e2,
            )),
{
    let n = match read_u64_le(b, pos) {
        Ok(v) => v.0,
        Err(e) => {
            proof {
                assert forall|bb: Seq<u8>, e2: int|
                    pos <= e2 <= b@.len() && fits_u64(bb.len()) implies spec_enc_bytes(bb)
                    != b@.subrange(pos as int, e2) by {
                    assert(spec_enc_bytes(bb).len() == 8 + bb.len());
                    assert(b@.subrange(pos as int, e2).len() == e2 - pos < 8);
                }
            }
            return Err(e);
        },
    };
    let body = pos + 8;
    let rem = b.len() - body;
    if n > rem as u64 {
        proof {
            assert forall|bb: Seq<u8>, e2: int|
                pos <= e2 <= b@.len() && fits_u64(bb.len()) implies spec_enc_bytes(bb)
                != b@.subrange(pos as int, e2) by {
                if spec_enc_bytes(bb) == b@.subrange(pos as int, e2) {
                    lemma_concat_sub(
                        b@,
                        pos as int,
                        e2,
                        spec_u64_le(bb.len() as u64),
                        bb,
                    );
                    lemma_u64_le_inj(bb.len() as u64, n);
                    assert(e2 == pos + 8 + bb.len());
                    assert(bb.len() > rem);
                }
            }
        }
        return Err(DecodeError::TruncatedInput);
    }
    let len = n as usize;
    let bl = b.len();
    let mut v: Vec<u8> = Vec::new();
    let mut k: usize = 0;
    while k < len
        invariant
            k <= len,
            body + len <= bl == b@.len(),
            v@ == b@.subrange(body as int, body + k),
        decreases len - k,
    {
        v.push(b[body + k]);
        proof {
            assert(v@ =~= b@.subrange(body as int, body + k + 1));
        }
        k = k + 1;
    }
    let end = body + len;
    proof {
        assert(v@.len() == len && len as u64 == n);
        lemma_join_sub(b@, pos as int, body as int, end as int);
        assert(spec_enc_bytes(v@) == b@.subrange(pos as int, end as int));
    }
    Ok((v, end))
}

/// Read a length-prefixed string at `pos`.
fn read_str(b: &Vec<u8>, pos: usize) -> (r: Result<(String, usize), DecodeError>)
    requires
        pos <= b@.len(),
    ensures
        r matches Ok(v) ==> pos < v.1 <= b@.len() && spec_enc_str(v.0@) == b@.subrange(
            pos as int,
            v.1 as int,
        ) && fits_u64(encode_utf8(v.0@).len()),
        r is Err ==> (forall|s: Seq<char>, e2: int|
            pos <= e2 <= b@.len() && fits_u64(encode_utf8(s).len()) ==> spec_enc_str(s)
                != b@.subrange(pos as int, e2)),
{
    let (bytes, end) = match read_blob(b, pos) {
        Ok(v) => v,
        Err(e) => {
            return Err(e);
        },
    };
    match utf8_to_string(&bytes) {
        Some(st) => {
            proof {
                vstd::utf8::decode_utf8_encode_utf8(bytes@);
                assert(encode_utf8(st@) == bytes@);
            }
            Ok((st, end))
        },
        None => {
            proof {
                assert forall|s: Seq<char>, e2: int|
                    pos <= e2 <= b@.len() && fits_u64(encode_utf8(s).len()) implies spec_enc_str(s)
                    != b@.subrange(pos as int, e2) by {
                    if spec_enc_str(s) == b@.subrange(pos as int, e2) {
                        lemma_enc_bytes_same_start(
                            b@,
                            pos as int,
                            e2,
                            end as int,
                            encode_utf8(s),
                            bytes@,
                        );
                        vstd::utf8::encode_utf8_valid_utf8(s);
                    }
                }
            }
            Err(DecodeError::InvalidUtf8InTextPayload)
        },
    }
}

/// The candidate file entry `f` encodes to `b.subrange(pos, e2)`: name the
/// positions where its four parts sit.
proof fn lemma_file_parts(b: Seq<u8>, pos: int, e2: int, f: FileInfo)
    requires
        0 <= pos <= e2 <= b.len(),
        spec_enc_file(f) == b.subrange(pos, e2),
    ensures
        ({
            let a = spec_enc_str(f.name@);
            let c1 = spec_u32_le(type_tag(f.file_type));
            let c2 = spec_u32_le(content_tag(f.content));
            let d = spec_enc_bytes(spec_content_bytes(f.content));
            &&& pos + a.len() + 8 + d.len() == e2
            &&& a == b.subrange(pos, pos + a.len())
            &&& c1 == b.subrange(pos + a.len(), pos + a.len() + 4)
            &&& c2 == b.subrange(pos + a.len() + 4, pos + a.len() + 8)
            &&& d == b.subrange(pos + a.len() + 8, e2)
        }),
{
    let a = spec_enc_str(f.name@);
    let c1 = spec_u32_le(type_tag(f.file_type));
    let c2 = spec_u32_le(content_tag(f.content));
    let d = spec_enc_bytes(spec_content_bytes(f.content));
    assert(((a + c1) + c2) + d == b.subrange(pos, e2));
    lemma_concat_sub(b, pos, e2, (a + c1) + c2, d);
    let m3 = pos + ((a + c1) + c2).len();
    lemma_concat_sub(b, pos, m3, a + c1, c2);
    let m2 = pos + (a + c1).len();
    lemma_concat_sub(b, pos, m2, a, c1);
}

/// Read one file entry at `pos`.
fn read_file(b: &Vec<u8>, pos: usize) -> (r: Result<(FileInfo, usize), DecodeError>)
    requires
        pos <= b@.len(),
    ensures
        r matches Ok(v) ==> pos < v.1 <= b@.len() && file_wf(v.0) && spec_enc_file(v.0)
            == b@.subrange(pos as int, v.1 as int),
        r is Err ==> (forall|f: FileInfo, e2: int|
            pos <= e2 <= b@.len() && file_wf(f) ==> spec_enc_file(f) != b@.subrange(pos as int, e2)),
{
    let (name, p1) = match read_str(b, pos) {
        Ok(v) => v,
        Err(e) => {
            proof {
                assert forall|f: FileInfo, e2: int|
                    pos <= e2 <= b@.len() && file_wf(f) implies spec_enc_file(f) != b@.subrange(
                    pos as int,
                    e2,
                ) by {
                    if spec_enc_file(f) == b@.subrange(pos as int, e2) {
                        lemma_file_parts(b@, pos as int, e2, f);
                    }
                }
            }
            return Err(e);
        },
    };
    let ghost a0 = spec_enc_str(name@);
    let (tt, p2) = match read_u32_le(b, p1) {
        Ok(v) => v,
        Err(e) => {
            proof {
                file_err_helper(b@, pos as int, name@, p1 as int);
            }
            return Err(e);
        },
    };
    if tt > 1 {
        proof {
            assert forall|f: FileInfo, e2: int|
                pos <= e2 <= b@.len() && file_wf(f) implies spec_enc_file(f) != b@.subrange(
                pos as int,
                e2,
            ) by {
                if spec_enc_file(f) == b@.subrange(pos as int, e2) {
                    lemma_file_parts(b@, pos as int, e2, f);
                    lemma_enc_bytes_same_start(
                        b@,
                        pos as int,
                        pos + spec_enc_str(f.name@).len(),
                        p1 as int,
                        encode_utf8(f.name@),
                        encode_utf8(name@),
                    );
                    lemma_u32_le_inj(type_tag(f.file_type), tt);
                }
            }
        }
        return Err(DecodeError::InvalidTag);
    }
    let (ct, p3) = match read_u32_le(b, p2) {
        Ok(v) => v,
        Err(e) => {
            proof {
                file_err_helper(b@, pos as int, name@, p1 as int);
            }
            return Err(e);
        },
    };
    if ct != tt {
        proof {
            assert forall|f: FileInfo, e2: int|
                pos <= e2 <= b@.len() && file_wf(f) implies spec_enc_file(f) != b@.subrange(
                pos as int,
                e2,
            ) by {
                if spec_enc_file(f) == b@.subrange(pos as int, e2) {
                    lemma_file_parts(b@, pos as int, e2, f);
                    lemma_enc_bytes_same_start(
                        b@,
                        pos as int,
                        pos + spec_enc_str(f.name@).len(),
                        p1 as int,
                        encode_utf8(f.name@),
                        encode_utf8(name@),
                    );
                    lemma_u32_le_inj(type_tag(f.file_type), tt);
                    lemma_u32_le_inj(content_tag(f.content), ct);
                }
            }
        }
        return Err(DecodeError::InvalidTag);
    }
    let (payload, end) = match read_blob(b, p3) {
        Ok(v) => v,
        Err(e) => {
            proof {
                assert forall|f: FileInfo, e2: int|
                    pos <= e2 <= b@.len() && file_wf(f) implies spec_enc_file(f) != b@.subrange(
                    pos as int,
                    e2,
                ) by {
                    if spec_enc_file(f) == b@.subrange(pos as int, e2) {
                        lemma_file_parts(b@, pos as int, e2, f);
                        lemma_enc_bytes_same_start(
                            b@,
                            pos as int,
                            pos + spec_enc_str(f.name@).len(),
                            p1 as int,
                            encode_utf8(f.name@),
                            encode_utf8(name@),
                        );
                    }
                }
            }
            return Err(e);
        },
    };
    let f = if tt == 1 {
        match utf8_to_string(&payload) {
            Some(s) => {
                proof {
                    vstd::utf8::decode_utf8_encode_utf8(payload@);
                }
                FileInfo { name, file_type: FileType::Text, content: FileContent::Text(s) }
            },
            None => {
                proof {
                    assert forall|f: FileInfo, e2: int|
                        pos <= e2 <= b@.len() && file_wf(f) implies spec_enc_file(f) != b@.subrange(
                        pos as int,
                        e2,
                    ) by {
                        if spec_enc_file(f) == b@.subrange(pos as int, e2) {
                            lemma_file_parts(b@, pos as int, e2, f);
                            lemma_enc_bytes_same_start(
                                b@,
                                pos as int,
                                pos + spec_enc_str(f.name@).len(),
                                p1 as int,
                                encode_utf8(f.name@),
                                encode_utf8(name@),
                            );
                            lemma_u32_le_inj(type_tag(f.file_type), tt);
                            lemma_enc_bytes_same_start(
                                b@,
                                p3 as int,
                                e2,
                                end as int,
                                spec_content_bytes(f.content),
                                payload@,
                            );
                            match f.content {
                                FileContent::Text(s2) => {
                                    vstd::utf8::encode_utf8_valid_utf8(s2@);
                                },
                                FileContent::Bin(_) => {},
                            }
                        }
                    }
                }
                return Err(DecodeError::InvalidUtf8InTextPayload);
            },
        }
    } else {
        FileInfo { name, file_type: FileType::Bin, content: FileContent::Bin(payload) }
    };
    proof {
        assert(file_wf(f));
        let a = spec_enc_str(f.name@);
        let c1 = spec_u32_le(type_tag(f.file_type));
        let c2 = spec_u32_le(content_tag(f.content));
        let d = spec_enc_bytes(spec_content_bytes(f.content));
        assert(a == b@.subrange(pos as int, p1 as int));
        assert(c1 == b@.subrange(p1 as int, p2 as int));
        assert(c2 == b@.subrange(p2 as int, p3 as int));
        assert(d == b@.subrange(p3 as int, end as int));
        lemma_join_sub(b@, pos as int, p1 as int, p2 as int);
        lemma_join_sub(b@, pos as int, p2 as int, p3 as int);
        lemma_join_sub(b@, pos as int, p3 as int, end as int);
        assert(spec_enc_file(f) == b@.subrange(pos as int, end as int));
    }
    Ok((f, end))
}

/// A candidate file encoding at `pos` whose name was already read up to
/// `p1` reaches at least 16 bytes past `p1`: two tags and a payload count.
proof fn file_err_helper(b: Seq<u8>, pos: int, name: Seq<char>, p1: int)
    requires
        0 <= pos <= p1 <= b.len(),
        fits_u64(encode_utf8(name).len()),
        spec_enc_str(name) == b.subrange(pos, p1),
    ensures
        forall|f: FileInfo, e2: int|
            pos <= e2 <= b.len() && file_wf(f) && spec_enc_file(f) == b.subrange(pos, e2) ==> e2
                >= p1 + 16,
{
    assert forall|f: FileInfo, e2: int|
        pos <= e2 <= b.len() && file_wf(f) && spec_enc_file(f) == b.subrange(pos, e2) implies e2
        >= p1 + 16 by {
        lemma_file_parts(b, pos, e2, f);
        lemma_enc_bytes_same_start(
            b,
            pos,
            pos + spec_enc_str(f.name@).len(),
            p1,
            encode_utf8(f.name@),
            encode_utf8(name),
        );
        assert(spec_enc_bytes(spec_content_bytes(f.content)).len() >= 8);
    }
}

/// Two well-formed file entries whose encodings start the same byte run
/// are equal and encode to the same bytes.
proof fn lemma_file_prefix(f1: FileInfo, f2: FileInfo, ra: Seq<u8>, rb: Seq<u8>)
    requires
        file_wf(f1),
        file_wf(f2),
        spec_enc_file(f1) + ra == spec_enc_file(f2) + rb,
    ensures
        file_eq(f1, f2),
        spec_enc_file(f1) == spec_enc_file(f2),
        ra == rb,
{
    let t = spec_enc_file(f1) + ra;
    let n1 = spec_enc_file(f1).len() as int;
    let n2 = spec_enc_file(f2).len() as int;
    assert(t.subrange(0, t.len() as int) =~= t);
    lemma_concat_sub(t, 0, t.len() as int, spec_enc_file(f1), ra);
    lemma_concat_sub(t, 0, t.len() as int, spec_enc_file(f2), rb);
    lemma_file_parts(t, 0, n1, f1);
    lemma_file_parts(t, 0, n2, f2);
    let a1 = spec_enc_str(f1.name@);
    let a2 = spec_enc_str(f2.name@);
    lemma_enc_bytes_same_start(
        t,
        0,
        a1.len() as int,
        a2.len() as int,
        encode_utf8(f1.name@),
        encode_utf8(f2.name@),
    );
    vstd::utf8::encode_utf8_decode_utf8(f1.name@);
    vstd::utf8::encode_utf8_decode_utf8(f2.name@);
    assert(f1.name@ == f2.name@);
    let m = a1.len() as int;
    assert(spec_u32_le(type_tag(f1.file_type)) == t.subrange(m, m + 4));
    assert(spec_u32_le(type_tag(f2.file_type)) == t.subrange(m, m + 4));
    lemma_u32_le_inj(type_tag(f1.file_type), type_tag(f2.file_type));
    lemma_u32_le_inj(content_tag(f1.content), content_tag(f2.content));
    lemma_enc_bytes_same_start(
        t,
        m + 8,
        n1,
        n2,
        spec_content_bytes(f1.content),
        spec_content_bytes(f2.content),
    );
    assert(content_eq(f1.content, f2.content)) by {
        match (f1.content, f2.content) {
            (FileContent::Text(s1), FileContent::Text(s2)) => {
                vstd::utf8::encode_utf8_decode_utf8(s1@);
                vstd::utf8::encode_utf8_decode_utf8(s2@);
            },
            _ => {},
        }
    }
    assert(ra =~= rb) by {
        assert(ra == t.subrange(n1, t.len() as int));
        assert(rb == t.subrange(n2, t.len() as int));
    }
}

/// The candidate node `t` encodes to `b.subrange(pos, e2)`: name the
/// positions where its five parts sit.
proof fn lemma_tree_parts(b: Seq<u8>, pos: int, e2: int, t: DirRoot)
    requires
        0 <= pos <= e2 <= b.len(),
        spec_enc_tree(t) == b.subrange(pos, e2),
    ensures
        ({
            let a = spec_enc_str(t.name@);
            let ed = spec_enc_dirs(t.dirs@);
            let ef = spec_enc_files(t.files@);
            &&& pos + a.len() + 8 + ed.len() + 8 + ef.len() == e2
            &&& a == b.subrange(pos, pos + a.len())
            &&& spec_u64_le(t.dirs@.len() as u64) == b.subrange(
                pos + a.len(),
                pos + a.len() + 8,
            )
            &&& ed == b.subrange(pos + a.len() + 8, pos + a.len() + 8 + ed.len())
            &&& spec_u64_le(t.files@.len() as u64) == b.subrange(
                pos + a.len() + 8 + ed.len(),
                pos + a.len() + 8 + ed.len() + 8,
            )
            &&& ef == b.subrange(pos + a.len() + 8 + ed.len() + 8, e2)
        }),
{
    let a = spec_enc_str(t.name@);
    let nd = spec_u64_le(t.dirs@.len() as u64);
    let ed = spec_enc_dirs(t.dirs@);
    let nf = spec_u64_le(t.files@.len() as u64);
    let ef = spec_enc_files(t.files@);
    assert((((a + nd) + ed) + nf) + ef == b.subrange(pos, e2));
    lemma_concat_sub(b, pos, e2, ((a + nd) + ed) + nf, ef);
    let m4 = pos + (((a + nd) + ed) + nf).len();
    lemma_concat_sub(b, pos, m4, (a + nd) + ed, nf);
    let m3 = pos + ((a + nd) + ed).len();
    lemma_concat_sub(b, pos, m3, a + nd, ed);
    let m2 = pos + (a + nd).len();
    lemma_concat_sub(b, pos, m2, a, nd);
}

/// Two well-formed nodes whose encodings start the same byte run are
/// structurally equal and encode to the same bytes.
#[verifier::rlimit(100)]
#[verifier::spinoff_prover]
proof fn lemma_tree_prefix(t1: DirRoot, t2: DirRoot, ra: Seq<u8>, rb: Seq<u8>)
    requires
        tree_wf(t1),
        tree_wf(t2),
        spec_enc_tree(t1) + ra == spec_enc_tree(t2) + rb,
    ensures
        tree_eq(t1, t2),
        spec_enc_tree(t1) == spec_enc_tree(t2),
        ra == rb,
    decreases t1, 1int,
{
    let t = spec_enc_tree(t1) + ra;
    let n1 = spec_enc_tree(t1).len() as int;
    let n2 = spec_enc_tree(t2).len() as int;
    assert(t.subrange(0, t.len() as int) =~= t);
    lemma_concat_sub(t, 0, t.len() as int, spec_enc_tree(t1), ra);
    lemma_concat_sub(t, 0, t.len() as int, spec_enc_tree(t2), rb);
    lemma_tree_parts(t, 0, n1, t1);
    lemma_tree_parts(t, 0, n2, t2);
    let a1 = spec_enc_str(t1.name@);
    let a2 = spec_enc_str(t2.name@);
    lemma_enc_bytes_same_start(
        t,
        0,
        a1.len() as int,
        a2.len() as int,
        encode_utf8(t1.name@),
        encode_utf8(t2.name@),
    );
    vstd::utf8::encode_utf8_decode_utf8(t1.name@);
    vstd::utf8::encode_utf8_decode_utf8(t2.name@);
    let m = a1.len() as int;
    lemma_u64_le_inj(t1.dirs@.len() as u64, t2.dirs@.len() as u64);
    assert(t1.dirs@.len() == t2.dirs@.len());
    let ds = m + 8;
    let ed1 = spec_enc_dirs(t1.dirs@);
    let ed2 = spec_enc_dirs(t2.dirs@);
    assert(ed1 + t.subrange(ds + ed1.len(), t.len() as int) =~= t.subrange(ds, t.len() as int));
    assert(ed2 + t.subrange(ds + ed2.len(), t.len() as int) =~= t.subrange(ds, t.len() as int));
    lemma_dirs_prefix(
        t1.dirs@,
        t2.dirs@,
        t.subrange(ds + ed1.len(), t.len() as int),
        t.subrange(ds + ed2.len(), t.len() as int),
    );
    assert(ed1.len() == ed2.len());
    let fs = ds + ed1.len();
    lemma_u64_le_inj(t1.files@.len() as u64, t2.files@.len() as u64);
    let ef1 = spec_enc_files(t1.files@);
    let ef2 = spec_enc_files(t2.files@);
    assert(ef1 + t.subrange(n1, t.len() as int) =~= t.subrange(fs + 8, t.len() as int));
    assert(ef2 + t.subrange(n2, t.len() as int) =~= t.subrange(fs + 8, t.len() as int));
    lemma_files_prefix(
        t1.files@,
        t2.files@,
        t.subrange(n1, t.len() as int),
        t.subrange(n2, t.len() as int),
    );
    assert(n1 == n2);
    assert(ra =~= rb) by {
        assert(ra == t.subrange(n1, t.len() as int));
        assert(rb == t.subrange(n2, t.len() as int));
    }
    assert(tree_eq(t1, t2));
}

/// Two equally long runs of well-formed nodes whose concatenated
/// encodings start the same byte run agree node for node.
proof fn lemma_dirs_prefix(ds1: Seq<DirRoot>, ds2: Seq<DirRoot>, ra: Seq<u8>, rb: Seq<u8>)
    requires
        ds1.len() == ds2.len(),
        forall|i: int| 0 <= i < ds1.len() ==> tree_wf(#[trigger] ds1[i]),
        forall|i: int| 0 <= i < ds2.len() ==> tree_wf(#[trigger] ds2[i]),
        spec_enc_dirs(ds1) + ra == spec_enc_dirs(ds2) + rb,
    ensures
        forall|i: int| 0 <= i < ds1.len() ==> tree_eq(#[trigger] ds1[i], ds2[i]),
        spec_enc_dirs(ds1) == spec_enc_dirs(ds2),
        ra == rb,
    decreases ds1, 0int,
{
    if ds1.len() == 0 {
        assert(spec_enc_dirs(ds1) =~= Seq::<u8>::empty());
        assert(spec_enc_dirs(ds2) =~= Seq::<u8>::empty());
        assert(Seq::<u8>::empty() + ra =~= ra);
        assert(Seq::<u8>::empty() + rb =~= rb);
    } else {
        let r1 = ds1.subrange(1, ds1.len() as int);
        let r2 = ds2.subrange(1, ds2.len() as int);
        assert(spec_enc_tree(ds1[0]) + (spec_enc_dirs(r1) + ra) =~= (spec_enc_tree(ds1[0])
            + spec_enc_dirs(r1)) + ra);
        assert(spec_enc_tree(ds2[0]) + (spec_enc_dirs(r2) + rb) =~= (spec_enc_tree(ds2[0])
            + spec_enc_dirs(r2)) + rb);
        lemma_tree_prefix(ds1[0], ds2[0], spec_enc_dirs(r1) + ra, spec_enc_dirs(r2) + rb);
        lemma_dirs_prefix(r1, r2, ra, rb);
        assert(forall|i: int| 1 <= i < ds1.len() ==> ds1[i] == r1[i - 1] && ds2[i] == r2[i - 1]);
    }
}

/// Two equally long runs of well-formed file entries whose concatenated
/// encodings start the same byte run agree entry for entry.
proof fn lemma_files_prefix(fs1: Seq<FileInfo>, fs2: Seq<FileInfo>, ra: Seq<u8>, rb: Seq<u8>)
    requires
        fs1.len() == fs2.len(),
        forall|i: int| 0 <= i < fs1.len() ==> file_wf(#[trigger] fs1[i]),
        forall|i: int| 0 <= i < fs2.len() ==> file_wf(#[trigger] fs2[i]),
        spec_enc_files(fs1) + ra == spec_enc_files(fs2) + rb,
    ensures
        forall|i: int| 0 <= i < fs1.len() ==> file_eq(#[trigger] fs1[i], fs2[i]),
        spec_enc_files(fs1) == spec_enc_files(fs2),
        ra == rb,
    decreases fs1,
{
    if fs1.len() == 0 {
        assert(spec_enc_files(fs1) =~= Seq::<u8>::empty());
        assert(spec_enc_files(fs2) =~= Seq::<u8>::empty());
        assert(Seq::<u8>::empty() + ra =~= ra);
        assert(Seq::<u8>::empty() + rb =~= rb);
    } else {
        let r1 = fs1.subrange(1, fs1.len() as int);
        let r2 = fs2.subrange(1, fs2.len() as int);
        assert(spec_enc_file(fs1[0]) + (spec_enc_files(r1) + ra) =~= (spec_enc_file(fs1[0])
            + spec_enc_files(r1)) + ra);
        assert(spec_enc_file(fs2[0]) + (spec_enc_files(r2) + rb) =~= (spec_enc_file(fs2[0])
            + spec_enc_files(r2)) + rb);
        lemma_file_prefix(fs1[0], fs2[0], spec_enc_files(r1) + ra, spec_enc_files(r2) + rb);
        lemma_files_prefix(r1, r2, ra, rb);
        assert(forall|i: int| 1 <= i < fs1.len() ==> fs1[i] == r1[i - 1] && fs2[i] == r2[i - 1]);
    }
}

/// The encoding is injective on well-formed trees: two trees with the
/// same encoding are structurally equal.  Together with the contracts of
/// `encode` and `decode` this pins the codec round trip down: decoding an
/// encoded tree yields the tree itself, and encoding a decoded input
/// yields the input bytes.
pub proof fn lemma_encode_injective(a: DirRoot, b: DirRoot)
    requires
        tree_wf(a),
        tree_wf(b),
        spec_enc_tree(a) == spec_enc_tree(b),
    ensures
        tree_eq(a, b),
{
    assert(spec_enc_tree(a) + Seq::<u8>::empty() =~= spec_enc_tree(a));
    assert(spec_enc_tree(b) + Seq::<u8>::empty() =~= spec_enc_tree(b));
    lemma_tree_prefix(a, b, Seq::empty(), Seq::empty());
}

/// A parsed run of nodes and a candidate run that encode into the same
/// bytes line up: the candidate's remaining nodes encode the remaining
/// bytes.
proof fn lemma_dirs_align(
    b: Seq<u8>,
    p0: int,
    p: int,
    y: int,
    parsed: Seq<DirRoot>,
    tdirs: Seq<DirRoot>,
)
    requires
        0 <= p0 <= p <= b.len(),
        0 <= p0 <= y <= b.len(),
        parsed.len() <= tdirs.len(),
        forall|i: int| 0 <= i < parsed.len() ==> tree_wf(#[trigger] parsed[i]),
        forall|i: int| 0 <= i < tdirs.len() ==> tree_wf(#[trigger] tdirs[i]),
        spec_enc_dirs(parsed) == b.subrange(p0, p),
        spec_enc_dirs(tdirs) == b.subrange(p0, y),
    ensures
        spec_enc_dirs(tdirs.subrange(parsed.len() as int, tdirs.len() as int)) == b.subrange(p, y),
        p <= y,
    decreases parsed.len(),
{
    let blen = b.len() as int;
    if parsed.len() == 0 {
        assert(spec_enc_dirs(parsed) =~= Seq::<u8>::empty());
        assert(p == p0);
        assert(tdirs.subrange(0, tdirs.len() as int) =~= tdirs);
    } else {
        let ph = parsed[0];
        let th = tdirs[0];
        let pr = parsed.subrange(1, parsed.len() as int);
        let tr = tdirs.subrange(1, tdirs.len() as int);
        lemma_join_sub(b, p0, p, blen);
        lemma_join_sub(b, p0, y, blen);
        assert((spec_enc_tree(ph) + spec_enc_dirs(pr)) + b.subrange(p, blen) =~= spec_enc_tree(ph)
            + (spec_enc_dirs(pr) + b.subrange(p, blen)));
        assert((spec_enc_tree(th) + spec_enc_dirs(tr)) + b.subrange(y, blen) =~= spec_enc_tree(th)
            + (spec_enc_dirs(tr) + b.subrange(y, blen)));
        lemma_tree_prefix(
            ph,
            th,
            spec_enc_dirs(pr) + b.subrange(p, blen),
            spec_enc_dirs(tr) + b.subrange(y, blen),
        );
        lemma_concat_sub(b, p0, p, spec_enc_tree(ph), spec_enc_dirs(pr));
        lemma_concat_sub(b, p0, y, spec_enc_tree(th), spec_enc_dirs(tr));
        let q1 = p0 + spec_enc_tree(ph).len() as int;
        lemma_dirs_align(b, q1, p, y, pr, tr);
        assert(tr.subrange(pr.len() as int, tr.len() as int) =~= tdirs.subrange(
            parsed.len() as int,
            tdirs.len() as int,
        ));
    }
}

/// As `lemma_dirs_align`, for runs of file entries.
proof fn lemma_files_align(
    b: Seq<u8>,
    p0: int,
    p: int,
    y: int,
    parsed: Seq<FileInfo>,
    tfiles: Seq<FileInfo>,
)
    requires
        0 <= p0 <= p <= b.len(),
        0 <= p0 <= y <= b.len(),
        parsed.len() <= tfiles.len(),
        forall|i: int| 0 <= i < parsed.len() ==> file_wf(#[trigger] parsed[i]),
        forall|i: int| 0 <= i < tfiles.len() ==> file_wf(#[trigger] tfiles[i]),
        spec_enc_files(parsed) == b.subrange(p0, p),
        spec_enc_files(tfiles) == b.subrange(p0, y),
    ensures
        spec_enc_files(tfiles.subrange(parsed.len() as int, tfiles.len() as int)) == b.subrange(
            p,
            y,
        ),
        p <= y,
    decreases parsed.len(),
{
    let blen = b.len() as int;
    if parsed.len() == 0 {
        assert(spec_enc_files(parsed) =~= Seq::<u8>::empty());
        assert(p == p0);
        assert(tfiles.subrange(0, tfiles.len() as int) =~= tfiles);
    } else {
        let ph = parsed[0];
        let th = tfiles[0];
        let pr = parsed.subrange(1, parsed.len() as int);
        let tr = tfiles.subrange(1, tfiles.len() as int);
        lemma_join_sub(b, p0, p, blen);
        lemma_join_sub(b, p0, y, blen);
        assert((spec_enc_file(ph) + spec_enc_files(pr)) + b.subrange(p, blen) =~= spec_enc_file(ph)
            + (spec_enc_files(pr) + b.subrange(p, blen)));
        assert((spec_enc_file(th) + spec_enc_files(tr)) + b.subrange(y, blen) =~= spec_enc_file(th)
            + (spec_enc_files(tr) + b.subrange(y, blen)));
        lemma_file_prefix(
            ph,
            th,
            spec_enc_files(pr) + b.subrange(p, blen),
            spec_enc_files(tr) + b.subrange(y, blen),
        );
        lemma_concat_sub(b, p0, p, spec_enc_file(ph), spec_enc_files(pr));
        lemma_concat_sub(b, p0, y, spec_enc_file(th), spec_enc_files(tr));
        let q1 = p0 + spec_enc_file(ph).len() as int;
        lemma_files_align(b, q1, p, y, pr, tr);
        assert(tr.subrange(pr.len() as int, tr.len() as int) =~= tfiles.subrange(
            parsed.len() as int,
            tfiles.len() as int,
        ));
    }
}

/// Read one directory node at `pos`.
fn read_tree(b: &Vec<u8>, pos: usize) -> (r: Result<(DirRoot, usize), DecodeError>)
    requires
        pos <= b@.len(),
    ensures
        r matches Ok(v) ==> pos < v.1 <= b@.len() && tree_wf(v.0) && spec_enc_tree(v.0)
            == b@.subrange(pos as int, v.1 as int),
        r is Err ==> (forall|t: DirRoot, e2: int|
            pos <= e2 <= b@.len() && tree_wf(t) ==> spec_enc_tree(t) != b@.subrange(pos as int, e2)),
    decreases b@.len() - pos,
{
    let (name, p1) = match read_str(b, pos) {
        Ok(v) => v,
        Err(e) => {
            proof {
                assert forall|t: DirRoot, e2: int|
                    pos <= e2 <= b@.len() && tree_wf(t) implies spec_enc_tree(t) != b@.subrange(
                    pos as int,
                    e2,
                ) by {
                    if spec_enc_tree(t) == b@.subrange(pos as int, e2) {
                        lemma_tree_parts(b@, pos as int, e2, t);
                    }
                }
            }
            return Err(e);
        },
    };
    let (nd, p2) = match read_u64_le(b, p1) {
        Ok(v) => v,
        Err(e) => {
            proof {
                assert forall|t: DirRoot, e2: int|
                    pos <= e2 <= b@.len() && tree_wf(t) implies spec_enc_tree(t) != b@.subrange(
                    pos as int,
                    e2,
                ) by {
                    if spec_enc_tree(t) == b@.subrange(pos as int, e2) {
                        lemma_tree_parts(b@, pos as int, e2, t);
                        lemma_enc_bytes_same_start(
                            b@,
                            pos as int,
                            pos + spec_enc_str(t.name@).len(),
                            p1 as int,
                            encode_utf8(t.name@),
                            encode_utf8(name@),
                        );
                    }
                }
            }
            return Err(e);
        },
    };
    let mut dirs: Vec<DirRoot> = Vec::new();
    let mut k: u64 = 0;
    let mut p: usize = p2;
    while k < nd
        invariant
            pos < p1,
            p1 + 8 == p2,
            p2 <= p <= b@.len(),
            k <= nd,
            dirs@.len() == k,
            forall|i: int| 0 <= i < dirs@.len() ==> tree_wf(#[trigger] dirs@[i]),
            spec_enc_dirs(dirs@) == b@.subrange(p2 as int, p as int),
            spec_enc_str(name@) == b@.subrange(pos as int, p1 as int),
            fits_u64(encode_utf8(name@).len()),
            spec_u64_le(nd) == b@.subrange(p1 as int, p2 as int),
        decreases nd - k,
    {
        match read_tree(b, p) {
            Ok(v) => {
                let (child, np) = v;
                proof {
                    lemma_enc_dirs_push(dirs@, child);
                    lemma_join_sub(b@, p2 as int, p as int, np as int);
                }
                dirs.push(child);
                p = np;
                k = k + 1;
            },
            Err(e) => {
                proof {
                    let parsed = dirs@;
                    assert forall|t: DirRoot, e2: int|
                        pos <= e2 <= b@.len() && tree_wf(t) implies spec_enc_tree(t) != b@.subrange(
                        pos as int,
                        e2,
                    ) by {
                        if spec_enc_tree(t) == b@.subrange(pos as int, e2) {
                            lemma_tree_parts(b@, pos as int, e2, t);
                            lemma_enc_bytes_same_start(
                                b@,
                                pos as int,
                                pos + spec_enc_str(t.name@).len(),
                                p1 as int,
                                encode_utf8(t.name@),
                                encode_utf8(name@),
                            );
                            lemma_u64_le_inj(t.dirs@.len() as u64, nd);
                            let y = p2 + spec_enc_dirs(t.dirs@).len() as int;
                            lemma_dirs_align(b@, p2 as int, p as int, y, parsed, t.dirs@);
                            let suffix = t.dirs@.subrange(
                                parsed.len() as int,
                                t.dirs@.len() as int,
                            );
                            assert(suffix.len() > 0);
                            lemma_concat_sub(
                                b@,
                                p as int,
                                y,
                                spec_enc_tree(suffix[0]),
                                spec_enc_dirs(suffix.subrange(1, suffix.len() as int)),
                            );
                            assert(spec_enc_tree(suffix[0]) == b@.subrange(
                                p as int,
                                p + spec_enc_tree(suffix[0]).len(),
                            ));
                        }
                    }
                }
                return Err(e);
            },
        }
    }
    let ghost pdirs = p;
    let (nf, p3) = match read_u64_le(b, p) {
        Ok(v) => v,
        Err(e) => {
            proof {
                assert forall|t: DirRoot, e2: int|
                    pos <= e2 <= b@.len() && tree_wf(t) implies spec_enc_tree(t) != b@.subrange(
                    pos as int,
                    e2,
                ) by {
                    if spec_enc_tree(t) == b@.subrange(pos as int, e2) {
                        lemma_tree_parts(b@, pos as int, e2, t);
                        lemma_enc_bytes_same_start(
                            b@,
                            pos as int,
                            pos + spec_enc_str(t.name@).len(),
                            p1 as int,
                            encode_utf8(t.name@),
                            encode_utf8(name@),
                        );
                        lemma_u64_le_inj(t.dirs@.len() as u64, nd);
                        let y = p2 + spec_enc_dirs(t.dirs@).len() as int;
                        lemma_dirs_align(b@, p2 as int, p as int, y, dirs@, t.dirs@);
                        assert(t.dirs@.subrange(dirs@.len() as int, t.dirs@.len() as int)
                            =~= Seq::<DirRoot>::empty());
                        assert(spec_enc_dirs(Seq::<DirRoot>::empty()) =~= Seq::<u8>::empty());
                        assert(y == p);
                    }
                }
            }
            return Err(e);
        },
    };
    let mut files: Vec<FileInfo> = Vec::new();
    let mut j: u64 = 0;
    let mut q: usize = p3;
    while j < nf
        invariant
            pos < p1,
            p1 + 8 == p2,
            p2 <= pdirs,
            pdirs + 8 == p3,
            p3 <= q <= b@.len(),
            j <= nf,
            files@.len() == j,
            forall|i: int| 0 <= i < files@.len() ==> file_wf(#[trigger] files@[i]),
            spec_enc_files(files@) == b@.subrange(p3 as int, q as int),
            spec_enc_str(name@) == b@.subrange(pos as int, p1 as int),
            fits_u64(encode_utf8(name@).len()),
            spec_u64_le(nd) == b@.subrange(p1 as int, p2 as int),
            dirs@.len() == nd,
            forall|i: int| 0 <= i < dirs@.len() ==> tree_wf(#[trigger] dirs@[i]),
            spec_enc_dirs(dirs@) == b@.subrange(p2 as int, pdirs as int),
            spec_u64_le(nf) == b@.subrange(pdirs as int, p3 as int),
        decreases nf - j,
    {
        match read_file(b, q) {
            Ok(v) => {
                let (f, nq) = v;
                proof {
                    lemma_enc_files_push(files@, f);
                    lemma_join_sub(b@, p3 as int, q as int, nq as int);
                }
                files.push(f);
                q = nq;
                j = j + 1;
            },
            Err(e) => {
                proof {
                    let parsed = files@;
                    assert forall|t: DirRoot, e2: int|
                        pos <= e2 <= b@.len() && tree_wf(t) implies spec_enc_tree(t) != b@.subrange(
                        pos as int,
                        e2,
                    ) by {
                        if spec_enc_tree(t) == b@.subrange(pos as int, e2) {
                            lemma_tree_parts(b@, pos as int, e2, t);
                            lemma_enc_bytes_same_start(
                                b@,
                                pos as int,
                                pos + spec_enc_str(t.name@).len(),
                                p1 as int,
                                encode_utf8(t.name@),
                                encode_utf8(name@),
                            );
                            lemma_u64_le_inj(t.dirs@.len() as u64, nd);
                            let y = p2 + spec_enc_dirs(t.dirs@).len() as int;
                            lemma_dirs_align(b@, p2 as int, pdirs as int, y, dirs@, t.dirs@);
                            assert(t.dirs@.subrange(dirs@.len() as int, t.dirs@.len() as int)
                                =~= Seq::<DirRoot>::empty());
                            assert(spec_enc_dirs(Seq::<DirRoot>::empty()) =~= Seq::<u8>::empty());
                            assert(y == pdirs);
                            lemma_u64_le_inj(t.files@.len() as u64, nf);
                            let z = p3 + spec_enc_files(t.files@).len() as int;
                            lemma_files_align(b@, p3 as int, q as int, z, parsed, t.files@);
                            let suffix = t.files@.subrange(
                                parsed.len() as int,
                                t.files@.len() as int,
                            );
                            assert(suffix.len() > 0);
                            lemma_concat_sub(
                                b@,
                                q as int,
                                z,
                                spec_enc_file(suffix[0]),
                                spec_enc_files(suffix.subrange(1, suffix.len() as int)),
                            );
                            assert(spec_enc_file(suffix[0]) == b@.subrange(
                                q as int,
                                q + spec_enc_file(suffix[0]).len(),
                            ));
                        }
                    }
                }
                return Err(e);
            },
        }
    }
    let t = DirRoot { name, dirs, files };
    proof {
        assert(tree_wf(t));
        let a = spec_enc_str(t.name@);
        lemma_join_sub(b@, pos as int, p1 as int, p2 as int);
        lemma_join_sub(b@, pos as int, p2 as int, pdirs as int);
        lemma_join_sub(b@, pos as int, pdirs as int, p3 as int);
        lemma_join_sub(b@, pos as int, p3 as int, q as int);
        assert(spec_enc_tree(t) == b@.subrange(pos as int, q as int)) by {
            assert(a + spec_u64_le(nd) == b@.subrange(pos as int, p2 as int));
            assert((a + spec_u64_le(nd)) + spec_enc_dirs(t.dirs@) == b@.subrange(
                pos as int,
                pdirs as int,
            ));
            assert(((a + spec_u64_le(nd)) + spec_enc_dirs(t.dirs@)) + spec_u64_le(nf)
                == b@.subrange(pos as int, p3 as int));
            assert((((a + spec_u64_le(nd)) + spec_enc_dirs(t.dirs@)) + spec_u64_le(nf))
                + spec_enc_files(t.files@) == b@.subrange(pos as int, q as int));
        }
    }
    Ok((t, q))
}

/// Deserialize a profile tree.  Succeeds exactly when the whole input is
/// the encoding of a well-formed tree; trailing bytes are rejected as
/// truncation of the expected layout.
pub fn decode(b: &Vec<u8>) -> (r: Result<DirRoot, DecodeError>)
    ensures
        r matches Ok(t) ==> tree_wf(t) && spec_enc_tree(t) == b@,
        r is Err ==> (forall|t: DirRoot| tree_wf(t) ==> spec_enc_tree(t) != b@),
{
    let n = b.len();
    proof {
        assert(b@.subrange(0, b@.len() as int) =~= b@);
    }
    match read_tree(b, 0) {
        Ok(v) => {
            let (t, end) = v;
            if end == n {
                Ok(t)
            } else {
                proof {
                    assert forall|t2: DirRoot| tree_wf(t2) implies spec_enc_tree(t2) != b@ by {
                        if spec_enc_tree(t2) == b@ {
                            lemma_join_sub(b@, 0, end as int, n as int);
                            assert(spec_enc_tree(t2) + Seq::<u8>::empty() =~= spec_enc_tree(t2));
                            lemma_tree_prefix(
                                t2,
                                t,
                                Seq::empty(),
                                b@.subrange(end as int, n as int),
                            );
                            assert(b@.subrange(end as int, n as int).len() == 0);
                        }
                    }
                }
                Err(DecodeError::TruncatedInput)
            }
        },
        Err(e) => {
            proof {
                assert forall|t2: DirRoot| tree_wf(t2) implies spec_enc_tree(t2) != b@ by {
                    if spec_enc_tree(t2) == b@ {
                        assert(spec_enc_tree(t2) == b@.subrange(0, b@.len() as int));
                    }
                }
            }
            Err(e)
        },
    }
}

/// Serialize a profile tree into its binary form.
pub fn encode(t: &DirRoot) -> (r: Vec<u8>)
    ensures
        r@ == spec_enc_tree(*t),
{
    let mut out: Vec<u8> = Vec::new();
    push_tree_enc(&mut out, t);
    assert(out@ =~= spec_enc_tree(*t));
    out
}

} // verus!
