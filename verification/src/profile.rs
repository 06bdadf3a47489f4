//! The profile data model: a rooted tree of directory nodes and typed file
//! entries, together with its well-formedness predicate, structural
//! equality, and the capture step that builds a tree from raw directory
//! listings.

use vstd::prelude::*;

verus! {

use vstd::string::StrSliceExecFns;
use vstd::string::StringExecFns;
use vstd::utf8::decode_utf8;
use vstd::utf8::encode_utf8;
use vstd::utf8::valid_utf8;

use crate::text::copy_bytes;
use crate::text::str_byte_len;
use crate::text::utf8_to_string;

/// A directory node: a name (empty for the root), child directories and
/// file entries, both in capture order.
pub struct DirRoot {
    pub name: String,
    pub dirs: Vec<DirRoot>,
    pub files: Vec<FileInfo>,
}

/// One captured file: its leaf name, its kind and its payload.
pub struct FileInfo {
    pub name: String,
    pub file_type: FileType,
    pub content: FileContent,
}

/// How a file's bytes were classified at capture time.
#[derive(Clone, Copy, PartialEq, Eq, Structural, Debug)]
pub enum FileType {
    Bin,
    Text,
}

/// The payload of a file entry, matching its `FileType`.
#[derive(Debug)]
pub enum FileContent {
    Text(String),
    Bin(Vec<u8>),
}

/// One entry of a raw directory listing, as the filesystem walk hands it
/// over: a subdirectory with its own listing, or a regular file with its
/// full contents.
pub enum RawEntry {
    Dir(String, Vec<RawEntry>),
    File(String, Vec<u8>),
}

/// `n` fits the 64-bit length prefixes of the profile encoding.
pub open spec fn fits_u64(n: nat) -> bool {
    n < 0x1_0000_0000_0000_0000
}

/// The bytes a file entry's payload stands for: the UTF-8 encoding of a
/// text payload, or the raw bytes of a binary one.
pub open spec fn spec_content_bytes(c: FileContent) -> Seq<u8> {
    match c {
        FileContent::Text(s) => encode_utf8(s@),
        FileContent::Bin(b) => b@,
    }
}

/// A file entry is well formed when its kind tag agrees with its payload
/// variant and its name and payload fit the encoding's length prefixes.
pub open spec fn file_wf(f: FileInfo) -> bool {
    &&& match (f.file_type, f.content) {
        (FileType::Text, FileContent::Text(_)) => true,
        (FileType::Bin, FileContent::Bin(_)) => true,
        _ => false,
    }
    &&& fits_u64(encode_utf8(f.name@).len())
    &&& fits_u64(spec_content_bytes(f.content).len())
}

/// A tree is well formed when every entry in it is, and every name and
/// child count fits the encoding's length prefixes.
pub open spec fn tree_wf(t: DirRoot) -> bool
    decreases t,
{
    &&& fits_u64(encode_utf8(t.name@).len())
    &&& fits_u64(t.dirs@.len())
    &&& fits_u64(t.files@.len())
    &&& forall|i: int| 0 <= i < t.dirs@.len() ==> tree_wf(#[trigger] t.dirs@[i])
    &&& forall|i: int| 0 <= i < t.files@.len() ==> file_wf(#[trigger] t.files@[i])
}

/// Structural equality of payloads.
pub open spec fn content_eq(a: FileContent, b: FileContent) -> bool {
    match (a, b) {
        (FileContent::Text(x), FileContent::Text(y)) => x@ == y@,
        (FileContent::Bin(x), FileContent::Bin(y)) => x@ == y@,
        _ => false,
    }
}

/// Structural equality of file entries.
pub open spec fn file_eq(a: FileInfo, b: FileInfo) -> bool {
    a.name@ == b.name@ && a.file_type == b.file_type && content_eq(a.content, b.content)
}

/// Structural equality of trees: same names, same nesting, same entries in
/// the same order.
pub open spec fn tree_eq(a: DirRoot, b: DirRoot) -> bool
    decreases a,
{
    &&& a.name@ == b.name@
    &&& a.dirs@.len() == b.dirs@.len()
    &&& a.files@.len() == b.files@.len()
    &&& forall|i: int| 0 <= i < a.dirs@.len() ==> tree_eq(#[trigger] a.dirs@[i], b.dirs@[i])
    &&& forall|i: int| 0 <= i < a.files@.len() ==> file_eq(#[trigger] a.files@[i], b.files@[i])
}

/// No file entry anywhere in the tree has an empty payload.
pub open spec fn no_empty_payloads(t: DirRoot) -> bool
    decreases t,
{
    &&& forall|i: int|
        0 <= i < t.files@.len() ==> spec_content_bytes((#[trigger] t.files@[i]).content).len() > 0
    &&& forall|i: int| 0 <= i < t.dirs@.len() ==> no_empty_payloads(#[trigger] t.dirs@[i])
}

/// `f` is what capturing a regular file named `name` with contents `bytes`
/// must produce: text entries for valid UTF-8 contents, binary entries
/// otherwise, byte for byte.
pub open spec fn file_captures(f: FileInfo, name: Seq<char>, bytes: Seq<u8>) -> bool {
    &&& f.name@ == name
    &&& if valid_utf8(bytes) {
        f.file_type == FileType::Text && match f.content {
            FileContent::Text(s) => s@ == decode_utf8(bytes),
            FileContent::Bin(_) => false,
        }
    } else {
        f.file_type == FileType::Bin && match f.content {
            FileContent::Bin(b) => b@ == bytes,
            FileContent::Text(_) => false,
        }
    }
}

/// The children `dirs`/`files` are exactly what capturing the raw listing
/// `entries` must produce, in listing order: every subdirectory becomes a
/// child node, every non-empty regular file becomes a file entry, and
/// empty files are skipped.
pub open spec fn children_capture(
    dirs: Seq<DirRoot>,
    files: Seq<FileInfo>,
    entries: Seq<RawEntry>,
) -> bool
    decreases entries, 0int,
{
    if entries.len() == 0 {
        dirs.len() == 0 && files.len() == 0
    } else {
        match entries[0] {
            RawEntry::Dir(n, sub) => {
                &&& dirs.len() > 0
                &&& tree_captures(dirs[0], n@, sub@)
                &&& children_capture(
                    dirs.subrange(1, dirs.len() as int),
                    files,
                    entries.subrange(1, entries.len() as int),
                )
            },
            RawEntry::File(n, bytes) => {
                if bytes@.len() == 0 {
                    children_capture(dirs, files, entries.subrange(1, entries.len() as int))
                } else {
                    &&& files.len() > 0
                    &&& file_captures(files[0], n@, bytes@)
                    &&& children_capture(
                        dirs,
                        files.subrange(1, files.len() as int),
                        entries.subrange(1, entries.len() as int),
                    )
                }
            },
        }
    }
}

/// `t` is what capturing a directory named `name` with raw listing
/// `entries` must produce.
pub open spec fn tree_captures(t: DirRoot, name: Seq<char>, entries: Seq<RawEntry>) -> bool
    decreases entries, 1int,
{
    t.name@ == name && children_capture(t.dirs@, t.files@, entries)
}

impl DirRoot {
    /// A directory node with the given name and no children.
    pub fn new(name: &str) -> (r: Self)
        ensures
            r.name@ == name@,
            r.dirs@.len() == 0,
            r.files@.len() == 0,
    {
        DirRoot { name: name.to_owned(), dirs: Vec::new(), files: Vec::new() }
    }

    /// Build the profile tree for a captured directory listing.  The root
    /// node's name is the empty string; subdirectories recurse, non-empty
    /// regular files are classified as text or binary, and empty files are
    /// skipped.
    pub fn from_dir(entries: Vec<RawEntry>) -> (r: Self)
        ensures
            tree_captures(r, Seq::<char>::empty(), entries@),
            tree_wf(r),
            no_empty_payloads(r),
    {
        let (dirs, files) = capture_children(entries);
        // a vector's length always fits the encoding's 64-bit counts
        let _nd = dirs.len();
        let _nf = files.len();
        assert(fits_u64(dirs@.len()) && fits_u64(files@.len()));
        let name = String::new();
        assert(encode_utf8(name@).len() == 0);
        let r = DirRoot { name, dirs, files };
        assert(tree_wf(r) && no_empty_payloads(r));
        r
    }
}

/// The paths of every directory the tree creates, in pre-order: each
/// child directory under `prefix`, then its own subtree.
pub open spec fn spec_dir_paths(t: DirRoot, prefix: Seq<char>, sep: Seq<char>) -> Seq<Seq<char>>
    decreases t, 1int,
{
    spec_dir_paths_run(t.dirs@, prefix, sep)
}

/// The directory paths contributed by a run of child nodes.
pub open spec fn spec_dir_paths_run(s: Seq<DirRoot>, prefix: Seq<char>, sep: Seq<char>) -> Seq<
    Seq<char>,
>
    decreases s, 0int,
{
    if s.len() == 0 {
        Seq::empty()
    } else {
        seq![prefix + sep + s[0].name@] + spec_dir_paths(s[0], prefix + sep + s[0].name@, sep)
            + spec_dir_paths_run(s.subrange(1, s.len() as int), prefix, sep)
    }
}

/// The paths of every file the tree writes: a node's own files first,
/// then each child subtree, in stored order.
pub open spec fn spec_file_paths(t: DirRoot, prefix: Seq<char>, sep: Seq<char>) -> Seq<Seq<char>>
    decreases t, 1int,
{
    t.files@.map_values(|f: FileInfo| prefix + sep + f.name@) + spec_file_paths_run(
        t.dirs@,
        prefix,
        sep,
    )
}

/// The file paths contributed by a run of child nodes.
pub open spec fn spec_file_paths_run(s: Seq<DirRoot>, prefix: Seq<char>, sep: Seq<char>) -> Seq<
    Seq<char>,
>
    decreases s, 0int,
{
    if s.len() == 0 {
        Seq::empty()
    } else {
        spec_file_paths(s[0], prefix + sep + s[0].name@, sep) + spec_file_paths_run(
            s.subrange(1, s.len() as int),
            prefix,
            sep,
        )
    }
}

/// One node's directory paths extend a run's paths.
proof fn lemma_dir_paths_run_push(s: Seq<DirRoot>, x: DirRoot, prefix: Seq<char>, sep: Seq<char>)
    ensures
        spec_dir_paths_run(s.push(x), prefix, sep) == spec_dir_paths_run(s, prefix, sep) + (seq![
            prefix + sep + x.name@,
        ] + spec_dir_paths(x, prefix + sep + x.name@, sep)),
    decreases s,
{
    let ops = seq![prefix + sep + x.name@] + spec_dir_paths(x, prefix + sep + x.name@, sep);
    if s.len() == 0 {
        assert(s.push(x)[0] == x);
        assert(s.push(x).subrange(1, s.push(x).len() as int) =~= Seq::<DirRoot>::empty());
        assert(spec_dir_paths_run(Seq::<DirRoot>::empty(), prefix, sep) =~= Seq::<Seq<char>>::empty());
        assert(spec_dir_paths_run(s.push(x), prefix, sep) =~= ops);
        assert(spec_dir_paths_run(s, prefix, sep) + ops =~= ops);
    } else {
        let rest = s.subrange(1, s.len() as int);
        lemma_dir_paths_run_push(rest, x, prefix, sep);
        assert(s.push(x).subrange(1, s.push(x).len() as int) =~= rest.push(x));
        assert(s.push(x)[0] == s[0]);
        let hd = seq![prefix + sep + s[0].name@] + spec_dir_paths(s[0], prefix + sep + s[0].name@, sep);
        assert(hd + (spec_dir_paths_run(rest, prefix, sep) + ops) =~= (hd + spec_dir_paths_run(
            rest,
            prefix,
            sep,
        )) + ops);
        assert(spec_dir_paths_run(s.push(x), prefix, sep) =~= hd + (spec_dir_paths_run(
            rest,
            prefix,
            sep,
        ) + ops));
        assert(spec_dir_paths_run(s, prefix, sep) =~= hd + spec_dir_paths_run(rest, prefix, sep));
    }
}

/// One node's file paths extend a run's paths.
proof fn lemma_file_paths_run_push(s: Seq<DirRoot>, x: DirRoot, prefix: Seq<char>, sep: Seq<char>)
    ensures
        spec_file_paths_run(s.push(x), prefix, sep) == spec_file_paths_run(s, prefix, sep)
            + spec_file_paths(x, prefix + sep + x.name@, sep),
    decreases s,
{
    let ops = spec_file_paths(x, prefix + sep + x.name@, sep);
    if s.len() == 0 {
        assert(s.push(x)[0] == x);
        assert(s.push(x).subrange(1, s.push(x).len() as int) =~= Seq::<DirRoot>::empty());
        assert(spec_file_paths_run(Seq::<DirRoot>::empty(), prefix, sep)
            =~= Seq::<Seq<char>>::empty());
        assert(spec_file_paths_run(s.push(x), prefix, sep) =~= ops);
        assert(spec_file_paths_run(s, prefix, sep) + ops =~= ops);
    } else {
        let rest = s.subrange(1, s.len() as int);
        lemma_file_paths_run_push(rest, x, prefix, sep);
        assert(s.push(x).subrange(1, s.push(x).len() as int) =~= rest.push(x));
        assert(s.push(x)[0] == s[0]);
        let hd = spec_file_paths(s[0], prefix + sep + s[0].name@, sep);
        assert(hd + (spec_file_paths_run(rest, prefix, sep) + ops) =~= (hd + spec_file_paths_run(
            rest,
            prefix,
            sep,
        )) + ops);
        assert(spec_file_paths_run(s.push(x), prefix, sep) =~= hd + (spec_file_paths_run(
            rest,
            prefix,
            sep,
        ) + ops));
        assert(spec_file_paths_run(s, prefix, sep) =~= hd + spec_file_paths_run(rest, prefix, sep));
    }
}

impl DirRoot {
    /// The paths of every directory this profile will create, listed
    /// from `prefix` with separator `sep`, pre-order.
    pub fn dir_paths(&self, prefix: &str, sep: &str) -> (r: Vec<String>)
        ensures
            r@.map_values(|s: String| s@) == spec_dir_paths(*self, prefix@, sep@),
    {
        let mut out: Vec<String> = Vec::new();
        assert(out@.map_values(|s: String| s@) =~= Seq::<Seq<char>>::empty());
        dir_paths_into(self, prefix, sep, &mut out);
        proof {
            assert(Seq::<Seq<char>>::empty() + spec_dir_paths(*self, prefix@, sep@)
                =~= spec_dir_paths(*self, prefix@, sep@));
        }
        out
    }

    /// The paths of every file this profile will write, listed from
    /// `prefix` with separator `sep`: a node's files, then its subtrees.
    pub fn file_paths(&self, prefix: &str, sep: &str) -> (r: Vec<String>)
        ensures
            r@.map_values(|s: String| s@) == spec_file_paths(*self, prefix@, sep@),
    {
        let mut out: Vec<String> = Vec::new();
        assert(out@.map_values(|s: String| s@) =~= Seq::<Seq<char>>::empty());
        file_paths_into(self, prefix, sep, &mut out);
        proof {
            assert(Seq::<Seq<char>>::empty() + spec_file_paths(*self, prefix@, sep@)
                =~= spec_file_paths(*self, prefix@, sep@));
        }
        out
    }
}

/// Append the directory paths of `t`'s subtree.
fn dir_paths_into(t: &DirRoot, prefix: &str, sep: &str, out: &mut Vec<String>)
    ensures
        final(out)@.map_values(|s: String| s@) == old(out)@.map_values(|s: String| s@)
            + spec_dir_paths(*t, prefix@, sep@),
    decreases *t,
{
    let ghost base = out@.map_values(|s: String| s@);
    let nd = t.dirs.len();
    let mut i: usize = 0;
    while i < nd
        invariant
            nd == t.dirs@.len(),
            i <= nd,
            out@.map_values(|s: String| s@) == base + spec_dir_paths_run(
                t.dirs@.subrange(0, i as int),
                prefix@,
                sep@,
            ),
        decreases nd - i,
    {
        let d = &t.dirs[i];
        let dpath = String::from_str(prefix).concat(sep).concat(d.name.as_str());
        let ghost pre = out@.map_values(|s: String| s@);
        out.push(dpath.clone());
        proof {
            assert(out@.map_values(|s: String| s@) =~= pre.push(prefix@ + sep@ + d.name@));
        }
        proof {
            assert(decreases_to!(*t => t.dirs@[i as int]));
        }
        dir_paths_into(d, dpath.as_str(), sep, out);
        proof {
            lemma_dir_paths_run_push(t.dirs@.subrange(0, i as int), t.dirs@[i as int], prefix@, sep@);
            assert(t.dirs@.subrange(0, i as int).push(t.dirs@[i as int]) =~= t.dirs@.subrange(
                0,
                i + 1,
            ));
            assert(out@.map_values(|s: String| s@) =~= base + spec_dir_paths_run(
                t.dirs@.subrange(0, i + 1),
                prefix@,
                sep@,
            ));
        }
        i = i + 1;
    }
    assert(t.dirs@.subrange(0, nd as int) =~= t.dirs@);
}

/// Append the file paths of `t`'s subtree.
fn file_paths_into(t: &DirRoot, prefix: &str, sep: &str, out: &mut Vec<String>)
    ensures
        final(out)@.map_values(|s: String| s@) == old(out)@.map_values(|s: String| s@)
            + spec_file_paths(*t, prefix@, sep@),
    decreases *t,
{
    let ghost base = out@.map_values(|s: String| s@);
    let nf = t.files.len();
    let mut k: usize = 0;
    while k < nf
        invariant
            nf == t.files@.len(),
            k <= nf,
            out@.map_values(|s: String| s@) == base + t.files@.subrange(0, k as int).map_values(
                |f: FileInfo| prefix@ + sep@ + f.name@,
            ),
        decreases nf - k,
    {
        let f = &t.files[k];
        let fpath = String::from_str(prefix).concat(sep).concat(f.name.as_str());
        let ghost pre = out@.map_values(|s: String| s@);
        out.push(fpath);
        proof {
            assert(out@.map_values(|s: String| s@) =~= pre.push(prefix@ + sep@ + f.name@));
            assert(t.files@.subrange(0, k + 1).map_values(|f: FileInfo| prefix@ + sep@ + f.name@)
                =~= t.files@.subrange(0, k as int).map_values(
                |f: FileInfo| prefix@ + sep@ + f.name@,
            ).push(prefix@ + sep@ + t.files@[k as int].name@));
        }
        k = k + 1;
    }
    assert(t.files@.subrange(0, nf as int) =~= t.files@);
    let ghost base2 = out@.map_values(|s: String| s@);
    let nd = t.dirs.len();
    let mut i: usize = 0;
    while i < nd
        invariant
            nd == t.dirs@.len(),
            i <= nd,
            out@.map_values(|s: String| s@) == base2 + spec_file_paths_run(
                t.dirs@.subrange(0, i as int),
                prefix@,
                sep@,
            ),
        decreases nd - i,
    {
        let d = &t.dirs[i];
        let dpath = String::from_str(prefix).concat(sep).concat(d.name.as_str());
        proof {
            assert(decreases_to!(*t => t.dirs@[i as int]));
        }
        file_paths_into(d, dpath.as_str(), sep, out);
        proof {
            lemma_file_paths_run_push(t.dirs@.subrange(0, i as int), t.dirs@[i as int], prefix@, sep@);
            assert(t.dirs@.subrange(0, i as int).push(t.dirs@[i as int]) =~= t.dirs@.subrange(
                0,
                i + 1,
            ));
            assert(out@.map_values(|s: String| s@) =~= base2 + spec_file_paths_run(
                t.dirs@.subrange(0, i + 1),
                prefix@,
                sep@,
            ));
        }
        i = i + 1;
    }
    assert(t.dirs@.subrange(0, nd as int) =~= t.dirs@);
    assert(out@.map_values(|s: String| s@) =~= base + spec_file_paths(*t, prefix@, sep@));
}

impl FileInfo {
    /// A file entry with the given name, kind and payload.
    pub fn new(name: &str, file_type: FileType, content: FileContent) -> (r: Self)
        ensures
            r.name@ == name@,
            r.file_type == file_type,
            r.content == content,
    {
        FileInfo { name: name.to_owned(), file_type, content }
    }

    /// The bytes that materializing this entry writes: the UTF-8 encoding
    /// of a text payload, or a binary payload as it stands.
    pub fn content_bytes(&self) -> (r: Vec<u8>)
        ensures
            r@ == spec_content_bytes(self.content),
    {
        match &self.content {
            FileContent::Text(s) => s.as_str().as_bytes_vec(),
            FileContent::Bin(b) => copy_bytes(b),
        }
    }
}

/// Capture one raw listing: classify every entry and build the child
/// nodes and file entries of one directory node, in listing order.
fn capture_children(entries: Vec<RawEntry>) -> (r: (Vec<DirRoot>, Vec<FileInfo>))
    ensures
        children_capture(r.0@, r.1@, entries@),
        forall|i: int| 0 <= i < r.0@.len() ==> tree_wf(#[trigger] r.0@[i]),
        forall|i: int| 0 <= i < r.0@.len() ==> no_empty_payloads(#[trigger] r.0@[i]),
        forall|i: int| 0 <= i < r.1@.len() ==> file_wf(#[trigger] r.1@[i]),
        forall|i: int|
            0 <= i < r.1@.len() ==> spec_content_bytes((#[trigger] r.1@[i]).content).len() > 0,
    decreases entries@,
{
    let ghost orig = entries@;
    if entries.len() == 0 {
        (Vec::new(), Vec::new())
    } else {
        let mut entries = entries;
        let first = entries.remove(0);
        assert(orig[0] == first && entries@ == orig.subrange(1, orig.len() as int));
        match first {
            RawEntry::Dir(n, sub) => {
                proof {
                    assert(decreases_to!(orig => sub@));
                }
                let ghost name_view = n@;
                let (cd, cf) = capture_children(sub);
                let (mut dirs, files) = capture_children(entries);
                // name and child counts fit the encoding's 64-bit prefixes
                let _nb = str_byte_len(n.as_str());
                let _ncd = cd.len();
                let _ncf = cf.len();
                assert(fits_u64(cd@.len()) && fits_u64(cf@.len()));
                let child = DirRoot { name: n, dirs: cd, files: cf };
                assert(tree_wf(child));
                assert(tree_captures(child, name_view, sub@));
                let ghost pre = dirs@;
                dirs.insert(0, child);
                proof {
                    assert(dirs@.subrange(1, dirs@.len() as int) =~= pre);
                    assert(dirs@[0] == child);
                    assert(children_capture(dirs@, files@, orig));
                }
                (dirs, files)
            },
            RawEntry::File(n, bytes) => {
                if bytes.len() == 0 {
                    let r = capture_children(entries);
                    assert(children_capture(r.0@, r.1@, orig));
                    r
                } else {
                    let ghost name_view = n@;
                    let (dirs, mut files) = capture_children(entries);
                    // the name's byte length fits the encoding's 64-bit prefix
                    let _nb = str_byte_len(n.as_str());
                    let f = match utf8_to_string(&bytes) {
                        Some(s) => {
                            proof {
                                vstd::utf8::decode_utf8_encode_utf8(bytes@);
                            }
                            FileInfo { name: n, file_type: FileType::Text, content: FileContent::Text(s) }
                        },
                        None => FileInfo { name: n, file_type: FileType::Bin, content: FileContent::Bin(bytes) },
                    };
                    assert(file_wf(f) && spec_content_bytes(f.content).len() > 0);
                    assert(file_captures(f, name_view, bytes@));
                    let ghost pre = files@;
                    files.insert(0, f);
                    proof {
                        assert(files@.subrange(1, files@.len() as int) =~= pre);
                        assert(files@[0] == f);
                        assert(children_capture(dirs@, files@, orig));
                    }
                    (dirs, files)
                }
            },
        }
    }
}

} // verus!
