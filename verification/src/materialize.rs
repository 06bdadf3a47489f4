//! Materialization planning: top-level conflict detection and the ordered
//! list of filesystem operations that project a profile tree onto a
//! target directory.  Performing the operations (and reading the target's
//! current listing) is left to the caller.

use vstd::prelude::*;

verus! {

use vstd::string::StrSliceExecFns;
use vstd::string::StringExecFns;

use crate::profile::DirRoot;
use crate::profile::FileInfo;
use crate::profile::RawEntry;
use crate::profile::children_capture;
use crate::profile::spec_content_bytes;
use crate::profile::tree_captures;
use crate::text::spec_ends_with;
use crate::text::str_ends_with;

/// One planned filesystem operation, in execution order.
#[derive(Debug)]
pub enum WriteOp {
    /// Create this directory (and any missing parents).
    MkDir(String),
    /// Create or truncate this file and write the payload.
    WriteFile(String, Vec<u8>),
}

/// Why materialization refused to produce a plan.
#[derive(Debug)]
pub enum MaterializeError {
    /// These target entries collide with top-level names of the profile.
    Conflict(Vec<String>),
}

/// The mathematical view of one operation.
pub struct OpView {
    pub is_dir: bool,
    pub path: Seq<char>,
    pub data: Seq<u8>,
}

/// View of an operation: directory flag, full path, payload bytes.
pub open spec fn op_view(op: WriteOp) -> OpView {
    match op {
        WriteOp::MkDir(p) => OpView { is_dir: true, path: p@, data: Seq::empty() },
        WriteOp::WriteFile(p, d) => OpView { is_dir: false, path: p@, data: d@ },
    }
}

/// The operations that materialize the children of `t` under `prefix`:
/// each child directory is created before its own contents, and a node's
/// directories come before its files, in stored order.
pub open spec fn spec_plan(t: DirRoot, prefix: Seq<char>, sep: Seq<char>) -> Seq<OpView>
    decreases t, 1int,
{
    spec_plan_dirs(t.dirs@, prefix, sep) + spec_plan_files(t.files@, prefix)
}

/// The operations for a run of child directories.
pub open spec fn spec_plan_dirs(s: Seq<DirRoot>, prefix: Seq<char>, sep: Seq<char>) -> Seq<OpView>
    decreases s, 0int,
{
    if s.len() == 0 {
        Seq::empty()
    } else {
        seq![OpView { is_dir: true, path: prefix + s[0].name@, data: Seq::empty() }] + spec_plan(
            s[0],
            prefix + s[0].name@ + sep,
            sep,
        ) + spec_plan_dirs(s.subrange(1, s.len() as int), prefix, sep)
    }
}

/// The operations for a run of file entries.
pub open spec fn spec_plan_files(s: Seq<FileInfo>, prefix: Seq<char>) -> Seq<OpView>
    decreases s,
{
    if s.len() == 0 {
        Seq::empty()
    } else {
        seq![
            OpView {
                is_dir: false,
                path: prefix + s[0].name@,
                data: spec_content_bytes(s[0].content),
            },
        ] + spec_plan_files(s.subrange(1, s.len() as int), prefix)
    }
}

/// The top-level names of a profile tree: its child directories' names
/// followed by its file entries' names.
pub open spec fn spec_top_names(t: DirRoot) -> Seq<Seq<char>> {
    t.dirs@.map_values(|d: DirRoot| d.name@) + t.files@.map_values(|f: FileInfo| f.name@)
}

/// The entries of `names` that are top-level names of the tree, in order.
pub open spec fn spec_conflicts(names: Seq<Seq<char>>, top: Seq<Seq<char>>) -> Seq<Seq<char>>
    decreases names,
{
    if names.len() == 0 {
        Seq::empty()
    } else {
        (if top.contains(names[0]) {
            seq![names[0]]
        } else {
            Seq::empty()
        }) + spec_conflicts(names.subrange(1, names.len() as int), top)
    }
}

/// Appending a name extends the conflict list by that name when it is a
/// top-level name.
proof fn lemma_conflicts_push(names: Seq<Seq<char>>, x: Seq<char>, top: Seq<Seq<char>>)
    ensures
        spec_conflicts(names.push(x), top) == spec_conflicts(names, top) + (if top.contains(x) {
            seq![x]
        } else {
            Seq::<Seq<char>>::empty()
        }),
    decreases names,
{
    let tail = if top.contains(x) {
        seq![x]
    } else {
        Seq::<Seq<char>>::empty()
    };
    if names.len() == 0 {
        assert(names.push(x)[0] == x);
        assert(names.push(x).subrange(1, names.push(x).len() as int) =~= Seq::<Seq<char>>::empty());
        assert(spec_conflicts(Seq::<Seq<char>>::empty(), top) =~= Seq::<Seq<char>>::empty());
        assert(spec_conflicts(names.push(x), top) =~= tail);
        assert(spec_conflicts(names, top) + tail =~= tail);
    } else {
        let rest = names.subrange(1, names.len() as int);
        lemma_conflicts_push(rest, x, top);
        assert(names.push(x).subrange(1, names.push(x).len() as int) =~= rest.push(x));
        assert(names.push(x)[0] == names[0]);
        let hd = if top.contains(names[0]) {
            seq![names[0]]
        } else {
            Seq::<Seq<char>>::empty()
        };
        assert(hd + (spec_conflicts(rest, top) + tail) =~= (hd + spec_conflicts(rest, top)) + tail);
    }
}

/// True when `name` names a top-level entry of `t`.
fn is_top_name(t: &DirRoot, name: &String) -> (r: bool)
    ensures
        r == spec_top_names(*t).contains(name@),
{
    let nd = t.dirs.len();
    let mut i: usize = 0;
    while i < nd
        invariant
            nd == t.dirs@.len(),
            i <= nd,
            forall|j: int| 0 <= j < i ==> (#[trigger] t.dirs@[j]).name@ != name@,
        decreases nd - i,
    {
        if t.dirs[i].name == *name {
            assert(spec_top_names(*t)[i as int] == name@);
            return true;
        }
        i = i + 1;
    }
    let nf = t.files.len();
    let mut k: usize = 0;
    while k < nf
        invariant
            nd == t.dirs@.len(),
            nf == t.files@.len(),
            k <= nf,
            forall|j: int| 0 <= j < nd ==> (#[trigger] t.dirs@[j]).name@ != name@,
            forall|j: int| 0 <= j < k ==> (#[trigger] t.files@[j]).name@ != name@,
        decreases nf - k,
    {
        if t.files[k].name == *name {
            assert(spec_top_names(*t)[nd + k] == name@);
            return true;
        }
        k = k + 1;
    }
    proof {
        if spec_top_names(*t).contains(name@) {
            let j = choose|j: int|
                0 <= j < spec_top_names(*t).len() && spec_top_names(*t)[j] == name@;
            if j < nd {
                assert(t.dirs@[j].name@ == name@);
            } else {
                assert(t.files@[j - nd].name@ == name@);
            }
        }
    }
    false
}

/// The top-level names of the tree that already exist under the target:
/// exactly the given existing entries that collide, in their given order.
pub fn plan_conflicts(t: &DirRoot, existing: &Vec<String>) -> (r: Vec<String>)
    ensures
        r@.map_values(|s: String| s@) == spec_conflicts(
            existing@.map_values(|s: String| s@),
            spec_top_names(*t),
        ),
{
    let ghost top = spec_top_names(*t);
    let ghost views = existing@.map_values(|s: String| s@);
    let mut r: Vec<String> = Vec::new();
    let mut i: usize = 0;
    while i < existing.len()
        invariant
            i <= existing@.len(),
            views == existing@.map_values(|s: String| s@),
            top == spec_top_names(*t),
            r@.map_values(|s: String| s@) == spec_conflicts(views.subrange(0, i as int), top),
        decreases existing@.len() - i,
    {
        let name = &existing[i];
        proof {
            lemma_conflicts_push(views.subrange(0, i as int), views[i as int], top);
            assert(views.subrange(0, i as int).push(views[i as int]) =~= views.subrange(
                0,
                i + 1,
            ));
        }
        if is_top_name(t, name) {
            let ghost pre = r@;
            r.push(name.clone());
            proof {
                assert(r@.map_values(|s: String| s@) =~= pre.map_values(|s: String| s@).push(
                    views[i as int],
                ));
                assert(spec_conflicts(views.subrange(0, i as int), top) + seq![views[i as int]]
                    =~= spec_conflicts(views.subrange(0, i as int), top).push(views[i as int]));
            }
        } else {
            proof {
                assert(spec_conflicts(views.subrange(0, i as int), top)
                    + Seq::<Seq<char>>::empty() =~= spec_conflicts(
                    views.subrange(0, i as int),
                    top,
                ));
            }
        }
        i = i + 1;
    }
    proof {
        assert(views.subrange(0, views.len() as int) =~= views);
    }
    r
}

/// Appending one directory node extends a planned run by its operations.
proof fn lemma_plan_dirs_push(s: Seq<DirRoot>, x: DirRoot, prefix: Seq<char>, sep: Seq<char>)
    ensures
        spec_plan_dirs(s.push(x), prefix, sep) == spec_plan_dirs(s, prefix, sep) + (seq![
            OpView { is_dir: true, path: prefix + x.name@, data: Seq::empty() },
        ] + spec_plan(x, prefix + x.name@ + sep, sep)),
    decreases s,
{
    let ops = seq![OpView { is_dir: true, path: prefix + x.name@, data: Seq::empty() }]
        + spec_plan(x, prefix + x.name@ + sep, sep);
    if s.len() == 0 {
        assert(s.push(x)[0] == x);
        assert(s.push(x).subrange(1, s.push(x).len() as int) =~= Seq::<DirRoot>::empty());
        assert(spec_plan_dirs(Seq::<DirRoot>::empty(), prefix, sep) =~= Seq::<OpView>::empty());
        assert(spec_plan_dirs(s.push(x), prefix, sep) =~= ops);
        assert(spec_plan_dirs(s, prefix, sep) + ops =~= ops);
    } else {
        let rest = s.subrange(1, s.len() as int);
        lemma_plan_dirs_push(rest, x, prefix, sep);
        assert(s.push(x).subrange(1, s.push(x).len() as int) =~= rest.push(x));
        assert(s.push(x)[0] == s[0]);
        let hd = seq![OpView { is_dir: true, path: prefix + s[0].name@, data: Seq::empty() }]
            + spec_plan(s[0], prefix + s[0].name@ + sep, sep);
        assert(hd + (spec_plan_dirs(rest, prefix, sep) + ops) =~= (hd + spec_plan_dirs(
            rest,
            prefix,
            sep,
        )) + ops);
        assert(spec_plan_dirs(s.push(x), prefix, sep) =~= hd + (spec_plan_dirs(rest, prefix, sep)
            + ops));
        assert(spec_plan_dirs(s, prefix, sep) =~= hd + spec_plan_dirs(rest, prefix, sep));
    }
}

/// Appending one file entry extends a planned run by its write.
proof fn lemma_plan_files_push(s: Seq<FileInfo>, x: FileInfo, prefix: Seq<char>)
    ensures
        spec_plan_files(s.push(x), prefix) == spec_plan_files(s, prefix) + seq![
            OpView { is_dir: false, path: prefix + x.name@, data: spec_content_bytes(x.content) },
        ],
    decreases s,
{
    let ops = seq![
        OpView { is_dir: false, path: prefix + x.name@, data: spec_content_bytes(x.content) },
    ];
    if s.len() == 0 {
        assert(s.push(x)[0] == x);
        assert(s.push(x).subrange(1, s.push(x).len() as int) =~= Seq::<FileInfo>::empty());
        assert(spec_plan_files(Seq::<FileInfo>::empty(), prefix) =~= Seq::<OpView>::empty());
        assert(spec_plan_files(s.push(x), prefix) =~= ops);
        assert(spec_plan_files(s, prefix) + ops =~= ops);
    } else {
        let rest = s.subrange(1, s.len() as int);
        lemma_plan_files_push(rest, x, prefix);
        assert(s.push(x).subrange(1, s.push(x).len() as int) =~= rest.push(x));
        assert(s.push(x)[0] == s[0]);
        let hd = seq![
            OpView {
                is_dir: false,
                path: prefix + s[0].name@,
                data: spec_content_bytes(s[0].content),
            },
        ];
        assert(hd + (spec_plan_files(rest, prefix) + ops) =~= (hd + spec_plan_files(rest, prefix))
            + ops);
        assert(spec_plan_files(s.push(x), prefix) =~= hd + (spec_plan_files(rest, prefix) + ops));
        assert(spec_plan_files(s, prefix) =~= hd + spec_plan_files(rest, prefix));
    }
}

/// Emit the operations for `t`'s children under `prefix`.
fn plan_into(t: &DirRoot, prefix: &str, sep: &str, out: &mut Vec<WriteOp>)
    ensures
        final(out)@.map_values(|op: WriteOp| op_view(op)) == old(out)@.map_values(
            |op: WriteOp| op_view(op),
        ) + spec_plan(*t, prefix@, sep@),
    decreases *t,
{
    let ghost base = out@.map_values(|op: WriteOp| op_view(op));
    let nd = t.dirs.len();
    let mut i: usize = 0;
    while i < nd
        invariant
            nd == t.dirs@.len(),
            i <= nd,
            out@.map_values(|op: WriteOp| op_view(op)) == base + spec_plan_dirs(
                t.dirs@.subrange(0, i as int),
                prefix@,
                sep@,
            ),
        decreases nd - i,
    {
        let d = &t.dirs[i];
        let dpath = String::from_str(prefix).concat(d.name.as_str());
        let child_prefix = dpath.clone().concat(sep);
        let ghost pre = out@.map_values(|op: WriteOp| op_view(op));
        out.push(WriteOp::MkDir(dpath));
        proof {
            assert(out@.map_values(|op: WriteOp| op_view(op)) =~= pre.push(
                OpView { is_dir: true, path: prefix@ + d.name@, data: Seq::empty() },
            ));
        }
        proof {
            assert(decreases_to!(*t => t.dirs@[i as int]));
        }
        plan_into(d, child_prefix.as_str(), sep, out);
        proof {
            lemma_plan_dirs_push(t.dirs@.subrange(0, i as int), t.dirs@[i as int], prefix@, sep@);
            assert(t.dirs@.subrange(0, i as int).push(t.dirs@[i as int]) =~= t.dirs@.subrange(
                0,
                i + 1,
            ));
            assert(out@.map_values(|op: WriteOp| op_view(op)) =~= base + spec_plan_dirs(
                t.dirs@.subrange(0, i + 1),
                prefix@,
                sep@,
            ));
        }
        i = i + 1;
    }
    assert(t.dirs@.subrange(0, nd as int) =~= t.dirs@);
    let ghost base2 = out@.map_values(|op: WriteOp| op_view(op));
    let nf = t.files.len();
    let mut k: usize = 0;
    while k < nf
        invariant
            nf == t.files@.len(),
            k <= nf,
            out@.map_values(|op: WriteOp| op_view(op)) == base2 + spec_plan_files(
                t.files@.subrange(0, k as int),
                prefix@,
            ),
        decreases nf - k,
    {
        let f = &t.files[k];
        let fpath = String::from_str(prefix).concat(f.name.as_str());
        let data = f.content_bytes();
        let ghost pre = out@.map_values(|op: WriteOp| op_view(op));
        out.push(WriteOp::WriteFile(fpath, data));
        proof {
            lemma_plan_files_push(t.files@.subrange(0, k as int), t.files@[k as int], prefix@);
            assert(t.files@.subrange(0, k as int).push(t.files@[k as int]) =~= t.files@.subrange(
                0,
                k + 1,
            ));
            assert(out@.map_values(|op: WriteOp| op_view(op)) =~= pre.push(
                OpView {
                    is_dir: false,
                    path: prefix@ + f.name@,
                    data: spec_content_bytes(f.content),
                },
            ));
            assert(out@.map_values(|op: WriteOp| op_view(op)) =~= base2 + spec_plan_files(
                t.files@.subrange(0, k + 1),
                prefix@,
            ));
        }
        k = k + 1;
    }
    assert(t.files@.subrange(0, nf as int) =~= t.files@);
    assert(out@.map_values(|op: WriteOp| op_view(op)) =~= base + spec_plan(*t, prefix@, sep@));
}

/// The operations that a raw directory listing itself calls for under
/// `prefix`: every subdirectory is created and then filled, and every
/// non-empty file is written back with its original bytes; empty files
/// contribute nothing.
pub open spec fn spec_entries_plan(entries: Seq<RawEntry>, prefix: Seq<char>, sep: Seq<char>) -> Seq<
    OpView,
>
    decreases entries, 1int,
{
    spec_entries_dirs(entries, prefix, sep) + spec_entries_files(entries, prefix)
}

/// The directory operations a raw listing calls for.
pub open spec fn spec_entries_dirs(entries: Seq<RawEntry>, prefix: Seq<char>, sep: Seq<char>) -> Seq<
    OpView,
>
    decreases entries, 0int,
{
    if entries.len() == 0 {
        Seq::empty()
    } else {
        match entries[0] {
            RawEntry::Dir(n, sub) => seq![
                OpView { is_dir: true, path: prefix + n@, data: Seq::empty() },
            ] + spec_entries_plan(sub@, prefix + n@ + sep, sep) + spec_entries_dirs(
                entries.subrange(1, entries.len() as int),
                prefix,
                sep,
            ),
            RawEntry::File(_, _) => spec_entries_dirs(
                entries.subrange(1, entries.len() as int),
                prefix,
                sep,
            ),
        }
    }
}

/// The file writes a raw listing calls for.
pub open spec fn spec_entries_files(entries: Seq<RawEntry>, prefix: Seq<char>) -> Seq<OpView>
    decreases entries,
{
    if entries.len() == 0 {
        Seq::empty()
    } else {
        let rest = spec_entries_files(entries.subrange(1, entries.len() as int), prefix);
        match entries[0] {
            RawEntry::Dir(_, _) => rest,
            RawEntry::File(n, bytes) => if bytes@.len() == 0 {
                rest
            } else {
                seq![OpView { is_dir: false, path: prefix + n@, data: bytes@ }] + rest
            },
        }
    }
}

/// A captured node's children plan exactly the operations their raw
/// listing calls for.
proof fn lemma_children_plan(
    dirs: Seq<DirRoot>,
    files: Seq<FileInfo>,
    entries: Seq<RawEntry>,
    prefix: Seq<char>,
    sep: Seq<char>,
)
    requires
        children_capture(dirs, files, entries),
    ensures
        spec_plan_dirs(dirs, prefix, sep) == spec_entries_dirs(entries, prefix, sep),
        spec_plan_files(files, prefix) == spec_entries_files(entries, prefix),
    decreases entries,
{
    if entries.len() == 0 {
        assert(spec_plan_dirs(dirs, prefix, sep) =~= Seq::<OpView>::empty());
        assert(spec_plan_files(files, prefix) =~= Seq::<OpView>::empty());
    } else {
        let rest = entries.subrange(1, entries.len() as int);
        match entries[0] {
            RawEntry::Dir(n, sub) => {
                let head = dirs[0];
                let dtail = dirs.subrange(1, dirs.len() as int);
                lemma_children_plan(dtail, files, rest, prefix, sep);
                assert(tree_captures(head, n@, sub@));
                assert(head.name@ == n@ && children_capture(head.dirs@, head.files@, sub@)) by {
                    reveal_with_fuel(tree_captures, 2);
                }
                let p2 = prefix + n@ + sep;
                lemma_children_plan(head.dirs@, head.files@, sub@, p2, sep);
                assert(spec_plan(head, p2, sep) == spec_entries_plan(sub@, p2, sep));
                assert(spec_plan_dirs(dirs, prefix, sep) == spec_entries_dirs(
                    entries,
                    prefix,
                    sep,
                )) by {
                    assert(spec_plan_dirs(dirs, prefix, sep) == seq![
                        OpView { is_dir: true, path: prefix + n@, data: Seq::empty() },
                    ] + spec_plan(head, p2, sep) + spec_plan_dirs(dtail, prefix, sep));
                }
            },
            RawEntry::File(n, bytes) => {
                if bytes@.len() == 0 {
                    lemma_children_plan(dirs, files, rest, prefix, sep);
                } else {
                    let head = files[0];
                    let ftail = files.subrange(1, files.len() as int);
                    lemma_children_plan(dirs, ftail, rest, prefix, sep);
                    assert(head.name@ == n@);
                    assert(spec_content_bytes(head.content) == bytes@) by {
                        if vstd::utf8::valid_utf8(bytes@) {
                            vstd::utf8::decode_utf8_encode_utf8(bytes@);
                        }
                    }
                    assert(spec_plan_files(files, prefix) == spec_entries_files(
                        entries,
                        prefix,
                    )) by {
                        assert(spec_plan_files(files, prefix) == seq![
                            OpView { is_dir: false, path: prefix + n@, data: bytes@ },
                        ] + spec_plan_files(ftail, prefix));
                    }
                }
            },
        }
    }
}

/// Round trip: materializing a captured tree performs exactly the
/// operations its raw listing calls for — every subdirectory is created
/// and filled, every non-empty file is written back byte for byte, and
/// nothing is planned for an empty file.
pub proof fn lemma_capture_plan_round_trip(
    t: DirRoot,
    name: Seq<char>,
    entries: Seq<RawEntry>,
    prefix: Seq<char>,
    sep: Seq<char>,
)
    requires
        tree_captures(t, name, entries),
    ensures
        spec_plan(t, prefix, sep) == spec_entries_plan(entries, prefix, sep),
{
    lemma_children_plan(t.dirs@, t.files@, entries, prefix, sep);
}

/// The target path, normalized to end with a separator.
pub open spec fn spec_normalized_target(target: Seq<char>, sep: Seq<char>) -> Seq<char> {
    if spec_ends_with(target, seq!['/']) || spec_ends_with(target, seq!['\\']) {
        target
    } else {
        target + sep
    }
}

/// Plan the materialization of `t` into `target`.  `existing` is the
/// current listing of the target directory.  Unless `force` is set, any
/// top-level collision aborts the plan with the colliding names and no
/// operation is produced; otherwise the full ordered operation list for
/// the tree's contents is returned.  The root node's own name is ignored.
pub fn materialize(
    t: &DirRoot,
    target: &str,
    sep: &str,
    existing: &Vec<String>,
    force: bool,
) -> (r: Result<Vec<WriteOp>, MaterializeError>)
    ensures
        ({
            let conflicts = spec_conflicts(
                existing@.map_values(|s: String| s@),
                spec_top_names(*t),
            );
            match r {
                Ok(ops) => (force || conflicts.len() == 0) && ops@.map_values(
                    |op: WriteOp| op_view(op),
                ) == spec_plan(*t, spec_normalized_target(target@, sep@), sep@),
                Err(MaterializeError::Conflict(names)) => !force && conflicts.len() > 0
                    && names@.map_values(|s: String| s@) == conflicts,
            }
        }),
{
    if !force {
        let conflicts = plan_conflicts(t, existing);
        if conflicts.len() > 0 {
            return Err(MaterializeError::Conflict(conflicts));
        }
    }
    proof {
        reveal_strlit("/");
        reveal_strlit("\\");
        assert("/"@ =~= seq!['/']);
        assert("\\"@ =~= seq!['\\']);
    }
    let normalized = if str_ends_with(target, "/") || str_ends_with(target, "\\") {
        String::from_str(target)
    } else {
        String::from_str(target).concat(sep)
    };
    assert(normalized@ == spec_normalized_target(target@, sep@));
    let mut ops: Vec<WriteOp> = Vec::new();
    assert(ops@.map_values(|op: WriteOp| op_view(op)) =~= Seq::<OpView>::empty());
    plan_into(t, normalized.as_str(), sep, &mut ops);
    proof {
        assert(Seq::<OpView>::empty() + spec_plan(*t, normalized@, sep@) =~= spec_plan(
            *t,
            normalized@,
            sep@,
        ));
    }
    Ok(ops)
}

} // verus!
