use wsinit::codec::{decode, encode, DecodeError};
use wsinit::materialize::{materialize, plan_conflicts, MaterializeError, WriteOp};
use wsinit::profile::{DirRoot, FileContent, FileInfo, FileType, RawEntry};

/// The raw listing of scenario S1: a text file, a subdirectory with a
/// binary file, and an empty file.
fn s1_entries() -> Vec<RawEntry> {
    vec![
        RawEntry::File("a.txt".to_string(), b"hello\n".to_vec()),
        RawEntry::Dir(
            "sub".to_string(),
            vec![RawEntry::File("b.bin".to_string(), vec![0x00, 0xFF, 0x10])],
        ),
        RawEntry::File("empty.txt".to_string(), Vec::new()),
    ]
}

fn tree_equal(a: &DirRoot, b: &DirRoot) -> bool {
    if a.name != b.name || a.dirs.len() != b.dirs.len() || a.files.len() != b.files.len() {
        return false;
    }
    for (x, y) in a.dirs.iter().zip(b.dirs.iter()) {
        if !tree_equal(x, y) {
            return false;
        }
    }
    for (x, y) in a.files.iter().zip(b.files.iter()) {
        if x.name != y.name {
            return false;
        }
        match (&x.content, &y.content) {
            (FileContent::Text(s), FileContent::Text(t)) => {
                if s != t {
                    return false;
                }
            }
            (FileContent::Bin(s), FileContent::Bin(t)) => {
                if s != t {
                    return false;
                }
            }
            _ => return false,
        }
        match (&x.file_type, &y.file_type) {
            (FileType::Text, FileType::Text) | (FileType::Bin, FileType::Bin) => {}
            _ => return false,
        }
    }
    true
}

#[test]
fn capture_classifies_and_elides() {
    let t = DirRoot::from_dir(s1_entries());
    assert_eq!(t.name, "");
    assert_eq!(t.dirs.len(), 1);
    assert_eq!(t.files.len(), 1);
    assert_eq!(t.files[0].name, "a.txt");
    assert!(matches!(t.files[0].file_type, FileType::Text));
    match &t.files[0].content {
        FileContent::Text(s) => assert_eq!(s, "hello\n"),
        _ => panic!("expected text payload"),
    }
    let sub = &t.dirs[0];
    assert_eq!(sub.name, "sub");
    assert_eq!(sub.files.len(), 1);
    assert_eq!(sub.files[0].name, "b.bin");
    assert!(matches!(sub.files[0].file_type, FileType::Bin));
    match &sub.files[0].content {
        FileContent::Bin(b) => assert_eq!(b, &vec![0x00, 0xFF, 0x10]),
        _ => panic!("expected binary payload"),
    }
}

#[test]
fn capture_utf8_boundary() {
    let t = DirRoot::from_dir(vec![
        RawEntry::File("ok.txt".to_string(), vec![0xC3, 0xA9]),
        RawEntry::File("bad.bin".to_string(), vec![0xC3, 0x28]),
    ]);
    assert_eq!(t.files.len(), 2);
    match &t.files[0].content {
        FileContent::Text(s) => assert_eq!(s, "\u{e9}"),
        _ => panic!("valid UTF-8 must be text"),
    }
    assert!(matches!(t.files[1].file_type, FileType::Bin));
    match &t.files[1].content {
        FileContent::Bin(b) => assert_eq!(b, &vec![0xC3, 0x28]),
        _ => panic!("invalid UTF-8 must stay binary"),
    }
}

#[test]
fn codec_round_trip_tree() {
    let t = DirRoot::from_dir(s1_entries());
    let bytes = encode(&t);
    let back = decode(&bytes).expect("an encoded tree must decode");
    assert!(tree_equal(&t, &back));
    let again = encode(&back);
    assert_eq!(bytes, again);
}

#[test]
fn codec_empty_root_layout() {
    let t = DirRoot::new("");
    let bytes = encode(&t);
    assert_eq!(bytes, vec![0u8; 24]);
    let back = decode(&bytes).expect("24 zero bytes are the empty root");
    assert_eq!(back.name, "");
    assert!(back.dirs.is_empty() && back.files.is_empty());
}

/// A hand-laid-out encoding: root with one file entry.
fn one_file_encoding(type_tag: u8, content_tag: u8, payload: &[u8]) -> Vec<u8> {
    let mut b = Vec::new();
    b.extend_from_slice(&0u64.to_le_bytes()); // root name ""
    b.extend_from_slice(&0u64.to_le_bytes()); // no child dirs
    b.extend_from_slice(&1u64.to_le_bytes()); // one file
    b.extend_from_slice(&1u64.to_le_bytes()); // file name length
    b.push(b'a');
    b.extend_from_slice(&[type_tag, 0, 0, 0]);
    b.extend_from_slice(&[content_tag, 0, 0, 0]);
    b.extend_from_slice(&(payload.len() as u64).to_le_bytes());
    b.extend_from_slice(payload);
    b
}

#[test]
fn decode_accepts_hand_laid_out_file() {
    let b = one_file_encoding(1, 1, b"hi");
    let t = decode(&b).expect("a canonical one-file tree");
    assert_eq!(t.files.len(), 1);
    assert_eq!(t.files[0].name, "a");
    match &t.files[0].content {
        FileContent::Text(s) => assert_eq!(s, "hi"),
        _ => panic!("tag 1 is text"),
    }
    assert_eq!(encode(&t), b);
}

#[test]
fn decode_rejects_unknown_tag() {
    let b = one_file_encoding(2, 2, b"hi");
    assert!(matches!(decode(&b), Err(DecodeError::InvalidTag)));
}

#[test]
fn decode_rejects_disagreeing_tags() {
    let b = one_file_encoding(1, 0, b"hi");
    assert!(matches!(decode(&b), Err(DecodeError::InvalidTag)));
}

#[test]
fn decode_rejects_invalid_utf8_payload() {
    let b = one_file_encoding(1, 1, &[0xFF]);
    assert!(matches!(
        decode(&b),
        Err(DecodeError::InvalidUtf8InTextPayload)
    ));
}

#[test]
fn decode_rejects_truncated_and_trailing_input() {
    let t = DirRoot::from_dir(s1_entries());
    let bytes = encode(&t);
    let cut = bytes[..bytes.len() - 1].to_vec();
    assert!(matches!(decode(&cut), Err(DecodeError::TruncatedInput)));
    let mut long = bytes.clone();
    long.push(0);
    assert!(matches!(decode(&long), Err(DecodeError::TruncatedInput)));
    assert!(matches!(
        decode(&Vec::new()),
        Err(DecodeError::TruncatedInput)
    ));
}

#[test]
fn materialize_plans_dirs_before_files() {
    let t = DirRoot::from_dir(s1_entries());
    let ops = materialize(&t, "T", "/", &Vec::new(), false).expect("no conflicts");
    assert_eq!(ops.len(), 3);
    match &ops[0] {
        WriteOp::MkDir(p) => assert_eq!(p, "T/sub"),
        _ => panic!("directories come first"),
    }
    match &ops[1] {
        WriteOp::WriteFile(p, d) => {
            assert_eq!(p, "T/sub/b.bin");
            assert_eq!(d, &vec![0x00, 0xFF, 0x10]);
        }
        _ => panic!("a directory's contents follow it"),
    }
    match &ops[2] {
        WriteOp::WriteFile(p, d) => {
            assert_eq!(p, "T/a.txt");
            assert_eq!(d, b"hello\n");
        }
        _ => panic!("the root's files come last"),
    }
}

#[test]
fn materialize_keeps_trailing_separator() {
    let t = DirRoot::from_dir(vec![RawEntry::File("a.txt".to_string(), b"x".to_vec())]);
    let ops = materialize(&t, "T/", "/", &Vec::new(), false).expect("no conflicts");
    match &ops[0] {
        WriteOp::WriteFile(p, _) => assert_eq!(p, "T/a.txt"),
        _ => panic!("expected the file write"),
    }
}

#[test]
fn conflict_aborts_without_force() {
    let t = DirRoot::from_dir(s1_entries());
    let existing = vec!["a.txt".to_string(), "other.txt".to_string()];
    match materialize(&t, "T", "/", &existing, false) {
        Err(MaterializeError::Conflict(names)) => assert_eq!(names, vec!["a.txt".to_string()]),
        _ => panic!("a top-level collision must abort"),
    }
}

#[test]
fn force_overrides_conflicts() {
    let t = DirRoot::from_dir(s1_entries());
    let existing = vec!["a.txt".to_string()];
    let ops = materialize(&t, "T", "/", &existing, true).expect("force bypasses the check");
    assert_eq!(ops.len(), 3);
}

#[test]
fn plan_conflicts_keeps_target_order() {
    let t = DirRoot::from_dir(s1_entries());
    let existing = vec![
        "zzz".to_string(),
        "sub".to_string(),
        "a.txt".to_string(),
    ];
    let r = plan_conflicts(&t, &existing);
    assert_eq!(r, vec!["sub".to_string(), "a.txt".to_string()]);
}

#[test]
fn listing_paths() {
    let t = DirRoot::from_dir(s1_entries());
    assert_eq!(t.dir_paths(".", "/"), vec!["./sub".to_string()]);
    assert_eq!(
        t.file_paths(".", "/"),
        vec!["./a.txt".to_string(), "./sub/b.bin".to_string()]
    );
}

#[test]
fn file_info_new_and_bytes() {
    let f = FileInfo::new(
        "n",
        FileType::Text,
        FileContent::Text("é".to_string()),
    );
    assert_eq!(f.name, "n");
    assert_eq!(f.content_bytes(), vec![0xC3, 0xA9]);
    let g = FileInfo::new("m", FileType::Bin, FileContent::Bin(vec![1, 2]));
    assert_eq!(g.content_bytes(), vec![1, 2]);
}
