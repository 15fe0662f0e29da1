use zerogit::diff::{detect_renames, diff_flat_maps, DiffDelta, DiffStatus, FlatEntry};
use zerogit::error::Error;
use zerogit::index::{Index, IndexEntry};
use zerogit::infra::compression::{compress, decompress};
use zerogit::infra::hash::{framed_object, hash_object};
use zerogit::log::{LogIterator, LogOptions};
use zerogit::objects::store::LooseObjectStore;
use zerogit::objects::{Commit, FileMode, ObjectType, Oid, RawObject, Tree, TreeEntry};
use zerogit::status::{compute_status, FileStatus};
use zerogit::worktree::{build_tree_from_index, check_relative_path, format_commit, is_tracked_name, pick_unique, signature_line, build_tree_content, validate_prefix};

fn oid(n: u8) -> Oid {
    let mut b = [0u8; 20];
    for (i, x) in b.iter_mut().enumerate() {
        *x = n.wrapping_mul(31).wrapping_add(i as u8);
    }
    Oid::from_bytes(b)
}

fn flat(path: &str, o: Oid) -> FlatEntry {
    FlatEntry { path: path.to_string(), oid: o, mode: FileMode::Regular }
}

fn entry(path: &str, o: Oid) -> IndexEntry {
    IndexEntry::new(1, 2, 0, 0, FileMode::Regular, 0, 0, 3, o, path, 0)
}

#[test]
fn hex_round_trip_for_many_ids() {
    for n in 0..=255u8 {
        let o = oid(n);
        assert_eq!(Oid::from_hex(&o.to_hex()).unwrap(), o);
        assert_eq!(o.to_hex().len(), 40);
    }
}

#[test]
fn hex_parse_normalizes_case() {
    let s = "DA39A3EE5E6B4B0D3255BFEF95601890AFD80709";
    assert_eq!(Oid::from_hex(s).unwrap().to_hex(), s.to_lowercase());
    assert!(matches!(Oid::from_hex("xyz"), Err(Error::InvalidOid(_))));
}

#[test]
fn tree_body_reads_back() {
    let entries = vec![
        TreeEntry { mode: FileMode::Regular, name: "a b.txt".to_string(), oid: oid(1) },
        TreeEntry { mode: FileMode::Directory, name: "dir".to_string(), oid: oid(2) },
        TreeEntry { mode: FileMode::Executable, name: "run".to_string(), oid: oid(3) },
    ];
    let body = build_tree_content(&entries);
    let tree = Tree::parse(RawObject { object_type: ObjectType::Tree, content: body.clone() }).unwrap();
    assert_eq!(tree.entries(), &entries[..]);
    assert_eq!(build_tree_content(tree.entries()), body);
}

#[test]
fn short_mode_is_written_canonically() {
    let mut body = b"644 f\0".to_vec();
    body.extend_from_slice(oid(4).as_bytes());
    let tree = Tree::parse(RawObject { object_type: ObjectType::Tree, content: body }).unwrap();
    let again = build_tree_content(tree.entries());
    assert!(again.starts_with(b"100644 f\0"));
    let reread = Tree::parse(RawObject { object_type: ObjectType::Tree, content: again }).unwrap();
    assert_eq!(reread.entries(), tree.entries());
}

#[test]
fn stored_object_reads_back_with_its_id() {
    let (id, file) = LooseObjectStore::encode(ObjectType::Blob, b"hello\n");
    assert_eq!(id.to_hex(), "ce013625030ba8dba906f756967f9e9ca394464a");
    assert_ne!(file, framed_object(b"blob", b"hello\n"));
    let raw = LooseObjectStore::decode(&file, &id).unwrap();
    assert_eq!(raw.object_type, ObjectType::Blob);
    assert_eq!(raw.content, b"hello\n".to_vec());
    assert_eq!(hash_object("blob", &raw.content), id.as_bytes().to_vec());
}

#[test]
fn framing_reads_back() {
    let data = framed_object(b"tree", b"");
    assert_eq!(data, b"tree 0\0".to_vec());
    let raw = LooseObjectStore::parse_raw_object(&data, &oid(0)).unwrap();
    assert_eq!(raw.object_type, ObjectType::Tree);
    assert!(raw.content.is_empty());
}

#[test]
fn decompress_rejects_bad_streams() {
    assert!(matches!(decompress(&[]), Err(Error::DecompressionFailed)));
    assert!(matches!(decompress(&[0x78]), Err(Error::DecompressionFailed)));
    assert!(matches!(decompress(&[0x79, 0x9C, 0, 0]), Err(Error::DecompressionFailed)));
    assert!(matches!(decompress(&[0x78, 0x9C, 0xFF, 0xFF]), Err(Error::DecompressionFailed)));
    let packed = compress(b"some text some text some text");
    assert_ne!(packed, b"some text some text some text".to_vec());
    assert_eq!(decompress(&packed).unwrap(), b"some text some text some text".to_vec());
}

#[test]
fn index_round_trip_with_checksum() {
    let mut index = Index::empty(2);
    index.add(entry("b.txt", oid(1)));
    index.add(entry("a/c.txt", oid(2)));
    index.add(entry("a.txt", oid(3)));
    let data = zerogit::index::writer::write(&index);
    let parsed = zerogit::index::reader::parse(&data).unwrap();
    assert_eq!(parsed.version(), 2);
    assert_eq!(parsed.entries(), index.entries());
    let n = data.len();
    assert_eq!(zerogit::infra::hash::sha1(&data[..n - 20]), data[n - 20..].to_vec());
    let paths: Vec<&str> = parsed.entries().iter().map(|e| e.path()).collect();
    assert_eq!(paths, vec!["a.txt", "a/c.txt", "b.txt"]);
}

#[test]
fn index_long_name_uses_nul_termination() {
    let long = "x".repeat(0xFFF + 5);
    let mut index = Index::empty(2);
    index.add(entry(&long, oid(5)));
    index.add(entry("z.txt", oid(6)));
    let data = zerogit::index::writer::write(&index);
    assert_eq!(u16::from_be_bytes([data[12 + 60], data[12 + 61]]) & 0xFFF, 0xFFF);
    let parsed = zerogit::index::reader::parse(&data).unwrap();
    assert_eq!(parsed.entries()[0].path(), long.as_str());
    assert_eq!(parsed.entries()[1].path(), "z.txt");
}

#[test]
fn index_add_replaces_same_path() {
    let mut index = Index::empty(2);
    index.add(entry("f", oid(1)));
    index.add(entry("f", oid(2)));
    assert_eq!(index.len(), 1);
    assert_eq!(index.get("f").unwrap().oid(), &oid(2));
    assert!(index.remove("f"));
    assert!(!index.remove("f"));
}

#[test]
fn prefix_lengths_three_and_forty_one_are_invalid() {
    assert!(matches!(validate_prefix("abc"), Err(Error::InvalidOid(_))));
    assert!(matches!(validate_prefix(&"a".repeat(41)), Err(Error::InvalidOid(_))));
    assert!(matches!(validate_prefix("abcg"), Err(Error::InvalidOid(_))));
    assert!(validate_prefix("abcd").is_ok());
    assert!(validate_prefix(&"A".repeat(40)).is_ok());
}

#[test]
fn short_id_resolution() {
    assert_eq!(pick_unique("abcd", &[oid(1)]).unwrap(), oid(1));
    assert!(matches!(pick_unique("abcd", &[]), Err(Error::ObjectNotFound(_))));
    assert!(matches!(pick_unique("abcd", &[oid(1), oid(2)]), Err(Error::InvalidOid(_))));
}

#[test]
fn same_tree_has_no_changes() {
    let t = vec![flat("a", oid(1)), flat("b/c", oid(2))];
    assert!(diff_flat_maps(&t, &t).is_empty());
}

#[test]
fn root_commit_diffs_against_empty_tree() {
    let new = vec![flat("a", oid(1)), flat("b", oid(2))];
    let d = diff_flat_maps(&[], &new);
    assert_eq!(d.len(), 2);
    assert!(d.deltas().iter().all(|x| x.status() == DiffStatus::Added));
}

#[test]
fn exact_rename_is_paired() {
    let old = vec![flat("a.txt", oid(1)), flat("keep", oid(3))];
    let new = vec![flat("b.txt", oid(1)), flat("keep", oid(4))];
    let d = diff_flat_maps(&old, &new);
    assert_eq!(d.len(), 2);
    assert_eq!(d.deltas()[0].status(), DiffStatus::Renamed);
    assert_eq!(d.deltas()[0].path(), "b.txt");
    assert_eq!(d.deltas()[0].old_path(), Some("a.txt"));
    assert_eq!(d.deltas()[1].status(), DiffStatus::Modified);
    let stats = d.stats();
    assert_eq!((stats.renamed, stats.modified, stats.total()), (1, 1, 2));
}

#[test]
fn rename_pairs_first_unused_match() {
    let mut deltas = vec![
        DiffDelta::deleted("a".to_string(), oid(1), FileMode::Regular),
        DiffDelta::deleted("b".to_string(), oid(1), FileMode::Regular),
        DiffDelta::added("c".to_string(), oid(1), FileMode::Regular),
    ];
    detect_renames(&mut deltas);
    assert_eq!(deltas.len(), 2);
    assert_eq!(deltas[0].path(), "b");
    assert_eq!(deltas[0].status(), DiffStatus::Deleted);
    assert_eq!(deltas[1].path(), "c");
    assert_eq!(deltas[1].old_path(), Some("a"));
}

#[test]
fn status_clean() {
    let h = vec![flat("file.txt", oid(1))];
    let i = vec![entry("file.txt", oid(1))];
    assert!(compute_status(&h, &i, &h).is_empty());
}

#[test]
fn status_mixed() {
    let h = vec![flat("README.md", oid(1))];
    let i = vec![entry("README.md", oid(1))];
    let w = vec![flat("README.md", oid(2)), flat("new.txt", oid(3))];
    let s = compute_status(&h, &i, &w);
    let got: Vec<(&str, FileStatus)> = s.iter().map(|e| (e.path(), e.status())).collect();
    assert_eq!(got, vec![("README.md", FileStatus::Modified), ("new.txt", FileStatus::Untracked)]);
}

#[test]
fn status_table() {
    let h = vec![flat("d1", oid(1)), flat("sd", oid(2)), flat("sd2", oid(3)), flat("sm", oid(4))];
    let i = vec![entry("a", oid(5)), entry("ad", oid(6)), entry("d1", oid(1)), entry("sm", oid(7))];
    let w = vec![flat("a", oid(5)), flat("sd2", oid(3)), flat("sm", oid(7)), flat("u", oid(8))];
    let s = compute_status(&h, &i, &w);
    let got: Vec<(&str, FileStatus)> = s.iter().map(|e| (e.path(), e.status())).collect();
    assert_eq!(
        got,
        vec![
            ("a", FileStatus::Added),
            ("ad", FileStatus::Deleted),
            ("d1", FileStatus::Deleted),
            ("sd", FileStatus::StagedDeleted),
            ("sd2", FileStatus::StagedDeleted),
            ("sm", FileStatus::StagedModified),
            ("u", FileStatus::Untracked),
        ]
    );
}

#[test]
fn status_after_staging_a_file() {
    let w = vec![flat("p", oid(2))];
    let i = vec![entry("p", oid(2))];
    let none: Vec<FlatEntry> = Vec::new();
    let s = compute_status(&none, &i, &w);
    assert_eq!(s.len(), 1);
    assert_eq!(s[0].status(), FileStatus::Added);
    let s = compute_status(&[flat("p", oid(1))], &i, &w);
    assert_eq!(s.len(), 1);
    assert_eq!(s[0].status(), FileStatus::StagedModified);
    assert!(compute_status(&[flat("p", oid(2))], &i, &w).is_empty());
}

#[test]
fn status_after_reset_has_nothing_staged() {
    let h = vec![flat("a", oid(1)), flat("b", oid(2))];
    let i = vec![entry("a", oid(1)), entry("b", oid(2))];
    let w = vec![flat("a", oid(9)), flat("c", oid(3))];
    let s = compute_status(&h, &i, &w);
    assert!(s.iter().all(|e| !e.status().is_staged()));
    assert_eq!(s.len(), 3);
}

fn commit_text(tree: &Oid, parents: &[Oid], time: i64, msg: &str) -> Vec<u8> {
    let mut s = format!("tree {}\n", tree.to_hex());
    for p in parents {
        s.push_str(&format!("parent {}\n", p.to_hex()));
    }
    s.push_str(&format!("author T <t@x> {} +0000\ncommitter T <t@x> {} +0000\n\n{}", time, time, msg));
    s.into_bytes()
}

fn walk(store: &[(Oid, Commit)], start: Oid, options: LogOptions) -> Vec<String> {
    let find = |o: &Oid| store.iter().find(|(k, _)| k == o).map(|(_, c)| c.clone()).unwrap();
    let first = find(&start);
    let mut it = LogIterator::with_options(start, first.author().timestamp(), options);
    let mut out = Vec::new();
    let mut last = i64::MAX;
    while let Some(o) = it.next_candidate() {
        let c = find(&o);
        assert!(c.author().timestamp() <= last);
        last = c.author().timestamp();
        for p in it.parents_to_read(&c) {
            it.push(p, find(&p).author().timestamp());
        }
        if it.passes_filters(&c, true) {
            it.record_shown();
            out.push(c.summary());
        }
    }
    out
}

#[test]
fn log_order_and_first_parent() {
    let tree = oid(200);
    let mut store: Vec<(Oid, Commit)> = Vec::new();
    let mut add = |name: &str, parents: &[Oid], time: i64| -> Oid {
        let body = commit_text(&tree, parents, time, name);
        let (id, _) = LooseObjectStore::encode(ObjectType::Commit, &body);
        let c = Commit::parse(id, RawObject { object_type: ObjectType::Commit, content: body }).unwrap();
        store.push((id, c));
        id
    };
    let a = add("A", &[], 1000);
    let b = add("B", &[a], 2000);
    let _c = add("C", &[b], 3000);
    let d = add("D", &[a], 2500);
    let m = add("M", &[b, d], 3500);
    assert_eq!(walk(&store, m, LogOptions::new()), vec!["M", "D", "B", "A"]);
    assert_eq!(walk(&store, m, LogOptions::new().first_parent(true)), vec!["M", "B", "A"]);
    assert_eq!(walk(&store, m, LogOptions::new().since_timestamp(2000).until_timestamp(3000)), vec!["D", "B"]);
    assert_eq!(walk(&store, m, LogOptions::new().author("T")).len(), 4);
    assert!(walk(&store, m, LogOptions::new().author("nobody")).is_empty());
}

#[test]
fn commit_text_reads_back() {
    let tree = oid(7);
    let parent = oid(8);
    let sig = signature_line("Ann Lee", "ann@x.org", 1700000000);
    assert_eq!(sig, "Ann Lee <ann@x.org> 1700000000 +0000");
    let body = format_commit(&tree, Some(&parent), &sig, &sig, "Subject\n\nBody");
    let c = Commit::parse(oid(9), RawObject { object_type: ObjectType::Commit, content: body }).unwrap();
    assert_eq!(c.tree(), &tree);
    assert_eq!(c.parents(), &[parent]);
    assert_eq!(c.author().name(), "Ann Lee");
    assert_eq!(c.author().timestamp(), 1700000000);
    assert_eq!(c.message(), "Subject\n\nBody");
}

#[test]
fn trees_built_from_index() {
    let mut index = Index::empty(2);
    index.add(entry("a/b/c.txt", oid(1)));
    index.add(entry("a/d.txt", oid(2)));
    index.add(entry("top.txt", oid(3)));
    let (root, objects) = build_tree_from_index(&index);
    assert_eq!(objects.len(), 3);
    for o in &objects {
        assert_eq!(hash_object("tree", &o.body), o.oid.as_bytes().to_vec());
    }
    let dirs: Vec<&str> = objects.iter().map(|o| o.dir.as_str()).collect();
    assert_eq!(dirs, vec!["a/b", "a", ""]);
    assert_eq!(objects.last().unwrap().oid, root);
    let tree = Tree::parse(RawObject { object_type: ObjectType::Tree, content: objects[2].body.clone() }).unwrap();
    let names: Vec<&str> = tree.iter().map(|e| e.name()).collect();
    assert_eq!(names, vec!["a", "top.txt"]);
    assert!(tree.get("a").unwrap().is_directory());
}

#[test]
fn walker_and_path_rules() {
    assert!(!is_tracked_name(".git"));
    assert!(!is_tracked_name(".hidden"));
    assert!(is_tracked_name(".gitignore"));
    assert!(is_tracked_name(".gitattributes"));
    assert!(is_tracked_name("src"));
    assert!(check_relative_path("a/b.txt").is_ok());
    assert!(check_relative_path("a/..b").is_ok());
    assert!(matches!(check_relative_path("../x"), Err(Error::PathNotFound(_))));
    assert!(matches!(check_relative_path("a/../x"), Err(Error::PathNotFound(_))));
    assert!(check_relative_path("a\0b").is_err());
}

#[test]
fn error_messages() {
    assert_eq!(Error::EmptyCommit.message(), "nothing to commit");
    assert_eq!(
        Error::InvalidIndex { version: 3, reason: "bad".to_string() }.message(),
        "invalid index (version 3): bad"
    );
    assert_eq!(
        Error::TypeMismatch { expected: "commit", actual: "blob" }.message(),
        "type mismatch: expected commit, got blob"
    );
}
