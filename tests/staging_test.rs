use zerogit::diff::FlatEntry;
use zerogit::error::Error;
use zerogit::index::{Index, IndexEntry};
use zerogit::log::touches_paths;
use zerogit::objects::{FileMode, ObjectType, Oid, RawObject};
use zerogit::refs::resolver::head_update_target;
use zerogit::refs::Tag;
use zerogit::objects::store::LooseObjectStore;
use zerogit::staging::{index_from_files, reset_index, stage_all, stage_file};

fn oid(n: u8) -> Oid {
    Oid::from_bytes([n; 20])
}

fn flat(path: &str, o: Oid) -> FlatEntry {
    FlatEntry { path: path.to_string(), oid: o, mode: FileMode::Regular }
}

fn entry(path: &str, o: Oid) -> IndexEntry {
    IndexEntry::new(5, 5, 1, 1, FileMode::Regular, 1, 1, 9, o, path, 0)
}

#[test]
fn reset_all_mirrors_head() {
    let mut index = Index::new(3, vec![entry("x", oid(9))]);
    let head = vec![flat("a", oid(1)), flat("b/c", oid(2))];
    reset_index(&mut index, &head, &[10, 20], None);
    assert_eq!(index.version(), 3);
    let got: Vec<(&str, Oid, u32, u8)> = index.entries().iter().map(|e| (e.path(), *e.oid(), e.size(), e.stage())).collect();
    assert_eq!(got, vec![("a", oid(1), 10, 0), ("b/c", oid(2), 20, 0)]);
}

#[test]
fn reset_one_path() {
    let head = vec![flat("a", oid(1))];
    let mut index = Index::new(2, vec![entry("a", oid(7)), entry("z", oid(8))]);
    reset_index(&mut index, &head, &[4], Some("a"));
    assert_eq!(index.get("a").unwrap().oid(), &oid(1));
    assert_eq!(index.get("z").unwrap().oid(), &oid(8));
    reset_index(&mut index, &head, &[4], Some("z"));
    assert!(index.get("z").is_none());
    assert_eq!(index.len(), 1);
}

#[test]
fn stage_one_file() {
    let mut index = Index::empty(2);
    stage_file(&mut index, "f.txt", oid(3), FileMode::Executable, 12, 99);
    let e = index.get("f.txt").unwrap();
    assert_eq!((e.oid(), e.mode(), e.size(), e.mtime(), e.stage()), (&oid(3), FileMode::Executable, 12, 99, 0));
}

#[test]
fn stage_everything() {
    let mut index = Index::new(2, vec![entry("gone", oid(1)), entry("keep", oid(2))]);
    let head = vec![flat("gone", oid(1)), flat("keep", oid(2))];
    let work = vec!["keep".to_string(), "new".to_string()];
    stage_all(&mut index, vec![entry("keep", oid(5)), entry("new", oid(6))], &head, &work);
    assert!(index.get("gone").is_none());
    assert_eq!(index.get("keep").unwrap().oid(), &oid(5));
    assert_eq!(index.get("new").unwrap().oid(), &oid(6));
}

#[test]
fn rebuild_index_from_tree() {
    let files = vec![flat("a", oid(1)), flat("d/e", oid(2))];
    let index = index_from_files(2, &files, &[FileMode::Regular, FileMode::Executable], &[1, 2], &[30, 40]);
    assert_eq!(index.len(), 2);
    assert_eq!(index.entries()[1].mode(), FileMode::Executable);
    assert_eq!(index.entries()[1].mtime(), 40);
}

#[test]
fn path_filter() {
    let parent = vec![flat("src/a.rs", oid(1)), flat("docs/x", oid(2))];
    let current = vec![flat("src/a.rs", oid(1)), flat("docs/x", oid(3))];
    assert!(touches_paths(&current, &parent, &["docs/".to_string()]));
    assert!(!touches_paths(&current, &parent, &["src".to_string()]));
    assert!(!touches_paths(&current, &parent, &["do".to_string()]));
    assert!(touches_paths(&current, &[], &["src/a.rs".to_string()]));
}

#[test]
fn head_moves_branch_or_itself() {
    assert_eq!(head_update_target("ref: refs/heads/main\n"), "refs/heads/main");
    assert_eq!(head_update_target("da39a3ee5e6b4b0d3255bfef95601890afd80709\n"), "HEAD");
}

#[test]
fn tag_kinds() {
    let t = Tag::from_object("v1", oid(1), RawObject { object_type: ObjectType::Commit, content: vec![] }).unwrap();
    assert!(!t.is_annotated());
    let body = format!(
        "object {}\ntype commit\ntag v1\ntagger A <a@x> 1 +0000\n\nnote",
        oid(2).to_hex()
    );
    let t = Tag::from_object("v1", oid(1), RawObject { object_type: ObjectType::Tag, content: body.into_bytes() }).unwrap();
    assert!(t.is_annotated());
    assert_eq!(t.target(), &oid(2));
    assert_eq!(t.message(), Some("note"));
}

#[test]
fn index_rejects_nonstandard_mode() {
    let mut index = Index::empty(2);
    index.add(entry("f", oid(1)));
    let mut data = zerogit::index::writer::write(&index);
    data[12 + 24..12 + 28].copy_from_slice(&0o100600u32.to_be_bytes());
    assert!(matches!(zerogit::index::reader::parse(&data), Err(Error::InvalidIndex { version: 2, .. })));
    data[12 + 24..12 + 28].copy_from_slice(&0o040000u32.to_be_bytes());
    assert_eq!(zerogit::index::reader::parse(&data).unwrap().entries()[0].mode(), FileMode::Directory);
}

#[test]
fn prefix_search_filter() {
    let id = "da39a3ee5e6b4b0d3255bfef95601890afd80709";
    let names = vec![id[2..].to_string(), "39ffffffffffffffffffffffffffffffffffff".to_string(), "tmp".to_string()];
    let found = zerogit::worktree::objects_with_prefix("DA39A3", &names);
    assert_eq!(found, vec![Oid::from_hex(id).unwrap()]);
    assert_eq!(zerogit::worktree::objects_with_prefix("da39", &names).len(), 2);
}

#[test]
fn bad_header_errors() {
    let bad_tree = "tree nothex\nauthor A <a@x> 1 +0000\ncommitter A <a@x> 1 +0000\n\nm";
    let r = zerogit::objects::Commit::parse(oid(1), RawObject { object_type: ObjectType::Commit, content: bad_tree.as_bytes().to_vec() });
    assert!(matches!(r, Err(Error::InvalidOid(_))));
    let bad_sig = format!("tree {}\nauthor nobody\ncommitter A <a@x> 1 +0000\n\nm", oid(2).to_hex());
    let r = zerogit::objects::Commit::parse(oid(1), RawObject { object_type: ObjectType::Commit, content: bad_sig.into_bytes() });
    assert!(matches!(r, Err(Error::InvalidUtf8)));
}

#[test]
fn object_read_checks_id() {
    let (id, file) = LooseObjectStore::encode(ObjectType::Blob, b"abc");
    assert_eq!(LooseObjectStore::read_object(&id, Some(&file)).unwrap().content, b"abc".to_vec());
    match LooseObjectStore::read_object(&id, None) {
        Err(Error::ObjectNotFound(s)) => assert_eq!(s, id.to_hex()),
        _ => panic!("expected a missing object"),
    }
    assert!(matches!(LooseObjectStore::read_object(&oid(4), Some(&file)), Err(Error::InvalidObject { .. })));
}
