use simfs::error::FsError;
use simfs::fs::FileSystem;
use simfs::snapshot::read_snapshot;

fn names(v: &[&str]) -> Vec<String> {
    v.iter().map(|s| s.to_string()).collect()
}

#[test]
fn snapshot_of_a_new_store() {
    let fs = FileSystem::new();
    assert_eq!(fs.save(), "0 1\n0 /\nD 0 0\n");
}

#[test]
fn snapshot_lines() {
    let mut fs = FileSystem::new();
    fs.mkdir("/docs").unwrap();
    fs.creat("/docs/a.txt").unwrap();
    fs.creat("/docs/b.txt").unwrap();
    fs.mkdir("/empty").unwrap();
    assert_eq!(
        fs.save(),
        "4 5\n0 /\n1 docs\n2 a.txt\n3 b.txt\n4 empty\nD 0 0 1,4\nD 1 0 2,3\nF 2 1\nF 3 1\nD 4 0\n"
    );
    assert_eq!(fs.node_ids(), vec![0, 1, 2, 3, 4]);
}

#[test]
fn snapshot_after_a_reload_is_in_ascending_order() {
    let mut fs = FileSystem::new();
    let text = "40 4\n30 c\n0 /\n7 a\n12 b\nF 30 0\nD 0 0 30,7\nF 12 7\nD 7 0 12\n";
    assert_eq!(fs.reload(text), Ok(()));
    assert_eq!(fs.node_ids(), vec![0, 7, 12, 30]);
    assert_eq!(
        fs.save(),
        "40 4\n0 /\n7 a\n12 b\n30 c\nD 0 0 30,7\nD 7 0 12\nF 12 7\nF 30 0\n"
    );
}

#[test]
fn save_then_reload_gives_the_same_tree() {
    let mut fs = FileSystem::new();
    fs.mkdir("/home").unwrap();
    fs.mkdir("/home/user").unwrap();
    fs.creat("/home/user/notes.txt").unwrap();
    fs.creat("/readme").unwrap();
    fs.mkdir("/tmp").unwrap();
    fs.creat("/tmp/x").unwrap();
    fs.rm("/tmp/x").unwrap();
    fs.cd(Some("/home/user".to_string())).unwrap();
    let text = fs.save();
    let mut other = FileSystem::new();
    other.mkdir("/junk").unwrap();
    assert_eq!(other.reload(&text), Ok(()));
    assert_eq!(other.counter(), fs.counter());
    assert_eq!(other.counter(), 6);
    assert_eq!(other.cwd(), 0);
    assert_eq!(other.node_count(), fs.node_count());
    assert_eq!(other.locate("/junk"), Err(FsError::NoSuchEntry));
    assert_eq!(other.ls(None), Ok(names(&["home", "readme", "tmp"])));
    assert_eq!(other.ls(Some("/home".to_string())), Ok(names(&["user"])));
    assert_eq!(other.ls(Some("/home/user".to_string())), Ok(names(&["notes.txt"])));
    assert_eq!(other.ls(Some("/tmp".to_string())), Ok(vec![]));
    assert_eq!(other.locate("/home/user/notes.txt"), fs.locate("/home/user/notes.txt"));
    assert!(other.get(3).unwrap().is_file_node());
    assert!(other.get(2).unwrap().is_dir_node());
    assert_eq!(other.get(6).unwrap().name, "x");
    assert_eq!(other.mkdir("/new"), Ok(()));
    assert_eq!(other.locate("/new"), Ok(7));
}

#[test]
fn reload_of_a_written_snapshot() {
    let mut fs = FileSystem::new();
    let text = "7 3\n0 /\n5 etc\n7 passwd\nD 0 0 5\nD 5 0 7\nF 7 5\n";
    assert_eq!(fs.reload(text), Ok(()));
    assert_eq!(fs.counter(), 7);
    assert_eq!(fs.node_count(), 3);
    assert_eq!(fs.locate("/etc/passwd"), Ok(7));
    assert_eq!(fs.ls(Some("/etc".to_string())), Ok(names(&["passwd"])));
    assert_eq!(fs.cd(Some("/etc".to_string())), Ok(()));
    assert_eq!(fs.pwd(), Ok("/etc".to_string()));
}

#[test]
fn reload_reads_numbers_blanks_and_two_field_directories() {
    let mut fs = FileSystem::new();
    let text = "  +2 2 \r\n0 /\r\n 01 a\t\nD 0 0 1\nD 1 0 \ntrailing text is ignored";
    assert_eq!(fs.reload(text), Ok(()));
    assert_eq!(fs.counter(), 2);
    assert_eq!(fs.ls(None), Ok(names(&["a"])));
    assert_eq!(fs.ls(Some("/a".to_string())), Ok(vec![]));
}

#[test]
fn malformed_header_leaves_the_store_untouched() {
    let mut fs = FileSystem::new();
    fs.mkdir("/keep").unwrap();
    fs.cd(Some("/keep".to_string())).unwrap();
    let before = fs.save();
    assert_eq!(fs.reload("abc 2\n0 /\n1 x\nD 0 0 1\nF 1 0\n"), Err(FsError::MalformedHeader));
    assert_eq!(fs.save(), before);
    assert_eq!(fs.cwd(), 1);
    assert_eq!(fs.counter(), 1);
    assert_eq!(fs.locate("/keep"), Ok(1));
    assert_eq!(fs.reload(""), Err(FsError::MalformedHeader));
    assert_eq!(fs.reload("1\n"), Err(FsError::MalformedHeader));
    assert_eq!(fs.reload("1 2 3\n"), Err(FsError::MalformedHeader));
    assert_eq!(fs.reload("1  2\n"), Err(FsError::MalformedHeader));
    assert_eq!(fs.reload("1 -2\n"), Err(FsError::MalformedHeader));
    assert_eq!(fs.reload("1 99999999999999999999999999\n"), Err(FsError::MalformedHeader));
    assert_eq!(fs.locate("/keep"), Ok(1));
}

#[test]
fn malformed_index_lines() {
    let mut fs = FileSystem::new();
    assert_eq!(fs.reload("1 2\n0 /\n"), Err(FsError::MalformedIndexLine));
    assert_eq!(fs.reload("1 1\nx /\nD 0 0\n"), Err(FsError::MalformedIndexLine));
    assert_eq!(fs.reload("1 1\n0 a b\nD 0 0\n"), Err(FsError::MalformedIndexLine));
    assert_eq!(fs.reload("1 1\n0\nD 0 0\n"), Err(FsError::MalformedIndexLine));
    assert_eq!(fs.node_count(), 1);
}

#[test]
fn malformed_body_lines() {
    let mut fs = FileSystem::new();
    assert_eq!(fs.reload("1 1\n0 /\n"), Err(FsError::MalformedBodyLine));
    assert_eq!(fs.reload("1 1\n0 /\nX 0 0\n"), Err(FsError::MalformedBodyLine));
    assert_eq!(fs.reload("1 1\n0 /\nD 0\n"), Err(FsError::MalformedBodyLine));
    assert_eq!(fs.reload("1 1\n0 /\nF 0 0 1\n"), Err(FsError::MalformedBodyLine));
    assert_eq!(fs.reload("1 1\n0 /\nD 0 0 1 2\n"), Err(FsError::MalformedBodyLine));
    assert_eq!(fs.reload("1 1\n0 /\nD zero 0\n"), Err(FsError::MalformedBodyLine));
    assert_eq!(fs.reload("1 1\n0 /\nD 0 up\n"), Err(FsError::MalformedBodyLine));
    assert_eq!(fs.reload("1 1\n0 /\nD 0 0 0,x\n"), Err(FsError::MalformedBodyLine));
    assert_eq!(fs.reload("1 1\n0 /\nD 0 0 0,,0\n"), Err(FsError::MalformedBodyLine));
    assert_eq!(fs.reload("1 1\n0 /\nDD 0 0\n"), Err(FsError::MalformedBodyLine));
    assert_eq!(fs.node_count(), 1);
}

#[test]
fn dangling_references() {
    let mut fs = FileSystem::new();
    assert_eq!(fs.reload("1 1\n0 /\nD 1 0\n"), Err(FsError::DanglingSelfReference));
    assert_eq!(fs.reload("1 1\n0 /\nF 9 0\n"), Err(FsError::DanglingSelfReference));
    assert_eq!(fs.reload("1 1\n0 /\nD 0 0 1\n"), Err(FsError::DanglingChildReference));
    assert_eq!(fs.reload("1 1\n0 /\nD 0 0 0,4\n"), Err(FsError::DanglingChildReference));
    assert_eq!(fs.reload("1 1\n0 /\nD 0 0 x,4\n"), Err(FsError::MalformedBodyLine));
    assert_eq!(fs.reload("1 1\n0 /\nD 0 0 4,x\n"), Err(FsError::DanglingChildReference));
    assert_eq!(fs.reload("1 1\n0 /\nD 7 up 4\n"), Err(FsError::DanglingSelfReference));
    assert_eq!(fs.node_count(), 1);
}

#[test]
fn later_lines_replace_earlier_ones() {
    let (counter, nodes) = read_snapshot("3 3\n0 /\n1 old\n1 new\nD 0 0 1\nF 1 0\nD 1 0\n").unwrap();
    assert_eq!(counter, 3);
    assert_eq!(nodes.len(), 2);
    assert_eq!(nodes[&1].name, "new");
    assert!(nodes[&1].is_dir_node());
    assert_eq!(nodes[&0].child(&"new".to_string()), Some(1));
}

#[test]
fn two_children_of_one_name_leave_the_later_identifier() {
    let (_, nodes) = read_snapshot("3 3\n0 /\n1 twin\n2 twin\nD 0 0 1,2\nF 1 0\nF 2 0\n").unwrap();
    assert_eq!(nodes[&0].child_count(), 1);
    assert_eq!(nodes[&0].child(&"twin".to_string()), Some(2));
}

#[test]
fn names_with_a_space_do_not_survive_a_snapshot() {
    let mut fs = FileSystem::new();
    fs.mkdir("/a b").unwrap();
    let text = fs.save();
    assert_eq!(fs.reload(&text), Err(FsError::MalformedIndexLine));
    assert_eq!(fs.locate("/a b"), Ok(1));
}

#[test]
fn pwd_with_a_missing_parent_is_not_found() {
    let mut fs = FileSystem::new();
    assert_eq!(fs.reload("9 2\n0 /\n4 lost\nD 0 0 4\nD 4 8\n"), Ok(()));
    assert_eq!(fs.cd(Some("/lost".to_string())), Ok(()));
    assert_eq!(fs.pwd(), Err(FsError::NotFound));
    assert_eq!(fs.rmdir("/lost"), Err(FsError::NotFound));
}

#[test]
fn pwd_with_parents_in_a_circle_is_not_found() {
    let mut fs = FileSystem::new();
    assert_eq!(fs.reload("9 3\n0 /\n1 a\n2 b\nD 0 0 1\nD 1 2 2\nD 2 1\n"), Ok(()));
    assert_eq!(fs.pwd(), Ok("/".to_string()));
    assert!(fs.reaches_root(0));
    assert!(!fs.reaches_root(1));
    assert!(!fs.reaches_root(2));
    assert!(!fs.reaches_root(3));
    assert_eq!(fs.cd(Some("/a/b".to_string())), Ok(()));
    assert_eq!(fs.pwd(), Err(FsError::NotFound));
    assert_eq!(fs.cd(Some("/a".to_string())), Ok(()));
    assert_eq!(fs.pwd(), Err(FsError::NotFound));
}

#[test]
fn pwd_does_not_ask_for_parents_with_smaller_identifiers() {
    let mut fs = FileSystem::new();
    let text = "9 4\n0 /\n5 a\n2 b\n7 c\nD 0 0 5\nD 5 0 2\nD 2 5 7\nD 7 2\n";
    assert_eq!(fs.reload(text), Ok(()));
    assert_eq!(fs.cd(Some("/a/b".to_string())), Ok(()));
    assert_eq!(fs.cwd(), 2);
    assert_eq!(fs.pwd(), Ok("/a/b".to_string()));
    assert_eq!(fs.cd(Some("c".to_string())), Ok(()));
    assert_eq!(fs.pwd(), Ok("/a/b/c".to_string()));
    assert_eq!(fs.cd(Some("/a".to_string())), Ok(()));
    assert_eq!(fs.pwd(), Ok("/a".to_string()));
}

#[test]
fn pwd_takes_as_many_steps_as_the_store_has_nodes_at_most() {
    // every node but the root lies on the way up
    let mut fs = FileSystem::new();
    assert_eq!(fs.reload("3 4\n0 /\n1 a\n2 b\n3 c\nD 0 0 1\nD 1 0 2\nD 2 1 3\nD 3 2\n"), Ok(()));
    assert_eq!(fs.cd(Some("/a/b/c".to_string())), Ok(()));
    assert_eq!(fs.pwd(), Ok("/a/b/c".to_string()));
}

fn loaded(text: &str) -> FileSystem {
    let mut fs = FileSystem::new();
    assert_eq!(fs.reload(text), Ok(()));
    fs
}

#[test]
fn stores_made_by_the_operations_are_consistent() {
    let mut fs = FileSystem::new();
    assert!(fs.is_consistent());
    fs.mkdir("/a").unwrap();
    fs.creat("/a/f").unwrap();
    fs.mkdir("/a/d").unwrap();
    fs.cd(Some("/a/d".to_string())).unwrap();
    assert!(fs.is_consistent());
    fs.rm("/a/f").unwrap();
    fs.rmdir("/a/d").unwrap();
    assert!(fs.is_consistent());
    fs.creat("/a/f").unwrap();
    assert!(fs.is_consistent());
    let text = fs.save();
    let other = loaded(&text);
    assert!(other.is_consistent());
}

#[test]
fn snapshots_of_inconsistent_stores_are_told_apart() {
    assert!(loaded("2 3\n0 /\n1 a\n2 b\nD 0 0 1\nD 1 0 2\nF 2 1\n").is_consistent());
    // no root
    assert!(!loaded("2 1\n1 a\nD 1 0\n").is_consistent());
    // the root is a file
    assert!(!loaded("0 1\n0 /\nF 0 0\n").is_consistent());
    // the root has another name
    assert!(!loaded("0 1\n0 root\nD 0 0\n").is_consistent());
    // the root has another parent
    assert!(!loaded("1 2\n0 /\n1 a\nD 0 1 1\nD 1 0\n").is_consistent());
    // an identifier above the counter
    assert!(!loaded("0 2\n0 /\n1 a\nD 0 0 1\nF 1 0\n").is_consistent());
    // a parent that is not there
    assert!(!loaded("9 2\n0 /\n4 a\nD 0 0\nD 4 3\n").is_consistent());
    // a parent that is a file
    assert!(!loaded("9 3\n0 /\n1 f\n2 g\nD 0 0 1\nF 1 0\nF 2 1\n").is_consistent());
    // parents need no smaller identifiers than their children
    assert!(loaded("9 3\n0 /\n1 a\n2 b\nD 0 0 2\nD 1 2\nD 2 0 1\n").is_consistent());
    // parents in a circle
    assert!(!loaded("9 3\n0 /\n1 a\n2 b\nD 0 0\nD 1 2 2\nD 2 1 1\n").is_consistent());
    // a node that is its own parent
    assert!(!loaded("9 2\n0 /\n1 a\nD 0 0\nD 1 1\n").is_consistent());
    // a child listed by a directory that is not its parent
    assert!(!loaded("9 3\n0 /\n1 a\n2 b\nD 0 0 1,2\nD 1 0 2\nF 2 0\n").is_consistent());
    // the root listed as a child
    assert!(!loaded("9 1\n0 /\nD 0 0 0\n").is_consistent());
    // a child whose node line is missing
    assert!(!loaded("9 2\n0 /\n1 a\nD 0 0 1\nD 0 0 1\n").is_consistent());
}

#[test]
fn a_store_with_a_foreign_node_is_not_consistent() {
    let mut fs = FileSystem::new();
    fs.insert(5, simfs::node::FsNode::new_file_node("stray", 0));
    assert!(!fs.is_consistent());
    let mut fs = FileSystem::new();
    let id = fs.next_id();
    fs.insert(id, simfs::node::FsNode::new_file_node("stray", 0));
    assert!(fs.is_consistent());
    let mut fs = FileSystem::new();
    let mut dir = simfs::node::FsNode::new_dir_node("/", 0);
    dir.add_child("x".to_string(), 1);
    dir.add_child("x".to_string(), 1);
    fs.next_id();
    fs.insert(1, simfs::node::FsNode::new_file_node("x", 0));
    fs.insert(0, dir);
    assert!(!fs.is_consistent());
}
