use simfs::error::FsError;
use simfs::fs::FileSystem;
use simfs::node::FsNode;
use simfs::order::sorted;
use simfs::path::{split_path, starts_at_root};

fn names(v: &[&str]) -> Vec<String> {
    v.iter().map(|s| s.to_string()).collect()
}

#[test]
fn new_store_holds_only_the_root() {
    let fs = FileSystem::new();
    assert_eq!(fs.counter(), 0);
    assert_eq!(fs.cwd(), 0);
    assert_eq!(fs.node_count(), 1);
    let root = fs.get(0).unwrap();
    assert_eq!(root.name, "/");
    assert_eq!(root.parent, 0);
    assert!(root.is_dir_node());
    assert!(!root.is_file_node());
    assert_eq!(root.child_count(), 0);
    assert_eq!(fs.pwd(), Ok("/".to_string()));
    assert_eq!(fs.ls(None), Ok(vec![]));
}

#[test]
fn get_of_unknown_identifier_is_not_found() {
    let fs = FileSystem::new();
    assert!(matches!(fs.get(7), Err(FsError::NotFound)));
}

#[test]
fn node_constructors() {
    let f = FsNode::new_file_node("a.txt", 3);
    assert_eq!(f.name, "a.txt");
    assert_eq!(f.parent, 3);
    assert!(f.is_file_node());
    assert!(!f.is_dir_node());
    assert_eq!(f.child(&"x".to_string()), None);
    let mut d = FsNode::new_dir_node("docs", 1);
    assert!(d.is_dir_node());
    assert_eq!(d.child_count(), 0);
    d.add_child("x".to_string(), 9);
    d.add_child("y".to_string(), 10);
    assert_eq!(d.child(&"x".to_string()), Some(9));
    assert_eq!(d.child(&"y".to_string()), Some(10));
    assert_eq!(d.child(&"z".to_string()), None);
    d.remove_child(&"x".to_string());
    assert_eq!(d.child(&"x".to_string()), None);
    assert_eq!(d.child_count(), 1);
}

#[test]
fn store_primitives() {
    let mut fs = FileSystem::new();
    let id = fs.next_id();
    assert_eq!(id, 1);
    assert_eq!(fs.counter(), 1);
    fs.insert(id, FsNode::new_file_node("loose", 0));
    assert_eq!(fs.node_count(), 2);
    assert_eq!(fs.get(1).unwrap().name, "loose");
    assert_eq!(fs.node_ids(), vec![0, 1]);
}

#[test]
fn split_path_drops_empty_pieces() {
    assert_eq!(split_path("/a/b"), names(&["a", "b"]));
    assert_eq!(split_path("a//b/"), names(&["a", "b"]));
    assert_eq!(split_path("///"), Vec::<String>::new());
    assert_eq!(split_path(""), Vec::<String>::new());
    assert_eq!(split_path("x"), names(&["x"]));
    assert_eq!(split_path("/../."), names(&["..", "."]));
    assert_eq!(split_path("/caf\u{e9}/\u{4e2d}"), names(&["caf\u{e9}", "\u{4e2d}"]));
}

#[test]
fn mkdir_then_resolve_gives_the_new_identifier() {
    let mut fs = FileSystem::new();
    assert_eq!(fs.mkdir("/home"), Ok(()));
    assert_eq!(fs.counter(), 1);
    assert_eq!(fs.locate("/home"), Ok(1));
    assert_eq!(fs.mkdir("/home/user"), Ok(()));
    assert_eq!(fs.locate("/home/user"), Ok(2));
    assert_eq!(fs.find(0, &names(&["home", "user"])), Ok(2));
    assert_eq!(fs.find(1, &names(&["user"])), Ok(2));
    assert_eq!(fs.find(2, &names(&[])), Ok(2));
    assert_eq!(fs.cd(Some("/home".to_string())), Ok(()));
    assert_eq!(fs.mkdir("docs"), Ok(()));
    assert_eq!(fs.locate("docs"), Ok(3));
    assert_eq!(fs.locate("/home/docs"), Ok(3));
    let node = fs.get(3).unwrap();
    assert_eq!(node.name, "docs");
    assert_eq!(node.parent, 1);
    assert!(node.is_dir_node());
}

#[test]
fn mkdir_twice_fails_and_changes_nothing() {
    let mut fs = FileSystem::new();
    assert_eq!(fs.mkdir("/a"), Ok(()));
    let count = fs.node_count();
    let counter = fs.counter();
    assert_eq!(fs.mkdir("/a"), Err(FsError::AlreadyExists));
    assert_eq!(fs.node_count(), count);
    assert_eq!(fs.counter(), counter);
    assert_eq!(fs.creat("/a"), Err(FsError::AlreadyExists));
    assert_eq!(fs.node_count(), count);
    assert_eq!(fs.ls(Some("/".to_string())), Ok(names(&["a"])));
}

#[test]
fn create_errors() {
    let mut fs = FileSystem::new();
    assert_eq!(fs.mkdir(""), Err(FsError::MissingOperand));
    assert_eq!(fs.mkdir("/"), Err(FsError::MissingOperand));
    assert_eq!(fs.creat("//"), Err(FsError::MissingOperand));
    assert_eq!(fs.mkdir("/x/y"), Err(FsError::NoSuchEntry));
    assert_eq!(fs.creat("/x/y"), Err(FsError::NoSuchEntry));
    assert_eq!(fs.node_count(), 1);
    assert_eq!(fs.counter(), 0);
}

#[test]
fn creat_under_a_file_is_not_a_directory() {
    let mut fs = FileSystem::new();
    assert_eq!(fs.creat("/a"), Ok(()));
    assert_eq!(fs.creat("/a/b"), Err(FsError::NotADirectory));
    assert_eq!(fs.mkdir("/a/b"), Err(FsError::NotADirectory));
    assert_eq!(fs.creat("/a/b/c"), Err(FsError::NotADirectory));
    assert_eq!(fs.node_count(), 2);
}

#[test]
fn rmdir_needs_an_empty_directory() {
    let mut fs = FileSystem::new();
    assert_eq!(fs.mkdir("/d"), Ok(()));
    assert_eq!(fs.creat("/d/f"), Ok(()));
    assert_eq!(fs.rmdir("/d"), Err(FsError::DirectoryNotEmpty));
    assert_eq!(fs.locate("/d/f"), Ok(2));
    assert_eq!(fs.rm("/d/f"), Ok(()));
    assert_eq!(fs.locate("/d/f"), Err(FsError::NoSuchEntry));
    assert_eq!(fs.rmdir("/d"), Ok(()));
    assert_eq!(fs.locate("/d"), Err(FsError::NoSuchEntry));
    assert_eq!(fs.ls(None), Ok(vec![]));
}

#[test]
fn remove_errors() {
    let mut fs = FileSystem::new();
    assert_eq!(fs.mkdir("/d"), Ok(()));
    assert_eq!(fs.creat("/f"), Ok(()));
    assert_eq!(fs.rmdir("/f"), Err(FsError::NotADirectory));
    assert_eq!(fs.rm("/d"), Err(FsError::NotAFile));
    assert_eq!(fs.rm("/nope"), Err(FsError::NoSuchEntry));
    assert_eq!(fs.rmdir("/nope"), Err(FsError::NoSuchEntry));
    assert_eq!(fs.rm("/f/x"), Err(FsError::NotADirectory));
    assert_eq!(fs.rm("/f/x/y"), Err(FsError::NotADirectory));
    assert_eq!(fs.ls(None), Ok(names(&["d", "f"])));
}

#[test]
fn removed_nodes_stay_in_the_store_and_identifiers_are_not_reused() {
    let mut fs = FileSystem::new();
    assert_eq!(fs.creat("/f"), Ok(()));
    assert_eq!(fs.rm("/f"), Ok(()));
    assert_eq!(fs.node_count(), 2);
    assert_eq!(fs.creat("/g"), Ok(()));
    assert_eq!(fs.locate("/g"), Ok(2));
    assert_eq!(fs.counter(), 2);
}

#[test]
fn nothing_is_looked_up_under_a_file() {
    let mut fs = FileSystem::new();
    assert_eq!(fs.creat("/a"), Ok(()));
    assert_eq!(fs.find(0, &names(&["a"])), Ok(1));
    assert_eq!(fs.find(0, &names(&["a", "b"])), Err(FsError::NotADirectory));
    assert_eq!(fs.find(0, &names(&["a", "b", "c"])), Err(FsError::NotADirectory));
    assert_eq!(fs.find(1, &names(&["b"])), Err(FsError::NotADirectory));
    assert_eq!(fs.find(1, &names(&[])), Ok(1));
    assert_eq!(fs.locate("/a/b"), Err(FsError::NotADirectory));
    assert_eq!(fs.rm("/a/b"), Err(FsError::NotADirectory));
    assert_eq!(fs.rmdir("/a/b"), Err(FsError::NotADirectory));
    assert_eq!(fs.cd(Some("/a/b".to_string())), Err(FsError::NotADirectory));
    assert_eq!(fs.ls(Some("/a/b".to_string())), Err(FsError::NotADirectory));
    assert_eq!(fs.find(0, &names(&["a"])), Ok(1));
    assert_eq!(fs.ls(None), Ok(names(&["a"])));
    assert_eq!(fs.get(0).unwrap().child(&"a".to_string()), Some(1));
    assert_eq!(fs.get(0).unwrap().child_count(), 1);
    assert_eq!(fs.rm("/a"), Ok(()));
    assert_eq!(fs.ls(None), Ok(vec![]));
}

#[test]
fn dots_are_ordinary_names() {
    let mut fs = FileSystem::new();
    assert_eq!(fs.mkdir("/a"), Ok(()));
    assert_eq!(fs.locate("/a/.."), Err(FsError::NoSuchEntry));
    assert_eq!(fs.mkdir("/a/.."), Ok(()));
    assert_eq!(fs.locate("/a/.."), Ok(2));
    assert_eq!(fs.cd(Some("/a/..".to_string())), Ok(()));
    assert_eq!(fs.pwd(), Ok("/a/..".to_string()));
}

#[test]
fn cd_and_ls() {
    let mut fs = FileSystem::new();
    assert_eq!(fs.mkdir("/a"), Ok(()));
    assert_eq!(fs.creat("/a/f"), Ok(()));
    assert_eq!(fs.cd(Some("/a/f".to_string())), Err(FsError::NotADirectory));
    assert_eq!(fs.cwd(), 0);
    assert_eq!(fs.cd(Some("/b".to_string())), Err(FsError::NoSuchEntry));
    assert_eq!(fs.ls(Some("/a/f".to_string())), Err(FsError::NotADirectory));
    assert_eq!(fs.ls(Some("/b".to_string())), Err(FsError::NoSuchEntry));
    assert_eq!(fs.cd(Some("a".to_string())), Ok(()));
    assert_eq!(fs.cwd(), 1);
    assert_eq!(fs.cd(Some("".to_string())), Ok(()));
    assert_eq!(fs.cwd(), 1);
    assert_eq!(fs.ls(Some("".to_string())), Ok(names(&["f"])));
    assert_eq!(fs.ls(None), Ok(names(&["f"])));
    assert_eq!(fs.cd(None), Ok(()));
    assert_eq!(fs.cwd(), 0);
    assert_eq!(fs.ls(None), Ok(names(&["a"])));
}

#[test]
fn pwd_spells_the_way_from_the_root() {
    let mut fs = FileSystem::new();
    assert_eq!(fs.mkdir("/a"), Ok(()));
    assert_eq!(fs.mkdir("/a/b"), Ok(()));
    assert_eq!(fs.mkdir("/a/b/c"), Ok(()));
    assert_eq!(fs.cd(Some("/a/b/c".to_string())), Ok(()));
    assert_eq!(fs.pwd(), Ok("/a/b/c".to_string()));
    assert_eq!(fs.cd(Some("/a".to_string())), Ok(()));
    assert_eq!(fs.pwd(), Ok("/a".to_string()));
    assert_eq!(fs.cd(None), Ok(()));
    assert_eq!(fs.pwd(), Ok("/".to_string()));
}

#[test]
fn session_in_home() {
    let mut fs = FileSystem::new();
    assert_eq!(fs.mkdir("/home"), Ok(()));
    assert_eq!(fs.cd(Some("/home".to_string())), Ok(()));
    assert_eq!(fs.creat("notes.txt"), Ok(()));
    assert_eq!(fs.mkdir("/home/docs"), Ok(()));
    let mut listed = fs.ls(None).unwrap();
    listed.sort();
    assert_eq!(listed, names(&["docs", "notes.txt"]));
    assert_eq!(fs.pwd(), Ok("/home".to_string()));
    assert_eq!(fs.rmdir("/home/docs"), Ok(()));
    assert_eq!(fs.rm("notes.txt"), Ok(()));
    assert_eq!(fs.ls(None), Ok(vec![]));
}

#[test]
fn rmdir_of_the_current_directory_leaves_it_out_of_reach() {
    let mut fs = FileSystem::new();
    assert_eq!(fs.mkdir("/a"), Ok(()));
    assert_eq!(fs.cd(Some("/a".to_string())), Ok(()));
    assert_eq!(fs.rmdir(""), Ok(()));
    assert_eq!(fs.cwd(), 1);
    assert_eq!(fs.locate("/a"), Err(FsError::NoSuchEntry));
    assert_eq!(fs.pwd(), Ok("/a".to_string()));
}

#[test]
fn rmdir_of_the_empty_root_changes_nothing() {
    let mut fs = FileSystem::new();
    assert_eq!(fs.rmdir("//"), Ok(()));
    assert_eq!(fs.node_count(), 1);
    assert!(fs.get(0).unwrap().is_dir_node());
    assert_eq!(fs.mkdir("/a"), Ok(()));
    assert_eq!(fs.rmdir("//"), Err(FsError::DirectoryNotEmpty));
}

#[test]
fn error_messages() {
    assert_eq!(FsError::NoSuchEntry.message(), "No such file or directory");
    assert_eq!(FsError::NotADirectory.message(), "Not a directory");
    assert_eq!(FsError::DirectoryNotEmpty.message(), "Directory not empty");
    assert_eq!(FsError::MissingOperand.message(), "missing operand");
    assert_eq!(FsError::CannotRemoveRoot.message(), "cannot remove root directory");
    assert_eq!(FsError::NotImplemented.message(), "not implemented");
}

#[test]
fn every_error_has_a_message() {
    let all = [
        FsError::NotFound,
        FsError::NoSuchEntry,
        FsError::NotADirectory,
        FsError::NotAFile,
        FsError::AlreadyExists,
        FsError::DirectoryNotEmpty,
        FsError::MissingOperand,
        FsError::CannotRemoveRoot,
        FsError::NotImplemented,
        FsError::MalformedHeader,
        FsError::MalformedIndexLine,
        FsError::MalformedBodyLine,
        FsError::DanglingChildReference,
        FsError::DanglingSelfReference,
        FsError::IoFailure,
    ];
    for (i, a) in all.iter().enumerate() {
        assert!(!a.message().is_empty());
        for b in &all[i + 1..] {
            assert_ne!(a.message(), b.message());
        }
    }
    assert_eq!(FsError::IoFailure.message(), "Error opening the backup file");
    assert_eq!(FsError::NotAFile.message(), "not a file");
}

#[test]
fn sorting_identifiers() {
    assert_eq!(sorted(&vec![]), Vec::<usize>::new());
    assert_eq!(sorted(&vec![5]), vec![5]);
    assert_eq!(sorted(&vec![3, 1, 2]), vec![1, 2, 3]);
    assert_eq!(sorted(&vec![9, 0, 9, 4, 0, usize::MAX]), vec![0, 4, 9, usize::MAX]);
    assert_eq!(sorted(&vec![1, 2, 3, 4]), vec![1, 2, 3, 4]);
    assert_eq!(sorted(&vec![4, 3, 2, 1]), vec![1, 2, 3, 4]);
}

#[test]
fn paths_that_start_at_the_root() {
    assert!(starts_at_root("/"));
    assert!(starts_at_root("/a/b"));
    assert!(starts_at_root("//"));
    assert!(!starts_at_root(""));
    assert!(!starts_at_root("a/"));
    assert!(!starts_at_root(" /a"));
}

#[test]
fn the_crate_root_names_the_main_items() {
    let mut fs = simfs::FileSystem::new();
    assert_eq!(fs.mkdir("/a"), Ok(()));
    assert_eq!(fs.creat("/a"), Err(simfs::FsError::AlreadyExists));
    assert_eq!(simfs::split_path("/a"), names(&["a"]));
    assert_eq!(simfs::parse_command("pwd"), Ok(simfs::Command::Pwd));
    assert!(simfs::FsNode::new_file_node("f", 0).is_file_node());
}

#[test]
fn why_a_node_cannot_be_created() {
    let mut fs = FileSystem::new();
    assert_eq!(fs.creation_error("/a"), None);
    assert_eq!(fs.creation_error("a/"), None);
    assert_eq!(fs.creation_error(""), Some(FsError::MissingOperand));
    assert_eq!(fs.creation_error("///"), Some(FsError::MissingOperand));
    assert_eq!(fs.creation_error("/a/b"), Some(FsError::NoSuchEntry));
    assert_eq!(fs.creat("/a"), Ok(()));
    assert_eq!(fs.creation_error("/a"), Some(FsError::AlreadyExists));
    assert_eq!(fs.creation_error("/a/b"), Some(FsError::NotADirectory));
    assert_eq!(fs.creation_error("/a/b/c"), Some(FsError::NotADirectory));
    assert_eq!(fs.creation_error("/b"), None);
    assert_eq!(fs.node_count(), 2);
    assert_eq!(fs.counter(), 1);
}

#[test]
fn a_refused_creation_needs_no_identifier() {
    let mut fs = FileSystem::new();
    let text = format!("{} 2\n0 /\n7 a\nD 0 0 7\nF 7 0\n", usize::MAX);
    assert_eq!(fs.reload(&text), Ok(()));
    assert_eq!(fs.counter(), usize::MAX);
    assert_eq!(fs.mkdir("/"), Err(FsError::MissingOperand));
    assert_eq!(fs.mkdir("/a"), Err(FsError::AlreadyExists));
    assert_eq!(fs.creat("/a/b"), Err(FsError::NotADirectory));
    assert_eq!(fs.creat("/x/y"), Err(FsError::NoSuchEntry));
    assert_eq!(fs.creation_error("/b"), None);
    assert_eq!(fs.counter(), usize::MAX);
    assert_eq!(fs.node_count(), 2);
}

#[test]
fn a_new_node_gets_the_next_identifier() {
    let mut fs = FileSystem::new();
    assert_eq!(fs.reload("41 2\n0 /\n7 a\nD 0 0 7\nD 7 0\n"), Ok(()));
    assert!(fs.get(42).is_err());
    assert_eq!(fs.mkdir("/a/b"), Ok(()));
    assert_eq!(fs.counter(), 42);
    assert_eq!(fs.locate("/a/b"), Ok(42));
    let node = fs.get(42).unwrap();
    assert_eq!(node.name, "b");
    assert_eq!(node.parent, 7);
    assert!(node.is_dir_node());
    assert_eq!(node.child_count(), 0);
    assert_eq!(fs.mkdir("/a/b"), Err(FsError::AlreadyExists));
    assert_eq!(fs.counter(), 42);
    assert_eq!(fs.node_count(), 3);
}
