use simfs::command::{parse_command, Command};
use simfs::error::FsError;

#[test]
fn plain_commands() {
    assert_eq!(parse_command("pwd"), Ok(Command::Pwd));
    assert_eq!(parse_command("quit\n"), Ok(Command::Quit));
    assert_eq!(parse_command("  pwd  \n"), Ok(Command::Pwd));
    assert_eq!(parse_command("pwd extra"), Ok(Command::Pwd));
}

#[test]
fn commands_with_a_path() {
    assert_eq!(parse_command("mkdir /a\n"), Ok(Command::MkDir("/a".to_string())));
    assert_eq!(parse_command("creat a/b"), Ok(Command::Creat("a/b".to_string())));
    assert_eq!(parse_command("rm x"), Ok(Command::Rm("x".to_string())));
    assert_eq!(parse_command("rmdir /a"), Ok(Command::RmDir("/a".to_string())));
    assert_eq!(parse_command("mkdir a b"), Ok(Command::MkDir("a".to_string())));
    assert_eq!(parse_command("mkdir  a"), Ok(Command::MkDir("".to_string())));
}

#[test]
fn commands_with_an_optional_argument() {
    assert_eq!(parse_command("ls"), Ok(Command::Ls(None)));
    assert_eq!(parse_command("ls /a"), Ok(Command::Ls(Some("/a".to_string()))));
    assert_eq!(parse_command("cd"), Ok(Command::Cd(None)));
    assert_eq!(parse_command("cd .."), Ok(Command::Cd(Some("..".to_string()))));
    assert_eq!(parse_command("cd  x"), Ok(Command::Cd(Some("".to_string()))));
    assert_eq!(parse_command("save"), Ok(Command::Save(None)));
    assert_eq!(parse_command("save my.fs"), Ok(Command::Save(Some("my.fs".to_string()))));
    assert_eq!(parse_command("reload"), Ok(Command::Reload(None)));
    assert_eq!(parse_command("reload my.fs\n"), Ok(Command::Reload(Some("my.fs".to_string()))));
}

#[test]
fn missing_operands() {
    assert_eq!(parse_command("mkdir"), Err(FsError::MissingOperand));
    assert_eq!(parse_command("creat\n"), Err(FsError::MissingOperand));
    assert_eq!(parse_command("rm"), Err(FsError::MissingOperand));
    assert_eq!(parse_command("rmdir"), Err(FsError::MissingOperand));
}

#[test]
fn rmdir_of_the_root_is_refused() {
    assert_eq!(parse_command("rmdir /"), Err(FsError::CannotRemoveRoot));
    assert_eq!(parse_command("rmdir /\n"), Err(FsError::CannotRemoveRoot));
    assert_eq!(parse_command("rmdir / x"), Err(FsError::CannotRemoveRoot));
    assert_eq!(parse_command("rmdir //"), Ok(Command::RmDir("//".to_string())));
}

#[test]
fn blank_and_unknown_lines() {
    assert_eq!(parse_command(""), Ok(Command::NoOp));
    assert_eq!(parse_command("   \n"), Ok(Command::NoOp));
    assert_eq!(parse_command("touch x"), Err(FsError::NotImplemented));
    assert_eq!(parse_command("PWD"), Err(FsError::NotImplemented));
    assert_eq!(parse_command("pwdx"), Err(FsError::NotImplemented));
}
