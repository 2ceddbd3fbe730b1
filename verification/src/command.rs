//! The commands of the shell and how a line of input is read as one.

use crate::error::FsError;
use crate::fs::view_path;
use crate::text::{split, split_range, string_of, to_chars, trim, trim_range};
use vstd::prelude::*;

verus! {

/// A command, with its argument where it takes one.
#[derive(Debug, PartialEq, Eq)]
pub enum Command {
    Pwd,
    Quit,
    MkDir(String),
    Creat(String),
    RmDir(String),
    Rm(String),
    Ls(Option<String>),
    Cd(Option<String>),
    Save(Option<String>),
    Reload(Option<String>),
    NoOp,
}

/// A command as the model sees it.
pub enum CommandView {
    Pwd,
    Quit,
    MkDir(Seq<char>),
    Creat(Seq<char>),
    RmDir(Seq<char>),
    Rm(Seq<char>),
    Ls(Option<Seq<char>>),
    Cd(Option<Seq<char>>),
    Save(Option<Seq<char>>),
    Reload(Option<Seq<char>>),
    NoOp,
}

impl View for Command {
    type V = CommandView;

    open spec fn view(&self) -> CommandView {
        match self {
            Command::Pwd => CommandView::Pwd,
            Command::Quit => CommandView::Quit,
            Command::MkDir(a) => CommandView::MkDir(a@),
            Command::Creat(a) => CommandView::Creat(a@),
            Command::RmDir(a) => CommandView::RmDir(a@),
            Command::Rm(a) => CommandView::Rm(a@),
            Command::Ls(a) => CommandView::Ls(view_path(*a)),
            Command::Cd(a) => CommandView::Cd(view_path(*a)),
            Command::Save(a) => CommandView::Save(view_path(*a)),
            Command::Reload(a) => CommandView::Reload(view_path(*a)),
            Command::NoOp => CommandView::NoOp,
        }
    }
}

/// The command that a line of input stands for.
///
/// The words of the line are what stands between single spaces, once the
/// blanks at its two ends are gone. The first word names the command, the
/// second is its argument; further words are ignored. `rmdir` refuses the
/// argument `/`. A blank line is `NoOp`.
pub open spec fn command_of(line: Seq<char>) -> Result<CommandView, FsError> {
    let words = split(trim(line), ' ');
    let word = words[0];
    let arg = if words.len() > 1 {
        Some(words[1])
    } else {
        None
    };
    if word == "pwd"@ {
        Ok(CommandView::Pwd)
    } else if word == "quit"@ {
        Ok(CommandView::Quit)
    } else if word == "mkdir"@ {
        match arg {
            Some(path) => Ok(CommandView::MkDir(path)),
            None => Err(FsError::MissingOperand),
        }
    } else if word == "ls"@ {
        Ok(CommandView::Ls(arg))
    } else if word == "cd"@ {
        Ok(CommandView::Cd(arg))
    } else if word == "rmdir"@ {
        match arg {
            Some(path) => if path == "/"@ {
                Err(FsError::CannotRemoveRoot)
            } else {
                Ok(CommandView::RmDir(path))
            },
            None => Err(FsError::MissingOperand),
        }
    } else if word == "creat"@ {
        match arg {
            Some(path) => Ok(CommandView::Creat(path)),
            None => Err(FsError::MissingOperand),
        }
    } else if word == "rm"@ {
        match arg {
            Some(path) => Ok(CommandView::Rm(path)),
            None => Err(FsError::MissingOperand),
        }
    } else if word == "save"@ {
        Ok(CommandView::Save(arg))
    } else if word == "reload"@ {
        Ok(CommandView::Reload(arg))
    } else if word.len() == 0 {
        Ok(CommandView::NoOp)
    } else {
        Err(FsError::NotImplemented)
    }
}

/// Whether `chars[from..to]` spells `word`.
fn is_word(chars: &Vec<char>, from: usize, to: usize, word: &str) -> (b: bool)
    requires
        from <= to <= chars.len(),
    ensures
        b == (chars@.subrange(from as int, to as int) == word@),
{
    let letters = to_chars(word);
    let ghost sub = chars@.subrange(from as int, to as int);
    if letters.len() != to - from {
        return false;
    }
    let mut i: usize = 0;
    while i < letters.len()
        invariant
            i <= letters.len() == to - from,
            to <= chars.len(),
            sub == chars@.subrange(from as int, to as int),
            letters@ == word@,
            forall|j: int| 0 <= j < i ==> sub[j] == letters@[j],
        decreases letters.len() - i,
    {
        if chars[from + i] != letters[i] {
            assert(sub[i as int] != word@[i as int]);
            return false;
        }
        i += 1;
    }
    assert(sub =~= word@);
    true
}

/// Reads a line of input as a command.
///
/// Fails with `MissingOperand` where `mkdir`, `creat`, `rmdir` or `rm`
/// stands without an argument, with `CannotRemoveRoot` for `rmdir /`, and
/// with `NotImplemented` for any other first word that is not empty.
pub fn parse_command(command: &str) -> (r: Result<Command, FsError>)
    ensures
        match command_of(command@) {
            Ok(c) => r is Ok && r->Ok_0@ == c,
            Err(e) => r is Err && r->Err_0 == e,
        },
{
    let chars = to_chars(command);
    assert(chars@.subrange(0, chars@.len() as int) =~= command@);
    let (a, b) = trim_range(&chars, 0, chars.len());
    let words = split_range(&chars, a, b, ' ');
    let ghost pieces = split(trim(command@), ' ');
    proof {
        crate::text::lemma_split_len(trim(command@), ' ');
    }
    let (from, to) = words[0];
    let arg: Option<String> = if words.len() > 1 {
        Some(string_of(&chars, words[1].0, words[1].1))
    } else {
        None
    };
    assert(view_path(arg) == if pieces.len() > 1 {
        Some(pieces[1])
    } else {
        None
    });
    if is_word(&chars, from, to, "pwd") {
        Ok(Command::Pwd)
    } else if is_word(&chars, from, to, "quit") {
        Ok(Command::Quit)
    } else if is_word(&chars, from, to, "mkdir") {
        match arg {
            Some(path) => Ok(Command::MkDir(path)),
            None => Err(FsError::MissingOperand),
        }
    } else if is_word(&chars, from, to, "ls") {
        Ok(Command::Ls(arg))
    } else if is_word(&chars, from, to, "cd") {
        Ok(Command::Cd(arg))
    } else if is_word(&chars, from, to, "rmdir") {
        match arg {
            Some(path) => if words[1].1 - words[1].0 == 1 && chars[words[1].0] == '/' {
                proof {
                    reveal_strlit("/");
                    assert(path@ =~= "/"@);
                }
                Err(FsError::CannotRemoveRoot)
            } else {
                proof {
                    reveal_strlit("/");
                    if path@ == "/"@ {
                        assert(path@.len() == 1);
                        assert(path@[0] == '/');
                    }
                }
                Ok(Command::RmDir(path))
            },
            None => Err(FsError::MissingOperand),
        }
    } else if is_word(&chars, from, to, "creat") {
        match arg {
            Some(path) => Ok(Command::Creat(path)),
            None => Err(FsError::MissingOperand),
        }
    } else if is_word(&chars, from, to, "rm") {
        match arg {
            Some(path) => Ok(Command::Rm(path)),
            None => Err(FsError::MissingOperand),
        }
    } else if is_word(&chars, from, to, "save") {
        Ok(Command::Save(arg))
    } else if is_word(&chars, from, to, "reload") {
        Ok(Command::Reload(arg))
    } else if from == to {
        Ok(Command::NoOp)
    } else {
        Err(FsError::NotImplemented)
    }
}

} // verus!
