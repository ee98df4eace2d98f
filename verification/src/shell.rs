//! The command shell: what a line asks for, and what the program is to do.

use crate::util::same_text;
use vstd::prelude::*;

verus! {

/// The words that `shlex::split` finds in a line, or `None` where it
/// refuses the line.
pub uninterp spec fn shlex_split(line: Seq<char>) -> Option<Seq<Seq<char>>>;

/// The text that `str::to_lowercase` gives for a text.
pub uninterp spec fn lowercase(text: Seq<char>) -> Seq<char>;

/// The words of a list, as values.
pub open spec fn words_view(words: Seq<String>) -> Seq<Seq<char>> {
    Seq::new(words.len(), |i: int| words[i]@)
}

/// `shlex::split`: splits a line into words as a POSIX shell would, and
/// gives `None` where the line ends inside a quotation or an escape. The
/// result depends on the line alone.
#[verifier::external_body]
fn split_line(line: &str) -> (r: Option<Vec<String>>)
    ensures
        match r {
            Some(words) => shlex_split(line@) == Some(words_view(words@)),
            None => shlex_split(line@) is None,
        },
{
    shlex::split(line)
}

/// `str::to_lowercase` of std: the text in lower case. The result depends
/// on the text alone.
#[verifier::external_body]
fn to_lowercase(text: &str) -> (r: String)
    ensures
        r@ == lowercase(text@),
{
    text.to_lowercase()
}

/// What a line asks for, as a value.
pub enum CommandView {
    Nothing,
    Open(Seq<char>),
    OpenWithoutName,
    Export(Seq<char>),
    ExportWithoutName,
    List,
    Close,
    Quit,
    PrintCsv,
    Filter(Seq<char>),
    Unknown,
    Unparsed,
}

/// What a line asks for.
#[derive(Debug, PartialEq, Eq)]
pub enum Command {
    /// The line holds no word.
    Nothing,
    /// Open the archive, or the nested container, of this name.
    Open(String),
    /// `open` with no name or more than one.
    OpenWithoutName,
    /// Write the bytes of the entry of this name to a file.
    Export(String),
    /// `export` with no name or more than one.
    ExportWithoutName,
    /// List the entries of the current container.
    List,
    /// Leave the current container, or close the archive.
    Close,
    /// Leave the program.
    Quit,
    /// Print the tree below the current container.
    PrintCsv,
    /// Show only entries whose names start with this text.
    Filter(String),
    /// The first word is no command.
    Unknown,
    /// The line could not be split into words.
    Unparsed,
}

impl View for Command {
    type V = CommandView;

    open spec fn view(&self) -> CommandView {
        match self {
            Command::Nothing => CommandView::Nothing,
            Command::Open(name) => CommandView::Open(name@),
            Command::OpenWithoutName => CommandView::OpenWithoutName,
            Command::Export(name) => CommandView::Export(name@),
            Command::ExportWithoutName => CommandView::ExportWithoutName,
            Command::List => CommandView::List,
            Command::Close => CommandView::Close,
            Command::Quit => CommandView::Quit,
            Command::PrintCsv => CommandView::PrintCsv,
            Command::Filter(text) => CommandView::Filter(text@),
            Command::Unknown => CommandView::Unknown,
            Command::Unparsed => CommandView::Unparsed,
        }
    }
}

/// The command that the words of a line make, where `verb` is the first
/// word in lower case.
pub open spec fn command_with(verb: Seq<char>, words: Seq<Seq<char>>) -> CommandView {
    if verb == "open"@ {
        if words.len() == 2 {
            CommandView::Open(words[1])
        } else {
            CommandView::OpenWithoutName
        }
    } else if verb == "export"@ {
        if words.len() == 2 {
            CommandView::Export(words[1])
        } else {
            CommandView::ExportWithoutName
        }
    } else if verb == "list"@ {
        CommandView::List
    } else if verb == "close"@ {
        CommandView::Close
    } else if verb == "exit"@ || verb == "quit"@ {
        CommandView::Quit
    } else if verb == "print_csv"@ {
        CommandView::PrintCsv
    } else if verb == "filter"@ {
        if words.len() == 2 {
            CommandView::Filter(words[1])
        } else {
            CommandView::Filter(Seq::empty())
        }
    } else {
        CommandView::Unknown
    }
}

/// The command that the words of a line make.
pub open spec fn command_of(words: Seq<Seq<char>>) -> CommandView {
    if words.len() < 1 {
        CommandView::Nothing
    } else {
        command_with(lowercase(words[0]), words)
    }
}

/// The command that a line makes.
pub open spec fn command_of_line(line: Seq<char>) -> CommandView {
    match shlex_split(line) {
        None => CommandView::Unparsed,
        Some(words) => command_of(words),
    }
}

/// The command that the words of a line make, where `verb` is the first
/// word in lower case.
pub fn command_for(verb: &str, words: &Vec<String>) -> (r: Command)
    ensures
        r@ == command_with(verb@, words_view(words@)),
{
    if same_text(verb, "open") {
        if words.len() == 2 {
            Command::Open(words[1].clone())
        } else {
            Command::OpenWithoutName
        }
    } else if same_text(verb, "export") {
        if words.len() == 2 {
            Command::Export(words[1].clone())
        } else {
            Command::ExportWithoutName
        }
    } else if same_text(verb, "list") {
        Command::List
    } else if same_text(verb, "close") {
        Command::Close
    } else if same_text(verb, "exit") || same_text(verb, "quit") {
        Command::Quit
    } else if same_text(verb, "print_csv") {
        Command::PrintCsv
    } else if same_text(verb, "filter") {
        if words.len() == 2 {
            Command::Filter(words[1].clone())
        } else {
            Command::Filter(String::new())
        }
    } else {
        Command::Unknown
    }
}

/// The command that the words of a line make. The first word counts
/// whatever its case.
pub fn interpret(words: &Vec<String>) -> (r: Command)
    ensures
        r@ == command_of(words_view(words@)),
{
    if words.len() < 1 {
        return Command::Nothing;
    }
    let verb = to_lowercase(words[0].as_str());
    command_for(verb.as_str(), words)
}

/// The command that a line makes.
pub fn interpret_line(line: &str) -> (r: Command)
    ensures
        r@ == command_of_line(line@),
{
    match split_line(line) {
        None => Command::Unparsed,
        Some(words) => interpret(&words),
    }
}

/// What the shell has to tell its user.
#[derive(Debug, Clone, Copy, PartialEq, Eq, Structural)]
pub enum Notice {
    OpenTakesOneArg,
    ExportTakesOneArg,
    NoPackFileLoaded,
    UnknownCommand,
    UnableToParse,
}

impl Notice {
    /// The words of the notice.
    pub fn text(&self) -> (r: &'static str)
        ensures
            r@ == match self {
                Notice::OpenTakesOneArg => "Open takes 1 arg"@,
                Notice::ExportTakesOneArg => "Export takes 1 arg"@,
                Notice::NoPackFileLoaded => "No pack file loaded!"@,
                Notice::UnknownCommand => "Unknown command"@,
                Notice::UnableToParse => "Unable to parse line"@,
            },
    {
        match self {
            Notice::OpenTakesOneArg => "Open takes 1 arg",
            Notice::ExportTakesOneArg => "Export takes 1 arg",
            Notice::NoPackFileLoaded => "No pack file loaded!",
            Notice::UnknownCommand => "Unknown command",
            Notice::UnableToParse => "Unable to parse line",
        }
    }
}

/// What the program is to do after a command, as a value.
pub enum ActionView {
    Nothing,
    OpenPak(Seq<char>),
    OpenNode(Seq<char>),
    Export(Seq<char>),
    List,
    PrintCsv,
    ClosePak,
    Say(Notice),
}

/// What the program is to do after a command.
#[derive(Debug, PartialEq, Eq)]
pub enum Action {
    Nothing,
    /// Open the archive in the file of this name.
    OpenPak(String),
    /// Enter the nested container of this name.
    OpenNode(String),
    /// Write the bytes of the entry of this name to a file.
    Export(String),
    /// List the entries of the current container.
    List,
    /// Print the tree below the current container.
    PrintCsv,
    /// Let go of the archive.
    ClosePak,
    /// Tell the user.
    Say(Notice),
}

impl View for Action {
    type V = ActionView;

    open spec fn view(&self) -> ActionView {
        match self {
            Action::Nothing => ActionView::Nothing,
            Action::OpenPak(name) => ActionView::OpenPak(name@),
            Action::OpenNode(name) => ActionView::OpenNode(name@),
            Action::Export(name) => ActionView::Export(name@),
            Action::List => ActionView::List,
            Action::PrintCsv => ActionView::PrintCsv,
            Action::ClosePak => ActionView::ClosePak,
            Action::Say(notice) => ActionView::Say(*notice),
        }
    }
}

/// The state of the shell, as a value.
pub struct ShellView {
    /// Entries are listed only where their names start with this.
    pub filter: Seq<char>,
    /// The indices that lead from the root to the current container.
    pub node: Seq<usize>,
    /// Whether the user asked to leave.
    pub exit: bool,
    /// Whether an archive is open.
    pub loaded: bool,
}

/// The state of the shell.
#[derive(Debug)]
pub struct Shell {
    filter: String,
    node: Vec<usize>,
    exit: bool,
    loaded: bool,
}

impl View for Shell {
    type V = ShellView;

    closed spec fn view(&self) -> ShellView {
        ShellView { filter: self.filter@, node: self.node@, exit: self.exit, loaded: self.loaded }
    }
}

/// The state after a command, and what the program is to do.
pub open spec fn next(state: ShellView, command: CommandView) -> (ShellView, ActionView) {
    match command {
        CommandView::Nothing => (state, ActionView::Nothing),
        CommandView::Open(name) => if state.loaded {
            (state, ActionView::OpenNode(name))
        } else {
            (state, ActionView::OpenPak(name))
        },
        CommandView::OpenWithoutName => (state, ActionView::Say(Notice::OpenTakesOneArg)),
        CommandView::Export(name) => (state, ActionView::Export(name)),
        CommandView::ExportWithoutName => (state, ActionView::Say(Notice::ExportTakesOneArg)),
        CommandView::List => if state.loaded {
            (state, ActionView::List)
        } else {
            (state, ActionView::Say(Notice::NoPackFileLoaded))
        },
        CommandView::Close => if state.node.len() == 0 {
            (ShellView { loaded: false, ..state }, ActionView::ClosePak)
        } else {
            (ShellView { node: state.node.drop_last(), ..state }, ActionView::Nothing)
        },
        CommandView::Quit => (ShellView { exit: true, ..state }, ActionView::Nothing),
        CommandView::PrintCsv => if state.loaded {
            (state, ActionView::PrintCsv)
        } else {
            (state, ActionView::Say(Notice::NoPackFileLoaded))
        },
        CommandView::Filter(text) => (ShellView { filter: text, ..state }, ActionView::Nothing),
        CommandView::Unknown => (state, ActionView::Say(Notice::UnknownCommand)),
        CommandView::Unparsed => (state, ActionView::Say(Notice::UnableToParse)),
    }
}

impl Shell {
    /// A shell with no archive open, at the root, with no filter.
    pub fn new() -> (r: Self)
        ensures
            r@ == (ShellView { filter: Seq::empty(), node: Seq::empty(), exit: false, loaded: false }),
    {
        Shell { filter: String::new(), node: Vec::new(), exit: false, loaded: false }
    }

    pub fn filter(&self) -> (r: &String)
        ensures
            r@ == self@.filter,
    {
        &self.filter
    }

    /// The indices that lead from the root to the current container.
    pub fn node(&self) -> (r: &Vec<usize>)
        ensures
            r@ == self@.node,
    {
        &self.node
    }

    /// Whether the user asked to leave.
    pub fn should_exit(&self) -> (r: bool)
        ensures
            r == self@.exit,
    {
        self.exit
    }

    /// Whether an archive is open.
    pub fn is_loaded(&self) -> (r: bool)
        ensures
            r == self@.loaded,
    {
        self.loaded
    }

    /// Takes a command: changes the state and says what the program is to
    /// do.
    pub fn step(&mut self, command: Command) -> (r: Action)
        ensures
            (final(self)@, r@) == next(old(self)@, command@),
    {
        match command {
            Command::Nothing => Action::Nothing,
            Command::Open(name) => if self.loaded {
                Action::OpenNode(name)
            } else {
                Action::OpenPak(name)
            },
            Command::OpenWithoutName => Action::Say(Notice::OpenTakesOneArg),
            Command::Export(name) => Action::Export(name),
            Command::ExportWithoutName => Action::Say(Notice::ExportTakesOneArg),
            Command::List => if self.loaded {
                Action::List
            } else {
                Action::Say(Notice::NoPackFileLoaded)
            },
            Command::Close => {
                if self.node.len() == 0 {
                    self.loaded = false;
                    Action::ClosePak
                } else {
                    self.node.pop();
                    Action::Nothing
                }
            },
            Command::Quit => {
                self.exit = true;
                Action::Nothing
            },
            Command::PrintCsv => if self.loaded {
                Action::PrintCsv
            } else {
                Action::Say(Notice::NoPackFileLoaded)
            },
            Command::Filter(text) => {
                self.filter = text;
                Action::Nothing
            },
            Command::Unknown => Action::Say(Notice::UnknownCommand),
            Command::Unparsed => Action::Say(Notice::UnableToParse),
        }
    }

    /// Records that an archive was opened.
    pub fn pak_opened(&mut self)
        ensures
            final(self)@ == (ShellView { loaded: true, ..old(self)@ }),
    {
        self.loaded = true;
    }

    /// Records that the nested container with this index was entered.
    pub fn node_entered(&mut self, index: usize)
        ensures
            final(self)@ == (ShellView { node: old(self)@.node.push(index), ..old(self)@ }),
    {
        self.node.push(index);
    }
}

} // verus!
