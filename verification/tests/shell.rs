use paktool::shell::{command_for, interpret, interpret_line, Action, Command, Notice, Shell};

fn words(list: &[&str]) -> Vec<String> {
    list.iter().map(|w| w.to_string()).collect()
}

#[test]
fn lines_are_split_as_a_shell_would() {
    assert_eq!(interpret_line("open archive.pak"), Command::Open("archive.pak".to_string()));
    assert_eq!(
        interpret_line("open \"my archive.pak\""),
        Command::Open("my archive.pak".to_string())
    );
    assert_eq!(interpret_line("export 'a b'"), Command::Export("a b".to_string()));
    assert_eq!(interpret_line("   list   "), Command::List);
    assert_eq!(interpret_line(""), Command::Nothing);
    assert_eq!(interpret_line("   "), Command::Nothing);
}

#[test]
fn unfinished_quotation_cannot_be_parsed() {
    assert_eq!(interpret_line("open \"unfinished"), Command::Unparsed);
    assert_eq!(interpret_line("open trailing\\"), Command::Unparsed);
}

#[test]
fn first_word_counts_whatever_its_case() {
    assert_eq!(interpret_line("OPEN x"), Command::Open("x".to_string()));
    assert_eq!(interpret_line("Quit"), Command::Quit);
    assert_eq!(interpret_line("eXiT"), Command::Quit);
    assert_eq!(interpret_line("Print_CSV"), Command::PrintCsv);
    assert_eq!(interpret_line("filter ABC"), Command::Filter("ABC".to_string()));
}

#[test]
fn commands_take_their_arguments() {
    assert_eq!(interpret(&words(&["open"])), Command::OpenWithoutName);
    assert_eq!(interpret(&words(&["open", "a", "b"])), Command::OpenWithoutName);
    assert_eq!(interpret(&words(&["export"])), Command::ExportWithoutName);
    assert_eq!(interpret(&words(&["export", "a", "b"])), Command::ExportWithoutName);
    assert_eq!(interpret(&words(&["filter"])), Command::Filter(String::new()));
    assert_eq!(interpret(&words(&["filter", "a", "b"])), Command::Filter(String::new()));
    assert_eq!(interpret(&words(&["close", "ignored"])), Command::Close);
    assert_eq!(interpret(&words(&["nonsense"])), Command::Unknown);
    assert_eq!(interpret(&words(&[])), Command::Nothing);
}

#[test]
fn verb_is_taken_as_given() {
    assert_eq!(command_for("list", &words(&["whatever"])), Command::List);
    assert_eq!(command_for("LIST", &words(&["LIST"])), Command::Unknown);
    assert_eq!(command_for("open", &words(&["x", "y"])), Command::Open("y".to_string()));
}

#[test]
fn open_means_the_archive_first_and_a_container_after() {
    let mut shell = Shell::new();
    assert!(!shell.is_loaded());
    assert_eq!(
        shell.step(Command::Open("a.pak".to_string())),
        Action::OpenPak("a.pak".to_string())
    );
    assert!(!shell.is_loaded());
    shell.pak_opened();
    assert!(shell.is_loaded());
    assert_eq!(
        shell.step(Command::Open("inner".to_string())),
        Action::OpenNode("inner".to_string())
    );
    assert_eq!(shell.node().len(), 0);
    shell.node_entered(3);
    shell.node_entered(1);
    assert_eq!(shell.node(), &vec![3, 1]);
}

#[test]
fn close_leaves_the_container_then_the_archive() {
    let mut shell = Shell::new();
    shell.pak_opened();
    shell.node_entered(2);
    shell.node_entered(5);
    assert_eq!(shell.step(Command::Close), Action::Nothing);
    assert_eq!(shell.node(), &vec![2]);
    assert_eq!(shell.step(Command::Close), Action::Nothing);
    assert_eq!(shell.node().len(), 0);
    assert!(shell.is_loaded());
    assert_eq!(shell.step(Command::Close), Action::ClosePak);
    assert!(!shell.is_loaded());
    assert_eq!(shell.step(Command::Close), Action::ClosePak);
}

#[test]
fn listing_needs_an_archive() {
    let mut shell = Shell::new();
    assert_eq!(shell.step(Command::List), Action::Say(Notice::NoPackFileLoaded));
    assert_eq!(shell.step(Command::PrintCsv), Action::Say(Notice::NoPackFileLoaded));
    shell.pak_opened();
    assert_eq!(shell.step(Command::List), Action::List);
    assert_eq!(shell.step(Command::PrintCsv), Action::PrintCsv);
    assert_eq!(shell.step(Command::Export("x".to_string())), Action::Export("x".to_string()));
}

#[test]
fn filter_and_quit_change_the_state() {
    let mut shell = Shell::new();
    assert_eq!(shell.filter(), "");
    assert_eq!(shell.step(Command::Filter("abc".to_string())), Action::Nothing);
    assert_eq!(shell.filter(), "abc");
    assert_eq!(shell.step(Command::Filter(String::new())), Action::Nothing);
    assert_eq!(shell.filter(), "");
    assert!(!shell.should_exit());
    assert_eq!(shell.step(Command::Quit), Action::Nothing);
    assert!(shell.should_exit());
}

#[test]
fn mistakes_are_told() {
    let mut shell = Shell::new();
    assert_eq!(shell.step(Command::OpenWithoutName), Action::Say(Notice::OpenTakesOneArg));
    assert_eq!(shell.step(Command::ExportWithoutName), Action::Say(Notice::ExportTakesOneArg));
    assert_eq!(shell.step(Command::Unknown), Action::Say(Notice::UnknownCommand));
    assert_eq!(shell.step(Command::Unparsed), Action::Say(Notice::UnableToParse));
    assert_eq!(shell.step(Command::Nothing), Action::Nothing);
    assert_eq!(Notice::OpenTakesOneArg.text(), "Open takes 1 arg");
    assert_eq!(Notice::ExportTakesOneArg.text(), "Export takes 1 arg");
    assert_eq!(Notice::NoPackFileLoaded.text(), "No pack file loaded!");
    assert_eq!(Notice::UnknownCommand.text(), "Unknown command");
    assert_eq!(Notice::UnableToParse.text(), "Unable to parse line");
}
