use dgit::command::{select_command, Command};

fn args(words: &[&str]) -> Vec<String> {
    words.iter().map(|w| w.to_string()).collect()
}

#[test]
fn no_command_given() {
    assert_eq!(select_command(&args(&["dgit"])), Command::Missing);
}

#[test]
fn each_command_word_is_recognised() {
    assert_eq!(select_command(&args(&["dgit", "init"])), Command::Init);
    assert_eq!(select_command(&args(&["dgit", "status"])), Command::Status);
    assert_eq!(select_command(&args(&["dgit", "stage", "a.b"])), Command::Stage);
    assert_eq!(select_command(&args(&["dgit", "unstage", "a.b"])), Command::Unstage);
    assert_eq!(select_command(&args(&["dgit", "commit"])), Command::Commit);
    assert_eq!(select_command(&args(&["dgit", "remove", "a.b"])), Command::Remove);
    assert_eq!(select_command(&args(&["dgit", "log"])), Command::Log);
}

#[test]
fn other_words_are_invalid() {
    assert_eq!(select_command(&args(&["dgit", "push"])), Command::Invalid);
    assert_eq!(select_command(&args(&["dgit", "Status"])), Command::Invalid);
    assert_eq!(select_command(&args(&["dgit", ""])), Command::Invalid);
}
