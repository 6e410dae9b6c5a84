use mancala::command::{string_to_command, Command};

#[test]
fn quit_is_recognised() {
    assert_eq!(string_to_command(String::from("quit")), Command::Quit);
    assert_eq!(string_to_command(String::from("  quit\n")), Command::Quit);
}

#[test]
fn numbers_become_plays() {
    assert_eq!(string_to_command(String::from("3")), Command::Play(3));
    assert_eq!(string_to_command(String::from(" 12 \n")), Command::Play(12));
    assert_eq!(string_to_command(String::from("+4")), Command::Play(4));
    assert_eq!(string_to_command(String::from("0")), Command::Play(0));
    assert_eq!(
        string_to_command(usize::MAX.to_string()),
        Command::Play(usize::MAX)
    );
}

#[test]
fn other_text_is_unknown() {
    assert_eq!(
        string_to_command(String::from("  hello \n")),
        Command::UnknownCommand(String::from("hello"))
    );
    assert_eq!(
        string_to_command(String::from("-1")),
        Command::UnknownCommand(String::from("-1"))
    );
    assert_eq!(
        string_to_command(String::from("+")),
        Command::UnknownCommand(String::from("+"))
    );
    assert_eq!(
        string_to_command(String::from("4x")),
        Command::UnknownCommand(String::from("4x"))
    );
    assert_eq!(string_to_command(String::from("   ")), Command::UnknownCommand(String::new()));
}

#[test]
fn too_large_number_is_unknown() {
    let text = String::from("99999999999999999999999999");
    assert_eq!(string_to_command(text.clone()), Command::UnknownCommand(text));
}
