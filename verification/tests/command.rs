use inverted_index::command::{parse_command, Command};

#[test]
fn shell_commands_are_recognised() {
    assert_eq!(
        parse_command("build data/sample.txt\n"),
        Command::Build("data/sample.txt".to_owned())
    );
    assert_eq!(parse_command("  lookup rust "), Command::Lookup("rust".to_owned()));
    assert_eq!(
        parse_command("lookup-stats\tmmap"),
        Command::LookupStats("mmap".to_owned())
    );
    assert_eq!(parse_command(" \n"), Command::Empty);
    assert_eq!(parse_command("lookup"), Command::Unknown);
    assert_eq!(parse_command("lookup a b"), Command::Unknown);
    assert_eq!(parse_command("Lookup rust"), Command::Unknown);
    assert_eq!(parse_command("search rust"), Command::Unknown);
}
