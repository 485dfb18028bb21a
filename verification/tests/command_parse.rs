use paperman::commands::{parse_commands, Command};

fn words(ws: &[&str]) -> Vec<String> {
    ws.iter().map(|w| w.to_string()).collect()
}

#[test]
fn empty_chain_is_a_noop() {
    let cmds = parse_commands(&words(&[])).unwrap();
    assert_eq!(cmds.len(), 0);
}

#[test]
fn single_terminal_commands_parse() {
    assert!(matches!(parse_commands(&words(&["add"])).unwrap()[..], [Command::Add]));
    assert!(matches!(parse_commands(&words(&["remove"])).unwrap()[..], [Command::Remove]));
    assert!(matches!(parse_commands(&words(&["print"])).unwrap()[..], [Command::Print]));
    assert!(matches!(parse_commands(&words(&["export"])).unwrap()[..], [Command::Export]));
    assert!(matches!(parse_commands(&words(&["open"])).unwrap()[..], [Command::Open]));
}

#[test]
fn list_and_update_take_their_parameters() {
    let cmds = parse_commands(&words(&["list", "title"])).unwrap();
    match &cmds[..] {
        [Command::List(c)] => assert_eq!(c.field, "title"),
        _ => panic!("expected a list command"),
    }
    let cmds = parse_commands(&words(&["update", "year", "2020"])).unwrap();
    match &cmds[..] {
        [Command::Update(c)] => {
            assert_eq!(c.field, "year");
            assert_eq!(c.value, "2020");
        },
        _ => panic!("expected an update command"),
    }
}

#[test]
fn chains_continue_after_nonterminal_commands() {
    let cmds = parse_commands(&words(&["by", "title", "garcia", "pick", "add"])).unwrap();
    assert_eq!(cmds.len(), 3);
    match &cmds[0] {
        Command::By(c) => {
            assert_eq!(c.field, "title");
            assert_eq!(c.value, "garcia");
        },
        _ => panic!("expected a by command"),
    }
    assert!(matches!(cmds[1], Command::Pick(_)));
    assert!(matches!(cmds[2], Command::Add));
}

#[test]
fn bibtex_commands_chain() {
    let cmds = parse_commands(&words(&["bibtex", "refs.bib", "by", "year", "2020"])).unwrap();
    assert_eq!(cmds.len(), 2);
    match &cmds[0] {
        Command::Bibtex(c) => assert_eq!(c.bibtex, "refs.bib"),
        _ => panic!("expected a bibtex command"),
    }
    let cmds = parse_commands(&words(&["bibtex-stdin", "export"])).unwrap();
    assert_eq!(cmds.len(), 2);
    assert!(matches!(cmds[0], Command::BibtexStdin));
    assert!(matches!(cmds[1], Command::Export));
}

#[test]
fn malformed_chains_are_rejected() {
    assert!(parse_commands(&words(&["add", "extra"])).is_none());
    assert!(parse_commands(&words(&["list"])).is_none());
    assert!(parse_commands(&words(&["update", "year"])).is_none());
    assert!(parse_commands(&words(&["by", "title"])).is_none());
    assert!(parse_commands(&words(&["bibtex"])).is_none());
    assert!(parse_commands(&words(&["frobnicate"])).is_none());
    assert!(parse_commands(&words(&["by", "title", "x", "nonsense"])).is_none());
}

#[test]
fn nonterminal_chain_may_end_without_a_terminal() {
    let cmds = parse_commands(&words(&["by", "title", "x"])).unwrap();
    assert_eq!(cmds.len(), 1);
}
