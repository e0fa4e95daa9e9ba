use ratto::dashboard_file::LayoutDecl;
use ratto::dashboard_toml::{assemble, pane_decl, TomlCommand, TomlError, TomlFile, TomlPane, TomlRow};

fn table(name: Option<&str>) -> TomlPane {
    TomlPane {
        name: name.map(|n| n.to_string()),
        command: None,
        shell: None,
        interval: None,
        trigger: None,
        trigger_debounce: None,
        height: None,
        width: None,
        overflow: None,
        border: None,
        padding: None,
        title: None,
        chrome: None,
    }
}

fn pane(name: &str, command: TomlCommand) -> TomlPane {
    TomlPane { command: Some(command), height: Some(3), ..table(Some(name)) }
}

fn file(defaults: Option<TomlPane>, panes: Vec<TomlPane>) -> TomlFile {
    TomlFile { gap: None, row_gap: None, defaults, panes, layout: None }
}

fn words(ws: &[&str]) -> Option<Vec<String>> {
    Some(ws.iter().map(|w| w.to_string()).collect())
}

#[test]
fn a_command_array_skips_word_splitting() {
    let argv = vec!["sh".to_string(), "-c".to_string(), "echo one two".to_string()];
    let f = assemble(&file(None, vec![pane("a", TomlCommand::Many(argv))])).expect("reads");
    assert_eq!(f.panes[0].command, words(&["sh", "-c", "echo one two"]));
}

#[test]
fn a_command_string_is_word_split() {
    let f = assemble(&file(None, vec![pane("a", TomlCommand::One("git log --oneline -5".to_string()))]))
        .expect("reads");
    assert_eq!(f.panes[0].command, words(&["git", "log", "--oneline", "-5"]));
    let quoted = assemble(&file(None, vec![pane("a", TomlCommand::One("rat style 'two words'".to_string()))]))
        .expect("reads");
    assert_eq!(quoted.panes[0].command, words(&["rat", "style", "two words"]));
}

#[test]
fn a_shell_pane_keeps_its_script_as_one_word() {
    let defaults = TomlPane { shell: Some(true), ..table(None) };
    let script = "date +%H:%M | tr -d '\\n'";
    let f = assemble(&file(Some(defaults), vec![pane("a", TomlCommand::One(script.to_string()))])).expect("reads");
    assert_eq!(f.panes[0].command, words(&[script]));
    // The pane's own `shell = false` wins over the defaults'.
    let defaults = TomlPane { shell: Some(true), ..table(None) };
    let own = TomlPane { shell: Some(false), ..pane("b", TomlCommand::One("echo 'x y'".to_string())) };
    let f = assemble(&file(Some(defaults), vec![own])).expect("reads");
    assert_eq!(f.panes[0].command, words(&["echo", "x y"]));
}

#[test]
fn an_unbalanced_command_string_is_rejected_naming_the_pane() {
    let err = assemble(&file(None, vec![pane("a", TomlCommand::One("echo 'oops".to_string()))]))
        .expect_err("unbalanced quoting is refused");
    assert_eq!(err, TomlError::Unbalanced("a".to_string()));
    assert!(err.message().contains("\"a\""), "names the pane: {}", err.message());
    assert_eq!(err.message(), "pane \"a\": command has unbalanced quoting (missing closing quote)");
}

#[test]
fn an_unbalanced_default_command_names_the_defaults() {
    let defaults = TomlPane { command: Some(TomlCommand::One("ls \"".to_string())), ..table(None) };
    let err = pane_decl(&defaults, false).expect_err("unbalanced");
    assert_eq!(err, TomlError::Unbalanced("defaults".to_string()));
}

#[test]
fn every_field_carries_over() {
    let p = TomlPane {
        interval: Some("5s".to_string()),
        trigger: Some(vec!["file:a".to_string()]),
        width: Some("2fr".to_string()),
        border: Some("rounded".to_string()),
        chrome: Some(false),
        ..pane("a", TomlCommand::One("date".to_string()))
    };
    let d = pane_decl(&p, false).expect("reads");
    assert_eq!(d.name, Some("a".to_string()));
    assert_eq!(d.command, words(&["date"]));
    assert_eq!(d.interval, Some("5s".to_string()));
    assert_eq!(d.trigger, words(&["file:a"]));
    assert_eq!(d.height, Some(3));
    assert_eq!(d.width, Some("2fr".to_string()));
    assert_eq!(d.border, Some("rounded".to_string()));
    assert_eq!(d.chrome, Some(false));
    assert_eq!(d.shell, None);
}

#[test]
fn layout_rows_become_declarations() {
    let mut f = file(None, vec![pane("a", TomlCommand::One("date".to_string()))]);
    f.gap = Some(2);
    f.layout = Some(vec![
        TomlRow::One("a".to_string()),
        TomlRow::Many(vec!["b".to_string()]),
        TomlRow::Many(vec!["c".to_string(), "d".to_string()]),
    ]);
    let d = assemble(&f).expect("reads");
    assert_eq!(d.gap, Some(2));
    assert_eq!(
        d.layout,
        Some(vec![
            LayoutDecl::Pane("a".to_string()),
            LayoutDecl::Pane("b".to_string()),
            LayoutDecl::Row(vec![LayoutDecl::Pane("c".to_string()), LayoutDecl::Pane("d".to_string())]),
        ])
    );
}
