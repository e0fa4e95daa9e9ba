use ratto::dashboard_file::LayoutDecl;
use ratto::dashboard_kdl::{load_text, parse, KdlError, LoadError};

const KDL_FIXTURE: &str = r#"
gap 1

defaults {
    interval "5s"
    border "rounded"
    padding "0 1"
    height 7
}

pane "clock" {
    command "date +%H:%M:%S"
    interval "60s"
    trigger "file:./stamp" "file:./notes"
    height 16
    width "2fr"
}

pane "branch" {
    command "git" "branch" "--show-current"
}

pane "notes" {
    command "rat style hello"
    interval "never"
}

layout {
    row "clock"
    row "branch" "notes"
}
"#;

#[test]
fn the_fixture_parses_to_the_declared_dashboard() {
    let from_kdl = parse(KDL_FIXTURE).expect("kdl parses");
    assert_eq!(from_kdl.gap, Some(1));
    assert_eq!(from_kdl.panes.len(), 3);
    assert_eq!(
        from_kdl.panes[0].command,
        Some(vec!["date".to_string(), "+%H:%M:%S".to_string()])
    );
    assert_eq!(
        from_kdl.panes[1].command,
        Some(vec![
            "git".to_string(),
            "branch".to_string(),
            "--show-current".to_string()
        ])
    );
    assert_eq!(from_kdl.defaults.height, Some(7));
    assert_eq!(
        from_kdl.layout,
        Some(vec![
            LayoutDecl::Pane("clock".to_string()),
            LayoutDecl::Row(vec![
                LayoutDecl::Pane("branch".to_string()),
                LayoutDecl::Pane("notes".to_string()),
            ]),
        ])
    );
}

#[test]
fn nested_layout_blocks_reach_the_recursive_declaration() {
    let kdl = parse(
        "pane \"a\" {\n    height 3\n    command \"date\"\n}\npane \"b\" {\n    height 3\n    command \"date\"\n}\npane \"c\" {\n    height 3\n    command \"date\"\n}\nlayout {\n    row {\n        column \"a\" \"b\"\n        column \"c\"\n    }\n}\n",
    )
    .expect("kdl parses");
    assert_eq!(
        kdl.layout,
        Some(vec![LayoutDecl::Row(vec![
            LayoutDecl::Column(vec![
                LayoutDecl::Pane("a".to_string()),
                LayoutDecl::Pane("b".to_string()),
            ]),
            LayoutDecl::Pane("c".to_string()),
        ])])
    );
}

#[test]
fn an_unknown_kdl_node_names_the_accepted_set() {
    let err = parse("pane \"a\" {\n    comand \"date\"\n    height 3\n}\n")
        .unwrap_err()
        .message();
    assert!(err.contains("comand"), "{err}");
    assert!(err.contains("command"), "{err}");
    assert!(err.contains("interval"), "{err}");
}

#[test]
fn an_unbalanced_kdl_command_names_the_pane() {
    let err = parse("pane \"a\" {\n    height 3\n    command \"echo 'oops\"\n}\n")
        .expect_err("unbalanced quoting is a parse error");
    assert_eq!(err, KdlError::Unbalanced("a".to_string()));
    assert!(err.message().contains("\"a\""), "names the pane");
}

#[test]
fn a_negative_kdl_gap_names_the_field() {
    let err = parse("gap -1\n").expect_err("negative gap is a parse error");
    assert_eq!(err.message(), "gap must be a non-negative integer");
    assert_eq!(
        parse("row-gap -1\n").unwrap_err(),
        KdlError::BadCount("row-gap".to_string())
    );
}

#[test]
fn a_negative_kdl_height_names_the_pane() {
    let err = parse("pane \"a\" {\n    height -3\n    command \"date\"\n}\n").unwrap_err();
    assert_eq!(
        err.message(),
        "pane \"a\": height must be a non-negative integer (max 65535)"
    );
    assert!(parse("pane \"a\" {\n    height 65536\n}\n").is_err());
    assert_eq!(
        parse("pane \"a\" {\n    height 65535\n}\n").unwrap().panes[0].height,
        Some(65535)
    );
}

#[test]
fn a_shell_default_keeps_a_kdl_script_whole_wherever_it_stands() {
    // The defaults block comes after the pane: the panes are read last.
    let file = parse(
        "pane \"a\" {\n    command \"date +%H:%M | tr -d x\"\n}\ndefaults {\n    shell #true\n}\n",
    )
    .unwrap();
    assert_eq!(
        file.panes[0].command,
        Some(vec!["date +%H:%M | tr -d x".to_string()])
    );
    assert_eq!(file.defaults.shell, Some(true));
    // The pane's own shell wins over the defaults.
    let own = parse(
        "defaults {\n    shell #true\n}\npane \"a\" {\n    shell #false\n    command \"git log\"\n}\n",
    )
    .unwrap();
    assert_eq!(
        own.panes[0].command,
        Some(vec!["git".to_string(), "log".to_string()])
    );
}

#[test]
fn a_kdl_field_said_twice_keeps_the_last() {
    let file = parse("gap 1\ngap 4\npane \"a\" {\n    title \"x\"\n    title \"y\"\n}\n").unwrap();
    assert_eq!(file.gap, Some(4));
    assert_eq!(file.panes[0].title, Some("y".to_string()));
    assert_eq!(file.row_gap, None);
    assert_eq!(file.layout, None);
}

#[test]
fn kdl_refusals_name_what_they_refuse() {
    assert_eq!(
        parse("pain \"a\"\n").unwrap_err().message(),
        "unknown node \"pain\": expected gap, row-gap, defaults, pane, or layout"
    );
    assert_eq!(
        parse("pane 3\n").unwrap_err(),
        KdlError::NotString("pane".to_string())
    );
    assert_eq!(
        parse("pane\n").unwrap_err(),
        KdlError::NoValue("pane".to_string())
    );
    assert_eq!(
        parse("gap \"x\"\n").unwrap_err().message(),
        "gap: expected an integer"
    );
    assert_eq!(
        parse("pane \"a\" {\n    chrome \"yes\"\n}\n").unwrap_err().message(),
        "chrome: expected #true or #false"
    );
    assert_eq!(
        parse("layout {\n    stack \"a\"\n}\n").unwrap_err().message(),
        "unknown node \"stack\" in layout: expected row or column"
    );
    assert!(matches!(parse("pane \"a\" {"), Err(KdlError::Read(_))));
    assert!(parse("pane \"a\" {")
        .unwrap_err()
        .message()
        .starts_with("reading the dashboard KDL: "));
}

#[test]
fn a_loaded_kdl_text_is_validated() {
    assert!(load_text(KDL_FIXTURE).is_ok());
    assert!(matches!(load_text("gap 1\n"), Err(LoadError::Invalid(_))));
    assert_eq!(
        load_text("gap 1\n").unwrap_err().message(),
        "no panes declared: a dashboard needs at least one pane"
    );
    assert!(matches!(load_text("gap -1\n"), Err(LoadError::Read(_))));
}
