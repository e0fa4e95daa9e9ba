use ratto::box_model::{BorderPreset, Sides};
use ratto::dashboard_file::{DashboardError, DashboardFile, LayoutDecl, PaneDecl};
use ratto::duration::parse_interval;
use ratto::registry::{Composition, LayoutNode, SourceId};

/// The smallest legal pane: a name, a command, a declared height.
fn pane(name: &str, command: &[&str]) -> PaneDecl {
    PaneDecl {
        name: Some(name.to_string()),
        command: Some(command.iter().map(|s| s.to_string()).collect()),
        height: Some(3),
        ..PaneDecl::default()
    }
}

fn file(panes: Vec<PaneDecl>) -> DashboardFile {
    DashboardFile {
        panes,
        ..DashboardFile::default()
    }
}

fn err_of(file: DashboardFile) -> String {
    file.into_registry().unwrap_err().message()
}

#[test]
fn defaults_fall_through_to_every_pane() {
    let decl = DashboardFile {
        defaults: PaneDecl {
            interval: Some("30s".to_string()),
            border: Some("rounded".to_string()),
            padding: Some("0 1".to_string()),
            height: Some(5),
            ..PaneDecl::default()
        },
        panes: vec![
            PaneDecl {
                height: Some(4),
                ..pane("a", &["date"])
            },
            PaneDecl {
                height: Some(4),
                ..pane("b", &["date"])
            },
        ],
        ..DashboardFile::default()
    };
    let registry = decl.into_registry().expect("registry");
    assert_eq!(registry.len(), 2);
    for id in registry.ids() {
        assert_eq!(registry.spec(id).interval, Some(30_000));
        let box_ = registry.pane(id).expect("a declared pane");
        assert_eq!(box_.border, BorderPreset::Rounded);
        assert_eq!(
            box_.padding,
            Sides {
                top: 0,
                right: 1,
                bottom: 0,
                left: 1
            }
        );
    }
}

#[test]
fn a_pane_overrides_a_default() {
    let decl = DashboardFile {
        defaults: PaneDecl {
            interval: Some("30s".to_string()),
            height: Some(5),
            ..PaneDecl::default()
        },
        panes: vec![
            PaneDecl {
                interval: Some("2s".to_string()),
                height: Some(9),
                ..pane("fast", &["date"])
            },
            pane("slow", &["date"]),
        ],
        ..DashboardFile::default()
    };
    let registry = decl.into_registry().expect("registry");
    assert_eq!(registry.spec(SourceId(0)).interval, Some(2_000));
    assert_eq!(registry.pane(SourceId(0)).expect("pane").height, 9);
    // The pane that said nothing still gets the defaults.
    assert_eq!(registry.spec(SourceId(1)).interval, Some(30_000));
    assert_eq!(registry.pane(SourceId(1)).expect("pane").height, 3);
}

#[test]
fn interval_never_means_no_deadline() {
    let decl = file(vec![PaneDecl {
        interval: Some("never".to_string()),
        ..pane("manual", &["date"])
    }]);
    let registry = decl.into_registry().expect("registry");
    assert_eq!(registry.spec(SourceId(0)).interval, None);
    assert!(parse_interval("never").is_err());
}

#[test]
fn no_interval_and_no_trigger_defaults_to_two_seconds() {
    let registry = file(vec![pane("plain", &["date"])])
        .into_registry()
        .expect("registry");
    assert_eq!(registry.spec(SourceId(0)).interval, Some(2_000));
}

#[test]
fn no_interval_with_a_trigger_is_trigger_only() {
    let decl = file(vec![PaneDecl {
        trigger: Some(vec!["file:./state".to_string()]),
        ..pane("watched", &["date"])
    }]);
    let registry = decl.into_registry().expect("registry");
    assert_eq!(registry.spec(SourceId(0)).interval, None);
    assert_eq!(registry.spec(SourceId(0)).triggers.len(), 1);
}

#[test]
fn a_duplicate_pane_name_is_rejected() {
    let err = err_of(file(vec![pane("git", &["date"]), pane("git", &["date"])]));
    assert!(err.contains("git"), "{err}");
    assert!(err.contains("twice") || err.contains("duplicate"), "{err}");
}

#[test]
fn an_unknown_overflow_names_the_two_values() {
    let err = err_of(file(vec![PaneDecl {
        overflow: Some("keep-middle".to_string()),
        ..pane("log", &["date"])
    }]));
    assert!(err.contains("log"), "{err}");
    assert!(err.contains("keep-top"), "{err}");
    assert!(err.contains("keep-bottom"), "{err}");
}

#[test]
fn a_bad_trigger_spec_names_the_pane_and_the_schemes() {
    let err = err_of(file(vec![PaneDecl {
        trigger: Some(vec!["/tmp/state.json".to_string()]),
        ..pane("build", &["date"])
    }]));
    assert!(err.contains("build"), "{err}");
    assert!(err.contains("file:"), "{err}");
}

#[test]
fn an_absent_layout_stacks_panes_in_declaration_order() {
    let registry = file(vec![
        pane("top", &["date"]),
        pane("middle", &["date"]),
        pane("bottom", &["date"]),
    ])
    .into_registry()
    .expect("registry");
    let Composition::Panes { layout, .. } = registry.composition() else {
        panic!("a dashboard composes panes");
    };
    assert_eq!(
        layout,
        &LayoutNode::Column(vec![
            LayoutNode::Pane(SourceId(0)),
            LayoutNode::Pane(SourceId(1)),
            LayoutNode::Pane(SourceId(2)),
        ])
    );
}

#[test]
fn a_layout_naming_an_unknown_pane_lists_the_declared_names() {
    let decl = DashboardFile {
        panes: vec![pane("git", &["date"]), pane("clock", &["date"])],
        layout: Some(vec![LayoutDecl::Row(vec![
            LayoutDecl::Pane("git".to_string()),
            LayoutDecl::Pane("clok".to_string()),
        ])]),
        ..DashboardFile::default()
    };
    let err = err_of(decl);
    assert!(err.contains("clok"), "{err}");
    assert!(err.contains("clock"), "{err}");
}

#[test]
fn a_shell_pane_keeps_its_script_verbatim() {
    let script = "date +%H:%M | tr -d '\\n'";
    let decl = file(vec![PaneDecl {
        shell: Some(true),
        command: Some(vec![script.to_string()]),
        ..pane("stamp", &["unused"])
    }]);
    let registry = decl.into_registry().expect("registry");
    let spec = registry.spec(SourceId(0));
    assert!(spec.shell);
    assert_eq!(spec.command, vec![script.to_string()]);
}

#[test]
fn an_inherited_command_with_an_overridden_shell_is_rejected() {
    let decl = DashboardFile {
        defaults: PaneDecl {
            shell: Some(true),
            command: Some(vec!["printf inherited".to_string()]),
            height: Some(3),
            ..PaneDecl::default()
        },
        panes: vec![PaneDecl {
            name: Some("plain".to_string()),
            shell: Some(false),
            ..PaneDecl::default()
        }],
        ..DashboardFile::default()
    };
    let err = decl.into_registry().unwrap_err().message();
    assert!(err.contains("plain"), "{err}");
    assert!(err.contains("shell"), "{err}");
    assert!(err.contains("command"), "{err}");

    let reverse = DashboardFile {
        defaults: PaneDecl {
            command: Some(vec!["git".to_string(), "status".to_string()]),
            height: Some(3),
            ..PaneDecl::default()
        },
        panes: vec![PaneDecl {
            name: Some("shelly".to_string()),
            shell: Some(true),
            ..PaneDecl::default()
        }],
        ..DashboardFile::default()
    };
    assert!(reverse.into_registry().is_err());

    // Matching modes inherit fine.
    let ok = DashboardFile {
        defaults: PaneDecl {
            command: Some(vec!["date".to_string()]),
            height: Some(3),
            ..PaneDecl::default()
        },
        panes: vec![
            pane("fine", &["unused"]),
            PaneDecl {
                name: Some("inheriting".to_string()),
                command: None,
                ..pane("inheriting", &["unused"])
            },
        ],
        ..DashboardFile::default()
    };
    assert!(ok.into_registry().is_ok());
}

#[test]
fn a_nested_layout_resolves_rows_within_rows() {
    let decl = DashboardFile {
        panes: vec![
            pane("a", &["date"]),
            pane("b", &["date"]),
            pane("c", &["date"]),
        ],
        layout: Some(vec![LayoutDecl::Row(vec![
            LayoutDecl::Column(vec![
                LayoutDecl::Pane("a".to_string()),
                LayoutDecl::Pane("b".to_string()),
            ]),
            LayoutDecl::Pane("c".to_string()),
        ])]),
        ..DashboardFile::default()
    };
    let registry = decl.into_registry().expect("registry");
    let Composition::Panes { layout, .. } = registry.composition() else {
        panic!("a dashboard composes panes");
    };
    assert_eq!(
        layout,
        &LayoutNode::Column(vec![LayoutNode::Row(vec![
            LayoutNode::Column(vec![
                LayoutNode::Pane(SourceId(0)),
                LayoutNode::Pane(SourceId(1)),
            ]),
            LayoutNode::Pane(SourceId(2)),
        ])])
    );
}

#[test]
fn nested_layout_errors_still_name_the_pane() {
    let dup = DashboardFile {
        panes: vec![pane("a", &["date"]), pane("b", &["date"])],
        layout: Some(vec![LayoutDecl::Row(vec![
            LayoutDecl::Pane("a".to_string()),
            LayoutDecl::Column(vec![
                LayoutDecl::Pane("b".to_string()),
                LayoutDecl::Pane("a".to_string()),
            ]),
        ])]),
        ..DashboardFile::default()
    };
    let err = dup.into_registry().unwrap_err().message();
    assert!(err.contains("\"a\"") && err.contains("twice"), "{err}");

    let empty = DashboardFile {
        panes: vec![pane("a", &["date"])],
        layout: Some(vec![
            LayoutDecl::Pane("a".to_string()),
            LayoutDecl::Column(Vec::new()),
        ]),
        ..DashboardFile::default()
    };
    let err = empty.into_registry().unwrap_err().message();
    assert!(err.contains("empty"), "{err}");
}

#[test]
fn a_pane_without_a_height_names_the_defaults_key() {
    let err = err_of(file(vec![PaneDecl {
        height: None,
        ..pane("sizeless", &["date"])
    }]));
    assert!(err.contains("sizeless"), "{err}");
    assert!(err.contains("height"), "{err}");
    assert!(err.contains("defaults"), "{err}");
}

#[test]
fn no_panes_and_a_named_default_are_refused() {
    assert_eq!(file(Vec::new()).into_registry().unwrap_err(), DashboardError::NoPanes);
    let named_default = DashboardFile {
        defaults: PaneDecl {
            name: Some("x".to_string()),
            ..PaneDecl::default()
        },
        panes: vec![pane("a", &["date"])],
        ..DashboardFile::default()
    };
    assert_eq!(
        named_default.into_registry().unwrap_err(),
        DashboardError::NameInDefaults
    );
}

#[test]
fn an_unnamed_pane_is_numbered_from_one() {
    let err = file(vec![
        pane("a", &["date"]),
        PaneDecl {
            name: None,
            ..pane("x", &["date"])
        },
    ])
    .into_registry()
    .unwrap_err();
    assert_eq!(err, DashboardError::Unnamed { number: 2 });
    assert_eq!(err.message(), "pane #2: every pane needs a `name`");
}

#[test]
fn a_pane_left_out_of_the_layout_is_named() {
    let decl = DashboardFile {
        panes: vec![pane("a", &["date"]), pane("b", &["date"])],
        layout: Some(vec![LayoutDecl::Pane("a".to_string())]),
        ..DashboardFile::default()
    };
    assert_eq!(
        decl.into_registry().unwrap_err(),
        DashboardError::NeverPlaced {
            name: "b".to_string()
        }
    );
    let empty = DashboardFile {
        panes: vec![pane("a", &["date"])],
        layout: Some(Vec::new()),
        ..DashboardFile::default()
    };
    assert_eq!(empty.into_registry().unwrap_err(), DashboardError::EmptyLayout);
}

#[test]
fn one_cell_rows_and_columns_collapse_at_every_depth() {
    let decl = LayoutDecl::Row(vec![LayoutDecl::Column(vec![
        LayoutDecl::Row(vec![
            LayoutDecl::Pane("a".to_string()),
            LayoutDecl::Column(vec![LayoutDecl::Pane("b".to_string())]),
        ]),
    ])]);
    assert_eq!(
        decl.normalized(),
        LayoutDecl::Row(vec![
            LayoutDecl::Pane("a".to_string()),
            LayoutDecl::Pane("b".to_string()),
        ])
    );
    let empty = LayoutDecl::Column(Vec::new());
    assert_eq!(empty.normalized(), LayoutDecl::Column(Vec::new()));
}

#[test]
fn a_bad_width_and_border_name_their_tokens() {
    let err = err_of(file(vec![PaneDecl {
        width: Some("wide".to_string()),
        ..pane("w", &["date"])
    }]));
    assert_eq!(
        err,
        "pane \"w\": invalid width \"wide\": expected CELLS, Nfr, or auto"
    );
    let err = err_of(file(vec![PaneDecl {
        border: Some("fancy".to_string()),
        ..pane("b", &["date"])
    }]));
    assert!(err.contains("\"fancy\""), "{err}");
    assert!(err.contains("rounded"), "{err}");
}

/// The pane names a declaration places, in order.
fn placed(d: &LayoutDecl) -> Vec<String> {
    match d {
        LayoutDecl::Pane(n) => vec![n.clone()],
        LayoutDecl::Row(c) | LayoutDecl::Column(c) => c.iter().flat_map(placed).collect(),
    }
}

#[test]
fn normalizing_keeps_pane_order_and_is_idempotent() {
    let decl = LayoutDecl::Column(vec![
        LayoutDecl::Row(vec![LayoutDecl::Pane("a".to_string())]),
        LayoutDecl::Row(vec![
            LayoutDecl::Pane("b".to_string()),
            LayoutDecl::Column(vec![LayoutDecl::Row(vec![LayoutDecl::Pane("c".to_string())])]),
        ]),
    ]);
    let once = decl.normalized();
    assert_eq!(
        once,
        LayoutDecl::Column(vec![
            LayoutDecl::Pane("a".to_string()),
            LayoutDecl::Row(vec![LayoutDecl::Pane("b".to_string()), LayoutDecl::Pane("c".to_string())]),
        ])
    );
    assert_eq!(placed(&once), vec!["a", "b", "c"]);
    let twice = LayoutDecl::Column(vec![
        LayoutDecl::Pane("a".to_string()),
        LayoutDecl::Row(vec![LayoutDecl::Pane("b".to_string()), LayoutDecl::Pane("c".to_string())]),
    ])
    .normalized();
    assert_eq!(twice, once);
}
