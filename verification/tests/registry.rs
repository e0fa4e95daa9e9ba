use ratto::box_model::{BorderPreset, Sides};
use ratto::registry::{
    allocate_row, Composition, LayoutNode, Overflow, PaneBox, PaneGeometry, PaneWidth, Registry,
    RegistryError, SourceId, SourceSpec, MIN_PANE_CELLS,
};

fn spec(name: &str) -> SourceSpec {
    SourceSpec {
        name: name.to_string(),
        command: vec!["true".to_string()],
        shell: false,
        interval: Some(2000),
        triggers: Vec::new(),
        debounce: 120,
    }
}

/// A rounded, `"0 1"`-padded pane with the status row.
fn pane(height: u16, width: PaneWidth) -> PaneBox {
    PaneBox {
        height,
        width,
        overflow: Overflow::default(),
        border: BorderPreset::Rounded,
        padding: Sides { top: 0, right: 1, bottom: 0, left: 1 },
        title: None,
        chrome: true,
    }
}

fn stacked(n: usize) -> LayoutNode {
    LayoutNode::Column((0..n).map(|i| LayoutNode::Pane(SourceId(i))).collect())
}

#[test]
fn a_row_splits_its_cells_by_weight_and_fixed_cells() {
    let widths = [PaneWidth::Cells(20), PaneWidth::Weight(2), PaneWidth::Weight(1)];
    let cells = allocate_row(80, 1, &widths);
    assert_eq!(cells, vec![20, 39, 19]);
    let used: usize = cells.iter().map(|c| *c as usize).sum();
    assert_eq!(used + 2, 80, "the row must account for every cell");
}

#[test]
fn a_fixed_pane_that_cannot_fit_clamps_at_the_minimum() {
    let cells = allocate_row(20, 1, &[PaneWidth::Cells(30), PaneWidth::Weight(1)]);
    assert_eq!(cells, vec![30, MIN_PANE_CELLS]);
    let used: usize = cells.iter().map(|c| *c as usize).sum();
    assert!(used > 20, "an unfittable row overflows rather than vanishing");
    assert_eq!(
        allocate_row(80, 0, &[PaneWidth::Cells(3), PaneWidth::Weight(1)]),
        vec![MIN_PANE_CELLS, 72]
    );
    assert_eq!(allocate_row(80, 1, &[]), Vec::<u16>::new());
}

#[test]
fn pane_geometry_subtracts_border_padding_and_chrome() {
    let registry =
        Registry::panes(vec![spec("plan")], vec![pane(7, PaneWidth::Weight(1))], stacked(1), 1, 0)
            .unwrap();
    assert_eq!(
        registry.geometry((40, 24)),
        vec![PaneGeometry { cells: 40, rows: 7, inner_cols: 36, inner_rows: 4 }]
    );

    let bare = PaneBox {
        border: BorderPreset::NoBorder,
        padding: Sides::default(),
        chrome: false,
        ..pane(7, PaneWidth::Weight(1))
    };
    let registry = Registry::panes(vec![spec("plan")], vec![bare], stacked(1), 1, 0).unwrap();
    assert_eq!(
        registry.geometry((40, 24)),
        vec![PaneGeometry { cells: 40, rows: 7, inner_cols: 40, inner_rows: 7 }]
    );
}

#[test]
fn the_plain_composition_hands_the_terminal_size_through() {
    let registry = Registry::single(spec("watch"), Some("build".to_string()));
    assert_eq!(registry.len(), 1);
    assert!(!registry.is_empty());
    assert!(registry.pane(SourceId(0)).is_none(), "plain declares no box");
    assert!(matches!(registry.composition(), Composition::Plain { .. }));
    assert_eq!(
        registry.geometry((100, 30)),
        vec![PaneGeometry { cells: 100, rows: 30, inner_cols: 100, inner_rows: 30 }]
    );
}

#[test]
fn a_layout_naming_an_undeclared_pane_is_rejected() {
    let err = Registry::panes(
        vec![spec("plan")],
        vec![pane(7, PaneWidth::Weight(1))],
        LayoutNode::Row(vec![LayoutNode::Pane(SourceId(0)), LayoutNode::Pane(SourceId(1))]),
        1,
        0,
    )
    .unwrap_err()
    .message();
    assert!(err.contains("index 1"), "got {err:?}");
    assert!(err.contains("declared"), "got {err:?}");
}

#[test]
fn a_pane_missing_from_the_layout_is_rejected() {
    let err = Registry::panes(
        vec![spec("plan"), spec("guardrails")],
        vec![pane(7, PaneWidth::Weight(1)), pane(7, PaneWidth::Weight(1))],
        stacked(1),
        1,
        0,
    )
    .unwrap_err()
    .message();
    assert!(err.contains("guardrails"), "the error names the pane: {err:?}");
    assert!(err.contains("layout"), "and where it is missing: {err:?}");
}

#[test]
fn a_pane_placed_twice_is_rejected() {
    let err = Registry::panes(
        vec![spec("git")],
        vec![pane(7, PaneWidth::Weight(1))],
        LayoutNode::Column(vec![LayoutNode::Pane(SourceId(0)), LayoutNode::Pane(SourceId(0))]),
        1,
        0,
    )
    .unwrap_err()
    .message();
    assert!(err.contains("git"), "got {err:?}");
}

#[test]
fn sources_and_panes_must_line_up() {
    let err = Registry::panes(
        vec![spec("plan"), spec("git")],
        vec![pane(7, PaneWidth::Weight(1))],
        stacked(2),
        1,
        0,
    )
    .unwrap_err()
    .message();
    assert!(err.contains('2') && err.contains('1'), "got {err:?}");
}

#[test]
fn a_height_below_its_chrome_is_rejected_and_names_the_pane() {
    let err = Registry::panes(
        vec![spec("guardrails")],
        vec![pane(3, PaneWidth::Weight(1))],
        stacked(1),
        1,
        0,
    )
    .unwrap_err()
    .message();
    assert!(err.contains("guardrails"), "the error names the pane: {err:?}");
    assert!(err.contains('4'), "and the smallest height that works: {err:?}");
    assert!(Registry::panes(
        vec![spec("guardrails")],
        vec![pane(4, PaneWidth::Weight(1))],
        stacked(1),
        1,
        0,
    )
    .is_ok());
}

#[test]
fn ids_walk_the_registry_in_declaration_order() {
    let registry = Registry::panes(
        vec![spec("plan"), spec("git"), spec("guardrails")],
        vec![
            pane(7, PaneWidth::Weight(1)),
            pane(7, PaneWidth::Cells(20)),
            pane(7, PaneWidth::Weight(1)),
        ],
        LayoutNode::Column(vec![
            LayoutNode::Pane(SourceId(0)),
            LayoutNode::Row(vec![LayoutNode::Pane(SourceId(1)), LayoutNode::Pane(SourceId(2))]),
        ]),
        1,
        0,
    )
    .unwrap();
    assert_eq!(registry.ids(), vec![SourceId(0), SourceId(1), SourceId(2)]);
    assert_eq!(registry.spec(SourceId(2)).name, "guardrails");
    let geom = registry.geometry((80, 40));
    assert_eq!(geom[0].cells, 80);
    assert_eq!(geom[1].cells, 20);
    assert_eq!(geom[2].cells, 59);
}

#[test]
fn each_refusal_names_its_kind_exactly() {
    assert_eq!(
        RegistryError::CountMismatch { sources: 2, panes: 1 }.message(),
        "2 sources declared but 1 panes: every source paints into exactly one pane"
    );
    assert_eq!(
        RegistryError::PlacedTwice { name: "git".into(), count: 2 }.message(),
        "pane \"git\" is placed 2 times in the layout; place it once"
    );
    assert_eq!(
        RegistryError::TooShort { name: "g".into(), height: 3, frame: 3 }.message(),
        "pane \"g\" is 3 rows tall, but its border, padding, and status row already take 3: give it at least 4"
    );
}

#[test]
fn a_row_of_equal_weights_hands_the_remainder_leftmost() {
    let cells = allocate_row(
        31,
        0,
        &[PaneWidth::Weight(1), PaneWidth::Weight(1), PaneWidth::Weight(1)],
    );
    assert_eq!(cells, vec![11, 10, 10]);
    let cells = allocate_row(40, 2, &[PaneWidth::Weight(0), PaneWidth::Weight(1)]);
    assert_eq!(cells, vec![19, 19]);
}

#[test]
fn every_pane_geometry_fits_its_own_box() {
    // A row of two beside a full-width pane below: each geometry's rows are
    // its declared height, its inner rows that height less the frame rows
    // (two border rows and the status row), its inner columns its cells
    // less the frame columns (two border columns and two padding columns).
    let layout = LayoutNode::Column(vec![
        LayoutNode::Row(vec![LayoutNode::Pane(SourceId(0)), LayoutNode::Pane(SourceId(1))]),
        LayoutNode::Pane(SourceId(2)),
    ]);
    let registry = Registry::panes(
        vec![spec("a"), spec("b"), spec("c")],
        vec![pane(6, PaneWidth::Weight(1)), pane(9, PaneWidth::Cells(20)), pane(5, PaneWidth::Weight(1))],
        layout,
        1,
        0,
    )
    .expect("a coherent registry");
    let geom = registry.geometry((61, 30));
    assert_eq!(geom.len(), 3);
    let heights = [6u16, 9, 5];
    for (g, h) in geom.iter().zip(heights) {
        assert_eq!(g.rows, h);
        assert_eq!(g.inner_rows, h - 3);
        assert_eq!(g.inner_cols, g.cells - 4);
    }
    assert_eq!(geom[1].cells, 20);
    assert_eq!(geom[0].cells, 40);
    assert_eq!(geom[2].cells, 61);
}
