//! Terminal primitives for shell dashboards: display-width measurement,
//! tables, joins, boxes, bounded line capture and the scheduling state
//! machines behind a live watch loop.

pub mod bar;
pub mod box_model;
pub mod busy;
pub mod cli;
pub mod color;
pub mod dashboard_file;
pub mod dashboard_kdl;
pub mod dashboard_toml;
pub mod datetime;
pub mod decode;
pub mod duration;
pub mod engine;
pub mod exit;
pub mod fuzzy;
pub mod input;
pub mod join;
pub mod layout;
pub mod live;
pub mod log;
pub mod measure;
pub mod pager;
pub mod registry;
pub mod retain;
pub mod schedule;
pub mod snapshot;
pub mod spin;
pub mod style_spec;
pub mod suspicion;
pub mod table;
pub mod text;
pub mod trigger;
pub mod watch;
