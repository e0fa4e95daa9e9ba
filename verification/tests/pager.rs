use ratto::color::MapEnv;
use ratto::pager::{resolve_pagers, resolve_with};

fn env(pairs: &[(&str, &str)]) -> MapEnv {
    MapEnv(
        pairs
            .iter()
            .map(|(k, v)| (k.to_string(), v.to_string()))
            .collect(),
    )
}

#[test]
fn defaults_to_less_with_color_flags() {
    let pagers = resolve_pagers(&env(&[]));
    assert_eq!(pagers[0].bin, "less");
    assert_eq!(pagers[0].args, vec!["-R", "-K"]);
}

#[test]
fn rat_pager_beats_pager() {
    let e = env(&[("RAT_PAGER", "moar"), ("PAGER", "most")]);
    assert_eq!(resolve_pagers(&e)[0].bin, "moar");
}

#[test]
fn empty_values_fall_through() {
    let e = env(&[("RAT_PAGER", ""), ("PAGER", "   ")]);
    assert_eq!(resolve_pagers(&e)[0].bin, "less");
}

#[test]
fn quoted_args_parse() {
    let e = env(&[("PAGER", "sh -c 'less -R'")]);
    let pagers = resolve_pagers(&e);
    assert_eq!(pagers[0].bin, "sh");
    assert_eq!(pagers[0].args, vec!["-c", "less -R"]);
}

#[test]
fn user_less_args_kept_and_r_ensured_once() {
    let e = env(&[("PAGER", "less -X")]);
    assert_eq!(resolve_pagers(&e)[0].args, vec!["-X", "-R"]);
    let e = env(&[("PAGER", "less -R -F")]);
    assert_eq!(resolve_pagers(&e)[0].args, vec!["-R", "-F"]);
}

#[test]
fn windows_style_less_path_is_recognized() {
    let e = env(&[("PAGER", "C:/tools/less.exe -F")]);
    assert!(resolve_pagers(&e)[0].args.contains(&"-R".to_string()));
}

#[test]
fn non_less_pagers_are_untouched() {
    let e = env(&[("PAGER", "moar -no-linenumbers")]);
    assert_eq!(resolve_pagers(&e)[0].args, vec!["-no-linenumbers"]);
}

#[test]
fn rat_as_pager_falls_back_to_less() {
    let e = env(&[("PAGER", "rat")]);
    assert_eq!(resolve_pagers(&e)[0].bin, "less");
}

#[test]
fn unparseable_value_falls_back_to_less() {
    let e = env(&[("PAGER", "less 'unclosed")]);
    assert_eq!(resolve_pagers(&e)[0].bin, "less");
}

#[test]
fn windows_default_falls_back_to_the_stock_pager() {
    let pagers = resolve_with(&env(&[]), true);
    assert_eq!(pagers.len(), 2);
    assert_eq!(pagers[0].bin, "less");
    assert_eq!(pagers[1].bin, r"C:\WINDOWS\System32\more.com");
    assert!(pagers[1].args.is_empty());
}

#[test]
fn windows_fallback_honors_systemroot() {
    let e = env(&[("SystemRoot", r"D:\Win")]);
    let pagers = resolve_with(&e, true);
    assert_eq!(pagers[1].bin, r"D:\Win\System32\more.com");
}

#[test]
fn unix_default_has_no_fallback() {
    assert_eq!(resolve_with(&env(&[]), false).len(), 1);
}

#[test]
fn configured_pagers_get_no_fallback() {
    let e = env(&[("RAT_PAGER", "moar")]);
    assert_eq!(resolve_with(&e, true).len(), 1);
    let e = env(&[("PAGER", "less")]);
    assert_eq!(resolve_with(&e, true).len(), 1);
}

#[test]
fn rat_as_pager_regains_the_windows_fallback() {
    let e = env(&[("PAGER", "rat")]);
    assert_eq!(resolve_with(&e, true).len(), 2);
}

#[test]
fn an_uppercase_exe_path_to_rat_still_falls_back() {
    let e = env(&[("PAGER", "/opt/bin/RAT.EXE --flag")]);
    let pagers = resolve_pagers(&e);
    assert_eq!(pagers.len(), 1);
    assert_eq!(pagers[0].bin, "less");
    assert_eq!(pagers[0].args, vec!["-R", "-K"]);
}

#[test]
fn a_padded_value_is_trimmed_before_it_splits() {
    let e = env(&[("PAGER", "  most -s  ")]);
    let pagers = resolve_pagers(&e);
    assert_eq!(pagers[0].bin, "most");
    assert_eq!(pagers[0].args, vec!["-s"]);
}

#[test]
fn a_bare_configured_less_gets_the_default_flags() {
    let e = env(&[("PAGER", "less")]);
    let pagers = resolve_pagers(&e);
    assert_eq!(pagers[0].bin, "less");
    assert_eq!(pagers[0].args, vec!["-R", "-K"]);
    let e = env(&[("PAGER", "less -S")]);
    assert_eq!(resolve_pagers(&e)[0].args, vec!["-S", "-R"]);
}
