use hoolamike::templating::find_template_marker;
use hoolamike::variables::{ResolveError, Variable, VariablesContext};

fn context(declared: &[(&str, Option<&str>)], overrides: &[(&str, &str)], games: &[(&str, &str)]) -> VariablesContext {
    VariablesContext {
        variables: declared
            .iter()
            .map(|(name, value)| Variable { name: name.to_string(), value: value.map(|v| v.to_string()) })
            .collect(),
        ttw_config_variables: overrides.iter().map(|(k, v)| (k.to_string(), v.to_string())).collect(),
        game_roots: games.iter().map(|(k, v)| (k.to_string(), v.to_string())).collect(),
    }
}

#[test]
fn marker_splits_at_first_two_percent_signs() {
    assert_eq!(find_template_marker("a%B%c%d%"), Some(("a", "B", "c%d%")));
    assert_eq!(find_template_marker("%%"), Some(("", "", "")));
}

#[test]
fn marker_needs_two_percent_signs() {
    assert_eq!(find_template_marker("plain"), None);
    assert_eq!(find_template_marker("half%open"), None);
    assert_eq!(find_template_marker(""), None);
}

#[test]
fn text_without_marker_is_unchanged() {
    let ctx = context(&[], &[], &[]);
    assert_eq!(ctx.resolve_variable("/no/markers").ok(), Some("/no/markers".to_string()));
    assert_eq!(ctx.resolve_variable("50%").ok(), Some("50%".to_string()));
}

#[test]
fn variable_recursion_resolves_nested_defaults() {
    let ctx = context(&[("ROOT", Some("%BASE%/TTW")), ("BASE", Some("/opt/games"))], &[], &[]);
    assert_eq!(ctx.resolve_variable("%ROOT%/data.ini").ok(), Some("/opt/games/TTW/data.ini".to_string()));
}

#[test]
fn every_marker_of_the_text_is_resolved() {
    let ctx = context(&[("A", Some("x")), ("B", Some("y"))], &[], &[]);
    assert_eq!(ctx.resolve_variable("%A%-%B%").ok(), Some("x-y".to_string()));
}

#[test]
fn resolution_is_idempotent_on_its_output() {
    let ctx = context(&[("ROOT", Some("%BASE%/TTW")), ("BASE", Some("/opt/games"))], &[], &[]);
    let once = ctx.resolve_variable("%ROOT%/data.ini").ok().unwrap();
    let twice = ctx.resolve_variable(&once).ok().unwrap();
    assert_eq!(once, twice);
}

#[test]
fn override_wins_over_default() {
    let ctx = context(&[("DEST", Some("/default"))], &[("DEST", "/chosen")], &[]);
    assert_eq!(ctx.resolve_variable("%DEST%/x").ok(), Some("/chosen/x".to_string()));
}

#[test]
fn empty_default_counts_as_unset() {
    let ctx = context(&[("DEST", Some(""))], &[], &[]);
    assert!(matches!(ctx.resolve_variable("%DEST%"), Err(ResolveError::UndefinedVariable(n)) if n == "DEST"));
}

#[test]
fn empty_override_falls_back_to_default() {
    let ctx = context(&[("DEST", Some("/default"))], &[("DEST", "")], &[]);
    assert_eq!(ctx.resolve_variable("%DEST%").ok(), Some("/default".to_string()));
}

#[test]
fn undeclared_variable_is_an_error() {
    let ctx = context(&[], &[], &[]);
    assert!(matches!(ctx.resolve_variable("a%NOPE%b"), Err(ResolveError::UndefinedVariable(n)) if n == "NOPE"));
}

#[test]
fn builtin_roots_come_from_the_host_games() {
    let ctx = context(&[], &[], &[("Fallout3", "/games/fo3"), ("FalloutNewVegas", "/games/fnv")]);
    assert_eq!(ctx.resolve_variable("%FO3ROOT%/Data").ok(), Some("/games/fo3/Data".to_string()));
    assert_eq!(ctx.resolve_variable("%FNVROOT%").ok(), Some("/games/fnv".to_string()));
}

#[test]
fn missing_game_is_an_unknown_builtin() {
    let ctx = context(&[], &[], &[("Fallout3", "/games/fo3")]);
    assert!(matches!(ctx.resolve_variable("%FNVROOT%"), Err(ResolveError::UnknownBuiltin(n)) if n == "FNVROOT"));
}

#[test]
fn self_reference_is_a_cycle() {
    let ctx = context(&[("A", Some("%B%")), ("B", Some("%A%"))], &[], &[]);
    assert!(matches!(ctx.resolve_variable("%A%"), Err(ResolveError::VariableCycle)));
}

#[test]
fn later_declaration_of_a_name_wins() {
    let ctx = context(&[("A", Some("first")), ("A", Some("second"))], &[("B", "one"), ("B", "two")], &[]);
    assert_eq!(ctx.resolve_variable("%A%-%B%").ok(), Some("second-two".to_string()));
}
