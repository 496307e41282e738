use cs_flythrough::config::{resolve_map_name, MapSelection};

#[test]
fn command_line_map_wins() {
    let name = resolve_map_name(&Some("cs_office".to_string()), &Some("de_aztec".to_string()));
    assert_eq!(name, "cs_office");
}

#[test]
fn configured_map_used_without_override() {
    assert_eq!(resolve_map_name(&None, &Some("de_aztec".to_string())), "de_aztec");
}

#[test]
fn default_map_is_dust2() {
    assert_eq!(resolve_map_name(&None, &None), "de_dust2");
}

#[test]
fn map_selection_variants_differ() {
    assert_eq!(MapSelection::Single, MapSelection::Single);
    assert_ne!(MapSelection::Single, MapSelection::List);
    assert_ne!(MapSelection::List, MapSelection::All);
}
