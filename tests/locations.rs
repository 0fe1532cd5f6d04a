use hoolamike::locations::{
    read_plan, resolve_locations, write_plan, DispatchError, FullLocation, Location, LocationError, LocationKind,
    MaybeFullLocation, ReadPlan, WritePlan,
};
use hoolamike::paths::{into_path, join};
use hoolamike::selection::contains_all;
use hoolamike::variables::{ResolveError, Variable, VariablesContext};

fn loc(kind: LocationKind, value: &str) -> Location {
    Location { kind, name: "n".to_string(), value: value.to_string() }
}

fn at(location: u8, path: &str) -> FullLocation {
    FullLocation { location, path: path.to_string() }
}

fn ctx() -> VariablesContext {
    VariablesContext {
        variables: vec![Variable { name: "DEST".to_string(), value: Some("/out".to_string()) }],
        ttw_config_variables: vec![],
        game_roots: vec![("Fallout3".to_string(), "/games/fo3".to_string())],
    }
}

#[test]
fn locations_are_resolved_in_order() {
    let raw = vec![loc(LocationKind::Folder, "%FO3ROOT%/Data"), loc(LocationKind::WriteArchive, "%DEST%/O.bsa")];
    let resolved = resolve_locations(&raw, &ctx()).ok().unwrap();
    assert_eq!(resolved[0].value, "/games/fo3/Data");
    assert_eq!(resolved[1].value, "/out/O.bsa");
    assert_eq!(resolved[1].kind, LocationKind::WriteArchive);
}

#[test]
fn unresolved_location_reports_its_position() {
    let raw = vec![loc(LocationKind::Folder, "/fine"), loc(LocationKind::Folder, "%MISSING%")];
    match resolve_locations(&raw, &ctx()) {
        Err(LocationError::Resolve(1, ResolveError::UndefinedVariable(n))) => assert_eq!(n, "MISSING"),
        _ => panic!("expected a resolve error at position 1"),
    }
}

#[test]
fn too_many_locations_are_refused() {
    let raw: Vec<Location> = (0..257).map(|_| loc(LocationKind::Folder, "/x")).collect();
    assert!(matches!(resolve_locations(&raw, &ctx()), Err(LocationError::TooManyLocations)));
    let raw: Vec<Location> = (0..256).map(|_| loc(LocationKind::Folder, "/x")).collect();
    assert!(resolve_locations(&raw, &ctx()).is_ok());
}

#[test]
fn single_file_copy_between_folders() {
    let locations = vec![loc(LocationKind::Folder, "/A"), loc(LocationKind::Folder, "/B")];
    let source = MaybeFullLocation { location: 0, path: None }.lookup_from_both_source_and_target(&at(1, "foo.txt"));
    assert_eq!(source.location, 0);
    assert_eq!(source.path, "foo.txt");
    assert!(matches!(read_plan(&locations, &source), Ok(ReadPlan::File(p)) if p == "/A/foo.txt"));
    assert!(matches!(write_plan(&locations, &at(1, "foo.txt")), Ok(WritePlan::File(p)) if p == "/B/foo.txt"));
}

#[test]
fn explicit_source_path_is_kept() {
    let source = MaybeFullLocation { location: 3, path: Some("own.txt".to_string()) }
        .lookup_from_both_source_and_target(&at(1, "foo.txt"));
    assert_eq!(source.path, "own.txt");
    assert_eq!(source.location, 3);
}

#[test]
fn folder_paths_are_normalized() {
    let locations = vec![loc(LocationKind::Folder, "C:\\Games\\A")];
    match read_plan(&locations, &at(0, "sub\\..\\x\\.\\y.dds")) {
        Ok(ReadPlan::File(p)) => assert_eq!(p, "C:/Games/A/x/y.dds"),
        _ => panic!("expected a file"),
    }
}

#[test]
fn archives_route_through_their_plans() {
    let locations = vec![loc(LocationKind::ReadArchive, "/in/./a.bsa"), loc(LocationKind::WriteArchive, "/out\\tmp\\..\\O.bsa")];
    match read_plan(&locations, &at(0, "meshes\\x.nif")) {
        Ok(ReadPlan::FromArchive { archive, inner }) => {
            assert_eq!(archive, "/in/a.bsa");
            assert_eq!(inner, "meshes/x.nif");
        }
        _ => panic!("expected an archive entry"),
    }
    match write_plan(&locations, &at(1, "textures\\.\\y.dds")) {
        Ok(WritePlan::Queue { archive, inner }) => {
            assert_eq!(archive, "/out/O.bsa");
            assert_eq!(inner, "textures/y.dds");
        }
        _ => panic!("expected a queued entry"),
    }
}

#[test]
fn wrong_directions_and_ids_are_refused() {
    let locations = vec![loc(LocationKind::ReadArchive, "/a.bsa"), loc(LocationKind::WriteArchive, "/O.bsa")];
    assert!(matches!(read_plan(&locations, &at(1, "x")), Err(DispatchError::CannotReadFromWriteArchive)));
    assert!(matches!(write_plan(&locations, &at(0, "x")), Err(DispatchError::CannotWriteIntoReadArchive)));
    assert!(matches!(read_plan(&locations, &at(7, "x")), Err(DispatchError::NoLocation(7))));
    assert!(matches!(write_plan(&locations, &at(2, "x")), Err(DispatchError::NoLocation(2))));
}

#[test]
fn folder_path_collapsing_to_nothing_becomes_dot() {
    let locations = vec![loc(LocationKind::Folder, "x")];
    match write_plan(&locations, &at(0, "..")) {
        Ok(WritePlan::File(p)) => assert_eq!(p, "."),
        _ => panic!("expected a file"),
    }
}

#[test]
fn path_helpers() {
    assert_eq!(into_path("a\\b/c"), "a/b/c");
    assert_eq!(join("/a", "b"), "/a/b");
    assert_eq!(join("/a/", "b"), "/a/b");
    assert_eq!(join("/a", "/b"), "/b");
    assert_eq!(join("", "b"), "b");
}

#[test]
fn asset_selection_needs_every_phrase() {
    let phrases = vec!["foo".to_string(), "bar".to_string()];
    assert!(contains_all("xxbarfooyy", &phrases));
    assert!(!contains_all("xxbaryy", &phrases));
    assert!(contains_all("anything", &vec![]));
    assert!(contains_all("", &vec!["".to_string()]));
}

#[test]
fn debug_helpers_default_to_off() {
    let helpers = hoolamike::debug_helpers::DebugHelpers::default();
    assert!(!helpers.skip_verify_and_downloads);
    assert!(helpers.start_from_directive.is_none());
    assert!(helpers.skip_kind.is_empty());
    assert!(helpers.contains.is_empty());
}
