use cc_core::game::seed::{CubeType, Location, Movement};
use cc_core::game::toml_source::{Command, Error, Info, MapText, Source};

fn source(raw: &str, commands: Vec<Command>) -> Source {
    Source {
        info: Info { title: "title".to_string(), author: "author".to_string() },
        map: MapText { raw: raw.to_string(), commands },
    }
}

fn loc(x: i32, y: i32) -> Location {
    Location { x, y }
}

#[test]
fn level_reads_cubes_and_destinations() {
    let level = source("R~ x\nW| \n", vec![]).into_level().unwrap();
    assert_eq!(level.info.title, "title");
    assert_eq!(level.size.width, 4);
    assert_eq!(level.size.height, 2);
    assert_eq!(level.cubes.len(), 2);
    assert_eq!(level.cubes[0].kind, CubeType::Red);
    assert_eq!(level.cubes[0].body, vec![loc(0, 0), loc(1, 0), loc(1, 1)]);
    assert_eq!(level.cubes[1].kind, CubeType::White);
    assert_eq!(level.cubes[1].body, vec![loc(0, 1)]);
    assert_eq!(level.destnations, vec![loc(3, 0)]);
}

#[test]
fn level_merges_upper_and_left() {
    let level = source("G~\nG/\n", vec![]).into_level().unwrap();
    assert_eq!(level.cubes.len(), 1);
    assert_eq!(level.cubes[0].body, vec![loc(0, 0), loc(1, 0), loc(0, 1), loc(1, 1)]);

    let level = source("RG\nG/\n", vec![]).into_level().unwrap();
    assert_eq!(level.cubes.len(), 2);
    assert_eq!(level.cubes[0].body, vec![loc(0, 0)]);
    assert_eq!(level.cubes[1].body, vec![loc(1, 0), loc(0, 1), loc(1, 1)]);
}

#[test]
fn level_refuses_unlike_merge() {
    let e = source("RG\nB/\n", vec![]).into_level().unwrap_err();
    assert_eq!(e, Error::Unmergeable { this: (1, 0), that: (0, 1) });
}

#[test]
fn level_refuses_missing_fields() {
    let mut s = source("R", vec![]);
    s.info.title = String::new();
    assert_eq!(s.into_level().unwrap_err(), Error::MissingField { field: "info.title" });
    let mut s = source("R", vec![]);
    s.info.author = String::new();
    assert_eq!(s.into_level().unwrap_err(), Error::MissingField { field: "info.author" });
    assert_eq!(source("", vec![]).into_level().unwrap_err(), Error::MissingField { field: "map.raw" });
}

#[test]
fn level_refuses_bad_markers_and_copies() {
    assert_eq!(source("R?", vec![]).into_level().unwrap_err(), Error::InvalidMarker { character: '?' });
    assert_eq!(source("~", vec![]).into_level().unwrap_err(), Error::Uncopiable { position: (-1, 0) });
    assert_eq!(source(" |", vec![]).into_level().unwrap_err(), Error::Uncopiable { position: (1, -1) });
}

#[test]
fn level_binds_commands() {
    let commands = vec![Command { content: "L3RU0D".to_string(), is_loop: true, binding: vec![[0, 0]] }];
    let level = source("B", commands).into_level().unwrap();
    let c = level.cubes[0].command.clone().unwrap();
    assert!(c.is_loop);
    assert_eq!(c.movements, vec![(3, Movement::Left), (1, Movement::Right), (1, Movement::Down)]);
}

#[test]
fn level_refuses_bad_commands() {
    let commands = vec![Command { content: "3L".to_string(), is_loop: false, binding: vec![] }];
    assert_eq!(source("B", commands).into_level().unwrap_err(), Error::InvalidMovement { character: '3' });
    let commands = vec![Command { content: "L".to_string(), is_loop: false, binding: vec![[5, 5]] }];
    assert_eq!(source("B", commands).into_level().unwrap_err(), Error::InvalidLocation { position: (5, 5) });
}

#[test]
fn level_reads_windows_line_ends() {
    let level = source("R\r\nx\r\n", vec![]).into_level().unwrap();
    assert_eq!(level.size.height, 2);
    assert_eq!(level.size.width, 1);
    assert_eq!(level.destnations, vec![loc(0, 1)]);
}

#[test]
fn level_fits_rejects_counts_past_i32() {
    let commands = vec![Command { content: "L2147483647L".to_string(), is_loop: false, binding: vec![] }];
    assert!(!source("B", commands).fits());
    let commands = vec![Command { content: "L2147483647R".to_string(), is_loop: false, binding: vec![] }];
    let s = source("B", commands);
    assert!(s.fits());
    assert!(s.into_level().is_ok());
    let commands = vec![Command { content: "L99999999999R".to_string(), is_loop: false, binding: vec![[0, 0]] }];
    let s = source("B", commands);
    assert!(s.fits());
    let level = s.into_level().unwrap();
    // a count too large to read stays pending and is never applied
    assert_eq!(level.cubes[0].command.clone().unwrap().movements, vec![(1, Movement::Left), (1, Movement::Right)]);
}

#[test]
fn level_height_counts_lines_and_cubes_keep_cells() {
    let level = source("\n\nR\n", vec![]).into_level().unwrap();
    assert_eq!(level.size.height, 3);
    assert!(level.cubes.iter().all(|c| !c.body.is_empty()));
}
