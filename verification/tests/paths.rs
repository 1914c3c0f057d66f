use godot_tileset::path::{
    ends_with, godot_path_to_absolute, is_tile_set_path, resource_relative_path, starts_with,
    PathError,
};
use std::path::PathBuf;

#[test]
fn resource_path_points_into_the_project() {
    let project = PathBuf::from("project");
    assert_eq!(
        godot_path_to_absolute(&project, "res://Tiles/set.tres"),
        Ok(PathBuf::from("project").join("Tiles/set.tres"))
    );
    assert_ne!(
        godot_path_to_absolute(&project, "res://a.png"),
        Ok(PathBuf::from("project"))
    );
    assert_ne!(
        godot_path_to_absolute(&project, "res://a.png"),
        Ok(PathBuf::from("project").join("res://a.png"))
    );
}

#[test]
fn other_path_is_refused() {
    let project = PathBuf::from("project");
    assert_eq!(godot_path_to_absolute(&project, "a.png"), Err(PathError::NotAResourcePath));
    assert_eq!(godot_path_to_absolute(&project, "user://a.png"), Err(PathError::NotAResourcePath));
    assert_eq!(godot_path_to_absolute(&project, " res://a.png"), Err(PathError::NotAResourcePath));
    assert_eq!(godot_path_to_absolute(&project, "res:/"), Err(PathError::NotAResourcePath));
    assert_eq!(godot_path_to_absolute(&project, ""), Err(PathError::NotAResourcePath));
}

#[test]
fn part_behind_the_scheme_is_relative() {
    assert_eq!(resource_relative_path("res://a.png"), Ok("a.png"));
    assert_eq!(resource_relative_path("res://"), Ok(""));
    assert_eq!(resource_relative_path("res://dir/ü.png"), Ok("dir/ü.png"));
    assert_eq!(resource_relative_path("res://res://a.png"), Ok("a.png"));
    assert_eq!(resource_relative_path("res://x/res://a.png"), Ok("x/res://a.png"));
    assert_eq!(resource_relative_path("Res://a"), Err(PathError::NotAResourcePath));
}

#[test]
fn tile_set_file_is_known_by_its_ending() {
    assert!(is_tile_set_path("res://Tiles/set.tres"));
    assert!(is_tile_set_path(".tres"));
    assert!(!is_tile_set_path("res://Tiles/set.res"));
    assert!(!is_tile_set_path("res://Tiles/set.tres "));
    assert!(!is_tile_set_path("tres"));
    assert!(!is_tile_set_path(""));
}

#[test]
fn beginnings_and_endings_of_bytes() {
    assert!(starts_with(b"abc", b"ab"));
    assert!(starts_with(b"abc", b""));
    assert!(starts_with(b"abc", b"abc"));
    assert!(!starts_with(b"abc", b"abcd"));
    assert!(!starts_with(b"abc", b"bc"));
    assert!(ends_with(b"abc", b"bc"));
    assert!(ends_with(b"abc", b""));
    assert!(ends_with(b"abc", b"abc"));
    assert!(!ends_with(b"abc", b"zabc"));
    assert!(!ends_with(b"abc", b"ab"));
}
