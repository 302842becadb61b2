use std::path::PathBuf;

use rsname::app::{App, AppMode};

fn listing(names: &[&str]) -> Vec<(String, PathBuf)> {
    names.iter().map(|n| (n.to_string(), PathBuf::from(n))).collect()
}

#[test]
fn scan_keeps_only_names_the_cleaner_would_change() {
    let mut app = App::new();
    assert_eq!(app.items.len(), 0);
    assert!(matches!(app.mode, AppMode::Scanning));
    app.ingest_scan(listing(&[
        "Casablanca.mkv",
        "The.Simpsons.3x12.avi",
        "Cosmos Ep 01 [Bluray].mkv",
    ]));
    assert!(matches!(app.mode, AppMode::Reviewing));
    assert_eq!(app.items.len(), 2);
    assert_eq!(app.items[0].old_name, "The.Simpsons.3x12.avi");
    assert_eq!(app.items[0].new_name, "The Simpsons - S03E12.avi");
    assert!(app.items[0].selected);
    assert_eq!(app.items[1].old_name, "Cosmos Ep 01 [Bluray].mkv");
    assert_eq!(app.items[1].new_name, "Cosmos - S01E01.mkv");
    assert!(app.items[1].selected);
}

#[test]
fn cursor_wraps_both_ways() {
    let mut app = App::new();
    app.ingest_scan(listing(&["a b.mkv", "c d.mkv"]));
    assert_eq!(app.items.len(), 2);
    assert_eq!(app.selected_index, 0);
    app.next();
    assert_eq!(app.selected_index, 1);
    app.next();
    assert_eq!(app.selected_index, 0);
    app.previous();
    assert_eq!(app.selected_index, 1);
    app.previous();
    assert_eq!(app.selected_index, 0);
}

#[test]
fn cursor_is_inert_on_an_empty_list() {
    let mut app = App::new();
    app.ingest_scan(listing(&["Already Clean.mkv"]));
    assert_eq!(app.items.len(), 0);
    app.next();
    assert_eq!(app.selected_index, 0);
    app.previous();
    assert_eq!(app.selected_index, 0);
}

#[test]
fn toggle_and_targets() {
    let mut app = App::new();
    app.ingest_scan(listing(&["a b.mkv", "c d.mkv", "e f.mkv"]));
    assert_eq!(app.items.len(), 3);
    app.next();
    app.toggle_selection();
    assert!(app.items[0].selected);
    assert!(!app.items[1].selected);
    assert!(app.items[2].selected);
    let targets = app.rename_targets();
    assert_eq!(targets, vec![0, 2]);
}

#[test]
fn confirm_needs_a_selection() {
    let mut app = App::new();
    app.ingest_scan(listing(&["a b.mkv"]));
    app.toggle_selection();
    app.confirm_rename();
    assert!(matches!(app.mode, AppMode::Reviewing));
    app.toggle_selection();
    app.confirm_rename();
    assert!(matches!(app.mode, AppMode::Confirming));
    app.cancel_confirm();
    assert!(matches!(app.mode, AppMode::Reviewing));
}

#[test]
fn record_rename_updates_one_item() {
    let mut app = App::new();
    app.ingest_scan(listing(&["a b.mkv", "c d.mkv"]));
    app.begin_rename();
    assert!(matches!(app.mode, AppMode::Processing));
    app.record_rename(0, PathBuf::from("A B.mkv"));
    assert_eq!(app.items[0].old_name, "A B.mkv");
    assert_eq!(app.items[0].new_name, "A B.mkv");
    assert!(!app.items[0].selected);
    assert_eq!(app.items[0].path, PathBuf::from("A B.mkv"));
    assert_eq!(app.items[1].old_name, "c d.mkv");
    assert!(app.items[1].selected);
    app.finish_rename();
    assert!(matches!(app.mode, AppMode::Reviewing));
}

#[test]
fn cursor_wraps_by_modulo_even_from_out_of_range() {
    let mut app = App::new();
    app.ingest_scan(listing(&["a b.mkv", "c d.mkv", "e f.mkv"]));
    app.next();
    app.next();
    assert_eq!(app.selected_index, 2);
    // A rescan that drops items keeps the cursor, leaving it out of range.
    app.ingest_scan(listing(&["a b.mkv", "c d.mkv"]));
    assert_eq!(app.items.len(), 2);
    assert_eq!(app.selected_index, 2);
    app.next();
    assert_eq!(app.selected_index, 1);
}
