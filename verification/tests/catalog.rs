use sdscanner::locate::{InnerDir, OuterDir, VolumeSnapshot};
use sdscanner::merge::{get_card_data, scan_card, update_list, ObservedVolume};
use sdscanner::model::{Card, Game, OtherLibrary, ScanData};
use sdscanner::persist::{catalog_from_text, catalog_to_text};

fn names(v: &[&str]) -> Vec<String> {
    v.iter().map(|s| s.to_string()).collect()
}

fn observed(uuid: &str, path: &str, snap: VolumeSnapshot) -> ObservedVolume {
    ObservedVolume {
        data: ScanData { card_path: path.to_string(), uuid: uuid.to_string(), name: None },
        snapshot: snap,
    }
}

fn readable_snap(primary: &[&str]) -> VolumeSnapshot {
    VolumeSnapshot { primary_games: Some(names(primary)), subdirs: Some(vec![]) }
}

fn unreadable_snap() -> VolumeSnapshot {
    VolumeSnapshot { primary_games: None, subdirs: None }
}

fn card(uuid: &str, name: &str, games: &[&str]) -> Card {
    Card {
        uuid: uuid.to_string(),
        name: name.to_string(),
        games: games.iter().map(|g| Game { name: g.to_string() }).collect(),
        heroic: None,
        lutris: None,
    }
}

#[test]
fn scan_card_collects_primary_and_libraries() {
    let snap = VolumeSnapshot {
        primary_games: Some(names(&["Portal", "half-life"])),
        subdirs: Some(vec![OuterDir {
            name: "lutris".to_string(),
            entries: Some(vec![InnerDir { name: "Quake".to_string(), entries: None }]),
        }]),
    };
    let data = ScanData {
        card_path: "/mnt/sd".to_string(),
        uuid: "u-1".to_string(),
        name: None,
    };
    let c = scan_card(data, &snap).expect("scan should succeed");
    assert_eq!(c.uuid, "u-1".to_string());
    assert_eq!(c.name, "SD Card 1".to_string());
    let got: Vec<String> = c.games.into_iter().map(|g| g.name).collect();
    assert_eq!(got, vec!["half-life".to_string(), "Portal".to_string()]);
    assert_eq!(c.lutris.expect("lutris").path, "/mnt/sd/lutris".to_string());
    assert!(c.heroic.is_none());
}

#[test]
fn scan_card_fails_without_primary_listing() {
    let data = ScanData {
        card_path: "/mnt/sd".to_string(),
        uuid: "u-1".to_string(),
        name: None,
    };
    assert!(scan_card(data, &unreadable_snap()).is_none());
}

#[test]
fn scan_card_keeps_the_given_name() {
    let data = ScanData {
        card_path: "/mnt/sd".to_string(),
        uuid: "u-1".to_string(),
        name: Some("My Card".to_string()),
    };
    let c = scan_card(data, &readable_snap(&[])).expect("scan should succeed");
    assert_eq!(c.name, "My Card".to_string());
}

#[test]
fn new_volume_gets_first_auto_name() {
    let mut list: Vec<Card> = Vec::new();
    update_list(&mut list, &vec![observed("u-1", "/mnt/sd", readable_snap(&["A"]))]);
    assert_eq!(list.len(), 1);
    assert_eq!(list[0].uuid, "u-1".to_string());
    assert_eq!(list[0].name, "SD Card 1".to_string());
}

#[test]
fn second_new_volume_counts_up() {
    let mut list: Vec<Card> = Vec::new();
    update_list(
        &mut list,
        &vec![
            observed("u-1", "/mnt/a", readable_snap(&[])),
            observed("u-2", "/mnt/b", readable_snap(&[])),
        ],
    );
    assert_eq!(list.len(), 2);
    assert_eq!(list[0].name, "SD Card 1".to_string());
    assert_eq!(list[1].name, "SD Card 2".to_string());
}

#[test]
fn rescan_keeps_display_name_and_replaces_games() {
    let mut list = vec![card("u-1", "Blue Card", &["OldGame"])];
    update_list(&mut list, &vec![observed("u-1", "/mnt/sd", readable_snap(&["NewGame"]))]);
    assert_eq!(list.len(), 1);
    assert_eq!(list[0].name, "Blue Card".to_string());
    let got: Vec<String> = list[0].games.iter().map(|g| g.name.clone()).collect();
    assert_eq!(got, vec!["NewGame".to_string()]);
}

#[test]
fn failed_rescan_leaves_record_untouched() {
    let original = vec![card("u-1", "Blue Card", &["OldGame"])];
    let before = catalog_to_text(&original);
    let mut list = original;
    update_list(&mut list, &vec![observed("u-1", "/mnt/sd", unreadable_snap())]);
    let after = catalog_to_text(&list);
    assert_eq!(before, after);
}

#[test]
fn failed_scan_of_unknown_volume_adds_nothing() {
    let mut list: Vec<Card> = Vec::new();
    update_list(&mut list, &vec![observed("u-9", "/mnt/sd", unreadable_snap())]);
    assert!(list.is_empty());
}

#[test]
fn unobserved_volumes_are_kept() {
    let mut list = vec![card("u-1", "Kept", &["G"]), card("u-2", "Updated", &[])];
    let kept_before = catalog_to_text(&vec![card("u-1", "Kept", &["G"])]);
    update_list(&mut list, &vec![observed("u-2", "/mnt/sd", readable_snap(&["H"]))]);
    assert_eq!(list.len(), 2);
    let kept_after = catalog_to_text(&vec![Card {
        uuid: list[0].uuid.clone(),
        name: list[0].name.clone(),
        games: list[0].games.iter().map(|g| Game { name: g.name.clone() }).collect(),
        heroic: None,
        lutris: None,
    }]);
    assert_eq!(kept_before, kept_after);
}

#[test]
fn reconciling_twice_changes_nothing() {
    let obs = vec![
        observed("u-1", "/mnt/a", readable_snap(&["Zeta", "alpha"])),
        observed("u-2", "/mnt/b", unreadable_snap()),
    ];
    let mut once = vec![card("u-2", "Sleepy", &["Old"])];
    update_list(&mut once, &obs);
    let first = catalog_to_text(&once);
    update_list(&mut once, &obs);
    let second = catalog_to_text(&once);
    assert_eq!(first, second);
}

#[test]
fn get_card_data_starts_empty_without_saved_catalog() {
    let list = get_card_data(None, &vec![observed("u-1", "/mnt/sd", readable_snap(&[]))]);
    assert_eq!(list.len(), 1);
    assert_eq!(list[0].name, "SD Card 1".to_string());
}

#[test]
fn get_card_data_merges_into_saved_catalog() {
    let saved = vec![card("u-1", "Named by hand", &["Old"])];
    let list = get_card_data(
        Some(saved),
        &vec![observed("u-1", "/mnt/sd", readable_snap(&["Fresh"]))],
    );
    assert_eq!(list.len(), 1);
    assert_eq!(list[0].name, "Named by hand".to_string());
    assert_eq!(list[0].games.len(), 1);
    assert_eq!(list[0].games[0].name, "Fresh".to_string());
}

#[test]
fn catalog_round_trips_through_text() {
    let list = vec![
        Card {
            uuid: "u-1".to_string(),
            name: "SD Card 1".to_string(),
            games: vec![Game { name: "Portal".to_string() }],
            heroic: None,
            lutris: Some(OtherLibrary {
                path: "/mnt/sd/lutris".to_string(),
                games: vec![Game { name: "Quake".to_string() }, Game { name: "Blood".to_string() }],
            }),
        },
        card("u-2", "Spare: with 7 odd chars +-:", &[]),
    ];
    let text = catalog_to_text(&list);
    let parsed = catalog_from_text(text.as_str()).expect("own text should parse");
    assert_eq!(catalog_to_text(&parsed), text);
    assert_eq!(parsed.len(), 2);
    assert_eq!(parsed[0].uuid, "u-1".to_string());
    assert_eq!(parsed[0].lutris.as_ref().expect("lutris").games.len(), 2);
    assert_eq!(parsed[1].name, "Spare: with 7 odd chars +-:".to_string());
}

#[test]
fn empty_catalog_round_trips() {
    let text = catalog_to_text(&Vec::new());
    let parsed = catalog_from_text(text.as_str()).expect("empty catalog should parse");
    assert!(parsed.is_empty());
}

#[test]
fn corrupt_text_parses_to_nothing() {
    assert!(catalog_from_text("this is not a catalog").is_none());
    assert!(catalog_from_text("").is_none());
    assert!(catalog_from_text("1:").is_none());
    assert!(catalog_from_text("999999999999999999999999999:").is_none());
}

#[test]
fn truncated_text_parses_to_nothing() {
    let list = vec![card("u-1", "SD Card 1", &["Portal"])];
    let mut text = catalog_to_text(&list);
    text.pop();
    assert!(catalog_from_text(text.as_str()).is_none());
}

#[test]
fn trailing_garbage_is_rejected() {
    let list = vec![card("u-1", "SD Card 1", &[])];
    let mut text = catalog_to_text(&list);
    text.push('x');
    assert!(catalog_from_text(text.as_str()).is_none());
}

#[test]
fn duplicate_identifiers_are_rejected() {
    let list = vec![card("u-1", "A", &[]), card("u-1", "B", &[])];
    let text = catalog_to_text(&list);
    assert!(catalog_from_text(text.as_str()).is_none());
}
