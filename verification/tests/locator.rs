use sdscanner::locate::{
    search_and_scan_folder, find_other_game_folders, InnerDir, LibraryType, OuterDir,
    VolumeSnapshot,
};
use sdscanner::games::list_games;
use sdscanner::volumes::{is_sd_card_line, parse_card_info, parse_card_info_with, split_lines_exec, line_tokens};

fn names(v: &[&str]) -> Vec<String> {
    v.iter().map(|s| s.to_string()).collect()
}

fn inner(name: &str, entries: Option<&[&str]>) -> InnerDir {
    InnerDir { name: name.to_string(), entries: entries.map(|e| names(e)) }
}

fn outer(name: &str, entries: Option<Vec<InnerDir>>) -> OuterDir {
    OuterDir { name: name.to_string(), entries }
}

#[test]
fn games_are_ordered_case_insensitively() {
    let listing = names(&["Zeta", "alpha", "Beta"]);
    let games = list_games(&listing);
    let got: Vec<String> = games.into_iter().map(|g| g.name).collect();
    assert_eq!(got, vec!["alpha".to_string(), "Beta".to_string(), "Zeta".to_string()]);
}

#[test]
fn games_of_empty_listing_are_empty() {
    let games = list_games(&Vec::new());
    assert!(games.is_empty());
}

#[test]
fn ties_keep_enumeration_order() {
    let listing = names(&["abc", "ABC", "aBc"]);
    let games = list_games(&listing);
    let got: Vec<String> = games.into_iter().map(|g| g.name).collect();
    assert_eq!(got, vec!["abc".to_string(), "ABC".to_string(), "aBc".to_string()]);
}

#[test]
fn direct_match_resolves() {
    let snap = VolumeSnapshot {
        primary_games: Some(names(&[])),
        subdirs: Some(vec![
            outer("Music", Some(vec![])),
            outer("MyLutrisGames", Some(vec![inner("Quake", None), inner("Doom", None)])),
        ]),
    };
    let lib = search_and_scan_folder("/run/media/deck/card0", &snap, LibraryType::Lutris)
        .expect("should resolve the lutris library");
    assert_eq!(lib.path, "/run/media/deck/card0/MyLutrisGames".to_string());
    let got: Vec<String> = lib.games.into_iter().map(|g| g.name).collect();
    assert_eq!(got, vec!["Doom".to_string(), "Quake".to_string()]);
}

#[test]
fn ambiguous_match_is_absent() {
    let snap = VolumeSnapshot {
        primary_games: Some(names(&[])),
        subdirs: Some(vec![
            outer("lutris", Some(vec![])),
            outer("old-lutris", Some(vec![])),
        ]),
    };
    let lib = search_and_scan_folder("/root", &snap, LibraryType::Lutris);
    assert!(lib.is_none());
}

#[test]
fn fallback_through_other_folder() {
    let snap = VolumeSnapshot {
        primary_games: Some(names(&[])),
        subdirs: Some(vec![
            outer("Movies", Some(vec![])),
            outer(
                "Other Stuff",
                Some(vec![inner("Lutris", Some(&["Blood", "Arx Fatalis"]))]),
            ),
        ]),
    };
    let lib = search_and_scan_folder("/mnt/sd", &snap, LibraryType::Lutris)
        .expect("should resolve through the indirection folder");
    assert_eq!(lib.path, "/mnt/sd/Other Stuff/Lutris".to_string());
    assert_eq!(lib.games.len(), 2);
    let got: Vec<String> = lib.games.into_iter().map(|g| g.name).collect();
    assert_eq!(got, vec!["Arx Fatalis".to_string(), "Blood".to_string()]);
}

#[test]
fn fallback_through_games_folder() {
    let snap = VolumeSnapshot {
        primary_games: Some(names(&[])),
        subdirs: Some(vec![outer(
            "more games",
            Some(vec![inner("heroic", Some(&["Celeste"]))]),
        )]),
    };
    let lib = search_and_scan_folder("/mnt/sd", &snap, LibraryType::Heroic)
        .expect("should resolve through the games folder");
    assert_eq!(lib.path, "/mnt/sd/more games/heroic".to_string());
    assert_eq!(lib.games.len(), 1);
}

#[test]
fn unreadable_root_is_absent() {
    let snap = VolumeSnapshot { primary_games: Some(names(&[])), subdirs: None };
    assert!(search_and_scan_folder("/mnt/sd", &snap, LibraryType::Lutris).is_none());
}

#[test]
fn unreadable_candidate_listing_is_absent() {
    // the matched directory itself cannot be listed
    let snap = VolumeSnapshot {
        primary_games: Some(names(&[])),
        subdirs: Some(vec![outer("lutris", None)]),
    };
    assert!(search_and_scan_folder("/mnt/sd", &snap, LibraryType::Lutris).is_none());
}

#[test]
fn no_match_anywhere_is_absent() {
    let snap = VolumeSnapshot {
        primary_games: Some(names(&[])),
        subdirs: Some(vec![outer("Music", Some(vec![])), outer("Backups", Some(vec![]))]),
    };
    assert!(search_and_scan_folder("/mnt/sd", &snap, LibraryType::Lutris).is_none());
}

#[test]
fn both_kinds_are_located_independently() {
    let snap = VolumeSnapshot {
        primary_games: Some(names(&[])),
        subdirs: Some(vec![
            outer("lutris", Some(vec![inner("Game1", None)])),
            outer("Heroic Library", Some(vec![inner("Game2", None)])),
        ]),
    };
    let (lutris, heroic) = find_other_game_folders("/mnt/sd", &snap);
    assert_eq!(lutris.expect("lutris").path, "/mnt/sd/lutris".to_string());
    assert_eq!(heroic.expect("heroic").path, "/mnt/sd/Heroic Library".to_string());
}

#[test]
fn sd_card_lines_are_recognized() {
    assert!(is_sd_card_line("mmcblk0p1 1234-ABCD /run/media/mmcblk0p1"));
    assert!(is_sd_card_line("mmcblk0p1 1234-ABCD /run/media/deck/1234-ABCD"));
    assert!(!is_sd_card_line("sda1 9876-FEDC /run/media/deck/9876-FEDC"));
    assert!(!is_sd_card_line("nvme0n1p3 abcd /home"));
}

#[test]
fn device_table_parsing_extracts_uuid_and_path() {
    let table = "NAME UUID MOUNTPOINT\n\
                 nvme0n1p3 0f1e /home\n\
                 mmcblk0p1 1234-ABCD /run/media/deck/1234-ABCD\n";
    let cards = parse_card_info(table);
    assert_eq!(cards.len(), 1);
    assert_eq!(cards[0].uuid, "1234-ABCD".to_string());
    assert_eq!(cards[0].card_path, "/run/media/deck/1234-ABCD".to_string());
    assert!(cards[0].name.is_none());
}

#[test]
fn rows_without_enough_columns_are_skipped() {
    let table = "mmcblk0p1 /run/media/mmcblk0p1\nmmcblk0p1\n";
    let cards = parse_card_info(table);
    assert!(cards.is_empty());
}

#[test]
fn split_lines_drops_only_the_trailing_break() {
    let lines = split_lines_exec("a\nb\n");
    assert_eq!(lines, vec!["a".to_string(), "b".to_string()]);
    let lines = split_lines_exec("a\n\nb");
    assert_eq!(lines, vec!["a".to_string(), "".to_string(), "b".to_string()]);
    let lines = split_lines_exec("");
    assert!(lines.is_empty());
}

#[test]
fn tokens_split_on_blanks() {
    let toks = line_tokens("  one\ttwo  three\r");
    assert_eq!(toks, vec!["one".to_string(), "two".to_string(), "three".to_string()]);
    let toks = line_tokens("   ");
    assert!(toks.is_empty());
}

#[test]
fn configured_prefixes_decide_which_rows_qualify() {
    let table = "sdb1 9999-AAAA /media/usb/9999-AAAA
                 mmcblk0p1 1234-ABCD /run/media/deck/1234-ABCD
";
    let usb_only = parse_card_info_with(table, &vec!["/media/usb".to_string()]);
    assert_eq!(usb_only.len(), 1);
    assert_eq!(usb_only[0].uuid, "9999-AAAA".to_string());
    let both = parse_card_info_with(
        table,
        &vec!["/media/usb".to_string(), "/run/media/deck".to_string()],
    );
    assert_eq!(both.len(), 2);
    let none = parse_card_info_with(table, &Vec::new());
    assert!(none.is_empty());
}
