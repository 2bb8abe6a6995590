use sdscanner::model::{card_games_count, Card, Game, OtherLibrary, ScanData};
use sdscanner::ui::{
    card_hidden_by_search, change_card_name, filter_list, get_card_name, get_game_list_length, App,
    ControlEvent, Message, SelectCoords, UpdateAction,
};

fn game(n: &str) -> Game {
    Game { name: n.to_string() }
}

fn card(uuid: &str, name: &str, games: &[&str]) -> Card {
    Card {
        uuid: uuid.to_string(),
        name: name.to_string(),
        games: games.iter().map(|g| game(g)).collect(),
        heroic: None,
        lutris: None,
    }
}

fn full_card() -> Card {
    Card {
        uuid: "u-1".to_string(),
        name: "SD Card 1".to_string(),
        games: vec![game("Portal"), game("Blood")],
        heroic: Some(OtherLibrary {
            path: "/mnt/sd/heroic".to_string(),
            games: vec![game("Celeste")],
        }),
        lutris: Some(OtherLibrary {
            path: "/mnt/sd/lutris".to_string(),
            games: vec![game("Quake"), game("Arx Fatalis")],
        }),
    }
}

#[test]
fn games_are_counted_across_libraries() {
    assert_eq!(card_games_count(&full_card()), 5);
    assert_eq!(card_games_count(&card("u", "n", &["A"])), 1);
}

#[test]
fn filtering_narrows_every_library() {
    let filtered = filter_list(&[full_card()], "qua");
    assert_eq!(filtered.len(), 1);
    assert!(filtered[0].games.is_empty());
    assert_eq!(filtered[0].heroic.as_ref().expect("heroic stays").games.len(), 0);
    let lutris = filtered[0].lutris.as_ref().expect("lutris stays");
    assert_eq!(lutris.games.len(), 1);
    assert_eq!(lutris.games[0].name, "Quake".to_string());
    assert_eq!(filtered[0].name, "SD Card 1".to_string());
}

#[test]
fn filtering_is_case_insensitive() {
    let filtered = filter_list(&[full_card()], "ARX");
    let lutris = filtered[0].lutris.as_ref().expect("lutris stays");
    assert_eq!(lutris.games.len(), 1);
    assert_eq!(lutris.games[0].name, "Arx Fatalis".to_string());
}

#[test]
fn fully_filtered_cards_are_hidden() {
    let filtered = filter_list(&[full_card()], "no such game");
    assert!(card_hidden_by_search(&filtered[0], "no such game"));
    assert!(!card_hidden_by_search(&filtered[0], ""));
    let kept = filter_list(&[full_card()], "quake");
    assert!(!card_hidden_by_search(&kept[0], "quake"));
}

#[test]
fn renaming_touches_only_the_matching_record() {
    let cards = vec![card("u-1", "Old", &["G"]), card("u-2", "Other", &[])];
    let renamed = change_card_name("New".to_string(), "u-1".to_string(), &cards);
    assert_eq!(renamed.len(), 2);
    assert_eq!(renamed[0].name, "New".to_string());
    assert_eq!(renamed[0].uuid, "u-1".to_string());
    assert_eq!(renamed[0].games.len(), 1);
    assert_eq!(renamed[1].name, "Other".to_string());
}

#[test]
fn card_name_lookup_uses_first_inserted_volume() {
    let saved = [card("u-1", "Known", &[])];
    let inserted = vec![
        ScanData { card_path: "/mnt/sd".to_string(), uuid: "u-1".to_string(), name: None },
    ];
    assert_eq!(get_card_name(&saved, &inserted), Some("Known".to_string()));
    let unknown = vec![
        ScanData { card_path: "/mnt/sd".to_string(), uuid: "u-9".to_string(), name: None },
    ];
    assert_eq!(get_card_name(&saved, &unknown), None);
    assert_eq!(get_card_name(&saved, &Vec::new()), None);
}

#[test]
fn list_length_counts_headings_and_rows() {
    // the full card: two headings, two primary games, and a heading
    // plus the games of each located library
    let app = App::new(vec![full_card()]);
    assert_eq!(get_game_list_length(&app), 2 + 2 + 1 + 2 + 1 + 1);
    let empty = App::new(Vec::new());
    assert_eq!(get_game_list_length(&empty), 0);
}

#[test]
fn selection_moves_stay_in_bounds() {
    let mut app = App::new(vec![full_card()]);
    app.move_left();
    assert_eq!(app.select_coords.x, 0);
    app.move_right();
    assert_eq!(app.select_coords.x, 1);
    // the list page caps the horizontal movement at one step
    app.move_right();
    assert_eq!(app.select_coords.x, 1);
    app.move_up();
    assert_eq!(app.select_coords.y, 0);
    app.move_down();
    assert_eq!(app.select_coords.y, 1);
    app.move_left();
    assert_eq!(app.select_coords.x, 0);
    // at the far left only one step down is allowed
    app.move_down();
    assert_eq!(app.select_coords.y, 1);
}

#[test]
fn coordinates_come_from_pairs() {
    let c: SelectCoords = (3, 4).into();
    assert_eq!(c.x, 3);
    assert_eq!(c.y, 4);
}

#[test]
fn events_drive_the_state() {
    let mut app = App::new(vec![card("u-1", "Old", &[])]);
    assert!(matches!(app.update(Message::Settings), UpdateAction::Continue));
    assert_eq!(app.current_page, 1);
    assert!(matches!(app.update(Message::Home), UpdateAction::Continue));
    assert_eq!(app.current_page, 0);
    assert!(matches!(
        app.update(Message::SearchInput("qu".to_string())),
        UpdateAction::Continue
    ));
    assert_eq!(app.search_term, "qu".to_string());
    assert_eq!(app.select_coords.y, 0);
    assert!(matches!(
        app.update(Message::ControllerEvent(ControlEvent::Right)),
        UpdateAction::Continue
    ));
    assert_eq!(app.select_coords.x, 1);
    assert!(matches!(app.update(Message::Exit), UpdateAction::Exit));
}

#[test]
fn renaming_through_an_event_asks_for_a_persist() {
    let mut app = App::new(vec![card("u-1", "Old", &[])]);
    let action = app.update(Message::ChangeCardName("Fresh".to_string(), "u-1".to_string()));
    assert!(matches!(action, UpdateAction::Persist));
    assert_eq!(app.card_data[0].name, "Fresh".to_string());
}
