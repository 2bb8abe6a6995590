//! The application's interaction state: pages, selection coordinates,
//! list filtering and renaming.
//!
//! Nothing here draws anything.  These are the rules the presentation
//! layer runs on: which rows exist, how far the selection may move, what
//! the search filter keeps, and how a record is renamed.

use vstd::prelude::*;

use crate::merge::spec_find_uuid;
use crate::model::{cards_view, copy_card, Card, CardView, LibraryView, Game, ScanData};
use crate::text::{contains_ci, str_contains_ci};

verus! {

/// The pages the application can show.
pub enum Page {
    List,
    Settings,
}

/// One abstract input from a game controller.
#[derive(Debug, Clone)]
pub enum ControlEvent {
    Select,
    Back,
    Search,
    Left,
    Right,
    Up,
    Down,
}

/// The coordinates of the currently selected interface element.
#[derive(Copy, Clone)]
pub struct SelectCoords {
    pub x: usize,
    pub y: usize,
}

impl From<(usize, usize)> for SelectCoords {
    fn from(t: (usize, usize)) -> Self {
        Self { x: t.0, y: t.1 }
    }
}

impl vstd::std_specs::convert::FromSpecImpl<(usize, usize)> for SelectCoords {
    open spec fn obeys_from_spec() -> bool {
        true
    }

    open spec fn from_spec(t: (usize, usize)) -> Self {
        SelectCoords { x: t.0, y: t.1 }
    }
}

/// The events the interface reacts to.
#[derive(Debug, Clone)]
pub enum Message {
    /// Leave the application.
    Exit,
    /// The search box content changed.
    SearchInput(String),
    /// Show the settings page.
    Settings,
    /// Show the list page.
    Home,
    /// Give the record with the identifier in the second field the name
    /// in the first.
    ChangeCardName(String, String),
    /// A controller input arrived.
    ControllerEvent(ControlEvent),
}

/// An interface element that can carry the selection highlight; the
/// presentation layer implements it for its widgets.
pub trait Selectable {
    fn highlight(self) -> Self;
}

/// The application state the interface renders.
pub struct App {
    pub pages: Vec<Page>,
    pub current_page: usize,
    pub card_data: Vec<Card>,
    pub search_term: String,
    /// Tracks the currently selected interface element.
    pub select_coords: SelectCoords,
}

/// The number of list rows one card contributes: its own heading and the
/// primary library heading, one row per game, and a heading plus a row
/// per game for each located library.
pub open spec fn spec_card_rows(c: CardView) -> int {
    2 + c.games.len() + match c.lutris {
        Some(l) => 1 + l.games.len() as int,
        None => 0,
    } + match c.heroic {
        Some(l) => 1 + l.games.len() as int,
        None => 0,
    }
}

/// The number of list rows of a whole catalog.
pub open spec fn spec_game_list_length(cs: Seq<CardView>) -> int
    decreases cs.len(),
{
    if cs.len() == 0 {
        0
    } else {
        spec_card_rows(cs[0]) + spec_game_list_length(cs.drop_first())
    }
}

/// Row counts are never negative.
proof fn lemma_rows_nonneg(cs: Seq<CardView>)
    ensures
        spec_game_list_length(cs) >= 0,
    decreases cs.len(),
{
    if cs.len() > 0 {
        lemma_rows_nonneg(cs.drop_first());
    }
}

/// One more card's rows add up at the end.
proof fn lemma_rows_snoc(cs: Seq<CardView>, c: CardView)
    ensures
        spec_game_list_length(cs.push(c)) == spec_game_list_length(cs) + spec_card_rows(c),
    decreases cs.len(),
{
    if cs.len() == 0 {
        assert(cs.push(c)[0] == c);
        assert(cs.push(c).drop_first() =~= Seq::<CardView>::empty());
        assert(spec_game_list_length(cs.push(c)) == spec_card_rows(c) + spec_game_list_length(
            Seq::<CardView>::empty(),
        ));
        assert(spec_game_list_length(cs) == 0);
    } else {
        assert(cs.push(c)[0] == cs[0]);
        assert(cs.push(c).drop_first() =~= cs.drop_first().push(c));
        lemma_rows_snoc(cs.drop_first(), c);
        assert(spec_game_list_length(cs.push(c)) == spec_card_rows(cs[0])
            + spec_game_list_length(cs.drop_first().push(c)));
        assert(spec_game_list_length(cs) == spec_card_rows(cs[0]) + spec_game_list_length(
            cs.drop_first(),
        ));
    }
}

/// A prefix never has more rows than the whole.
proof fn lemma_rows_prefix_le(cs: Seq<CardView>, i: int)
    requires
        0 <= i <= cs.len(),
    ensures
        spec_game_list_length(cs.take(i)) <= spec_game_list_length(cs),
    decreases cs.len() - i,
{
    if i < cs.len() {
        lemma_rows_snoc(cs.take(i), cs[i]);
        assert(cs.take(i).push(cs[i]) =~= cs.take(i + 1));
        lemma_rows_prefix_le(cs, i + 1);
        assert(spec_card_rows(cs[i]) >= 0);
    } else {
        assert(cs.take(i) =~= cs);
    }
}

/// The number of rows the list page shows for the catalog, used to
/// bound how far the selection may move down.
pub fn get_game_list_length(app_data: &App) -> (r: usize)
    requires
        spec_game_list_length(cards_view(app_data.card_data@)) <= usize::MAX,
    ensures
        r == spec_game_list_length(cards_view(app_data.card_data@)),
{
    let ghost cs = cards_view(app_data.card_data@);
    let mut buffer: usize = 0;
    let mut i: usize = 0;
    proof {
        assert(cs.take(0) =~= Seq::<CardView>::empty());
    }
    while i < app_data.card_data.len()
        invariant
            0 <= i <= app_data.card_data@.len(),
            cs == cards_view(app_data.card_data@),
            spec_game_list_length(cs) <= usize::MAX,
            buffer == spec_game_list_length(cs.take(i as int)),
        decreases app_data.card_data@.len() - i,
    {
        let card = &app_data.card_data[i];
        proof {
            lemma_rows_snoc(cs.take(i as int), cs[i as int]);
            assert(cs.take(i as int).push(cs[i as int]) =~= cs.take(i as int + 1));
            lemma_rows_prefix_le(cs, i as int + 1);
            lemma_rows_nonneg(cs.take(i as int));
        }
        // the card and primary-library headings
        buffer += 2;
        buffer += card.games.len();
        if let Some(lutris) = &card.lutris {
            buffer += 1;
            buffer += lutris.games.len();
        }
        if let Some(heroic) = &card.heroic {
            buffer += 1;
            buffer += heroic.games.len();
        }
        assert(buffer == spec_game_list_length(cs.take(i as int + 1)));
        i = i + 1;
    }
    proof {
        assert(cs.take(cs.len() as int) =~= cs);
    }
    buffer
}

impl App {
    /// A fresh application state over the given catalog: the list page
    /// shown first, nothing searched, the selection at the origin.
    pub fn new(card_data: Vec<Card>) -> (r: App)
        ensures
            r.pages@.len() == 2,
            (r.pages@[0] is List),
            (r.pages@[1] is Settings),
            r.current_page == 0,
            cards_view(r.card_data@) == cards_view(card_data@),
            r.search_term@.len() == 0,
            r.select_coords.x == 0 && r.select_coords.y == 0,
    {
        App {
            pages: vec![Page::List, Page::Settings],
            current_page: 0,
            card_data,
            search_term: String::new(),
            select_coords: SelectCoords { x: 0, y: 0 },
        }
    }

    /// Moves the selection one step to the left, stopping at the edge.
    pub fn move_left(&mut self)
        ensures
            final(self).select_coords.x == if old(self).select_coords.x > 0 {
                old(self).select_coords.x - 1
            } else {
                0
            },
            final(self).select_coords.y == old(self).select_coords.y,
            final(self).current_page == old(self).current_page,
            final(self).card_data == old(self).card_data,
            final(self).search_term == old(self).search_term,
            final(self).pages == old(self).pages,
    {
        self.select_coords.x = self.select_coords.x.saturating_sub(1);
    }

    /// Moves the selection one step to the right, capped by how many
    /// columns the current page has.
    pub fn move_right(&mut self)
        requires
            old(self).select_coords.x < usize::MAX,
        ensures
            final(self).select_coords.x == spec_min(
                old(self).select_coords.x + 1,
                if old(self).current_page == 0 {
                    1int
                } else if old(self).current_page == 1 {
                    3int
                } else {
                    10int
                },
            ),
            final(self).select_coords.y == old(self).select_coords.y,
            final(self).current_page == old(self).current_page,
            final(self).card_data == old(self).card_data,
            final(self).search_term == old(self).search_term,
            final(self).pages == old(self).pages,
    {
        self.select_coords.x += 1;
        // the maximum depends on the page shown
        let cap: usize = if self.current_page == 0 {
            // the list page only goes over once
            1
        } else if self.current_page == 1 {
            // the settings page can move over three times
            3
        } else {
            10
        };
        if self.select_coords.x > cap {
            self.select_coords.x = cap;
        }
    }

    /// Moves the selection one step down, capped by how many rows the
    /// current page and column have.
    pub fn move_down(&mut self)
        requires
            old(self).select_coords.y < usize::MAX,
            spec_game_list_length(cards_view(old(self).card_data@)) <= usize::MAX,
            old(self).select_coords.x != 0 && old(self).current_page == 0
                ==> spec_game_list_length(cards_view(old(self).card_data@)) >= 1,
        ensures
            final(self).select_coords.y == spec_min(
                old(self).select_coords.y + 1,
                if old(self).select_coords.x == 0 {
                    1int
                } else if old(self).current_page == 0 {
                    spec_game_list_length(cards_view(old(self).card_data@)) - 1
                } else if old(self).current_page == 1 {
                    old(self).card_data@.len() as int
                } else {
                    usize::MAX as int
                },
            ),
            final(self).select_coords.x == old(self).select_coords.x,
            final(self).current_page == old(self).current_page,
            final(self).card_data == old(self).card_data,
            final(self).search_term == old(self).search_term,
            final(self).pages == old(self).pages,
    {
        self.select_coords.y += 1;
        // the far-left panel allows one step down; the pages bound the
        // rest by their row counts
        let cap: usize = if self.select_coords.x == 0 {
            1
        } else if self.current_page == 0 {
            get_game_list_length(self) - 1
        } else if self.current_page == 1 {
            self.card_data.len()
        } else {
            usize::MAX
        };
        if self.select_coords.y > cap {
            self.select_coords.y = cap;
        }
    }

    /// Moves the selection one step up, stopping at the edge.
    pub fn move_up(&mut self)
        ensures
            final(self).select_coords.y == if old(self).select_coords.y > 0 {
                old(self).select_coords.y - 1
            } else {
                0
            },
            final(self).select_coords.x == old(self).select_coords.x,
            final(self).current_page == old(self).current_page,
            final(self).card_data == old(self).card_data,
            final(self).search_term == old(self).search_term,
            final(self).pages == old(self).pages,
    {
        self.select_coords.y = self.select_coords.y.saturating_sub(1);
    }
}

/// What the shell must do after the state took an event in.
pub enum UpdateAction {
    /// Nothing beyond rendering the new state.
    Continue,
    /// Leave the application.
    Exit,
    /// Persist the catalog, which the event just changed.
    Persist,
}

impl App {
    /// Takes one event into the state and says what the shell owes in
    /// return: renaming changes the catalog and asks for an immediate
    /// persist, the exit event asks the shell to leave, and everything
    /// else only moves the state.
    pub fn update(&mut self, event: Message) -> (r: UpdateAction)
        requires
            (match event {
                Message::ControllerEvent(ControlEvent::Right) => old(self).select_coords.x
                    < usize::MAX,
                Message::ControllerEvent(ControlEvent::Down) => old(self).select_coords.y
                    < usize::MAX && spec_game_list_length(cards_view(old(self).card_data@))
                    <= usize::MAX && (old(self).select_coords.x != 0 && old(self).current_page == 0
                    ==> spec_game_list_length(cards_view(old(self).card_data@)) >= 1),
                _ => true,
            }),
        ensures
            (match event {
                Message::Exit => (r is Exit) && *final(self) == *old(self),
                Message::SearchInput(t) => (r is Continue) && final(self).search_term == t && final(self).select_coords.y == 0 && final(self).select_coords.x == old(self).select_coords.x && final(self).current_page == old(self).current_page && final(self).card_data == old(self).card_data,
                Message::Settings => (r is Continue) && final(self).current_page == 1 && final(self).card_data == old(self).card_data && final(self).search_term == old(self).search_term && final(self).select_coords == old(self).select_coords,
                Message::Home => (r is Continue) && final(self).current_page == 0 && final(self).card_data == old(self).card_data && final(self).search_term == old(self).search_term && final(self).select_coords == old(self).select_coords,
                Message::ChangeCardName(name, uuid) => (r is Persist) && cards_view(
                    final(self).card_data@,
                ) == spec_rename(cards_view(old(self).card_data@), uuid@, name@) && final(self).current_page == old(self).current_page && final(self).search_term == old(self).search_term && final(self).select_coords == old(self).select_coords,
                Message::ControllerEvent(e) => (r is Continue) && final(self).card_data == old(self).card_data && final(self).search_term == old(self).search_term && final(self).current_page == old(self).current_page && (match e {
                    ControlEvent::Left => final(self).select_coords.y == old(self).select_coords.y
                        && final(self).select_coords.x == (if old(self).select_coords.x > 0 {
                        old(self).select_coords.x - 1
                    } else {
                        0
                    }),
                    ControlEvent::Right => final(self).select_coords.y == old(self).select_coords.y && final(self).select_coords.x == spec_min(
                        old(self).select_coords.x + 1,
                        if old(self).current_page == 0 {
                            1int
                        } else if old(self).current_page == 1 {
                            3int
                        } else {
                            10int
                        },
                    ),
                    ControlEvent::Up => final(self).select_coords.x == old(self).select_coords.x
                        && final(self).select_coords.y == (if old(self).select_coords.y > 0 {
                        old(self).select_coords.y - 1
                    } else {
                        0
                    }),
                    ControlEvent::Down => final(self).select_coords.x == old(self).select_coords.x
                        && final(self).select_coords.y == spec_min(
                        old(self).select_coords.y + 1,
                        if old(self).select_coords.x == 0 {
                            1int
                        } else if old(self).current_page == 0 {
                            spec_game_list_length(cards_view(old(self).card_data@)) - 1
                        } else if old(self).current_page == 1 {
                            old(self).card_data@.len() as int
                        } else {
                            usize::MAX as int
                        },
                    ),
                    _ => final(self).select_coords == old(self).select_coords,
                }),
            }),
    {
        match event {
            Message::Exit => UpdateAction::Exit,
            Message::SearchInput(text_input) => {
                self.search_term = text_input;
                self.select_coords.y = 0;
                UpdateAction::Continue
            },
            Message::Settings => {
                self.current_page = 1;
                UpdateAction::Continue
            },
            Message::Home => {
                self.current_page = 0;
                UpdateAction::Continue
            },
            Message::ChangeCardName(card_name, card_uuid) => {
                self.card_data = change_card_name(card_name, card_uuid, &self.card_data);
                UpdateAction::Persist
            },
            Message::ControllerEvent(controller_event) => {
                match controller_event {
                    ControlEvent::Left => self.move_left(),
                    ControlEvent::Right => self.move_right(),
                    ControlEvent::Down => self.move_down(),
                    ControlEvent::Up => self.move_up(),
                    ControlEvent::Search => {},
                    ControlEvent::Back => {},
                    ControlEvent::Select => {},
                }
                UpdateAction::Continue
            },
        }
    }
}

/// The smaller of the two.
pub open spec fn spec_min(a: int, b: int) -> int {
    if a < b {
        a
    } else {
        b
    }
}

/// The names among `gs` that contain `term` ASCII-case-insensitively,
/// in order.
pub open spec fn spec_filter_names(gs: Seq<Seq<char>>, term: Seq<char>) -> Seq<Seq<char>>
    decreases gs.len(),
{
    if gs.len() == 0 {
        Seq::empty()
    } else {
        spec_filter_names(gs.drop_last(), term) + (if contains_ci(gs.last(), term) {
            seq![gs.last()]
        } else {
            Seq::empty()
        })
    }
}

/// One card with each of its game lists narrowed to the games whose
/// names contain `term`.
pub open spec fn spec_filter_card(c: CardView, term: Seq<char>) -> CardView {
    CardView {
        uuid: c.uuid,
        name: c.name,
        games: spec_filter_names(c.games, term),
        heroic: match c.heroic {
            Some(l) => Some(LibraryView { path: l.path, games: spec_filter_names(l.games, term) }),
            None => None,
        },
        lutris: match c.lutris {
            Some(l) => Some(LibraryView { path: l.path, games: spec_filter_names(l.games, term) }),
            None => None,
        },
    }
}

/// The whole catalog filtered by the search term.
pub open spec fn spec_filter_list(cs: Seq<CardView>, term: Seq<char>) -> Seq<CardView> {
    cs.map(|i: int, c: CardView| spec_filter_card(c, term))
}

/// The games whose names contain `term`, in their original order.
fn filter_games(games: &Vec<Game>, term: &str) -> (r: Vec<Game>)
    ensures
        crate::games::game_names(r@) == spec_filter_names(crate::games::game_names(games@), term@),
{
    let ghost gs = crate::games::game_names(games@);
    let mut r: Vec<Game> = Vec::new();
    let mut i: usize = 0;
    proof {
        assert(gs.take(0) =~= Seq::<Seq<char>>::empty());
        assert(crate::games::game_names(r@) =~= spec_filter_names(gs.take(0), term@));
    }
    while i < games.len()
        invariant
            0 <= i <= games@.len(),
            gs == crate::games::game_names(games@),
            crate::games::game_names(r@) == spec_filter_names(gs.take(i as int), term@),
        decreases games@.len() - i,
    {
        let ghost pre = crate::games::game_names(r@);
        if str_contains_ci(games[i].name.as_str(), term) {
            let ghost before = r@;
            r.push(Game { name: games[i].name.clone() });
            proof {
                assert(r@ == before.push(Game { name: games@[i as int].name }));
                assert(crate::games::game_names(r@) =~= pre.push(gs[i as int]));
                assert(pre.push(gs[i as int]) =~= pre + seq![gs[i as int]]);
            }
        } else {
            proof {
                assert(pre + Seq::<Seq<char>>::empty() =~= pre);
            }
        }
        proof {
            assert(gs.take(i as int + 1).drop_last() =~= gs.take(i as int));
            assert(gs.take(i as int + 1).last() == gs[i as int]);
            assert(crate::games::game_names(r@) == spec_filter_names(gs.take(i as int + 1), term@));
        }
        i = i + 1;
    }
    proof {
        assert(gs.take(gs.len() as int) =~= gs);
    }
    r
}

/// A copy of the catalog with every game list narrowed to the games
/// whose names contain the search term, ASCII-case-insensitively.  The
/// cards themselves all stay, in order, with identifier and name
/// untouched.
pub fn filter_list(list: &[Card], search_term: &str) -> (r: Vec<Card>)
    ensures
        cards_view(r@) == spec_filter_list(cards_view(list@), search_term@),
{
    let mut r: Vec<Card> = Vec::new();
    let mut i: usize = 0;
    proof {
        assert(cards_view(r@) =~= spec_filter_list(cards_view(list@), search_term@).take(0));
    }
    while i < list.len()
        invariant
            0 <= i <= list@.len(),
            cards_view(r@) == spec_filter_list(cards_view(list@), search_term@).take(i as int),
        decreases list@.len() - i,
    {
        let card = &list[i];
        let filtered = Card {
            uuid: card.uuid.clone(),
            name: card.name.clone(),
            games: filter_games(&card.games, search_term),
            heroic: match &card.heroic {
                Some(l) => Some(
                    crate::model::OtherLibrary {
                        path: l.path.clone(),
                        games: filter_games(&l.games, search_term),
                    },
                ),
                None => None,
            },
            lutris: match &card.lutris {
                Some(l) => Some(
                    crate::model::OtherLibrary {
                        path: l.path.clone(),
                        games: filter_games(&l.games, search_term),
                    },
                ),
                None => None,
            },
        };
        assert(filtered@ == spec_filter_card(cards_view(list@)[i as int], search_term@));
        let ghost pre = cards_view(r@);
        r.push(filtered);
        proof {
            let full = spec_filter_list(cards_view(list@), search_term@);
            assert(cards_view(r@) =~= pre.push(full[i as int]));
            assert(pre.push(full[i as int]) =~= full.take(i as int + 1));
        }
        i = i + 1;
    }
    proof {
        let full = spec_filter_list(cards_view(list@), search_term@);
        assert(full.take(full.len() as int) =~= full);
    }
    r
}

/// Whether the list page leaves this card out entirely: all its game
/// lists came out empty under a non-empty search term.
pub fn card_hidden_by_search(card: &Card, search_term: &str) -> (r: bool)
    ensures
        r == (card@.games.len() == 0 && (match card@.heroic {
            Some(l) => l.games.len() == 0,
            None => true,
        }) && (match card@.lutris {
            Some(l) => l.games.len() == 0,
            None => true,
        }) && search_term@.len() > 0),
{
    card.games.len() == 0 && (match &card.heroic {
        None => true,
        Some(heroic_list) => heroic_list.games.len() == 0,
    }) && (match &card.lutris {
        None => true,
        Some(lutris_list) => lutris_list.games.len() == 0,
    }) && !search_term.is_empty()
}

/// The display name stored for `uuid`, if any record carries it.
pub open spec fn spec_lookup_name(cards: Seq<CardView>, uuid: Seq<char>) -> Option<Seq<char>> {
    match spec_find_uuid(cards, uuid) {
        Some(i) => Some(cards[i].name),
        None => None,
    }
}

/// The display name of the first inserted volume, as the saved catalog
/// knows it: nothing when no volume is inserted or the first one is not
/// catalogued yet.
pub fn get_card_name(saved_list_of_cards: &[Card], inserted: &Vec<ScanData>) -> (r: Option<String>)
    ensures
        match r {
            Some(n) => inserted@.len() > 0 && spec_lookup_name(
                cards_view(saved_list_of_cards@),
                inserted@[0].uuid@,
            ) == Some(n@),
            None => inserted@.len() == 0 || (spec_lookup_name(
                cards_view(saved_list_of_cards@),
                inserted@[0].uuid@,
            ) is None),
        },
{
    if inserted.len() == 0 {
        return None;
    }
    let uuid = &inserted[0].uuid;
    let ghost s = cards_view(saved_list_of_cards@);
    let mut i: usize = 0;
    while i < saved_list_of_cards.len()
        invariant
            0 <= i <= saved_list_of_cards@.len(),
            s == cards_view(saved_list_of_cards@),
            inserted@.len() > 0,
            uuid == inserted@[0].uuid,
            forall|k: int| 0 <= k < i ==> (#[trigger] s[k]).uuid != uuid@,
        decreases saved_list_of_cards@.len() - i,
    {
        if saved_list_of_cards[i].uuid == *uuid {
            proof {
                crate::merge::lemma_find_uuid_props(s, uuid@);
                match spec_find_uuid(s, uuid@) {
                    Some(m) => {
                        if m < i {
                            assert(s[m].uuid != uuid@);
                        }
                        if m > i {
                            assert(s[i as int].uuid != uuid@);
                        }
                    },
                    None => {
                        assert(s[i as int].uuid != uuid@);
                    },
                }
            }
            return Some(saved_list_of_cards[i].name.clone());
        }
        i = i + 1;
    }
    proof {
        crate::merge::lemma_find_uuid_props(s, uuid@);
    }
    None
}

/// The catalog with the record carrying `uuid` renamed to `name`, and
/// every other record untouched.
pub open spec fn spec_rename(cs: Seq<CardView>, uuid: Seq<char>, name: Seq<char>) -> Seq<
    CardView,
> {
    cs.map(
        |i: int, c: CardView|
            if c.uuid == uuid {
                CardView { uuid: c.uuid, name, games: c.games, heroic: c.heroic, lutris: c.lutris }
            } else {
                c
            },
    )
}

/// A copy of the catalog in which every record carrying `card_uuid` is
/// given the display name `card_name`, and every other record stays as
/// it is.  The caller persists the result.
pub fn change_card_name(card_name: String, card_uuid: String, cards: &Vec<Card>) -> (r: Vec<Card>)
    ensures
        cards_view(r@) == spec_rename(cards_view(cards@), card_uuid@, card_name@),
{
    let ghost target = spec_rename(cards_view(cards@), card_uuid@, card_name@);
    let mut return_list: Vec<Card> = Vec::new();
    let mut i: usize = 0;
    proof {
        assert(cards_view(return_list@) =~= target.take(0));
    }
    while i < cards.len()
        invariant
            0 <= i <= cards@.len(),
            target == spec_rename(cards_view(cards@), card_uuid@, card_name@),
            cards_view(return_list@) == target.take(i as int),
        decreases cards@.len() - i,
    {
        let card = &cards[i];
        let ghost pre = cards_view(return_list@);
        if card.uuid == card_uuid {
            return_list.push(
                Card {
                    uuid: card.uuid.clone(),
                    name: card_name.clone(),
                    games: crate::model::copy_games(&card.games),
                    heroic: crate::model::copy_library_opt(&card.heroic),
                    lutris: crate::model::copy_library_opt(&card.lutris),
                },
            );
        } else {
            return_list.push(copy_card(card));
        }
        proof {
            assert(cards_view(return_list@) =~= pre.push(target[i as int]));
            assert(pre.push(target[i as int]) =~= target.take(i as int + 1));
        }
        i = i + 1;
    }
    proof {
        assert(target.take(target.len() as int) =~= target);
    }
    return_list
}

} // verus!
