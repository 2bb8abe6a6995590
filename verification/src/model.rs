//! The catalog data model: games, libraries, cards and scan inputs.
//!
//! A `Card` is the persisted record for one removable volume, keyed by the
//! volume's stable identifier (`uuid`).  A catalog is a `Vec<Card>` holding
//! at most one record per identifier.

use vstd::prelude::*;

verus! {

/// One game installation discovered in a library folder, named after its
/// directory.
pub struct Game {
    /// The game's folder name.
    pub name: String,
}

impl View for Game {
    type V = Seq<char>;

    open spec fn view(&self) -> Seq<char> {
        self.name@
    }
}

/// A located non-primary library (an alternate launcher's install
/// directory).  Absence of such a library is represented by `None` at the
/// use sites, never by an empty `OtherLibrary`.
pub struct OtherLibrary {
    /// The resolved path of the library's folder.
    pub path: String,
    /// The games found in the library's folder.
    pub games: Vec<Game>,
}

/// The mathematical content of an [`OtherLibrary`].
pub struct LibraryView {
    pub path: Seq<char>,
    pub games: Seq<Seq<char>>,
}

impl View for OtherLibrary {
    type V = LibraryView;

    open spec fn view(&self) -> LibraryView {
        LibraryView { path: self.path@, games: self.games@.map(|i: int, g: Game| g@) }
    }
}

/// The record kept for one removable volume.
pub struct Card {
    /// The volume's stable identifier; it never changes once assigned.
    pub uuid: String,
    /// The display name; chosen by the user, or auto-generated when the
    /// volume is first catalogued.
    pub name: String,
    /// The games of the primary (Steam) library.
    pub games: Vec<Game>,
    /// The Heroic library, if one was located.
    pub heroic: Option<OtherLibrary>,
    /// The Lutris library, if one was located.
    pub lutris: Option<OtherLibrary>,
}

/// The mathematical content of a [`Card`].
pub struct CardView {
    pub uuid: Seq<char>,
    pub name: Seq<char>,
    pub games: Seq<Seq<char>>,
    pub heroic: Option<LibraryView>,
    pub lutris: Option<LibraryView>,
}

/// The view of an optional library record.
pub open spec fn opt_library_view(l: Option<OtherLibrary>) -> Option<LibraryView> {
    match l {
        Some(lib) => Some(lib@),
        None => None,
    }
}

impl View for Card {
    type V = CardView;

    open spec fn view(&self) -> CardView {
        CardView {
            uuid: self.uuid@,
            name: self.name@,
            games: self.games@.map(|i: int, g: Game| g@),
            heroic: opt_library_view(self.heroic),
            lutris: opt_library_view(self.lutris),
        }
    }
}

/// What one observed volume contributes to a scan: where it is mounted,
/// which identifier it carries, and (when rescanning a known card) the
/// display name to keep.
pub struct ScanData {
    /// The path the volume is mounted at.
    pub card_path: String,
    /// The volume's stable identifier.
    pub uuid: String,
    /// The display name to give the scanned record, or `None` to use the
    /// default name of a first scan.
    pub name: Option<String>,
}

/// The mathematical content of a [`ScanData`].
pub struct ScanView {
    pub card_path: Seq<char>,
    pub uuid: Seq<char>,
    pub name: Option<Seq<char>>,
}

impl View for ScanData {
    type V = ScanView;

    open spec fn view(&self) -> ScanView {
        ScanView {
            card_path: self.card_path@,
            uuid: self.uuid@,
            name: match self.name {
                Some(ref n) => Some(n@),
                None => None,
            },
        }
    }
}

/// The views of a sequence of scan records.
pub open spec fn scan_views(v: Seq<ScanData>) -> Seq<ScanView> {
    v.map(|i: int, d: ScanData| d@)
}

/// The catalog as a sequence of card views.
pub open spec fn cards_view(v: Seq<Card>) -> Seq<CardView> {
    v.map(|i: int, c: Card| c@)
}

/// The view of an optional card record.
pub open spec fn opt_card_view(r: Option<Card>) -> Option<CardView> {
    match r {
        Some(c) => Some(c@),
        None => None,
    }
}

/// A well-formed catalog holds at most one record per volume identifier.
pub open spec fn uuids_unique(s: Seq<CardView>) -> bool {
    forall|i: int, j: int| 0 <= i < j < s.len() ==> s[i].uuid != s[j].uuid
}

/// The number of games a card holds across all its libraries.
pub open spec fn spec_games_count(c: CardView) -> int {
    c.games.len() + match c.lutris {
        Some(l) => l.games.len() as int,
        None => 0,
    } + match c.heroic {
        Some(l) => l.games.len() as int,
        None => 0,
    }
}

/// A copy of a game list, equal to the original.
pub fn copy_games(v: &Vec<Game>) -> (r: Vec<Game>)
    ensures
        r@ == v@,
{
    let mut r: Vec<Game> = Vec::new();
    let mut i: usize = 0;
    while i < v.len()
        invariant
            0 <= i <= v@.len(),
            r@ =~= v@.subrange(0, i as int),
        decreases v@.len() - i,
    {
        r.push(Game { name: v[i].name.clone() });
        assert(r@[i as int] == v@[i as int]);
        i = i + 1;
    }
    assert(r@ =~= v@);
    r
}

/// A copy of a library record with the same content.
pub fn copy_library(l: &OtherLibrary) -> (r: OtherLibrary)
    ensures
        r@ == l@,
{
    let r = OtherLibrary { path: l.path.clone(), games: copy_games(&l.games) };
    r
}

/// A copy of an optional library record with the same content.
pub fn copy_library_opt(l: &Option<OtherLibrary>) -> (r: Option<OtherLibrary>)
    ensures
        opt_library_view(r) == opt_library_view(*l),
{
    match l {
        Some(lib) => Some(copy_library(lib)),
        None => None,
    }
}

/// A copy of a card record with the same content.
pub fn copy_card(c: &Card) -> (r: Card)
    ensures
        r@ == c@,
{
    Card {
        uuid: c.uuid.clone(),
        name: c.name.clone(),
        games: copy_games(&c.games),
        heroic: copy_library_opt(&c.heroic),
        lutris: copy_library_opt(&c.lutris),
    }
}

/// How many games the card holds in total, over the primary library and
/// any located non-primary libraries.
pub fn card_games_count(card: &Card) -> (r: usize)
    requires
        spec_games_count(card@) <= usize::MAX,
    ensures
        r == spec_games_count(card@),
{
    let mut count = card.games.len();

    if let Some(heroic) = &card.heroic {
        count += heroic.games.len();
    }

    if let Some(lutris) = &card.lutris {
        count += lutris.games.len();
    }

    count
}

} // verus!
