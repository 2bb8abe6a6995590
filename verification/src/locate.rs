//! Library location: the layered fallback search for non-primary game
//! libraries on a volume.
//!
//! The search works on a snapshot of the directory names found under the
//! volume root, taken exactly as deep as the search ever looks: the
//! immediate subdirectories of the root, their subdirectories, and the
//! names one level below those.  A listing that could not be read is
//! `None`, and any such failure on the search path makes the library
//! count as absent, exactly like a library that is not there.

use vstd::prelude::*;
use vstd::string::StringExecFns;

use crate::games::{list_games, sort_names, string_views};
use crate::model::{opt_library_view, LibraryView, OtherLibrary};
use crate::text::{contains_ci, str_contains_ci};

verus! {

/// A directory two levels below the volume root: its name and, when its
/// listing could be read, the names of the directories inside it.
pub struct InnerDir {
    pub name: String,
    pub entries: Option<Vec<String>>,
}

/// An immediate subdirectory of the volume root: its name and, when its
/// listing could be read, the directories inside it.
pub struct OuterDir {
    pub name: String,
    pub entries: Option<Vec<InnerDir>>,
}

/// What one volume's filesystem looked like when it was read: the listing
/// of the conventional primary library folder, and the listing of the
/// volume root down to the depth the fallback search examines.
pub struct VolumeSnapshot {
    /// The directory names inside the primary library folder, or `None`
    /// if that folder could not be read.
    pub primary_games: Option<Vec<String>>,
    /// The immediate subdirectories of the volume root, or `None` if the
    /// root could not be read.
    pub subdirs: Option<Vec<OuterDir>>,
}

/// The mathematical content of an [`InnerDir`].
pub struct InnerDirView {
    pub name: Seq<char>,
    pub entries: Option<Seq<Seq<char>>>,
}

impl View for InnerDir {
    type V = InnerDirView;

    open spec fn view(&self) -> InnerDirView {
        InnerDirView {
            name: self.name@,
            entries: match self.entries {
                Some(ref v) => Some(v@.map(|i: int, n: String| n@)),
                None => None,
            },
        }
    }
}

/// The mathematical content of an [`OuterDir`].
pub struct OuterDirView {
    pub name: Seq<char>,
    pub entries: Option<Seq<InnerDirView>>,
}

impl View for OuterDir {
    type V = OuterDirView;

    open spec fn view(&self) -> OuterDirView {
        OuterDirView {
            name: self.name@,
            entries: match self.entries {
                Some(ref v) => Some(v@.map(|i: int, d: InnerDir| d@)),
                None => None,
            },
        }
    }
}

/// The mathematical content of a [`VolumeSnapshot`].
pub struct SnapshotView {
    pub primary_games: Option<Seq<Seq<char>>>,
    pub subdirs: Option<Seq<OuterDirView>>,
}

impl View for VolumeSnapshot {
    type V = SnapshotView;

    open spec fn view(&self) -> SnapshotView {
        SnapshotView {
            primary_games: match self.primary_games {
                Some(ref v) => Some(v@.map(|i: int, n: String| n@)),
                None => None,
            },
            subdirs: match self.subdirs {
                Some(ref v) => Some(v@.map(|i: int, d: OuterDir| d@)),
                None => None,
            },
        }
    }
}

/// The non-primary library kinds the search can look for, and the two
/// indirection keywords of the fallback stages.
#[derive(Copy, Clone)]
pub enum LibraryType {
    Lutris,
    Heroic,
    Other,
    Game,
}

/// The keyword whose case-insensitive occurrence in a directory name
/// marks the directory as a candidate for `t`.
pub open spec fn spec_keyword(t: LibraryType) -> Seq<char> {
    match t {
        LibraryType::Lutris => "lutris"@,
        LibraryType::Heroic => "heroic"@,
        LibraryType::Other => "other"@,
        LibraryType::Game => "game"@,
    }
}

/// The keyword for `t`.
pub fn keyword(t: LibraryType) -> (r: &'static str)
    ensures
        r@ == spec_keyword(t),
{
    match t {
        LibraryType::Lutris => "lutris",
        LibraryType::Heroic => "heroic",
        LibraryType::Other => "other",
        LibraryType::Game => "game",
    }
}

/// The names of a sequence of root subdirectories.
pub open spec fn outer_names(s: Seq<OuterDirView>) -> Seq<Seq<char>> {
    s.map(|i: int, d: OuterDirView| d.name)
}

/// The names of a sequence of nested subdirectories.
pub open spec fn inner_names(s: Seq<InnerDirView>) -> Seq<Seq<char>> {
    s.map(|i: int, d: InnerDirView| d.name)
}

/// The positions, in order, of the names that contain `kw`
/// ASCII-case-insensitively.
pub open spec fn matching(l: Seq<Seq<char>>, kw: Seq<char>) -> Seq<int>
    decreases l.len(),
{
    if l.len() == 0 {
        Seq::empty()
    } else {
        matching(l.drop_last(), kw) + (if contains_ci(l.last(), kw) {
            seq![l.len() - 1]
        } else {
            Seq::empty()
        })
    }
}

/// The views of a vector of match positions.
pub open spec fn idx_views(s: Seq<usize>) -> Seq<int> {
    s.map(|i: int, x: usize| x as int)
}

/// Every match position is a position in the list.
pub proof fn lemma_matching_in_range(l: Seq<Seq<char>>, kw: Seq<char>)
    ensures
        forall|k: int|
            0 <= k < matching(l, kw).len() ==> 0 <= #[trigger] matching(l, kw)[k] < l.len(),
    decreases l.len(),
{
    if l.len() > 0 {
        lemma_matching_in_range(l.drop_last(), kw);
        let m = matching(l, kw);
        let prefix = matching(l.drop_last(), kw);
        assert forall|k: int| 0 <= k < m.len() implies 0 <= #[trigger] m[k] < l.len() by {
            if k < prefix.len() {
                assert(m[k] == prefix[k]);
            } else {
                assert(contains_ci(l.last(), kw));
                assert(m[k] == l.len() - 1);
            }
        }
    }
}

/// The views of a sequence of root subdirectories.
pub open spec fn outer_views(s: Seq<OuterDir>) -> Seq<OuterDirView> {
    s.map(|i: int, d: OuterDir| d@)
}

/// The views of a sequence of nested subdirectories.
pub open spec fn inner_views(s: Seq<InnerDir>) -> Seq<InnerDirView> {
    s.map(|i: int, d: InnerDir| d@)
}

/// A directory name joined onto a base path.
pub open spec fn spec_join(a: Seq<char>, b: Seq<char>) -> Seq<char> {
    a + "/"@ + b
}

/// The library resolved from a candidate directly under the volume root:
/// its path under the base, and its subdirectory names as the ordered
/// game list — or nothing if its listing could not be read.
pub open spec fn spec_resolve_outer(base: Seq<char>, o: OuterDirView) -> Option<LibraryView> {
    match o.entries {
        None => None,
        Some(inner) => Some(
            LibraryView { path: spec_join(base, o.name), games: sort_names(inner_names(inner)) },
        ),
    }
}

/// The library resolved from a candidate found inside the indirection
/// directory `o`.
pub open spec fn spec_resolve_inner(base: Seq<char>, o: OuterDirView, m: InnerDirView) -> Option<
    LibraryView,
> {
    match m.entries {
        None => None,
        Some(games) => Some(
            LibraryView {
                path: spec_join(spec_join(base, o.name), m.name),
                games: sort_names(games),
            },
        ),
    }
}

/// One indirection stage of the fallback search, over the candidates of
/// `top` at positions `idxs`, in order.  `None` means the stage found
/// nothing and the search may go on; `Some(res)` means the search is
/// over with result `res`: a library, or `Some(None)` when a candidate's
/// listing could not be read, the kind matched ambiguously inside a
/// candidate, or the resolved library's own listing could not be read.
pub open spec fn spec_search_indirect(
    base: Seq<char>,
    top: Seq<OuterDirView>,
    idxs: Seq<int>,
    kw: Seq<char>,
) -> Option<Option<LibraryView>>
    decreases idxs.len(),
{
    if idxs.len() == 0 {
        None
    } else {
        let o = top[idxs[0]];
        match o.entries {
            None => Some(None),
            Some(inner) => {
                let ms = matching(inner_names(inner), kw);
                if ms.len() == 1 {
                    Some(spec_resolve_inner(base, o, inner[ms[0]]))
                } else if ms.len() > 1 {
                    Some(None)
                } else {
                    spec_search_indirect(base, top, idxs.drop_first(), kw)
                }
            },
        }
    }
}

/// Where the fallback search finds the library of kind `kw` on a volume
/// mounted at `base`, reading the directory names in `snap`:
/// first the volume root itself; on zero root matches the directories
/// named like "other", then those named like "game", each searched inside
/// in enumeration order; exactly one candidate must match, anything else
/// (none anywhere, more than one in one place, or an unreadable listing
/// on the way) leaves the kind absent.
pub open spec fn spec_locate(base: Seq<char>, snap: SnapshotView, kw: Seq<char>) -> Option<
    LibraryView,
> {
    match snap.subdirs {
        None => None,
        Some(top) => {
            let ms = matching(outer_names(top), kw);
            if ms.len() == 1 {
                spec_resolve_outer(base, top[ms[0]])
            } else if ms.len() > 1 {
                None
            } else {
                match spec_search_indirect(base, top, matching(outer_names(top), "other"@), kw) {
                    Some(res) => res,
                    None => match spec_search_indirect(
                        base,
                        top,
                        matching(outer_names(top), "game"@),
                        kw,
                    ) {
                        Some(res) => res,
                        None => None,
                    },
                }
            }
        },
    }
}

/// The positions of the names among `names` that contain `kw`
/// ASCII-case-insensitively, in order.
pub fn match_indices(names: &Vec<String>, kw: &str) -> (r: Vec<usize>)
    ensures
        idx_views(r@) == matching(string_views(names@), kw@),
{
    let ghost l = string_views(names@);
    let mut r: Vec<usize> = Vec::new();
    let mut i: usize = 0;
    proof {
        assert(l.take(0) =~= Seq::<Seq<char>>::empty());
        assert(idx_views(r@) =~= matching(l.take(0), kw@));
    }
    while i < names.len()
        invariant
            0 <= i <= names@.len(),
            l == string_views(names@),
            idx_views(r@) == matching(l.take(i as int), kw@),
        decreases names@.len() - i,
    {
        let ghost prev = idx_views(r@);
        if str_contains_ci(names[i].as_str(), kw) {
            r.push(i);
            proof {
                assert(idx_views(r@) =~= prev.push(i as int));
                assert(prev.push(i as int) =~= prev + seq![i as int]);
            }
        }
        proof {
            assert(l.take(i as int + 1).drop_last() =~= l.take(i as int));
            assert(l.take(i as int + 1).last() == l[i as int]);
            if !contains_ci(l[i as int], kw@) {
                assert(prev + Seq::<int>::empty() =~= prev);
            }
            assert(idx_views(r@) == matching(l.take(i as int + 1), kw@));
        }
        i = i + 1;
    }
    proof {
        assert(l.take(l.len() as int) =~= l);
    }
    r
}

/// The names of the given root subdirectories, in order.
fn outer_name_list(v: &Vec<OuterDir>) -> (r: Vec<String>)
    ensures
        string_views(r@) == outer_names(outer_views(v@)),
{
    let mut r: Vec<String> = Vec::new();
    let mut i: usize = 0;
    while i < v.len()
        invariant
            0 <= i <= v@.len(),
            string_views(r@) =~= outer_names(outer_views(v@)).take(i as int),
        decreases v@.len() - i,
    {
        let ghost prev = r@;
        let x = v[i].name.clone();
        assert(x@ == v@[i as int].name@);
        r.push(x);
        proof {
            assert(r@ == prev.push(v@[i as int].name));
            assert(outer_views(v@)[i as int] == v@[i as int]@);
            assert(outer_names(outer_views(v@))[i as int] == v@[i as int].name@);
            assert(string_views(r@) =~= string_views(prev).push(v@[i as int].name@));
            assert(string_views(r@) =~= outer_names(outer_views(v@)).take(i as int + 1));
        }
        i = i + 1;
    }
    proof {
        assert(outer_names(outer_views(v@)).take(v@.len() as int) =~= outer_names(outer_views(v@)));
    }
    r
}

/// The names of the given nested subdirectories, in order.
fn inner_name_list(v: &Vec<InnerDir>) -> (r: Vec<String>)
    ensures
        string_views(r@) == inner_names(inner_views(v@)),
{
    let mut r: Vec<String> = Vec::new();
    let mut i: usize = 0;
    while i < v.len()
        invariant
            0 <= i <= v@.len(),
            string_views(r@) =~= inner_names(inner_views(v@)).take(i as int),
        decreases v@.len() - i,
    {
        let ghost prev = r@;
        let x = v[i].name.clone();
        assert(x@ == v@[i as int].name@);
        r.push(x);
        proof {
            assert(r@ == prev.push(v@[i as int].name));
            assert(inner_views(v@)[i as int] == v@[i as int]@);
            assert(inner_names(inner_views(v@))[i as int] == v@[i as int].name@);
            assert(string_views(r@) =~= string_views(prev).push(v@[i as int].name@));
            assert(string_views(r@) =~= inner_names(inner_views(v@)).take(i as int + 1));
        }
        i = i + 1;
    }
    proof {
        assert(inner_names(inner_views(v@)).take(v@.len() as int) =~= inner_names(inner_views(v@)));
    }
    r
}

/// `b` joined onto the path `a`.
fn join_path(a: &str, b: &str) -> (r: String)
    ensures
        r@ == spec_join(a@, b@),
{
    let mut s = a.to_owned();
    s.append("/");
    s.append(b);
    s
}

/// Resolves a candidate found directly under the volume root.
fn resolve_outer(card_path: &str, o: &OuterDir) -> (r: Option<OtherLibrary>)
    ensures
        opt_library_view(r) == spec_resolve_outer(card_path@, o@),
{
    match &o.entries {
        None => None,
        Some(inner) => {
            let names = inner_name_list(inner);
            let games = list_games(&names);
            let lib = OtherLibrary { path: join_path(card_path, o.name.as_str()), games };
            assert(lib@ == spec_resolve_outer(card_path@, o@)->0);
            Some(lib)
        },
    }
}

/// Resolves a candidate found inside the indirection directory `o`.
fn resolve_inner(card_path: &str, o: &OuterDir, m: &InnerDir) -> (r: Option<OtherLibrary>)
    ensures
        opt_library_view(r) == spec_resolve_inner(card_path@, o@, m@),
{
    match &m.entries {
        None => None,
        Some(games) => {
            let sorted = list_games(games);
            let base = join_path(card_path, o.name.as_str());
            let lib = OtherLibrary { path: join_path(base.as_str(), m.name.as_str()), games: sorted };
            assert(lib@ == spec_resolve_inner(card_path@, o@, m@)->0);
            Some(lib)
        },
    }
}

/// The view of a concluded-or-not search result.
pub open spec fn opt_opt_library_view(r: Option<Option<OtherLibrary>>) -> Option<
    Option<LibraryView>,
> {
    match r {
        Some(x) => Some(opt_library_view(x)),
        None => None,
    }
}

/// One indirection stage of the fallback search: examines the root
/// subdirectories whose names contain `stage_kw`, in order, and looks
/// for exactly one `kw` candidate inside each.
fn search_indirect(card_path: &str, subdirs: &Vec<OuterDir>, stage_kw: &str, kw: &str) -> (r:
    Option<Option<OtherLibrary>>)
    ensures
        opt_opt_library_view(r) == spec_search_indirect(
            card_path@,
            outer_views(subdirs@),
            matching(outer_names(outer_views(subdirs@)), stage_kw@),
            kw@,
        ),
{
    let ghost top = outer_views(subdirs@);
    let names = outer_name_list(subdirs);
    let cands = match_indices(&names, stage_kw);
    let ghost full = matching(outer_names(top), stage_kw@);
    proof {
        lemma_matching_in_range(outer_names(top), stage_kw@);
        assert(full.skip(0) =~= full);
    }
    let mut k: usize = 0;
    while k < cands.len()
        invariant
            0 <= k <= cands@.len(),
            top == outer_views(subdirs@),
            idx_views(cands@) == full,
            full == matching(outer_names(top), stage_kw@),
            forall|j: int| 0 <= j < full.len() ==> 0 <= #[trigger] full[j] < subdirs@.len(),
            spec_search_indirect(card_path@, top, full, kw@) == spec_search_indirect(
                card_path@,
                top,
                full.skip(k as int),
                kw@,
            ),
        decreases cands@.len() - k,
    {
        let idx = cands[k];
        let ghost rest = full.skip(k as int);
        proof {
            assert(full[k as int] == idx as int);
            assert(rest[0] == idx as int);
            assert(rest.len() > 0);
        }
        let o = &subdirs[idx];
        assert(top[rest[0]] == o@);
        match &o.entries {
            None => {
                return Some(None);
            },
            Some(inner) => {
                let inames = inner_name_list(inner);
                let ims = match_indices(&inames, kw);
                let ghost inner_ms = matching(inner_names(inner_views(inner@)), kw@);
                proof {
                    assert(idx_views(ims@) == inner_ms);
                    lemma_matching_in_range(inner_names(inner_views(inner@)), kw@);
                }
                if ims.len() == 1 {
                    let m = &inner[ims[0]];
                    assert(inner_views(inner@)[inner_ms[0]] == m@);
                    let res = resolve_inner(card_path, o, m);
                    return Some(res);
                }
                if ims.len() > 1 {
                    return Some(None);
                }
            },
        }
        proof {
            assert(rest.drop_first() =~= full.skip(k as int + 1));
        }
        k = k + 1;
    }
    proof {
        assert(full.skip(k as int).len() == 0);
    }
    None
}

/// Locates the library of kind `library_type` on a volume mounted at
/// `card_path`, whose directory names were read into `snap`: the layered
/// fallback search of the volume root, then of "other"-named folders,
/// then of "game"-named folders, each stage accepting exactly one
/// candidate.  Ambiguity, an unreadable listing on the way, or no match
/// at all leave the kind absent.
pub fn search_and_scan_folder(card_path: &str, snap: &VolumeSnapshot, library_type: LibraryType)
    -> (r: Option<OtherLibrary>)
    ensures
        opt_library_view(r) == spec_locate(card_path@, snap@, spec_keyword(library_type)),
{
    let subdirs = match &snap.subdirs {
        None => {
            return None;
        },
        Some(s) => s,
    };
    let ghost top = outer_views(subdirs@);
    let names = outer_name_list(subdirs);
    let kw = keyword(library_type);
    let ms = match_indices(&names, kw);
    let ghost full = matching(outer_names(top), spec_keyword(library_type));
    proof {
        assert(idx_views(ms@) == full);
        lemma_matching_in_range(outer_names(top), spec_keyword(library_type));
    }
    if ms.len() == 1 {
        let o = &subdirs[ms[0]];
        assert(top[full[0]] == o@);
        return resolve_outer(card_path, o);
    }
    if ms.len() > 1 {
        return None;
    }
    let other_result = search_indirect(card_path, subdirs, keyword(LibraryType::Other), kw);
    match other_result {
        Some(res) => res,
        None => {
            let game_result = search_indirect(card_path, subdirs, keyword(LibraryType::Game), kw);
            match game_result {
                Some(res) => res,
                None => None,
            }
        },
    }
}

/// Locates the Lutris and the Heroic library on a volume, in that order.
pub fn find_other_game_folders(card_path: &str, snap: &VolumeSnapshot) -> (r: (
    Option<OtherLibrary>,
    Option<OtherLibrary>,
))
    ensures
        opt_library_view(r.0) == spec_locate(card_path@, snap@, spec_keyword(LibraryType::Lutris)),
        opt_library_view(r.1) == spec_locate(card_path@, snap@, spec_keyword(LibraryType::Heroic)),
{
    let lutris = search_and_scan_folder(card_path, snap, LibraryType::Lutris);
    let heroic = search_and_scan_folder(card_path, snap, LibraryType::Heroic);
    (lutris, heroic)
}


/// [`matching`] lists, in increasing order, exactly the positions whose
/// names contain the keyword.
pub proof fn lemma_matching_props(l: Seq<Seq<char>>, kw: Seq<char>)
    ensures
        forall|k: int|
            0 <= k < matching(l, kw).len() ==> 0 <= #[trigger] matching(l, kw)[k] < l.len()
                && contains_ci(l[matching(l, kw)[k]], kw),
        forall|i: int|
            0 <= i < l.len() && contains_ci(#[trigger] l[i], kw) ==> matching(l, kw).contains(i),
        forall|k1: int, k2: int|
            0 <= k1 < k2 < matching(l, kw).len() ==> #[trigger] matching(l, kw)[k1]
                < #[trigger] matching(l, kw)[k2],
    decreases l.len(),
{
    if l.len() > 0 {
        lemma_matching_props(l.drop_last(), kw);
        let m = matching(l, kw);
        let prefix = matching(l.drop_last(), kw);
        assert forall|k: int|
            0 <= k < m.len() implies 0 <= #[trigger] m[k] < l.len() && contains_ci(
            l[m[k]],
            kw,
        ) by {
            if k < prefix.len() {
                assert(m[k] == prefix[k]);
                assert(l.drop_last()[prefix[k]] == l[prefix[k]]);
            } else {
                assert(contains_ci(l.last(), kw));
                assert(m[k] == l.len() - 1);
            }
        }
        assert forall|i: int|
            0 <= i < l.len() && contains_ci(#[trigger] l[i], kw) implies m.contains(i) by {
            if i < l.len() - 1 {
                assert(l.drop_last()[i] == l[i]);
                assert(prefix.contains(i));
                let k = choose|k: int| 0 <= k < prefix.len() && prefix[k] == i;
                assert(m[k] == i);
            } else {
                assert(l.last() == l[i]);
                assert(m[prefix.len() as int] == i);
            }
        }
        assert forall|k1: int, k2: int|
            0 <= k1 < k2 < m.len() implies #[trigger] m[k1] < #[trigger] m[k2] by {
            if k2 < prefix.len() {
                assert(m[k1] == prefix[k1] && m[k2] == prefix[k2]);
            } else {
                assert(m[k2] == l.len() - 1);
                assert(m[k1] == prefix[k1]);
                assert(0 <= prefix[k1] < l.drop_last().len());
            }
        }
    }
}

/// When exactly one position matches, the match list is that single
/// position.
pub proof fn lemma_matching_single(l: Seq<Seq<char>>, kw: Seq<char>, i: int)
    requires
        0 <= i < l.len(),
        contains_ci(l[i], kw),
        forall|p: int| 0 <= p < l.len() && p != i ==> !contains_ci(#[trigger] l[p], kw),
    ensures
        matching(l, kw) =~= seq![i],
{
    lemma_matching_props(l, kw);
    let m = matching(l, kw);
    assert(m.contains(i));
    let k0 = choose|k: int| 0 <= k < m.len() && m[k] == i;
    assert forall|k: int| 0 <= k < m.len() implies #[trigger] m[k] == i by {
        assert(contains_ci(l[m[k]], kw));
    }
    if m.len() >= 2 {
        assert(m[0] < m[1]);
        assert(false);
    }
}

/// When no position matches, the match list is empty.
pub proof fn lemma_matching_empty(l: Seq<Seq<char>>, kw: Seq<char>)
    requires
        forall|p: int| 0 <= p < l.len() ==> !contains_ci(#[trigger] l[p], kw),
    ensures
        matching(l, kw) =~= Seq::<int>::empty(),
{
    lemma_matching_props(l, kw);
    let m = matching(l, kw);
    if m.len() > 0 {
        assert(contains_ci(l[m[0]], kw));
        assert(false);
    }
}

/// Ambiguous-match absence: when two directories under the volume root
/// both carry the kind's keyword in their names, the search reports the
/// kind absent rather than picking one.
pub proof fn lemma_ambiguous_match_absent(
    base: Seq<char>,
    snap: SnapshotView,
    kw: Seq<char>,
    i: int,
    j: int,
)
    requires
        (snap.subdirs is Some),
        0 <= i < j < snap.subdirs->0.len(),
        contains_ci(snap.subdirs->0[i].name, kw),
        contains_ci(snap.subdirs->0[j].name, kw),
    ensures
        spec_locate(base, snap, kw) is None,
{
    let top = snap.subdirs->0;
    let names = outer_names(top);
    lemma_matching_props(names, kw);
    let m = matching(names, kw);
    assert(names[i] == top[i].name && names[j] == top[j].name);
    assert(m.contains(i) && m.contains(j));
    let ki = choose|k: int| 0 <= k < m.len() && m[k] == i;
    let kj = choose|k: int| 0 <= k < m.len() && m[k] == j;
    assert(ki != kj);
    assert(m.len() >= 2);
}

/// Fallback resolution: when the volume root has no directory named
/// for the kind but exactly one directory named like "other", and that
/// directory holds exactly one directory named for the kind whose
/// listing could be read, the search resolves the library there, with
/// the nested path and that directory's entries as its ordered games.
pub proof fn lemma_fallback_resolution(
    base: Seq<char>,
    snap: SnapshotView,
    kw: Seq<char>,
    oi: int,
    mi: int,
)
    requires
        (snap.subdirs is Some),
        forall|p: int|
            0 <= p < snap.subdirs->0.len() ==> !contains_ci(
                (#[trigger] snap.subdirs->0[p]).name,
                kw,
            ),
        0 <= oi < snap.subdirs->0.len(),
        contains_ci(snap.subdirs->0[oi].name, "other"@),
        forall|p: int|
            0 <= p < snap.subdirs->0.len() && p != oi ==> !contains_ci(
                (#[trigger] snap.subdirs->0[p]).name,
                "other"@,
            ),
        (snap.subdirs->0[oi].entries is Some),
        0 <= mi < snap.subdirs->0[oi].entries->0.len(),
        contains_ci(snap.subdirs->0[oi].entries->0[mi].name, kw),
        forall|q: int|
            0 <= q < snap.subdirs->0[oi].entries->0.len() && q != mi ==> !contains_ci(
                (#[trigger] snap.subdirs->0[oi].entries->0[q]).name,
                kw,
            ),
        (snap.subdirs->0[oi].entries->0[mi].entries is Some),
    ensures
        spec_locate(base, snap, kw) == Some(
            LibraryView {
                path: spec_join(
                    spec_join(base, snap.subdirs->0[oi].name),
                    snap.subdirs->0[oi].entries->0[mi].name,
                ),
                games: sort_names(snap.subdirs->0[oi].entries->0[mi].entries->0),
            },
        ),
        spec_locate(base, snap, kw)->0.games.len()
            == snap.subdirs->0[oi].entries->0[mi].entries->0.len(),
{
    let top = snap.subdirs->0;
    let o = top[oi];
    let inner = o.entries->0;
    let m = inner[mi];
    assert forall|p: int|
        0 <= p < outer_names(top).len() implies !contains_ci(
        #[trigger] outer_names(top)[p],
        kw,
    ) by {
        assert(outer_names(top)[p] == top[p].name);
    }
    lemma_matching_empty(outer_names(top), kw);
    assert(outer_names(top)[oi] == top[oi].name);
    lemma_matching_single(outer_names(top), "other"@, oi);
    let idxs = matching(outer_names(top), "other"@);
    assert(idxs[0] == oi);
    assert(inner_names(inner)[mi] == inner[mi].name);
    lemma_matching_single(inner_names(inner), kw, mi);
    assert(matching(inner_names(inner), kw) =~= seq![mi]);
    assert(spec_search_indirect(base, top, idxs, kw) == Some(spec_resolve_inner(base, o, m)));
    crate::games::lemma_sort_names_ensures(m.entries->0);
}
} // verus!
