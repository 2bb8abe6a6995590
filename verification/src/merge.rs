//! Catalog reconciliation: merging freshly observed volumes into the
//! persisted catalog.
//!
//! The catalog is keyed by the volumes' stable identifiers.  A known
//! identifier whose rescan succeeds has its scanned fields replaced in
//! place, keeping its display name; a failed rescan leaves the record
//! untouched.  An unknown identifier whose scan succeeds is appended
//! under an auto-generated name; records of volumes that are not
//! observed are never removed or changed.

use vstd::prelude::*;
use vstd::pervasive::VecAdditionalExecFns;
use vstd::string::StringExecFns;

use crate::games::{list_games, sort_names};
use crate::locate::{
    find_other_game_folders, spec_keyword, spec_locate, LibraryType, SnapshotView, VolumeSnapshot,
};
use crate::model::{cards_view, opt_card_view, uuids_unique, Card, CardView, ScanData, ScanView};
use crate::text::{dec_rep, usize_to_string};

verus! {

/// One volume as the enumeration and the filesystem reads presented it:
/// its identity and mount path, and the directory names found on it.
pub struct ObservedVolume {
    /// The identifier and mount path taken from the device table.
    pub data: ScanData,
    /// The directory names read from the volume.
    pub snapshot: VolumeSnapshot,
}

/// The mathematical content of an [`ObservedVolume`].
pub struct ObservedView {
    pub data: ScanView,
    pub snapshot: SnapshotView,
}

impl View for ObservedVolume {
    type V = ObservedView;

    open spec fn view(&self) -> ObservedView {
        ObservedView { data: self.data@, snapshot: self.snapshot@ }
    }
}

/// The views of a sequence of observed volumes.
pub open spec fn observed_views(v: Seq<ObservedVolume>) -> Seq<ObservedView> {
    v.map(|i: int, o: ObservedVolume| o@)
}

/// What scanning one observed volume yields: nothing when the primary
/// library folder cannot be read; otherwise a full record with the
/// ordered primary games and the located non-primary libraries.  The
/// display name is the one handed in, or the first-scan default.
pub open spec fn spec_scan_card(data: ScanView, snap: SnapshotView) -> Option<CardView> {
    match snap.primary_games {
        None => None,
        Some(games) => Some(
            CardView {
                uuid: data.uuid,
                name: match data.name {
                    Some(n) => n,
                    None => "SD Card 1"@,
                },
                games: sort_names(games),
                heroic: spec_locate(data.card_path, snap, spec_keyword(LibraryType::Heroic)),
                lutris: spec_locate(data.card_path, snap, spec_keyword(LibraryType::Lutris)),
            },
        ),
    }
}

/// Scans one volume: the primary games from the conventional primary
/// library folder, and the Lutris and Heroic libraries through the
/// fallback search.  Fails exactly when the primary folder's listing
/// is unavailable.
pub fn scan_card(data: ScanData, snap: &VolumeSnapshot) -> (r: Option<Card>)
    ensures
        opt_card_view(r) == spec_scan_card(data@, snap@),
{
    let games_names = match &snap.primary_games {
        None => {
            return None;
        },
        Some(names) => names,
    };
    let games = list_games(games_names);
    let (lutris, heroic) = find_other_game_folders(data.card_path.as_str(), snap);
    let name = match data.name {
        Some(n) => n,
        None => String::from_str("SD Card 1"),
    };
    let card = Card { uuid: data.uuid, name, games, heroic, lutris };
    assert(card@ == spec_scan_card(data@, snap@)->0);
    Some(card)
}

/// The auto-generated display name of the `n`-th record: the digits of
/// `n` after the fixed prefix.
pub open spec fn spec_card_name(n: nat) -> Seq<char> {
    "SD Card "@ + dec_rep(n)
}

/// The auto-generated display name of the `n`-th record.
pub fn card_name(n: usize) -> (r: String)
    ensures
        r@ == spec_card_name(n as nat),
{
    let mut s = String::from_str("SD Card ");
    let digits = usize_to_string(n);
    s.append(digits.as_str());
    s
}

/// The position of the first record carrying `uuid`, if any.
pub open spec fn spec_find_uuid(s: Seq<CardView>, uuid: Seq<char>) -> Option<int>
    decreases s.len(),
{
    if s.len() == 0 {
        None
    } else if s[0].uuid == uuid {
        Some(0)
    } else {
        match spec_find_uuid(s.drop_first(), uuid) {
            Some(i) => Some(i + 1),
            None => None,
        }
    }
}

/// [`spec_find_uuid`] finds the first match, and only fails when no
/// record matches.
pub proof fn lemma_find_uuid_props(s: Seq<CardView>, uuid: Seq<char>)
    ensures
        match spec_find_uuid(s, uuid) {
            Some(i) => 0 <= i < s.len() && s[i].uuid == uuid && (forall|k: int|
                0 <= k < i ==> s[k].uuid != uuid),
            None => forall|k: int| 0 <= k < s.len() ==> s[k].uuid != uuid,
        },
    decreases s.len(),
{
    if s.len() > 0 && s[0].uuid != uuid {
        lemma_find_uuid_props(s.drop_first(), uuid);
        match spec_find_uuid(s.drop_first(), uuid) {
            Some(i) => {
                assert(s.drop_first()[i] == s[i + 1]);
                assert forall|k: int| 0 <= k < i + 1 implies #[trigger] s[k].uuid != uuid by {
                    if k > 0 {
                        assert(s.drop_first()[k - 1] == s[k]);
                    }
                }
            },
            None => {
                assert forall|k: int| 0 <= k < s.len() implies #[trigger] s[k].uuid != uuid by {
                    if k > 0 {
                        assert(s.drop_first()[k - 1] == s[k]);
                    }
                }
            },
        }
    }
}

/// The position of the first record carrying `uuid`, if any.
fn find_card_index(list: &Vec<Card>, uuid: &String) -> (r: Option<usize>)
    ensures
        match r {
            Some(i) => i < list@.len() && spec_find_uuid(cards_view(list@), uuid@) == Some(
                i as int,
            ),
            None => spec_find_uuid(cards_view(list@), uuid@) is None,
        },
{
    let ghost s = cards_view(list@);
    let mut i: usize = 0;
    while i < list.len()
        invariant
            0 <= i <= list@.len(),
            s == cards_view(list@),
            forall|k: int| 0 <= k < i ==> s[k].uuid != uuid@,
        decreases list@.len() - i,
    {
        if list[i].uuid == *uuid {
            proof {
                lemma_find_uuid_props(s, uuid@);
                match spec_find_uuid(s, uuid@) {
                    Some(m) => {
                        if m < i {
                            assert(s[m].uuid != uuid@);
                        }
                        if m > i {
                            assert(s[i as int].uuid != uuid@);
                        }
                    },
                    None => {
                        assert(s[i as int].uuid != uuid@);
                    },
                }
            }
            return Some(i);
        }
        i = i + 1;
    }
    proof {
        lemma_find_uuid_props(s, uuid@);
    }
    None
}

/// One reconciliation step: what the catalog becomes when one observed
/// volume is taken in.  A known identifier is rescanned under its
/// current name and replaced in place on success; an unknown one is
/// scanned under the next auto-generated name and appended on success;
/// on failure the catalog is left as it is.
pub open spec fn spec_reconcile_step(cards: Seq<CardView>, o: ObservedView) -> Seq<CardView> {
    match spec_find_uuid(cards, o.data.uuid) {
        Some(i) => {
            match spec_scan_card(
                ScanView {
                    card_path: o.data.card_path,
                    uuid: o.data.uuid,
                    name: Some(cards[i].name),
                },
                o.snapshot,
            ) {
                Some(c) => cards.update(i, c),
                None => cards,
            }
        },
        None => {
            match spec_scan_card(
                ScanView {
                    card_path: o.data.card_path,
                    uuid: o.data.uuid,
                    name: Some(spec_card_name((cards.len() + 1) as nat)),
                },
                o.snapshot,
            ) {
                Some(c) => cards.push(c),
                None => cards,
            }
        },
    }
}

/// The catalog after the observed volumes are taken in, one after the
/// other in observation order.
pub open spec fn spec_reconcile(cards: Seq<CardView>, obs: Seq<ObservedView>) -> Seq<CardView>
    decreases obs.len(),
{
    if obs.len() == 0 {
        cards
    } else {
        spec_reconcile(spec_reconcile_step(cards, obs[0]), obs.drop_first())
    }
}

/// Taking in one more volume at the end is one more step.
pub proof fn lemma_reconcile_snoc(c: Seq<CardView>, os: Seq<ObservedView>, o: ObservedView)
    ensures
        spec_reconcile(c, os.push(o)) == spec_reconcile_step(spec_reconcile(c, os), o),
    decreases os.len(),
{
    if os.len() == 0 {
        assert(os.push(o)[0] == o);
        assert(os.push(o).drop_first() =~= Seq::<ObservedView>::empty());
        assert(spec_reconcile(c, os.push(o)) == spec_reconcile(
            spec_reconcile_step(c, o),
            Seq::<ObservedView>::empty(),
        ));
        assert(spec_reconcile(c, os) == c);
    } else {
        assert(os.push(o)[0] == os[0]);
        assert(os.push(o).drop_first() =~= os.drop_first().push(o));
        lemma_reconcile_snoc(spec_reconcile_step(c, os[0]), os.drop_first(), o);
        assert(spec_reconcile(c, os.push(o)) == spec_reconcile(
            spec_reconcile_step(c, os[0]),
            os.drop_first().push(o),
        ));
        assert(spec_reconcile(c, os) == spec_reconcile(
            spec_reconcile_step(c, os[0]),
            os.drop_first(),
        ));
    }
}

/// Reconciles the catalog with the observed volumes, as
/// [`spec_reconcile`] describes: known identifiers are rescanned in
/// place with their names kept, unknown ones are appended under
/// auto-generated names, failed scans change nothing, and records of
/// unobserved volumes stay exactly as they were.
pub fn update_list(list: &mut Vec<Card>, observed: &Vec<ObservedVolume>)
    requires
        old(list)@.len() + observed@.len() <= usize::MAX,
    ensures
        cards_view(final(list)@) == spec_reconcile(
            cards_view(old(list)@),
            observed_views(observed@),
        ),
{
    let ghost orig = cards_view(old(list)@);
    let ghost ovs = observed_views(observed@);
    let mut j: usize = 0;
    proof {
        assert(ovs.take(0) =~= Seq::<ObservedView>::empty());
    }
    while j < observed.len()
        invariant
            0 <= j <= observed@.len(),
            ovs == observed_views(observed@),
            orig.len() + ovs.len() <= usize::MAX,
            list@.len() <= orig.len() + j,
            cards_view(list@) == spec_reconcile(orig, ovs.take(j as int)),
        decreases observed@.len() - j,
    {
        let ghost pre = cards_view(list@);
        let o = &observed[j];
        assert(ovs[j as int] == o@);
        let idx = find_card_index(list, &o.data.uuid);
        match idx {
            Some(i) => {
                let d = ScanData {
                    card_path: o.data.card_path.clone(),
                    uuid: o.data.uuid.clone(),
                    name: Some(list[i].name.clone()),
                };
                assert(d@ == (ScanView {
                    card_path: o@.data.card_path,
                    uuid: o@.data.uuid,
                    name: Some(pre[i as int].name),
                }));
                let scanned = scan_card(d, &o.snapshot);
                match scanned {
                    Some(c) => {
                        list.set(i, c);
                        proof {
                            assert(cards_view(list@) =~= pre.update(i as int, c@));
                        }
                    },
                    None => {},
                }
            },
            None => {
                let nm = card_name(list.len() + 1);
                let d = ScanData {
                    card_path: o.data.card_path.clone(),
                    uuid: o.data.uuid.clone(),
                    name: Some(nm),
                };
                assert(d@ == (ScanView {
                    card_path: o@.data.card_path,
                    uuid: o@.data.uuid,
                    name: Some(spec_card_name((pre.len() + 1) as nat)),
                }));
                let scanned = scan_card(d, &o.snapshot);
                match scanned {
                    Some(c) => {
                        list.push(c);
                        proof {
                            assert(cards_view(list@) =~= pre.push(c@));
                        }
                    },
                    None => {},
                }
            },
        }
        proof {
            assert(cards_view(list@) == spec_reconcile_step(pre, ovs[j as int]));
            lemma_reconcile_snoc(orig, ovs.take(j as int), ovs[j as int]);
            assert(ovs.take(j as int).push(ovs[j as int]) =~= ovs.take(j as int + 1));
        }
        j = j + 1;
    }
    proof {
        assert(ovs.take(ovs.len() as int) =~= ovs);
    }
}

/// The catalog to show and persist: the saved catalog — or an empty one
/// when nothing was saved or the saved file could not be used —
/// reconciled with the observed volumes.
pub fn get_card_data(saved: Option<Vec<Card>>, observed: &Vec<ObservedVolume>) -> (r: Vec<Card>)
    requires
        (match saved {
            Some(list) => list@.len(),
            None => 0,
        }) + observed@.len() <= usize::MAX,
    ensures
        cards_view(r@) == spec_reconcile(
            match saved {
                Some(list) => cards_view(list@),
                None => Seq::empty(),
            },
            observed_views(observed@),
        ),
{
    match saved {
        Some(mut list) => {
            update_list(&mut list, observed);
            list
        },
        None => {
            let mut list: Vec<Card> = Vec::new();
            proof {
                assert(cards_view(list@) =~= Seq::<CardView>::empty());
            }
            update_list(&mut list, observed);
            list
        },
    }
}


/// Whether scanning this observed volume succeeds: exactly when the
/// primary library folder's listing could be read.
pub open spec fn spec_scan_ok(o: ObservedView) -> bool {
    o.snapshot.primary_games is Some
}

/// The record scanned from `o` under display name `name`.
pub open spec fn spec_scanned_with(o: ObservedView, name: Seq<char>) -> Option<CardView> {
    spec_scan_card(
        ScanView { card_path: o.data.card_path, uuid: o.data.uuid, name: Some(name) },
        o.snapshot,
    )
}

/// The position in `obs` of the last entry carrying `uuid` whose scan
/// succeeds, if any.
pub open spec fn spec_last_success(obs: Seq<ObservedView>, uuid: Seq<char>) -> Option<int>
    decreases obs.len(),
{
    if obs.len() == 0 {
        None
    } else {
        match spec_last_success(obs.drop_first(), uuid) {
            Some(j) => Some(j + 1),
            None => if obs[0].data.uuid == uuid && spec_scan_ok(obs[0]) {
                Some(0)
            } else {
                None
            },
        }
    }
}

/// A last success points at an entry that carries `uuid` and scans
/// successfully.
proof fn lemma_last_success_props(obs: Seq<ObservedView>, uuid: Seq<char>)
    ensures
        match spec_last_success(obs, uuid) {
            Some(j) => 0 <= j < obs.len() && obs[j].data.uuid == uuid && spec_scan_ok(obs[j]),
            None => true,
        },
    decreases obs.len(),
{
    if obs.len() > 0 {
        lemma_last_success_props(obs.drop_first(), uuid);
        if spec_last_success(obs.drop_first(), uuid) is Some {
            let j = spec_last_success(obs.drop_first(), uuid)->0;
            assert(obs.drop_first()[j] == obs[j + 1]);
        }
    }
}

/// When no entry carrying `uuid` scans successfully, there is no last
/// success for it.
proof fn lemma_last_success_none(obs: Seq<ObservedView>, uuid: Seq<char>)
    requires
        forall|k: int|
            0 <= k < obs.len() && (#[trigger] obs[k]).data.uuid == uuid ==> !spec_scan_ok(obs[k]),
    ensures
        spec_last_success(obs, uuid) is None,
    decreases obs.len(),
{
    if obs.len() > 0 {
        assert forall|k: int|
            0 <= k < obs.drop_first().len() && (#[trigger] obs.drop_first()[k]).data.uuid
                == uuid implies !spec_scan_ok(obs.drop_first()[k]) by {
            assert(obs.drop_first()[k] == obs[k + 1]);
        }
        lemma_last_success_none(obs.drop_first(), uuid);
    }
}

/// One reconciliation step never drops records, never changes a stored
/// identifier or display name, adds at most one record, keeps the
/// identifiers unique, and makes a successfully scanned volume present.
proof fn lemma_step_identity(c: Seq<CardView>, o: ObservedView)
    ensures
        c.len() <= spec_reconcile_step(c, o).len() <= c.len() + 1,
        forall|i: int|
            0 <= i < c.len() ==> (#[trigger] spec_reconcile_step(c, o)[i]).uuid == c[i].uuid
                && spec_reconcile_step(c, o)[i].name == c[i].name,
        uuids_unique(c) ==> uuids_unique(spec_reconcile_step(c, o)),
        spec_scan_ok(o) ==> exists|p: int|
            0 <= p < spec_reconcile_step(c, o).len() && (#[trigger] spec_reconcile_step(c, o)[p]).uuid
                == o.data.uuid,
{
    lemma_find_uuid_props(c, o.data.uuid);
    let d = spec_reconcile_step(c, o);
    match spec_find_uuid(c, o.data.uuid) {
        Some(i0) => {
            if spec_scan_ok(o) {
                assert(d[i0].uuid == o.data.uuid);
                assert(forall|i: int| 0 <= i < c.len() ==> (#[trigger] d[i]).uuid == c[i].uuid);
                if uuids_unique(c) {
                    assert forall|i: int, j: int| 0 <= i < j < d.len() implies (#[trigger] d[i]).uuid
                        != (#[trigger] d[j]).uuid by {
                        assert(d[i].uuid == c[i].uuid);
                        assert(d[j].uuid == c[j].uuid);
                    }
                }
            } else {
                assert(d == c);
                assert(d[i0].uuid == o.data.uuid);
            }
        },
        None => {
            if spec_scan_ok(o) {
                assert(d == c.push(spec_scanned_with(o, spec_card_name((c.len() + 1) as nat))->0));
                assert(d[c.len() as int].uuid == o.data.uuid);
                if uuids_unique(c) {
                    assert forall|i: int, j: int| 0 <= i < j < d.len() implies (#[trigger] d[i]).uuid
                        != (#[trigger] d[j]).uuid by {
                        if j == c.len() {
                            assert(c[i].uuid != o.data.uuid);
                        }
                    }
                }
            } else {
                assert(d == c);
            }
        },
    }
}

/// Identity preservation: reconciliation never drops a record and never
/// changes a stored identifier or display name; identifiers stay
/// unique; and every observed volume whose scan succeeded has a record
/// in the result.
pub proof fn lemma_reconcile_identity(c: Seq<CardView>, obs: Seq<ObservedView>)
    ensures
        spec_reconcile(c, obs).len() >= c.len(),
        forall|i: int|
            0 <= i < c.len() ==> (#[trigger] spec_reconcile(c, obs)[i]).uuid == c[i].uuid
                && spec_reconcile(c, obs)[i].name == c[i].name,
        uuids_unique(c) ==> uuids_unique(spec_reconcile(c, obs)),
        forall|k: int|
            0 <= k < obs.len() && spec_scan_ok(#[trigger] obs[k]) ==> exists|p: int|
                0 <= p < spec_reconcile(c, obs).len() && (#[trigger] spec_reconcile(c, obs)[p]).uuid
                    == obs[k].data.uuid,
    decreases obs.len(),
{
    if obs.len() > 0 {
        let c1 = spec_reconcile_step(c, obs[0]);
        let d = spec_reconcile(c, obs);
        lemma_step_identity(c, obs[0]);
        lemma_reconcile_identity(c1, obs.drop_first());
        assert(d == spec_reconcile(c1, obs.drop_first()));
        assert forall|k: int|
            0 <= k < obs.len() && spec_scan_ok(#[trigger] obs[k]) implies exists|p: int|
                0 <= p < d.len() && (#[trigger] d[p]).uuid == obs[k].data.uuid by {
            if k == 0 {
                let p = choose|p: int|
                    0 <= p < c1.len() && (#[trigger] c1[p]).uuid == obs[0].data.uuid;
                assert(d[p].uuid == c1[p].uuid);
            } else {
                assert(obs.drop_first()[k - 1] == obs[k]);
                assert(spec_scan_ok(obs.drop_first()[k - 1]));
            }
        }
    }
}

/// Field determination: in the reconciled catalog, a record whose
/// identifier had a successful scan carries exactly the fields of the
/// last such scan, and any other record is an unchanged record of the
/// input catalog.
pub proof fn lemma_reconcile_fields(c: Seq<CardView>, obs: Seq<ObservedView>)
    requires
        uuids_unique(c),
    ensures
        forall|p: int|
            0 <= p < spec_reconcile(c, obs).len() ==> match spec_last_success(
                obs,
                (#[trigger] spec_reconcile(c, obs)[p]).uuid,
            ) {
                Some(j) => spec_reconcile(c, obs)[p] == spec_scanned_with(
                    obs[j],
                    spec_reconcile(c, obs)[p].name,
                )->0,
                None => p < c.len() && spec_reconcile(c, obs)[p] == c[p],
            },
    decreases obs.len(),
{
    let d = spec_reconcile(c, obs);
    if obs.len() == 0 {
        assert(d == c);
    } else {
        let o = obs[0];
        let rest = obs.drop_first();
        let c1 = spec_reconcile_step(c, o);
        lemma_step_identity(c, o);
        lemma_find_uuid_props(c, o.data.uuid);
        lemma_reconcile_fields(c1, rest);
        assert(d == spec_reconcile(c1, rest));
        assert forall|p: int| 0 <= p < d.len() implies match spec_last_success(
            obs,
            (#[trigger] d[p]).uuid,
        ) {
            Some(j) => d[p] == spec_scanned_with(obs[j], d[p].name)->0,
            None => p < c.len() && d[p] == c[p],
        } by {
            let u = d[p].uuid;
            lemma_last_success_props(rest, u);
            match spec_last_success(rest, u) {
                Some(j1) => {
                    assert(spec_last_success(obs, u) == Some(j1 + 1));
                    assert(rest[j1] == obs[j1 + 1]);
                },
                None => {
                    // by the inner induction the record is untouched past the
                    // first step
                    assert(p < c1.len() && d[p] == c1[p]);
                    match spec_find_uuid(c, o.data.uuid) {
                        Some(i0) => {
                            if spec_scan_ok(o) {
                                assert(c1 == c.update(
                                    i0,
                                    spec_scanned_with(o, c[i0].name)->0,
                                ));
                                if p == i0 {
                                    assert(u == o.data.uuid && spec_scan_ok(o));
                                    assert(spec_last_success(obs, u) == Some(0int));
                                    assert(d[p] == spec_scanned_with(o, c[i0].name)->0);
                                    assert(d[p].name == c[i0].name);
                                } else {
                                    assert(c1[p] == c[p]);
                                    if u == o.data.uuid && spec_scan_ok(o) {
                                        assert(c[p].uuid == u && c[i0].uuid == u);
                                        assert(false);
                                    }
                                    assert(spec_last_success(obs, u) is None);
                                }
                            } else {
                                assert(c1 == c);
                                assert(!(u == o.data.uuid && spec_scan_ok(o)));
                                assert(spec_last_success(obs, u) is None);
                            }
                        },
                        None => {
                            if spec_scan_ok(o) {
                                let fresh = spec_scanned_with(
                                    o,
                                    spec_card_name((c.len() + 1) as nat),
                                )->0;
                                assert(c1 == c.push(fresh));
                                if p == c.len() {
                                    assert(u == o.data.uuid);
                                    assert(spec_last_success(obs, u) == Some(0int));
                                    assert(d[p] == fresh);
                                    assert(d[p].name == spec_card_name((c.len() + 1) as nat));
                                } else {
                                    assert(c1[p] == c[p]);
                                    if u == o.data.uuid {
                                        assert(c[p].uuid != o.data.uuid);
                                        assert(false);
                                    }
                                    assert(spec_last_success(obs, u) is None);
                                }
                            } else {
                                assert(c1 == c);
                                assert(!(u == o.data.uuid && spec_scan_ok(o)));
                                assert(spec_last_success(obs, u) is None);
                            }
                        },
                    }
                },
            }
        }
    }
}


/// Replaying observations onto a catalog they already determine brings
/// it back: if `d` carries, for every identifier with a successful scan
/// in `obs`, the fields of the last such scan, and `e` differs from `d`
/// at most at such positions, then reconciling `e` with `obs` yields
/// exactly `d`.
proof fn lemma_reconcile_replay(d: Seq<CardView>, e: Seq<CardView>, obs: Seq<ObservedView>)
    requires
        uuids_unique(d),
        e.len() == d.len(),
        forall|p: int|
            0 <= p < d.len() ==> (#[trigger] e[p]).uuid == d[p].uuid && e[p].name == d[p].name,
        forall|p: int|
            0 <= p < d.len() ==> match spec_last_success(obs, (#[trigger] d[p]).uuid) {
                Some(j) => d[p] == spec_scanned_with(obs[j], d[p].name)->0,
                None => e[p] == d[p],
            },
        forall|k: int|
            0 <= k < obs.len() && spec_scan_ok(#[trigger] obs[k]) ==> exists|p: int|
                0 <= p < d.len() && (#[trigger] d[p]).uuid == obs[k].data.uuid,
    ensures
        spec_reconcile(e, obs) == d,
    decreases obs.len(),
{
    if obs.len() == 0 {
        assert forall|p: int| 0 <= p < d.len() implies #[trigger] e[p] == d[p] by {
            assert(spec_last_success(obs, d[p].uuid) is None);
        }
        assert(e =~= d);
    } else {
        let o = obs[0];
        let rest = obs.drop_first();
        let u0 = o.data.uuid;
        lemma_find_uuid_props(e, u0);
        let e1 = spec_reconcile_step(e, o);
        if !spec_scan_ok(o) {
            assert(e1 == e);
        } else {
            // the identifier is already catalogued, so the step rescans in
            // place
            assert(exists|p: int| 0 <= p < d.len() && (#[trigger] d[p]).uuid == u0);
            let pw = choose|p: int| 0 <= p < d.len() && (#[trigger] d[p]).uuid == u0;
            assert(e[pw].uuid == u0);
            assert(spec_find_uuid(e, u0) is Some);
            let i0 = spec_find_uuid(e, u0)->0;
            assert(e[i0].uuid == u0);
            assert(d[i0].uuid == u0);
            assert(e1 == e.update(i0, spec_scanned_with(o, e[i0].name)->0));
            if spec_last_success(rest, u0) is None {
                assert(spec_last_success(obs, u0) == Some(0int));
                assert(d[i0] == spec_scanned_with(o, d[i0].name)->0);
                assert(e[i0].name == d[i0].name);
                assert(e1[i0] == d[i0]);
            }
        }
        // the hypotheses carry over to the remaining observations
        assert(e1.len() == d.len());
        assert forall|p: int|
            0 <= p < d.len() implies (#[trigger] e1[p]).uuid == d[p].uuid && e1[p].name
            == d[p].name by {
            assert(e[p].uuid == d[p].uuid && e[p].name == d[p].name);
        }
        assert forall|p: int|
            0 <= p < d.len() implies match spec_last_success(rest, (#[trigger] d[p]).uuid) {
            Some(j) => d[p] == spec_scanned_with(rest[j], d[p].name)->0,
            None => e1[p] == d[p],
        } by {
            let u = d[p].uuid;
            lemma_last_success_props(rest, u);
            match spec_last_success(rest, u) {
                Some(j) => {
                    assert(spec_last_success(obs, u) == Some(j + 1));
                    assert(rest[j] == obs[j + 1]);
                },
                None => {
                    if u == u0 && spec_scan_ok(o) {
                        // this is the uniquely catalogued position of u0,
                        // which the step just set to the last scan
                        let i0 = spec_find_uuid(e, u0)->0;
                        assert(d[i0].uuid == u0);
                        assert(p == i0);
                    } else {
                        assert(spec_last_success(obs, u) is None);
                        assert(e[p] == d[p]);
                        if spec_scan_ok(o) {
                            let i0 = spec_find_uuid(e, u0)->0;
                            assert(d[i0].uuid == u0);
                            assert(p != i0);
                            assert(e1[p] == e[p]);
                        } else {
                            assert(e1[p] == e[p]);
                        }
                    }
                },
            }
        }
        assert forall|k: int|
            0 <= k < rest.len() && spec_scan_ok(#[trigger] rest[k]) implies exists|p: int|
                0 <= p < d.len() && (#[trigger] d[p]).uuid == rest[k].data.uuid by {
            assert(rest[k] == obs[k + 1]);
            assert(spec_scan_ok(obs[k + 1]));
        }
        lemma_reconcile_replay(d, e1, rest);
        assert(spec_reconcile(e, obs) == spec_reconcile(e1, rest));
    }
}

/// Idempotence: reconciling the same observations a second time into
/// the already reconciled catalog changes nothing.
pub proof fn lemma_reconcile_idempotent(c: Seq<CardView>, obs: Seq<ObservedView>)
    requires
        uuids_unique(c),
    ensures
        spec_reconcile(spec_reconcile(c, obs), obs) == spec_reconcile(c, obs),
{
    let d = spec_reconcile(c, obs);
    lemma_reconcile_identity(c, obs);
    lemma_reconcile_fields(c, obs);
    assert forall|p: int|
        0 <= p < d.len() implies match spec_last_success(obs, (#[trigger] d[p]).uuid) {
        Some(j) => d[p] == spec_scanned_with(obs[j], d[p].name)->0,
        None => d[p] == d[p],
    } by {
        assert(0 <= p < spec_reconcile(c, obs).len());
    }
    assert forall|k: int|
        0 <= k < obs.len() && spec_scan_ok(#[trigger] obs[k]) implies exists|p: int|
            0 <= p < d.len() && (#[trigger] d[p]).uuid == obs[k].data.uuid by {}
    lemma_reconcile_replay(d, d, obs);
}

/// Non-destructive failure: when every observation of a catalogued
/// identifier fails to scan, the reconciled catalog keeps that record
/// exactly as it was.
pub proof fn lemma_reconcile_failed_rescan(c: Seq<CardView>, obs: Seq<ObservedView>, i: int)
    requires
        uuids_unique(c),
        0 <= i < c.len(),
        forall|k: int|
            0 <= k < obs.len() && (#[trigger] obs[k]).data.uuid == c[i].uuid ==> !spec_scan_ok(
                obs[k],
            ),
    ensures
        spec_reconcile(c, obs)[i] == c[i],
{
    lemma_reconcile_identity(c, obs);
    lemma_reconcile_fields(c, obs);
    lemma_last_success_none(obs, c[i].uuid);
    assert(spec_reconcile(c, obs)[i].uuid == c[i].uuid);
}

/// No accidental eviction: a catalogued volume that is not among the
/// observed ones keeps its record exactly as it was.
pub proof fn lemma_reconcile_unobserved(c: Seq<CardView>, obs: Seq<ObservedView>, i: int)
    requires
        uuids_unique(c),
        0 <= i < c.len(),
        forall|k: int| 0 <= k < obs.len() ==> (#[trigger] obs[k]).data.uuid != c[i].uuid,
    ensures
        spec_reconcile(c, obs)[i] == c[i],
{
    lemma_reconcile_failed_rescan(c, obs, i);
}

/// New-volume naming: reconciling an empty catalog with one volume that
/// scans successfully yields one record, carrying the volume's
/// identifier and the first auto-generated display name.
pub open spec fn spec_first_scan(o: ObservedView) -> Seq<CardView> {
    spec_reconcile(Seq::empty(), Seq::empty().push(o))
}

pub proof fn lemma_new_volume_naming(o: ObservedView)
    requires
        spec_scan_ok(o),
    ensures
        spec_first_scan(o).len() == 1,
        spec_first_scan(o)[0].uuid == o.data.uuid,
        spec_first_scan(o)[0].name == ("SD Card 1"@),
{
    let c = Seq::<CardView>::empty();
    let obs = Seq::<ObservedView>::empty().push(o);
    assert(obs =~= seq![o]);
    assert(obs[0] == o);
    assert(obs.drop_first() =~= Seq::<ObservedView>::empty());
    assert(spec_find_uuid(c, o.data.uuid) is None);
    let d = spec_reconcile_step(c, o);
    assert(d == c.push(spec_scanned_with(o, spec_card_name(1))->0));
    assert(spec_reconcile(c, obs) == spec_reconcile(d, obs.drop_first()));
    assert(d[0].name == spec_card_name(1));
    assert(spec_card_name(1) == "SD Card 1"@) by {
        reveal_strlit("SD Card ");
        reveal_strlit("SD Card 1");
        assert(dec_rep(1) == seq![crate::text::dec_digit(1)]);
        assert("SD Card "@ + dec_rep(1) =~= "SD Card 1"@);
    }
}
} // verus!
