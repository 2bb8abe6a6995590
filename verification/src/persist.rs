//! The catalog's persisted text form.
//!
//! The catalog is stored as one UTF-8 text: a record count, then each
//! record's fields in order, every string and list preceded by its
//! length in decimal digits closed by `:`.  An optional library is one
//! `-` when absent, or `+` followed by its fields.  Parsing is exact:
//! any text that is not precisely such an encoding of a well-formed
//! catalog is rejected, and the caller treats it as no catalog at all.

use vstd::prelude::*;
use vstd::string::StrSliceExecFns;
use vstd::string::StringExecFns;

use crate::model::{
    cards_view, uuids_unique, Card, CardView, Game, LibraryView, OtherLibrary,
};
use crate::games::{game_names, string_views};
use crate::text::{dec_rep, digit_val, is_dec_digit, usize_to_string};

verus! {

/// A count or length: its decimal digits closed by a colon.
pub open spec fn txt_num(n: nat) -> Seq<char> {
    dec_rep(n) + seq![':']
}

/// A string: its length, then its characters verbatim.
pub open spec fn txt_str(s: Seq<char>) -> Seq<char> {
    txt_num(s.len()) + s
}

/// A game list's names, one string after the other.
pub open spec fn txt_strs(gs: Seq<Seq<char>>) -> Seq<char>
    decreases gs.len(),
{
    if gs.len() == 0 {
        Seq::empty()
    } else {
        txt_str(gs[0]) + txt_strs(gs.drop_first())
    }
}

/// An optional library: `-` when absent, else `+`, its path, and its
/// games behind their count.
pub open spec fn txt_opt(l: Option<LibraryView>) -> Seq<char> {
    match l {
        None => seq!['-'],
        Some(lib) => seq!['+'] + txt_str(lib.path) + txt_num(lib.games.len()) + txt_strs(lib.games),
    }
}

/// One record: identifier, name, primary games behind their count, then
/// the two optional libraries.
pub open spec fn txt_card(c: CardView) -> Seq<char> {
    txt_str(c.uuid) + txt_str(c.name) + txt_num(c.games.len()) + txt_strs(c.games) + txt_opt(
        c.heroic,
    ) + txt_opt(c.lutris)
}

/// The records, one after the other.
pub open spec fn txt_cards(cs: Seq<CardView>) -> Seq<char>
    decreases cs.len(),
{
    if cs.len() == 0 {
        Seq::empty()
    } else {
        txt_card(cs[0]) + txt_cards(cs.drop_first())
    }
}

/// The whole catalog: the record count, then the records.
pub open spec fn spec_catalog_text(cs: Seq<CardView>) -> Seq<char> {
    txt_num(cs.len()) + txt_cards(cs)
}

/// Digit accumulation: reads digits from `i`, and yields the value and
/// the position after the closing colon.
pub open spec fn spec_parse_nat_rec(s: Seq<char>, i: int, acc: nat) -> Option<(nat, int)>
    decreases s.len() - i,
{
    if i < 0 || i >= s.len() {
        None
    } else if is_dec_digit(s[i]) {
        spec_parse_nat_rec(s, i + 1, (acc * 10 + digit_val(s[i])) as nat)
    } else if s[i] == ':' {
        Some((acc, i + 1))
    } else {
        None
    }
}

/// A count at position `i`: at least one digit, then the colon.
pub open spec fn spec_parse_nat(s: Seq<char>, i: int) -> Option<(nat, int)> {
    if 0 <= i < s.len() && is_dec_digit(s[i]) {
        spec_parse_nat_rec(s, i, 0)
    } else {
        None
    }
}

/// A string at position `i`: its length, then that many characters.
pub open spec fn spec_parse_str(s: Seq<char>, i: int) -> Option<(Seq<char>, int)> {
    match spec_parse_nat(s, i) {
        None => None,
        Some((n, j)) => if j + n <= s.len() {
            Some((s.subrange(j, j + n), j + n))
        } else {
            None
        },
    }
}

/// `count` strings, one after the other.
pub open spec fn spec_parse_strs(s: Seq<char>, i: int, count: nat) -> Option<(Seq<Seq<char>>, int)>
    decreases count,
{
    if count == 0 {
        Some((Seq::empty(), i))
    } else {
        match spec_parse_str(s, i) {
            None => None,
            Some((g, j)) => match spec_parse_strs(s, j, (count - 1) as nat) {
                None => None,
                Some((gs, k)) => Some((seq![g] + gs, k)),
            },
        }
    }
}

/// An optional library at position `i`.
pub open spec fn spec_parse_opt(s: Seq<char>, i: int) -> Option<(Option<LibraryView>, int)> {
    if !(0 <= i < s.len()) {
        None
    } else if s[i] == '-' {
        Some((None, i + 1))
    } else if s[i] == '+' {
        match spec_parse_str(s, i + 1) {
            None => None,
            Some((path, j)) => match spec_parse_nat(s, j) {
                None => None,
                Some((n, k)) => match spec_parse_strs(s, k, n) {
                    None => None,
                    Some((gs, e)) => Some((Some(LibraryView { path, games: gs }), e)),
                },
            },
        }
    } else {
        None
    }
}

/// One record at position `i`.
pub open spec fn spec_parse_card(s: Seq<char>, i: int) -> Option<(CardView, int)> {
    match spec_parse_str(s, i) {
        None => None,
        Some((uuid, j1)) => match spec_parse_str(s, j1) {
            None => None,
            Some((name, j2)) => match spec_parse_nat(s, j2) {
                None => None,
                Some((n, j3)) => match spec_parse_strs(s, j3, n) {
                    None => None,
                    Some((games, j4)) => match spec_parse_opt(s, j4) {
                        None => None,
                        Some((heroic, j5)) => match spec_parse_opt(s, j5) {
                            None => None,
                            Some((lutris, j6)) => Some(
                                (CardView { uuid, name, games, heroic, lutris }, j6),
                            ),
                        },
                    },
                },
            },
        },
    }
}

/// `count` records, one after the other.
pub open spec fn spec_parse_cards(s: Seq<char>, i: int, count: nat) -> Option<(Seq<CardView>, int)>
    decreases count,
{
    if count == 0 {
        Some((Seq::empty(), i))
    } else {
        match spec_parse_card(s, i) {
            None => None,
            Some((c, j)) => match spec_parse_cards(s, j, (count - 1) as nat) {
                None => None,
                Some((cs, k)) => Some((seq![c] + cs, k)),
            },
        }
    }
}

/// What the text `s` encodes: the catalog whose count and records fill
/// `s` exactly and whose identifiers are unique, or nothing.
pub open spec fn spec_parse_catalog(s: Seq<char>) -> Option<Seq<CardView>> {
    match spec_parse_nat(s, 0) {
        None => None,
        Some((n, j)) => match spec_parse_cards(s, j, n) {
            None => None,
            Some((cs, e)) => if e == s.len() && uuids_unique(cs) {
                Some(cs)
            } else {
                None
            },
        },
    }
}

/// Appends a count to the output.
fn push_num(out: &mut String, n: usize)
    ensures
        final(out)@ == old(out)@ + txt_num(n as nat),
{
    let digits = usize_to_string(n);
    out.append(digits.as_str());
    out.append(":");
    proof {
        reveal_strlit(":");
        assert(":"@ =~= seq![':']);
        assert(final(out)@ =~= old(out)@ + txt_num(n as nat));
    }
}

/// Appends a string, behind its length, to the output.
fn push_str_tok(out: &mut String, v: &str)
    ensures
        final(out)@ == old(out)@ + txt_str(v@),
{
    let n = v.unicode_len();
    push_num(out, n);
    out.append(v);
    proof {
        assert(final(out)@ =~= old(out)@ + txt_str(v@));
    }
}

/// The names of one more game at the end extend the text by one more
/// string.
proof fn lemma_txt_strs_push(gs: Seq<Seq<char>>, g: Seq<char>)
    ensures
        txt_strs(gs.push(g)) == txt_strs(gs) + txt_str(g),
    decreases gs.len(),
{
    if gs.len() == 0 {
        assert(gs.push(g)[0] == g);
        assert(gs.push(g).drop_first() =~= Seq::<Seq<char>>::empty());
        assert(txt_strs(gs.push(g)) == txt_str(g) + txt_strs(Seq::<Seq<char>>::empty()));
        assert(txt_strs(Seq::<Seq<char>>::empty()) == Seq::<char>::empty());
        assert(txt_strs(gs) == Seq::<char>::empty());
        assert(txt_str(g) + Seq::<char>::empty() =~= txt_str(g));
        assert(Seq::<char>::empty() + txt_str(g) =~= txt_str(g));
    } else {
        assert(gs.push(g)[0] == gs[0]);
        assert(gs.push(g).drop_first() =~= gs.drop_first().push(g));
        lemma_txt_strs_push(gs.drop_first(), g);
        assert(txt_strs(gs.push(g)) == txt_str(gs[0]) + (txt_strs(gs.drop_first()) + txt_str(g)));
        assert(txt_str(gs[0]) + (txt_strs(gs.drop_first()) + txt_str(g)) =~= (txt_str(gs[0])
            + txt_strs(gs.drop_first())) + txt_str(g));
    }
}

/// One more record at the end extends the text by one more record.
proof fn lemma_txt_cards_push(cs: Seq<CardView>, c: CardView)
    ensures
        txt_cards(cs.push(c)) == txt_cards(cs) + txt_card(c),
    decreases cs.len(),
{
    if cs.len() == 0 {
        assert(cs.push(c)[0] == c);
        assert(cs.push(c).drop_first() =~= Seq::<CardView>::empty());
        assert(txt_cards(cs.push(c)) == txt_card(c) + txt_cards(Seq::<CardView>::empty()));
        assert(txt_cards(Seq::<CardView>::empty()) == Seq::<char>::empty());
        assert(txt_cards(cs) == Seq::<char>::empty());
        assert(txt_card(c) + Seq::<char>::empty() =~= txt_card(c));
        assert(Seq::<char>::empty() + txt_card(c) =~= txt_card(c));
    } else {
        assert(cs.push(c)[0] == cs[0]);
        assert(cs.push(c).drop_first() =~= cs.drop_first().push(c));
        lemma_txt_cards_push(cs.drop_first(), c);
        assert(txt_cards(cs.push(c)) == txt_card(cs[0]) + (txt_cards(cs.drop_first()) + txt_card(
            c,
        )));
        assert(txt_card(cs[0]) + (txt_cards(cs.drop_first()) + txt_card(c)) =~= (txt_card(cs[0])
            + txt_cards(cs.drop_first())) + txt_card(c));
    }
}

/// Appends a game list, behind its count, to the output.
fn push_games(out: &mut String, games: &Vec<Game>)
    ensures
        final(out)@ == old(out)@ + txt_num(games@.len()) + txt_strs(game_names(games@)),
{
    push_num(out, games.len());
    let ghost base = out@;
    let mut i: usize = 0;
    proof {
        assert(game_names(games@).take(0) =~= Seq::<Seq<char>>::empty());
        assert(base + txt_strs(game_names(games@).take(0)) =~= base);
    }
    while i < games.len()
        invariant
            0 <= i <= games@.len(),
            out@ == base + txt_strs(game_names(games@).take(i as int)),
        decreases games@.len() - i,
    {
        push_str_tok(out, games[i].name.as_str());
        proof {
            let names = game_names(games@);
            assert(names.take(i as int).push(names[i as int]) =~= names.take(i as int + 1));
            lemma_txt_strs_push(names.take(i as int), names[i as int]);
            assert(names[i as int] == games@[i as int].name@);
            assert(out@ =~= base + txt_strs(names.take(i as int + 1)));
        }
        i = i + 1;
    }
    proof {
        assert(game_names(games@).take(games@.len() as int) =~= game_names(games@));
        assert(old(out)@ + txt_num(games@.len()) + txt_strs(game_names(games@)) =~= base + txt_strs(
            game_names(games@),
        ));
    }
}

/// Appends an optional library to the output.
fn push_opt(out: &mut String, lib: &Option<OtherLibrary>)
    ensures
        final(out)@ == old(out)@ + txt_opt(crate::model::opt_library_view(*lib)),
{
    match lib {
        None => {
            out.append("-");
            proof {
                reveal_strlit("-");
                assert("-"@ =~= seq!['-']);
            }
        },
        Some(l) => {
            out.append("+");
            proof {
                reveal_strlit("+");
                assert("+"@ =~= seq!['+']);
            }
            push_str_tok(out, l.path.as_str());
            push_games(out, &l.games);
            proof {
                assert(final(out)@ =~= old(out)@ + txt_opt(Some(l@)));
            }
        },
    }
}

/// Appends one record to the output.
fn push_card(out: &mut String, c: &Card)
    ensures
        final(out)@ == old(out)@ + txt_card(c@),
{
    push_str_tok(out, c.uuid.as_str());
    push_str_tok(out, c.name.as_str());
    push_games(out, &c.games);
    push_opt(out, &c.heroic);
    push_opt(out, &c.lutris);
    proof {
        assert(final(out)@ =~= old(out)@ + txt_card(c@));
    }
}

/// The persisted text of the whole catalog, as [`spec_catalog_text`]
/// describes it.
pub fn catalog_to_text(list: &Vec<Card>) -> (r: String)
    ensures
        r@ == spec_catalog_text(cards_view(list@)),
{
    let mut out = String::new();
    push_num(&mut out, list.len());
    let ghost base = out@;
    let mut i: usize = 0;
    proof {
        assert(cards_view(list@).take(0) =~= Seq::<CardView>::empty());
        assert(base + txt_cards(cards_view(list@).take(0)) =~= base);
    }
    while i < list.len()
        invariant
            0 <= i <= list@.len(),
            out@ == base + txt_cards(cards_view(list@).take(i as int)),
        decreases list@.len() - i,
    {
        push_card(&mut out, &list[i]);
        proof {
            let cs = cards_view(list@);
            assert(cs.take(i as int).push(cs[i as int]) =~= cs.take(i as int + 1));
            lemma_txt_cards_push(cs.take(i as int), cs[i as int]);
            assert(cs[i as int] == list@[i as int]@);
            assert(out@ =~= base + txt_cards(cs.take(i as int + 1)));
        }
        i = i + 1;
    }
    proof {
        assert(cards_view(list@).take(list@.len() as int) =~= cards_view(list@));
        assert(out@ =~= spec_catalog_text(cards_view(list@)));
    }
    out
}


/// Whether `c` is a decimal digit.
fn is_digit_char(c: char) -> (r: bool)
    ensures
        r == is_dec_digit(c),
{
    let x = c as u32;
    48 <= x && x <= 57
}

/// A parsed count lies after its digits, and accumulation never shrinks
/// the value.
proof fn lemma_parse_nat_rec_props(s: Seq<char>, i: int, acc: nat)
    ensures
        (spec_parse_nat_rec(s, i, acc) is Some) ==> i < (spec_parse_nat_rec(s, i, acc)->0).1
            <= s.len() && (spec_parse_nat_rec(s, i, acc)->0).0 >= acc,
    decreases s.len() - i,
{
    if 0 <= i < s.len() && is_dec_digit(s[i]) {
        lemma_parse_nat_rec_props(s, i + 1, (acc * 10 + digit_val(s[i])) as nat);
    }
}

/// A parsed count lies strictly after its position and within the text.
proof fn lemma_parse_nat_props(s: Seq<char>, i: int)
    ensures
        (spec_parse_nat(s, i) is Some) ==> i < (spec_parse_nat(s, i)->0).1 <= s.len(),
{
    if 0 <= i < s.len() && is_dec_digit(s[i]) {
        lemma_parse_nat_rec_props(s, i, 0);
    }
}

/// Reads a count at position `i`, or nothing where the text holds none
/// or it does not fit the machine.
fn parse_nat(s: &str, i: usize) -> (r: Option<(usize, usize)>)
    requires
        i <= s@.len(),
    ensures
        match r {
            Some(v) => spec_parse_nat(s@, i as int) == Some(((v.0 as nat), (v.1 as int))) && i
                < v.1 <= s@.len(),
            None => (spec_parse_nat(s@, i as int) is None) || (spec_parse_nat(s@, i as int)->0).0
                > usize::MAX,
        },
{
    let n = s.unicode_len();
    if i >= n {
        return None;
    }
    if !is_digit_char(s.get_char(i)) {
        return None;
    }
    let mut j = i;
    let mut acc: usize = 0;
    loop
        invariant
            i <= j <= n,
            n == s@.len(),
            spec_parse_nat_rec(s@, i as int, 0) == spec_parse_nat_rec(s@, j as int, acc as nat),
            spec_parse_nat(s@, i as int) == spec_parse_nat_rec(s@, i as int, 0),
        decreases n - j,
    {
        if j >= n {
            return None;
        }
        let c = s.get_char(j);
        if is_digit_char(c) {
            let d = (c as u32 - 48) as usize;
            assert(d == digit_val(s@[j as int]));
            if acc > (usize::MAX - d) / 10 {
                proof {
                    assert(acc * 10 + d > usize::MAX) by (nonlinear_arith)
                        requires
                            acc > (usize::MAX - d) / 10,
                            d <= 9,
                    ;
                    lemma_parse_nat_rec_props(
                        s@,
                        j as int + 1,
                        (acc * 10 + digit_val(s@[j as int])) as nat,
                    );
                }
                return None;
            }
            proof {
                assert(acc * 10 + d <= usize::MAX) by (nonlinear_arith)
                    requires
                        acc <= (usize::MAX - d) / 10,
                        d <= 9,
                ;
            }
            acc = acc * 10 + d;
            j = j + 1;
        } else if c == ':' {
            return Some((acc, j + 1));
        } else {
            return None;
        }
    }
}

/// Reads a string at position `i`.
fn parse_str_tok(s: &str, i: usize) -> (r: Option<(String, usize)>)
    requires
        i <= s@.len(),
    ensures
        match r {
            Some(v) => spec_parse_str(s@, i as int) == Some((v.0@, (v.1 as int))) && i < v.1
                <= s@.len(),
            None => (spec_parse_str(s@, i as int) is None),
        },
{
    let total = s.unicode_len();
    match parse_nat(s, i) {
        None => {
            proof {
                lemma_parse_nat_props(s@, i as int);
            }
            None
        },
        Some((n, j)) => {
            if n <= total - j {
                let sub = s.substring_char(j, j + n);
                let owned = sub.to_owned();
                assert(owned@ == s@.subrange(j as int, j as int + n as int));
                Some((owned, j + n))
            } else {
                None
            }
        },
    }
}

/// Game records over the given names, in the given order.
fn games_of(names: Vec<String>) -> (r: Vec<Game>)
    ensures
        game_names(r@) == string_views(names@),
{
    let mut r: Vec<Game> = Vec::new();
    let mut i: usize = 0;
    while i < names.len()
        invariant
            0 <= i <= names@.len(),
            game_names(r@) =~= string_views(names@).take(i as int),
        decreases names@.len() - i,
    {
        let ghost prev = r@;
        r.push(Game { name: names[i].clone() });
        proof {
            assert(game_names(prev).len() == i as int);
            assert(prev.len() == i as int);
            assert(r@ == prev.push(Game { name: names@[i as int] }));
            assert(r@[i as int] == Game { name: names@[i as int] });
            assert(game_names(r@)[i as int] == names@[i as int]@);
            assert(string_views(names@)[i as int] == names@[i as int]@);
            assert(game_names(r@) =~= string_views(names@).take(i as int + 1));
        }
        i = i + 1;
    }
    proof {
        assert(string_views(names@).take(names@.len() as int) =~= string_views(names@));
    }
    r
}

/// Reads `count` strings at position `i`.
fn parse_strs(s: &str, i: usize, count: usize) -> (r: Option<(Vec<String>, usize)>)
    requires
        i <= s@.len(),
    ensures
        match r {
            Some(v) => spec_parse_strs(s@, i as int, count as nat) == Some(
                (string_views(v.0@), (v.1 as int)),
            ) && i <= v.1 <= s@.len(),
            None => (spec_parse_strs(s@, i as int, count as nat) is None),
        },
{
    let mut out: Vec<String> = Vec::new();
    let mut cur = i;
    let mut k: usize = 0;
    proof {
        assert(string_views(out@) =~= Seq::<Seq<char>>::empty());
        assert(match spec_parse_strs(s@, cur as int, (count - k) as nat) {
            Some((gs, e)) => string_views(out@) + gs =~= gs,
            None => true,
        });
    }
    while k < count
        invariant
            0 <= k <= count,
            i <= cur <= s@.len(),
            spec_parse_strs(s@, i as int, count as nat) == (match spec_parse_strs(
                s@,
                cur as int,
                (count - k) as nat,
            ) {
                Some((gs, e)) => Some((string_views(out@) + gs, e)),
                None => None::<(Seq<Seq<char>>, int)>,
            }),
        decreases count - k,
    {
        let ghost pre = string_views(out@);
        let ghost m = (count - k) as nat;
        match parse_str_tok(s, cur) {
            None => {
                return None;
            },
            Some((g, j)) => {
                proof {
                    assert(spec_parse_str(s@, cur as int) == Some((g@, j as int)));
                }
                out.push(g);
                proof {
                    assert(string_views(out@) =~= pre.push(g@));
                    match spec_parse_strs(s@, j as int, (count - k - 1) as nat) {
                        Some((gs, e)) => {
                            assert(spec_parse_strs(s@, cur as int, m) == Some(
                                (seq![g@] + gs, e),
                            ));
                            assert(pre + (seq![g@] + gs) =~= string_views(out@) + gs);
                        },
                        None => {
                            assert(spec_parse_strs(s@, cur as int, m) is None);
                        },
                    }
                }
                cur = j;
            },
        }
        k = k + 1;
    }
    proof {
        assert(spec_parse_strs(s@, cur as int, 0) == Some(
            (Seq::<Seq<char>>::empty(), cur as int),
        ));
        assert(string_views(out@) + Seq::<Seq<char>>::empty() =~= string_views(out@));
    }
    Some((out, cur))
}

/// Reads an optional library at position `i`.
fn parse_opt_lib(s: &str, i: usize) -> (r: Option<(Option<OtherLibrary>, usize)>)
    requires
        i <= s@.len(),
    ensures
        match r {
            Some(v) => spec_parse_opt(s@, i as int) == Some(
                (crate::model::opt_library_view(v.0), (v.1 as int)),
            ) && i < v.1 <= s@.len(),
            None => (spec_parse_opt(s@, i as int) is None),
        },
{
    let total = s.unicode_len();
    if i >= total {
        return None;
    }
    let c = s.get_char(i);
    if c == '-' {
        return Some((None, i + 1));
    }
    if c != '+' {
        return None;
    }
    match parse_str_tok(s, i + 1) {
        None => None,
        Some((path, j)) => {
            match parse_nat(s, j) {
                None => {
                    proof {
                        lemma_parse_nat_props(s@, j as int);
                        if spec_parse_nat(s@, j as int) is Some {
                            let n = (spec_parse_nat(s@, j as int)->0).0;
                            let k = (spec_parse_nat(s@, j as int)->0).1;
                            lemma_parse_strs_advances(s@, k, n);
                        }
                    }
                    None
                },
                Some((n, k)) => {
                    match parse_strs(s, k, n) {
                        None => None,
                        Some((names, e)) => {
                            let lib = OtherLibrary { path, games: games_of(names) };
                            assert(lib@ == (LibraryView {
                                path: (spec_parse_str(s@, i as int + 1)->0).0,
                                games: (spec_parse_strs(s@, k as int, n as nat)->0).0,
                            }));
                            Some((Some(lib), e))
                        },
                    }
                },
            }
        },
    }
}

/// A successful string list parse starts no earlier than its position
/// and consumes at least one character per string.
proof fn lemma_parse_strs_advances(s: Seq<char>, i: int, count: nat)
    ensures
        (spec_parse_strs(s, i, count) is Some) ==> (spec_parse_strs(s, i, count)->0).1 >= i + count
            && (spec_parse_strs(s, i, count)->0).1 <= s.len() || i > s.len(),
    decreases count,
{
    if count > 0 {
        match spec_parse_str(s, i) {
            None => {},
            Some((g, j)) => {
                lemma_parse_nat_props(s, i);
                lemma_parse_strs_advances(s, j, (count - 1) as nat);
            },
        }
    }
}

/// A successful string parse ends strictly after its position and
/// within the text.
proof fn lemma_parse_str_advances(s: Seq<char>, i: int)
    ensures
        (spec_parse_str(s, i) is Some) ==> i < (spec_parse_str(s, i)->0).1 <= s.len(),
{
    lemma_parse_nat_props(s, i);
}

/// A successful optional-library parse ends strictly after its position
/// and within the text.
proof fn lemma_parse_opt_advances(s: Seq<char>, i: int)
    ensures
        (spec_parse_opt(s, i) is Some) ==> i < (spec_parse_opt(s, i)->0).1 <= s.len(),
{
    if 0 <= i < s.len() && s[i] == '+' {
        lemma_parse_str_advances(s, i + 1);
        match spec_parse_str(s, i + 1) {
            None => {},
            Some((path, j)) => {
                lemma_parse_nat_props(s, j);
                match spec_parse_nat(s, j) {
                    None => {},
                    Some((n, k)) => {
                        lemma_parse_strs_advances(s, k, n);
                    },
                }
            },
        }
    }
}

/// A successful record parse ends strictly after its position and
/// within the text.
proof fn lemma_parse_card_advances(s: Seq<char>, i: int)
    ensures
        (spec_parse_card(s, i) is Some) ==> i < (spec_parse_card(s, i)->0).1 <= s.len(),
{
    lemma_parse_str_advances(s, i);
    match spec_parse_str(s, i) {
        None => {},
        Some((uuid, j1)) => {
            lemma_parse_str_advances(s, j1);
            match spec_parse_str(s, j1) {
                None => {},
                Some((name, j2)) => {
                    lemma_parse_nat_props(s, j2);
                    match spec_parse_nat(s, j2) {
                        None => {},
                        Some((n, j3)) => {
                            lemma_parse_strs_advances(s, j3, n);
                            match spec_parse_strs(s, j3, n) {
                                None => {},
                                Some((games, j4)) => {
                                    lemma_parse_opt_advances(s, j4);
                                    match spec_parse_opt(s, j4) {
                                        None => {},
                                        Some((heroic, j5)) => {
                                            lemma_parse_opt_advances(s, j5);
                                        },
                                    }
                                },
                            }
                        },
                    }
                },
            }
        },
    }
}

/// A successful record-list parse consumes at least one character per
/// record.
proof fn lemma_parse_cards_advances(s: Seq<char>, i: int, count: nat)
    ensures
        (spec_parse_cards(s, i, count) is Some) ==> (spec_parse_cards(s, i, count)->0).1 >= i
            + count && (spec_parse_cards(s, i, count)->0).1 <= s.len() || i > s.len(),
    decreases count,
{
    if count > 0 {
        lemma_parse_card_advances(s, i);
        match spec_parse_card(s, i) {
            None => {},
            Some((c, j)) => {
                lemma_parse_cards_advances(s, j, (count - 1) as nat);
            },
        }
    }
}

/// Reads one record at position `i`.
fn parse_card(s: &str, i: usize) -> (r: Option<(Card, usize)>)
    requires
        i <= s@.len(),
    ensures
        match r {
            Some(v) => spec_parse_card(s@, i as int) == Some((v.0@, (v.1 as int))) && i < v.1
                <= s@.len(),
            None => (spec_parse_card(s@, i as int) is None),
        },
{
    let total = s.unicode_len();
    let (uuid, j1) = match parse_str_tok(s, i) {
        None => {
            return None;
        },
        Some(v) => v,
    };
    let (name, j2) = match parse_str_tok(s, j1) {
        None => {
            return None;
        },
        Some(v) => v,
    };
    let (n, j3) = match parse_nat(s, j2) {
        None => {
            proof {
                lemma_parse_nat_props(s@, j2 as int);
                if spec_parse_nat(s@, j2 as int) is Some {
                    let nn = (spec_parse_nat(s@, j2 as int)->0).0;
                    let kk = (spec_parse_nat(s@, j2 as int)->0).1;
                    lemma_parse_strs_advances(s@, kk, nn);
                }
            }
            return None;
        },
        Some(v) => v,
    };
    let (games_names, j4) = match parse_strs(s, j3, n) {
        None => {
            return None;
        },
        Some(v) => v,
    };
    let (heroic, j5) = match parse_opt_lib(s, j4) {
        None => {
            return None;
        },
        Some(v) => v,
    };
    let (lutris, j6) = match parse_opt_lib(s, j5) {
        None => {
            return None;
        },
        Some(v) => v,
    };
    let card = Card { uuid, name, games: games_of(games_names), heroic, lutris };
    assert(card@ == (spec_parse_card(s@, i as int)->0).0);
    Some((card, j6))
}

/// Reads `count` records at position `i`.
fn parse_cards(s: &str, i: usize, count: usize) -> (r: Option<(Vec<Card>, usize)>)
    requires
        i <= s@.len(),
    ensures
        match r {
            Some(v) => spec_parse_cards(s@, i as int, count as nat) == Some(
                (cards_view(v.0@), (v.1 as int)),
            ) && i <= v.1 <= s@.len(),
            None => (spec_parse_cards(s@, i as int, count as nat) is None),
        },
{
    let mut out: Vec<Card> = Vec::new();
    let mut cur = i;
    let mut k: usize = 0;
    proof {
        assert(cards_view(out@) =~= Seq::<CardView>::empty());
        assert(match spec_parse_cards(s@, cur as int, (count - k) as nat) {
            Some((cs, e)) => cards_view(out@) + cs =~= cs,
            None => true,
        });
    }
    while k < count
        invariant
            0 <= k <= count,
            i <= cur <= s@.len(),
            spec_parse_cards(s@, i as int, count as nat) == (match spec_parse_cards(
                s@,
                cur as int,
                (count - k) as nat,
            ) {
                Some((cs, e)) => Some((cards_view(out@) + cs, e)),
                None => None::<(Seq<CardView>, int)>,
            }),
        decreases count - k,
    {
        let ghost pre = cards_view(out@);
        let ghost m = (count - k) as nat;
        match parse_card(s, cur) {
            None => {
                return None;
            },
            Some((c, j)) => {
                let ghost cv = c@;
                out.push(c);
                proof {
                    assert(cards_view(out@) =~= pre.push(cv));
                    match spec_parse_cards(s@, j as int, (count - k - 1) as nat) {
                        Some((cs, e)) => {
                            assert(spec_parse_cards(s@, cur as int, m) == Some(
                                (seq![cv] + cs, e),
                            ));
                            assert(pre + (seq![cv] + cs) =~= cards_view(out@) + cs);
                        },
                        None => {
                            assert(spec_parse_cards(s@, cur as int, m) is None);
                        },
                    }
                }
                cur = j;
            },
        }
        k = k + 1;
    }
    proof {
        assert(spec_parse_cards(s@, cur as int, 0) == Some((Seq::<CardView>::empty(), cur as int)));
        assert(cards_view(out@) + Seq::<CardView>::empty() =~= cards_view(out@));
    }
    Some((out, cur))
}

/// Whether the records carry pairwise distinct identifiers.
fn uuids_all_unique(list: &Vec<Card>) -> (r: bool)
    ensures
        r == uuids_unique(cards_view(list@)),
{
    let ghost cv = cards_view(list@);
    let mut i: usize = 0;
    while i < list.len()
        invariant
            0 <= i <= list@.len(),
            cv == cards_view(list@),
            forall|a: int, b: int| 0 <= a < b < list@.len() && a < i ==> (#[trigger] cv[a]).uuid
                != (#[trigger] cv[b]).uuid,
        decreases list@.len() - i,
    {
        let mut j = i + 1;
        while j < list.len()
            invariant
                0 <= i < j <= list@.len(),
                cv == cards_view(list@),
                forall|b: int| i < b < j ==> cv[i as int].uuid != (#[trigger] cv[b]).uuid,
            decreases list@.len() - j,
        {
            if list[i].uuid == list[j].uuid {
                assert(cv[i as int].uuid == cv[j as int].uuid);
                assert(!uuids_unique(cv));
                return false;
            }
            j = j + 1;
        }
        i = i + 1;
    }
    true
}

/// The catalog encoded in `s`, as [`spec_parse_catalog`] describes, or
/// nothing when `s` is not exactly such an encoding.  A missing or
/// unusable file is handled the same way by the caller: scanning starts
/// from an empty catalog.
pub fn catalog_from_text(s: &str) -> (r: Option<Vec<Card>>)
    ensures
        match r {
            Some(v) => spec_parse_catalog(s@) == Some(cards_view(v@)) && uuids_unique(
                cards_view(v@),
            ),
            None => (spec_parse_catalog(s@) is None),
        },
{
    let total = s.unicode_len();
    match parse_nat(s, 0) {
        None => {
            proof {
                lemma_parse_nat_props(s@, 0);
                if spec_parse_nat(s@, 0) is Some {
                    let nn = (spec_parse_nat(s@, 0)->0).0;
                    let kk = (spec_parse_nat(s@, 0)->0).1;
                    lemma_parse_cards_advances(s@, kk, nn);
                }
            }
            None
        },
        Some((n, j)) => {
            match parse_cards(s, j, n) {
                None => None,
                Some((cards, e)) => {
                    if e == total && uuids_all_unique(&cards) {
                        Some(cards)
                    } else {
                        None
                    }
                },
            }
        },
    }
}

/// Splitting a known subrange of `s` at a concatenation boundary.
proof fn lemma_subrange_split(s: Seq<char>, i: int, a: Seq<char>, b: Seq<char>)
    requires
        0 <= i,
        i + a.len() + b.len() <= s.len(),
        s.subrange(i, i + a.len() + b.len()) == a + b,
    ensures
        s.subrange(i, i + a.len()) == a,
        s.subrange(i + a.len(), i + a.len() + b.len()) == b,
{
    assert(s.subrange(i, i + a.len()) =~= a) by {
        assert forall|k: int| 0 <= k < a.len() implies s.subrange(i, i + a.len())[k] == a[k] by {
            assert((a + b)[k] == a[k]);
            assert(s.subrange(i, i + a.len() + b.len())[k] == s[i + k]);
        }
    }
    assert(s.subrange(i + a.len(), i + a.len() + b.len()) =~= b) by {
        assert forall|k: int|
            0 <= k < b.len() implies s.subrange(i + a.len(), i + a.len() + b.len())[k] == b[k] by {
            assert((a + b)[a.len() + k] == b[k]);
            assert(s.subrange(i, i + a.len() + b.len())[a.len() + k] == s[i + a.len() + k]);
        }
    }
}

/// Ten to the `k`-th.
pub open spec fn pow10(k: nat) -> nat
    decreases k,
{
    if k == 0 {
        1
    } else {
        10 * pow10((k - 1) as nat)
    }
}

/// Every character of a decimal rendering is a digit, and there is at
/// least one.
proof fn lemma_dec_rep_digits(n: nat)
    ensures
        dec_rep(n).len() >= 1,
        forall|k: int| 0 <= k < dec_rep(n).len() ==> is_dec_digit(#[trigger] dec_rep(n)[k]),
        digit_val(dec_rep(n).last()) == n % 10 || (n < 10 && digit_val(dec_rep(n).last())
            == n as int),
    decreases n,
{
    crate::text::lemma_dec_digit_val(n as int % 10);
    if n < 10 {
        crate::text::lemma_dec_digit_val(n as int);
        assert(dec_rep(n) == seq![crate::text::dec_digit(n as int)]);
    } else {
        lemma_dec_rep_digits(n / 10);
        assert forall|k: int|
            0 <= k < dec_rep(n).len() implies is_dec_digit(#[trigger] dec_rep(n)[k]) by {
            if k < dec_rep(n / 10).len() {
                assert(dec_rep(n)[k] == dec_rep(n / 10)[k]);
            } else {
                assert(dec_rep(n)[k] == crate::text::dec_digit(n as int % 10));
            }
        }
    }
}

/// Scanning the decimal rendering of `n` multiplies the accumulator up
/// and adds `n`.
proof fn lemma_parse_digits(s: Seq<char>, i: int, acc: nat, n: nat)
    requires
        0 <= i,
        i + dec_rep(n).len() <= s.len(),
        s.subrange(i, i + dec_rep(n).len()) == dec_rep(n),
    ensures
        spec_parse_nat_rec(s, i, acc) == spec_parse_nat_rec(
            s,
            i + dec_rep(n).len(),
            (acc * pow10(dec_rep(n).len()) + n) as nat,
        ),
    decreases n,
{
    lemma_dec_rep_digits(n);
    if n < 10 {
        crate::text::lemma_dec_digit_val(n as int);
        assert(s[i] == dec_rep(n)[0]) by {
            assert(s.subrange(i, i + 1)[0] == s[i]);
        }
        assert(is_dec_digit(s[i]) && digit_val(s[i]) == n);
        assert(pow10(0) == 1);
        assert(pow10(1) == 10);
        assert(acc * 10 + n == acc * pow10(1) + n) by (nonlinear_arith)
            requires
                pow10(1) == 10,
        ;
    } else {
        let hi = dec_rep(n / 10);
        let lo = seq![crate::text::dec_digit(n as int % 10)];
        assert(dec_rep(n) == hi + lo);
        lemma_subrange_split(s, i, hi, lo);
        lemma_parse_digits(s, i, acc, n / 10);
        let mid = i + hi.len();
        let a1 = (acc * pow10(hi.len()) + n / 10) as nat;
        assert(s[mid] == lo[0]) by {
            assert(s.subrange(mid, mid + 1)[0] == s[mid]);
        }
        crate::text::lemma_dec_digit_val(n as int % 10);
        assert(is_dec_digit(s[mid]) && digit_val(s[mid]) == n % 10);
        assert(spec_parse_nat_rec(s, mid, a1) == spec_parse_nat_rec(
            s,
            mid + 1,
            (a1 * 10 + n % 10) as nat,
        ));
        assert(a1 * 10 + n % 10 == acc * pow10(hi.len() + 1) + n) by (nonlinear_arith)
            requires
                a1 == acc * pow10(hi.len()) + n / 10,
                pow10(hi.len() + 1) == 10 * pow10(hi.len()),
                n >= 10,
        ;
        assert(dec_rep(n).len() == hi.len() + 1);
    }
}

/// Parsing the text of a count yields the count.
proof fn lemma_parse_nat_of_txt(s: Seq<char>, i: int, n: nat)
    requires
        0 <= i,
        i + txt_num(n).len() <= s.len(),
        s.subrange(i, i + txt_num(n).len()) == txt_num(n),
    ensures
        spec_parse_nat(s, i) == Some((n, i + txt_num(n).len())),
{
    lemma_dec_rep_digits(n);
    lemma_subrange_split(s, i, dec_rep(n), seq![':']);
    lemma_parse_digits(s, i, 0, n);
    let mid = i + dec_rep(n).len();
    assert(s[mid] == ':') by {
        assert(s.subrange(mid, mid + 1)[0] == s[mid]);
    }
    assert(!is_dec_digit(':'));
    assert(s[i] == dec_rep(n)[0]) by {
        assert(s.subrange(i, i + dec_rep(n).len())[0] == s[i]);
    }
    assert(is_dec_digit(s[i]));
    assert(0 * pow10(dec_rep(n).len()) + n == n) by (nonlinear_arith);
    assert(spec_parse_nat_rec(s, mid, n) == Some((n, mid + 1)));
}

/// Parsing the text of a string yields the string.
proof fn lemma_parse_str_of_txt(s: Seq<char>, i: int, v: Seq<char>)
    requires
        0 <= i,
        i + txt_str(v).len() <= s.len(),
        s.subrange(i, i + txt_str(v).len()) == txt_str(v),
    ensures
        spec_parse_str(s, i) == Some((v, i + txt_str(v).len())),
{
    lemma_subrange_split(s, i, txt_num(v.len()), v);
    lemma_parse_nat_of_txt(s, i, v.len());
}

/// Parsing the text of a string list yields the list.
proof fn lemma_parse_strs_of_txt(s: Seq<char>, i: int, gs: Seq<Seq<char>>)
    requires
        0 <= i,
        i + txt_strs(gs).len() <= s.len(),
        s.subrange(i, i + txt_strs(gs).len()) == txt_strs(gs),
    ensures
        spec_parse_strs(s, i, gs.len()) == Some((gs, i + txt_strs(gs).len())),
    decreases gs.len(),
{
    if gs.len() == 0 {
        assert(spec_parse_strs(s, i, 0) == Some((Seq::<Seq<char>>::empty(), i)));
        assert(gs =~= Seq::<Seq<char>>::empty());
    } else {
        lemma_subrange_split(s, i, txt_str(gs[0]), txt_strs(gs.drop_first()));
        lemma_parse_str_of_txt(s, i, gs[0]);
        let j = i + txt_str(gs[0]).len();
        lemma_parse_strs_of_txt(s, j, gs.drop_first());
        assert(seq![gs[0]] + gs.drop_first() =~= gs);
    }
}

/// Parsing the text of an optional library yields it.
proof fn lemma_parse_opt_of_txt(s: Seq<char>, i: int, l: Option<LibraryView>)
    requires
        0 <= i,
        i + txt_opt(l).len() <= s.len(),
        s.subrange(i, i + txt_opt(l).len()) == txt_opt(l),
    ensures
        spec_parse_opt(s, i) == Some((l, i + txt_opt(l).len())),
{
    match l {
        None => {
            assert(s[i] == '-') by {
                assert(s.subrange(i, i + 1)[0] == s[i]);
            }
        },
        Some(lib) => {
            let p1 = seq!['+'];
            let p2 = txt_str(lib.path);
            let p3 = txt_num(lib.games.len());
            let p4 = txt_strs(lib.games);
            assert(txt_opt(l) == p1 + p2 + p3 + p4);
            assert(((p1 + p2) + p3) + p4 =~= (p1 + (p2 + (p3 + p4))));
            lemma_subrange_split(s, i, p1, p2 + (p3 + p4));
            assert(s[i] == '+') by {
                assert(s.subrange(i, i + 1)[0] == s[i]);
            }
            lemma_subrange_split(s, i + 1, p2, p3 + p4);
            lemma_parse_str_of_txt(s, i + 1, lib.path);
            let j = i + 1 + p2.len();
            lemma_subrange_split(s, j, p3, p4);
            lemma_parse_nat_of_txt(s, j, lib.games.len());
            let k = j + p3.len();
            lemma_parse_strs_of_txt(s, k, lib.games);
            assert(s[i] != '-');
        },
    }
}

/// Parsing the text of one record yields it.
proof fn lemma_parse_card_of_txt(s: Seq<char>, i: int, c: CardView)
    requires
        0 <= i,
        i + txt_card(c).len() <= s.len(),
        s.subrange(i, i + txt_card(c).len()) == txt_card(c),
    ensures
        spec_parse_card(s, i) == Some((c, i + txt_card(c).len())),
{
    let p1 = txt_str(c.uuid);
    let p2 = txt_str(c.name);
    let p3 = txt_num(c.games.len());
    let p4 = txt_strs(c.games);
    let p5 = txt_opt(c.heroic);
    let p6 = txt_opt(c.lutris);
    assert(txt_card(c) == ((((p1 + p2) + p3) + p4) + p5) + p6);
    assert(((((p1 + p2) + p3) + p4) + p5) + p6 =~= p1 + (p2 + (p3 + (p4 + (p5 + p6)))));
    lemma_subrange_split(s, i, p1, p2 + (p3 + (p4 + (p5 + p6))));
    lemma_parse_str_of_txt(s, i, c.uuid);
    let j1 = i + p1.len();
    lemma_subrange_split(s, j1, p2, p3 + (p4 + (p5 + p6)));
    lemma_parse_str_of_txt(s, j1, c.name);
    let j2 = j1 + p2.len();
    lemma_subrange_split(s, j2, p3, p4 + (p5 + p6));
    lemma_parse_nat_of_txt(s, j2, c.games.len());
    let j3 = j2 + p3.len();
    lemma_subrange_split(s, j3, p4, p5 + p6);
    lemma_parse_strs_of_txt(s, j3, c.games);
    let j4 = j3 + p4.len();
    lemma_subrange_split(s, j4, p5, p6);
    lemma_parse_opt_of_txt(s, j4, c.heroic);
    let j5 = j4 + p5.len();
    lemma_parse_opt_of_txt(s, j5, c.lutris);
}

/// Parsing the text of a record list yields the records.
proof fn lemma_parse_cards_of_txt(s: Seq<char>, i: int, cs: Seq<CardView>)
    requires
        0 <= i,
        i + txt_cards(cs).len() <= s.len(),
        s.subrange(i, i + txt_cards(cs).len()) == txt_cards(cs),
    ensures
        spec_parse_cards(s, i, cs.len()) == Some((cs, i + txt_cards(cs).len())),
    decreases cs.len(),
{
    if cs.len() == 0 {
        assert(cs =~= Seq::<CardView>::empty());
    } else {
        lemma_subrange_split(s, i, txt_card(cs[0]), txt_cards(cs.drop_first()));
        lemma_parse_card_of_txt(s, i, cs[0]);
        let j = i + txt_card(cs[0]).len();
        lemma_parse_cards_of_txt(s, j, cs.drop_first());
        assert(seq![cs[0]] + cs.drop_first() =~= cs);
    }
}

/// Round trip: the persisted text of a well-formed catalog parses back
/// to exactly that catalog.
pub proof fn lemma_catalog_round_trip(cs: Seq<CardView>)
    requires
        uuids_unique(cs),
    ensures
        spec_parse_catalog(spec_catalog_text(cs)) == Some(cs),
{
    let s = spec_catalog_text(cs);
    assert(s.subrange(0, s.len() as int) =~= s);
    lemma_subrange_split(s, 0, txt_num(cs.len()), txt_cards(cs));
    lemma_parse_nat_of_txt(s, 0, cs.len());
    let j = txt_num(cs.len()).len() as int;
    lemma_parse_cards_of_txt(s, j, cs);
}
} // verus!
