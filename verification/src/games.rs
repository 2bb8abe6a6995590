//! Game enumeration: turning the subdirectory names of a library folder
//! into an ordered list of games.
//!
//! The order is a user-visible contract: ASCII-case-insensitive ordinal
//! comparison of the folder names, deterministic and locale-independent.
//! Entries that tie under that comparison keep their enumeration order.

use vstd::prelude::*;
use vstd::multiset::Multiset;

use crate::model::Game;
use crate::text::{lemma_lex_le_ci_total, lemma_lex_le_ci_trans, lex_le_ci, str_le_ci};

verus! {

/// The names of a sequence of games.
pub open spec fn game_names(s: Seq<Game>) -> Seq<Seq<char>> {
    s.map(|i: int, g: Game| g@)
}

/// The views of a sequence of strings.
pub open spec fn string_views(s: Seq<String>) -> Seq<Seq<char>> {
    s.map(|i: int, n: String| n@)
}

/// The sequence is ordered by [`lex_le_ci`].
pub open spec fn sorted_ci(s: Seq<Seq<char>>) -> bool {
    forall|i: int, j: int| 0 <= i < j < s.len() ==> lex_le_ci(s[i], s[j])
}

/// `x` inserted into `s` in front of the first element it compares at or
/// below; on a sorted sequence this keeps the order and places `x` before
/// any element it ties with.
pub open spec fn insert_sorted(x: Seq<char>, s: Seq<Seq<char>>) -> Seq<Seq<char>>
    decreases s.len(),
{
    if s.len() == 0 {
        seq![x]
    } else if lex_le_ci(x, s[0]) {
        seq![x] + s
    } else {
        seq![s[0]] + insert_sorted(x, s.drop_first())
    }
}

/// The stable, ASCII-case-insensitive ordering of `s`: each element is
/// inserted, earliest first, into the sorted remainder, in front of any
/// element it ties with.
pub open spec fn sort_names(s: Seq<Seq<char>>) -> Seq<Seq<char>>
    decreases s.len(),
{
    if s.len() == 0 {
        Seq::empty()
    } else {
        insert_sorted(s[0], sort_names(s.drop_first()))
    }
}

/// Inserting adds exactly the inserted element to the contents.
proof fn lemma_insert_sorted_multiset(x: Seq<char>, s: Seq<Seq<char>>)
    ensures
        insert_sorted(x, s).len() == s.len() + 1,
        insert_sorted(x, s).to_multiset() == s.to_multiset().insert(x),
    decreases s.len(),
{
    broadcast use vstd::seq_lib::group_to_multiset_ensures;

    if s.len() == 0 {
        assert(seq![x] =~= Seq::<Seq<char>>::empty().push(x));
        assert(insert_sorted(x, s).to_multiset() =~= s.to_multiset().insert(x));
    } else if lex_le_ci(x, s[0]) {
        vstd::seq_lib::lemma_multiset_commutative(seq![x], s);
        assert(seq![x].to_multiset() =~= Multiset::<Seq<char>>::empty().insert(x)) by {
            assert(seq![x] =~= Seq::<Seq<char>>::empty().push(x));
        }
        assert(insert_sorted(x, s).to_multiset() =~= s.to_multiset().insert(x));
    } else {
        lemma_insert_sorted_multiset(x, s.drop_first());
        vstd::seq_lib::lemma_multiset_commutative(seq![s[0]], insert_sorted(x, s.drop_first()));
        vstd::seq_lib::lemma_multiset_commutative(seq![s[0]], s.drop_first());
        assert(seq![s[0]] + s.drop_first() =~= s);
        assert(seq![s[0]].to_multiset() =~= Multiset::<Seq<char>>::empty().insert(s[0])) by {
            assert(seq![s[0]] =~= Seq::<Seq<char>>::empty().push(s[0]));
        }
        assert(insert_sorted(x, s).to_multiset() =~= s.to_multiset().insert(x));
    }
}

/// Inserting into a sorted sequence keeps it sorted.
proof fn lemma_insert_sorted_sorted(x: Seq<char>, s: Seq<Seq<char>>)
    requires
        sorted_ci(s),
    ensures
        sorted_ci(insert_sorted(x, s)),
    decreases s.len(),
{
    broadcast use vstd::seq_lib::group_to_multiset_ensures;

    if s.len() == 0 {
    } else if lex_le_ci(x, s[0]) {
        let r = seq![x] + s;
        assert forall|i: int, j: int| 0 <= i < j < r.len() implies lex_le_ci(r[i], r[j]) by {
            if i == 0 {
                if j > 1 {
                    lemma_lex_le_ci_trans(x, s[0], s[j - 1]);
                }
            }
        }
    } else {
        lemma_lex_le_ci_total(x, s[0]);
        assert(lex_le_ci(s[0], x));
        assert(sorted_ci(s.drop_first()));
        lemma_insert_sorted_sorted(x, s.drop_first());
        lemma_insert_sorted_multiset(x, s.drop_first());
        let t = insert_sorted(x, s.drop_first());
        let r = seq![s[0]] + t;
        assert forall|i: int, j: int| 0 <= i < j < r.len() implies lex_le_ci(r[i], r[j]) by {
            if i == 0 {
                // every element of t is either x or an element of s.drop_first(),
                // and s[0] is at or below both
                assert(t.to_multiset().contains(t[j - 1]));
                if t[j - 1] == x {
                    assert(lex_le_ci(s[0], x));
                } else {
                    assert(s.drop_first().to_multiset().contains(t[j - 1]));
                    assert(s.drop_first().contains(t[j - 1]));
                    let k = choose|k: int|
                        0 <= k < s.drop_first().len() && s.drop_first()[k] == t[j - 1];
                    assert(lex_le_ci(s[0], s[k + 1]));
                }
            }
        }
    }
}

/// The sorted names are exactly the input names, reordered by
/// [`lex_le_ci`].
pub proof fn lemma_sort_names_ensures(s: Seq<Seq<char>>)
    ensures
        sort_names(s).len() == s.len(),
        sort_names(s).to_multiset() == s.to_multiset(),
        sorted_ci(sort_names(s)),
    decreases s.len(),
{
    broadcast use vstd::seq_lib::group_to_multiset_ensures;

    if s.len() > 0 {
        lemma_sort_names_ensures(s.drop_first());
        lemma_insert_sorted_multiset(s[0], sort_names(s.drop_first()));
        lemma_insert_sorted_sorted(s[0], sort_names(s.drop_first()));
        assert(s.drop_first().push(s[0]).to_multiset() =~= s.to_multiset()) by {
            vstd::seq_lib::lemma_multiset_commutative(seq![s[0]], s.drop_first());
            vstd::seq_lib::lemma_multiset_commutative(s.drop_first(), seq![s[0]]);
            assert(seq![s[0]] + s.drop_first() =~= s);
            assert(s.drop_first() + seq![s[0]] =~= s.drop_first().push(s[0]));
        }
        assert(sort_names(s).to_multiset() =~= s.to_multiset());
    }
}

/// Characterizes insertion by position: if everything before `p` is
/// strictly below `x` and `x` is at or below the element at `p`, then
/// inserting `x` at `p` is [`insert_sorted`].
proof fn lemma_insert_at_position(x: Seq<char>, s: Seq<Seq<char>>, p: int)
    requires
        0 <= p <= s.len(),
        forall|k: int| 0 <= k < p ==> !lex_le_ci(x, s[k]),
        p < s.len() ==> lex_le_ci(x, s[p]),
    ensures
        insert_sorted(x, s) == s.subrange(0, p) + seq![x] + s.subrange(p, s.len() as int),
    decreases s.len(),
{
    if s.len() == 0 {
        assert(insert_sorted(x, s) =~= s.subrange(0, p) + seq![x] + s.subrange(p, s.len() as int));
    } else if p == 0 {
        assert(insert_sorted(x, s) =~= s.subrange(0, 0) + seq![x] + s.subrange(0, s.len() as int));
    } else {
        assert(!lex_le_ci(x, s[0]));
        lemma_insert_at_position(x, s.drop_first(), p - 1);
        assert(s.drop_first().subrange(0, p - 1) =~= s.subrange(1, p));
        assert(s.drop_first().subrange(p - 1, s.drop_first().len() as int) =~= s.subrange(
            p,
            s.len() as int,
        ));
        assert(seq![s[0]] + (s.subrange(1, p) + seq![x] + s.subrange(p, s.len() as int)) =~= s
            .subrange(0, p) + seq![x] + s.subrange(p, s.len() as int));
    }
}

/// Inserts one game into an already sorted list, in front of the first
/// entry it compares at or below.
fn insert_game(list: &mut Vec<Game>, g: Game)
    ensures
        game_names(final(list)@) == insert_sorted(g@, game_names(old(list)@)),
{
    let ghost names = game_names(old(list)@);
    let mut p: usize = 0;
    while p < list.len()
        invariant
            0 <= p <= list@.len(),
            names == game_names(list@),
            forall|k: int| 0 <= k < p ==> !lex_le_ci(g@, names[k]),
        ensures
            0 <= p <= list@.len(),
            names == game_names(list@),
            forall|k: int| 0 <= k < p ==> !lex_le_ci(g@, names[k]),
            p < list@.len() ==> lex_le_ci(g@, names[p as int]),
        decreases list@.len() - p,
    {
        if str_le_ci(g.name.as_str(), list[p].name.as_str()) {
            break;
        }
        p = p + 1;
    }
    list.insert(p, g);
    proof {
        lemma_insert_at_position(g@, names, p as int);
        assert(game_names(list@) =~= names.subrange(0, p as int) + seq![g@] + names.subrange(
            p as int,
            names.len() as int,
        ));
    }
}

/// The discovered games of a library folder: one entry per subdirectory
/// name, ordered ASCII-case-insensitively as [`sort_names`] describes.
pub fn list_games(names: &Vec<String>) -> (r: Vec<Game>)
    ensures
        game_names(r@) == sort_names(string_views(names@)),
{
    let mut r: Vec<Game> = Vec::new();
    let mut i: usize = names.len();
    while i > 0
        invariant
            0 <= i <= names@.len(),
            game_names(r@) == sort_names(string_views(names@).skip(i as int)),
        decreases i,
    {
        i = i - 1;
        insert_game(&mut r, Game { name: names[i].clone() });
        proof {
            let vs = string_views(names@);
            assert(vs.skip(i as int)[0] == names@[i as int]@);
            assert(vs.skip(i as int).drop_first() =~= vs.skip(i as int + 1));
        }
    }
    proof {
        assert(string_views(names@).skip(0) =~= string_views(names@));
    }
    r
}

} // verus!
