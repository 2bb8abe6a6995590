//! Volume enumeration: parsing the tabular output of the block-device
//! listing tool into scan records.
//!
//! The tool prints one row per device with name, identifier and mount
//! point as whitespace-delimited columns.  A row describes a removable
//! volume when its mount point matches one of the known mount-path
//! prefixes; from such a row the second token is the identifier and the
//! third the mount path.  Rows without those tokens are skipped; deciding
//! whether the tool could run at all is the caller's concern.

use vstd::prelude::*;
use vstd::string::StrSliceExecFns;
use vstd::string::StringExecFns;

use crate::model::{scan_views, ScanData, ScanView};
use crate::text::{contains_seq, str_contains};

verus! {

/// The mount folder that held removable media on older host versions.
pub const OLD_SD_ROOT: &'static str = "/run/media/mmcblk0p1";

/// The mount folder for removable media on newer host versions.
pub const NEW_SD_PATH: &'static str = "/run/media/deck";

/// Whitespace that separates columns within a row.
pub open spec fn is_space(c: char) -> bool {
    c == ' ' || c == '\t' || c == '\r'
}

/// `s` without its leading column separators.
pub open spec fn skip_spaces(s: Seq<char>) -> Seq<char>
    decreases s.len(),
{
    if s.len() == 0 {
        s
    } else if is_space(s[0]) {
        skip_spaces(s.drop_first())
    } else {
        s
    }
}

/// The longest separator-free prefix of `s`.
pub open spec fn take_token(s: Seq<char>) -> Seq<char>
    decreases s.len(),
{
    if s.len() == 0 || is_space(s[0]) {
        Seq::empty()
    } else {
        seq![s[0]] + take_token(s.drop_first())
    }
}

/// Skipping separators never lengthens a sequence, and what remains
/// starts with a non-separator if anything remains.
proof fn lemma_skip_spaces_len(s: Seq<char>)
    ensures
        skip_spaces(s).len() <= s.len(),
        skip_spaces(s).len() > 0 ==> !is_space(skip_spaces(s)[0]),
    decreases s.len(),
{
    if s.len() != 0 && is_space(s[0]) {
        lemma_skip_spaces_len(s.drop_first());
    }
}

/// A token is no longer than its source and is non-empty exactly when the
/// source starts with a non-separator.
proof fn lemma_take_token_len(s: Seq<char>)
    ensures
        take_token(s).len() <= s.len(),
        s.len() > 0 && !is_space(s[0]) ==> take_token(s).len() >= 1,
    decreases s.len(),
{
    if s.len() != 0 && !is_space(s[0]) {
        lemma_take_token_len(s.drop_first());
    }
}

/// The whitespace-delimited columns of one row.
pub open spec fn tokens(s: Seq<char>) -> Seq<Seq<char>>
    decreases s.len(),
    via tokens_decreases
{
    let t = skip_spaces(s);
    if t.len() == 0 {
        Seq::empty()
    } else {
        seq![take_token(t)] + tokens(t.skip(take_token(t).len() as int))
    }
}

#[via_fn]
proof fn tokens_decreases(s: Seq<char>) {
    lemma_skip_spaces_len(s);
    let t = skip_spaces(s);
    if t.len() != 0 {
        lemma_take_token_len(t);
        assert(!is_space(t[0]));
    }
}

/// The prefix of `s` up to (excluding) the first line break.
pub open spec fn take_line(s: Seq<char>) -> Seq<char>
    decreases s.len(),
{
    if s.len() == 0 || s[0] == '\n' {
        Seq::empty()
    } else {
        seq![s[0]] + take_line(s.drop_first())
    }
}

/// A line is no longer than its source.
proof fn lemma_take_line_len(s: Seq<char>)
    ensures
        take_line(s).len() <= s.len(),
    decreases s.len(),
{
    if s.len() != 0 && s[0] != '\n' {
        lemma_take_line_len(s.drop_first());
    }
}

/// `s` split at line breaks.  A trailing line break yields no extra empty
/// line; empty lines elsewhere are kept (they carry no tokens and are
/// skipped by the row filter anyway).
pub open spec fn split_lines(s: Seq<char>) -> Seq<Seq<char>>
    decreases s.len(),
    via split_lines_decreases
{
    if s.len() == 0 {
        Seq::empty()
    } else {
        let l = take_line(s);
        if l.len() == s.len() {
            seq![l]
        } else {
            seq![l] + split_lines(s.skip(l.len() as int + 1))
        }
    }
}

#[via_fn]
proof fn split_lines_decreases(s: Seq<char>) {
    lemma_take_line_len(s);
}

/// Whether a row of the device table describes a removable volume, going
/// by the known mount-path prefixes.
pub open spec fn spec_sd_line(l: Seq<char>) -> bool {
    contains_seq(l, "/run/media/mmcblk0p1"@) || (contains_seq(l, "/run/media/deck"@)
        && contains_seq(l, "mmcblk"@))
}

/// What one row contributes to the scan: its identifier and mount path,
/// or nothing when the row does not describe a removable volume or lacks
/// the identifier or mount-point column.
pub open spec fn spec_volume_of_line(l: Seq<char>) -> Option<ScanView> {
    if spec_sd_line(l) && tokens(l).len() >= 3 {
        Some(ScanView { card_path: tokens(l)[2], uuid: tokens(l)[1], name: None })
    } else {
        None
    }
}

/// The scan records described by a sequence of rows, in row order.
pub open spec fn spec_volumes_of_lines(ls: Seq<Seq<char>>) -> Seq<ScanView>
    decreases ls.len(),
{
    if ls.len() == 0 {
        Seq::empty()
    } else {
        (match spec_volume_of_line(ls[0]) {
            Some(v) => seq![v],
            None => Seq::empty(),
        }) + spec_volumes_of_lines(ls.drop_first())
    }
}

/// The scan records described by the device table `s`.
pub open spec fn spec_parse_volumes(s: Seq<char>) -> Seq<ScanView> {
    spec_volumes_of_lines(split_lines(s))
}

/// Skipping exactly the leading separators yields [`skip_spaces`].
proof fn lemma_skip_spaces_at(s: Seq<char>, i: int)
    requires
        0 <= i <= s.len(),
        forall|j: int| 0 <= j < i ==> is_space(s[j]),
        i < s.len() ==> !is_space(s[i]),
    ensures
        skip_spaces(s) == s.skip(i),
    decreases i,
{
    if i == 0 {
        assert(s.skip(0) =~= s);
    } else {
        assert(is_space(s[0]));
        lemma_skip_spaces_at(s.drop_first(), i - 1);
        assert(s.drop_first().skip(i - 1) =~= s.skip(i));
    }
}

/// Taking exactly the separator-free prefix yields [`take_token`].
proof fn lemma_take_token_at(s: Seq<char>, i: int)
    requires
        0 <= i <= s.len(),
        forall|j: int| 0 <= j < i ==> !is_space(s[j]),
        i < s.len() ==> is_space(s[i]),
    ensures
        take_token(s) == s.subrange(0, i),
    decreases i,
{
    if i == 0 {
        assert(s.subrange(0, 0) =~= take_token(s));
    } else {
        lemma_take_token_at(s.drop_first(), i - 1);
        assert(s.drop_first().subrange(0, i - 1) =~= s.subrange(1, i));
        assert(seq![s[0]] + s.subrange(1, i) =~= s.subrange(0, i));
    }
}

/// Taking exactly the break-free prefix yields [`take_line`].
proof fn lemma_take_line_at(s: Seq<char>, i: int)
    requires
        0 <= i <= s.len(),
        forall|j: int| 0 <= j < i ==> s[j] != '\n',
        i < s.len() ==> s[i] == '\n',
    ensures
        take_line(s) == s.subrange(0, i),
    decreases i,
{
    if i == 0 {
        assert(s.subrange(0, 0) =~= take_line(s));
    } else {
        lemma_take_line_at(s.drop_first(), i - 1);
        assert(s.drop_first().subrange(0, i - 1) =~= s.subrange(1, i));
        assert(seq![s[0]] + s.subrange(1, i) =~= s.subrange(0, i));
    }
}

/// The views of a sequence of strings.
pub open spec fn line_views(s: Seq<String>) -> Seq<Seq<char>> {
    s.map(|i: int, n: String| n@)
}

/// Splits `s` into its lines, as [`split_lines`] describes.
pub fn split_lines_exec(s: &str) -> (r: Vec<String>)
    ensures
        line_views(r@) == split_lines(s@),
{
    let n = s.unicode_len();
    let mut r: Vec<String> = Vec::new();
    let mut pos: usize = 0;
    proof {
        assert(s@.skip(0) =~= s@);
        assert(line_views(r@) + split_lines(s@) =~= split_lines(s@));
    }
    while pos < n
        invariant
            0 <= pos <= n,
            n == s@.len(),
            split_lines(s@) == line_views(r@) + split_lines(s@.skip(pos as int)),
        decreases n - pos,
    {
        let ghost rest = s@.skip(pos as int);
        let mut end: usize = pos;
        loop
            invariant
                pos <= end <= n,
                n == s@.len(),
                forall|j: int| pos <= j < end ==> s@[j] != '\n',
            ensures
                pos <= end <= n,
                forall|j: int| pos <= j < end ==> s@[j] != '\n',
                end < n ==> s@[end as int] == '\n',
            decreases n - end,
        {
            if end >= n {
                break;
            }
            let c = s.get_char(end);
            if c == '\n' {
                break;
            }
            end = end + 1;
        }
        let line = s.substring_char(pos, end);
        r.push(line.to_owned());
        proof {
            lemma_take_line_at(rest, end - pos);
            assert(rest.subrange(0, end - pos) =~= s@.subrange(pos as int, end as int));
            assert(take_line(rest) == line@);
            assert(rest.len() == n - pos);
            if end < n {
                assert(take_line(rest).len() < rest.len());
                assert(rest.skip(line@.len() as int + 1) =~= s@.skip(end as int + 1));
                assert(split_lines(rest) == seq![line@] + split_lines(s@.skip(end as int + 1)));
            } else {
                assert(take_line(rest).len() == rest.len());
                assert(split_lines(rest) == seq![line@]);
            }
            assert(line_views(r@) =~= line_views(r@.drop_last()).push(line@));
            assert(line_views(r@.drop_last()).push(line@) =~= line_views(r@.drop_last()) + seq![
                line@,
            ]);
        }
        if end < n {
            proof {
                assert(line_views(r@) + split_lines(s@.skip(end as int + 1)) =~= (line_views(
                    r@.drop_last(),
                ) + seq![line@]) + split_lines(s@.skip(end as int + 1)));
            }
            pos = end + 1;
        } else {
            proof {
                assert(split_lines(s@.skip(n as int)) == Seq::<Seq<char>>::empty()) by {
                    assert(s@.skip(n as int).len() == 0);
                }
                assert(line_views(r@) + split_lines(s@.skip(n as int)) =~= line_views(
                    r@.drop_last(),
                ) + seq![line@]);
            }
            pos = end;
        }
    }
    proof {
        assert(split_lines(s@.skip(pos as int)) == Seq::<Seq<char>>::empty()) by {
            assert(s@.skip(pos as int).len() == 0);
        }
        assert(line_views(r@) + Seq::<Seq<char>>::empty() =~= line_views(r@));
    }
    r
}

/// Splits one row into its whitespace-delimited columns, as [`tokens`]
/// describes.
pub fn line_tokens(line: &str) -> (r: Vec<String>)
    ensures
        line_views(r@) == tokens(line@),
{
    let n = line.unicode_len();
    let mut r: Vec<String> = Vec::new();
    let mut pos: usize = 0;
    proof {
        assert(line@.skip(0) =~= line@);
        assert(line_views(r@) + tokens(line@) =~= tokens(line@));
    }
    while pos < n
        invariant
            0 <= pos <= n,
            n == line@.len(),
            tokens(line@) == line_views(r@) + tokens(line@.skip(pos as int)),
        ensures
            pos == n,
            n == line@.len(),
            tokens(line@) == line_views(r@) + tokens(line@.skip(pos as int)),
        decreases n - pos,
    {
        let ghost rest = line@.skip(pos as int);
        // skip separators
        let mut start: usize = pos;
        loop
            invariant
                pos <= start <= n,
                n == line@.len(),
                forall|j: int| pos <= j < start ==> is_space(line@[j]),
            ensures
                pos <= start <= n,
                forall|j: int| pos <= j < start ==> is_space(line@[j]),
                start < n ==> !is_space(line@[start as int]),
            decreases n - start,
        {
            if start >= n {
                break;
            }
            let c = line.get_char(start);
            if !(c == ' ' || c == '\t' || c == '\r') {
                break;
            }
            start = start + 1;
        }
        proof {
            lemma_skip_spaces_at(rest, start - pos);
            assert(rest.skip(start - pos) =~= line@.skip(start as int));
            assert(skip_spaces(rest) == line@.skip(start as int));
        }
        if start >= n {
            // nothing but separators remains
            proof {
                assert(skip_spaces(rest).len() == 0);
                assert(tokens(rest) == Seq::<Seq<char>>::empty());
                assert(line_views(r@) + tokens(rest) =~= line_views(r@) + tokens(
                    line@.skip(start as int),
                ));
            }
            pos = start;
            break;
        }
        let mut end: usize = start;
        loop
            invariant
                start <= end <= n,
                n == line@.len(),
                forall|j: int| start <= j < end ==> !is_space(line@[j]),
            ensures
                start <= end <= n,
                forall|j: int| start <= j < end ==> !is_space(line@[j]),
                end < n ==> is_space(line@[end as int]),
            decreases n - end,
        {
            if end >= n {
                break;
            }
            let c = line.get_char(end);
            if c == ' ' || c == '\t' || c == '\r' {
                break;
            }
            end = end + 1;
        }
        let tok = line.substring_char(start, end);
        r.push(tok.to_owned());
        proof {
            let after = line@.skip(start as int);
            lemma_take_token_at(after, end - start);
            assert(after.subrange(0, end - start) =~= line@.subrange(start as int, end as int));
            assert(take_token(after) == tok@);
            assert(after.skip(tok@.len() as int) =~= line@.skip(end as int));
            assert(tokens(rest) == seq![tok@] + tokens(line@.skip(end as int)));
            assert(line_views(r@) =~= line_views(r@.drop_last()) + seq![tok@]);
            assert(line_views(r@) + tokens(line@.skip(end as int)) =~= (line_views(r@.drop_last())
                + seq![tok@]) + tokens(line@.skip(end as int)));
        }
        pos = end;
    }
    proof {
        if pos == n {
            assert(tokens(line@.skip(pos as int)) == Seq::<Seq<char>>::empty()) by {
                assert(line@.skip(pos as int).len() == 0);
                lemma_skip_spaces_at(line@.skip(pos as int), 0);
            }
        }
        assert(line_views(r@) + Seq::<Seq<char>>::empty() =~= line_views(r@));
    }
    r
}

/// Appending one row appends exactly what that row contributes.
proof fn lemma_volumes_of_lines_push(ls: Seq<Seq<char>>, l: Seq<char>)
    ensures
        spec_volumes_of_lines(ls.push(l)) == spec_volumes_of_lines(ls) + (match spec_volume_of_line(
            l,
        ) {
            Some(v) => seq![v],
            None => Seq::<ScanView>::empty(),
        }),
    decreases ls.len(),
{
    let row_part = (match spec_volume_of_line(l) {
        Some(v) => seq![v],
        None => Seq::<ScanView>::empty(),
    });
    if ls.len() == 0 {
        assert(ls.push(l)[0] == l);
        assert(ls.push(l).drop_first() =~= Seq::<Seq<char>>::empty());
        assert(spec_volumes_of_lines(ls.push(l)) == row_part + spec_volumes_of_lines(
            Seq::<Seq<char>>::empty(),
        ));
        assert(row_part + Seq::<ScanView>::empty() =~= row_part);
        assert(Seq::<ScanView>::empty() + row_part =~= row_part);
        assert(spec_volumes_of_lines(ls.push(l)) == spec_volumes_of_lines(ls) + row_part);
    } else {
        assert(ls.push(l)[0] == ls[0]);
        assert(ls.push(l).drop_first() =~= ls.drop_first().push(l));
        lemma_volumes_of_lines_push(ls.drop_first(), l);
        let head = (match spec_volume_of_line(ls[0]) {
            Some(v) => seq![v],
            None => Seq::<ScanView>::empty(),
        });
        assert(head + (spec_volumes_of_lines(ls.drop_first()) + row_part) =~= (head
            + spec_volumes_of_lines(ls.drop_first())) + row_part);
        assert(spec_volumes_of_lines(ls.push(l)) == head + spec_volumes_of_lines(
            ls.drop_first().push(l),
        ));
        assert(spec_volumes_of_lines(ls) == head + spec_volumes_of_lines(ls.drop_first()));
        assert(spec_volumes_of_lines(ls.push(l)) == spec_volumes_of_lines(ls) + row_part);
    }
}

/// Parses the device table into one scan record per removable-volume row,
/// in row order: the row's second column as the identifier, its third as
/// the mount path.  Rows that are missing either column are skipped.
pub fn parse_card_info(s: &str) -> (r: Vec<ScanData>)
    ensures
        scan_views(r@) == spec_parse_volumes(s@),
{
    let lines = split_lines_exec(s);
    let mut r: Vec<ScanData> = Vec::new();
    let mut i: usize = 0;
    proof {
        assert(line_views(lines@).take(0) =~= Seq::<Seq<char>>::empty());
        assert(scan_views(r@) =~= spec_volumes_of_lines(line_views(lines@).take(0)));
    }
    while i < lines.len()
        invariant
            0 <= i <= lines@.len(),
            line_views(lines@) == split_lines(s@),
            scan_views(r@) == spec_volumes_of_lines(line_views(lines@).take(i as int)),
        decreases lines@.len() - i,
    {
        let ghost lv = line_views(lines@);
        let ghost prev = scan_views(r@);
        let line = &lines[i];
        assert(lv[i as int] == line@);
        if is_sd_card_line(line.as_str()) {
            let toks = line_tokens(line.as_str());
            if toks.len() >= 3 {
                let d = ScanData { card_path: toks[2].clone(), uuid: toks[1].clone(), name: None };
                proof {
                    assert(line_views(toks@)[1] == toks@[1]@);
                    assert(line_views(toks@)[2] == toks@[2]@);
                    assert(spec_volume_of_line(line@) == Some(d@));
                }
                r.push(d);
                proof {
                    assert(scan_views(r@) =~= prev.push(d@));
                    assert(prev.push(d@) =~= prev + seq![d@]);
                }
            } else {
                proof {
                    assert(tokens(line@).len() < 3);
                    assert(spec_volume_of_line(line@) is None);
                }
            }
        }
        proof {
            lemma_volumes_of_lines_push(lv.take(i as int), lv[i as int]);
            assert(lv.take(i as int).push(lv[i as int]) =~= lv.take(i as int + 1));
            if spec_volume_of_line(lv[i as int]) is None {
                assert(prev + Seq::<ScanView>::empty() =~= prev);
            }
            assert(scan_views(r@) == spec_volumes_of_lines(lv.take(i as int + 1)));
        }
        i = i + 1;
    }
    proof {
        assert(line_views(lines@).take(lines@.len() as int) =~= line_views(lines@));
    }
    r
}

/// Whether this row of the device table mentions a removable volume.
pub fn is_sd_card_line(line: &str) -> (r: bool)
    ensures
        r == spec_sd_line(line@),
{
    str_contains(line, OLD_SD_ROOT) || (str_contains(line, NEW_SD_PATH) && str_contains(
        line,
        "mmcblk",
    ))
}


/// Whether the row mentions one of the configured mount-path prefixes.
pub open spec fn spec_line_matches_prefixes(l: Seq<char>, ps: Seq<Seq<char>>) -> bool {
    exists|i: int| 0 <= i < ps.len() && contains_seq(l, ps[i])
}

/// What one row contributes under a configured prefix set.
pub open spec fn spec_volume_of_line_with(l: Seq<char>, ps: Seq<Seq<char>>) -> Option<ScanView> {
    if spec_line_matches_prefixes(l, ps) && tokens(l).len() >= 3 {
        Some(ScanView { card_path: tokens(l)[2], uuid: tokens(l)[1], name: None })
    } else {
        None
    }
}

/// The scan records of a sequence of rows under a configured prefix
/// set, in row order.
pub open spec fn spec_volumes_of_lines_with(ls: Seq<Seq<char>>, ps: Seq<Seq<char>>) -> Seq<
    ScanView,
>
    decreases ls.len(),
{
    if ls.len() == 0 {
        Seq::empty()
    } else {
        (match spec_volume_of_line_with(ls[0], ps) {
            Some(v) => seq![v],
            None => Seq::empty(),
        }) + spec_volumes_of_lines_with(ls.drop_first(), ps)
    }
}

/// The scan records of the device table `s` under a configured prefix
/// set.
pub open spec fn spec_parse_volumes_with(s: Seq<char>, ps: Seq<Seq<char>>) -> Seq<ScanView> {
    spec_volumes_of_lines_with(split_lines(s), ps)
}

/// Appending one row appends exactly what that row contributes.
proof fn lemma_volumes_of_lines_with_push(ls: Seq<Seq<char>>, ps: Seq<Seq<char>>, l: Seq<char>)
    ensures
        spec_volumes_of_lines_with(ls.push(l), ps) == spec_volumes_of_lines_with(ls, ps) + (
        match spec_volume_of_line_with(l, ps) {
            Some(v) => seq![v],
            None => Seq::<ScanView>::empty(),
        }),
    decreases ls.len(),
{
    let row_part = (match spec_volume_of_line_with(l, ps) {
        Some(v) => seq![v],
        None => Seq::<ScanView>::empty(),
    });
    if ls.len() == 0 {
        assert(ls.push(l)[0] == l);
        assert(ls.push(l).drop_first() =~= Seq::<Seq<char>>::empty());
        assert(spec_volumes_of_lines_with(ls.push(l), ps) == row_part
            + spec_volumes_of_lines_with(Seq::<Seq<char>>::empty(), ps));
        assert(row_part + Seq::<ScanView>::empty() =~= row_part);
        assert(Seq::<ScanView>::empty() + row_part =~= row_part);
        assert(spec_volumes_of_lines_with(ls.push(l), ps) == spec_volumes_of_lines_with(ls, ps)
            + row_part);
    } else {
        assert(ls.push(l)[0] == ls[0]);
        assert(ls.push(l).drop_first() =~= ls.drop_first().push(l));
        lemma_volumes_of_lines_with_push(ls.drop_first(), ps, l);
        let head = (match spec_volume_of_line_with(ls[0], ps) {
            Some(v) => seq![v],
            None => Seq::<ScanView>::empty(),
        });
        assert(head + (spec_volumes_of_lines_with(ls.drop_first(), ps) + row_part) =~= (head
            + spec_volumes_of_lines_with(ls.drop_first(), ps)) + row_part);
        assert(spec_volumes_of_lines_with(ls.push(l), ps) == head + spec_volumes_of_lines_with(
            ls.drop_first().push(l),
            ps,
        ));
        assert(spec_volumes_of_lines_with(ls, ps) == head + spec_volumes_of_lines_with(
            ls.drop_first(),
            ps,
        ));
        assert(spec_volumes_of_lines_with(ls.push(l), ps) == spec_volumes_of_lines_with(ls, ps)
            + row_part);
    }
}

/// Whether the row mentions one of the configured mount-path prefixes.
pub fn line_matches_prefixes(line: &str, prefixes: &Vec<String>) -> (r: bool)
    ensures
        r == spec_line_matches_prefixes(line@, line_views(prefixes@)),
{
    let ghost ps = line_views(prefixes@);
    let mut i: usize = 0;
    while i < prefixes.len()
        invariant
            0 <= i <= prefixes@.len(),
            ps == line_views(prefixes@),
            forall|k: int| 0 <= k < i ==> !contains_seq(line@, #[trigger] ps[k]),
        decreases prefixes@.len() - i,
    {
        if str_contains(line, prefixes[i].as_str()) {
            assert(contains_seq(line@, ps[i as int]));
            return true;
        }
        i = i + 1;
    }
    false
}

/// Parses the device table under a configured set of mount-path
/// prefixes: a row qualifies when it mentions any of them.  The mount
/// convention of the host has changed across versions, so the caller
/// can name every prefix in use at once.
pub fn parse_card_info_with(s: &str, prefixes: &Vec<String>) -> (r: Vec<ScanData>)
    ensures
        scan_views(r@) == spec_parse_volumes_with(s@, line_views(prefixes@)),
{
    let ghost ps = line_views(prefixes@);
    let lines = split_lines_exec(s);
    let mut r: Vec<ScanData> = Vec::new();
    let mut i: usize = 0;
    proof {
        assert(line_views(lines@).take(0) =~= Seq::<Seq<char>>::empty());
        assert(scan_views(r@) =~= spec_volumes_of_lines_with(line_views(lines@).take(0), ps));
    }
    while i < lines.len()
        invariant
            0 <= i <= lines@.len(),
            ps == line_views(prefixes@),
            line_views(lines@) == split_lines(s@),
            scan_views(r@) == spec_volumes_of_lines_with(line_views(lines@).take(i as int), ps),
        decreases lines@.len() - i,
    {
        let ghost lv = line_views(lines@);
        let ghost prev = scan_views(r@);
        let line = &lines[i];
        assert(lv[i as int] == line@);
        if line_matches_prefixes(line.as_str(), prefixes) {
            let toks = line_tokens(line.as_str());
            if toks.len() >= 3 {
                let d = ScanData { card_path: toks[2].clone(), uuid: toks[1].clone(), name: None };
                proof {
                    assert(line_views(toks@)[1] == toks@[1]@);
                    assert(line_views(toks@)[2] == toks@[2]@);
                    assert(spec_volume_of_line_with(line@, ps) == Some(d@));
                }
                r.push(d);
                proof {
                    assert(scan_views(r@) =~= prev.push(d@));
                    assert(prev.push(d@) =~= prev + seq![d@]);
                }
            } else {
                proof {
                    assert(tokens(line@).len() < 3);
                    assert(spec_volume_of_line_with(line@, ps) is None);
                }
            }
        }
        proof {
            lemma_volumes_of_lines_with_push(lv.take(i as int), ps, lv[i as int]);
            assert(lv.take(i as int).push(lv[i as int]) =~= lv.take(i as int + 1));
            if spec_volume_of_line_with(lv[i as int], ps) is None {
                assert(prev + Seq::<ScanView>::empty() =~= prev);
            }
            assert(scan_views(r@) == spec_volumes_of_lines_with(lv.take(i as int + 1), ps));
        }
        i = i + 1;
    }
    proof {
        assert(line_views(lines@).take(lines@.len() as int) =~= line_views(lines@));
    }
    r
}
} // verus!
