//! Branches as git reports them, the git and gh command lines the branch
//! assistant runs, and the choices it makes between running them.

use vstd::prelude::*;

use crate::statement::string_views;
use crate::text::{
    all_digits, chars_eq, chars_of, digits_value, find_char_from, first_index, is_digit,
    lemma_digits_value_nonneg, lemma_first_index, lines, lines_of, non_blank, drop_blank,
    slice_vec, split_at_char, split_chars, starts_with, string_of, trim, trim_chars, views,
};

verus! {

// ---- branches ---------------------------------------------------------

#[derive(Debug, Clone, Copy, PartialEq, Eq, Structural)]
pub enum UpstreamStatus {
    Identical,
    UpstreamIsAheadOfLocal,
    LocalIsAheadOfUpstream,
    MergeNeeded,
    UpstreamIsGone,
}

#[derive(Debug, Clone)]
pub struct Upstream {
    pub name: String,
    pub status: UpstreamStatus,
}

#[derive(Debug, Clone)]
pub struct Branch {
    pub refname: String,
    pub upstream: Option<Upstream>,
    /// Where the branch is checked out in a worktree, if it is.
    pub worktree_path: Option<String>,
}

#[derive(Debug, Clone)]
pub struct BranchCommitInfo {
    pub commit_timestamp: i64,
    pub commit_date: String,
    pub committer: String,
}

impl Branch {
    /// A branch needs attention unless it has an upstream it is identical
    /// to.
    pub fn needs_action(&self) -> (r: bool)
        ensures
            r == match self.upstream {
                Some(u) => u.status != UpstreamStatus::Identical,
                None => true,
            },
    {
        match &self.upstream {
            Some(u) => u.status != UpstreamStatus::Identical,
            None => true,
        }
    }
}

/// `s` cut at the first `n - 1` occurrences of `c`: `str::splitn`.
pub open spec fn split_n(s: Seq<char>, c: char, n: nat) -> Seq<Seq<char>>
    decreases n,
{
    let i = first_index(s, c);
    if n <= 1 || i >= s.len() {
        seq![s]
    } else {
        seq![s.take(i)] + split_n(s.skip(i + 1), c, (n - 1) as nat)
    }
}

/// The pieces of `s` cut at the first `n - 1` occurrences of `c`.
pub fn splitn_chars(s: &[char], c: char, n: usize) -> (r: Vec<Vec<char>>)
    ensures
        views(r@) == split_n(s@, c, n as nat),
{
    let mut out: Vec<Vec<char>> = Vec::new();
    let mut start: usize = 0;
    let mut left: usize = n;
    assert(s@.skip(0) =~= s@);
    assert(views(out@) + split_n(s@, c, n as nat) =~= split_n(s@, c, n as nat));
    loop
        invariant
            start <= s.len(),
            views(out@) + split_n(s@.skip(start as int), c, left as nat) == split_n(
                s@,
                c,
                n as nat,
            ),
        decreases left,
    {
        let ghost t = s@.skip(start as int);
        let ghost before = views(out@);
        let i = find_char_from(s, c, start);
        proof {
            lemma_first_index(t, c);
        }
        if left <= 1 || i == s.len() {
            let piece = slice_vec(s, start, s.len());
            assert(piece@ =~= t);
            out.push(piece);
            assert(views(out@) =~= before.push(t));
            assert(split_n(t, c, left as nat) == seq![t]);
            assert(views(out@) =~= before + split_n(t, c, left as nat));
            return out;
        }
        let piece = slice_vec(s, start, i);
        assert(piece@ =~= t.take(i - start));
        out.push(piece);
        assert(views(out@) =~= before.push(t.take(i - start)));
        assert(t.skip(i - start + 1) =~= s@.skip(i + 1));
        assert(split_n(t, c, left as nat) == seq![t.take(i - start)] + split_n(
            s@.skip(i + 1),
            c,
            (left - 1) as nat,
        ));
        assert(views(out@) + split_n(s@.skip(i + 1), c, (left - 1) as nat) =~= before + split_n(
            t,
            c,
            left as nat,
        ));
        start = i + 1;
        left = left - 1;
    }
}

/// Whether a trimmed comma-separated part of the track starts with `word`.
pub open spec fn mentions(parts: Seq<Seq<char>>, word: Seq<char>) -> bool {
    exists|i: int|
        0 <= i < parts.len() && word.len() <= trim(#[trigger] parts[i]).len() && trim(
            parts[i],
        ).take(word.len() as int) == word
}

/// What `%(upstream:track)` says: nothing when identical, `[gone]`,
/// or `[ahead N]`, `[behind N]` or both.
pub open spec fn track_status(track: Seq<char>) -> UpstreamStatus {
    if track.len() == 0 {
        UpstreamStatus::Identical
    } else {
        let inner = if track.len() >= 2 && track[0] == '[' && track.last() == ']' {
            track.subrange(1, track.len() - 1)
        } else {
            track
        };
        let parts = split_at_char(inner, ',');
        if inner == "gone"@ {
            UpstreamStatus::UpstreamIsGone
        } else if mentions(parts, "ahead"@) && mentions(parts, "behind"@) {
            UpstreamStatus::MergeNeeded
        } else if mentions(parts, "ahead"@) {
            UpstreamStatus::LocalIsAheadOfUpstream
        } else if mentions(parts, "behind"@) {
            UpstreamStatus::UpstreamIsAheadOfLocal
        } else {
            UpstreamStatus::Identical
        }
    }
}

fn any_starts(parts: &Vec<Vec<char>>, word: &str) -> (r: bool)
    ensures
        r == mentions(views(parts@), word@),
{
    let w = chars_of(word);
    let ghost ps = views(parts@);
    let mut i: usize = 0;
    while i < parts.len()
        invariant
            i <= parts@.len(),
            ps == views(parts@),
            w@ == word@,
            forall|j: int|
                0 <= j < i ==> !(word@.len() <= trim(#[trigger] ps[j]).len() && trim(ps[j]).take(
                    word@.len() as int,
                ) == word@),
        decreases parts.len() - i,
    {
        let t = trim_chars(&parts[i]);
        assert(t@ == trim(ps[i as int]));
        if starts_with(&t, &w) {
            return true;
        }
        i = i + 1;
    }
    false
}

/// Reads `%(upstream:track)`.
pub fn parse_upstream_track(track: &str) -> (r: UpstreamStatus)
    ensures
        r == track_status(track@),
{
    let t = chars_of(track);
    if t.len() == 0 {
        return UpstreamStatus::Identical;
    }
    let n = t.len();
    let inner = if n >= 2 && t[0] == '[' && t[n - 1] == ']' {
        slice_vec(&t, 1, n - 1)
    } else {
        slice_vec(&t, 0, n)
    };
    assert(t@.subrange(0, n as int) =~= t@);
    let gone = chars_of("gone");
    if chars_eq(&inner, &gone) {
        return UpstreamStatus::UpstreamIsGone;
    }
    let parts = split_chars(&inner, ',');
    let ahead = any_starts(&parts, "ahead");
    let behind = any_starts(&parts, "behind");
    if ahead && behind {
        UpstreamStatus::MergeNeeded
    } else if ahead {
        UpstreamStatus::LocalIsAheadOfUpstream
    } else if behind {
        UpstreamStatus::UpstreamIsAheadOfLocal
    } else {
        UpstreamStatus::Identical
    }
}

pub struct BranchView {
    pub refname: Seq<char>,
    pub upstream: Option<(Seq<char>, UpstreamStatus)>,
    pub worktree_path: Option<Seq<char>>,
}

impl View for Branch {
    type V = BranchView;

    open spec fn view(&self) -> BranchView {
        BranchView {
            refname: self.refname@,
            upstream: match self.upstream {
                Some(u) => Some((u.name@, u.status)),
                None => None,
            },
            worktree_path: match self.worktree_path {
                Some(p) => Some(p@),
                None => None,
            },
        }
    }
}

/// One line of `git for-each-ref` with the branch assistant's format:
/// `refname|upstream|track|worktreepath`, each field trimmed.
pub open spec fn branch_line(line: Seq<char>) -> Option<BranchView> {
    let parts = split_n(line, '|', 4);
    if parts.len() != 4 {
        None
    } else {
        Some(
            BranchView {
                refname: trim(parts[0]),
                upstream: if trim(parts[1]).len() == 0 {
                    None
                } else {
                    Some((trim(parts[1]), track_status(trim(parts[2]))))
                },
                worktree_path: if trim(parts[3]).len() == 0 {
                    None
                } else {
                    Some(trim(parts[3]))
                },
            },
        )
    }
}

/// The branches of the non-blank lines, or the first line that is not one.
pub open spec fn branches_of(ls: Seq<Seq<char>>) -> Result<Seq<BranchView>, Seq<char>>
    decreases ls.len(),
{
    if ls.len() == 0 {
        Ok(Seq::empty())
    } else {
        match branches_of(ls.drop_last()) {
            Err(e) => Err(e),
            Ok(bs) => match branch_line(ls.last()) {
                None => Err(ls.last()),
                Some(b) => Ok(bs.push(b)),
            },
        }
    }
}

/// A line of git's output that is not in the shape asked for.
#[derive(Debug, Clone, PartialEq, Eq)]
pub struct UnexpectedOutput {
    pub line: String,
}

pub open spec fn branch_views(bs: Seq<Branch>) -> Seq<BranchView> {
    bs.map_values(|b: Branch| b@)
}

fn branch_from(parts: &Vec<Vec<char>>) -> (b: Branch)
    requires
        parts@.len() == 4,
    ensures
        branch_line_parts(views(parts@)) == b@,
{
    let refname = string_of(&trim_chars(&parts[0]));
    let upstream_name = trim_chars(&parts[1]);
    let track = string_of(&trim_chars(&parts[2]));
    let worktree = trim_chars(&parts[3]);
    let upstream = if upstream_name.len() == 0 {
        None
    } else {
        Some(
            Upstream {
                name: string_of(&upstream_name),
                status: parse_upstream_track(track.as_str()),
            },
        )
    };
    let worktree_path = if worktree.len() == 0 {
        None
    } else {
        Some(string_of(&worktree))
    };
    Branch { refname, upstream, worktree_path }
}

pub open spec fn branch_line_parts(parts: Seq<Seq<char>>) -> BranchView {
    BranchView {
        refname: trim(parts[0]),
        upstream: if trim(parts[1]).len() == 0 {
            None
        } else {
            Some((trim(parts[1]), track_status(trim(parts[2]))))
        },
        worktree_path: if trim(parts[3]).len() == 0 {
            None
        } else {
            Some(trim(parts[3]))
        },
    }
}

/// Reads the output of the branch listing: one branch per non-blank line.
pub fn parse_branches(output: &str) -> (r: Result<Vec<Branch>, UnexpectedOutput>)
    ensures
        match r {
            Ok(bs) => branches_of(non_blank(lines_of(output@))) == Ok::<
                Seq<BranchView>,
                Seq<char>,
            >(branch_views(bs@)),
            Err(e) => branches_of(non_blank(lines_of(output@))) == Err::<
                Seq<BranchView>,
                Seq<char>,
            >(e.line@),
        },
{
    let ls = drop_blank(lines(&chars_of(output)));
    let ghost all = views(ls@);
    let mut out: Vec<Branch> = Vec::new();
    let mut k: usize = 0;
    assert(all.take(0) =~= Seq::<Seq<char>>::empty());
    assert(branch_views(out@) =~= Seq::<BranchView>::empty());
    while k < ls.len()
        invariant
            k <= ls@.len(),
            all == views(ls@),
            all == non_blank(lines_of(output@)),
            branches_of(all.take(k as int)) == Ok::<Seq<BranchView>, Seq<char>>(
                branch_views(out@),
            ),
        decreases ls.len() - k,
    {
        assert(all.take(k + 1).drop_last() =~= all.take(k as int));
        assert(all.take(k + 1).last() == ls@[k as int]@);
        let parts = splitn_chars(&ls[k], '|', 4);
        if parts.len() != 4 {
            proof {
                lemma_branches_err(all, k + 1);
            }
            return Err(UnexpectedOutput { line: string_of(&ls[k]) });
        }
        let b = branch_from(&parts);
        let ghost before = branch_views(out@);
        out.push(b);
        assert(branch_views(out@) =~= before.push(b@));
        k = k + 1;
    }
    assert(all.take(k as int) =~= all);
    Ok(out)
}

proof fn lemma_branches_err(ls: Seq<Seq<char>>, j: int)
    requires
        0 <= j <= ls.len(),
        branches_of(ls.take(j)) is Err,
    ensures
        branches_of(ls) == branches_of(ls.take(j)),
    decreases ls.len(),
{
    if ls.len() > j {
        assert(ls.drop_last().take(j) =~= ls.take(j));
        lemma_branches_err(ls.drop_last(), j);
    } else {
        assert(ls.take(j) =~= ls);
    }
}

// ---- commit information -----------------------------------------------

/// `i64::from_str`: an optional sign, then decimal digits, in range.
pub open spec fn i64_of(s: Seq<char>) -> Option<i64> {
    let negative = s.len() > 0 && s[0] == '-';
    let digits = if s.len() > 0 && (s[0] == '-' || s[0] == '+') {
        s.drop_first()
    } else {
        s
    };
    if digits.len() == 0 || !all_digits(digits) {
        None
    } else {
        let v = if negative {
            -digits_value(digits)
        } else {
            digits_value(digits)
        };
        if i64::MIN <= v <= i64::MAX {
            Some(v as i64)
        } else {
            None
        }
    }
}

/// Reads a decimal `i64`.
pub fn parse_i64(s: &[char]) -> (r: Option<i64>)
    ensures
        r == i64_of(s@),
{
    let negative = s.len() > 0 && s[0] == '-';
    let start: usize = if s.len() > 0 && (s[0] == '-' || s[0] == '+') {
        1
    } else {
        0
    };
    let ghost digits = s@.skip(start as int);
    assert(digits =~= if s@.len() > 0 && (s@[0] == '-' || s@[0] == '+') {
        s@.drop_first()
    } else {
        s@
    });
    if start == s.len() {
        return None;
    }
    let limit: i128 = 9223372036854775808;
    let mut v: i128 = 0;
    let mut i = start;
    while i < s.len()
        invariant
            start <= i <= s.len(),
            start < s.len(),
            limit == 9223372036854775808,
            negative == (s@.len() > 0 && s@[0] == '-'),
            digits == if s@.len() > 0 && (s@[0] == '-' || s@[0] == '+') {
                s@.drop_first()
            } else {
                s@
            },
            digits == s@.skip(start as int),
            all_digits(digits.take(i - start)),
            v == digits_value(digits.take(i - start)),
            0 <= v <= limit,
        decreases s.len() - i,
    {
        assert(digits.take(i - start + 1).drop_last() =~= digits.take(i - start));
        assert(digits[i - start] == s@[i as int]);
        if !('0' <= s[i] && s[i] <= '9') {
            assert(!all_digits(digits));
            return None;
        }
        v = v * 10 + (s[i] as u32 - '0' as u32) as i128;
        i = i + 1;
        if v > limit {
            proof {
                if all_digits(digits) {
                    crate::text::lemma_digits_value_prefix(digits, i - start);
                }
            }
            return None;
        }
        assert(all_digits(digits.take(i - start)));
    }
    assert(digits.take(i - start) =~= digits);
    if negative {
        Some((-v) as i64)
    } else if v > 9223372036854775807 {
        None
    } else {
        Some(v as i64)
    }
}

pub struct InfoView {
    pub commit_timestamp: i64,
    pub commit_date: Seq<char>,
    pub committer: Seq<char>,
}

/// Why a line of the commit listing could not be read.
#[derive(Debug, Clone, PartialEq, Eq)]
pub enum CommitInfoError {
    /// A line that is not `refname|timestamp|date|committer`.
    Unexpected { line: String },
    /// A timestamp that is not a number.
    BadTimestamp { raw: String },
}

pub enum InfoFault {
    Unexpected(Seq<char>),
    BadTimestamp(Seq<char>),
}

pub open spec fn info_fault(e: CommitInfoError) -> InfoFault {
    match e {
        CommitInfoError::Unexpected { line } => InfoFault::Unexpected(line@),
        CommitInfoError::BadTimestamp { raw } => InfoFault::BadTimestamp(raw@),
    }
}

/// The commit listing, line by line: each branch with the time, the day
/// and the author of its last commit; the first line that does not read
/// is the answer.
pub open spec fn infos_of(ls: Seq<Seq<char>>) -> Result<Seq<(Seq<char>, InfoView)>, InfoFault>
    decreases ls.len(),
{
    if ls.len() == 0 {
        Ok(Seq::empty())
    } else {
        match infos_of(ls.drop_last()) {
            Err(e) => Err(e),
            Ok(m) => {
                let parts = split_n(ls.last(), '|', 4);
                if parts.len() != 4 {
                    Err(InfoFault::Unexpected(ls.last()))
                } else {
                    match i64_of(parts[1]) {
                        None => Err(InfoFault::BadTimestamp(parts[1])),
                        Some(t) => Ok(
                            m.push(
                                (
                                    parts[0],
                                    InfoView {
                                        commit_timestamp: t,
                                        commit_date: parts[2],
                                        committer: parts[3],
                                    },
                                ),
                            ),
                        ),
                    }
                }
            },
        }
    }
}

pub open spec fn info_views(v: Seq<(String, BranchCommitInfo)>) -> Seq<(Seq<char>, InfoView)> {
    v.map_values(
        |e: (String, BranchCommitInfo)|
            (
                e.0@,
                InfoView {
                    commit_timestamp: e.1.commit_timestamp,
                    commit_date: e.1.commit_date@,
                    committer: e.1.committer@,
                },
            ),
    )
}

proof fn lemma_infos_err(ls: Seq<Seq<char>>, j: int)
    requires
        0 <= j <= ls.len(),
        infos_of(ls.take(j)) is Err,
    ensures
        infos_of(ls) == infos_of(ls.take(j)),
    decreases ls.len(),
{
    if ls.len() > j {
        assert(ls.drop_last().take(j) =~= ls.take(j));
        lemma_infos_err(ls.drop_last(), j);
    } else {
        assert(ls.take(j) =~= ls);
    }
}

/// Reads the commit listing: for each branch, the time, the day and the
/// name of its last commit, in the order listed.
pub fn parse_commit_infos(output: &str) -> (r: Result<Vec<(String, BranchCommitInfo)>, CommitInfoError>)
    ensures
        match r {
            Ok(v) => infos_of(non_blank(lines_of(output@))) == Ok::<
                Seq<(Seq<char>, InfoView)>,
                InfoFault,
            >(info_views(v@)),
            Err(e) => infos_of(non_blank(lines_of(output@))) == Err::<
                Seq<(Seq<char>, InfoView)>,
                InfoFault,
            >(info_fault(e)),
        },
{
    let ls = drop_blank(lines(&chars_of(output)));
    let ghost all = views(ls@);
    let mut out: Vec<(String, BranchCommitInfo)> = Vec::new();
    let mut k: usize = 0;
    assert(all.take(0) =~= Seq::<Seq<char>>::empty());
    assert(info_views(out@) =~= Seq::<(Seq<char>, InfoView)>::empty());
    while k < ls.len()
        invariant
            k <= ls@.len(),
            all == views(ls@),
            all == non_blank(lines_of(output@)),
            infos_of(all.take(k as int)) == Ok::<Seq<(Seq<char>, InfoView)>, InfoFault>(
                info_views(out@),
            ),
        decreases ls.len() - k,
    {
        assert(all.take(k + 1).drop_last() =~= all.take(k as int));
        assert(all.take(k + 1).last() == ls@[k as int]@);
        let parts = splitn_chars(&ls[k], '|', 4);
        if parts.len() != 4 {
            proof {
                lemma_infos_err(all, k + 1);
            }
            return Err(CommitInfoError::Unexpected { line: string_of(&ls[k]) });
        }
        let timestamp = match parse_i64(&parts[1]) {
            Some(t) => t,
            None => {
                proof {
                    lemma_infos_err(all, k + 1);
                }
                return Err(CommitInfoError::BadTimestamp { raw: string_of(&parts[1]) });
            },
        };
        let info = BranchCommitInfo {
            commit_timestamp: timestamp,
            commit_date: string_of(&parts[2]),
            committer: string_of(&parts[3]),
        };
        let name = string_of(&parts[0]);
        let ghost before = info_views(out@);
        out.push((name, info));
        assert(info_views(out@) =~= before.push(
            (
                parts@[0]@,
                InfoView {
                    commit_timestamp: timestamp,
                    commit_date: parts@[2]@,
                    committer: parts@[3]@,
                },
            ),
        ));
        k = k + 1;
    }
    assert(all.take(k as int) =~= all);
    Ok(out)
}

/// The last listed commit information for a branch: a later line for the
/// same branch replaces an earlier one.
pub open spec fn info_for(v: Seq<(Seq<char>, InfoView)>, refname: Seq<char>) -> Option<InfoView>
    decreases v.len(),
{
    if v.len() == 0 {
        None
    } else if v.last().0 == refname {
        Some(v.last().1)
    } else {
        info_for(v.drop_last(), refname)
    }
}

/// The commit information listed for a branch, the last if there are
/// several.
pub fn commit_info_for<'a>(infos: &'a Vec<(String, BranchCommitInfo)>, refname: &str) -> (r: Option<
    &'a BranchCommitInfo,
>)
    ensures
        match r {
            Some(i) => info_for(info_views(infos@), refname@) == Some(
                InfoView {
                    commit_timestamp: i.commit_timestamp,
                    commit_date: i.commit_date@,
                    committer: i.committer@,
                },
            ),
            None => info_for(info_views(infos@), refname@) is None,
        },
{
    let ghost all = info_views(infos@);
    let mut i = infos.len();
    assert(all.take(i as int) =~= all);
    while i > 0
        invariant
            i <= infos@.len(),
            all == info_views(infos@),
            info_for(all, refname@) == info_for(all.take(i as int), refname@),
        decreases i,
    {
        assert(all.take(i as int).drop_last() =~= all.take(i - 1));
        assert(all.take(i as int).last() == all[i - 1]);
        if crate::text::str_eq(infos[i - 1].0.as_str(), refname) {
            return Some(&infos[i - 1].1);
        }
        i = i - 1;
    }
    None
}

// ---- commands ---------------------------------------------------------

/// How a command is run: with its output captured, handed the terminal,
/// or handed the terminal after its command line is printed.
#[derive(Debug, Clone, Copy, PartialEq, Eq, Structural)]
pub enum RunMode {
    Capture,
    Interactive,
    Printed,
}

/// A command line to run in a repository.
#[derive(Debug, Clone)]
pub struct GitCommand {
    pub dir: String,
    pub program: String,
    pub args: Vec<String>,
    pub mode: RunMode,
}

/// A repository the assistant works in.
#[derive(Debug, Clone)]
pub struct GitRepo {
    pub dir: String,
}

/// Whether the two PR options are on: a draft, or opened in the browser.
#[derive(Debug, Clone, Copy, Default, PartialEq, Eq, Structural)]
pub struct PrOptions {
    pub draft: bool,
    pub web: bool,
}

fn owned(s: &str) -> (r: String)
    ensures
        r@ == s@,
{
    string_of(&chars_of(s))
}

pub open spec fn command_is(c: GitCommand, dir: Seq<char>, program: Seq<char>, args: Seq<Seq<char>>, mode: RunMode) -> bool {
    &&& c.dir@ == dir
    &&& c.program@ == program
    &&& string_views(c.args@) == args
    &&& c.mode == mode
}

fn args_of(parts: &[&str]) -> (r: Vec<String>)
    ensures
        string_views(r@) == parts@.map_values(|p: &str| p@),
{
    let mut out: Vec<String> = Vec::new();
    let mut i: usize = 0;
    while i < parts.len()
        invariant
            i <= parts@.len(),
            string_views(out@) == parts@.map_values(|p: &str| p@).take(i as int),
        decreases parts.len() - i,
    {
        let s = owned(parts[i]);
        let ghost before = string_views(out@);
        out.push(s);
        assert(string_views(out@) =~= before.push(s@));
        assert(string_views(out@) =~= parts@.map_values(|p: &str| p@).take(i + 1));
        i = i + 1;
    }
    assert(parts@.map_values(|p: &str| p@).take(i as int) =~= parts@.map_values(|p: &str| p@));
    out
}

fn push_arg(v: &mut Vec<String>, s: &str)
    ensures
        string_views(final(v)@) == string_views(old(v)@).push(s@),
{
    let ghost before = string_views(v@);
    let o = owned(s);
    v.push(o);
    assert(string_views(v@) =~= before.push(s@));
}

/// The arguments of `gh` that open a pull request from `head` into
/// `base`: a draft filled from the commits, or one opened in the browser,
/// or neither; a draft wins when both are asked for.
pub open spec fn pr_args(head: Seq<char>, base: Seq<char>, options: PrOptions) -> Seq<Seq<char>> {
    let common = seq!["pr"@, "create"@, "--head"@, head, "--base"@, base];
    if options.draft {
        common + seq!["--draft"@, "--fill"@]
    } else if options.web {
        common.push("--web"@)
    } else {
        common
    }
}

pub fn pr_create_args(head: &str, base: &str, options: PrOptions) -> (r: Vec<String>)
    ensures
        string_views(r@) == pr_args(head@, base@, options),
{
    let mut args: Vec<String> = Vec::new();
    push_arg(&mut args, "pr");
    push_arg(&mut args, "create");
    push_arg(&mut args, "--head");
    push_arg(&mut args, head);
    push_arg(&mut args, "--base");
    push_arg(&mut args, base);
    if options.draft {
        push_arg(&mut args, "--draft");
        push_arg(&mut args, "--fill");
    } else if options.web {
        push_arg(&mut args, "--web");
    }
    assert(string_views(args@) =~= pr_args(head@, base@, options));
    args
}

impl GitRepo {
    pub fn new(dir: String) -> (r: GitRepo)
        ensures
            r.dir@ == dir@,
    {
        GitRepo { dir }
    }

    pub fn dir(&self) -> (r: &str)
        ensures
            r@ == self.dir@,
    {
        self.dir.as_str()
    }

    fn command(&self, program: &str, args: &[&str], mode: RunMode) -> (c: GitCommand)
        ensures
            command_is(c, self.dir@, program@, args@.map_values(|p: &str| p@), mode),
    {
        GitCommand { dir: self.dir.clone(), program: owned(program), args: args_of(args), mode }
    }

    /// The listing the branches are read from, by `parse_branches`.
    pub fn get_branches(&self) -> (c: GitCommand)
        ensures
            command_is(
                c,
                self.dir@,
                "git"@,
                seq![
                    "for-each-ref"@,
                    "--format=%(refname:short)|%(upstream:short)|%(upstream:track)|%(worktreepath)"@,
                    "refs/heads/"@,
                ],
                RunMode::Capture,
            ),
    {
        let c = self.command(
            "git",
            &[
                "for-each-ref",
                "--format=%(refname:short)|%(upstream:short)|%(upstream:track)|%(worktreepath)",
                "refs/heads/",
            ],
            RunMode::Capture,
        );
        assert(string_views(c.args@) =~= seq![
            "for-each-ref"@,
            "--format=%(refname:short)|%(upstream:short)|%(upstream:track)|%(worktreepath)"@,
            "refs/heads/"@,
        ]);
        c
    }

    /// The listing each branch's last commit is read from, by
    /// `parse_commit_infos`.
    pub fn branch_commit_infos(&self) -> (c: GitCommand)
        ensures
            command_is(
                c,
                self.dir@,
                "git"@,
                seq![
                    "for-each-ref"@,
                    "--format=%(refname:short)|%(committerdate:unix)|%(committerdate:short)|%(committername)"@,
                    "refs/heads/"@,
                ],
                RunMode::Capture,
            ),
    {
        let c = self.command(
            "git",
            &[
                "for-each-ref",
                "--format=%(refname:short)|%(committerdate:unix)|%(committerdate:short)|%(committername)",
                "refs/heads/",
            ],
            RunMode::Capture,
        );
        assert(string_views(c.args@) =~= seq![
            "for-each-ref"@,
            "--format=%(refname:short)|%(committerdate:unix)|%(committerdate:short)|%(committername)"@,
            "refs/heads/"@,
        ]);
        c
    }

    pub fn push(&self, refname: &str) -> (c: GitCommand)
        ensures
            command_is(c, self.dir@, "git"@, seq!["push"@, "origin"@, refname@], RunMode::Printed),
    {
        let c = self.command("git", &["push", "origin", refname], RunMode::Printed);
        assert(string_views(c.args@) =~= seq!["push"@, "origin"@, refname@]);
        c
    }

    pub fn push_creating_origin(&self, refname: &str) -> (c: GitCommand)
        ensures
            command_is(
                c,
                self.dir@,
                "git"@,
                seq!["push"@, "--set-upstream"@, "origin"@, refname@],
                RunMode::Printed,
            ),
    {
        let c = self.command("git", &["push", "--set-upstream", "origin", refname], RunMode::Printed);
        assert(string_views(c.args@) =~= seq!["push"@, "--set-upstream"@, "origin"@, refname@]);
        c
    }

    /// Rebases the branch onto its upstream.
    pub fn rebase(&self, refname: &str, upstream: &str) -> (c: GitCommand)
        ensures
            command_is(c, self.dir@, "git"@, seq!["rebase"@, upstream@, refname@], RunMode::Printed),
    {
        let c = self.command("git", &["rebase", upstream, refname], RunMode::Printed);
        assert(string_views(c.args@) =~= seq!["rebase"@, upstream@, refname@]);
        c
    }

    pub fn delete_branch_forcefully(&self, branch: &str) -> (c: GitCommand)
        ensures
            command_is(c, self.dir@, "git"@, seq!["branch"@, "-D"@, branch@], RunMode::Printed),
    {
        let c = self.command("git", &["branch", "-D", branch], RunMode::Printed);
        assert(string_views(c.args@) =~= seq!["branch"@, "-D"@, branch@]);
        c
    }

    pub fn delete_worktree(&self, path: &str) -> (c: GitCommand)
        ensures
            command_is(c, self.dir@, "git"@, seq!["worktree"@, "remove"@, path@], RunMode::Printed),
    {
        let c = self.command("git", &["worktree", "remove", path], RunMode::Printed);
        assert(string_views(c.args@) =~= seq!["worktree"@, "remove"@, path@]);
        c
    }

    /// Opens a pull request from the branch into the repository's default
    /// branch.
    pub fn create_pull_request(&self, refname: &str, base: &str, options: PrOptions) -> (c:
        GitCommand)
        ensures
            command_is(c, self.dir@, "gh"@, pr_args(refname@, base@, options), RunMode::Printed),
    {
        GitCommand {
            dir: self.dir.clone(),
            program: owned("gh"),
            args: pr_create_args(refname, base, options),
            mode: RunMode::Printed,
        }
    }

    /// The query for the repository's default branch on GitHub, read by
    /// the caller from its JSON.
    pub fn default_branch_query(&self) -> (c: GitCommand)
        ensures
            command_is(
                c,
                self.dir@,
                "gh"@,
                seq!["repo"@, "view"@, "--json"@, "defaultBranchRef"@],
                RunMode::Capture,
            ),
    {
        let c = self.command("gh", &["repo", "view", "--json", "defaultBranchRef"], RunMode::Capture);
        assert(string_views(c.args@) =~= seq!["repo"@, "view"@, "--json"@, "defaultBranchRef"@]);
        c
    }

    pub fn show_log(&self, branch: &str) -> (c: GitCommand)
        ensures
            command_is(c, self.dir@, "tig"@, seq![branch@], RunMode::Interactive),
    {
        let c = self.command("tig", &[branch], RunMode::Interactive);
        assert(string_views(c.args@) =~= seq![branch@]);
        c
    }

    pub fn checkout_branch(&self, branch: &str) -> (c: GitCommand)
        ensures
            command_is(c, self.dir@, "git"@, seq!["checkout"@, branch@], RunMode::Capture),
    {
        let c = self.command("git", &["checkout", branch], RunMode::Capture);
        assert(string_views(c.args@) =~= seq!["checkout"@, branch@]);
        c
    }

    /// Checks out the branch `pick_default_branch` chose.
    pub fn checkout_default_branch(&self, branch: &str) -> (c: GitCommand)
        ensures
            command_is(c, self.dir@, "git"@, seq!["checkout"@, branch@], RunMode::Capture),
    {
        self.checkout_branch(branch)
    }

    /// Where the remote's default branch points.
    pub fn origin_head_query(&self) -> (c: GitCommand)
        ensures
            command_is(
                c,
                self.dir@,
                "git"@,
                seq!["symbolic-ref"@, "refs/remotes/origin/HEAD"@],
                RunMode::Capture,
            ),
    {
        let c = self.command("git", &["symbolic-ref", "refs/remotes/origin/HEAD"], RunMode::Capture);
        assert(string_views(c.args@) =~= seq!["symbolic-ref"@, "refs/remotes/origin/HEAD"@]);
        c
    }

    /// The branch a new repository starts on, by configuration.
    pub fn init_default_branch_query(&self) -> (c: GitCommand)
        ensures
            command_is(
                c,
                self.dir@,
                "git"@,
                seq!["config"@, "--get"@, "init.defaultBranch"@],
                RunMode::Capture,
            ),
    {
        let c = self.command("git", &["config", "--get", "init.defaultBranch"], RunMode::Capture);
        assert(string_views(c.args@) =~= seq!["config"@, "--get"@, "init.defaultBranch"@]);
        c
    }

    /// The status whose output `is_dirty_output` reads.
    pub fn is_dirty(&self) -> (c: GitCommand)
        ensures
            command_is(c, self.dir@, "git"@, seq!["status"@, "--porcelain"@], RunMode::Capture),
    {
        let c = self.command("git", &["status", "--porcelain"], RunMode::Capture);
        assert(string_views(c.args@) =~= seq!["status"@, "--porcelain"@]);
        c
    }
}

/// A working tree is dirty when `git status --porcelain` says anything.
pub fn is_dirty_output(output: &str) -> (r: bool)
    ensures
        r == (trim(output@).len() > 0),
{
    trim_chars(&chars_of(output)).len() > 0
}

/// A command line as it is shown: the program and its arguments, joined
/// by spaces.
pub open spec fn command_line(program: Seq<char>, args: Seq<Seq<char>>) -> Seq<char>
    decreases args.len(),
{
    if args.len() == 0 {
        program
    } else {
        command_line(program, args.drop_last()) + seq![' '] + args.last()
    }
}

pub fn format_command(program: &str, args: &Vec<String>) -> (r: String)
    ensures
        r@ == command_line(program@, string_views(args@)),
{
    let mut out = chars_of(program);
    let ghost all = string_views(args@);
    let mut i: usize = 0;
    while i < args.len()
        invariant
            i <= args@.len(),
            all == string_views(args@),
            out@ == command_line(program@, all.take(i as int)),
        decreases args.len() - i,
    {
        assert(all.take(i + 1).drop_last() =~= all.take(i as int));
        assert(all.take(i + 1).last() == args@[i as int]@);
        out.push(' ');
        crate::text::push_str(&mut out, args[i].as_str());
        i = i + 1;
    }
    assert(all.take(i as int) =~= all);
    string_of(&out)
}

// ---- the default branch -----------------------------------------------

pub open spec fn remote_prefix() -> Seq<char> {
    "refs/remotes/origin/"@
}

/// The branches to try as the default, best first and each once: where
/// the remote's `HEAD` points, then `init.defaultBranch`, then `main`.
/// Each answer is trimmed and an empty one is no answer.
pub open spec fn candidates_of(origin_head: Option<Seq<char>>, init_default: Option<Seq<char>>) -> Seq<
    Seq<char>,
> {
    let from_remote = match origin_head {
        Some(h) => {
            let t = trim(h);
            if t.len() > remote_prefix().len() && t.take(remote_prefix().len() as int)
                == remote_prefix() {
                seq![t.skip(remote_prefix().len() as int)]
            } else {
                Seq::empty()
            }
        },
        None => Seq::empty(),
    };
    let from_config = match init_default {
        Some(d) => if trim(d).len() > 0 {
            seq![trim(d)]
        } else {
            Seq::empty()
        },
        None => Seq::empty(),
    };
    without_repeats(from_remote + from_config + seq!["main"@])
}

/// The sequence with each value kept only where it first occurs.
pub open spec fn without_repeats(s: Seq<Seq<char>>) -> Seq<Seq<char>>
    decreases s.len(),
{
    if s.len() == 0 {
        s
    } else {
        let w = without_repeats(s.drop_last());
        if w.contains(s.last()) {
            w
        } else {
            w.push(s.last())
        }
    }
}

fn push_new(v: &mut Vec<Vec<char>>, c: Vec<char>, Ghost(seen): Ghost<Seq<Seq<char>>>)
    requires
        views(old(v)@) == without_repeats(seen),
    ensures
        views(final(v)@) == without_repeats(seen.push(c@)),
{
    assert(seen.push(c@).drop_last() =~= seen);
    let mut found = false;
    let mut i: usize = 0;
    while i < v.len()
        invariant
            i <= v@.len(),
            found == exists|j: int| 0 <= j < i && (#[trigger] views(v@)[j]) == c@,
        decreases v.len() - i,
    {
        assert(views(v@)[i as int] == v@[i as int]@);
        if chars_eq(&v[i], &c) {
            found = true;
        }
        i = i + 1;
    }
    assert(found == views(v@).contains(c@));
    if !found {
        let ghost before = views(v@);
        v.push(c);
        assert(views(v@) =~= before.push(c@));
    }
}

/// The branches to try as the default, best first.
pub fn default_branch_candidates(origin_head: Option<&str>, init_default: Option<&str>) -> (r: Vec<
    String,
>)
    ensures
        string_views(r@) == candidates_of(
            match origin_head {
                Some(h) => Some(h@),
                None => None,
            },
            match init_default {
                Some(d) => Some(d@),
                None => None,
            },
        ),
{
    let mut out: Vec<Vec<char>> = Vec::new();
    let ghost mut seen: Seq<Seq<char>> = Seq::empty();
    assert(views(out@) =~= without_repeats(seen));
    let prefix = chars_of("refs/remotes/origin/");
    match origin_head {
        Some(h) => {
            let t = trim_chars(&chars_of(h));
            if t.len() > prefix.len() && starts_with(&t, &prefix) {
                let rest = slice_vec(&t, prefix.len(), t.len());
                assert(rest@ =~= t@.skip(prefix@.len() as int));
                push_new(&mut out, rest, Ghost(seen));
                proof {
                    seen = seen.push(t@.skip(prefix@.len() as int));
                }
            }
        },
        None => {},
    }
    match init_default {
        Some(d) => {
            let t = trim_chars(&chars_of(d));
            if t.len() > 0 {
                let ghost tv = t@;
                push_new(&mut out, t, Ghost(seen));
                proof {
                    seen = seen.push(tv);
                }
            }
        },
        None => {},
    }
    push_new(&mut out, chars_of("main"), Ghost(seen));
    proof {
        seen = seen.push("main"@);
    }
    let ghost want = candidates_of(
        match origin_head {
            Some(h) => Some(h@),
            None => None,
        },
        match init_default {
            Some(d) => Some(d@),
            None => None,
        },
    );
    assert(views(out@) == want) by {
        let from_remote = match origin_head {
            Some(h) => {
                let t = trim(h@);
                if t.len() > remote_prefix().len() && t.take(remote_prefix().len() as int)
                    == remote_prefix() {
                    seq![t.skip(remote_prefix().len() as int)]
                } else {
                    Seq::<Seq<char>>::empty()
                }
            },
            None => Seq::<Seq<char>>::empty(),
        };
        let from_config = match init_default {
            Some(d) => if trim(d@).len() > 0 {
                seq![trim(d@)]
            } else {
                Seq::<Seq<char>>::empty()
            },
            None => Seq::<Seq<char>>::empty(),
        };
        assert(seen =~= from_remote + from_config + seq!["main"@]);
    }
    let mut strings: Vec<String> = Vec::new();
    let mut i: usize = 0;
    while i < out.len()
        invariant
            i <= out@.len(),
            string_views(strings@) == views(out@).take(i as int),
        decreases out.len() - i,
    {
        let s = string_of(&out[i]);
        let ghost before = string_views(strings@);
        strings.push(s);
        assert(string_views(strings@) =~= before.push(s@));
        assert(string_views(strings@) =~= views(out@).take(i + 1));
        i = i + 1;
    }
    assert(views(out@).take(i as int) =~= views(out@));
    strings
}

/// No candidate for the default branch exists in this repository.
#[derive(Debug, Clone, PartialEq, Eq)]
pub struct NoDefaultBranch {
    /// What was tried, best first.
    pub candidates: Vec<String>,
}

/// The first candidate that exists as a local branch.
pub open spec fn first_present(candidates: Seq<Seq<char>>, local: Seq<Seq<char>>) -> Option<int>
    decreases candidates.len(),
{
    if candidates.len() == 0 {
        None
    } else if local.contains(candidates[0]) {
        Some(0)
    } else {
        match first_present(candidates.drop_first(), local) {
            Some(i) => Some(i + 1),
            None => None,
        }
    }
}

/// Picks the branch to check out as the default: the first candidate that
/// exists locally, or an error naming every candidate tried.
pub fn pick_default_branch(candidates: &Vec<String>, local: &Vec<String>) -> (r: Result<
    String,
    NoDefaultBranch,
>)
    ensures
        match r {
            Ok(b) => first_present(string_views(candidates@), string_views(local@)) matches Some(
                i,
            ) && b@ == candidates@[i]@,
            Err(e) => first_present(string_views(candidates@), string_views(local@)) is None
                && string_views(e.candidates@) == string_views(candidates@),
        },
{
    let ghost cs = string_views(candidates@);
    let ghost ls = string_views(local@);
    let mut i: usize = 0;
    assert(cs.skip(0) =~= cs);
    while i < candidates.len()
        invariant
            i <= candidates@.len(),
            cs == string_views(candidates@),
            ls == string_views(local@),
            first_present(cs, ls) == match first_present(cs.skip(i as int), ls) {
                Some(j) => Some(j + i),
                None => None,
            },
        decreases candidates.len() - i,
    {
        assert(cs.skip(i as int).drop_first() =~= cs.skip(i + 1));
        let mut j: usize = 0;
        let mut found = false;
        while j < local.len()
            invariant
                j <= local@.len(),
                i < candidates@.len(),
                ls == string_views(local@),
                found == exists|k: int| 0 <= k < j && ls[k] == candidates@[i as int]@,
            decreases local.len() - j,
        {
            assert(ls[j as int] == local@[j as int]@);
            if crate::text::str_eq(local[j].as_str(), candidates[i].as_str()) {
                found = true;
            }
            j = j + 1;
        }
        assert(cs.skip(i as int)[0] == candidates@[i as int]@);
        if found {
            assert(ls.contains(candidates@[i as int]@));
            return Ok(candidates[i].clone());
        }
        i = i + 1;
    }
    assert(cs.skip(i as int).len() == 0);
    let mut copy: Vec<String> = Vec::new();
    let mut k: usize = 0;
    while k < candidates.len()
        invariant
            k <= candidates@.len(),
            copy@ == candidates@.take(k as int),
        decreases candidates.len() - k,
    {
        copy.push(candidates[k].clone());
        k = k + 1;
        assert(copy@ =~= candidates@.take(k as int));
    }
    assert(candidates@.take(k as int) =~= candidates@);
    Err(NoDefaultBranch { candidates: copy })
}

// ---- pickers ----------------------------------------------------------

/// The rows of a list to show so that the selection stays in view: a
/// window of at most `max_visible` rows, the selection near its middle,
/// held against the ends of the list.
pub open spec fn window_of(selected: int, total: int, max_visible: int) -> (int, int) {
    if total == 0 {
        (0, 0)
    } else if total <= max_visible {
        (0, total)
    } else {
        let half = max_visible / 2;
        let top = if selected > half {
            selected - half
        } else {
            0
        };
        let bottom = if top + max_visible < total {
            top + max_visible
        } else {
            total
        };
        let top2 = if bottom > max_visible {
            bottom - max_visible
        } else {
            0
        };
        (top2, bottom)
    }
}

pub fn visible_window(selected: usize, total: usize, max_visible: usize) -> (r: (usize, usize))
    ensures
        (r.0 as int, r.1 as int) == window_of(selected as int, total as int, max_visible as int),
{
    if total == 0 {
        return (0, 0);
    }
    if total <= max_visible {
        return (0, total);
    }
    let half = max_visible / 2;
    let top = selected.saturating_sub(half);
    let bottom = if top < total - max_visible {
        top + max_visible
    } else {
        total
    };
    let top = bottom.saturating_sub(max_visible);
    (top, bottom)
}

/// A pull request waiting for its options.
#[derive(Debug, Clone)]
pub struct PendingPr {
    pub repo_display: String,
    pub head: String,
    pub base: String,
}

pub enum PrOptionsOutcome {
    Confirmed(PrOptions),
    Cancelled,
}

/// The two options of the PR picker and where its cursor is.
#[derive(Debug, Clone, Copy, PartialEq, Eq, Structural)]
pub struct PrOptionsState {
    pub options: PrOptions,
    pub cursor: usize,
}

/// A key press, as far as the PR picker cares.
#[derive(Debug, Clone, Copy, PartialEq, Eq, Structural)]
pub enum PrKey {
    Up,
    Down,
    Toggle,
    Confirm,
    Cancel,
    Other,
}

#[derive(Debug, Clone, Copy, PartialEq, Eq, Structural)]
pub enum KeyResult {
    Continue,
    Confirm,
    Cancel,
}

/// How many options the PR picker offers: draft, and open in browser.
pub const PR_OPTION_COUNT: usize = 2;

/// What a key does to the PR picker. Draft and browser are exclusive:
/// turning one on turns the other off.
pub open spec fn pr_key_step(s: PrOptionsState, key: PrKey) -> (PrOptionsState, KeyResult) {
    match key {
        PrKey::Up => (
            PrOptionsState {
                cursor: if s.cursor > 0 {
                    (s.cursor - 1) as usize
                } else {
                    s.cursor
                },
                ..s
            },
            KeyResult::Continue,
        ),
        PrKey::Down => (
            PrOptionsState {
                cursor: if s.cursor + 1 < PR_OPTION_COUNT {
                    (s.cursor + 1) as usize
                } else {
                    s.cursor
                },
                ..s
            },
            KeyResult::Continue,
        ),
        PrKey::Toggle => (
            if s.cursor == 0 {
                PrOptionsState {
                    options: PrOptions {
                        draft: !s.options.draft,
                        web: if !s.options.draft {
                            false
                        } else {
                            s.options.web
                        },
                    },
                    ..s
                }
            } else if s.cursor == 1 {
                PrOptionsState {
                    options: PrOptions {
                        web: !s.options.web,
                        draft: if !s.options.web {
                            false
                        } else {
                            s.options.draft
                        },
                    },
                    ..s
                }
            } else {
                s
            },
            KeyResult::Continue,
        ),
        PrKey::Confirm => (s, KeyResult::Confirm),
        PrKey::Cancel => (s, KeyResult::Cancel),
        PrKey::Other => (s, KeyResult::Continue),
    }
}

impl PrOptionsState {
    /// The picker as it opens: a draft, not in the browser, cursor on top.
    pub fn initial() -> (s: PrOptionsState)
        ensures
            s == (PrOptionsState { options: PrOptions { draft: true, web: false }, cursor: 0 }),
    {
        PrOptionsState { options: PrOptions { draft: true, web: false }, cursor: 0 }
    }

    pub fn handle_key(&mut self, key: PrKey) -> (r: KeyResult)
        ensures
            (*final(self), r) == pr_key_step(*old(self), key),
    {
        match key {
            PrKey::Up => {
                if self.cursor > 0 {
                    self.cursor = self.cursor - 1;
                }
                KeyResult::Continue
            },
            PrKey::Down => {
                if self.cursor < PR_OPTION_COUNT - 1 {
                    self.cursor = self.cursor + 1;
                }
                KeyResult::Continue
            },
            PrKey::Toggle => {
                if self.cursor == 0 {
                    self.options.draft = !self.options.draft;
                    if self.options.draft {
                        self.options.web = false;
                    }
                } else if self.cursor == 1 {
                    self.options.web = !self.options.web;
                    if self.options.web {
                        self.options.draft = false;
                    }
                }
                KeyResult::Continue
            },
            PrKey::Confirm => KeyResult::Confirm,
            PrKey::Cancel => KeyResult::Cancel,
            PrKey::Other => KeyResult::Continue,
        }
    }
}

/// The outcome when there is nothing to ask: with no pull requests
/// pending, the defaults are confirmed at once; otherwise the picker runs.
pub fn pr_options_start(pending: &[PendingPr]) -> (r: Option<PrOptionsOutcome>)
    ensures
        pending@.len() == 0 <==> r is Some,
        r matches Some(o) ==> o == PrOptionsOutcome::Confirmed(PrOptions { draft: false, web: false }),
{
    if pending.len() == 0 {
        Some(PrOptionsOutcome::Confirmed(PrOptions { draft: false, web: false }))
    } else {
        None
    }
}

// ---- paths ------------------------------------------------------------

/// `a` joined with the relative path `b`, as `Path::join` does: with a
/// separator between them unless `a` is empty or already ends in one.
pub open spec fn join_path(a: Seq<char>, b: Seq<char>) -> Seq<char> {
    if a.len() == 0 {
        b
    } else if a.last() == '/' {
        a + b
    } else {
        a + seq!['/'] + b
    }
}

pub fn join(a: &str, b: &str) -> (r: String)
    ensures
        r@ == join_path(a@, b@),
{
    let mut out = chars_of(a);
    let n = out.len();
    if n > 0 && out[n - 1] != '/' {
        out.push('/');
    }
    crate::text::push_str(&mut out, b);
    string_of(&out)
}

/// `~` and `~/…` spelled out with the home directory, when there is one;
/// anything else as it is.
pub open spec fn expanded(path: Seq<char>, home: Option<Seq<char>>) -> Seq<char> {
    match home {
        Some(h) => if path.len() > 0 && path[0] == '~' {
            let rest = path.drop_first();
            if rest.len() == 0 {
                h
            } else {
                join_path(h, skip_slashes(rest))
            }
        } else {
            path
        },
        None => path,
    }
}

/// Leading `/` characters dropped.
pub open spec fn skip_slashes(s: Seq<char>) -> Seq<char>
    decreases s.len(),
{
    if s.len() > 0 && s[0] == '/' {
        skip_slashes(s.drop_first())
    } else {
        s
    }
}

/// Expands a leading `~` to the home directory given.
pub fn expand_tilde(path: &str, home: Option<&str>) -> (r: String)
    ensures
        r@ == expanded(
            path@,
            match home {
                Some(h) => Some(h@),
                None => None,
            },
        ),
{
    let cs = chars_of(path);
    match home {
        Some(h) => {
            if cs.len() > 0 && cs[0] == '~' {
                if cs.len() == 1 {
                    assert(path@.drop_first().len() == 0);
                    return owned(h);
                }
                let mut i: usize = 1;
                assert(cs@.skip(1) =~= path@.drop_first());
                while i < cs.len() && cs[i] == '/'
                    invariant
                        1 <= i <= cs@.len(),
                        cs@ == path@,
                        skip_slashes(path@.drop_first()) == skip_slashes(cs@.skip(i as int)),
                    decreases cs.len() - i,
                {
                    assert(cs@.skip(i as int).drop_first() =~= cs@.skip(i + 1));
                    i = i + 1;
                }
                let rest = slice_vec(&cs, i, cs.len());
                assert(rest@ =~= cs@.skip(i as int));
                let rest_s = string_of(&rest);
                return join(h, rest_s.as_str());
            }
            owned(path)
        },
        None => owned(path),
    }
}

/// The last component of a path, as `Path::file_name` gives it: trailing
/// separators and `.` components do not count, and `..` or nothing at all
/// has no name.
pub open spec fn file_name_of(path: Seq<char>) -> Option<Seq<char>> {
    let t = trim_trailing(path);
    let name = t.skip(last_slash(t) + 1);
    if name.len() == 0 || name == ".."@ || name == "."@ {
        None
    } else {
        Some(name)
    }
}

/// Trailing `/` and `/.` dropped.
pub open spec fn trim_trailing(s: Seq<char>) -> Seq<char>
    decreases s.len(),
{
    if s.len() > 1 && s.last() == '/' {
        trim_trailing(s.drop_last())
    } else if s.len() > 1 && s.last() == '.' && s[s.len() - 2] == '/' {
        trim_trailing(s.drop_last())
    } else {
        s
    }
}

/// Index of the last `/`, or -1.
pub open spec fn last_slash(s: Seq<char>) -> int
    decreases s.len(),
{
    if s.len() == 0 {
        -1
    } else if s.last() == '/' {
        s.len() - 1
    } else {
        last_slash(s.drop_last())
    }
}

proof fn lemma_last_slash(s: Seq<char>)
    ensures
        -1 <= last_slash(s) < s.len(),
    decreases s.len(),
{
    if s.len() > 0 && s.last() != '/' {
        lemma_last_slash(s.drop_last());
    }
}

/// `str::eq_ignore_ascii_case`.
pub open spec fn same_ignoring_ascii_case(a: Seq<char>, b: Seq<char>) -> bool {
    crate::logs::ascii_lower(a) == crate::logs::ascii_lower(b)
}

/// The last component of a path, if it has one.
pub fn file_name(path: &str) -> (r: Option<Vec<char>>)
    ensures
        match r {
            Some(n) => file_name_of(path@) == Some(n@),
            None => file_name_of(path@) is None,
        },
{
    let cs = chars_of(path);
    let mut end = cs.len();
    assert(cs@.take(end as int) =~= cs@);
    while end > 1 && (cs[end - 1] == '/' || (cs[end - 1] == '.' && cs[end - 2] == '/'))
        invariant
            end <= cs@.len(),
            cs@ == path@,
            trim_trailing(path@) == trim_trailing(cs@.take(end as int)),
        decreases end,
    {
        assert(cs@.take(end as int).drop_last() =~= cs@.take(end - 1));
        end = end - 1;
    }
    let ghost t = cs@.take(end as int);
    let mut start = end;
    assert(t.take(end as int) =~= t);
    while start > 0 && cs[start - 1] != '/'
        invariant
            start <= end <= cs@.len(),
            t == cs@.take(end as int),
            last_slash(t) == last_slash(t.take(start as int)),
            forall|j: int| start <= j < end ==> t[j] != '/',
        decreases start,
    {
        assert(t.take(start as int).drop_last() =~= t.take(start - 1));
        start = start - 1;
    }
    proof {
        lemma_last_slash(t);
        if start > 0 {
            assert(t.take(start as int).last() == '/');
            assert(last_slash(t.take(start as int)) == start - 1);
        } else {
            assert(last_slash(t.take(0)) == -1);
        }
    }
    let name = slice_vec(&cs, start, end);
    assert(name@ =~= t.skip(last_slash(t) + 1));
    let dotdot = chars_of("..");
    let dot = chars_of(".");
    if name.len() == 0 || chars_eq(&name, &dotdot) || chars_eq(&name, &dot) {
        return None;
    }
    Some(name)
}

/// Files nobody means to keep in a repository, wherever they are: macOS's
/// `.DS_Store`, in any case.
pub fn is_globally_ignored(path: &str) -> (r: bool)
    ensures
        r == match file_name_of(path@) {
            Some(name) => same_ignoring_ascii_case(name, ".DS_Store"@),
            None => false,
        },
{
    match file_name(path) {
        Some(name) => {
            let lower = crate::logs::to_ascii_lower(string_of(&name).as_str());
            let want = crate::logs::to_ascii_lower(".DS_Store");
            chars_eq(&lower, &want)
        },
        None => false,
    }
}

// ---- the branch cache -------------------------------------------------

/// FNV-1a, 64 bits: xor in the byte, then multiply by the prime.
pub open spec fn fnv1a_64(bytes: Seq<u8>) -> u64
    decreases bytes.len(),
{
    if bytes.len() == 0 {
        0xcbf29ce484222325
    } else {
        (((fnv1a_64(bytes.drop_last()) ^ (bytes.last() as u64)) as nat * 0x100000001b3nat)
            % 0x1_0000_0000_0000_0000nat) as u64
    }
}

pub fn fnv1a(data: &[u8]) -> (hash: u64)
    ensures
        hash == fnv1a_64(data@),
{
    let mut hash: u64 = 0xcbf29ce484222325;
    let mut i: usize = 0;
    while i < data.len()
        invariant
            i <= data@.len(),
            hash == fnv1a_64(data@.take(i as int)),
        decreases data.len() - i,
    {
        assert(data@.take(i + 1).drop_last() =~= data@.take(i as int));
        hash = hash ^ (data[i] as u64);
        hash = hash.wrapping_mul(0x100000001b3);
        i = i + 1;
    }
    assert(data@.take(i as int) =~= data@);
    hash
}

/// The lower-case hexadecimal digit for `d`.
pub open spec fn hex_digit(d: int) -> char {
    if d < 10 {
        ((d + 48) as u32) as char
    } else {
        ((d + 87) as u32) as char
    }
}

/// `{:016x}`: sixteen lower-case hexadecimal digits, most significant first.
pub open spec fn hex16(v: u64) -> Seq<char> {
    Seq::new(16, |i: int| hex_digit(((v as int) / pow16(15 - i)) % 16))
}

proof fn lemma_pow16_pos(n: int)
    ensures
        pow16(n) >= 1,
    decreases n,
{
    if n > 0 {
        lemma_pow16_pos(n - 1);
    }
}

pub open spec fn pow16(n: int) -> int
    decreases n,
{
    if n <= 0 {
        1
    } else {
        16 * pow16(n - 1)
    }
}

fn hex_char(d: u64) -> (c: char)
    requires
        d < 16,
    ensures
        c == hex_digit(d as int),
{
    if d < 10 {
        crate::statement::char_from_ascii((d + 48) as u32)
    } else {
        crate::statement::char_from_ascii((d + 87) as u32)
    }
}

pub fn format_hex16(v: u64) -> (r: Vec<char>)
    ensures
        r@ == hex16(v),
{
    let mut out: Vec<char> = Vec::new();
    let mut i: usize = 0;
    let mut div: u64 = 0x1000_0000_0000_0000;
    assert(pow16(15) == 0x1000_0000_0000_0000) by {
        reveal_with_fuel(pow16, 16);
    }
    while i < 16
        invariant
            i <= 16,
            i < 16 ==> div as int == pow16(15 - i),
            div >= 1,
            out@.len() == i,
            forall|j: int| 0 <= j < i ==> out@[j] == hex16(v)[j],
        decreases 16 - i,
    {
        let d = (v / div) % 16;
        out.push(hex_char(d));
        proof {
            if i < 15 {
                assert(pow16(15 - i) == 16 * pow16(14 - i));
            }
        }
        if i < 15 {
            proof {
                lemma_pow16_pos(14 - i);
            }
            div = div / 16;
        }
        i = i + 1;
    }
    assert(out@ =~= hex16(v));
    out
}

/// Where the branch listings are kept between runs.
pub struct BranchCache {
    pub root: String,
}

impl BranchCache {
    pub fn new(root: String) -> (c: BranchCache)
        ensures
            c.root@ == root@,
    {
        BranchCache { root }
    }

    pub fn root(&self) -> (r: &str)
        ensures
            r@ == self.root@,
    {
        self.root.as_str()
    }

    /// The file the listing for a path is kept in:
    /// `root/branches/<FNV-1a of the path, in hex>.json`.
    pub fn cache_file_for(&self, path: &str) -> (r: String)
        ensures
            r@ == join_path(
                join_path(self.root@, "branches"@),
                hex16(fnv1a_64(vstd::utf8::encode_utf8(path@))) + ".json"@,
            ),
    {
        let key = format_hex16(fnv1a(path.as_bytes()));
        let mut name = key;
        crate::text::push_str(&mut name, ".json");
        let dir = join(self.root.as_str(), "branches");
        let file = string_of(&name);
        join(dir.as_str(), file.as_str())
    }
}

/// How long a stored branch listing is trusted, in seconds.
pub const CACHE_TTL_SECS: i64 = 3600;

impl BranchCache {
    /// A listing stored at `stored` is still used at `now` when it is at
    /// most an hour old (or from the future).
    pub fn is_fresh(stored: i64, now: i64) -> (r: bool)
        ensures
            r == (now - stored <= CACHE_TTL_SECS),
    {
        (now as i128) - (stored as i128) <= CACHE_TTL_SECS as i128
    }
}

/// The repository the shell should move to when the assistant is done.
#[derive(Debug, Clone)]
pub enum TaskResult {
    Proceed,
    ShellActionRequired(String),
}

/// Where the shell's next directory is written.
#[derive(Debug, Default)]
pub struct Repository;

impl Repository {
    pub fn new() -> (r: Repository) {
        Repository
    }
}


/// Draft and browser are never both on: the picker opens without both, and
/// no key turns both on; the cursor stays on one of the options.
pub proof fn law_pr_options_stay_exclusive(s: PrOptionsState, key: PrKey)
    requires
        !(s.options.draft && s.options.web),
        s.cursor < PR_OPTION_COUNT,
    ensures
        !(pr_key_step(s, key).0.options.draft && pr_key_step(s, key).0.options.web),
        pr_key_step(s, key).0.cursor < PR_OPTION_COUNT,
{
}

} // verus!
