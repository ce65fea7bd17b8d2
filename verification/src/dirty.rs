//! Working trees with uncommitted changes, and snoozing them for an hour:
//! the list the picker shows (snoozed ones last), how its search narrows
//! it, what the keys do, and the texts it shows. Asking git, reading the
//! snooze files' times and the clock is left to the caller, which hands
//! times over as whole seconds since the Unix epoch.

use vstd::prelude::*;

use crate::logs::{lowercase_of, to_lowercase};
use crate::matcher::{occurs, occurs_in};
use crate::text::{chars_of, decimal, decimal_chars, push_chars, push_str, str_eq, string_of};

verus! {

// ---- snooze files ------------------------------------------------------------

/// The snooze file's name for a repository: its path with each `/` as
/// `__`.
pub open spec fn snooze_key_of(path: Seq<char>) -> Seq<char>
    decreases path.len(),
{
    if path.len() == 0 {
        Seq::empty()
    } else {
        snooze_key_of(path.drop_last()) + if path.last() == '/' {
            seq!['_', '_']
        } else {
            seq![path.last()]
        }
    }
}

pub fn repo_snooze_key(path: &str) -> (r: String)
    ensures
        r@ == snooze_key_of(path@),
{
    let cs = chars_of(path);
    let mut out: Vec<char> = Vec::new();
    let mut i: usize = 0;
    assert(cs@.take(0) =~= Seq::<char>::empty());
    while i < cs.len()
        invariant
            i <= cs@.len(),
            cs@ == path@,
            out@ == snooze_key_of(cs@.take(i as int)),
        decreases cs.len() - i,
    {
        assert(cs@.take(i + 1).drop_last() =~= cs@.take(i as int));
        assert(cs@.take(i + 1).last() == cs@[i as int]);
        if cs[i] == '/' {
            out.push('_');
            out.push('_');
        } else {
            out.push(cs[i]);
        }
        assert(out@ =~= snooze_key_of(cs@.take(i + 1)));
        i = i + 1;
    }
    assert(cs@.take(i as int) =~= cs@);
    string_of(&out)
}

/// How long one snooze lasts, in seconds.
pub const SNOOZE_SECONDS: u64 = 3600;

/// When a snooze ends: an hour after the current snooze ends, when the
/// repository is snoozed already, else an hour from now.
pub fn snooze_expiry(current: Option<u64>, now: u64) -> (r: u64)
    requires
        match current {
            Some(e) => e + SNOOZE_SECONDS <= u64::MAX,
            None => now + SNOOZE_SECONDS <= u64::MAX,
        },
    ensures
        r == match current {
            Some(e) => e + SNOOZE_SECONDS,
            None => now + SNOOZE_SECONDS,
        },
{
    match current {
        Some(e) => e + SNOOZE_SECONDS,
        None => now + SNOOZE_SECONDS,
    }
}

/// What is left of a snooze: hours and minutes, minutes alone under an
/// hour, or "expired" when it has run out.
pub open spec fn remaining_text(remaining: Option<u64>) -> Seq<char> {
    match remaining {
        None => "expired"@,
        Some(secs) => {
            let hours = secs / 3600;
            let minutes = (secs % 3600) / 60;
            if hours > 0 {
                decimal(hours as nat) + "h"@ + decimal(minutes as nat) + "m"@
            } else {
                decimal(minutes as nat) + "m"@
            }
        },
    }
}

/// The seconds a snooze has left, or none when it has run out.
pub open spec fn left_of(expiry: u64, now: u64) -> Option<u64> {
    if expiry >= now {
        Some((expiry - now) as u64)
    } else {
        None
    }
}

pub fn format_snooze_remaining(remaining: Option<u64>) -> (r: String)
    ensures
        r@ == remaining_text(remaining),
{
    match remaining {
        None => {
            proof {
                reveal_strlit("expired");
            }
            string_of(&chars_of("expired"))
        },
        Some(secs) => {
            let hours = secs / 3600;
            let minutes = (secs % 3600) / 60;
            let mut out: Vec<char> = Vec::new();
            if hours > 0 {
                push_chars(&mut out, &decimal_chars(hours));
                push_str(&mut out, "h");
            }
            push_chars(&mut out, &decimal_chars(minutes));
            push_str(&mut out, "m");
            proof {
                reveal_strlit("h");
                reveal_strlit("m");
            }
            assert(out@ =~= remaining_text(remaining));
            string_of(&out)
        },
    }
}

// ---- the snoozed repositories ------------------------------------------------

/// A snoozed repository and when its snooze ends.
#[derive(Debug, Clone)]
pub struct Snooze {
    pub path: String,
    pub expiry: u64,
}

/// The snoozes as a map from path to end; a later entry for a path wins.
pub open spec fn snooze_view(s: Seq<Snooze>) -> Map<Seq<char>, u64>
    decreases s.len(),
{
    if s.len() == 0 {
        Map::empty()
    } else {
        snooze_view(s.drop_last()).insert(s.last().path@, s.last().expiry)
    }
}

/// The snoozes of other paths, in order.
pub open spec fn without_path(s: Seq<Snooze>, p: Seq<char>) -> Seq<Snooze>
    decreases s.len(),
{
    if s.len() == 0 {
        s
    } else if s.last().path@ == p {
        without_path(s.drop_last(), p)
    } else {
        without_path(s.drop_last(), p).push(s.last())
    }
}

proof fn lemma_without_path(s: Seq<Snooze>, p: Seq<char>)
    ensures
        snooze_view(without_path(s, p)) == snooze_view(s).remove(p),
    decreases s.len(),
{
    if s.len() > 0 {
        lemma_without_path(s.drop_last(), p);
        let w = without_path(s.drop_last(), p);
        if s.last().path@ == p {
            assert(snooze_view(s).remove(p) =~= snooze_view(s.drop_last()).remove(p));
        } else {
            assert(w.push(s.last()).drop_last() =~= w);
            assert(snooze_view(s).remove(p) =~= snooze_view(s.drop_last()).remove(p).insert(
                s.last().path@,
                s.last().expiry,
            ));
        }
    }
}

fn copy_text(s: &String) -> (r: String)
    ensures
        r@ == s@,
{
    string_of(&chars_of(s.as_str()))
}

/// Drops every snooze of `path`.
fn forget(snoozed: &Vec<Snooze>, path: &str) -> (r: Vec<Snooze>)
    ensures
        snooze_view(r@) == snooze_view(snoozed@).remove(path@),
{
    let ghost s = snoozed@;
    let mut out: Vec<Snooze> = Vec::new();
    let mut i: usize = 0;
    assert(s.take(0) =~= Seq::<Snooze>::empty());
    while i < snoozed.len()
        invariant
            i <= s.len(),
            s == snoozed@,
            snooze_view(out@) == snooze_view(without_path(s.take(i as int), path@)),
        decreases snoozed.len() - i,
    {
        assert(s.take(i + 1).drop_last() =~= s.take(i as int));
        assert(s.take(i + 1).last() == snoozed@[i as int]);
        if !str_eq(snoozed[i].path.as_str(), path) {
            let ghost before = out@;
            out.push(Snooze { path: copy_text(&snoozed[i].path), expiry: snoozed[i].expiry });
            assert(out@.drop_last() =~= before);
            assert(without_path(s.take(i + 1), path@) == without_path(s.take(i as int), path@).push(s[i as int]));
            assert(snooze_view(out@) == snooze_view(before).insert(s[i as int].path@, s[i as int].expiry));
            let ghost w = without_path(s.take(i as int), path@);
            assert(w.push(s[i as int]).drop_last() =~= w);
        } else {
            assert(without_path(s.take(i + 1), path@) == without_path(s.take(i as int), path@));
        }
        i = i + 1;
    }
    assert(s.take(i as int) =~= s);
    proof {
        lemma_without_path(s, path@);
    }
    out
}

/// Sets when `path`'s snooze ends.
fn remember(snoozed: &Vec<Snooze>, path: &str, expiry: u64) -> (r: Vec<Snooze>)
    ensures
        snooze_view(r@) == snooze_view(snoozed@).insert(path@, expiry),
{
    let mut out = forget(snoozed, path);
    let ghost before = out@;
    out.push(Snooze { path: string_of(&chars_of(path)), expiry });
    assert(out@.drop_last() =~= before);
    assert(snooze_view(out@) =~= snooze_view(snoozed@).remove(path@).insert(path@, expiry));
    assert(snooze_view(snoozed@).remove(path@).insert(path@, expiry) =~= snooze_view(snoozed@).insert(
        path@,
        expiry,
    ));
    out
}

/// When `path`'s snooze ends, if it is snoozed.
fn expiry_in(snoozed: &Vec<Snooze>, path: &str) -> (r: Option<u64>)
    ensures
        match r {
            Some(e) => snooze_view(snoozed@).contains_key(path@) && snooze_view(snoozed@)[path@] == e,
            None => !snooze_view(snoozed@).contains_key(path@),
        },
{
    let ghost s = snoozed@;
    let mut i: usize = snoozed.len();
    assert(s.take(s.len() as int) =~= s);
    while i > 0
        invariant
            i <= s.len(),
            s == snoozed@,
            snooze_view(s).contains_key(path@) == snooze_view(s.take(i as int)).contains_key(path@),
            snooze_view(s).contains_key(path@) ==> snooze_view(s)[path@] == snooze_view(s.take(i as int))[path@],
        decreases i,
    {
        let ghost pre = s.take(i - 1);
        assert(s.take(i as int).drop_last() =~= pre);
        assert(s.take(i as int).last() == s[i - 1]);
        if str_eq(snoozed[i - 1].path.as_str(), path) {
            assert(snooze_view(s.take(i as int)) == snooze_view(pre).insert(path@, s[i - 1].expiry));
            return Some(snoozed[i - 1].expiry);
        }
        proof {
            lemma_view_skips(s, i as int, path@);
        }
        i = i - 1;
    }
    assert(s.take(0) =~= Seq::<Snooze>::empty());
    None
}

proof fn lemma_view_skips(s: Seq<Snooze>, i: int, p: Seq<char>)
    requires
        0 < i <= s.len(),
        s[i - 1].path@ != p,
    ensures
        snooze_view(s.take(i)).contains_key(p) == snooze_view(s.take(i - 1)).contains_key(p),
        snooze_view(s.take(i)).contains_key(p) ==> snooze_view(s.take(i))[p] == snooze_view(s.take(i - 1))[p],
{
    assert(s.take(i).drop_last() =~= s.take(i - 1));
}

// ---- the picker ----------------------------------------------------------------

#[derive(Debug, Clone, Copy, PartialEq, Eq, Structural)]
pub enum DirtyMode {
    Normal,
    Search,
}

/// A key, as far as the picker cares.
#[derive(Debug, Clone, Copy, PartialEq, Eq, Structural)]
pub enum DirtyKey {
    Esc,
    Enter,
    Up,
    Down,
    Backspace,
    Char(char),
    Other,
}

/// What the caller is to do after a key.
#[derive(Debug, Clone, PartialEq, Eq)]
pub enum DirtyAction {
    /// Draw again and wait for the next key.
    Continue,
    /// Leave with nothing chosen.
    Quit,
    /// Leave with the repository under the cursor, if there is one.
    Choose(Option<String>),
    /// Snooze this repository on disk, then tell the picker when it ends.
    Snooze(String),
    /// Delete this repository's snooze file; the picker has forgotten it.
    Unsnooze(String),
}

/// The picker over dirty repositories.
pub struct DirtyApp {
    /// Unsnoozed first, then snoozed, each in the order given.
    pub all_repos: Vec<String>,
    /// Those whose path holds the search, ignoring case.
    pub filtered_repos: Vec<String>,
    pub snoozed: Vec<Snooze>,
    pub selected: usize,
    pub mode: DirtyMode,
    pub query: String,
}

pub open spec fn path_views(v: Seq<String>) -> Seq<Seq<char>> {
    v.map_values(|s: String| s@)
}

/// The repositories that are (or are not) snoozed, in order.
pub open spec fn repos_where(rs: Seq<Seq<char>>, m: Map<Seq<char>, u64>, snoozed: bool) -> Seq<Seq<char>>
    decreases rs.len(),
{
    if rs.len() == 0 {
        rs
    } else {
        let r = repos_where(rs.drop_last(), m, snoozed);
        if m.contains_key(rs.last()) == snoozed {
            r.push(rs.last())
        } else {
            r
        }
    }
}

/// The repositories whose path holds the search, ignoring case; all of
/// them for an empty search.
pub open spec fn searched(rs: Seq<Seq<char>>, query: Seq<char>) -> Seq<Seq<char>>
    decreases rs.len(),
{
    if query.len() == 0 || rs.len() == 0 {
        rs
    } else {
        let r = searched(rs.drop_last(), query);
        if occurs_in(lowercase_of(query), lowercase_of(rs.last())) {
            r.push(rs.last())
        } else {
            r
        }
    }
}

/// The snoozes of the given repositories: their ends, as read.
pub open spec fn snoozes_of(rs: Seq<Seq<char>>, ends: Seq<Option<u64>>) -> Map<Seq<char>, u64>
    decreases rs.len(),
{
    if rs.len() == 0 || ends.len() != rs.len() {
        Map::empty()
    } else {
        let m = snoozes_of(rs.drop_last(), ends.drop_last());
        match ends.last() {
            Some(e) => m.insert(rs.last(), e),
            None => m,
        }
    }
}

/// The repositories other than `p`, in order.
pub open spec fn repos_except(rs: Seq<Seq<char>>, p: Seq<char>) -> Seq<Seq<char>>
    decreases rs.len(),
{
    if rs.len() == 0 {
        rs
    } else if rs.last() == p {
        repos_except(rs.drop_last(), p)
    } else {
        repos_except(rs.drop_last(), p).push(rs.last())
    }
}

/// How many of the repositories are snoozed.
pub open spec fn count_snoozed(rs: Seq<Seq<char>>, m: Map<Seq<char>, u64>) -> nat
    decreases rs.len(),
{
    if rs.len() == 0 {
        0
    } else {
        count_snoozed(rs.drop_last(), m) + if m.contains_key(rs.last()) {
            1nat
        } else {
            0nat
        }
    }
}

/// The line under the list: the count and how many of them are snoozed,
/// or the search being typed.
pub open spec fn footer_of(app: DirtyApp) -> Seq<char> {
    match app.mode {
        DirtyMode::Search => "/"@ + app.query@,
        DirtyMode::Normal => {
            let n = app.filtered_repos@.len();
            let k = count_snoozed(path_views(app.filtered_repos@), snooze_view(app.snoozed@));
            if k > 0 {
                decimal(n) + " dirty repos ("@ + decimal(k) + " snoozed)"@
            } else {
                decimal(n) + " dirty repos"@
            }
        },
    }
}

/// A line of the list: the path, and what is left of its snooze when it
/// is snoozed.
pub open spec fn item_of(m: Map<Seq<char>, u64>, path: Seq<char>, now: u64) -> Seq<char> {
    if m.contains_key(path) {
        path + " (snoozed "@ + remaining_text(left_of(m[path], now)) + ")"@
    } else {
        path
    }
}

/// The cursor held to the list: on its last line when past the end, at 0
/// when it is empty.
pub open spec fn held(selected: usize, len: int) -> usize {
    if selected >= len {
        if len > 0 {
            (len - 1) as usize
        } else {
            0
        }
    } else {
        selected
    }
}

fn copy_paths(v: &Vec<String>) -> (r: Vec<String>)
    ensures
        path_views(r@) == path_views(v@),
{
    let mut out: Vec<String> = Vec::new();
    let mut i: usize = 0;
    while i < v.len()
        invariant
            i <= v@.len(),
            path_views(out@) =~= path_views(v@.take(i as int)),
        decreases v.len() - i,
    {
        let ghost before = out@;
        out.push(copy_text(&v[i]));
        assert(path_views(out@) =~= path_views(before).push(v@[i as int]@));
        assert(v@.take(i + 1) =~= v@.take(i as int).push(v@[i as int]));
        i = i + 1;
    }
    assert(v@.take(i as int) =~= v@);
    out
}

/// The repositories of `rs` that are (or are not) snoozed.
fn select_repos(rs: &Vec<String>, snoozed: &Vec<Snooze>, want: bool) -> (r: Vec<String>)
    ensures
        path_views(r@) == repos_where(path_views(rs@), snooze_view(snoozed@), want),
{
    let ghost all = path_views(rs@);
    let ghost m = snooze_view(snoozed@);
    let mut out: Vec<String> = Vec::new();
    let mut i: usize = 0;
    assert(all.take(0) =~= Seq::<Seq<char>>::empty());
    while i < rs.len()
        invariant
            i <= rs@.len(),
            all == path_views(rs@),
            m == snooze_view(snoozed@),
            path_views(out@) == repos_where(all.take(i as int), m, want),
        decreases rs.len() - i,
    {
        assert(all.take(i + 1).drop_last() =~= all.take(i as int));
        assert(all.take(i + 1).last() == rs@[i as int]@);
        let is = expiry_in(snoozed, rs[i].as_str()).is_some();
        if is == want {
            let ghost before = path_views(out@);
            out.push(copy_text(&rs[i]));
            assert(path_views(out@) =~= before.push(rs@[i as int]@));
        }
        i = i + 1;
    }
    assert(all.take(i as int) =~= all);
    out
}

impl DirtyApp {
    /// The list over repositories already in order, with when each one's
    /// snooze ends, if it is snoozed: unsnoozed ones first, snoozed ones
    /// last, each group in the order given.
    pub fn new(repos: Vec<String>, ends: Vec<Option<u64>>) -> (r: DirtyApp)
        requires
            ends@.len() == repos@.len(),
        ensures
            snooze_view(r.snoozed@) == snoozes_of(path_views(repos@), ends@),
            path_views(r.all_repos@) == repos_where(path_views(repos@), snoozes_of(path_views(repos@), ends@), false)
                + repos_where(path_views(repos@), snoozes_of(path_views(repos@), ends@), true),
            path_views(r.filtered_repos@) == path_views(r.all_repos@),
            r.selected == 0,
            r.mode == DirtyMode::Normal,
            r.query@.len() == 0,
    {
        let ghost rs = path_views(repos@);
        let mut snoozed: Vec<Snooze> = Vec::new();
        let mut i: usize = 0;
        assert(rs.take(0) =~= Seq::<Seq<char>>::empty());
        while i < repos.len()
            invariant
                i <= repos@.len(),
                ends@.len() == repos@.len(),
                rs == path_views(repos@),
                snooze_view(snoozed@) == snoozes_of(rs.take(i as int), ends@.take(i as int)),
            decreases repos.len() - i,
        {
            assert(rs.take(i + 1).drop_last() =~= rs.take(i as int));
            assert(ends@.take(i + 1).drop_last() =~= ends@.take(i as int));
            assert(rs.take(i + 1).last() == repos@[i as int]@);
            match ends[i] {
                Some(e) => {
                    snoozed = remember(&snoozed, repos[i].as_str(), e);
                },
                None => {},
            }
            i = i + 1;
        }
        assert(rs.take(i as int) =~= rs);
        assert(ends@.take(i as int) =~= ends@);
        let mut ordered = select_repos(&repos, &snoozed, false);
        let later = select_repos(&repos, &snoozed, true);
        let ghost a = path_views(ordered@);
        let mut k: usize = 0;
        while k < later.len()
            invariant
                k <= later@.len(),
                path_views(ordered@) =~= a + path_views(later@.take(k as int)),
            decreases later.len() - k,
        {
            let ghost before = path_views(ordered@);
            ordered.push(copy_text(&later[k]));
            assert(path_views(ordered@) =~= before.push(later@[k as int]@));
            assert(later@.take(k + 1) =~= later@.take(k as int).push(later@[k as int]));
            k = k + 1;
        }
        assert(later@.take(k as int) =~= later@);
        let filtered = copy_paths(&ordered);
        DirtyApp {
            all_repos: ordered,
            filtered_repos: filtered,
            snoozed,
            selected: 0,
            mode: DirtyMode::Normal,
            query: String::new(),
        }
    }

    /// The list narrowed to the search again, the cursor held to it.
    pub fn update_filter(&mut self)
        ensures
            path_views(final(self).filtered_repos@) == searched(path_views(old(self).all_repos@), old(self).query@),
            final(self).selected == held(old(self).selected, final(self).filtered_repos@.len() as int),
            final(self).all_repos@ == old(self).all_repos@,
            final(self).snoozed@ == old(self).snoozed@,
            final(self).mode == old(self).mode,
            final(self).query@ == old(self).query@,
    {
        let ghost all = path_views(self.all_repos@);
        let ghost q = self.query@;
        if chars_of(self.query.as_str()).len() == 0 {
            self.filtered_repos = copy_paths(&self.all_repos);
            proof {
                if all.len() > 0 {
                    assert(searched(all, q) == all);
                }
            }
        } else {
            let lq = chars_of(to_lowercase(self.query.as_str()).as_str());
            let mut out: Vec<String> = Vec::new();
            let mut i: usize = 0;
            assert(all.take(0) =~= Seq::<Seq<char>>::empty());
            while i < self.all_repos.len()
                invariant
                    i <= self.all_repos@.len(),
                    all == path_views(self.all_repos@),
                    q == self.query@,
                    q.len() > 0,
                    lq@ == lowercase_of(q),
                    path_views(out@) == searched(all.take(i as int), q),
                decreases self.all_repos.len() - i,
            {
                assert(all.take(i + 1).drop_last() =~= all.take(i as int));
                assert(all.take(i + 1).last() == self.all_repos@[i as int]@);
                let lp = chars_of(to_lowercase(self.all_repos[i].as_str()).as_str());
                if occurs(&lq, &lp) {
                    let ghost before = path_views(out@);
                    out.push(copy_text(&self.all_repos[i]));
                    assert(path_views(out@) =~= before.push(self.all_repos@[i as int]@));
                }
                i = i + 1;
            }
            assert(all.take(i as int) =~= all);
            self.filtered_repos = out;
        }
        if self.selected >= self.filtered_repos.len() {
            self.selected = if self.filtered_repos.len() > 0 {
                self.filtered_repos.len() - 1
            } else {
                0
            };
        }
    }

    pub fn move_up(&mut self)
        ensures
            final(self).selected == if old(self).selected > 0 {
                (old(self).selected - 1) as usize
            } else {
                0
            },
            final(self).all_repos == old(self).all_repos,
            final(self).filtered_repos == old(self).filtered_repos,
            final(self).snoozed == old(self).snoozed,
            final(self).mode == old(self).mode,
            final(self).query == old(self).query,
    {
        if self.selected > 0 {
            self.selected = self.selected - 1;
        }
    }

    pub fn move_down(&mut self)
        ensures
            final(self).selected == if old(self).selected + 1 < old(self).filtered_repos@.len() {
                (old(self).selected + 1) as usize
            } else {
                old(self).selected
            },
            final(self).all_repos == old(self).all_repos,
            final(self).filtered_repos == old(self).filtered_repos,
            final(self).snoozed == old(self).snoozed,
            final(self).mode == old(self).mode,
            final(self).query == old(self).query,
    {
        if self.filtered_repos.len() > 0 && self.selected < self.filtered_repos.len() - 1 {
            self.selected = self.selected + 1;
        }
    }

    /// The repository under the cursor.
    pub fn selected_repo(&self) -> (r: Option<&String>)
        ensures
            r == if self.selected < self.filtered_repos@.len() {
                Some(&self.filtered_repos@[self.selected as int])
            } else {
                None::<&String>
            },
    {
        if self.selected < self.filtered_repos.len() {
            Some(&self.filtered_repos[self.selected])
        } else {
            None
        }
    }

    /// When a repository's snooze ends, if it is snoozed.
    pub fn snooze_end(&self, path: &str) -> (r: Option<u64>)
        ensures
            match r {
                Some(e) => snooze_view(self.snoozed@).contains_key(path@) && snooze_view(self.snoozed@)[path@] == e,
                None => !snooze_view(self.snoozed@).contains_key(path@),
            },
    {
        expiry_in(&self.snoozed, path)
    }

    /// Notes that a repository is snoozed until `expiry`.
    pub fn record_snooze(&mut self, path: &str, expiry: u64)
        ensures
            snooze_view(final(self).snoozed@) == snooze_view(old(self).snoozed@).insert(path@, expiry),
            final(self).all_repos == old(self).all_repos,
            final(self).filtered_repos == old(self).filtered_repos,
            final(self).selected == old(self).selected,
            final(self).mode == old(self).mode,
            final(self).query == old(self).query,
    {
        self.snoozed = remember(&self.snoozed, path, expiry);
    }

    /// Takes a repository out of the list, as a snooze did before snoozed
    /// repositories were shown.
    pub fn remove_repo(&mut self, path: &str)
        ensures
            path_views(final(self).all_repos@) == repos_except(path_views(old(self).all_repos@), path@),
            path_views(final(self).filtered_repos@) == searched(path_views(final(self).all_repos@), old(self).query@),
            final(self).selected == held(old(self).selected, final(self).filtered_repos@.len() as int),
            final(self).snoozed@ == old(self).snoozed@,
            final(self).mode == old(self).mode,
            final(self).query@ == old(self).query@,
    {
        let ghost all = path_views(self.all_repos@);
        let mut out: Vec<String> = Vec::new();
        let mut i: usize = 0;
        assert(all.take(0) =~= Seq::<Seq<char>>::empty());
        while i < self.all_repos.len()
            invariant
                i <= self.all_repos@.len(),
                all == path_views(self.all_repos@),
                path_views(out@) == repos_except(all.take(i as int), path@),
            decreases self.all_repos.len() - i,
        {
            assert(all.take(i + 1).drop_last() =~= all.take(i as int));
            assert(all.take(i + 1).last() == self.all_repos@[i as int]@);
            if !str_eq(self.all_repos[i].as_str(), path) {
                let ghost before = path_views(out@);
                out.push(copy_text(&self.all_repos[i]));
                assert(path_views(out@) =~= before.push(self.all_repos@[i as int]@));
            }
            i = i + 1;
        }
        assert(all.take(i as int) =~= all);
        self.all_repos = out;
        self.update_filter();
    }

    /// What a key does. Moving and searching happen here; leaving,
    /// choosing and the snooze files are for the caller, told by the
    /// action. Unsnoozing forgets the snooze here as well.
    pub fn handle_key(&mut self, key: DirtyKey) -> (r: DirtyAction)
        ensures
            match (old(self).mode, key) {
                (DirtyMode::Normal, DirtyKey::Esc) | (DirtyMode::Normal, DirtyKey::Char('q')) => r
                    == DirtyAction::Quit && *final(self) == *old(self),
                (DirtyMode::Normal, DirtyKey::Enter) => *final(self) == *old(self) && r == DirtyAction::Choose(
                    if old(self).selected < old(self).filtered_repos@.len() {
                        Some(old(self).filtered_repos@[old(self).selected as int])
                    } else {
                        None
                    },
                ),
                (DirtyMode::Normal, DirtyKey::Up) | (DirtyMode::Normal, DirtyKey::Char('k')) | (
                    DirtyMode::Search,
                    DirtyKey::Up,
                ) => r == DirtyAction::Continue && *final(self) == DirtyApp {
                    selected: if old(self).selected > 0 {
                        (old(self).selected - 1) as usize
                    } else {
                        0
                    },
                    ..*old(self)
                },
                (DirtyMode::Normal, DirtyKey::Down) | (DirtyMode::Normal, DirtyKey::Char('j')) | (
                    DirtyMode::Search,
                    DirtyKey::Down,
                ) => r == DirtyAction::Continue && *final(self) == DirtyApp {
                    selected: if old(self).selected + 1 < old(self).filtered_repos@.len() {
                        (old(self).selected + 1) as usize
                    } else {
                        old(self).selected
                    },
                    ..*old(self)
                },
                (DirtyMode::Normal, DirtyKey::Char('/')) => r == DirtyAction::Continue && *final(self)
                    == DirtyApp { mode: DirtyMode::Search, ..*old(self) },
                (DirtyMode::Normal, DirtyKey::Char('s')) => *final(self) == *old(self) && r == if old(
                    self,
                ).selected < old(self).filtered_repos@.len() {
                    DirtyAction::Snooze(old(self).filtered_repos@[old(self).selected as int])
                } else {
                    DirtyAction::Continue
                },
                (DirtyMode::Normal, DirtyKey::Char('u')) => if old(self).selected < old(
                    self,
                ).filtered_repos@.len() {
                    &&& r == DirtyAction::Unsnooze(old(self).filtered_repos@[old(self).selected as int])
                    &&& snooze_view(final(self).snoozed@) == snooze_view(old(self).snoozed@).remove(
                        old(self).filtered_repos@[old(self).selected as int]@,
                    )
                    &&& final(self).all_repos == old(self).all_repos
                    &&& final(self).filtered_repos == old(self).filtered_repos
                    &&& final(self).selected == old(self).selected
                    &&& final(self).mode == old(self).mode
                    &&& final(self).query == old(self).query
                } else {
                    r == DirtyAction::Continue && *final(self) == *old(self)
                },
                (DirtyMode::Normal, _) => r == DirtyAction::Continue && *final(self) == *old(self),
                (DirtyMode::Search, DirtyKey::Esc) => r == DirtyAction::Continue && *final(self) == DirtyApp {
                    mode: DirtyMode::Normal,
                    ..*old(self)
                },
                (DirtyMode::Search, DirtyKey::Enter) => *final(self) == DirtyApp {
                    mode: DirtyMode::Normal,
                    ..*old(self)
                } && r == DirtyAction::Choose(
                    if old(self).selected < old(self).filtered_repos@.len() {
                        Some(old(self).filtered_repos@[old(self).selected as int])
                    } else {
                        None
                    },
                ),
                (DirtyMode::Search, DirtyKey::Backspace) | (DirtyMode::Search, DirtyKey::Char(_)) => {
                    &&& r == DirtyAction::Continue
                    &&& final(self).query@ == match key {
                        DirtyKey::Char(c) => old(self).query@.push(c),
                        _ => if old(self).query@.len() > 0 {
                            old(self).query@.drop_last()
                        } else {
                            old(self).query@
                        },
                    }
                    &&& path_views(final(self).filtered_repos@) == searched(
                        path_views(old(self).all_repos@),
                        final(self).query@,
                    )
                    &&& final(self).selected == held(old(self).selected, final(self).filtered_repos@.len() as int)
                    &&& final(self).all_repos@ == old(self).all_repos@
                    &&& final(self).snoozed@ == old(self).snoozed@
                    &&& final(self).mode == old(self).mode
                },
                (DirtyMode::Search, _) => r == DirtyAction::Continue && *final(self) == *old(self),
            },
    {
        match self.mode {
            DirtyMode::Normal => match key {
                DirtyKey::Esc => DirtyAction::Quit,
                DirtyKey::Enter => DirtyAction::Choose(
                    match self.selected_repo() {
                        Some(p) => Some(p.clone()),
                        None => None,
                    },
                ),
                DirtyKey::Up => {
                    self.move_up();
                    DirtyAction::Continue
                },
                DirtyKey::Down => {
                    self.move_down();
                    DirtyAction::Continue
                },
                DirtyKey::Char(c) => {
                    if c == 'q' {
                        DirtyAction::Quit
                    } else if c == 'k' {
                        self.move_up();
                        DirtyAction::Continue
                    } else if c == 'j' {
                        self.move_down();
                        DirtyAction::Continue
                    } else if c == '/' {
                        self.mode = DirtyMode::Search;
                        DirtyAction::Continue
                    } else if c == 's' {
                        match self.selected_repo() {
                            Some(p) => DirtyAction::Snooze(p.clone()),
                            None => DirtyAction::Continue,
                        }
                    } else if c == 'u' {
                        if self.selected < self.filtered_repos.len() {
                            let p = copy_text(&self.filtered_repos[self.selected]);
                            self.snoozed = forget(&self.snoozed, p.as_str());
                            DirtyAction::Unsnooze(self.filtered_repos[self.selected].clone())
                        } else {
                            DirtyAction::Continue
                        }
                    } else {
                        DirtyAction::Continue
                    }
                },
                _ => DirtyAction::Continue,
            },
            DirtyMode::Search => match key {
                DirtyKey::Esc => {
                    self.mode = DirtyMode::Normal;
                    DirtyAction::Continue
                },
                DirtyKey::Enter => {
                    self.mode = DirtyMode::Normal;
                    DirtyAction::Choose(
                        match self.selected_repo() {
                            Some(p) => Some(p.clone()),
                            None => None,
                        },
                    )
                },
                DirtyKey::Backspace => {
                    let mut cs = chars_of(self.query.as_str());
                    if cs.len() > 0 {
                        cs.pop();
                    }
                    self.query = string_of(&cs);
                    self.update_filter();
                    DirtyAction::Continue
                },
                DirtyKey::Up => {
                    self.move_up();
                    DirtyAction::Continue
                },
                DirtyKey::Down => {
                    self.move_down();
                    DirtyAction::Continue
                },
                DirtyKey::Char(c) => {
                    let mut cs = chars_of(self.query.as_str());
                    cs.push(c);
                    self.query = string_of(&cs);
                    self.update_filter();
                    DirtyAction::Continue
                },
                _ => DirtyAction::Continue,
            },
        }
    }
}


impl DirtyApp {
    /// The line under the list.
    pub fn footer_text(&self) -> (r: String)
        ensures
            r@ == footer_of(*self),
    {
        match self.mode {
            DirtyMode::Search => {
                let mut out = chars_of("/");
                push_str(&mut out, self.query.as_str());
                proof {
                    reveal_strlit("/");
                }
                string_of(&out)
            },
            DirtyMode::Normal => {
                let ghost m = snooze_view(self.snoozed@);
                let ghost ps = path_views(self.filtered_repos@);
                let n = self.filtered_repos.len();
                let mut k: usize = 0;
                let mut i: usize = 0;
                assert(ps.take(0) =~= Seq::<Seq<char>>::empty());
                while i < n
                    invariant
                        i <= n,
                        n == self.filtered_repos@.len(),
                        ps == path_views(self.filtered_repos@),
                        m == snooze_view(self.snoozed@),
                        k == count_snoozed(ps.take(i as int), m),
                        k <= i,
                    decreases n - i,
                {
                    assert(ps.take(i + 1).drop_last() =~= ps.take(i as int));
                    assert(ps.take(i + 1).last() == self.filtered_repos@[i as int]@);
                    if expiry_in(&self.snoozed, self.filtered_repos[i].as_str()).is_some() {
                        k = k + 1;
                    }
                    i = i + 1;
                }
                assert(ps.take(i as int) =~= ps);
                let mut out = decimal_chars(n as u64);
                if k > 0 {
                    push_str(&mut out, " dirty repos (");
                    push_chars(&mut out, &decimal_chars(k as u64));
                    push_str(&mut out, " snoozed)");
                } else {
                    push_str(&mut out, " dirty repos");
                }
                string_of(&out)
            },
        }
    }

    /// A line of the list for `path`, at `now`.
    pub fn item_text(&self, path: &str, now: u64) -> (r: String)
        ensures
            r@ == item_of(snooze_view(self.snoozed@), path@, now),
    {
        match expiry_in(&self.snoozed, path) {
            None => string_of(&chars_of(path)),
            Some(e) => {
                let left = if e >= now {
                    Some(e - now)
                } else {
                    None
                };
                let mut out = chars_of(path);
                push_str(&mut out, " (snoozed ");
                push_chars(&mut out, &chars_of(format_snooze_remaining(left).as_str()));
                push_str(&mut out, ")");
                string_of(&out)
            },
        }
    }
}


/// Putting snoozed repositories last loses none and adds none: the two
/// groups together hold each repository as often as the list did, the
/// snoozed ones exactly in the second group.
pub proof fn law_snoozed_last_keeps_every_repo(rs: Seq<Seq<char>>, m: Map<Seq<char>, u64>)
    ensures
        repos_where(rs, m, false).len() + repos_where(rs, m, true).len() == rs.len(),
        forall|x: Seq<char>|
            #![trigger rs.contains(x)]
            rs.contains(x) <==> (repos_where(rs, m, false).contains(x) || repos_where(rs, m, true).contains(x)),
        forall|x: Seq<char>| #[trigger] repos_where(rs, m, true).contains(x) ==> m.contains_key(x),
        forall|x: Seq<char>| #[trigger] repos_where(rs, m, false).contains(x) ==> !m.contains_key(x),
    decreases rs.len(),
{
    if rs.len() > 0 {
        let d = rs.drop_last();
        law_snoozed_last_keeps_every_repo(d, m);
        let l = rs.last();
        let f0 = repos_where(d, m, false);
        let t0 = repos_where(d, m, true);
        let f = repos_where(rs, m, false);
        let t = repos_where(rs, m, true);
        assert forall|x: Seq<char>| #[trigger] f.contains(x) <==> (f0.contains(x) || (x == l && !m.contains_key(l))) by {
            if f.contains(x) {
                let i = choose|i: int| 0 <= i < f.len() && f[i] == x;
                if i < f0.len() {
                    assert(f0[i] == x);
                }
            }
            if f0.contains(x) {
                let i = choose|i: int| 0 <= i < f0.len() && f0[i] == x;
                assert(f[i] == x);
            }
            if x == l && !m.contains_key(l) {
                assert(f[f.len() - 1] == x);
            }
        }
        assert forall|x: Seq<char>| #[trigger] t.contains(x) <==> (t0.contains(x) || (x == l && m.contains_key(l))) by {
            if t.contains(x) {
                let i = choose|i: int| 0 <= i < t.len() && t[i] == x;
                if i < t0.len() {
                    assert(t0[i] == x);
                }
            }
            if t0.contains(x) {
                let i = choose|i: int| 0 <= i < t0.len() && t0[i] == x;
                assert(t[i] == x);
            }
            if x == l && m.contains_key(l) {
                assert(t[t.len() - 1] == x);
            }
        }
        assert forall|x: Seq<char>| #![trigger rs.contains(x)] rs.contains(x) <==> (d.contains(x) || x == l) by {
            if rs.contains(x) {
                let i = choose|i: int| 0 <= i < rs.len() && rs[i] == x;
                if i < d.len() {
                    assert(d[i] == x);
                }
            }
            if d.contains(x) {
                let i = choose|i: int| 0 <= i < d.len() && d[i] == x;
                assert(rs[i] == x);
            }
            if x == l {
                assert(rs[rs.len() - 1] == x);
            }
        }
        assert forall|x: Seq<char>| #![trigger rs.contains(x)] rs.contains(x) <==> (f.contains(x) || t.contains(x)) by {
            assert(rs.contains(x) <==> (d.contains(x) || x == l));
            if d.contains(x) {
                assert(d.contains(x) <==> (f0.contains(x) || t0.contains(x)));
            }
            if f0.contains(x) || t0.contains(x) {
                assert(d.contains(x) <==> (f0.contains(x) || t0.contains(x)));
            }
        }
    }
}

} // verus!
