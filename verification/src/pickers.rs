//! The branch listing across repositories and the two terminal pickers of
//! the branch assistant, as state machines: a key or event in, the next
//! state and what to do out. Drawing and reading keys is left outside.

use vstd::prelude::*;

use crate::comments::{compare_text, text_lt};
use crate::git::{
    commit_info_for, info_for, info_views, Branch, BranchCommitInfo, BranchView, InfoView,
    KeyResult, TaskResult, UpstreamStatus,
};
use crate::output::{repeated, spaces};
use crate::text::{chars_of, push_chars, push_str, str_eq, string_of};

verus! {

/// How a branch stands against its upstream, as the listing shows it.
#[derive(Debug, Clone, Copy, PartialEq, Eq, Structural)]
pub enum BranchStatus {
    Identical,
    UpstreamAhead,
    LocalAhead,
    Diverged,
    UpstreamGone,
    NoUpstream,
}

pub open spec fn status_label(s: BranchStatus) -> Seq<char> {
    match s {
        BranchStatus::Identical => "ok"@,
        BranchStatus::UpstreamAhead => "behind"@,
        BranchStatus::LocalAhead => "ahead"@,
        BranchStatus::Diverged => "diverged"@,
        BranchStatus::UpstreamGone => "gone"@,
        BranchStatus::NoUpstream => "no upstream"@,
    }
}

impl BranchStatus {
    /// The word the listing shows.
    pub fn label(&self) -> (r: &'static str)
        ensures
            r@ == status_label(*self),
    {
        match self {
            BranchStatus::Identical => "ok",
            BranchStatus::UpstreamAhead => "behind",
            BranchStatus::LocalAhead => "ahead",
            BranchStatus::Diverged => "diverged",
            BranchStatus::UpstreamGone => "gone",
            BranchStatus::NoUpstream => "no upstream",
        }
    }
}

pub open spec fn status_of(b: BranchView) -> BranchStatus {
    match b.upstream {
        None => BranchStatus::NoUpstream,
        Some((_, s)) => match s {
            UpstreamStatus::Identical => BranchStatus::Identical,
            UpstreamStatus::UpstreamIsAheadOfLocal => BranchStatus::UpstreamAhead,
            UpstreamStatus::LocalIsAheadOfUpstream => BranchStatus::LocalAhead,
            UpstreamStatus::MergeNeeded => BranchStatus::Diverged,
            UpstreamStatus::UpstreamIsGone => BranchStatus::UpstreamGone,
        },
    }
}

/// A branch's status from its upstream.
pub fn branch_status(branch: &Branch) -> (r: BranchStatus)
    ensures
        r == status_of(branch@),
{
    match &branch.upstream {
        None => BranchStatus::NoUpstream,
        Some(u) => match u.status {
            UpstreamStatus::Identical => BranchStatus::Identical,
            UpstreamStatus::UpstreamIsAheadOfLocal => BranchStatus::UpstreamAhead,
            UpstreamStatus::LocalIsAheadOfUpstream => BranchStatus::LocalAhead,
            UpstreamStatus::MergeNeeded => BranchStatus::Diverged,
            UpstreamStatus::UpstreamIsGone => BranchStatus::UpstreamGone,
        },
    }
}

/// One branch of one repository, as listed.
#[derive(Debug, Clone)]
pub struct BranchListEntry {
    pub repo_name: String,
    pub repo_path: String,
    pub refname: String,
    pub status: BranchStatus,
    pub commit_timestamp: i64,
    pub commit_date: String,
    pub committer: String,
    pub worktree_path: Option<String>,
}

pub struct EntryView {
    pub repo_name: Seq<char>,
    pub repo_path: Seq<char>,
    pub refname: Seq<char>,
    pub status: BranchStatus,
    pub commit_timestamp: i64,
    pub commit_date: Seq<char>,
    pub committer: Seq<char>,
    pub worktree_path: Option<Seq<char>>,
}

impl View for BranchListEntry {
    type V = EntryView;

    open spec fn view(&self) -> EntryView {
        EntryView {
            repo_name: self.repo_name@,
            repo_path: self.repo_path@,
            refname: self.refname@,
            status: self.status,
            commit_timestamp: self.commit_timestamp,
            commit_date: self.commit_date@,
            committer: self.committer@,
            worktree_path: match self.worktree_path {
                Some(p) => Some(p@),
                None => None,
            },
        }
    }
}

pub open spec fn entry_views(v: Seq<BranchListEntry>) -> Seq<EntryView> {
    v.map_values(|e: BranchListEntry| e@)
}

/// The entries of one repository: each branch that has commit
/// information, in the order the branches came.
pub open spec fn repo_entries_of(
    name: Seq<char>,
    path: Seq<char>,
    branches: Seq<BranchView>,
    infos: Seq<(Seq<char>, InfoView)>,
) -> Seq<EntryView>
    decreases branches.len(),
{
    if branches.len() == 0 {
        Seq::empty()
    } else {
        let rest = repo_entries_of(name, path, branches.drop_last(), infos);
        let b = branches.last();
        match info_for(infos, b.refname) {
            None => rest,
            Some(i) => rest.push(
                EntryView {
                    repo_name: name,
                    repo_path: path,
                    refname: b.refname,
                    status: status_of(b),
                    commit_timestamp: i.commit_timestamp,
                    commit_date: i.commit_date,
                    committer: i.committer,
                    worktree_path: b.worktree_path,
                },
            ),
        }
    }
}

pub open spec fn branch_views(v: Seq<Branch>) -> Seq<BranchView> {
    v.map_values(|b: Branch| b@)
}

fn copy(s: &String) -> (r: String)
    ensures
        r@ == s@,
{
    string_of(&chars_of(s.as_str()))
}

/// The listing entries of one repository, from its branches and the
/// commit information of each.
pub fn repo_entries(
    repo_name: &str,
    repo_path: &str,
    branches: &Vec<Branch>,
    infos: &Vec<(String, BranchCommitInfo)>,
) -> (r: Vec<BranchListEntry>)
    ensures
        entry_views(r@) == repo_entries_of(
            repo_name@,
            repo_path@,
            branch_views(branches@),
            info_views(infos@),
        ),
{
    let ghost bs = branch_views(branches@);
    let mut out: Vec<BranchListEntry> = Vec::new();
    let mut i: usize = 0;
    while i < branches.len()
        invariant
            i <= branches@.len(),
            bs == branch_views(branches@),
            entry_views(out@) == repo_entries_of(
                repo_name@,
                repo_path@,
                bs.take(i as int),
                info_views(infos@),
            ),
        decreases branches.len() - i,
    {
        assert(bs.take(i + 1).drop_last() =~= bs.take(i as int));
        assert(bs.take(i + 1).last() == branches@[i as int]@);
        let b = &branches[i];
        match commit_info_for(infos, b.refname.as_str()) {
            None => {},
            Some(info) => {
                let e = BranchListEntry {
                    repo_name: string_of(&chars_of(repo_name)),
                    repo_path: string_of(&chars_of(repo_path)),
                    refname: copy(&b.refname),
                    status: branch_status(b),
                    commit_timestamp: info.commit_timestamp,
                    commit_date: copy(&info.commit_date),
                    committer: copy(&info.committer),
                    worktree_path: match &b.worktree_path {
                        Some(p) => Some(copy(p)),
                        None => None,
                    },
                };
                let ghost before = out@;
                out.push(e);
                assert(entry_views(out@) =~= entry_views(before).push(e@));
            },
        }
        i = i + 1;
    }
    assert(bs.take(i as int) =~= bs);
    out
}

/// The listing order: oldest commit first, then by repository and branch.
pub open spec fn entry_lt(a: EntryView, b: EntryView) -> bool {
    ||| a.commit_timestamp < b.commit_timestamp
    ||| a.commit_timestamp == b.commit_timestamp && text_lt(a.repo_name, b.repo_name)
    ||| a.commit_timestamp == b.commit_timestamp && a.repo_name == b.repo_name && text_lt(
        a.refname,
        b.refname,
    )
}

/// Where an entry goes among sorted ones: after every one that does not
/// sort after it.
pub open spec fn entry_place(s: Seq<EntryView>, e: EntryView) -> int
    decreases s.len(),
{
    if s.len() == 0 {
        0
    } else if entry_lt(e, s[0]) {
        0
    } else {
        1 + entry_place(s.drop_first(), e)
    }
}

/// The entries in listing order, equals keeping their order.
pub open spec fn sorted_entries(s: Seq<EntryView>) -> Seq<EntryView>
    decreases s.len(),
{
    if s.len() == 0 {
        s
    } else {
        let sorted = sorted_entries(s.drop_last());
        let k = entry_place(sorted, s.last());
        sorted.take(k).push(s.last()) + sorted.skip(k)
    }
}

fn entry_before(a: &BranchListEntry, b: &BranchListEntry) -> (r: bool)
    ensures
        r == entry_lt(a@, b@),
{
    a.commit_timestamp < b.commit_timestamp || (a.commit_timestamp == b.commit_timestamp
        && compare_text(a.repo_name.as_str(), b.repo_name.as_str())) || (a.commit_timestamp
        == b.commit_timestamp && str_eq(a.repo_name.as_str(), b.repo_name.as_str())
        && compare_text(a.refname.as_str(), b.refname.as_str()))
}

proof fn lemma_entry_place(s: Seq<EntryView>, e: EntryView, i: int)
    requires
        0 <= i <= s.len(),
        i < s.len() ==> entry_lt(e, s[i]),
        forall|j: int| 0 <= j < i ==> !entry_lt(e, #[trigger] s[j]),
    ensures
        entry_place(s, e) == i,
    decreases s.len(),
{
    if s.len() > 0 && i > 0 {
        assert forall|j: int| 0 <= j < i - 1 implies !entry_lt(e, #[trigger] s.drop_first()[j]) by {
            assert(s.drop_first()[j] == s[j + 1]);
        }
        lemma_entry_place(s.drop_first(), e, i - 1);
    }
}

/// Sorts the listing: oldest commit first, then repository and branch,
/// equals in the order they came.
pub fn sort_entries(v: Vec<BranchListEntry>) -> (r: Vec<BranchListEntry>)
    ensures
        entry_views(r@) == sorted_entries(entry_views(v@)),
{
    let ghost all = entry_views(v@);
    let mut rest = v;
    let mut sorted: Vec<BranchListEntry> = Vec::new();
    let n = rest.len();
    let mut i: usize = 0;
    assert(all.take(0) =~= Seq::<EntryView>::empty());
    assert(entry_views(sorted@) =~= Seq::<EntryView>::empty());
    while i < n
        invariant
            i <= n,
            n == all.len(),
            entry_views(rest@) == all.skip(i as int),
            entry_views(sorted@) == sorted_entries(all.take(i as int)),
        decreases n - i,
    {
        let ghost s = entry_views(sorted@);
        assert(all.take(i + 1).drop_last() =~= all.take(i as int));
        assert(all.skip(i as int)[0] == all[i as int]);
        assert(entry_views(rest@).len() == rest@.len());
        assert(entry_views(rest@)[0] == rest@[0]@);
        let ghost old_rest = rest@;
        let e = rest.remove(0);
        assert(e@ == all[i as int]);
        assert(entry_views(rest@) =~= entry_views(old_rest).drop_first());
        assert(entry_views(rest@) =~= all.skip(i + 1));
        assert(all.take(i + 1).last() == e@);
        let mut k: usize = 0;
        while k < sorted.len() && !entry_before(&e, &sorted[k])
            invariant
                k <= sorted@.len(),
                s == entry_views(sorted@),
                forall|j: int| 0 <= j < k ==> !entry_lt(e@, #[trigger] s[j]),
            decreases sorted.len() - k,
        {
            assert(s[k as int] == sorted@[k as int]@);
            k = k + 1;
        }
        proof {
            if k < sorted@.len() {
                assert(s[k as int] == sorted@[k as int]@);
            }
            lemma_entry_place(s, e@, k as int);
        }
        let ghost old_sorted = sorted@;
        let ghost ev = e@;
        sorted.insert(k, e);
        assert(entry_views(sorted@) =~= s.take(k as int).push(ev) + s.skip(k as int)) by {
            assert forall|j: int| 0 <= j < sorted@.len() implies entry_views(sorted@)[j] == (
            s.take(k as int).push(ev) + s.skip(k as int))[j] by {
                if j < k {
                    assert(sorted@[j] == old_sorted[j]);
                } else if j > k {
                    assert(sorted@[j] == old_sorted[j - 1]);
                }
            }
        }
        i = i + 1;
    }
    assert(all.take(i as int) =~= all);
    sorted
}


/// `s` padded with spaces on the right to at least `width` characters.
pub open spec fn padded_right(s: Seq<char>, width: nat) -> Seq<char> {
    if s.len() < width {
        s + repeated(' ', (width - s.len()) as nat)
    } else {
        s
    }
}

/// The largest of some lengths, or 0.
pub open spec fn widest(s: Seq<nat>) -> nat
    decreases s.len(),
{
    if s.len() == 0 {
        0
    } else {
        let w = widest(s.drop_last());
        if s.last() > w {
            s.last()
        } else {
            w
        }
    }
}

pub open spec fn location_of(e: EntryView) -> Seq<char> {
    e.repo_name + seq!['/'] + e.refname
}

/// One line of the listing, with the columns as wide as given.
pub open spec fn entry_line(e: EntryView, sw: nat, cw: nat, lw: nat) -> Seq<char> {
    e.commit_date + "  "@ + padded_right(status_label(e.status), sw) + "  "@ + padded_right(
        e.committer,
        cw,
    ) + "  "@ + padded_right(location_of(e), lw)
}

/// The listing: a line per entry, each column as wide as its widest cell.
pub open spec fn entry_lines(es: Seq<EntryView>) -> Seq<Seq<char>> {
    let sw = widest(es.map_values(|e: EntryView| status_label(e.status).len()));
    let cw = widest(es.map_values(|e: EntryView| e.committer.len()));
    let lw = widest(es.map_values(|e: EntryView| location_of(e).len()));
    es.map_values(|e: EntryView| entry_line(e, sw, cw, lw))
}

fn push_padded(out: &mut Vec<char>, s: &[char], width: usize)
    ensures
        final(out)@ == old(out)@ + padded_right(s@, width as nat),
{
    push_chars(out, s);
    if s.len() < width {
        let pad = spaces(' ', width - s.len());
        push_chars(out, &pad);
    }
}

/// The listing's lines: date, status, committer and where the branch is,
/// each column padded to its widest cell.
pub fn format_entry_lines(entries: &Vec<BranchListEntry>) -> (r: Vec<String>)
    requires
        forall|i: int|
            0 <= i < entries@.len() ==> location_of(#[trigger] entries@[i]@).len() <= usize::MAX,
    ensures
        crate::statement::string_views(r@) == entry_lines(entry_views(entries@)),
{
    let ghost es = entry_views(entries@);
    let ghost ss = es.map_values(|e: EntryView| status_label(e.status).len());
    let ghost cs = es.map_values(|e: EntryView| e.committer.len());
    let ghost ls = es.map_values(|e: EntryView| location_of(e).len());
    let mut sw: usize = 0;
    let mut cw: usize = 0;
    let mut lw: usize = 0;
    let mut i: usize = 0;
    while i < entries.len()
        invariant
            i <= entries@.len(),
            es == entry_views(entries@),
            ss == es.map_values(|e: EntryView| status_label(e.status).len()),
            cs == es.map_values(|e: EntryView| e.committer.len()),
            ls == es.map_values(|e: EntryView| location_of(e).len()),
            sw == widest(ss.take(i as int)),
            cw == widest(cs.take(i as int)),
            lw == widest(ls.take(i as int)),
            forall|k: int|
                0 <= k < entries@.len() ==> location_of(#[trigger] entries@[k]@).len() <= usize::MAX,
        decreases entries.len() - i,
    {
        assert(ss.take(i + 1).drop_last() =~= ss.take(i as int));
        assert(cs.take(i + 1).drop_last() =~= cs.take(i as int));
        assert(ls.take(i + 1).drop_last() =~= ls.take(i as int));
        let e = &entries[i];
        assert(es[i as int] == e@);
        let s = chars_of(e.status.label()).len();
        assert(ss.take(i + 1).last() == ss[i as int]);
        assert(cs.take(i + 1).last() == cs[i as int]);
        assert(ls.take(i + 1).last() == ls[i as int]);
        let c = chars_of(e.committer.as_str()).len();
        let name = chars_of(e.repo_name.as_str()).len();
        let refname = chars_of(e.refname.as_str()).len();
        let l = name + 1 + refname;
        if s > sw {
            sw = s;
        }
        if c > cw {
            cw = c;
        }
        if l > lw {
            lw = l;
        }
        i = i + 1;
    }
    assert(ss.take(i as int) =~= ss);
    assert(cs.take(i as int) =~= cs);
    assert(ls.take(i as int) =~= ls);
    let mut out: Vec<String> = Vec::new();
    let mut j: usize = 0;
    while j < entries.len()
        invariant
            j <= entries@.len(),
            es == entry_views(entries@),
            sw == widest(ss),
            cw == widest(cs),
            lw == widest(ls),
            ss == es.map_values(|e: EntryView| status_label(e.status).len()),
            cs == es.map_values(|e: EntryView| e.committer.len()),
            ls == es.map_values(|e: EntryView| location_of(e).len()),
            crate::statement::string_views(out@) =~= entry_lines(es).take(j as int),
        decreases entries.len() - j,
    {
        let e = &entries[j];
        assert(es[j as int] == e@);
        let mut line = chars_of(e.commit_date.as_str());
        push_str(&mut line, "  ");
        push_padded(&mut line, &chars_of(e.status.label()), sw);
        push_str(&mut line, "  ");
        push_padded(&mut line, &chars_of(e.committer.as_str()), cw);
        push_str(&mut line, "  ");
        let mut location = chars_of(e.repo_name.as_str());
        location.push('/');
        push_str(&mut location, e.refname.as_str());
        assert(location@ =~= location_of(e@));
        push_padded(&mut line, &location, lw);
        assert(line@ =~= entry_line(e@, sw as nat, cw as nat, lw as nat));
        let ghost before = out@;
        out.push(string_of(&line));
        assert(crate::statement::string_views(out@) =~= crate::statement::string_views(before).push(
            line@,
        ));
        j = j + 1;
    }
    out
}


// ---- the branch picker --------------------------------------------------

/// A key, as far as the branch picker cares.
#[derive(Debug, Clone, Copy, PartialEq, Eq, Structural)]
pub enum PickerKey {
    Up,
    Down,
    Home,
    End,
    Pick,
    Cancel,
    Other,
}

/// What reaches the branch picker: a key, the end of keys, a fresh
/// listing, or word that no fresh listing is coming.
pub enum PickerEvent {
    Key(PickerKey),
    KeyEnded,
    Refresh(Vec<BranchListEntry>),
    RefreshEnded,
}

#[derive(Debug, Clone, Copy, PartialEq, Eq, Structural)]
pub enum EventResult {
    Continue,
    Pick,
    Cancel,
}

/// The branch picker: the listing, which line is selected, and whether a
/// fresh listing is still coming.
pub struct PickerState {
    pub entries: Vec<BranchListEntry>,
    pub selected: usize,
    pub refreshing: bool,
}

/// The first entry for the same repository and branch.
pub open spec fn position_of(es: Seq<EntryView>, path: Seq<char>, refname: Seq<char>) -> Option<int>
    decreases es.len(),
{
    if es.len() == 0 {
        None
    } else if es[0].repo_path == path && es[0].refname == refname {
        Some(0)
    } else {
        match position_of(es.drop_first(), path, refname) {
            Some(i) => Some(i + 1),
            None => None,
        }
    }
}

/// The selection after a fresh listing arrives: the same branch if it is
/// still listed, else the first line, kept within the listing.
pub open spec fn refreshed_selection(before: Seq<EntryView>, selected: int, after: Seq<EntryView>) -> int {
    let wanted = if 0 <= selected < before.len() {
        match position_of(after, before[selected].repo_path, before[selected].refname) {
            Some(i) => i,
            None => 0,
        }
    } else {
        0
    };
    let last = if after.len() > 0 {
        after.len() - 1
    } else {
        0
    };
    if wanted < last {
        wanted
    } else {
        last
    }
}

/// Where the entry for a repository and branch is, if it is listed.
pub fn position_in(entries: &Vec<BranchListEntry>, path: &str, refname: &str) -> (r: Option<usize>)
    ensures
        match r {
            Some(i) => position_of(entry_views(entries@), path@, refname@) == Some(i as int),
            None => position_of(entry_views(entries@), path@, refname@) is None,
        },
{
    let ghost es = entry_views(entries@);
    let mut i: usize = 0;
    assert(es.skip(0) =~= es);
    while i < entries.len()
        invariant
            i <= entries@.len(),
            es == entry_views(entries@),
            position_of(es, path@, refname@) == match position_of(es.skip(i as int), path@, refname@) {
                Some(j) => Some(j + i),
                None => None,
            },
        decreases entries.len() - i,
    {
        assert(es.skip(i as int)[0] == entries@[i as int]@);
        if str_eq(entries[i].repo_path.as_str(), path) && str_eq(entries[i].refname.as_str(), refname) {
            return Some(i);
        }
        assert(es.skip(i as int).drop_first() =~= es.skip(i + 1));
        i = i + 1;
    }
    None
}

impl PickerState {
    /// A picker over the listing, the first line selected.
    pub fn new(entries: Vec<BranchListEntry>, refreshing: bool) -> (r: PickerState)
        ensures
            r.entries == entries,
            r.selected == 0,
            r.refreshing == refreshing,
    {
        PickerState { entries, selected: 0, refreshing }
    }

    /// Takes in a fresh listing, keeping the selection on the same
    /// branch where it can.
    pub fn apply_refresh(&mut self, new_entries: Vec<BranchListEntry>)
        ensures
            final(self).entries == new_entries,
            final(self).selected == refreshed_selection(
                entry_views(old(self).entries@),
                old(self).selected as int,
                entry_views(new_entries@),
            ),
            !final(self).refreshing,
    {
        let ghost olds = entry_views(self.entries@);
        let ghost news = entry_views(new_entries@);
        let mut wanted: usize = 0;
        if self.selected < self.entries.len() {
            let cur = &self.entries[self.selected];
            assert(olds[self.selected as int] == cur@);
            match position_in(&new_entries, cur.repo_path.as_str(), cur.refname.as_str()) {
                Some(i) => {
                    wanted = i;
                },
                None => {},
            }
        }
        let last = if new_entries.len() > 0 {
            new_entries.len() - 1
        } else {
            0
        };
        self.selected = if wanted < last {
            wanted
        } else {
            last
        };
        self.entries = new_entries;
        self.refreshing = false;
    }

    /// What an event does: keys move the selection within the listing or
    /// pick or cancel; the end of keys cancels; a fresh listing is taken
    /// in.
    pub fn handle_event(&mut self, event: PickerEvent) -> (r: EventResult)
        ensures
            match event {
                PickerEvent::Key(k) => {
                    &&& final(self).entries == old(self).entries
                    &&& final(self).refreshing == old(self).refreshing
                    &&& final(self).selected == match k {
                        PickerKey::Up => if old(self).selected > 0 {
                            (old(self).selected - 1) as usize
                        } else {
                            old(self).selected
                        },
                        PickerKey::Down => if old(self).selected + 1 < old(self).entries@.len() {
                            (old(self).selected + 1) as usize
                        } else {
                            old(self).selected
                        },
                        PickerKey::Home => 0,
                        PickerKey::End => if old(self).entries@.len() > 0 {
                            (old(self).entries@.len() - 1) as usize
                        } else {
                            old(self).selected
                        },
                        _ => old(self).selected,
                    }
                    &&& r == match k {
                        PickerKey::Pick => EventResult::Pick,
                        PickerKey::Cancel => EventResult::Cancel,
                        _ => EventResult::Continue,
                    }
                },
                PickerEvent::KeyEnded => *final(self) == *old(self) && r == EventResult::Cancel,
                PickerEvent::Refresh(new) => {
                    &&& final(self).entries == new
                    &&& final(self).selected == refreshed_selection(
                        entry_views(old(self).entries@),
                        old(self).selected as int,
                        entry_views(new@),
                    )
                    &&& !final(self).refreshing
                    &&& r == EventResult::Continue
                },
                PickerEvent::RefreshEnded => {
                    &&& final(self).entries == old(self).entries
                    &&& final(self).selected == old(self).selected
                    &&& !final(self).refreshing
                    &&& r == EventResult::Continue
                },
            },
    {
        match event {
            PickerEvent::Key(k) => match k {
                PickerKey::Up => {
                    if self.selected > 0 {
                        self.selected = self.selected - 1;
                    }
                    EventResult::Continue
                },
                PickerKey::Down => {
                    if self.entries.len() > 0 && self.selected < self.entries.len() - 1 {
                        self.selected = self.selected + 1;
                    }
                    EventResult::Continue
                },
                PickerKey::Home => {
                    self.selected = 0;
                    EventResult::Continue
                },
                PickerKey::End => {
                    if self.entries.len() > 0 {
                        self.selected = self.entries.len() - 1;
                    }
                    EventResult::Continue
                },
                PickerKey::Pick => EventResult::Pick,
                PickerKey::Cancel => EventResult::Cancel,
                PickerKey::Other => EventResult::Continue,
            },
            PickerEvent::KeyEnded => EventResult::Cancel,
            PickerEvent::Refresh(new_entries) => {
                self.apply_refresh(new_entries);
                EventResult::Continue
            },
            PickerEvent::RefreshEnded => {
                self.refreshing = false;
                EventResult::Continue
            },
        }
    }

    /// The selected entry, if the selection is on one.
    pub fn picked(&self) -> (r: Option<&BranchListEntry>)
        ensures
            match r {
                Some(e) => self.selected < self.entries@.len() && *e == self.entries@[self.selected as int],
                None => self.selected >= self.entries@.len(),
            },
    {
        if self.selected < self.entries.len() {
            Some(&self.entries[self.selected])
        } else {
            None
        }
    }
}

/// Where picking a branch takes the shell.
#[derive(Debug, Clone, PartialEq, Eq)]
pub enum Selection {
    /// The branch is checked out in another worktree: go there.
    Worktree(String),
    /// Check the branch out in its repository and go there.
    Checkout { repo_path: String, refname: String },
}

/// Decides what picking an entry does, given whether its worktree, if it
/// has one, is the repository itself.
pub fn select_entry(entry: &BranchListEntry, worktree_is_repo: bool) -> (r: Selection)
    ensures
        match entry.worktree_path {
            Some(w) if !worktree_is_repo => r matches Selection::Worktree(p) && p@ == w@,
            _ => r matches Selection::Checkout { repo_path, refname } && repo_path@
                == entry.repo_path@ && refname@ == entry.refname@,
        },
{
    match &entry.worktree_path {
        Some(w) => {
            if !worktree_is_repo {
                return Selection::Worktree(copy(w));
            }
        },
        None => {},
    }
    Selection::Checkout { repo_path: copy(&entry.repo_path), refname: copy(&entry.refname) }
}

/// Where the shell goes after a selection.
pub fn selection_result(s: &Selection) -> (r: TaskResult)
    ensures
        match s {
            Selection::Worktree(p) => r matches TaskResult::ShellActionRequired(q) && q@ == p@,
            Selection::Checkout { repo_path, .. } => r matches TaskResult::ShellActionRequired(q)
                && q@ == repo_path@,
        },
{
    match s {
        Selection::Worktree(p) => TaskResult::ShellActionRequired(copy(p)),
        Selection::Checkout { repo_path, .. } => TaskResult::ShellActionRequired(copy(repo_path)),
    }
}

// ---- the bulk picker ----------------------------------------------------

/// An action the bulk picker offers, and whether it may run on several
/// branches at once.
#[derive(Debug, Clone)]
pub struct ActionSpec {
    pub label: String,
    pub bulk_safe: bool,
}

/// A key, as far as the bulk picker cares.
#[derive(Debug, Clone, Copy, PartialEq, Eq, Structural)]
pub enum BulkKey {
    Up,
    Down,
    Left,
    Right,
    Toggle,
    ToggleAll,
    Confirm,
    Cancel,
    Other,
}

/// How the bulk picker ended.
#[derive(Debug, Clone, PartialEq, Eq)]
pub enum BulkOutcome {
    Confirmed { target_indices: Vec<usize>, action_index: usize },
    Cancelled,
}

/// The bulk picker: branches, each checked or not, a cursor, and the
/// chosen action.
pub struct BulkState {
    pub title: String,
    pub entries: Vec<String>,
    pub actions: Vec<ActionSpec>,
    pub checked: Vec<bool>,
    pub cursor: usize,
    pub action_index: usize,
}

/// Whether the chosen action runs on the checked branches (else on the
/// one under the cursor); an action out of range counts as bulk.
pub open spec fn is_bulk(s: BulkState) -> bool {
    if s.action_index < s.actions@.len() {
        s.actions@[s.action_index as int].bulk_safe
    } else {
        true
    }
}

/// What a key does to the bulk picker's state.
pub open spec fn bulk_step(s: BulkState, key: BulkKey) -> (usize, usize, Seq<bool>) {
    let c = s.checked@;
    match key {
        BulkKey::Up => (if s.cursor > 0 { (s.cursor - 1) as usize } else { s.cursor }, s.action_index, c),
        BulkKey::Down => (
            if s.cursor + 1 < s.entries@.len() { (s.cursor + 1) as usize } else { s.cursor },
            s.action_index,
            c,
        ),
        BulkKey::Left => (
            s.cursor,
            if s.action_index > 0 { (s.action_index - 1) as usize } else { s.action_index },
            c,
        ),
        BulkKey::Right => (
            s.cursor,
            if s.action_index + 1 < s.actions@.len() {
                (s.action_index + 1) as usize
            } else {
                s.action_index
            },
            c,
        ),
        BulkKey::Toggle => (
            s.cursor,
            s.action_index,
            if is_bulk(s) && s.cursor < c.len() {
                c.update(s.cursor as int, !c[s.cursor as int])
            } else {
                c
            },
        ),
        BulkKey::ToggleAll => (
            s.cursor,
            s.action_index,
            if is_bulk(s) {
                Seq::new(c.len(), |i: int| !(forall|j: int| 0 <= j < c.len() ==> c[j]))
            } else {
                c
            },
        ),
        _ => (s.cursor, s.action_index, c),
    }
}

/// The branches a confirmed action runs on: the checked ones, in order,
/// for a bulk action, else the one under the cursor.
pub open spec fn checked_indices(c: Seq<bool>, n: int) -> Seq<usize>
    decreases n,
{
    if n <= 0 {
        Seq::empty()
    } else if c[n - 1] {
        checked_indices(c, n - 1).push((n - 1) as usize)
    } else {
        checked_indices(c, n - 1)
    }
}

impl BulkState {
    /// A picker with every branch checked, or none when there is nothing
    /// to pick or nothing to do.
    pub fn start(title: &str, entries: Vec<String>, actions: Vec<ActionSpec>) -> (r: Option<BulkState>)
        ensures
            match r {
                Some(s) => entries@.len() > 0 && actions@.len() > 0 && s.title@ == title@
                    && s.entries == entries && s.actions == actions && s.checked@ == Seq::new(
                    entries@.len(),
                    |i: int| true,
                ) && s.cursor == 0 && s.action_index == 0,
                None => entries@.len() == 0 || actions@.len() == 0,
            },
    {
        if entries.len() == 0 || actions.len() == 0 {
            return None;
        }
        let mut checked: Vec<bool> = Vec::new();
        let mut i: usize = 0;
        while i < entries.len()
            invariant
                i <= entries@.len(),
                checked@ =~= Seq::new(i as nat, |k: int| true),
            decreases entries.len() - i,
        {
            checked.push(true);
            i = i + 1;
        }
        Some(
            BulkState {
                title: string_of(&chars_of(title)),
                entries,
                actions,
                checked,
                cursor: 0,
                action_index: 0,
            },
        )
    }

    /// Whether the chosen action runs on the checked branches.
    pub fn current_is_bulk(&self) -> (r: bool)
        ensures
            r == is_bulk(*self),
    {
        if self.action_index < self.actions.len() {
            self.actions[self.action_index].bulk_safe
        } else {
            true
        }
    }

    /// What a key does: moves the cursor or the action within bounds,
    /// toggles the branch under the cursor or all of them (for a bulk
    /// action only), confirms or cancels.
    pub fn handle_key(&mut self, key: BulkKey) -> (r: KeyResult)
        ensures
            (final(self).cursor, final(self).action_index, final(self).checked@) == bulk_step(
                *old(self),
                key,
            ),
            final(self).title == old(self).title,
            final(self).entries == old(self).entries,
            final(self).actions == old(self).actions,
            r == match key {
                BulkKey::Confirm => KeyResult::Confirm,
                BulkKey::Cancel => KeyResult::Cancel,
                _ => KeyResult::Continue,
            },
    {
        match key {
            BulkKey::Up => {
                if self.cursor > 0 {
                    self.cursor = self.cursor - 1;
                }
                KeyResult::Continue
            },
            BulkKey::Down => {
                if self.entries.len() > 0 && self.cursor < self.entries.len() - 1 {
                    self.cursor = self.cursor + 1;
                }
                KeyResult::Continue
            },
            BulkKey::Left => {
                if self.action_index > 0 {
                    self.action_index = self.action_index - 1;
                }
                KeyResult::Continue
            },
            BulkKey::Right => {
                if self.actions.len() > 0 && self.action_index < self.actions.len() - 1 {
                    self.action_index = self.action_index + 1;
                }
                KeyResult::Continue
            },
            BulkKey::Toggle => {
                if self.current_is_bulk() && self.cursor < self.checked.len() {
                    let v = !self.checked[self.cursor];
                    self.checked.set(self.cursor, v);
                }
                KeyResult::Continue
            },
            BulkKey::ToggleAll => {
                if self.current_is_bulk() {
                    let ghost c = self.checked@;
                    let mut all = true;
                    let mut i: usize = 0;
                    while i < self.checked.len()
                        invariant
                            i <= self.checked@.len(),
                            self.checked@ == c,
                            all == (forall|j: int| 0 <= j < i ==> c[j]),
                        decreases self.checked.len() - i,
                    {
                        if !self.checked[i] {
                            all = false;
                        }
                        i = i + 1;
                    }
                    let mut k: usize = 0;
                    while k < self.checked.len()
                        invariant
                            k <= self.checked@.len(),
                            self.checked@.len() == c.len(),
                            all == (forall|j: int| 0 <= j < c.len() ==> c[j]),
                            forall|j: int| 0 <= j < k ==> self.checked@[j] == !all,
                            self.title == old(self).title,
                            self.entries == old(self).entries,
                            self.actions == old(self).actions,
                            self.cursor == old(self).cursor,
                            self.action_index == old(self).action_index,
                        decreases self.checked.len() - k,
                    {
                        self.checked.set(k, !all);
                        k = k + 1;
                    }
                    assert(self.checked@ =~= Seq::new(c.len(), |i: int| !(forall|j: int| 0 <= j < c.len() ==> c[j])));
                }
                KeyResult::Continue
            },
            BulkKey::Confirm => KeyResult::Confirm,
            BulkKey::Cancel => KeyResult::Cancel,
            BulkKey::Other => KeyResult::Continue,
        }
    }

    /// The branches a confirmed action runs on.
    pub fn targets(&self) -> (r: Vec<usize>)
        ensures
            r@ == if is_bulk(*self) {
                checked_indices(self.checked@, self.checked@.len() as int)
            } else {
                seq![self.cursor]
            },
    {
        let mut out: Vec<usize> = Vec::new();
        if !self.current_is_bulk() {
            out.push(self.cursor);
            return out;
        }
        let mut i: usize = 0;
        while i < self.checked.len()
            invariant
                i <= self.checked@.len(),
                out@ == checked_indices(self.checked@, i as int),
            decreases self.checked.len() - i,
        {
            if self.checked[i] {
                out.push(i);
            }
            i = i + 1;
        }
        out
    }

    /// How confirming ends the picker: the action and what it runs on.
    pub fn confirmed(&self) -> (r: BulkOutcome)
        ensures
            r matches BulkOutcome::Confirmed { target_indices, action_index } && action_index
                == self.action_index && target_indices@ == if is_bulk(*self) {
                checked_indices(self.checked@, self.checked@.len() as int)
            } else {
                seq![self.cursor]
            },
    {
        BulkOutcome::Confirmed { target_indices: self.targets(), action_index: self.action_index }
    }
}

/// How wide a line shows on a terminal, escapes left out, named here.
pub uninterp spec fn text_width_of(s: Seq<char>) -> nat;

/// `console::measure_text_width`: the columns a line takes, ANSI
/// escapes not counting; its reading of Unicode widths is named, not
/// stated.
#[verifier::external_body]
fn measure_width(s: &str) -> (r: usize)
    ensures
        r as nat == text_width_of(s@),
{
    console::measure_text_width(s)
}

/// How many terminal rows a line takes when it wraps: at least one.
pub open spec fn rows_of(width: nat, term_width: nat) -> nat {
    if term_width == 0 || width == 0 {
        1
    } else {
        ((width + term_width - 1) / term_width as int) as nat
    }
}

/// The rows a line takes on a terminal this wide.
pub fn rows_for_line(line: &str, term_width: usize) -> (r: usize)
    ensures
        r as nat == rows_of(text_width_of(line@), term_width as nat),
{
    if term_width == 0 {
        return 1;
    }
    let width = measure_width(line);
    rows_for_width(width, term_width)
}

/// The rows a line of `width` columns takes on a terminal this wide.
pub fn rows_for_width(width: usize, term_width: usize) -> (r: usize)
    ensures
        r as nat == rows_of(width as nat, term_width as nat),
{
    if term_width == 0 || width == 0 {
        return 1;
    }
    let whole = width / term_width;
    let part = if width % term_width == 0 {
        0
    } else {
        1
    };
    proof {
        vstd::arithmetic::div_mod::lemma_fundamental_div_mod(width as int, term_width as int);
        lemma_ceil_div(width as int, term_width as int);
    }
    whole + part
}

proof fn lemma_ceil_div(w: int, t: int)
    requires
        w > 0,
        t > 0,
    ensures
        (w + t - 1) / t == w / t + if w % t == 0 {
            0int
        } else {
            1int
        },
        w / t <= w,
        (w + t - 1) / t <= w,
{
    let q = w / t;
    let r = w % t;
    vstd::arithmetic::div_mod::lemma_fundamental_div_mod(w, t);
    vstd::arithmetic::div_mod::lemma_div_nonincreasing(w, t);
    assert(w == q * t + r) by (nonlinear_arith)
        requires
            w == t * (w / t) + w % t,
            q == w / t,
            r == w % t,
    ;
    if r == 0 {
        vstd::arithmetic::div_mod::lemma_fundamental_div_mod_converse(w + t - 1, t, q, t - 1);
    } else {
        assert(w + t - 1 == (q + 1) * t + (r - 1)) by (nonlinear_arith)
            requires
                w == q * t + r,
        ;
        vstd::arithmetic::div_mod::lemma_fundamental_div_mod_converse(w + t - 1, t, q + 1, r - 1);
    }
    vstd::arithmetic::div_mod::lemma_div_pos_is_pos(w, t);
    assert(q * t >= q) by (nonlinear_arith)
        requires
            q >= 0,
            t >= 1,
    ;
}

// ---- branches that need something done, in bulk -------------------------

/// One branch of one repository, for bulk actions.
#[derive(Debug, Clone)]
pub struct BulkBranch {
    pub repo_name: String,
    pub repo_path: String,
    pub branch: Branch,
}

impl BulkBranch {
    /// How the branch is shown: `repo/branch`.
    pub fn display(&self) -> (r: String)
        ensures
            r@ == self.repo_name@ + seq!['/'] + self.branch.refname@,
    {
        let mut v = chars_of(self.repo_name.as_str());
        v.push('/');
        push_str(&mut v, self.branch.refname.as_str());
        string_of(&v)
    }
}

/// The states branches are grouped by for bulk actions, in the order the
/// groups are offered.
#[derive(Debug, Clone, Copy, PartialEq, Eq, Structural)]
pub enum GroupKey {
    NoUpstream,
    UpstreamIsAheadOfLocal,
    LocalIsAheadOfUpstream,
    MergeNeeded,
    UpstreamIsGone,
}

pub open spec fn group_order(k: GroupKey) -> nat {
    match k {
        GroupKey::NoUpstream => 0,
        GroupKey::UpstreamIsAheadOfLocal => 1,
        GroupKey::LocalIsAheadOfUpstream => 2,
        GroupKey::MergeNeeded => 3,
        GroupKey::UpstreamIsGone => 4,
    }
}

/// The group a branch belongs to; none for one identical to its upstream.
pub open spec fn group_of(b: BranchView) -> Option<GroupKey> {
    match b.upstream {
        None => Some(GroupKey::NoUpstream),
        Some((_, s)) => match s {
            UpstreamStatus::Identical => None,
            UpstreamStatus::UpstreamIsAheadOfLocal => Some(GroupKey::UpstreamIsAheadOfLocal),
            UpstreamStatus::LocalIsAheadOfUpstream => Some(GroupKey::LocalIsAheadOfUpstream),
            UpstreamStatus::MergeNeeded => Some(GroupKey::MergeNeeded),
            UpstreamStatus::UpstreamIsGone => Some(GroupKey::UpstreamIsGone),
        },
    }
}

impl GroupKey {
    /// Where the group comes in the order they are offered.
    pub fn order_index(self) -> (r: usize)
        ensures
            r == group_order(self),
    {
        match self {
            GroupKey::NoUpstream => 0,
            GroupKey::UpstreamIsAheadOfLocal => 1,
            GroupKey::LocalIsAheadOfUpstream => 2,
            GroupKey::MergeNeeded => 3,
            GroupKey::UpstreamIsGone => 4,
        }
    }

    /// The group of a branch, if it needs anything done.
    pub fn from_branch(branch: &Branch) -> (r: Option<GroupKey>)
        ensures
            r == group_of(branch@),
    {
        match &branch.upstream {
            None => Some(GroupKey::NoUpstream),
            Some(u) => match u.status {
                UpstreamStatus::Identical => None,
                UpstreamStatus::UpstreamIsAheadOfLocal => Some(GroupKey::UpstreamIsAheadOfLocal),
                UpstreamStatus::LocalIsAheadOfUpstream => Some(GroupKey::LocalIsAheadOfUpstream),
                UpstreamStatus::MergeNeeded => Some(GroupKey::MergeNeeded),
                UpstreamStatus::UpstreamIsGone => Some(GroupKey::UpstreamIsGone),
            },
        }
    }
}

pub open spec fn bulk_views(v: Seq<BulkBranch>) -> Seq<(Seq<char>, Seq<char>, BranchView)> {
    v.map_values(|b: BulkBranch| (b.repo_name@, b.repo_path@, b.branch@))
}

/// The branches of one group, in the order they came.
pub open spec fn in_group(v: Seq<(Seq<char>, Seq<char>, BranchView)>, k: GroupKey) -> Seq<
    (Seq<char>, Seq<char>, BranchView),
>
    decreases v.len(),
{
    if v.len() == 0 {
        v
    } else {
        let rest = in_group(v.drop_last(), k);
        if group_of(v.last().2) == Some(k) {
            rest.push(v.last())
        } else {
            rest
        }
    }
}

/// The groups of the branches: each state that some branch is in, in the
/// order the groups are offered, with its branches in order. Branches
/// identical to their upstream are left out.
pub open spec fn groups_of(v: Seq<(Seq<char>, Seq<char>, BranchView)>) -> Seq<
    (GroupKey, Seq<(Seq<char>, Seq<char>, BranchView)>),
> {
    let all = seq![
        GroupKey::NoUpstream,
        GroupKey::UpstreamIsAheadOfLocal,
        GroupKey::LocalIsAheadOfUpstream,
        GroupKey::MergeNeeded,
        GroupKey::UpstreamIsGone,
    ];
    all.filter(|k: GroupKey| in_group(v, k).len() > 0).map_values(|k: GroupKey| (k, in_group(v, k)))
}

fn copy_branch(b: &BulkBranch) -> (r: BulkBranch)
    ensures
        (r.repo_name@, r.repo_path@, r.branch@) == (b.repo_name@, b.repo_path@, b.branch@),
{
    BulkBranch {
        repo_name: copy(&b.repo_name),
        repo_path: copy(&b.repo_path),
        branch: Branch {
            refname: copy(&b.branch.refname),
            upstream: match &b.branch.upstream {
                Some(u) => Some(crate::git::Upstream { name: copy(&u.name), status: u.status }),
                None => None,
            },
            worktree_path: match &b.branch.worktree_path {
                Some(p) => Some(copy(p)),
                None => None,
            },
        },
    }
}

/// The branches of one group.
fn group_members(branches: &Vec<BulkBranch>, k: GroupKey) -> (r: Vec<BulkBranch>)
    ensures
        bulk_views(r@) == in_group(bulk_views(branches@), k),
{
    let ghost all = bulk_views(branches@);
    let mut out: Vec<BulkBranch> = Vec::new();
    let mut i: usize = 0;
    assert(all.take(0) =~= Seq::<(Seq<char>, Seq<char>, BranchView)>::empty());
    while i < branches.len()
        invariant
            i <= branches@.len(),
            all == bulk_views(branches@),
            bulk_views(out@) == in_group(all.take(i as int), k),
        decreases branches.len() - i,
    {
        assert(all.take(i + 1).drop_last() =~= all.take(i as int));
        assert(all.take(i + 1).last() == all[i as int]);
        if GroupKey::from_branch(&branches[i].branch) == Some(k) {
            let ghost before = bulk_views(out@);
            let b = copy_branch(&branches[i]);
            out.push(b);
            assert(bulk_views(out@) =~= before.push(all[i as int]));
        }
        i = i + 1;
    }
    assert(all.take(i as int) =~= all);
    out
}

/// Groups the branches by the state they are in, groups in the order
/// they are offered and branches in the order they came; a branch
/// identical to its upstream is in none.
pub fn group_by_state(branches: &Vec<BulkBranch>) -> (r: Vec<(GroupKey, Vec<BulkBranch>)>)
    ensures
        r@.len() == groups_of(bulk_views(branches@)).len(),
        forall|i: int|
            0 <= i < r@.len() ==> (#[trigger] r@[i]).0 == groups_of(bulk_views(branches@))[i].0
                && bulk_views(r@[i].1@) == groups_of(bulk_views(branches@))[i].1,
{
    let ghost v = bulk_views(branches@);
    let keys = [
        GroupKey::NoUpstream,
        GroupKey::UpstreamIsAheadOfLocal,
        GroupKey::LocalIsAheadOfUpstream,
        GroupKey::MergeNeeded,
        GroupKey::UpstreamIsGone,
    ];
    let ghost all = seq![
        GroupKey::NoUpstream,
        GroupKey::UpstreamIsAheadOfLocal,
        GroupKey::LocalIsAheadOfUpstream,
        GroupKey::MergeNeeded,
        GroupKey::UpstreamIsGone,
    ];
    assert(keys@ =~= all);
    let ghost wanted = |k: GroupKey| in_group(v, k).len() > 0;
    let ghost shape = |k: GroupKey| (k, in_group(v, k));
    let mut out: Vec<(GroupKey, Vec<BulkBranch>)> = Vec::new();
    let mut i: usize = 0;
    assert(all.take(0).filter(wanted) =~= Seq::<GroupKey>::empty());
    while i < 5
        invariant
            i <= 5,
            keys@ == all,
            v == bulk_views(branches@),
            all == seq![
                GroupKey::NoUpstream,
                GroupKey::UpstreamIsAheadOfLocal,
                GroupKey::LocalIsAheadOfUpstream,
                GroupKey::MergeNeeded,
                GroupKey::UpstreamIsGone,
            ],
            wanted == (|k: GroupKey| in_group(v, k).len() > 0),
            out@.len() == all.take(i as int).filter(wanted).len(),
            forall|j: int|
                0 <= j < out@.len() ==> (#[trigger] out@[j]).0 == all.take(i as int).filter(wanted)[j]
                    && bulk_views(out@[j].1@) == in_group(v, out@[j].0),
        decreases 5 - i,
    {
        let k = keys[i];
        let members = group_members(branches, k);
        assert(all.take(i + 1).drop_last() =~= all.take(i as int));
        assert(all.take(i + 1).last() == k);
        proof {
            all.take(i as int).lemma_filter_push(k, wanted);
        }
        assert(all.take(i as int).push(k) =~= all.take(i + 1));
        assert(bulk_views(members@).len() == members@.len());
        let ghost before = out@;
        if members.len() > 0 {
            out.push((k, members));
            assert(all.take(i + 1).filter(wanted) == all.take(i as int).filter(wanted).push(k));
            assert forall|j: int| 0 <= j < out@.len() implies (#[trigger] out@[j]).0 == all.take(i + 1).filter(wanted)[j]
                && bulk_views(out@[j].1@) == in_group(v, out@[j].0) by {
                if j < before.len() {
                    assert(out@[j] == before[j]);
                }
            }
        } else {
            assert(all.take(i + 1).filter(wanted) == all.take(i as int).filter(wanted));
        }
        i = i + 1;
    }
    assert(all.take(5) =~= all);
    assert(groups_of(v) =~= all.filter(wanted).map_values(shape));
    out
}

/// The branches still to do after an action: those it did not handle, in
/// order.
pub fn remaining(group: Vec<BulkBranch>, handled: &Vec<usize>) -> (r: Vec<BulkBranch>)
    ensures
        r@ == unhandled(group@, handled@, group@.len() as int),
{
    let ghost all = group@;
    let mut rest = group;
    let mut out: Vec<BulkBranch> = Vec::new();
    let n = rest.len();
    let mut i: usize = 0;
    while i < n
        invariant
            i <= n,
            n == all.len(),
            rest@ == all.skip(i as int),
            out@ == unhandled(all, handled@, i as int),
        decreases n - i,
    {
        let b = rest.remove(0);
        assert(b == all[i as int]);
        assert(rest@ =~= all.skip(i + 1));
        let mut done = false;
        let mut j: usize = 0;
        while j < handled.len()
            invariant
                j <= handled@.len(),
                done == exists|q: int| 0 <= q < j && handled@[q] == i,
            decreases handled.len() - j,
        {
            if handled[j] == i {
                done = true;
            }
            j = j + 1;
        }
        assert(done == handled@.contains(i)) by {
            if handled@.contains(i) {
                let q = choose|q: int| 0 <= q < handled@.len() && handled@[q] == i;
                assert(0 <= q < j && handled@[q] == i);
            }
        }
        if !done {
            out.push(b);
        }
        i = i + 1;
    }
    out
}

/// The first `n` branches of a group, less those at the handled positions.
pub open spec fn unhandled(group: Seq<BulkBranch>, handled: Seq<usize>, n: int) -> Seq<BulkBranch>
    decreases n,
{
    if n <= 0 {
        Seq::empty()
    } else if handled.contains((n - 1) as usize) {
        unhandled(group, handled, n - 1)
    } else {
        unhandled(group, handled, n - 1).push(group[n - 1])
    }
}

/// What is said before a bulk action runs: on how many branches, or, for
/// an action that takes one branch, on which.
pub open spec fn applying_text(description: Seq<char>, count: nat, bulk_safe: bool, first: Seq<char>) -> Seq<
    char,
> {
    if bulk_safe {
        "Applying \""@ + description + "\" to "@ + crate::text::decimal(count) + " branch"@ + if count == 1 {
            Seq::empty()
        } else {
            "es"@
        } + "..."@
    } else {
        description + " on "@ + first + "..."@
    }
}

pub fn applying_message(description: &str, count: usize, bulk_safe: bool, first: &str) -> (r: String)
    ensures
        r@ == applying_text(description@, count as nat, bulk_safe, first@),
{
    let mut out: Vec<char> = Vec::new();
    if bulk_safe {
        push_str(&mut out, "Applying \"");
        push_str(&mut out, description);
        push_str(&mut out, "\" to ");
        push_chars(&mut out, &crate::text::decimal_chars(count as u64));
        push_str(&mut out, " branch");
        if count != 1 {
            push_str(&mut out, "es");
        }
        push_str(&mut out, "...");
    } else {
        push_str(&mut out, description);
        push_str(&mut out, " on ");
        push_str(&mut out, first);
        push_str(&mut out, "...");
    }
    string_of(&out)
}


proof fn lemma_position_of_facts(es: Seq<EntryView>, path: Seq<char>, refname: Seq<char>)
    ensures
        position_of(es, path, refname) matches Some(i) ==> 0 <= i < es.len() && es[i].repo_path == path
            && es[i].refname == refname,
        (exists|j: int| 0 <= j < es.len() && (#[trigger] es[j]).repo_path == path && es[j].refname == refname)
            ==> position_of(es, path, refname) is Some,
    decreases es.len(),
{
    if es.len() > 0 {
        lemma_position_of_facts(es.drop_first(), path, refname);
        if exists|j: int| 0 <= j < es.len() && (#[trigger] es[j]).repo_path == path && es[j].refname == refname {
            let j = choose|j: int| 0 <= j < es.len() && (#[trigger] es[j]).repo_path == path && es[j].refname == refname;
            if j > 0 {
                assert(es.drop_first()[j - 1] == es[j]);
            }
        }
    }
}

/// A fresh listing keeps the selection on the same branch of the same
/// repository while it is still listed; the selection always stays on a
/// line of the listing, or at 0 when the listing is empty.
pub proof fn law_refresh_keeps_the_branch(before: Seq<EntryView>, selected: int, after: Seq<EntryView>)
    ensures
        ({
            let r = refreshed_selection(before, selected, after);
            &&& after.len() > 0 ==> 0 <= r < after.len()
            &&& after.len() == 0 ==> r == 0
            &&& (0 <= selected < before.len() && exists|j: int|
                0 <= j < after.len() && (#[trigger] after[j]).repo_path == before[selected].repo_path && after[j].refname
                    == before[selected].refname) ==> after[r].repo_path == before[selected].repo_path && after[r].refname
                == before[selected].refname
        }),
{
    if 0 <= selected < before.len() {
        lemma_position_of_facts(after, before[selected].repo_path, before[selected].refname);
    }
}


/// The bulk picker's cursor is on a branch, its action is one of the
/// actions, and there is a check per branch.
pub open spec fn bulk_in_bounds(s: BulkState) -> bool {
    &&& s.cursor < s.entries@.len()
    &&& s.action_index < s.actions@.len()
    &&& s.checked@.len() == s.entries@.len()
}

/// No key takes the bulk picker out of bounds, and moving between actions
/// leaves the checks as they were.
pub proof fn law_bulk_keys_stay_in_bounds(s: BulkState, key: BulkKey)
    requires
        bulk_in_bounds(s),
    ensures
        ({
            let (cursor, action, checked) = bulk_step(s, key);
            &&& cursor < s.entries@.len()
            &&& action < s.actions@.len()
            &&& checked.len() == s.entries@.len()
            &&& (key == BulkKey::Left || key == BulkKey::Right || key == BulkKey::Up || key == BulkKey::Down)
                ==> checked == s.checked@
        }),
{
}


/// The listing's word follows git's direction: a branch whose upstream is
/// ahead of it (git says "behind") is listed as behind, one that is ahead
/// of its upstream as ahead, and one that is both as diverged.
pub proof fn law_label_follows_git_direction(b: BranchView)
    ensures
        (b.upstream matches Some((_, s)) && s == UpstreamStatus::UpstreamIsAheadOfLocal)
            ==> status_label(status_of(b)) == "behind"@,
        (b.upstream matches Some((_, s)) && s == UpstreamStatus::LocalIsAheadOfUpstream)
            ==> status_label(status_of(b)) == "ahead"@,
        (b.upstream matches Some((_, s)) && s == UpstreamStatus::MergeNeeded) ==> status_label(
            status_of(b),
        ) == "diverged"@,
        b.upstream is None ==> status_label(status_of(b)) == "no upstream"@,
{
}

} // verus!
