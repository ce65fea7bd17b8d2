//! Comments written against single transactions in the statement viewer.
//!
//! They are notes for whoever turns them into rules later, so each one
//! carries enough of its transaction to write a mark from. The comments are
//! kept sorted by date, then by the transaction's key.

use vstd::prelude::*;

use crate::text::{blank, chars_of, is_blank, string_of};

verus! {

/// The transaction a comment is about, as the viewer identifies it.
#[derive(Debug, Clone, PartialEq)]
pub struct Subject {
    /// The viewer's key for the transaction.
    pub key: String,
    pub account: String,
    /// Booking date, YYYY-MM-DD.
    pub date: String,
    /// Signed, as in the statement: negative is money out.
    pub amount: String,
    /// The descriptor key the tables are matched against.
    pub descriptor: String,
    /// The free-text field as the statement has it.
    pub text: String,
    /// The bank's own identifier, when the statement carries one.
    pub reference: Option<String>,
}

#[derive(Debug, Clone, PartialEq)]
pub struct Comment {
    pub subject: Subject,
    pub comment: String,
    /// When the comment was last changed, RFC 3339.
    pub updated: String,
}

pub struct SubjectView {
    pub key: Seq<char>,
    pub account: Seq<char>,
    pub date: Seq<char>,
    pub amount: Seq<char>,
    pub descriptor: Seq<char>,
    pub text: Seq<char>,
    pub reference: Option<Seq<char>>,
}

pub struct CommentView {
    pub subject: SubjectView,
    pub comment: Seq<char>,
    pub updated: Seq<char>,
}

impl View for Subject {
    type V = SubjectView;

    open spec fn view(&self) -> SubjectView {
        SubjectView {
            key: self.key@,
            account: self.account@,
            date: self.date@,
            amount: self.amount@,
            descriptor: self.descriptor@,
            text: self.text@,
            reference: match self.reference {
                Some(r) => Some(r@),
                None => None,
            },
        }
    }
}

impl View for Comment {
    type V = CommentView;

    open spec fn view(&self) -> CommentView {
        CommentView { subject: self.subject@, comment: self.comment@, updated: self.updated@ }
    }
}

pub open spec fn comment_views(s: Seq<Comment>) -> Seq<CommentView> {
    s.map_values(|c: Comment| c@)
}

/// `a` sorts before `b`, character by character, as `str`'s ordering has
/// it (UTF-8 byte order is code point order).
pub open spec fn text_lt(a: Seq<char>, b: Seq<char>) -> bool
    decreases a.len(),
{
    if a.len() == 0 {
        b.len() > 0
    } else if b.len() == 0 {
        false
    } else if a[0] < b[0] {
        true
    } else if a[0] > b[0] {
        false
    } else {
        text_lt(a.drop_first(), b.drop_first())
    }
}

/// Comments are ordered by date, then by key.
pub open spec fn comment_lt(a: CommentView, b: CommentView) -> bool {
    text_lt(a.subject.date, b.subject.date) || (a.subject.date == b.subject.date && text_lt(
        a.subject.key,
        b.subject.key,
    ))
}

/// Where a comment goes among sorted ones: after every one that does not
/// sort after it, so equals keep their order.
pub open spec fn place_of(s: Seq<CommentView>, c: CommentView) -> int
    decreases s.len(),
{
    if s.len() == 0 {
        0
    } else if comment_lt(c, s[0]) {
        0
    } else {
        1 + place_of(s.drop_first(), c)
    }
}

/// The comments sorted by date and key, equals in their order.
pub open spec fn sorted_comments(s: Seq<CommentView>) -> Seq<CommentView>
    decreases s.len(),
{
    if s.len() == 0 {
        s
    } else {
        let sorted = sorted_comments(s.drop_last());
        let k = place_of(sorted, s.last());
        sorted.take(k).push(s.last()) + sorted.skip(k)
    }
}

/// The comments on other transactions than `key`, in order.
pub open spec fn others(s: Seq<CommentView>, key: Seq<char>) -> Seq<CommentView>
    decreases s.len(),
{
    if s.len() == 0 {
        s
    } else if s.last().subject.key == key {
        others(s.drop_last(), key)
    } else {
        others(s.drop_last(), key).push(s.last())
    }
}

/// The comments once `text` is set against the subject: any earlier
/// comment on the same transaction gone, the new one added unless it is
/// blank, and the whole sorted.
pub open spec fn upserted(s: Seq<CommentView>, subject: SubjectView, text: Seq<char>, now: Seq<char>) -> Seq<
    CommentView,
> {
    let kept = others(s, subject.key);
    let with = if is_blank(text) {
        kept
    } else {
        kept.push(CommentView { subject, comment: text, updated: now })
    };
    sorted_comments(with)
}

pub fn compare_text(a: &str, b: &str) -> (r: bool)
    ensures
        r == text_lt(a@, b@),
{
    let x = chars_of(a);
    let y = chars_of(b);
    let mut i: usize = 0;
    assert(x@.skip(0) =~= x@);
    assert(y@.skip(0) =~= y@);
    while i < x.len() && i < y.len() && x[i] == y[i]
        invariant
            i <= x@.len(),
            i <= y@.len(),
            text_lt(a@, b@) == text_lt(x@.skip(i as int), y@.skip(i as int)),
            x@ == a@,
            y@ == b@,
        decreases x.len() - i,
    {
        assert(x@.skip(i as int).drop_first() =~= x@.skip(i + 1));
        assert(y@.skip(i as int).drop_first() =~= y@.skip(i + 1));
        i = i + 1;
    }
    if i == x.len() {
        i < y.len()
    } else if i == y.len() {
        false
    } else {
        assert(x@.skip(i as int)[0] == x@[i as int]);
        assert(y@.skip(i as int)[0] == y@[i as int]);
        assert(x@.skip(i as int).len() > 0 && y@.skip(i as int).len() > 0);
        x[i] < y[i]
    }
}

fn before(a: &Comment, b: &Comment) -> (r: bool)
    ensures
        r == comment_lt(a@, b@),
{
    compare_text(a.subject.date.as_str(), b.subject.date.as_str()) || (crate::text::str_eq(
        a.subject.date.as_str(),
        b.subject.date.as_str(),
    ) && compare_text(a.subject.key.as_str(), b.subject.key.as_str()))
}

proof fn lemma_place(s: Seq<CommentView>, c: CommentView, i: int)
    requires
        0 <= i <= s.len(),
        i < s.len() ==> comment_lt(c, s[i]),
        forall|j: int| 0 <= j < i ==> !comment_lt(c, #[trigger] s[j]),
    ensures
        place_of(s, c) == i,
    decreases s.len(),
{
    if s.len() > 0 && i > 0 {
        assert forall|j: int| 0 <= j < i - 1 implies !comment_lt(c, #[trigger] s.drop_first()[j]) by {
            assert(s.drop_first()[j] == s[j + 1]);
        }
        lemma_place(s.drop_first(), c, i - 1);
    }
}

fn copy_text(s: &String) -> (r: String)
    ensures
        r == *s,
{
    s.clone()
}

fn copy_comment(c: &Comment) -> (r: Comment)
    ensures
        r@ == c@,
{
    Comment {
        subject: Subject {
            key: copy_text(&c.subject.key),
            account: copy_text(&c.subject.account),
            date: copy_text(&c.subject.date),
            amount: copy_text(&c.subject.amount),
            descriptor: copy_text(&c.subject.descriptor),
            text: copy_text(&c.subject.text),
            reference: match &c.subject.reference {
                Some(r) => Some(copy_text(r)),
                None => None,
            },
        },
        comment: copy_text(&c.comment),
        updated: copy_text(&c.updated),
    }
}

/// Sorts by date and key, keeping equals in their order.
fn sort_comments(v: Vec<Comment>) -> (r: Vec<Comment>)
    ensures
        comment_views(r@) == sorted_comments(comment_views(v@)),
{
    let ghost all = comment_views(v@);
    let mut sorted: Vec<Comment> = Vec::new();
    let mut i: usize = 0;
    assert(all.take(0) =~= Seq::<CommentView>::empty());
    assert(comment_views(sorted@) =~= Seq::<CommentView>::empty());
    while i < v.len()
        invariant
            i <= v@.len(),
            all == comment_views(v@),
            comment_views(sorted@) == sorted_comments(all.take(i as int)),
        decreases v.len() - i,
    {
        let ghost s = comment_views(sorted@);
        assert(all.take(i + 1).drop_last() =~= all.take(i as int));
        assert(all.take(i + 1).last() == v@[i as int]@);
        let c = &v[i];
        let mut k: usize = 0;
        while k < sorted.len() && !before(c, &sorted[k])
            invariant
                k <= sorted@.len(),
                s == comment_views(sorted@),
                forall|j: int| 0 <= j < k ==> !comment_lt(c@, #[trigger] s[j]),
            decreases sorted.len() - k,
        {
            assert(s[k as int] == sorted@[k as int]@);
            k = k + 1;
        }
        proof {
            if k < sorted@.len() {
                assert(s[k as int] == sorted@[k as int]@);
            }
            lemma_place(s, c@, k as int);
        }
        let ghost old_sorted = sorted@;
        sorted.insert(k, copy_comment(c));
        assert(comment_views(sorted@) =~= s.take(k as int).push(c@) + s.skip(k as int)) by {
            assert forall|j: int| 0 <= j < sorted@.len() implies comment_views(sorted@)[j] == (
            s.take(k as int).push(c@) + s.skip(k as int))[j] by {
                if j < k {
                    assert(sorted@[j] == old_sorted[j]);
                } else if j > k {
                    assert(sorted@[j] == old_sorted[j - 1]);
                }
            }
        }
        i = i + 1;
    }
    assert(all.take(i as int) =~= all);
    sorted
}

/// Sets the comment on one transaction, or removes it when `text` is
/// blank; `now` is when, in RFC 3339. Every other comment stays, and the
/// result is sorted by date and key.
pub fn upsert(comments: Vec<Comment>, subject: Subject, text: &str, now: &str) -> (r: Vec<Comment>)
    ensures
        comment_views(r@) == upserted(comment_views(comments@), subject@, text@, now@),
{
    let ghost key = subject.key@;
    let ghost all = comment_views(comments@);
    let mut kept: Vec<Comment> = Vec::new();
    let mut i: usize = 0;
    assert(all.take(0) =~= Seq::<CommentView>::empty());
    assert(comment_views(kept@) =~= Seq::<CommentView>::empty());
    while i < comments.len()
        invariant
            i <= comments@.len(),
            all == comment_views(comments@),
            key == subject.key@,
            comment_views(kept@) == others(all.take(i as int), key),
        decreases comments.len() - i,
    {
        assert(all.take(i + 1).drop_last() =~= all.take(i as int));
        assert(all.take(i + 1).last() == comments@[i as int]@);
        if !crate::text::str_eq(comments[i].subject.key.as_str(), subject.key.as_str()) {
            let ghost before_views = comment_views(kept@);
            let c = copy_comment(&comments[i]);
            kept.push(c);
            assert(comment_views(kept@) =~= before_views.push(comments@[i as int]@));
        }
        i = i + 1;
    }
    assert(all.take(i as int) =~= all);
    if !blank(&chars_of(text)) {
        let ghost before_views = comment_views(kept@);
        let ghost sv = subject@;
        let c = Comment {
            subject,
            comment: string_of(&chars_of(text)),
            updated: string_of(&chars_of(now)),
        };
        kept.push(c);
        assert(comment_views(kept@) =~= before_views.push(
            CommentView { subject: sv, comment: text@, updated: now@ },
        ));
    }
    sort_comments(kept)
}


proof fn lemma_text_lt_irreflexive(a: Seq<char>)
    ensures
        !text_lt(a, a),
    decreases a.len(),
{
    if a.len() > 0 {
        lemma_text_lt_irreflexive(a.drop_first());
    }
}

proof fn lemma_text_lt_transitive(a: Seq<char>, b: Seq<char>, c: Seq<char>)
    requires
        text_lt(a, b),
        text_lt(b, c),
    ensures
        text_lt(a, c),
    decreases a.len(),
{
    if a.len() > 0 && b.len() > 0 && c.len() > 0 && a[0] == b[0] && b[0] == c[0] {
        lemma_text_lt_transitive(a.drop_first(), b.drop_first(), c.drop_first());
    }
}

proof fn lemma_comment_lt_order(a: CommentView, b: CommentView, c: CommentView)
    ensures
        !comment_lt(a, a),
        comment_lt(a, b) && comment_lt(b, c) ==> comment_lt(a, c),
{
    lemma_text_lt_irreflexive(a.subject.date);
    lemma_text_lt_irreflexive(a.subject.key);
    if comment_lt(a, b) && comment_lt(b, c) {
        if text_lt(a.subject.date, b.subject.date) && text_lt(b.subject.date, c.subject.date) {
            lemma_text_lt_transitive(a.subject.date, b.subject.date, c.subject.date);
        }
        if a.subject.date == b.subject.date && b.subject.date == c.subject.date {
            lemma_text_lt_transitive(a.subject.key, b.subject.key, c.subject.key);
        }
    }
}

proof fn lemma_place_facts(s: Seq<CommentView>, c: CommentView)
    ensures
        0 <= place_of(s, c) <= s.len(),
        place_of(s, c) < s.len() ==> comment_lt(c, s[place_of(s, c)]),
        forall|j: int| 0 <= j < place_of(s, c) ==> !comment_lt(c, #[trigger] s[j]),
    decreases s.len(),
{
    if s.len() > 0 && !comment_lt(c, s[0]) {
        lemma_place_facts(s.drop_first(), c);
        assert forall|j: int| 0 <= j < place_of(s, c) implies !comment_lt(c, #[trigger] s[j]) by {
            if j > 0 {
                assert(s[j] == s.drop_first()[j - 1]);
            }
        }
    }
}

/// No comment sorts before one that comes ahead of it.
pub open spec fn in_order(s: Seq<CommentView>) -> bool {
    forall|i: int, j: int| 0 <= i < j < s.len() ==> !comment_lt(#[trigger] s[j], #[trigger] s[i])
}

proof fn lemma_sorted_facts(s: Seq<CommentView>)
    ensures
        in_order(sorted_comments(s)),
        forall|x: CommentView| #[trigger] sorted_comments(s).contains(x) <==> s.contains(x),
    decreases s.len(),
{
    if s.len() > 0 {
        let q = sorted_comments(s.drop_last());
        let c = s.last();
        lemma_sorted_facts(s.drop_last());
        lemma_place_facts(q, c);
        let k = place_of(q, c);
        let t = sorted_comments(s);
        assert(t == q.take(k).push(c) + q.skip(k));
        assert(t.len() == q.len() + 1);
        assert forall|i: int| 0 <= i < t.len() implies #[trigger] t[i] == if i < k {
            q[i]
        } else if i == k {
            c
        } else {
            q[i - 1]
        } by {}
        assert forall|i: int, j: int| 0 <= i < j < t.len() implies !comment_lt(#[trigger] t[j], #[trigger] t[i]) by {
            lemma_comment_lt_order(c, c, c);
            if j < k {
            } else if j == k {
            } else if i == k {
                lemma_comment_lt_order(q[j - 1], c, q[k]);
                lemma_comment_lt_order(q[k], q[k], q[k]);
            } else if i < k {
            } else {
            }
        }
        assert forall|x: CommentView| #[trigger] t.contains(x) <==> s.contains(x) by {
            if t.contains(x) {
                let i = choose|i: int| 0 <= i < t.len() && t[i] == x;
                if i == k {
                    assert(s[s.len() - 1] == x);
                } else {
                    let j = if i < k {
                        i
                    } else {
                        i - 1
                    };
                    assert(q[j] == x);
                    assert(q.contains(x));
                    assert(s.drop_last().contains(x));
                    let m = choose|m: int| 0 <= m < s.drop_last().len() && s.drop_last()[m] == x;
                    assert(s[m] == x);
                }
            }
            if s.contains(x) {
                let m = choose|m: int| 0 <= m < s.len() && s[m] == x;
                if m == s.len() - 1 {
                    assert(t[k] == x);
                } else {
                    assert(s.drop_last()[m] == x);
                    assert(s.drop_last().contains(x));
                    assert(q.contains(x));
                    let j = choose|j: int| 0 <= j < q.len() && q[j] == x;
                    if j < k {
                        assert(t[j] == x);
                    } else {
                        assert(t[j + 1] == x);
                    }
                }
            }
        }
    }
}

proof fn lemma_others_contains(s: Seq<CommentView>, key: Seq<char>)
    ensures
        forall|x: CommentView| #[trigger] others(s, key).contains(x) <==> (s.contains(x) && x.subject.key != key),
    decreases s.len(),
{
    if s.len() > 0 {
        lemma_others_contains(s.drop_last(), key);
        let o = others(s, key);
        let p = others(s.drop_last(), key);
        assert forall|x: CommentView| #[trigger] o.contains(x) <==> (s.contains(x) && x.subject.key != key) by {
            if o.contains(x) {
                let i = choose|i: int| 0 <= i < o.len() && o[i] == x;
                if s.last().subject.key != key && i == p.len() {
                    assert(s[s.len() - 1] == x);
                } else {
                    assert(p[i] == x);
                    assert(p.contains(x));
                    let m = choose|m: int| 0 <= m < s.drop_last().len() && s.drop_last()[m] == x;
                    assert(s[m] == x);
                }
            }
            if s.contains(x) && x.subject.key != key {
                let m = choose|m: int| 0 <= m < s.len() && s[m] == x;
                if m == s.len() - 1 {
                    assert(o[o.len() - 1] == x);
                } else {
                    assert(s.drop_last()[m] == x);
                    assert(p.contains(x));
                    let i = choose|i: int| 0 <= i < p.len() && p[i] == x;
                    assert(o[i] == x);
                }
            }
        }
    }
}

/// The comments after setting one come out in order, by date and then by
/// transaction.
pub proof fn law_upsert_keeps_order(s: Seq<CommentView>, subject: SubjectView, text: Seq<char>, now: Seq<char>)
    ensures
        in_order(upserted(s, subject, text, now)),
{
    let kept = others(s, subject.key);
    let with = if is_blank(text) {
        kept
    } else {
        kept.push(CommentView { subject, comment: text, updated: now })
    };
    lemma_sorted_facts(with);
}

/// What was set is what is read back: after setting a comment that is not
/// blank, the transaction has that comment and no other; after setting a
/// blank one, it has none. Comments on other transactions stay as they
/// were, and none is made up.
pub proof fn law_upsert_reads_back(s: Seq<CommentView>, subject: SubjectView, text: Seq<char>, now: Seq<char>)
    ensures
        ({
            let r = upserted(s, subject, text, now);
            let written = CommentView { subject, comment: text, updated: now };
            &&& !is_blank(text) ==> r.contains(written)
            &&& forall|x: CommentView| #[trigger] r.contains(x) && x.subject.key == subject.key ==> !is_blank(text) && x == written
            &&& forall|x: CommentView| x.subject.key != subject.key ==> (#[trigger] r.contains(x) <==> s.contains(x))
        }),
{
    let kept = others(s, subject.key);
    let written = CommentView { subject, comment: text, updated: now };
    let with = if is_blank(text) {
        kept
    } else {
        kept.push(written)
    };
    lemma_others_contains(s, subject.key);
    lemma_sorted_facts(with);
    if !is_blank(text) {
        assert(with[with.len() - 1] == written);
        assert(with.contains(written));
        assert forall|x: CommentView| #[trigger] with.contains(x) <==> (kept.contains(x) || x == written) by {
            if with.contains(x) {
                let i = choose|i: int| 0 <= i < with.len() && with[i] == x;
                if i < kept.len() {
                    assert(kept[i] == x);
                }
            }
            if kept.contains(x) {
                let i = choose|i: int| 0 <= i < kept.len() && kept[i] == x;
                assert(with[i] == x);
            }
        }
    }
}

} // verus!
