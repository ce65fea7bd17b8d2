//! Categories are slash paths: `car` is a category, and so is `car/fuel`,
//! which sits inside it. Ancestry goes by whole segments, so `car` holds
//! `car/fuel` but not `carpets`.

use vstd::prelude::*;

use crate::text::{chars_eq, chars_of, count_char, find_char, first_index, lemma_first_index, starts_with};

verus! {

/// The top-level categories that move money rather than spend it.
pub open spec fn not_spending(top: Seq<char>) -> bool {
    ||| top == seq!['t', 'r', 'a', 'n', 's', 'f', 'e', 'r']
    ||| top == seq!['i', 'n', 'c', 'o', 'm', 'e']
    ||| top == seq!['r', 'e', 'f', 'u', 'n', 'd', 's']
}

/// The first segment: everything before the first `/`.
pub open spec fn top_of(category: Seq<char>) -> Seq<char> {
    category.take(first_index(category, '/'))
}

/// How many segments deep: one more than the number of slashes.
pub open spec fn depth_of(category: Seq<char>) -> nat {
    count_char(category, '/') + 1
}

/// `category` is `ancestor` or lies below it, by whole segments.
pub open spec fn within(category: Seq<char>, ancestor: Seq<char>) -> bool {
    &&& ancestor.len() > 0
    &&& ancestor.len() <= category.len()
    &&& category.take(ancestor.len() as int) == ancestor
    &&& (category.len() == ancestor.len() || category[ancestor.len() as int] == '/')
}

pub open spec fn spending(category: Seq<char>) -> bool {
    !not_spending(top_of(category))
}

/// The first segment: `car` for `car/fuel`.
pub fn top(category: &str) -> (r: &str)
    ensures
        r@ == top_of(category@),
{
    let cs = chars_of(category);
    let end = find_char(&cs, '/');
    proof {
        lemma_first_index(cs@, '/');
    }
    category.substring_char(0, end)
}

/// How many segments deep: 1 for `car`, 2 for `car/fuel`.
pub fn depth(category: &str) -> (r: usize)
    requires
        category@.len() < usize::MAX,
    ensures
        r == depth_of(category@),
{
    let cs = chars_of(category);
    let mut count: usize = 0;
    let mut i: usize = 0;
    while i < cs.len()
        invariant
            0 <= i <= cs.len(),
            count == count_char(cs@.take(i as int), '/'),
            count <= i,
            cs@.len() < usize::MAX,
        decreases cs.len() - i,
    {
        assert(cs@.take(i + 1).drop_last() =~= cs@.take(i as int));
        if cs[i] == '/' {
            count = count + 1;
        }
        i = i + 1;
    }
    assert(cs@.take(i as int) =~= cs@);
    count + 1
}

/// Whether `category` is `ancestor` or lies somewhere below it.
pub fn is_within(category: &str, ancestor: &str) -> (r: bool)
    ensures
        r == within(category@, ancestor@),
{
    let c = chars_of(category);
    let a = chars_of(ancestor);
    if a.len() == 0 {
        return false;
    }
    if !starts_with(&c, &a) {
        return false;
    }
    c.len() == a.len() || c[a.len()] == '/'
}

/// Whether money in this category counts as spending. Uncategorised does.
pub fn is_spending(category: &str) -> (r: bool)
    ensures
        r == spending(category@),
{
    let t = chars_of(top(category));
    let transfer = ['t', 'r', 'a', 'n', 's', 'f', 'e', 'r'];
    let income = ['i', 'n', 'c', 'o', 'm', 'e'];
    let refunds = ['r', 'e', 'f', 'u', 'n', 'd', 's'];
    let hit = chars_eq(&t, &transfer) || chars_eq(&t, &income) || chars_eq(&t, &refunds);
    assert(transfer@ =~= seq!['t', 'r', 'a', 'n', 's', 'f', 'e', 'r']);
    assert(income@ =~= seq!['i', 'n', 'c', 'o', 'm', 'e']);
    assert(refunds@ =~= seq!['r', 'e', 'f', 'u', 'n', 'd', 's']);
    !hit
}


/// Every category lies within itself.
pub proof fn law_within_is_reflexive(category: Seq<char>)
    requires
        category.len() > 0,
    ensures
        within(category, category),
{
    assert(category.take(category.len() as int) =~= category);
}

/// A category lies within its first segment, when that segment is not
/// empty.
pub proof fn law_within_its_top(category: Seq<char>)
    requires
        top_of(category).len() > 0,
    ensures
        within(category, top_of(category)),
{
    lemma_first_index(category, '/');
    let t = top_of(category);
    assert(category.take(t.len() as int) =~= t);
}

/// Lying within goes through: what lies within `b` lies within whatever
/// `b` lies within.
pub proof fn law_within_is_transitive(a: Seq<char>, b: Seq<char>, c: Seq<char>)
    requires
        within(a, b),
        within(b, c),
    ensures
        within(a, c),
{
    assert(a.take(c.len() as int) =~= b.take(c.len() as int));
    if a.len() > c.len() {
        if b.len() == c.len() {
            assert(a[c.len() as int] == '/');
        } else {
            assert(a[c.len() as int] == a.take(b.len() as int)[c.len() as int]);
            assert(b[c.len() as int] == '/');
        }
    }
}

/// Ancestry goes by whole segments: a category never lies within a
/// longer name that merely starts with it, nor within one that its own
/// name merely starts with unless a `/` follows.
pub proof fn law_within_by_whole_segments(category: Seq<char>, ancestor: Seq<char>)
    requires
        ancestor.len() > 0,
        ancestor.len() < category.len(),
        category.take(ancestor.len() as int) == ancestor,
        category[ancestor.len() as int] != '/',
    ensures
        !within(category, ancestor),
{
}

} // verus!
