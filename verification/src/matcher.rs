//! Turning a pile of merchant tables into something that can answer
//! "who is `KVARNBY LIVS`?".
//!
//! A descriptor is normalised (upper case, whitespace runs collapsed) and
//! matched against every rule. The most specific hit wins: a rule with an
//! amount condition beats one without, then exact beats prefix beats
//! contains beats regex, then the longer pattern, then the later table;
//! among rules equal on all of that, the first.

use vstd::prelude::*;

use crate::amount::{amount_of, amount_text, Amount};
use crate::mapping::{AmountCondition, Match, Merchant, StripPrefix, Table};
use crate::pattern::{regex_find_len, regex_match_len, regex_valid};
use crate::text::{
    chars_eq, chars_of, debug_quoted, debug_quoted_spec, is_whitespace, is_ws, push_chars,
    push_str, slice_vec, starts_with, string_of, trim_start, trim_start_index,
};

verus! {

// ---- normalisation ----------------------------------------------------

/// The upper-case mapping of a character outside ASCII, one or more
/// characters long.
pub uninterp spec fn upper_of(c: char) -> Seq<char>;

/// The upper-case mapping of a character: `a` to `z` become `A` to `Z`,
/// the rest of ASCII stays as it is, and beyond ASCII it is Unicode's.
pub open spec fn upper(c: char) -> Seq<char> {
    if 'a' <= c && c <= 'z' {
        seq![((c as int) - 32) as char]
    } else if (c as int) < 128 {
        seq![c]
    } else {
        upper_of(c)
    }
}

/// `char::to_uppercase`: the Unicode upper-case mapping. The claim: ASCII
/// letters `a` to `z` map to `A` to `Z`, every other ASCII character to
/// itself, and beyond ASCII Unicode's tables, which are named here rather
/// than stated.
#[verifier::external_body]
pub(crate) fn to_upper(c: char) -> (r: Vec<char>)
    ensures
        'a' <= c && c <= 'z' ==> r@ == seq![((c as int) - 32) as char],
        !('a' <= c && c <= 'z') && (c as int) < 128 ==> r@ == seq![c],
        (c as int) >= 128 ==> r@ == upper_of(c),
{
    c.to_uppercase().collect()
}

/// The normalised text so far, and whether a space is owed before the
/// next character.
pub open spec fn norm_state(s: Seq<char>) -> (Seq<char>, bool)
    decreases s.len(),
{
    if s.len() == 0 {
        (Seq::empty(), false)
    } else {
        let (out, pending) = norm_state(s.drop_last());
        let c = s.last();
        if is_ws(c) {
            (out, out.len() > 0)
        } else {
            let spaced = if pending {
                out.push(' ')
            } else {
                out
            };
            (spaced + upper(c), false)
        }
    }
}

/// Upper case, with each run of whitespace collapsed to one space and
/// none at the start; a run at the end is dropped, or kept as one space
/// when asked to.
pub open spec fn normalized_text(s: Seq<char>, keep_trailing_space: bool) -> Seq<char> {
    let (out, pending) = norm_state(s);
    if keep_trailing_space && pending {
        out.push(' ')
    } else {
        out
    }
}

fn normalize_inner(text: &str, keep_trailing_space: bool) -> (r: String)
    ensures
        r@ == normalized_text(text@, keep_trailing_space),
{
    let cs = chars_of(text);
    let mut out: Vec<char> = Vec::new();
    let mut pending = false;
    let mut i: usize = 0;
    while i < cs.len()
        invariant
            i <= cs@.len(),
            (out@, pending) == norm_state(cs@.take(i as int)),
        decreases cs.len() - i,
    {
        assert(cs@.take(i + 1).drop_last() =~= cs@.take(i as int));
        let c = cs[i];
        if is_whitespace(c) {
            pending = out.len() > 0;
        } else {
            if pending {
                out.push(' ');
                pending = false;
            }
            let up = to_upper(c);
            push_chars(&mut out, &up);
        }
        i = i + 1;
    }
    assert(cs@.take(i as int) =~= cs@);
    if keep_trailing_space && pending {
        out.push(' ');
    }
    string_of(&out)
}

/// Normalises a descriptor for matching: upper case, and runs of
/// whitespace collapsed to one space. Diacritics are left alone: folding
/// them would merge names that are genuinely different.
pub fn normalize(text: &str) -> (r: String)
    ensures
        r@ == normalized_text(text@, false),
{
    normalize_inner(text, false)
}

/// Normalises a pattern out of a merchant table: as `normalize`, except
/// that a trailing space is kept, since it is the only word boundary the
/// table syntax has.
pub fn normalize_pattern(text: &str) -> (r: String)
    ensures
        r@ == normalized_text(text@, true),
{
    normalize_inner(text, true)
}

/// Normalised text: ASCII, no lower-case letter, no whitespace but
/// single spaces between words, none at the start.
pub open spec fn tidy(t: Seq<char>) -> bool {
    &&& forall|i: int|
        0 <= i < t.len() ==> (#[trigger] t[i] as int) < 128 && !('a' <= t[i] && t[i] <= 'z') && (
        is_ws(t[i]) ==> t[i] == ' ')
    &&& t.len() > 0 ==> t[0] != ' '
    &&& forall|i: int, j: int|
        #![trigger t[i], t[j]]
        0 <= i && j == i + 1 && j < t.len() ==> !(t[i] == ' ' && t[j] == ' ')
}

/// Normalising ASCII text gives tidy text that does not end in a space,
/// and a space is owed only after something.
proof fn lemma_norm_tidy(s: Seq<char>)
    requires
        forall|i: int| 0 <= i < s.len() ==> (#[trigger] s[i] as int) < 128,
    ensures
        tidy(norm_state(s).0),
        norm_state(s).0.len() > 0 ==> norm_state(s).0.last() != ' ',
        norm_state(s).1 ==> norm_state(s).0.len() > 0,
    decreases s.len(),
{
    if s.len() > 0 {
        let u = s.drop_last();
        assert forall|i: int| 0 <= i < u.len() implies (#[trigger] u[i] as int) < 128 by {
            assert(u[i] == s[i]);
        }
        lemma_norm_tidy(u);
        let (out, pending) = norm_state(u);
        let c = s.last();
        assert((s[s.len() - 1] as int) < 128);
        if !is_ws(c) {
            let spaced = if pending {
                out.push(' ')
            } else {
                out
            };
            assert(tidy(spaced)) by {
                if pending {
                    assert(spaced[out.len() as int] == ' ');
                    assert forall|i: int| 0 <= i < out.len() implies spaced[i] == out[i] by {}
                    assert(out[out.len() - 1] != ' ');
                }
            }
            let up = upper(c);
            assert(up.len() == 1);
            assert(up[0] != ' ' && !is_ws(up[0]) && (up[0] as int) < 128 && !('a' <= up[0] && up[0] <= 'z'));
            let t = spaced + up;
            assert(t[t.len() - 1] == up[0]);
            assert forall|i: int| 0 <= i < spaced.len() implies t[i] == spaced[i] by {}
            assert(tidy(t)) by {
                assert forall|i: int| 0 <= i < t.len() implies (#[trigger] t[i] as int) < 128 && !('a' <= t[i] && t[i] <= 'z') && (
                    is_ws(t[i]) ==> t[i] == ' ') by {
                    if i < spaced.len() {
                        assert(t[i] == spaced[i]);
                    }
                }
                assert forall|i: int, j: int|
                    0 <= i && j == i + 1 && j < t.len() implies !(#[trigger] t[i] == ' ' && #[trigger] t[j] == ' ') by {
                    if j < spaced.len() {
                        assert(t[i] == spaced[i] && t[j] == spaced[j]);
                    }
                }
                if spaced.len() > 0 {
                    assert(t[0] == spaced[0]);
                }
            }
        }
    }
}

/// Normalising tidy text leaves it as it is, owing a space when it ended
/// in one.
proof fn lemma_norm_fixed(t: Seq<char>)
    requires
        tidy(t),
    ensures
        norm_state(t) == (if t.len() > 0 && t.last() == ' ' {
            (t.drop_last(), true)
        } else {
            (t, false)
        }),
    decreases t.len(),
{
    if t.len() > 0 {
        let u = t.drop_last();
        assert(tidy(u)) by {
            assert forall|i: int| 0 <= i < u.len() implies (#[trigger] u[i] as int) < 128 && !('a' <= u[i] && u[i] <= 'z') && (
                is_ws(u[i]) ==> u[i] == ' ') by {
                assert(u[i] == t[i]);
            }
            assert forall|i: int, j: int|
                0 <= i && j == i + 1 && j < u.len() implies !(#[trigger] u[i] == ' ' && #[trigger] u[j] == ' ') by {
                assert(u[i] == t[i] && u[j] == t[j]);
            }
            if u.len() > 0 {
                assert(u[0] == t[0]);
            }
        }
        lemma_norm_fixed(u);
        let c = t.last();
        assert(c == t[t.len() - 1]);
        assert((c as int) < 128 && !('a' <= c && c <= 'z'));
        if u.len() > 0 {
            assert(u.last() == t[t.len() - 2]);
        }
        if c == ' ' {
            assert(u.len() > 0);
            assert(!(t[t.len() - 2] == ' ' && t[t.len() - 1] == ' '));
        } else {
            assert(!is_ws(c));
            assert(upper(c) =~= seq![c]);
            if u.len() > 0 && u.last() == ' ' {
                assert(u.drop_last().push(' ') =~= u);
            }
            assert(t =~= u + seq![c]);
        }
    }
}

/// Normalising twice gives what normalising once gave, for ASCII text.
pub proof fn law_normalize_is_idempotent(s: Seq<char>)
    requires
        forall|i: int| 0 <= i < s.len() ==> (#[trigger] s[i] as int) < 128,
    ensures
        normalized_text(normalized_text(s, false), false) == normalized_text(s, false),
{
    lemma_norm_tidy(s);
    lemma_norm_fixed(norm_state(s).0);
}

// ---- rules ------------------------------------------------------------

#[derive(Debug, Clone, Copy, PartialEq, Eq, Structural)]
pub enum KindRank {
    Regex,
    Contains,
    Prefix,
    Exact,
}

pub open spec fn rank(k: KindRank) -> int {
    match k {
        KindRank::Regex => 0,
        KindRank::Contains => 1,
        KindRank::Prefix => 2,
        KindRank::Exact => 3,
    }
}

impl KindRank {
    pub fn label(self) -> (r: &'static str)
        ensures
            r@ == match self {
                KindRank::Regex => "regex"@,
                KindRank::Contains => "contains"@,
                KindRank::Prefix => "prefix"@,
                KindRank::Exact => "exact"@,
            },
    {
        match self {
            KindRank::Regex => "regex",
            KindRank::Contains => "contains",
            KindRank::Prefix => "prefix",
            KindRank::Exact => "exact",
        }
    }
}

/// One pattern of one merchant.
#[derive(Debug, Clone)]
pub struct Rule {
    pub kind: KindRank,
    /// Normalised, except for a regular expression, kept as written.
    pub pattern: String,
    /// Inclusive bounds, when the rule applies only to some amounts.
    pub amount: Option<(Amount, Amount)>,
    /// The merchant's place among the matcher's entries.
    pub merchant: usize,
    pub table_index: usize,
}

/// A merchant as loaded, independent of the rules pointing at it.
#[derive(Debug, Clone)]
pub struct Entry {
    pub name: String,
    pub category: Option<String>,
    pub tags: Vec<String>,
    pub note: Option<String>,
    pub table: String,
}

/// A resolved merchant.
#[derive(Debug, Clone)]
pub struct Hit {
    pub name: String,
    pub category: Option<String>,
    pub tags: Vec<String>,
    /// The payment provider the descriptor was routed through, when the
    /// merchant was only found after stripping its prefix.
    pub via: Option<String>,
    pub note: Option<String>,
    /// Which table and rule produced the hit, for `--explain`.
    pub table: String,
    pub rule: String,
}

pub struct Matcher {
    pub rules: Vec<Rule>,
    pub entries: Vec<Entry>,
    pub strip_prefixes: Vec<StripPrefix>,
    pub table_names: Vec<String>,
}

/// The number of bytes `s` takes in UTF-8, as `str::len` counts.
pub open spec fn byte_len(s: Seq<char>) -> usize {
    vstd::utf8::encode_utf8(s).len() as usize
}

/// `p` occurs somewhere in `t`.
pub open spec fn occurs_in(p: Seq<char>, t: Seq<char>) -> bool {
    exists|i: int| 0 <= i && i + p.len() <= t.len() && #[trigger] t.subrange(i, i + p.len()) == p
}

/// How many bytes of the descriptor the rule accounted for, or nothing
/// when it does not match.
pub open spec fn match_len(rule: Rule, t: Seq<char>) -> Option<usize> {
    let p = rule.pattern@;
    match rule.kind {
        KindRank::Exact => if t == p {
            Some(byte_len(p))
        } else {
            None
        },
        KindRank::Prefix => if p.len() <= t.len() && t.take(p.len() as int) == p {
            Some(byte_len(p))
        } else {
            None
        },
        KindRank::Contains => if occurs_in(p, t) {
            Some(byte_len(p))
        } else {
            None
        },
        KindRank::Regex => match regex_find_len(p, t) {
            Some(n) => Some(n as usize),
            None => None,
        },
    }
}

/// The rule's amount condition admits the transaction's amount.
pub open spec fn allows(rule: Rule, amount: Option<Amount>) -> bool {
    match rule.amount {
        None => true,
        Some((low, high)) => match amount {
            Some(a) => low.0 <= a.0 && a.0 <= high.0,
            None => false,
        },
    }
}

/// Whether rule `a`, having matched `alen` bytes, is more specific than
/// rule `b` having matched `blen`: by amount condition, then kind, then
/// length, then table.
pub open spec fn beats(a: Rule, alen: usize, b: Rule, blen: usize) -> bool {
    let aa = a.amount is Some;
    let ba = b.amount is Some;
    ||| (aa && !ba)
    ||| (aa == ba && rank(a.kind) > rank(b.kind))
    ||| (aa == ba && rank(a.kind) == rank(b.kind) && alen > blen)
    ||| (aa == ba && rank(a.kind) == rank(b.kind) && alen == blen && a.table_index
        > b.table_index)
}

/// The rule applies to the text at this amount.
pub open spec fn applies(rule: Rule, t: Seq<char>, amount: Option<Amount>) -> bool {
    match_len(rule, t) is Some && allows(rule, amount)
}

/// `i` is the most specific rule that applies, the first of equals.
pub open spec fn is_best_rule(rules: Seq<Rule>, t: Seq<char>, amount: Option<Amount>, i: int) -> bool {
    &&& 0 <= i < rules.len()
    &&& applies(rules[i], t, amount)
    &&& forall|j: int|
        #![trigger rules[j]]
        0 <= j < rules.len() && applies(rules[j], t, amount) ==> !beats(
            rules[j],
            match_len(rules[j], t)->0,
            rules[i],
            match_len(rules[i], t)->0,
        )
    &&& forall|j: int|
        #![trigger rules[j]]
        0 <= j < i && applies(rules[j], t, amount) ==> beats(
            rules[i],
            match_len(rules[i], t)->0,
            rules[j],
            match_len(rules[j], t)->0,
        )
}

pub open spec fn none_applies(rules: Seq<Rule>, t: Seq<char>, amount: Option<Amount>) -> bool {
    forall|j: int| 0 <= j < rules.len() ==> !applies(#[trigger] rules[j], t, amount)
}

/// The rule that decides a lookup of normalised text, if any applies.
pub open spec fn best_rule(rules: Seq<Rule>, t: Seq<char>, amount: Option<Amount>) -> Option<int> {
    if none_applies(rules, t, amount) {
        None
    } else {
        Some(choose|i: int| is_best_rule(rules, t, amount, i))
    }
}

proof fn lemma_best_rule_unique(
    rules: Seq<Rule>,
    t: Seq<char>,
    amount: Option<Amount>,
    i: int,
    k: int,
)
    requires
        is_best_rule(rules, t, amount, i),
        is_best_rule(rules, t, amount, k),
    ensures
        i == k,
{
    if i < k {
        assert(beats(rules[k], match_len(rules[k], t)->0, rules[i], match_len(rules[i], t)->0));
    } else if k < i {
        assert(beats(rules[i], match_len(rules[i], t)->0, rules[k], match_len(rules[k], t)->0));
    }
}

/// How the rule reads in `explain`: its kind, its pattern quoted, and its
/// amount condition.
pub open spec fn describe_of(rule: Rule) -> Seq<char> {
    let label = match rule.kind {
        KindRank::Regex => "regex"@,
        KindRank::Contains => "contains"@,
        KindRank::Prefix => "prefix"@,
        KindRank::Exact => "exact"@,
    };
    let base = label + seq![' '] + debug_quoted_spec(rule.pattern@);
    match rule.amount {
        None => base,
        Some((low, high)) => if low.0 == high.0 {
            base + " at "@ + amount_text(low.0 as int)
        } else {
            base + " at "@ + amount_text(low.0 as int) + " to "@ + amount_text(high.0 as int)
        },
    }
}

/// Whether `p` occurs in `t` at `i`.
fn matches_at(t: &[char], p: &[char], i: usize) -> (r: bool)
    requires
        i + p.len() <= t.len(),
    ensures
        r == (t@.subrange(i as int, i + p.len()) == p@),
{
    let mut j: usize = 0;
    while j < p.len()
        invariant
            i + p.len() <= t.len(),
            j <= p.len(),
            forall|k: int| 0 <= k < j ==> t@[i + k] == p@[k],
        decreases p.len() - j,
    {
        if t[i + j] != p[j] {
            assert(t@.subrange(i as int, i + p.len())[j as int] != p@[j as int]);
            return false;
        }
        j = j + 1;
    }
    assert(t@.subrange(i as int, i + p.len()) =~= p@);
    true
}

/// Whether `p` occurs anywhere in `t`, computed.
pub fn occurs(p: &[char], t: &[char]) -> (r: bool)
    ensures
        r == occurs_in(p@, t@),
{
    if p.len() > t.len() {
        return false;
    }
    let mut i: usize = 0;
    let last = t.len() - p.len();
    loop
        invariant
            p.len() <= t.len(),
            last == t.len() - p.len(),
            i <= last,
            forall|k: int| 0 <= k < i ==> #[trigger] t@.subrange(k, k + p.len()) != p@,
        decreases last - i,
    {
        if matches_at(t, p, i) {
            return true;
        }
        if i == last {
            assert forall|k: int| 0 <= k && k + p.len() <= t.len() implies #[trigger] t@.subrange(
                k,
                k + p.len(),
            ) != p@ by {}
            return false;
        }
        i = i + 1;
    }
}

impl Rule {
    /// Whether the amount condition admits the transaction's amount.
    pub fn allows(&self, amount: Option<Amount>) -> (r: bool)
        ensures
            r == allows(*self, amount),
    {
        match self.amount {
            None => true,
            Some((low, high)) => match amount {
                Some(a) => low.0 <= a.0 && a.0 <= high.0,
                None => false,
            },
        }
    }

    /// How many bytes of the descriptor the rule accounted for, or `None`
    /// if it did not match.
    pub fn matches(&self, normalized: &str) -> (r: Option<usize>)
        ensures
            r == match_len(*self, normalized@),
    {
        let t = chars_of(normalized);
        let p = chars_of(self.pattern.as_str());
        let length = self.pattern.as_str().len();
        match self.kind {
            KindRank::Exact => if chars_eq(&t, &p) {
                Some(length)
            } else {
                None
            },
            KindRank::Prefix => if starts_with(&t, &p) {
                Some(length)
            } else {
                None
            },
            KindRank::Contains => if occurs(&p, &t) {
                Some(length)
            } else {
                None
            },
            KindRank::Regex => regex_match_len(self.pattern.as_str(), normalized),
        }
    }

    /// How the rule reads in `explain`.
    pub fn describe(&self) -> (r: String)
        ensures
            r@ == describe_of(*self),
    {
        let mut out: Vec<char> = Vec::new();
        push_str(&mut out, self.kind.label());
        out.push(' ');
        let quoted = debug_quoted(self.pattern.as_str());
        push_str(&mut out, quoted.as_str());
        match self.amount {
            None => {},
            Some((low, high)) => {
                push_str(&mut out, " at ");
                let l = low.to_text();
                push_str(&mut out, l.as_str());
                if low.0 != high.0 {
                    push_str(&mut out, " to ");
                    let h = high.to_text();
                    push_str(&mut out, h.as_str());
                }
            },
        }
        let ghost label = match self.kind {
            KindRank::Regex => "regex"@,
            KindRank::Contains => "contains"@,
            KindRank::Prefix => "prefix"@,
            KindRank::Exact => "exact"@,
        };
        assert(out@ =~= describe_of(*self));
        string_of(&out)
    }
}

fn copy_strings(v: &Vec<String>) -> (r: Vec<String>)
    ensures
        r@ == v@,
{
    let mut out: Vec<String> = Vec::new();
    let mut i: usize = 0;
    while i < v.len()
        invariant
            i <= v@.len(),
            out@ == v@.take(i as int),
        decreases v.len() - i,
    {
        out.push(v[i].clone());
        i = i + 1;
        assert(out@ =~= v@.take(i as int));
    }
    assert(v@.take(i as int) =~= v@);
    out
}

fn copy_opt(v: &Option<String>) -> (r: Option<String>)
    ensures
        r == *v,
{
    match v {
        Some(s) => Some(s.clone()),
        None => None,
    }
}

/// The hit a rule gives, reached through `via` or directly.
pub open spec fn hit_is(h: Hit, m: Matcher, i: int, via: Option<Seq<char>>) -> bool {
    let rule = m.rules@[i];
    let entry = m.entries@[rule.merchant as int];
    &&& h.name == entry.name
    &&& h.category == entry.category
    &&& h.tags@ == entry.tags@
    &&& h.note == entry.note
    &&& h.table == entry.table
    &&& h.rule@ == describe_of(rule)
    &&& match h.via {
        Some(v) => via == Some(v@),
        None => via is None,
    }
}

/// Each stripped prefix to try, in order, and what follows it.
pub open spec fn lookup_stripped(
    m: Matcher,
    n: Seq<char>,
    amount: Option<Amount>,
    k: int,
) -> Option<(int, Option<Seq<char>>)>
    decreases m.strip_prefixes@.len() - k,
{
    if k < 0 || k >= m.strip_prefixes@.len() {
        None
    } else {
        let strip = m.strip_prefixes@[k];
        let p = normalized_text(strip.prefix@, true);
        let rest = trim_start(n.skip(p.len() as int));
        if p.len() > 0 && p.len() <= n.len() && n.take(p.len() as int) == p && rest.len() > 0
            && best_rule(m.rules@, rest, amount) is Some {
            Some(
                (
                    best_rule(m.rules@, rest, amount)->0,
                    match strip.provider {
                        Some(v) => Some(v@),
                        None => None,
                    },
                ),
            )
        } else {
            lookup_stripped(m, n, amount, k + 1)
        }
    }
}

/// Which rule resolves a descriptor, and through which provider: the
/// descriptor as written first, and only when nothing matches that, each
/// payment-provider prefix stripped in turn.
pub open spec fn lookup_of(m: Matcher, descriptor: Seq<char>, amount: Option<Amount>) -> Option<
    (int, Option<Seq<char>>),
> {
    let n = normalized_text(descriptor, false);
    match best_rule(m.rules@, n, amount) {
        Some(i) => Some((i, None)),
        None => lookup_stripped(m, n, amount, 0),
    }
}

/// The rules that match the text at some amount, by position.
pub open spec fn matching_rules(rules: Seq<Rule>, t: Seq<char>, n: int) -> Seq<int>
    decreases n,
{
    if n <= 0 {
        Seq::empty()
    } else if match_len(rules[n - 1], t) is Some {
        matching_rules(rules, t, n - 1).push(n - 1)
    } else {
        matching_rules(rules, t, n - 1)
    }
}

/// Where a matching rule goes among candidates sorted most specific
/// first: before the first one it beats, so equals keep their order.
pub open spec fn candidate_place(rules: Seq<Rule>, t: Seq<char>, s: Seq<int>, i: int) -> int
    decreases s.len(),
{
    if s.len() == 0 {
        0
    } else if beats(rules[i], match_len(rules[i], t)->0, rules[s[0]], match_len(rules[s[0]], t)->0) {
        0
    } else {
        1 + candidate_place(rules, t, s.drop_first(), i)
    }
}

/// The matching rules, most specific first, equals in table order.
pub open spec fn ranked(rules: Seq<Rule>, t: Seq<char>, ids: Seq<int>) -> Seq<int>
    decreases ids.len(),
{
    if ids.len() == 0 {
        ids
    } else {
        let sorted = ranked(rules, t, ids.drop_last());
        let k = candidate_place(rules, t, sorted, ids.last());
        sorted.take(k).push(ids.last()) + sorted.skip(k)
    }
}

proof fn lemma_candidate_place(rules: Seq<Rule>, t: Seq<char>, s: Seq<int>, i: int, k: int)
    requires
        0 <= k <= s.len(),
        k < s.len() ==> beats(rules[i], match_len(rules[i], t)->0, rules[s[k]], match_len(rules[s[k]], t)->0),
        forall|j: int|
            0 <= j < k ==> !beats(
                rules[i],
                match_len(rules[i], t)->0,
                rules[#[trigger] s[j]],
                match_len(rules[s[j]], t)->0,
            ),
    ensures
        candidate_place(rules, t, s, i) == k,
    decreases s.len(),
{
    if s.len() > 0 && k > 0 {
        assert forall|j: int| 0 <= j < k - 1 implies !beats(
            rules[i],
            match_len(rules[i], t)->0,
            rules[#[trigger] s.drop_first()[j]],
            match_len(rules[s.drop_first()[j]], t)->0,
        ) by {
            assert(s.drop_first()[j] == s[j + 1]);
        }
        lemma_candidate_place(rules, t, s.drop_first(), i, k - 1);
    }
}

impl Matcher {
    /// Every rule points at a loaded merchant.
    pub open spec fn well_formed(&self) -> bool {
        forall|i: int|
            0 <= i < self.rules@.len() ==> (#[trigger] self.rules@[i]).merchant
                < self.entries@.len()
    }

    pub fn table_names(&self) -> (r: &Vec<String>)
        ensures
            r == &self.table_names,
    {
        &self.table_names
    }

    pub fn merchant_count(&self) -> (r: usize)
        ensures
            r == self.entries@.len(),
    {
        self.entries.len()
    }

    pub fn rule_count(&self) -> (r: usize)
        ensures
            r == self.rules@.len(),
    {
        self.rules.len()
    }

    /// Every loaded merchant, in table order.
    pub fn merchants(&self) -> (r: &Vec<Entry>)
        ensures
            r == &self.entries,
    {
        &self.entries
    }

    fn hit(&self, i: usize, via: Option<&str>) -> (h: Hit)
        requires
            self.well_formed(),
            i < self.rules@.len(),
        ensures
            hit_is(
                h,
                *self,
                i as int,
                match via {
                    Some(v) => Some(v@),
                    None => None,
                },
            ),
    {
        let rule = &self.rules[i];
        let entry = &self.entries[rule.merchant];
        Hit {
            name: entry.name.clone(),
            category: copy_opt(&entry.category),
            tags: copy_strings(&entry.tags),
            note: copy_opt(&entry.note),
            via: match via {
                Some(v) => Some(string_of(&chars_of(v))),
                None => None,
            },
            table: entry.table.clone(),
            rule: rule.describe(),
        }
    }

    /// The most specific rule for normalised text.
    fn best(&self, normalized: &str, amount: Option<Amount>) -> (r: Option<usize>)
        ensures
            match r {
                Some(i) => best_rule(self.rules@, normalized@, amount) == Some(i as int) && i
                    < self.rules@.len(),
                None => best_rule(self.rules@, normalized@, amount) is None,
            },
    {
        let ghost rules = self.rules@;
        let ghost t = normalized@;
        let mut best: Option<usize> = None;
        let mut best_len: usize = 0;
        let mut i: usize = 0;
        while i < self.rules.len()
            invariant
                i <= rules.len(),
                rules == self.rules@,
                t == normalized@,
                match best {
                    Some(b) => {
                        &&& b < i
                        &&& applies(rules[b as int], t, amount)
                        &&& best_len == match_len(rules[b as int], t)->0
                        &&& forall|j: int|
                            #![trigger rules[j]]
                            0 <= j < i && applies(rules[j], t, amount) ==> !beats(
                                rules[j],
                                match_len(rules[j], t)->0,
                                rules[b as int],
                                best_len,
                            )
                        &&& forall|j: int|
                            #![trigger rules[j]]
                            0 <= j < b && applies(rules[j], t, amount) ==> beats(
                                rules[b as int],
                                best_len,
                                rules[j],
                                match_len(rules[j], t)->0,
                            )
                    },
                    None => forall|j: int| 0 <= j < i ==> !applies(#[trigger] rules[j], t, amount),
                },
            decreases self.rules.len() - i,
        {
            let rule = &self.rules[i];
            match rule.matches(normalized) {
                Some(length) => {
                    if rule.allows(amount) {
                        let better = match best {
                            None => true,
                            Some(b) => {
                                let current = &self.rules[b];
                                let ra = rule.amount.is_some();
                                let ca = current.amount.is_some();
                                let rk = kind_rank(rule.kind);
                                let ck = kind_rank(current.kind);
                                (ra && !ca) || (ra == ca && rk > ck) || (ra == ca && rk == ck
                                    && length > best_len) || (ra == ca && rk == ck && length
                                    == best_len && rule.table_index > current.table_index)
                            },
                        };
                        if better {
                            best = Some(i);
                            best_len = length;
                        }
                    }
                },
                None => {},
            }
            i = i + 1;
        }
        match best {
            Some(b) => {
                proof {
                    assert(is_best_rule(rules, t, amount, b as int));
                    let k = choose|k: int| is_best_rule(rules, t, amount, k);
                    lemma_best_rule_unique(rules, t, amount, b as int, k);
                }
                Some(b)
            },
            None => None,
        }
    }

    /// The best hit for normalised text, if any rule applies.
    pub fn lookup_normalized(&self, normalized: &str, amount: Option<Amount>, via: Option<&str>) -> (r:
        Option<Hit>)
        requires
            self.well_formed(),
        ensures
            match r {
                Some(h) => best_rule(self.rules@, normalized@, amount) is Some && hit_is(
                    h,
                    *self,
                    best_rule(self.rules@, normalized@, amount)->0,
                    match via {
                        Some(v) => Some(v@),
                        None => None,
                    },
                ),
                None => best_rule(self.rules@, normalized@, amount) is None,
            },
    {
        match self.best(normalized, amount) {
            Some(i) => Some(self.hit(i, via)),
            None => None,
        }
    }

    fn rule_beats(&self, a: usize, alen: usize, b: usize, blen: usize) -> (r: bool)
        requires
            a < self.rules@.len(),
            b < self.rules@.len(),
        ensures
            r == beats(self.rules@[a as int], alen, self.rules@[b as int], blen),
    {
        let x = &self.rules[a];
        let y = &self.rules[b];
        let xa = x.amount.is_some();
        let ya = y.amount.is_some();
        let xk = kind_rank(x.kind);
        let yk = kind_rank(y.kind);
        (xa && !ya) || (xa == ya && xk > yk) || (xa == ya && xk == yk && alen > blen) || (xa == ya
            && xk == yk && alen == blen && x.table_index > y.table_index)
    }

    /// Every rule that matches the descriptor, at any amount, most
    /// specific first, as hits.
    pub fn candidates(&self, descriptor: &str) -> (r: Vec<Hit>)
        requires
            self.well_formed(),
        ensures
            ({
                let t = normalized_text(descriptor@, false);
                let order = ranked(
                    self.rules@,
                    t,
                    matching_rules(self.rules@, t, self.rules@.len() as int),
                );
                &&& r@.len() == order.len()
                &&& forall|k: int| 0 <= k < r@.len() ==> hit_is(#[trigger] r@[k], *self, order[k], None)
            }),
    {
        let normalized = normalize(descriptor);
        let ghost t = normalized@;
        let ghost rules = self.rules@;
        let mut order: Vec<usize> = Vec::new();
        let mut lens: Vec<usize> = Vec::new();
        let mut i: usize = 0;
        while i < self.rules.len()
            invariant
                i <= rules.len(),
                rules == self.rules@,
                t == normalized@,
                order@.len() == lens@.len(),
                order@.map_values(|x: usize| x as int) =~= ranked(
                    rules,
                    t,
                    matching_rules(rules, t, i as int),
                ),
                forall|k: int|
                    0 <= k < order@.len() ==> (#[trigger] order@[k]) < i && match_len(
                        rules[order@[k] as int],
                        t,
                    ) == Some(lens@[k]),
            decreases self.rules.len() - i,
        {
            let rule = &self.rules[i];
            match rule.matches(normalized.as_str()) {
                Some(length) => {
                    let ghost s = order@.map_values(|x: usize| x as int);
                    let mut k: usize = 0;
                    while k < order.len() && !self.rule_beats(i, length, order[k], lens[k])
                        invariant
                            k <= order@.len(),
                            order@.len() == lens@.len(),
                            rules == self.rules@,
                            i < rules.len(),
                            match_len(rules[i as int], t) == Some(length),
                            s == order@.map_values(|x: usize| x as int),
                            forall|q: int|
                                0 <= q < order@.len() ==> (#[trigger] order@[q]) < i && match_len(
                                    rules[order@[q] as int],
                                    t,
                                ) == Some(lens@[q]),
                            forall|j: int|
                                0 <= j < k ==> !beats(
                                    rules[i as int],
                                    match_len(rules[i as int], t)->0,
                                    rules[#[trigger] s[j]],
                                    match_len(rules[s[j]], t)->0,
                                ),
                        decreases order.len() - k,
                    {
                        assert(s[k as int] == order@[k as int] as int);
                        k = k + 1;
                    }
                    proof {
                        if k < order@.len() {
                            assert(s[k as int] == order@[k as int] as int);
                        }
                        lemma_candidate_place(rules, t, s, i as int, k as int);
                        assert(matching_rules(rules, t, i + 1) == matching_rules(rules, t, i as int).push(i as int));
                        assert(matching_rules(rules, t, i + 1).drop_last() =~= matching_rules(rules, t, i as int));
                    }
                    let ghost old_order = order@;
                    let ghost old_lens = lens@;
                    order.insert(k, i);
                    lens.insert(k, length);
                    assert(order@.map_values(|x: usize| x as int) =~= s.take(k as int).push(i as int) + s.skip(k as int)) by {
                        assert forall|j: int| 0 <= j < order@.len() implies order@.map_values(|x: usize| x as int)[j] == (
                        s.take(k as int).push(i as int) + s.skip(k as int))[j] by {
                            if j < k {
                                assert(order@[j] == old_order[j]);
                            } else if j > k {
                                assert(order@[j] == old_order[j - 1]);
                            }
                        }
                    }
                    assert forall|q: int| 0 <= q < order@.len() implies (#[trigger] order@[q]) < i + 1 && match_len(
                        rules[order@[q] as int],
                        t,
                    ) == Some(lens@[q]) by {
                        if q < k {
                            assert(order@[q] == old_order[q] && lens@[q] == old_lens[q]);
                        } else if q > k {
                            assert(order@[q] == old_order[q - 1] && lens@[q] == old_lens[q - 1]);
                        }
                    }
                },
                None => {
                    assert(matching_rules(rules, t, i + 1) == matching_rules(rules, t, i as int));
                },
            }
            i = i + 1;
        }
        let mut out: Vec<Hit> = Vec::new();
        let mut k: usize = 0;
        while k < order.len()
            invariant
                k <= order@.len(),
                rules == self.rules@,
                self.well_formed(),
                forall|q: int| 0 <= q < order@.len() ==> (#[trigger] order@[q]) < rules.len(),
                out@.len() == k,
                forall|q: int|
                    0 <= q < k ==> hit_is(#[trigger] out@[q], *self, order@[q] as int, None),
            decreases order.len() - k,
        {
            out.push(self.hit(order[k], None));
            k = k + 1;
        }
        out
    }

    /// Looks a descriptor up. Tries it as written first; only if nothing
    /// matches does it strip a payment-provider prefix and try the
    /// remainder, so a merchant that genuinely starts with those letters
    /// is not mis-attributed. A rule with an amount condition only matches
    /// when an amount is given and within it.
    pub fn lookup(&self, descriptor: &str, amount: Option<Amount>) -> (r: Option<Hit>)
        requires
            self.well_formed(),
        ensures
            match r {
                Some(h) => lookup_of(*self, descriptor@, amount) matches Some((i, via)) && hit_is(
                    h,
                    *self,
                    i,
                    via,
                ),
                None => lookup_of(*self, descriptor@, amount) is None,
            },
    {
        let normalized = normalize(descriptor);
        if let Some(hit) = self.lookup_normalized(normalized.as_str(), amount, None) {
            return Some(hit);
        }
        let n = chars_of(normalized.as_str());
        let mut k: usize = 0;
        while k < self.strip_prefixes.len()
            invariant
                k <= self.strip_prefixes@.len(),
                self.well_formed(),
                n@ == normalized_text(descriptor@, false),
                best_rule(self.rules@, n@, amount) is None,
                lookup_of(*self, descriptor@, amount) == lookup_stripped(*self, n@, amount, k as int),
            decreases self.strip_prefixes.len() - k,
        {
            let strip = &self.strip_prefixes[k];
            let prefix = normalize_pattern(strip.prefix.as_str());
            let p = chars_of(prefix.as_str());
            if p.len() > 0 && starts_with(&n, &p) {
                let after = slice_vec(&n, p.len(), n.len());
                assert(after@ =~= n@.skip(p@.len() as int));
                let from = trim_start_index(&after);
                let rest = slice_vec(&after, from, after.len());
                assert(rest@ =~= after@.skip(from as int));
                if rest.len() > 0 {
                    let rest_text = string_of(&rest);
                    let via = match &strip.provider {
                        Some(v) => Some(v.as_str()),
                        None => None,
                    };
                    if let Some(hit) = self.lookup_normalized(rest_text.as_str(), amount, via) {
                        return Some(hit);
                    }
                }
            }
            k = k + 1;
        }
        None
    }
}

pub fn kind_rank(k: KindRank) -> (r: u8)
    ensures
        r as int == rank(k),
{
    match k {
        KindRank::Regex => 0,
        KindRank::Contains => 1,
        KindRank::Prefix => 2,
        KindRank::Exact => 3,
    }
}


// ---- building ---------------------------------------------------------

pub struct RuleView {
    pub kind: KindRank,
    pub pattern: Seq<char>,
    pub amount: Option<(Amount, Amount)>,
    pub merchant: usize,
    pub table_index: usize,
}

impl View for Rule {
    type V = RuleView;

    open spec fn view(&self) -> RuleView {
        RuleView {
            kind: self.kind,
            pattern: self.pattern@,
            amount: self.amount,
            merchant: self.merchant,
            table_index: self.table_index,
        }
    }
}

pub open spec fn rule_views(rules: Seq<Rule>) -> Seq<RuleView> {
    rules.map_values(|r: Rule| r@)
}

/// Why an amount condition is no condition.
#[derive(Debug, Clone, PartialEq, Eq)]
pub enum BoundsError {
    /// A bound that does not read as an amount.
    NotAnAmount(String),
    /// A range that is not two amounts.
    RangeLength(usize),
}

pub enum BoundsFault {
    NotAnAmount(Seq<char>),
    RangeLength(int),
}

pub open spec fn bounds_fault(e: BoundsError) -> BoundsFault {
    match e {
        BoundsError::NotAnAmount(s) => BoundsFault::NotAnAmount(s@),
        BoundsError::RangeLength(n) => BoundsFault::RangeLength(n as int),
    }
}

/// Why the tables do not make a matcher.
#[derive(Debug, Clone, PartialEq, Eq)]
pub enum MatcherError {
    /// A merchant whose amount condition does not read.
    BadAmount { merchant: String, problem: BoundsError },
    /// A regular expression that does not compile.
    BadRegex { pattern: String },
}

pub enum BuildFault {
    BadAmount(Seq<char>, BoundsFault),
    BadRegex(Seq<char>),
}

pub open spec fn build_fault(e: MatcherError) -> BuildFault {
    match e {
        MatcherError::BadAmount { merchant, problem } => BuildFault::BadAmount(
            merchant@,
            bounds_fault(problem),
        ),
        MatcherError::BadRegex { pattern } => BuildFault::BadRegex(pattern@),
    }
}

pub open spec fn span(a: int, b: int) -> (Amount, Amount) {
    if a <= b {
        (Amount(a as i64), Amount(b as i64))
    } else {
        (Amount(b as i64), Amount(a as i64))
    }
}

/// An amount condition as inclusive bounds, either way round.
pub open spec fn bounds_of(condition: Option<AmountCondition>) -> Result<
    Option<(Amount, Amount)>,
    BoundsFault,
> {
    match condition {
        None => Ok(None),
        Some(AmountCondition::Exact(raw)) => match amount_of(raw@) {
            Some(v) => Ok(Some(span(v, v))),
            None => Err(BoundsFault::NotAnAmount(raw@)),
        },
        Some(AmountCondition::Range(raw)) => if raw@.len() != 2 {
            Err(BoundsFault::RangeLength(raw@.len() as int))
        } else {
            match amount_of(raw@[0]@) {
                None => Err(BoundsFault::NotAnAmount(raw@[0]@)),
                Some(a) => match amount_of(raw@[1]@) {
                    None => Err(BoundsFault::NotAnAmount(raw@[1]@)),
                    Some(b) => Ok(Some(span(a, b))),
                },
            }
        },
    }
}

fn read_bound(raw: &String) -> (r: Result<Amount, BoundsError>)
    ensures
        match r {
            Ok(a) => amount_of(raw@) == Some(a.0 as int),
            Err(e) => amount_of(raw@) is None && bounds_fault(e) == BoundsFault::NotAnAmount(
                raw@,
            ),
        },
{
    match Amount::parse(raw.as_str()) {
        Ok(a) => Ok(a),
        Err(e) => Err(BoundsError::NotAnAmount(e.0)),
    }
}

/// An amount condition as inclusive bounds, either way round: a single
/// amount, or a range of exactly two.
pub fn amount_bounds(condition: Option<&AmountCondition>) -> (r: Result<
    Option<(Amount, Amount)>,
    BoundsError,
>)
    ensures
        match r {
            Ok(b) => bounds_of(
                match condition {
                    Some(c) => Some(*c),
                    None => None,
                },
            ) == Ok::<Option<(Amount, Amount)>, BoundsFault>(b),
            Err(e) => bounds_of(
                match condition {
                    Some(c) => Some(*c),
                    None => None,
                },
            ) == Err::<Option<(Amount, Amount)>, BoundsFault>(bounds_fault(e)),
        },
{
    let (low, high) = match condition {
        None => {
            return Ok(None);
        },
        Some(AmountCondition::Exact(raw)) => {
            let a = read_bound(raw)?;
            (a, a)
        },
        Some(AmountCondition::Range(raw)) => {
            if raw.len() != 2 {
                return Err(BoundsError::RangeLength(raw.len()));
            }
            let a = read_bound(&raw[0])?;
            let b = read_bound(&raw[1])?;
            (a, b)
        },
    };
    if low.0 <= high.0 {
        Ok(Some((low, high)))
    } else {
        Ok(Some((high, low)))
    }
}

/// The first regular expression that does not compile.
pub open spec fn first_invalid(patterns: Seq<String>) -> Option<Seq<char>>
    decreases patterns.len(),
{
    if patterns.len() == 0 {
        None
    } else {
        match first_invalid(patterns.drop_last()) {
            Some(p) => Some(p),
            None => if regex_valid(patterns.last()@) {
                None
            } else {
                Some(patterns.last()@)
            },
        }
    }
}

/// The rules of one kind, one per pattern.
pub open spec fn plain_rules(
    kind: KindRank,
    patterns: Seq<String>,
    bounds: Option<(Amount, Amount)>,
    merchant: usize,
    table_index: usize,
) -> Seq<RuleView> {
    patterns.map_values(
        |p: String|
            RuleView {
                kind,
                pattern: if kind == KindRank::Regex {
                    p@
                } else {
                    normalized_text(p@, true)
                },
                amount: bounds,
                merchant,
                table_index,
            },
    )
}

/// A merchant's rules: its exact patterns, then prefixes, then
/// substrings, normalised, and its regular expressions as written.
pub open spec fn merchant_rules(
    m: Merchant,
    bounds: Option<(Amount, Amount)>,
    merchant: usize,
    table_index: usize,
) -> Seq<RuleView> {
    plain_rules(KindRank::Exact, m.match_.exact@, bounds, merchant, table_index) + plain_rules(
        KindRank::Prefix,
        m.match_.prefix@,
        bounds,
        merchant,
        table_index,
    ) + plain_rules(KindRank::Contains, m.match_.contains@, bounds, merchant, table_index)
        + plain_rules(KindRank::Regex, m.match_.regex@, bounds, merchant, table_index)
}

pub open spec fn merchant_outcome(m: Merchant, merchant: usize, table_index: usize) -> Result<
    Seq<RuleView>,
    BuildFault,
> {
    match bounds_of(m.match_.amount) {
        Err(f) => Err(BuildFault::BadAmount(m.name@, f)),
        Ok(bounds) => match first_invalid(m.match_.regex@) {
            Some(p) => Err(BuildFault::BadRegex(p)),
            None => Ok(merchant_rules(m, bounds, merchant, table_index)),
        },
    }
}

/// Every merchant of every table, in order, with its table's position.
pub open spec fn table_merchants(tables: Seq<Table>) -> Seq<(usize, Merchant)>
    decreases tables.len(),
{
    if tables.len() == 0 {
        Seq::empty()
    } else {
        table_merchants(tables.drop_last()) + tables.last().merchants@.map_values(
            |m: Merchant| ((tables.len() - 1) as usize, m),
        )
    }
}

/// The rules of a list of merchants, each numbered by its place; the
/// first merchant that fails is the answer.
pub open spec fn rules_of(list: Seq<(usize, Merchant)>) -> Result<Seq<RuleView>, BuildFault>
    decreases list.len(),
{
    if list.len() == 0 {
        Ok(Seq::empty())
    } else {
        match rules_of(list.drop_last()) {
            Err(e) => Err(e),
            Ok(rs) => match merchant_outcome(
                list.last().1,
                (list.len() - 1) as usize,
                list.last().0,
            ) {
                Err(e) => Err(e),
                Ok(more) => Ok(rs + more),
            },
        }
    }
}

/// Every strip prefix of every table, in order.
pub open spec fn all_strips(tables: Seq<Table>) -> Seq<StripPrefix>
    decreases tables.len(),
{
    if tables.len() == 0 {
        Seq::empty()
    } else {
        all_strips(tables.drop_last()) + tables.last().normalize.strip_prefixes@
    }
}

pub open spec fn has_prefix_text(s: Seq<StripPrefix>, prefix: Seq<char>) -> bool {
    exists|i: int| 0 <= i < s.len() && (#[trigger] s[i]).prefix@ == prefix
}

/// The strip prefixes with repeats of a prefix left out, first kept.
pub open spec fn dedup_strips(s: Seq<StripPrefix>) -> Seq<StripPrefix>
    decreases s.len(),
{
    if s.len() == 0 {
        s
    } else {
        let d = dedup_strips(s.drop_last());
        if has_prefix_text(d, s.last().prefix@) {
            d
        } else {
            d.push(s.last())
        }
    }
}

/// Where a prefix of this many bytes goes among prefixes sorted longest
/// first: after every one at least as long.
pub open spec fn insert_point(s: Seq<StripPrefix>, len: int) -> int
    decreases s.len(),
{
    if s.len() == 0 {
        0
    } else if (byte_len(s[0].prefix@) as int) < len {
        0
    } else {
        1 + insert_point(s.drop_first(), len)
    }
}

/// The strip prefixes sorted longest first, equals in their order.
pub open spec fn sort_strips(s: Seq<StripPrefix>) -> Seq<StripPrefix>
    decreases s.len(),
{
    if s.len() == 0 {
        s
    } else {
        let sorted = sort_strips(s.drop_last());
        let k = insert_point(sorted, byte_len(s.last().prefix@) as int);
        sorted.take(k).push(s.last()) + sorted.skip(k)
    }
}

pub open spec fn entry_is(e: Entry, m: Merchant, table: String) -> bool {
    &&& e.name == m.name
    &&& e.category == m.category
    &&& e.tags@ == m.tags@
    &&& e.note == m.note
    &&& e.table == table
}

proof fn lemma_rules_err(list: Seq<(usize, Merchant)>, j: int)
    requires
        0 <= j <= list.len(),
        rules_of(list.take(j)) is Err,
    ensures
        rules_of(list) == rules_of(list.take(j)),
    decreases list.len(),
{
    if list.len() > j {
        assert(list.drop_last().take(j) =~= list.take(j));
        lemma_rules_err(list.drop_last(), j);
    } else {
        assert(list.take(j) =~= list);
    }
}

proof fn lemma_insert_point(s: Seq<StripPrefix>, len: int)
    ensures
        0 <= insert_point(s, len) <= s.len(),
        insert_point(s, len) < s.len() ==> (byte_len(s[insert_point(s, len)].prefix@) as int)
            < len,
        forall|j: int| 0 <= j < insert_point(s, len) ==> (byte_len(#[trigger] s[j].prefix@) as int)
            >= len,
    decreases s.len(),
{
    if s.len() > 0 && (byte_len(s[0].prefix@) as int) >= len {
        lemma_insert_point(s.drop_first(), len);
        assert forall|j: int| 0 <= j < insert_point(s, len) implies (byte_len(
            #[trigger] s[j].prefix@,
        ) as int) >= len by {
            if j > 0 {
                assert(s[j] == s.drop_first()[j - 1]);
            }
        }
    }
}

proof fn lemma_insert_point_unique(s: Seq<StripPrefix>, len: int, i: int)
    requires
        0 <= i <= s.len(),
        i < s.len() ==> (byte_len(s[i].prefix@) as int) < len,
        forall|j: int| 0 <= j < i ==> (byte_len(#[trigger] s[j].prefix@) as int) >= len,
    ensures
        insert_point(s, len) == i,
{
    lemma_insert_point(s, len);
    let k = insert_point(s, len);
    if k < i {
        assert((byte_len(s[k].prefix@) as int) >= len);
    } else if i < k {
        assert((byte_len(s[i].prefix@) as int) >= len);
    }
}

fn copy_strip(p: &StripPrefix) -> (r: StripPrefix)
    ensures
        r.prefix == p.prefix,
        r.provider == p.provider,
{
    StripPrefix { prefix: p.prefix.clone(), provider: copy_opt(&p.provider) }
}

pub open spec fn same_strips(a: Seq<StripPrefix>, b: Seq<StripPrefix>) -> bool {
    &&& a.len() == b.len()
    &&& forall|i: int|
        0 <= i < a.len() ==> (#[trigger] a[i]).prefix == b[i].prefix && a[i].provider
            == b[i].provider
}

fn push_plain(
    rules: &mut Vec<Rule>,
    kind: KindRank,
    patterns: &Vec<String>,
    bounds: Option<(Amount, Amount)>,
    merchant: usize,
    table_index: usize,
)
    requires
        kind != KindRank::Regex,
    ensures
        rule_views(final(rules)@) == rule_views(old(rules)@) + plain_rules(
            kind,
            patterns@,
            bounds,
            merchant,
            table_index,
        ),
{
    let ghost start = rule_views(rules@);
    let mut i: usize = 0;
    while i < patterns.len()
        invariant
            kind != KindRank::Regex,
            i <= patterns@.len(),
            rule_views(rules@) == start + plain_rules(
                kind,
                patterns@.take(i as int),
                bounds,
                merchant,
                table_index,
            ),
        decreases patterns.len() - i,
    {
        let pattern = normalize_pattern(patterns[i].as_str());
        let rule = Rule { kind, pattern, amount: bounds, merchant, table_index };
        let ghost before = rule_views(rules@);
        rules.push(rule);
        assert(rule_views(rules@) =~= before.push(rule@));
        assert(plain_rules(kind, patterns@.take(i + 1), bounds, merchant, table_index) =~= plain_rules(
            kind,
            patterns@.take(i as int),
            bounds,
            merchant,
            table_index,
        ).push(rule@));
        i = i + 1;
    }
    assert(patterns@.take(i as int) =~= patterns@);
}

/// Adds one merchant's rules, or says why it has none.
fn push_rules(rules: &mut Vec<Rule>, merchant: &Merchant, merchant_index: usize, table_index: usize) -> (r:
    Result<(), MatcherError>)
    ensures
        match r {
            Ok(()) => merchant_outcome(*merchant, merchant_index, table_index) == Ok::<
                Seq<RuleView>,
                BuildFault,
            >(rule_views(final(rules)@).skip(old(rules)@.len() as int)) && rule_views(
                final(rules)@,
            ).take(old(rules)@.len() as int) == rule_views(old(rules)@) && old(rules)@.len()
                <= final(rules)@.len(),
            Err(e) => merchant_outcome(*merchant, merchant_index, table_index) == Err::<
                Seq<RuleView>,
                BuildFault,
            >(build_fault(e)),
        },
{
    let m = &merchant.match_;
    let bounds = match amount_bounds(
        match &m.amount {
            Some(c) => Some(c),
            None => None,
        },
    ) {
        Ok(b) => b,
        Err(problem) => {
            return Err(MatcherError::BadAmount { merchant: merchant.name.clone(), problem });
        },
    };
    let ghost start = rule_views(rules@);
    push_plain(rules, KindRank::Exact, &m.exact, bounds, merchant_index, table_index);
    push_plain(rules, KindRank::Prefix, &m.prefix, bounds, merchant_index, table_index);
    push_plain(rules, KindRank::Contains, &m.contains, bounds, merchant_index, table_index);
    let ghost before_regex = rule_views(rules@);
    assert(before_regex.take(start.len() as int) =~= start);
    assert(before_regex.skip(start.len() as int) =~= plain_rules(
        KindRank::Exact,
        m.exact@,
        bounds,
        merchant_index,
        table_index,
    ) + plain_rules(KindRank::Prefix, m.prefix@, bounds, merchant_index, table_index)
        + plain_rules(KindRank::Contains, m.contains@, bounds, merchant_index, table_index));
    assert(m.regex@.take(0) =~= Seq::<String>::empty());
    assert(rule_views(rules@) =~= before_regex + plain_rules(
        KindRank::Regex,
        m.regex@.take(0),
        bounds,
        merchant_index,
        table_index,
    ));
    let mut i: usize = 0;
    while i < m.regex.len()
        invariant
            i <= m.regex@.len(),
            *m == merchant.match_,
            bounds_of(m.amount) == Ok::<Option<(Amount, Amount)>, BoundsFault>(bounds),
            start.len() <= before_regex.len(),
            before_regex.take(start.len() as int) == start,
            before_regex.skip(start.len() as int) == plain_rules(
                KindRank::Exact,
                m.exact@,
                bounds,
                merchant_index,
                table_index,
            ) + plain_rules(KindRank::Prefix, m.prefix@, bounds, merchant_index, table_index)
                + plain_rules(KindRank::Contains, m.contains@, bounds, merchant_index, table_index),
            first_invalid(m.regex@.take(i as int)) is None,
            rule_views(rules@) == before_regex + plain_rules(
                KindRank::Regex,
                m.regex@.take(i as int),
                bounds,
                merchant_index,
                table_index,
            ),
        decreases m.regex.len() - i,
    {
        assert(m.regex@.take(i + 1).drop_last() =~= m.regex@.take(i as int));
        let pattern = &m.regex[i];
        assert(m.regex@.take(i + 1).last() == m.regex@[i as int]);
        if !crate::pattern::regex_compiles(pattern.as_str()) {
            proof {
                lemma_first_invalid(m.regex@, i + 1);

            }
            return Err(MatcherError::BadRegex { pattern: pattern.clone() });
        }
        let rule = Rule {
            kind: KindRank::Regex,
            pattern: pattern.clone(),
            amount: bounds,
            merchant: merchant_index,
            table_index,
        };
        let ghost before = rule_views(rules@);
        rules.push(rule);
        assert(rule_views(rules@) =~= before.push(rule@));
        assert(plain_rules(
            KindRank::Regex,
            m.regex@.take(i + 1),
            bounds,
            merchant_index,
            table_index,
        ) =~= plain_rules(
            KindRank::Regex,
            m.regex@.take(i as int),
            bounds,
            merchant_index,
            table_index,
        ).push(rule@));
        i = i + 1;
    }
    assert(m.regex@.take(i as int) =~= m.regex@);
    assert(rule_views(rules@).skip(start.len() as int) =~= merchant_rules(
        *merchant,
        bounds,
        merchant_index,
        table_index,
    ));
    assert(rule_views(rules@).take(start.len() as int) =~= start);
    Ok(())
}

proof fn lemma_first_invalid(ps: Seq<String>, j: int)
    requires
        0 <= j <= ps.len(),
        first_invalid(ps.take(j)) is Some,
    ensures
        first_invalid(ps) == first_invalid(ps.take(j)),
    decreases ps.len(),
{
    if ps.len() > j {
        assert(ps.drop_last().take(j) =~= ps.take(j));
        lemma_first_invalid(ps.drop_last(), j);
    } else {
        assert(ps.take(j) =~= ps);
    }
}

/// Adds the table's strip prefixes that are not there yet.
fn merge_strips(strips: &mut Vec<StripPrefix>, more: &Vec<StripPrefix>, Ghost(seen): Ghost<
    Seq<StripPrefix>,
>)
    requires
        same_strips(old(strips)@, dedup_strips(seen)),
    ensures
        same_strips(final(strips)@, dedup_strips(seen + more@)),
{
    let mut i: usize = 0;
    assert(seen + more@.take(0) =~= seen);
    while i < more.len()
        invariant
            i <= more@.len(),
            same_strips(strips@, dedup_strips(seen + more@.take(i as int))),
        decreases more.len() - i,
    {
        let ghost all = seen + more@.take(i + 1);
        assert(all.drop_last() =~= seen + more@.take(i as int));
        assert(all.last() == more@[i as int]);
        let want = chars_of(more[i].prefix.as_str());
        let mut found = false;
        let mut j: usize = 0;
        while j < strips.len()
            invariant
                j <= strips@.len(),
                found == exists|k: int| 0 <= k < j && (#[trigger] strips@[k]).prefix@ == want@,
            decreases strips.len() - j,
        {
            if chars_eq(&chars_of(strips[j].prefix.as_str()), &want) {
                found = true;
            }
            j = j + 1;
        }
        let ghost d = dedup_strips(seen + more@.take(i as int));
        assert(found == has_prefix_text(d, want@)) by {
            if found {
                let k = choose|k: int| 0 <= k < strips@.len() && (#[trigger] strips@[k]).prefix@
                    == want@;
                assert(d[k].prefix == strips@[k].prefix);
            }
            if has_prefix_text(d, want@) {
                let k = choose|k: int| 0 <= k < d.len() && (#[trigger] d[k]).prefix@ == want@;
                assert(d[k].prefix == strips@[k].prefix);
            }
        }
        if !found {
            strips.push(copy_strip(&more[i]));
        }
        i = i + 1;
    }
    assert(more@.take(i as int) =~= more@);
}

/// Sorts the strip prefixes longest first, keeping equals in order.
fn sort_by_length(strips: Vec<StripPrefix>) -> (r: Vec<StripPrefix>)
    ensures
        same_strips(r@, sort_strips(strips@)),
{
    let mut sorted: Vec<StripPrefix> = Vec::new();
    let mut i: usize = 0;
    while i < strips.len()
        invariant
            i <= strips@.len(),
            same_strips(sorted@, sort_strips(strips@.take(i as int))),
        decreases strips.len() - i,
    {
        let ghost s = sort_strips(strips@.take(i as int));
        assert(strips@.take(i + 1).drop_last() =~= strips@.take(i as int));
        let len = strips[i].prefix.as_str().len();
        let mut k: usize = 0;
        while k < sorted.len() && sorted[k].prefix.as_str().len() >= len
            invariant
                k <= sorted@.len(),
                same_strips(sorted@, s),
                forall|j: int| 0 <= j < k ==> (byte_len(#[trigger] s[j].prefix@) as int) >= len,
            decreases sorted.len() - k,
        {
            assert(s[k as int].prefix == sorted@[k as int].prefix);
            k = k + 1;
        }
        proof {
            if k < sorted@.len() {
                assert(s[k as int].prefix == sorted@[k as int].prefix);
            }
            lemma_insert_point_unique(s, len as int, k as int);
        }
        let ghost before = sorted@;
        sorted.insert(k, copy_strip(&strips[i]));
        proof {
            let want = s.take(k as int).push(strips@[i as int]) + s.skip(k as int);
            assert(sort_strips(strips@.take(i + 1)) == want);
            assert forall|j: int| 0 <= j < sorted@.len() implies (#[trigger] sorted@[j]).prefix
                == want[j].prefix && sorted@[j].provider == want[j].provider by {
                if j < k {
                    assert(sorted@[j] == before[j]);
                } else if j > k {
                    assert(sorted@[j] == before[j - 1]);
                }
            }
        }
        i = i + 1;
    }
    assert(strips@.take(i as int) =~= strips@);
    sorted
}

fn make_entry(merchant: &Merchant, table: &String) -> (e: Entry)
    ensures
        entry_is(e, *merchant, *table),
{
    Entry {
        name: merchant.name.clone(),
        category: copy_opt(&merchant.category),
        tags: copy_strings(&merchant.tags),
        note: copy_opt(&merchant.note),
        table: table.clone(),
    }
}

impl Matcher {
    /// Builds a matcher from tables in configuration order. Later tables
    /// win ties against earlier ones, so a personal table placed after the
    /// bundled one can override it without editing it.
    pub fn build(tables: &Vec<Table>) -> (r: Result<Matcher, MatcherError>)
        ensures
            match r {
                Ok(m) => {
                    &&& m.well_formed()
                    &&& rules_of(table_merchants(tables@)) == Ok::<Seq<RuleView>, BuildFault>(
                        rule_views(m.rules@),
                    )
                    &&& m.entries@.len() == table_merchants(tables@).len()
                    &&& forall|i: int|
                        0 <= i < m.entries@.len() ==> entry_is(
                            #[trigger] m.entries@[i],
                            table_merchants(tables@)[i].1,
                            tables@[table_merchants(tables@)[i].0 as int].name,
                        )
                    &&& same_strips(m.strip_prefixes@, sort_strips(dedup_strips(all_strips(tables@))))
                    &&& m.table_names@.len() == tables@.len()
                    &&& forall|i: int|
                        0 <= i < tables@.len() ==> #[trigger] m.table_names@[i] == tables@[i].name
                },
                Err(e) => rules_of(table_merchants(tables@)) == Err::<Seq<RuleView>, BuildFault>(
                    build_fault(e),
                ),
            },
    {
        let mut rules: Vec<Rule> = Vec::new();
        let mut entries: Vec<Entry> = Vec::new();
        let mut strips: Vec<StripPrefix> = Vec::new();
        let mut names: Vec<String> = Vec::new();
        let mut t: usize = 0;
        assert(tables@.take(0) =~= Seq::<Table>::empty());
        assert(rule_views(rules@) =~= Seq::<RuleView>::empty());
        assert(strips@ =~= Seq::<StripPrefix>::empty());
        while t < tables.len()
            invariant
                t <= tables@.len(),
                rules_of(table_merchants(tables@.take(t as int))) == Ok::<Seq<RuleView>, BuildFault>(
                    rule_views(rules@),
                ),
                entries@.len() == table_merchants(tables@.take(t as int)).len(),
                forall|i: int|
                    0 <= i < entries@.len() ==> entry_is(
                        #[trigger] entries@[i],
                        table_merchants(tables@.take(t as int))[i].1,
                        tables@[table_merchants(tables@.take(t as int))[i].0 as int].name,
                    ),
                forall|i: int|
                    0 <= i < entries@.len() ==> (table_merchants(tables@.take(t as int))[i].0
                        as int) < t,
                forall|i: int|
                    0 <= i < rules@.len() ==> (#[trigger] rules@[i]).merchant < entries@.len(),
                same_strips(strips@, dedup_strips(all_strips(tables@.take(t as int)))),
                names@.len() == t,
                forall|i: int| 0 <= i < t ==> #[trigger] names@[i] == tables@[i].name,
            decreases tables.len() - t,
        {
            let table = &tables[t];
            let ghost prev = tables@.take(t as int);
            let ghost next = tables@.take(t + 1);
            assert(next.drop_last() =~= prev);
            assert(next.last() == *table);
            let ghost done = table_merchants(prev);
            let ghost pairs = table.merchants@.map_values(|m: Merchant| (t as usize, m));
            assert(table_merchants(next) == done + pairs);
            assert(all_strips(next) == all_strips(prev) + table.normalize.strip_prefixes@);
            assert(forall|i: int| 0 <= i < done.len() ==> (#[trigger] done[i].0 as int) < t);
            names.push(table.name.clone());
            merge_strips(&mut strips, &table.normalize.strip_prefixes, Ghost(all_strips(prev)));
            let mut k: usize = 0;
            assert(done + pairs.take(0) =~= done);
            while k < table.merchants.len()
                invariant
                    k <= table.merchants@.len(),
                    t < tables@.len(),
                    *table == tables@[t as int],
                    pairs == table.merchants@.map_values(|m: Merchant| (t as usize, m)),
                    table_merchants(tables@.take(t + 1)) == done + pairs,
                    forall|i: int| 0 <= i < done.len() ==> (#[trigger] done[i].0 as int) < t,
                    rules_of(done + pairs.take(k as int)) == Ok::<Seq<RuleView>, BuildFault>(
                        rule_views(rules@),
                    ),
                    entries@.len() == done.len() + k,
                    forall|i: int|
                        0 <= i < entries@.len() ==> entry_is(
                            #[trigger] entries@[i],
                            (done + pairs.take(k as int))[i].1,
                            tables@[(done + pairs.take(k as int))[i].0 as int].name,
                        ),
                    forall|i: int|
                        0 <= i < entries@.len() ==> ((done + pairs.take(k as int))[i].0 as int)
                            <= t,
                    forall|i: int|
                        0 <= i < rules@.len() ==> (#[trigger] rules@[i]).merchant < entries@.len(),
                decreases table.merchants.len() - k,
            {
                let ghost list = done + pairs.take(k + 1);
                assert(list.drop_last() =~= done + pairs.take(k as int));
                assert(list.last() == (t as usize, table.merchants@[k as int]));
                let merchant = &table.merchants[k];
                let index = entries.len();
                entries.push(make_entry(merchant, &table.name));
                let ghost before = rule_views(rules@);
                let ghost old_rules = rules@;
                match push_rules(&mut rules, merchant, index, t) {
                    Ok(()) => {
                        assert(rule_views(rules@) =~= before + rule_views(rules@).skip(
                            before.len() as int,
                        ));
                        assert forall|i: int| 0 <= i < rules@.len() implies (
                        #[trigger] rules@[i]).merchant < entries@.len() by {
                            if i < before.len() {
                                assert(rule_views(rules@)[i] == before[i]);
                                assert(rules@[i]@ == old_rules[i]@);
                            } else {
                                assert(rule_views(rules@)[i] == rule_views(rules@).skip(
                                    before.len() as int,
                                )[i - before.len()]);
                                let mr = merchant_rules(
                                    *merchant,
                                    bounds_of(merchant.match_.amount)->Ok_0,
                                    index,
                                    t,
                                );
                                assert(mr[i - before.len()].merchant == index);
                            }
                        }
                    },
                    Err(e) => {
                        proof {
                            let whole = table_merchants(tables@);
                            lemma_table_merchants_prefix(tables@, t + 1);
                            let tm = table_merchants(tables@.take(t + 1));
                            assert(tm == done + pairs);
                            assert(tm.take(list.len() as int) =~= list);
                            assert forall|x: int| 0 <= x < list.len() implies whole[x] == list[x] by {
                                assert(whole.take(tm.len() as int)[x] == tm[x]);
                                assert(tm.take(list.len() as int)[x] == list[x]);
                            }
                            assert(whole.take(list.len() as int) =~= list);
                            lemma_rules_err(whole, list.len() as int);
                        }
                        return Err(e);
                    },
                }
                k = k + 1;
            }
            assert(pairs.take(k as int) =~= pairs);
            t = t + 1;
        }
        assert(tables@.take(t as int) =~= tables@);
        proof {
            lemma_same_strips(strips@, dedup_strips(all_strips(tables@)));
        }
        let strip_prefixes = sort_by_length(strips);
        proof {
            assert forall|i: int| 0 <= i < rules@.len() implies (#[trigger] rules@[i]).merchant
                < entries@.len() by {}
        }
        Ok(Matcher { rules, entries, strip_prefixes, table_names: names })
    }
}

proof fn lemma_same_strips(a: Seq<StripPrefix>, b: Seq<StripPrefix>)
    requires
        same_strips(a, b),
    ensures
        a == b,
{
    assert forall|i: int| 0 <= i < a.len() implies a[i] == b[i] by {
        assert(a[i].prefix == b[i].prefix);
    }
    assert(a =~= b);
}

proof fn lemma_table_merchants_prefix(tables: Seq<Table>, j: int)
    requires
        0 <= j <= tables.len(),
    ensures
        table_merchants(tables).take(table_merchants(tables.take(j)).len() as int)
            == table_merchants(tables.take(j)),
        table_merchants(tables.take(j)).len() <= table_merchants(tables).len(),
    decreases tables.len(),
{
    if tables.len() > j {
        assert(tables.drop_last().take(j) =~= tables.take(j));
        lemma_table_merchants_prefix(tables.drop_last(), j);
        let a = table_merchants(tables.drop_last());
        let b = table_merchants(tables.take(j));
        assert((a + tables.last().merchants@.map_values(
            |m: Merchant| ((tables.len() - 1) as usize, m),
        )).take(b.len() as int) =~= a.take(b.len() as int));
    } else {
        assert(tables.take(j) =~= tables);
    }
}


proof fn lemma_beats_facts(a: Rule, alen: usize, b: Rule, blen: usize, c: Rule, clen: usize)
    ensures
        !beats(a, alen, a, alen),
        beats(a, alen, b, blen) && beats(b, blen, c, clen) ==> beats(a, alen, c, clen),
        beats(a, alen, b, blen) && !beats(c, clen, b, blen) ==> beats(a, alen, c, clen),
{
}

/// The best of the first `n` rules that apply, or -1 when none of them
/// does.
spec fn best_rule_upto(rules: Seq<Rule>, t: Seq<char>, amount: Option<Amount>, n: int) -> int
    decreases n,
{
    if n <= 0 {
        -1
    } else {
        let p = best_rule_upto(rules, t, amount, n - 1);
        if applies(rules[n - 1], t, amount) && (p < 0 || beats(
            rules[n - 1],
            match_len(rules[n - 1], t)->0,
            rules[p],
            match_len(rules[p], t)->0,
        )) {
            n - 1
        } else {
            p
        }
    }
}

proof fn lemma_best_rule_upto(rules: Seq<Rule>, t: Seq<char>, amount: Option<Amount>, n: int)
    requires
        0 <= n <= rules.len(),
    ensures
        best_rule_upto(rules, t, amount, n) < n,
        best_rule_upto(rules, t, amount, n) < 0 ==> forall|j: int|
            0 <= j < n ==> !applies(#[trigger] rules[j], t, amount),
        best_rule_upto(rules, t, amount, n) >= 0 ==> {
            let b = best_rule_upto(rules, t, amount, n);
            &&& applies(rules[b], t, amount)
            &&& forall|j: int|
                #![trigger rules[j]]
                0 <= j < n && applies(rules[j], t, amount) ==> !beats(
                    rules[j],
                    match_len(rules[j], t)->0,
                    rules[b],
                    match_len(rules[b], t)->0,
                )
            &&& forall|j: int|
                #![trigger rules[j]]
                0 <= j < b && applies(rules[j], t, amount) ==> beats(
                    rules[b],
                    match_len(rules[b], t)->0,
                    rules[j],
                    match_len(rules[j], t)->0,
                )
        },
    decreases n,
{
    if n > 0 {
        lemma_best_rule_upto(rules, t, amount, n - 1);
        let p = best_rule_upto(rules, t, amount, n - 1);
        let b = best_rule_upto(rules, t, amount, n);
        let q = n - 1;
        if b == q && p >= 0 {
            let bl = match_len(rules[q], t)->0;
            let pl = match_len(rules[p], t)->0;
            assert forall|j: int|
                #![trigger rules[j]]
                0 <= j < n && applies(rules[j], t, amount) implies !beats(
                rules[j],
                match_len(rules[j], t)->0,
                rules[q],
                bl,
            ) by {
                lemma_beats_facts(rules[j], match_len(rules[j], t)->0, rules[q], bl, rules[p], pl);
                lemma_beats_facts(rules[q], bl, rules[q], bl, rules[q], bl);
            }
            assert forall|j: int|
                #![trigger rules[j]]
                0 <= j < q && applies(rules[j], t, amount) implies beats(
                rules[q],
                bl,
                rules[j],
                match_len(rules[j], t)->0,
            ) by {
                lemma_beats_facts(rules[q], bl, rules[p], pl, rules[j], match_len(rules[j], t)->0);
            }
        } else if b == q {
            assert forall|j: int|
                #![trigger rules[j]]
                0 <= j < n && applies(rules[j], t, amount) implies !beats(
                rules[j],
                match_len(rules[j], t)->0,
                rules[q],
                match_len(rules[q], t)->0,
            ) by {
                lemma_beats_facts(rules[q], match_len(rules[q], t)->0, rules[q], match_len(rules[q], t)->0, rules[q], match_len(rules[q], t)->0);
            }
        }
    }
}

/// A lookup is decided by the most specific rule that applies, the
/// first of equals: a rule with an amount before one without, then the
/// stronger kind (exact, then prefix, then contains, then regex), then the longer
/// match, then the later table; and when no rule applies there is no
/// answer.
pub proof fn law_most_specific_rule_decides(rules: Seq<Rule>, t: Seq<char>, amount: Option<Amount>)
    ensures
        best_rule(rules, t, amount) is None <==> none_applies(rules, t, amount),
        best_rule(rules, t, amount) matches Some(b) ==> is_best_rule(rules, t, amount, b),
{
    if !none_applies(rules, t, amount) {
        lemma_best_rule_upto(rules, t, amount, rules.len() as int);
        let b = best_rule_upto(rules, t, amount, rules.len() as int);
        assert(is_best_rule(rules, t, amount, b));
    }
}


/// A contains rule matches exactly when its pattern occurs somewhere in
/// the normalised text, at any position, and then it accounts for the
/// pattern's bytes.
pub proof fn law_contains_matches_anywhere(rule: Rule, t: Seq<char>)
    requires
        rule.kind == KindRank::Contains,
    ensures
        match_len(rule, t) is Some <==> exists|i: int|
            0 <= i && i + rule.pattern@.len() <= t.len() && #[trigger] t.subrange(
                i,
                i + rule.pattern@.len(),
            ) == rule.pattern@,
        match_len(rule, t) is Some ==> match_len(rule, t) == Some(byte_len(rule.pattern@)),
{
}

/// Whatever text comes before and after it, a contains rule finds its
/// pattern in the middle.
pub proof fn law_contains_finds_pattern_between(rule: Rule, before: Seq<char>, after: Seq<char>)
    requires
        rule.kind == KindRank::Contains,
    ensures
        match_len(rule, before + rule.pattern@ + after) is Some,
{
    let p = rule.pattern@;
    let t = before + p + after;
    assert(t.subrange(before.len() as int, (before.len() + p.len()) as int) =~= p);
}

} // verus!
