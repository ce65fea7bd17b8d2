//! The log viewer's small rules: colouring rows by level and by pod,
//! fuzzy filtering, and editing the filter line.

use vstd::prelude::*;

use crate::matcher::{occurs, occurs_in};
use crate::text::{all_ascii, chars_eq, chars_of, string_of};

verus! {

/// FNV-1, 32 bits: multiply by the prime, then xor in the byte.
pub open spec fn fnv1_32(bytes: Seq<u8>) -> u32
    decreases bytes.len(),
{
    if bytes.len() == 0 {
        0x811c9dc5
    } else {
        (((fnv1_32(bytes.drop_last()) as nat * 0x01000193nat) % 0x1_0000_0000nat) as u32) ^ (
        bytes.last() as u32)
    }
}

/// FNV-1 32-bit, with the seed and prime stern's `hash/fnv.New32` uses.
pub fn fnv32(bytes: &[u8]) -> (hash: u32)
    ensures
        hash == fnv1_32(bytes@),
{
    let mut hash: u32 = 0x811c9dc5;
    let mut i: usize = 0;
    while i < bytes.len()
        invariant
            i <= bytes@.len(),
            hash == fnv1_32(bytes@.take(i as int)),
        decreases bytes.len() - i,
    {
        assert(bytes@.take(i + 1).drop_last() =~= bytes@.take(i as int));
        hash = hash.wrapping_mul(0x01000193);
        hash = hash ^ (bytes[i] as u32);
        i = i + 1;
    }
    assert(bytes@.take(i as int) =~= bytes@);
    hash
}

/// The slot in the six-colour pod palette a value gets: FNV-32 of its
/// bytes, modulo six, as stern's `colorIndex` picks it, so the same pod
/// has the same colour in both tools.
pub fn pod_color_index(value: &str) -> (r: usize)
    ensures
        r == fnv1_32(vstd::utf8::encode_utf8(value@)) % 6,
        r < 6,
{
    let h = fnv32(value.as_bytes());
    (h % 6) as usize
}

/// `str::to_ascii_lowercase`.
pub open spec fn ascii_lower(s: Seq<char>) -> Seq<char> {
    s.map_values(
        |c: char|
            if 'A' <= c && c <= 'Z' {
                ((c as u32) + 32) as char
            } else {
                c
            },
    )
}

pub fn to_ascii_lower(s: &str) -> (r: Vec<char>)
    ensures
        r@ == ascii_lower(s@),
{
    let cs = chars_of(s);
    let mut out: Vec<char> = Vec::new();
    let mut i: usize = 0;
    while i < cs.len()
        invariant
            i <= cs@.len(),
            cs@ == s@,
            out@ == ascii_lower(cs@.take(i as int)),
        decreases cs.len() - i,
    {
        let c = cs[i];
        let l = if 'A' <= c && c <= 'Z' {
            crate::statement::char_from_ascii((c as u32) + 32)
        } else {
            c
        };
        out.push(l);
        i = i + 1;
        assert(out@ =~= ascii_lower(cs@.take(i as int)));
    }
    assert(cs@.take(i as int) =~= cs@);
    out
}

/// The colour a level gives a row.
#[derive(Debug, Clone, Copy, PartialEq, Eq, Structural)]
pub enum LevelColor {
    Red,
    Yellow,
    Cyan,
    Gray,
}

pub open spec fn level_color_of(level: Seq<char>) -> Option<LevelColor> {
    let v = ascii_lower(level);
    if occurs_in("error"@, v) || v == "err"@ || occurs_in("fatal"@, v) {
        Some(LevelColor::Red)
    } else if occurs_in("warn"@, v) {
        Some(LevelColor::Yellow)
    } else if occurs_in("info"@, v) {
        Some(LevelColor::Cyan)
    } else if occurs_in("debug"@, v) || occurs_in("trace"@, v) {
        Some(LevelColor::Gray)
    } else {
        None
    }
}

fn has(v: &Vec<char>, word: &str) -> (r: bool)
    ensures
        r == occurs_in(word@, v@),
{
    let w = chars_of(word);
    occurs(&w, v)
}

/// Classifies a level into a row colour, by the words in it and in any
/// case: errors red, warnings yellow, info cyan, debug and trace grey, and
/// nothing for anything else.
pub fn level_color(level: &str) -> (r: Option<LevelColor>)
    ensures
        r == level_color_of(level@),
{
    let v = to_ascii_lower(level);
    let err = chars_of("err");
    if has(&v, "error") || crate::text::chars_eq(&v, &err) || has(&v, "fatal") {
        Some(LevelColor::Red)
    } else if has(&v, "warn") {
        Some(LevelColor::Yellow)
    } else if has(&v, "info") {
        Some(LevelColor::Cyan)
    } else if has(&v, "debug") || has(&v, "trace") {
        Some(LevelColor::Gray)
    } else {
        None
    }
}

pub open spec fn overrides_pod_color(level: Seq<char>) -> bool {
    let v = ascii_lower(level);
    occurs_in("error"@, v) || v == "err"@ || occurs_in("fatal"@, v) || occurs_in("warn"@, v)
}

/// Whether the level should override a pod-hash row colour: an error or a
/// warning, which should not be drowned out by the grouping.
pub fn level_overrides_pod_color(level: &str) -> (r: bool)
    ensures
        r == overrides_pod_color(level@),
{
    let v = to_ascii_lower(level);
    let err = chars_of("err");
    has(&v, "error") || crate::text::chars_eq(&v, &err) || has(&v, "fatal") || has(&v, "warn")
}

/// The lower-case form of a string, as `str::to_lowercase` gives it.
pub uninterp spec fn lowercase_of(s: Seq<char>) -> Seq<char>;

/// `str::to_lowercase`: Unicode lower-casing, which looks at context for
/// a final sigma; named here, and stated only for ASCII text, where each
/// of `A` to `Z` becomes `a` to `z` and the rest stays.
#[verifier::external_body]
pub(crate) fn to_lowercase(s: &str) -> (r: String)
    ensures
        r@ == lowercase_of(s@),
        all_ascii(s@) ==> r@ == ascii_lower(s@),
{
    s.to_lowercase()
}

/// `needle` can be had from `haystack` by leaving characters out.
pub open spec fn is_subsequence(needle: Seq<char>, haystack: Seq<char>) -> bool
    decreases haystack.len(),
{
    if needle.len() == 0 {
        true
    } else if haystack.len() == 0 {
        false
    } else if haystack[0] == needle[0] {
        is_subsequence(needle.drop_first(), haystack.drop_first())
    } else {
        is_subsequence(needle, haystack.drop_first())
    }
}

pub open spec fn fuzzy(needle: Seq<char>, haystack: Seq<char>) -> bool {
    needle.len() == 0 || is_subsequence(lowercase_of(needle), lowercase_of(haystack))
}

/// Subsequence match: every character of the needle appears in the
/// haystack in order, ignoring case. An empty needle matches anything.
pub fn fuzzy_match(needle: &str, haystack: &str) -> (r: bool)
    ensures
        r == fuzzy(needle@, haystack@),
        all_ascii(needle@) && all_ascii(haystack@) ==> r == (needle@.len() == 0 || is_subsequence(
            ascii_lower(needle@),
            ascii_lower(haystack@),
        )),
{
    if needle.is_empty() {
        return true;
    }
    let n = chars_of(to_lowercase(needle).as_str());
    let h = chars_of(to_lowercase(haystack).as_str());
    let mut i: usize = 0;
    let mut j: usize = 0;
    assert(n@.skip(0) =~= n@);
    assert(h@.skip(0) =~= h@);
    while i < n.len() && j < h.len()
        invariant
            i <= n@.len(),
            j <= h@.len(),
            is_subsequence(n@, h@) == is_subsequence(n@.skip(i as int), h@.skip(j as int)),
        decreases h.len() - j,
    {
        assert(n@.skip(i as int).drop_first() =~= n@.skip(i + 1));
        assert(h@.skip(j as int).drop_first() =~= h@.skip(j + 1));
        if h[j] == n[i] {
            i = i + 1;
        }
        j = j + 1;
    }
    proof {
        if i == n.len() {
            assert(n@.skip(i as int).len() == 0);
        } else {
            assert(h@.skip(j as int).len() == 0);
        }
    }
    i == n.len()
}

/// `u8::is_ascii_whitespace`, for a character: space, tab, line feed,
/// form feed, carriage return.
pub open spec fn ascii_ws(c: char) -> bool {
    c == ' ' || c == '\t' || c == '\n' || c == '\u{c}' || c == '\r'
}

/// Back from `i` over whitespace.
pub open spec fn skip_ws_back(s: Seq<char>, i: int) -> int
    decreases i,
{
    if i > 0 && i <= s.len() && ascii_ws(s[i - 1]) {
        skip_ws_back(s, i - 1)
    } else {
        i
    }
}

/// Back from `i` over a word.
pub open spec fn skip_word_back(s: Seq<char>, i: int) -> int
    decreases i,
{
    if i > 0 && i <= s.len() && !ascii_ws(s[i - 1]) {
        skip_word_back(s, i - 1)
    } else {
        i
    }
}

/// Where the word left of `i` starts, whitespace before `i` included.
pub open spec fn word_start(s: Seq<char>, i: int) -> int {
    skip_word_back(s, skip_ws_back(s, i))
}

proof fn lemma_skip_ws_bound(s: Seq<char>, i: int)
    requires
        0 <= i,
    ensures
        0 <= skip_ws_back(s, i) <= i,
    decreases i,
{
    if i > 0 && i <= s.len() && ascii_ws(s[i - 1]) {
        lemma_skip_ws_bound(s, i - 1);
    }
}

proof fn lemma_skip_word_bound(s: Seq<char>, i: int)
    requires
        0 <= i,
    ensures
        0 <= skip_word_back(s, i) <= i,
    decreases i,
{
    if i > 0 && i <= s.len() && !ascii_ws(s[i - 1]) {
        lemma_skip_word_bound(s, i - 1);
    }
}

/// The word left of `i` starts at or before `i`.
pub proof fn lemma_word_start_bound(s: Seq<char>, i: int)
    requires
        0 <= i,
    ensures
        0 <= word_start(s, i) <= i,
{
    lemma_skip_ws_bound(s, i);
    lemma_skip_word_bound(s, skip_ws_back(s, i));
}

/// The number of bytes `s` takes in UTF-8.
pub open spec fn utf8_len(s: Seq<char>) -> int {
    vstd::utf8::encode_utf8(s).len() as int
}

pub open spec fn width_of(c: char) -> int {
    if (c as u32) < 0x80 {
        1
    } else if (c as u32) < 0x800 {
        2
    } else if (c as u32) < 0x10000 {
        3
    } else {
        4
    }
}

proof fn lemma_encode_push(s: Seq<char>, c: char)
    ensures
        utf8_len(s.push(c)) == utf8_len(s) + width_of(c),
    decreases s.len(),
{
    reveal_with_fuel(vstd::utf8::encode_utf8, 2);
    if s.len() == 0 {
        assert(seq![c].drop_first() =~= Seq::<char>::empty());
        assert(s.push(c) =~= seq![c]);
    } else {
        lemma_encode_push(s.drop_first(), c);
        assert(s.push(c).drop_first() =~= s.drop_first().push(c));
    }
}

fn width(c: char) -> (w: usize)
    ensures
        w == width_of(c),
{
    let u = c as u32;
    if u < 0x80 {
        1
    } else if u < 0x800 {
        2
    } else if u < 0x10000 {
        3
    } else {
        4
    }
}

pub proof fn lemma_utf8_len_grows(s: Seq<char>, i: int, j: int)
    requires
        0 <= i < j <= s.len(),
    ensures
        utf8_len(s.take(i)) < utf8_len(s.take(j)),
    decreases j - i,
{
    assert(s.take(j - 1).push(s[j - 1]) =~= s.take(j));
    lemma_encode_push(s.take(j - 1), s[j - 1]);
    if i < j - 1 {
        lemma_utf8_len_grows(s, i, j - 1);
    }
}

/// Emacs-style C-w on the filter line: drops the word left of the cursor
/// and the whitespace between it and the cursor. The cursor is a byte
/// offset, past the end counting as the end, and must fall between
/// characters; the text comes back with the cursor's new offset.
pub fn kill_word_left(text: &str, cursor: usize) -> (r: (String, usize))
    requires
        utf8_len(text@) <= usize::MAX,
        exists|k: int|
            0 <= k <= text@.len() && #[trigger] utf8_len(text@.take(k)) == if cursor < utf8_len(
                text@,
            ) {
                cursor as int
            } else {
                utf8_len(text@)
            },
    ensures
        exists|k: int|
            {
                &&& 0 <= k <= text@.len()
                &&& #[trigger] utf8_len(text@.take(k)) == if cursor < utf8_len(text@) {
                    cursor as int
                } else {
                    utf8_len(text@)
                }
                &&& r.0@ == text@.take(word_start(text@, k)) + text@.skip(k)
                &&& r.1 == utf8_len(text@.take(word_start(text@, k)))
            },
{
    let cs = chars_of(text);
    let total = text.len();
    assert(cs@.take(cs@.len() as int) =~= cs@);
    assert(total == utf8_len(text@));
    let c = if cursor < total {
        cursor
    } else {
        total
    };
    // The character index at the cursor.
    let mut k: usize = 0;
    let mut at: usize = 0;
    assert(cs@.take(0) =~= Seq::<char>::empty());
    while at < c && k < cs.len()
        invariant
            k <= cs@.len(),
            cs@ == text@,
            total == utf8_len(text@),
            c <= total,
            at == utf8_len(cs@.take(k as int)),
            at <= c,
            exists|j: int| 0 <= j <= cs@.len() && #[trigger] utf8_len(cs@.take(j)) == c,
        decreases cs.len() - k,
    {
        proof {
            assert(cs@.take(k as int).push(cs@[k as int]) =~= cs@.take(k + 1));
            lemma_encode_push(cs@.take(k as int), cs@[k as int]);
            let j = choose|j: int| 0 <= j <= cs@.len() && #[trigger] utf8_len(cs@.take(j)) == c;
            if j < k {
                lemma_utf8_len_grows(cs@, j, k as int);
            }
            if k + 1 < j {
                lemma_utf8_len_grows(cs@, k + 1, j);
            }
        }
        at = at + width(cs[k]);
        k = k + 1;
    }
    proof {
        if k == cs.len() {
            assert(cs@.take(k as int) =~= cs@);
        }
    }
    assert(utf8_len(cs@.take(k as int)) == c);
    if c == 0 {
        assert(k == 0) by {
            if k > 0 {
                lemma_utf8_len_grows(cs@, 0, k as int);
            }
        }
        let copy = crate::text::slice_vec(&cs, 0, cs.len());
        assert(word_start(text@, 0) == 0);
        assert(text@.take(0) + text@.skip(0) =~= copy@);
        return (string_of(&copy), 0);
    }
    let mut i = k;
    while i > 0 && ascii_whitespace(cs[i - 1])
        invariant
            i <= k <= cs@.len(),
            cs@ == text@,
            skip_ws_back(cs@, i as int) == skip_ws_back(cs@, k as int),
        decreases i,
    {
        i = i - 1;
    }
    let ghost after_ws = i;
    while i > 0 && !ascii_whitespace(cs[i - 1])
        invariant
            i <= after_ws <= cs@.len(),
            cs@ == text@,
            skip_word_back(cs@, i as int) == skip_word_back(cs@, after_ws as int),
            after_ws == skip_ws_back(cs@, k as int),
        decreases i,
    {
        i = i - 1;
    }
    let mut out = crate::text::slice_vec(&cs, 0, i);
    let tail = crate::text::slice_vec(&cs, k, cs.len());
    crate::text::push_chars(&mut out, &tail);
    assert(out@ =~= text@.take(i as int) + text@.skip(k as int));
    // The byte offset of the new cursor.
    let mut off: usize = 0;
    let mut j: usize = 0;
    assert(cs@.take(0) =~= Seq::<char>::empty());
    while j < i
        invariant
            j <= i <= k <= cs@.len(),
            cs@ == text@,
            off == utf8_len(cs@.take(j as int)),
            utf8_len(cs@.take(k as int)) == c,
            c <= total,
            total == utf8_len(text@),
        decreases i - j,
    {
        proof {
            assert(cs@.take(j as int).push(cs@[j as int]) =~= cs@.take(j + 1));
            lemma_encode_push(cs@.take(j as int), cs@[j as int]);
            if j + 1 < k {
                lemma_utf8_len_grows(cs@, j + 1, k as int);
            }
        }
        off = off + width(cs[j]);
        j = j + 1;
    }
    (string_of(&out), off)
}

/// `u8::is_ascii_whitespace`, for a character.
pub fn ascii_whitespace(c: char) -> (r: bool)
    ensures
        r == ascii_ws(c),
{
    c == ' ' || c == '\t' || c == '\n' || c == '\u{c}' || c == '\r'
}


// ---- lines that are not JSON ------------------------------------------

/// Whether `serde_json` reads the text as one JSON value.
pub uninterp spec fn json_valid(text: Seq<char>) -> bool;

/// The compact JSON object `{"message": text}` as `serde_json` writes it.
pub uninterp spec fn message_envelope(text: Seq<char>) -> Seq<char>;

/// `serde_json::from_str::<Value>`: whether the text is JSON. What JSON
/// is, is serde_json's reading; named here.
#[verifier::external_body]
pub(crate) fn is_json(text: &str) -> (r: bool)
    ensures
        r == json_valid(text@),
{
    serde_json::from_str::<serde_json::Value>(text).is_ok()
}

/// `serde_json`'s compact writing of `{"message": text}`, with its
/// escaping, named here.
#[verifier::external_body]
pub(crate) fn wrap_message(text: &str) -> (r: String)
    ensures
        r@ == message_envelope(text@),
{
    let mut object = serde_json::Map::new();
    object.insert("message".to_string(), serde_json::Value::String(text.to_string()));
    serde_json::Value::Object(object).to_string()
}

/// A line that is JSON passes through as it is; anything else is wrapped
/// as the message of a JSON object.
pub fn jsonify_line(line: &str) -> (r: String)
    ensures
        r@ == if json_valid(line@) {
            line@
        } else {
            message_envelope(line@)
        },
{
    if is_json(line) {
        string_of(&chars_of(line))
    } else {
        wrap_message(line)
    }
}

// ---- the command line -------------------------------------------------

pub open spec fn strs(v: Seq<String>) -> Seq<Seq<char>> {
    v.map_values(|s: String| s@)
}

/// Where the command to run begins: the first argument that is `--exec`
/// or `-e`, or starts with `--exec=`.
pub open spec fn exec_at(args: Seq<Seq<char>>) -> int
    decreases args.len(),
{
    if args.len() == 0 {
        0
    } else if args[0] == "--exec"@ || args[0] == "-e"@ || ("--exec="@.len() <= args[0].len()
        && args[0].take(7) == "--exec="@) {
        0
    } else {
        1 + exec_at(args.drop_first())
    }
}

/// The arguments for the viewer, and the command it should run and read
/// from, if one is given: everything after `--exec` or `-e`, or the value
/// of `--exec=` and everything after it.
pub open spec fn split_exec(args: Seq<Seq<char>>) -> (Seq<Seq<char>>, Option<Seq<Seq<char>>>) {
    let i = exec_at(args);
    if i >= args.len() {
        (args, None)
    } else if args[i] == "--exec"@ || args[i] == "-e"@ {
        (args.take(i), Some(args.skip(i + 1)))
    } else {
        (args.take(i), Some(seq![args[i].skip(7)] + args.skip(i + 1)))
    }
}

proof fn lemma_exec_at(args: Seq<Seq<char>>)
    ensures
        0 <= exec_at(args) <= args.len(),
    decreases args.len(),
{
    if args.len() > 0 {
        lemma_exec_at(args.drop_first());
    }
}

fn copy_strings(v: &Vec<String>, from: usize, to: usize) -> (r: Vec<String>)
    requires
        from <= to <= v@.len(),
    ensures
        strs(r@) == strs(v@).subrange(from as int, to as int),
{
    let mut out: Vec<String> = Vec::new();
    let mut i = from;
    while i < to
        invariant
            from <= i <= to <= v@.len(),
            strs(out@) == strs(v@).subrange(from as int, i as int),
        decreases to - i,
    {
        let ghost before = strs(out@);
        out.push(v[i].clone());
        assert(strs(out@) =~= before.push(v@[i as int]@));
        i = i + 1;
        assert(strs(out@) =~= strs(v@).subrange(from as int, i as int));
    }
    out
}

/// Splits the viewer's own arguments from the command it should run.
pub fn extract_exec(argv: &Vec<String>) -> (r: (Vec<String>, Option<Vec<String>>))
    ensures
        strs(r.0@) == split_exec(strs(argv@)).0,
        match r.1 {
            Some(e) => split_exec(strs(argv@)).1 == Some(strs(e@)),
            None => split_exec(strs(argv@)).1 is None,
        },
{
    let ghost a = strs(argv@);
    proof {
        lemma_exec_at(a);
    }
    let long = chars_of("--exec");
    let short = chars_of("-e");
    let eq = chars_of("--exec=");
    proof {
        reveal_strlit("--exec=");
    }
    assert(eq@.len() == 7);
    let mut i: usize = 0;
    assert(a.skip(0) =~= a);
    while i < argv.len()
        invariant
            i <= argv@.len(),
            a == strs(argv@),
            exec_at(a) == i + exec_at(a.skip(i as int)),
            long@ == "--exec"@,
            short@ == "-e"@,
            eq@ == "--exec="@,
            eq@.len() == 7,
        decreases argv.len() - i,
    {
        let s = chars_of(argv[i].as_str());
        assert(a.skip(i as int)[0] == s@);
        assert(a.skip(i as int).drop_first() =~= a.skip(i + 1));
        if chars_eq(&s, &long) || chars_eq(&s, &short) {
            let rest = copy_strings(argv, 0, i);
            let exec = copy_strings(argv, i + 1, argv.len());
            assert(a.subrange(0, i as int) =~= a.take(i as int));
            assert(a.subrange(i + 1, a.len() as int) =~= a.skip(i + 1));
            return (rest, Some(exec));
        }
        if crate::text::starts_with(&s, &eq) {
            let rest = copy_strings(argv, 0, i);
            let mut exec: Vec<String> = Vec::new();
            exec.push(string_of(&crate::text::slice_vec(&s, 7, s.len())));
            let tail = copy_strings(argv, i + 1, argv.len());
            let mut k: usize = 0;
            let ghost head = strs(exec@);
            while k < tail.len()
                invariant
                    k <= tail@.len(),
                    strs(exec@) == head + strs(tail@).take(k as int),
                decreases tail.len() - k,
            {
                let ghost b = strs(exec@);
                exec.push(tail[k].clone());
                assert(strs(exec@) =~= b.push(tail@[k as int]@));
                k = k + 1;
                assert(strs(exec@) =~= head + strs(tail@).take(k as int));
            }
            assert(strs(tail@).take(k as int) =~= strs(tail@));
            assert(a.subrange(0, i as int) =~= a.take(i as int));
            assert(a.subrange(i + 1, a.len() as int) =~= a.skip(i + 1));
            assert(s@.subrange(7, s@.len() as int) =~= s@.skip(7));
            assert(head =~= seq![a[i as int].skip(7)]);
            return (rest, Some(exec));
        }
        i = i + 1;
    }
    let all = copy_strings(argv, 0, argv.len());
    assert(a.subrange(0, a.len() as int) =~= a);
    (all, None)
}

/// The whitespace-separated words of a string, as `split_whitespace`.
pub open spec fn words_of(s: Seq<char>) -> Seq<Seq<char>>
    decreases s.len(),
{
    let t = crate::text::trim_start(s);
    if t.len() == 0 {
        Seq::empty()
    } else {
        let n = first_ws(t);
        proof {
            lemma_first_ws(t);
            lemma_trim_start_shorter(s);
        }
        seq![t.take(n)] + words_of(t.skip(n))
    }
}

/// Index of the first whitespace character, or the length.
pub open spec fn first_ws(s: Seq<char>) -> int
    decreases s.len(),
{
    if s.len() == 0 {
        0
    } else if crate::text::is_ws(s[0]) {
        0
    } else {
        1 + first_ws(s.drop_first())
    }
}

pub proof fn lemma_first_ws(s: Seq<char>)
    ensures
        0 <= first_ws(s) <= s.len(),
        s.len() > 0 && !crate::text::is_ws(s[0]) ==> first_ws(s) >= 1,
        first_ws(s) < s.len() ==> crate::text::is_ws(s[first_ws(s)]),
        forall|j: int| 0 <= j < first_ws(s) ==> !crate::text::is_ws(#[trigger] s[j]),
    decreases s.len(),
{
    if s.len() > 0 && !crate::text::is_ws(s[0]) {
        lemma_first_ws(s.drop_first());
        assert forall|j: int| 0 <= j < first_ws(s) implies !crate::text::is_ws(#[trigger] s[j]) by {
            if j > 0 {
                assert(s[j] == s.drop_first()[j - 1]);
            }
        }
    }
}

pub proof fn lemma_trim_start_shorter(s: Seq<char>)
    ensures
        crate::text::trim_start(s).len() <= s.len(),
        crate::text::trim_start(s).len() > 0 ==> !crate::text::is_ws(crate::text::trim_start(s)[0]),
    decreases s.len(),
{
    if s.len() > 0 && crate::text::is_ws(s[0]) {
        lemma_trim_start_shorter(s.drop_first());
    }
}

/// Splits a command line at whitespace, without any quoting.
pub fn shell_split(s: &str) -> (r: Vec<String>)
    ensures
        strs(r@) == words_of(s@),
{
    let cs = chars_of(s);
    let mut out: Vec<String> = Vec::new();
    let mut i: usize = 0;
    assert(cs@.skip(0) =~= cs@);
    assert(strs(out@) + words_of(cs@.skip(0)) =~= words_of(s@));
    while i < cs.len()
        invariant
            i <= cs@.len(),
            cs@ == s@,
            strs(out@) + words_of(cs@.skip(i as int)) == words_of(s@),
        decreases cs.len() - i,
    {
        let ghost t0 = cs@.skip(i as int);
        let mut j = i;
        assert(cs@.skip(j as int) =~= t0);
        while j < cs.len() && crate::text::is_whitespace(cs[j])
            invariant
                i <= j <= cs@.len(),
                crate::text::trim_start(t0) == crate::text::trim_start(cs@.skip(j as int)),
            decreases cs.len() - j,
        {
            assert(cs@.skip(j as int).drop_first() =~= cs@.skip(j + 1));
            j = j + 1;
        }
        let ghost t = cs@.skip(j as int);
        assert(crate::text::trim_start(t0) == t);
        if j == cs.len() {
            assert(words_of(t0) =~= Seq::<Seq<char>>::empty());
            assert(strs(out@) + words_of(cs@.skip(j as int)) =~= words_of(s@));
            i = j;
        } else {
            let mut k = j;
            assert(cs@.skip(k as int) =~= t);
            while k < cs.len() && !crate::text::is_whitespace(cs[k])
                invariant
                    j <= k <= cs@.len(),
                    t == cs@.skip(j as int),
                    first_ws(t) == (k - j) + first_ws(cs@.skip(k as int)),
                decreases cs.len() - k,
            {
                assert(cs@.skip(k as int).drop_first() =~= cs@.skip(k + 1));
                k = k + 1;
            }
            let word = crate::text::slice_vec(&cs, j, k);
            assert(word@ =~= t.take(k - j));
            assert(t.skip(k - j) =~= cs@.skip(k as int));
            let ghost before = strs(out@);
            out.push(string_of(&word));
            assert(strs(out@) =~= before.push(word@));
            assert(words_of(t0) == seq![t.take(k - j)] + words_of(t.skip(k - j)));
            assert(strs(out@) + words_of(cs@.skip(k as int)) =~= before + words_of(t0));
            i = k;
        }
    }
    assert(words_of(cs@.skip(i as int)) =~= Seq::<Seq<char>>::empty());
    assert(strs(out@) =~= words_of(s@));
    out
}

} // verus!
