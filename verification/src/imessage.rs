//! Names for the phone numbers and email addresses in the Messages
//! database, and the text hidden in a message's `attributedBody`.

use vstd::prelude::*;

use crate::logs::{ascii_lower, lowercase_of, to_lowercase};
use crate::matcher::{occurs, occurs_in};
use crate::statement::{date_text, string_views, zero_padded, zero_padded_chars, Date};
use crate::text::{
    all_digits, chars_eq, chars_of, is_blank, is_digit, joined, push_chars, push_str, slice_vec,
    all_ascii, str_eq, string_of, trim, trim_chars,
};

verus! {

// ---- handles ----------------------------------------------------------

/// The ASCII digits of `s`, in order.
pub open spec fn digits_of(s: Seq<char>) -> Seq<char>
    decreases s.len(),
{
    if s.len() == 0 {
        s
    } else if is_digit(s.last()) {
        digits_of(s.drop_last()).push(s.last())
    } else {
        digits_of(s.drop_last())
    }
}

/// One spelling for a handle. An email address (anything with an `@`) is
/// trimmed and lower-cased. A phone number is reduced to its digits with
/// the country code: `+` or `00` in front marks one, and a number that
/// starts with a single `0` is taken as Swedish.
pub open spec fn handle_key(handle: Seq<char>) -> Seq<char> {
    let h = trim(handle);
    let digits = digits_of(h);
    if h.contains('@') {
        lowercase_of(h)
    } else if h.len() > 0 && h[0] == '+' {
        digits
    } else if digits.len() >= 2 && digits[0] == '0' && digits[1] == '0' {
        digits.skip(2)
    } else if digits.len() >= 1 && digits[0] == '0' {
        seq!['4', '6'] + digits.skip(1)
    } else {
        digits
    }
}

/// One spelling for a phone number, whichever way it was written.
pub fn normalize(handle: &str) -> (r: String)
    ensures
        r@ == handle_key(handle@),
        trim(handle@).contains('@') && all_ascii(trim(handle@)) ==> r@ == ascii_lower(trim(handle@)),
{
    let h = trim_chars(&chars_of(handle));
    let mut digits: Vec<char> = Vec::new();
    let mut at = false;
    let mut i: usize = 0;
    while i < h.len()
        invariant
            i <= h@.len(),
            digits@ == digits_of(h@.take(i as int)),
            at == h@.take(i as int).contains('@'),
        decreases h.len() - i,
    {
        assert(h@.take(i + 1).drop_last() =~= h@.take(i as int));
        let c = h[i];
        if c == '@' {
            at = true;
        }
        if '0' <= c && c <= '9' {
            digits.push(c);
        }
        i = i + 1;
        proof {
            let t = h@.take(i as int);
            if t.contains('@') && c != '@' {
                let k = choose|k: int| 0 <= k < t.len() && #[trigger] t[k] == '@';
                assert(h@.take(i - 1)[k] == '@');
            }
            let prev = h@.take(i - 1);
            if prev.contains('@') {
                let k = choose|k: int| 0 <= k < prev.len() && #[trigger] prev[k] == '@';
                assert(t[k] == '@');
            }
            if c == '@' {
                assert(t[i - 1] == '@');
            }
        }
    }
    assert(h@.take(i as int) =~= h@);
    if at {
        let text = string_of(&h);
        return to_lowercase(text.as_str());
    }
    if h.len() > 0 && h[0] == '+' {
        return string_of(&digits);
    }
    let n = digits.len();
    if n >= 2 && digits[0] == '0' && digits[1] == '0' {
        let rest = slice_vec(&digits, 2, n);
        assert(rest@ =~= digits@.skip(2));
        return string_of(&rest);
    }
    if n >= 1 && digits[0] == '0' {
        let mut out: Vec<char> = Vec::new();
        out.push('4');
        out.push('6');
        let rest = slice_vec(&digits, 1, n);
        crate::text::push_chars(&mut out, &rest);
        assert(out@ =~= seq!['4', '6'] + digits@.skip(1));
        return string_of(&out);
    }
    string_of(&digits)
}

/// The name a Contacts record goes by: first and last name, those that are
/// not blank, joined by a space; failing that the organisation, failing
/// that the nickname; nothing if what is left is blank.
pub open spec fn record_name_of(
    first: Option<Seq<char>>,
    last: Option<Seq<char>>,
    org: Option<Seq<char>>,
    nick: Option<Seq<char>>,
) -> Option<Seq<char>> {
    let f = match first {
        Some(x) => if crate::text::is_blank(x) {
            Seq::<char>::empty()
        } else {
            x
        },
        None => Seq::empty(),
    };
    let l = match last {
        Some(x) => if crate::text::is_blank(x) {
            Seq::<char>::empty()
        } else {
            x
        },
        None => Seq::empty(),
    };
    let person = if f.len() > 0 && l.len() > 0 {
        f + seq![' '] + l
    } else {
        f + l
    };
    let chosen = if person.len() > 0 {
        Some(person)
    } else if org is Some {
        org
    } else {
        nick
    };
    match chosen {
        Some(n) => if crate::text::is_blank(n) {
            None
        } else {
            Some(n)
        },
        None => None,
    }
}

pub open spec fn opt_chars(s: Option<&str>) -> Option<Seq<char>> {
    match s {
        Some(x) => Some(x@),
        None => None,
    }
}

fn usable(part: Option<&str>) -> (r: Vec<char>)
    ensures
        r@ == match part {
            Some(x) => if crate::text::is_blank(x@) {
                Seq::<char>::empty()
            } else {
                x@
            },
            None => Seq::<char>::empty(),
        },
{
    match part {
        Some(x) => {
            let cs = chars_of(x);
            if crate::text::blank(&cs) {
                Vec::new()
            } else {
                cs
            }
        },
        None => Vec::new(),
    }
}

/// The name a Contacts record goes by, if it has one.
pub fn record_name(first: Option<&str>, last: Option<&str>, org: Option<&str>, nick: Option<&str>) -> (r:
    Option<String>)
    ensures
        match r {
            Some(n) => record_name_of(
                opt_chars(first),
                opt_chars(last),
                opt_chars(org),
                opt_chars(nick),
            ) == Some(n@),
            None => record_name_of(
                opt_chars(first),
                opt_chars(last),
                opt_chars(org),
                opt_chars(nick),
            ) is None,
        },
{
    let f = usable(first);
    let l = usable(last);
    let mut person: Vec<char> = Vec::new();
    crate::text::push_chars(&mut person, &f);
    if f.len() > 0 && l.len() > 0 {
        person.push(' ');
    }
    crate::text::push_chars(&mut person, &l);
    assert(person@ =~= if f@.len() > 0 && l@.len() > 0 {
        f@ + seq![' '] + l@
    } else {
        f@ + l@
    });
    let chosen: Vec<char> = if person.len() > 0 {
        person
    } else {
        match org {
            Some(o) => chars_of(o),
            None => match nick {
                Some(n) => chars_of(n),
                None => {
                    return None;
                },
            },
        }
    };
    if crate::text::blank(&chosen) {
        None
    } else {
        Some(string_of(&chosen))
    }
}

/// Handle to name. Empty when Contacts could not be read, in which case
/// every handle shows as itself.
#[derive(Debug, Default)]
pub struct Contacts {
    /// Each key once, with the name it was first given.
    pub names: Vec<(String, String)>,
}

pub open spec fn keys_distinct(names: Seq<(String, String)>) -> bool {
    forall|i: int, j: int|
        0 <= i < j < names.len() ==> (#[trigger] names[i]).0@ != (#[trigger] names[j]).0@
}

/// The name filed under a key, if any.
pub open spec fn name_for(names: Seq<(String, String)>, key: Seq<char>) -> Option<Seq<char>> {
    if exists|i: int| 0 <= i < names.len() && (#[trigger] names[i]).0@ == key {
        Some(names[choose|i: int| 0 <= i < names.len() && (#[trigger] names[i]).0@ == key].1@)
    } else {
        None
    }
}

fn find_key(names: &Vec<(String, String)>, key: &str) -> (r: Option<usize>)
    ensures
        match r {
            Some(i) => i < names@.len() && names@[i as int].0@ == key@,
            None => forall|i: int| 0 <= i < names@.len() ==> (#[trigger] names@[i]).0@ != key@,
        },
{
    let mut i: usize = 0;
    while i < names.len()
        invariant
            i <= names@.len(),
            forall|j: int| 0 <= j < i ==> (#[trigger] names@[j]).0@ != key@,
        decreases names.len() - i,
    {
        if str_eq(names[i].0.as_str(), key) {
            return Some(i);
        }
        i = i + 1;
    }
    None
}

impl Contacts {
    pub open spec fn well_formed(&self) -> bool {
        keys_distinct(self.names@)
    }

    /// What the contacts know: the name for each key.
    pub open spec fn lookup(&self, key: Seq<char>) -> Option<Seq<char>> {
        name_for(self.names@, key)
    }

    pub fn new() -> (c: Contacts)
        ensures
            c.well_formed(),
            forall|k: Seq<char>| c.lookup(k) is None,
    {
        Contacts { names: Vec::new() }
    }

    /// Files a name under a key, unless the key already has one: the first
    /// record to claim a number keeps it.
    pub fn add(&mut self, key: String, name: String)
        requires
            old(self).well_formed(),
        ensures
            final(self).well_formed(),
            forall|k: Seq<char>|
                #[trigger] final(self).lookup(k) == if k == key@ && old(self).lookup(k) is None {
                    Some(name@)
                } else {
                    old(self).lookup(k)
                },
    {
        match find_key(&self.names, key.as_str()) {
            Some(_) => {},
            None => {
                let ghost before = self.names@;
                self.names.push((key, name));
                proof {
                    assert forall|k: Seq<char>| #[trigger] self.lookup(k) == if k == key@
                        && name_for(before, k) is None {
                        Some(name@)
                    } else {
                        name_for(before, k)
                    } by {
                        let now = self.names@;
                        if exists|i: int| 0 <= i < before.len() && (#[trigger] before[i]).0@ == k {
                            let i = choose|i: int| 0 <= i < before.len() && (#[trigger] before[i]).0@
                                == k;
                            assert(now[i] == before[i]);
                            let c = choose|i: int| 0 <= i < now.len() && (#[trigger] now[i]).0@ == k;
                            if c != i {
                                if c < i {
                                    assert(now[c] == before[c]);
                                } else if c > i && c < before.len() {
                                    assert(now[c] == before[c]);
                                }
                            }
                        } else if k == key@ {
                            assert(now[before.len() as int].0@ == k);
                            let c = choose|i: int| 0 <= i < now.len() && (#[trigger] now[i]).0@ == k;
                            if c < before.len() {
                                assert(now[c] == before[c]);
                            }
                        } else {
                            if exists|i: int| 0 <= i < now.len() && (#[trigger] now[i]).0@ == k {
                                let c = choose|i: int| 0 <= i < now.len() && (#[trigger] now[i]).0@
                                    == k;
                                assert(now[c] == before[c]);
                            }
                        }
                    }
                }
            },
        }
    }

    /// Files a phone number from Contacts under its normalised spelling.
    pub fn add_phone(&mut self, number: &str, name: String)
        requires
            old(self).well_formed(),
        ensures
            final(self).well_formed(),
            forall|k: Seq<char>|
                #[trigger] final(self).lookup(k) == if k == handle_key(number@) && old(
                    self,
                ).lookup(k) is None {
                    Some(name@)
                } else {
                    old(self).lookup(k)
                },
    {
        let key = normalize(number);
        self.add(key, name);
    }

    /// Files an email address from Contacts, trimmed and lower-cased.
    pub fn add_email(&mut self, address: &str, name: String)
        requires
            old(self).well_formed(),
        ensures
            final(self).well_formed(),
            forall|k: Seq<char>|
                #[trigger] final(self).lookup(k) == if k == lowercase_of(trim(address@)) && old(
                    self,
                ).lookup(k) is None {
                    Some(name@)
                } else {
                    old(self).lookup(k)
                },
    {
        let trimmed = string_of(&trim_chars(&chars_of(address)));
        let key = to_lowercase(trimmed.as_str());
        self.add(key, name);
    }

    /// The name for a handle, or the handle itself.
    pub fn name<'a>(&'a self, handle: &'a str) -> (r: &'a str)
        requires
            self.well_formed(),
        ensures
            r@ == match self.lookup(handle_key(handle@)) {
                Some(n) => n,
                None => handle@,
            },
    {
        let key = normalize(handle);
        match find_key(&self.names, key.as_str()) {
            Some(i) => {
                proof {
                    let c = choose|j: int|
                        0 <= j < self.names@.len() && (#[trigger] self.names@[j]).0@ == key@;
                    if c != i as int {
                        if c < i {
                            assert(self.names@[c].0@ != self.names@[i as int].0@);
                        } else {
                            assert(self.names@[i as int].0@ != self.names@[c].0@);
                        }
                    }
                }
                self.names[i].1.as_str()
            },
            None => handle,
        }
    }

    pub fn is_empty(&self) -> (r: bool)
        ensures
            r == (self.names@.len() == 0),
    {
        self.names.len() == 0
    }
}

// ---- attributed bodies ------------------------------------------------

/// The text bytes decode to, invalid sequences replaced.
pub uninterp spec fn lossy_utf8(bytes: Seq<u8>) -> Seq<char>;

/// `String::from_utf8_lossy`: the text the bytes spell, with U+FFFD for
/// each invalid sequence. Valid UTF-8 decodes exactly; the replacements
/// are named rather than stated.
#[verifier::external_body]
pub(crate) fn from_utf8_lossy(bytes: &[u8]) -> (r: String)
    ensures
        r@ == lossy_utf8(bytes@),
        vstd::utf8::valid_utf8(bytes@) ==> r@ == vstd::utf8::decode_utf8(bytes@),
{
    String::from_utf8_lossy(bytes).into_owned()
}

pub open spec fn marker() -> Seq<u8> {
    seq![0x4eu8, 0x53u8, 0x53u8, 0x74u8, 0x72u8, 0x69u8, 0x6eu8, 0x67u8]
}

/// Where `NSString` first occurs at or after `i`, or nothing.
pub open spec fn marker_from(body: Seq<u8>, i: int) -> Option<int>
    decreases body.len() - i,
{
    if i < 0 || i + 8 > body.len() {
        None
    } else if body.subrange(i, i + 8) == marker() {
        Some(i)
    } else {
        marker_from(body, i + 1)
    }
}

/// Where `NSString` first occurs, or nothing.
pub open spec fn marker_at(body: Seq<u8>) -> Option<int> {
    marker_from(body, 0)
}

/// A typedstream length: one byte, or 0x81 and two bytes little-endian,
/// or 0x82 and four. Whether there are enough bytes, the length, and where
/// the bytes it counts begin.
pub open spec fn length_prefix(rest: Seq<u8>) -> (bool, int, int) {
    if rest[0] == 0x81u8 {
        (rest.len() >= 3, rest[1] as int + 256 * rest[2] as int, 3int)
    } else if rest[0] == 0x82u8 {
        (
            rest.len() >= 5,
            rest[1] as int + 256 * rest[2] as int + 65536 * rest[3] as int + 16777216
                * rest[4] as int,
            5int,
        )
    } else {
        (true, rest[0] as int, 1int)
    }
}

fn read_length(body: &[u8], from: usize) -> (r: Option<(u64, usize)>)
    requires
        from < body.len(),
    ensures
        match r {
            Some((len, start)) => length_prefix(body@.skip(from as int)) == (
                true,
                len as int,
                start as int,
            ),
            None => !length_prefix(body@.skip(from as int)).0,
        },
{
    let ghost rest = body@.skip(from as int);
    let first = body[from];
    let avail = body.len() - from;
    assert(rest[0] == first);
    if first == 0x81 {
        if avail < 3 {
            return None;
        }
        assert(rest[1] == body@[from + 1] && rest[2] == body@[from + 2]);
        Some((body[from + 1] as u64 + 256 * body[from + 2] as u64, 3))
    } else if first == 0x82 {
        if avail < 5 {
            return None;
        }
        assert(rest[1] == body@[from + 1] && rest[2] == body@[from + 2] && rest[3] == body@[from
            + 3] && rest[4] == body@[from + 4]);
        Some(
            (
                body[from + 1] as u64 + 256 * body[from + 2] as u64 + 65536 * body[from + 3] as u64
                    + 16777216 * body[from + 4] as u64,
                5,
            ),
        )
    } else {
        Some((first as u64, 1))
    }
}

fn copy_bytes(body: &[u8], from: usize, to: usize) -> (r: Vec<u8>)
    requires
        from <= to <= body.len(),
    ensures
        r@ == body@.subrange(from as int, to as int),
{
    let mut bytes: Vec<u8> = Vec::new();
    let mut k: usize = from;
    while k < to
        invariant
            from <= k <= to <= body.len(),
            bytes@ == body@.subrange(from as int, k as int),
        decreases to - k,
    {
        bytes.push(body[k]);
        k = k + 1;
        assert(bytes@ =~= body@.subrange(from as int, k as int));
    }
    bytes
}

/// The bytes of the first `NSString` in a typedstream: after the marker
/// and a five-byte preamble, a length of one byte, or 0x81 and two bytes
/// little-endian, or 0x82 and four, then that many bytes.
pub open spec fn attributed_bytes(body: Seq<u8>) -> Option<Seq<u8>> {
    match marker_at(body) {
        None => None,
        Some(at) => {
            let from = at + 8 + 5;
            if from >= body.len() {
                None
            } else {
                let rest = body.skip(from);
                let (ok, len, start) = length_prefix(rest);
                if !ok || start + len > rest.len() {
                    None
                } else {
                    Some(rest.subrange(start, start + len))
                }
            }
        },
    }
}

fn bytes_at(body: &[u8], i: usize) -> (r: bool)
    requires
        i + 8 <= body.len(),
    ensures
        r == (body@.subrange(i as int, i + 8) == marker()),
{
    let want: [u8; 8] = [0x4e, 0x53, 0x53, 0x74, 0x72, 0x69, 0x6e, 0x67];
    assert(want@ =~= marker());
    let mut j: usize = 0;
    while j < 8
        invariant
            i + 8 <= body.len(),
            j <= 8,
            want@ == marker(),
            forall|k: int| 0 <= k < j ==> body@[i + k] == want@[k],
        decreases 8 - j,
    {
        if body[i + j] != want[j] {
            assert(body@.subrange(i as int, i + 8)[j as int] != marker()[j as int]);
            return false;
        }
        j = j + 1;
    }
    assert(body@.subrange(i as int, i + 8) =~= marker());
    true
}

fn find_marker(body: &[u8]) -> (r: Option<usize>)
    ensures
        match r {
            Some(i) => marker_at(body@) == Some(i as int) && i + 8 <= body@.len(),
            None => marker_at(body@) is None,
        },
{
    if body.len() < 8 {
        return None;
    }
    let last = body.len() - 8;
    let mut i: usize = 0;
    loop
        invariant
            body.len() >= 8,
            last == body.len() - 8,
            i <= last,
            marker_at(body@) == marker_from(body@, i as int),
        decreases last - i,
    {
        if bytes_at(body, i) {
            return Some(i);
        }
        if i == last {
            assert(marker_from(body@, i + 1) is None);
            return None;
        }
        i = i + 1;
    }
}

/// The text of a message's `attributedBody`: the first `NSString` in
/// Apple's typedstream format, decoded leniently. Nothing when the body
/// does not have that shape.
pub fn decode_attributed_body(body: &[u8]) -> (r: Option<String>)
    ensures
        match r {
            Some(s) => attributed_bytes(body@) matches Some(b) && s@ == lossy_utf8(b),
            None => attributed_bytes(body@) is None,
        },
{
    let at = match find_marker(body) {
        Some(i) => i,
        None => {
            return None;
        },
    };
    if at >= body.len() || body.len() - at <= 13 {
        return None;
    }
    let from = at + 13;
    let (len, start) = match read_length(body, from) {
        Some(p) => p,
        None => {
            return None;
        },
    };
    let avail = body.len() - from;
    if start > avail || len > (avail - start) as u64 {
        return None;
    }
    let n = len as usize;
    let bytes = copy_bytes(body, from + start, from + start + n);
    let ghost rest = body@.skip(from as int);
    assert(bytes@ =~= rest.subrange(start as int, start + n));
    Some(from_utf8_lossy(&bytes))
}

// ---- messages ------------------------------------------------------------

/// Seconds from the Unix epoch to 2001-01-01, where Apple's dates start.
pub const APPLE_EPOCH: i64 = 978_307_200;

/// A Unix time, seconds and nanoseconds, as Apple stores it: nanoseconds
/// since 2001.
pub open spec fn apple_of(secs: int, nanos: int) -> int {
    (secs - APPLE_EPOCH) * 1_000_000_000 + nanos
}

pub fn to_apple(secs: i64, nanos: u32) -> (r: i64)
    requires
        i64::MIN <= apple_of(secs as int, nanos as int) <= i64::MAX,
        secs >= i64::MIN + APPLE_EPOCH,
    ensures
        r == apple_of(secs as int, nanos as int),
{
    let s = secs as i128 - APPLE_EPOCH as i128;
    let v = s * 1_000_000_000i128 + nanos as i128;
    v as i64
}

/// Division rounding toward zero, as Rust's `/` does.
pub open spec fn div_toward_zero(a: int, b: int) -> int {
    if a >= 0 {
        a / b
    } else {
        -((-a) / b)
    }
}

/// An Apple date as Unix seconds and what is left in nanoseconds: current
/// databases store nanoseconds, old ones seconds, and a value too large
/// to be seconds is nanoseconds.
pub open spec fn unix_of(value: int) -> (int, int) {
    if value > 10_000_000_000 || value < -10_000_000_000 {
        let secs = div_toward_zero(value, 1_000_000_000);
        (secs + APPLE_EPOCH, value - secs * 1_000_000_000)
    } else {
        (value + APPLE_EPOCH, 0)
    }
}

pub fn from_apple(value: i64) -> (r: (i64, i64))
    ensures
        (r.0 as int, r.1 as int) == unix_of(value as int),
{
    let v = value as i128;
    if v > 10_000_000_000 || v < -10_000_000_000 {
        let a: u128 = if v < 0 {
            (-v) as u128
        } else {
            v as u128
        };
        let q = (a / 1_000_000_000) as i128;
        let secs: i128 = if v < 0 {
            -q
        } else {
            q
        };
        assert(secs == div_toward_zero(v as int, 1_000_000_000));
        let rest = v - secs * 1_000_000_000;
        assert(0 <= q <= a);
        assert(a <= 9223372036854775808);
        assert(q <= 9223372037) by (nonlinear_arith)
            requires
                q == a / 1_000_000_000,
                a <= 9223372036854775808,
        ;
        assert(-1_000_000_000 < rest < 1_000_000_000) by (nonlinear_arith)
            requires
                q == a / 1_000_000_000,
                (v < 0 ==> secs == -q) && (v >= 0 ==> secs == q),
                (v < 0 ==> a == -v) && (v >= 0 ==> a == v),
                rest == v - secs * 1_000_000_000,
        ;
        ((secs + APPLE_EPOCH as i128) as i64, rest as i64)
    } else {
        ((v + APPLE_EPOCH as i128) as i64, 0)
    }
}

/// A local time as a log shows it: the day, its weekday (Monday first,
/// from 0), the hour and the minute.
#[derive(Debug, Clone, Copy, PartialEq, Eq, Structural)]
pub struct Stamp {
    pub date: Date,
    pub weekday: u32,
    pub hour: u32,
    pub minute: u32,
}

/// One row of the message query.
#[derive(Debug, Clone)]
pub struct MessageRow {
    pub date: i64,
    pub from_me: bool,
    pub text: Option<String>,
    pub body: Option<Vec<u8>>,
    pub attachments: bool,
    pub handle: Option<String>,
    pub chat: Option<i64>,
    pub chat_name: Option<String>,
    pub style: Option<i64>,
}

/// One message, as much of it as a log needs.
#[derive(Debug, Clone)]
pub struct Message {
    pub sent: Stamp,
    pub from_me: bool,
    /// The other party's handle, for a message someone else sent; empty
    /// for my own.
    pub sender: String,
    /// Everyone else in the conversation, by handle.
    pub participants: Vec<String>,
    /// A group chat's name, when it has one.
    pub chat_name: Option<String>,
    pub group: bool,
    pub text: String,
    pub attachments: bool,
}

/// The text without the object-replacement characters that stand in for
/// attachments.
pub open spec fn without_objects(s: Seq<char>) -> Seq<char>
    decreases s.len(),
{
    if s.len() == 0 {
        s
    } else if s.last() == '\u{fffc}' {
        without_objects(s.drop_last())
    } else {
        without_objects(s.drop_last()).push(s.last())
    }
}

/// A message's text: the text column unless it is blank, else what the
/// attributed body holds, else nothing; attachment marks dropped and the
/// whole trimmed.
pub open spec fn message_text_of(text: Option<Seq<char>>, body: Option<Seq<u8>>) -> Seq<char> {
    let chosen = match text {
        Some(t) if !is_blank(t) => t,
        _ => match body {
            Some(b) => match attributed_bytes(b) {
                Some(bytes) => lossy_utf8(bytes),
                None => Seq::empty(),
            },
            None => Seq::empty(),
        },
    };
    trim(without_objects(chosen))
}

pub fn message_text(text: &Option<String>, body: &Option<Vec<u8>>) -> (r: String)
    ensures
        r@ == message_text_of(
            match text {
                Some(t) => Some(t@),
                None => None,
            },
            match body {
                Some(b) => Some(b@),
                None => None,
            },
        ),
{
    let mut chosen: Vec<char> = Vec::new();
    let mut have = false;
    match text {
        Some(t) => {
            let cs = chars_of(t.as_str());
            if !crate::text::blank(&cs) {
                chosen = cs;
                have = true;
            }
        },
        None => {},
    }
    if !have {
        match body {
            Some(b) => match decode_attributed_body(b.as_slice()) {
                Some(s) => {
                    chosen = chars_of(s.as_str());
                },
                None => {},
            },
            None => {},
        }
    }
    let mut kept: Vec<char> = Vec::new();
    let mut i: usize = 0;
    while i < chosen.len()
        invariant
            i <= chosen@.len(),
            kept@ == without_objects(chosen@.take(i as int)),
        decreases chosen.len() - i,
    {
        assert(chosen@.take(i + 1).drop_last() =~= chosen@.take(i as int));
        assert(chosen@.take(i + 1).last() == chosen@[i as int]);
        if chosen[i] != '\u{fffc}' {
            kept.push(chosen[i]);
        }
        i = i + 1;
    }
    assert(chosen@.take(i as int) =~= chosen@);
    string_of(&trim_chars(&kept))
}

/// The participants of each chat, by chat, each handle once.
pub struct Participants {
    pub chats: Vec<(i64, Vec<String>)>,
}

pub open spec fn participants_of(ps: Seq<(i64, Vec<String>)>, chat: i64) -> Option<Seq<Seq<char>>>
    decreases ps.len(),
{
    if ps.len() == 0 {
        None
    } else if ps.last().0 == chat {
        Some(crate::statement::string_views(ps.last().1@))
    } else {
        participants_of(ps.drop_last(), chat)
    }
}

fn copy_strings(v: &Vec<String>) -> (r: Vec<String>)
    ensures
        crate::statement::string_views(r@) == crate::statement::string_views(v@),
{
    let mut out: Vec<String> = Vec::new();
    let mut i: usize = 0;
    while i < v.len()
        invariant
            i <= v@.len(),
            crate::statement::string_views(out@) =~= crate::statement::string_views(v@.take(i as int)),
        decreases v.len() - i,
    {
        let ghost before = out@;
        out.push(string_of(&chars_of(v[i].as_str())));
        assert(crate::statement::string_views(out@) =~= crate::statement::string_views(before).push(v@[i as int]@));
        assert(v@.take(i + 1) =~= v@.take(i as int).push(v@[i as int]));
        i = i + 1;
    }
    assert(v@.take(i as int) =~= v@);
    out
}

impl Participants {
    pub fn new() -> (r: Participants)
        ensures
            r.chats@.len() == 0,
    {
        Participants { chats: Vec::new() }
    }

    /// Where a chat's list is, the last if there are several.
    fn find(&self, chat: i64) -> (r: Option<usize>)
        ensures
            match r {
                Some(i) => i < self.chats@.len() && self.chats@[i as int].0 == chat && forall|j: int|
                    i < j < self.chats@.len() ==> (#[trigger] self.chats@[j]).0 != chat,
                None => forall|j: int| 0 <= j < self.chats@.len() ==> (#[trigger] self.chats@[j]).0 != chat,
            },
    {
        let mut i: usize = self.chats.len();
        while i > 0
            invariant
                i <= self.chats@.len(),
                forall|j: int| i <= j < self.chats@.len() ==> (#[trigger] self.chats@[j]).0 != chat,
            decreases i,
        {
            if self.chats[i - 1].0 == chat {
                return Some(i - 1);
            }
            i = i - 1;
        }
        None
    }

    /// Adds a handle to a chat's list unless it is there already.
    pub fn add(&mut self, chat: i64, handle: String)
        ensures
            participants_of(final(self).chats@, chat) == Some(
                match participants_of(old(self).chats@, chat) {
                    Some(p) => if p.contains(handle@) {
                        p
                    } else {
                        p.push(handle@)
                    },
                    None => seq![handle@],
                },
            ),
            forall|c: i64| c != chat ==> #[trigger] participants_of(final(self).chats@, c)
                == participants_of(old(self).chats@, c),
    {
        proof {
            lemma_participants_of(self.chats@, chat);
        }
        match self.find(chat) {
            Some(i) => {
                let ghost list = crate::statement::string_views(self.chats@[i as int].1@);
                let mut found = false;
                let mut j: usize = 0;
                while j < self.chats[i].1.len()
                    invariant
                        i < self.chats@.len(),
                        self.chats@ == old(self).chats@,
                        list == crate::statement::string_views(self.chats@[i as int].1@),
                        j <= self.chats@[i as int].1@.len(),
                        found == exists|q: int| 0 <= q < j && list[q] == handle@,
                    decreases self.chats@[i as int].1@.len() - j,
                {
                    assert(list[j as int] == self.chats@[i as int].1@[j as int]@);
                    if str_eq(self.chats[i].1[j].as_str(), handle.as_str()) {
                        found = true;
                    }
                    j = j + 1;
                }
                assert(found == list.contains(handle@)) by {
                    if list.contains(handle@) {
                        let q = choose|q: int| 0 <= q < list.len() && list[q] == handle@;
                        assert(0 <= q < j && list[q] == handle@);
                    }
                }
                if !found {
                    let ghost before = self.chats@;
                    let (c, mut list_now) = self.chats.remove(i);
                    let ghost hv = handle@;
                    list_now.push(handle);
                    assert(crate::statement::string_views(list_now@) =~= list.push(hv));
                    self.chats.insert(i, (c, list_now));
                    assert(self.chats@ =~= before.update(i as int, (chat, list_now)));
                    proof {
                        lemma_participants_update(before, i as int, chat, list_now);
                    }
                }
            },
            None => {
                let ghost before = self.chats@;
                let mut list: Vec<String> = Vec::new();
                let ghost hv = handle@;
                list.push(handle);
                self.chats.push((chat, list));
                assert(self.chats@.drop_last() =~= before);
                assert(crate::statement::string_views(list@) =~= seq![hv]);
            },
        }
    }

    /// The participants of a chat, none if it has no list.
    pub fn of(&self, chat: i64) -> (r: Vec<String>)
        ensures
            crate::statement::string_views(r@) == match participants_of(self.chats@, chat) {
                Some(p) => p,
                None => Seq::empty(),
            },
    {
        proof {
            lemma_participants_of(self.chats@, chat);
        }
        match self.find(chat) {
            Some(i) => copy_strings(&self.chats[i].1),
            None => Vec::new(),
        }
    }
}

proof fn lemma_participants_update(ps: Seq<(i64, Vec<String>)>, i: int, chat: i64, list: Vec<String>)
    requires
        0 <= i < ps.len(),
        ps[i].0 == chat,
        forall|j: int| i < j < ps.len() ==> (#[trigger] ps[j]).0 != chat,
    ensures
        participants_of(ps.update(i, (chat, list)), chat) == Some(crate::statement::string_views(list@)),
        forall|c: i64| c != chat ==> #[trigger] participants_of(ps.update(i, (chat, list)), c)
            == participants_of(ps, c),
    decreases ps.len(),
{
    let u = ps.update(i, (chat, list));
    if i < ps.len() - 1 {
        assert(u.drop_last() =~= ps.drop_last().update(i, (chat, list)));
        assert(u.last() == ps.last());
        assert(ps.last().0 != chat);
        assert forall|j: int| i < j < ps.drop_last().len() implies (#[trigger] ps.drop_last()[j]).0 != chat by {
            assert(ps.drop_last()[j] == ps[j]);
        }
        lemma_participants_update(ps.drop_last(), i, chat, list);
        assert forall|c: i64| c != chat implies #[trigger] participants_of(u, c) == participants_of(ps, c) by {
            assert(participants_of(ps.drop_last().update(i, (chat, list)), c) == participants_of(ps.drop_last(), c));
        }
    } else {
        assert(u.drop_last() =~= ps.drop_last());
        assert(u.last() == (chat, list));
        assert forall|c: i64| c != chat implies #[trigger] participants_of(u, c) == participants_of(ps, c) by {
            assert(ps.last().0 == chat);
        }
    }
}

proof fn lemma_participants_of(ps: Seq<(i64, Vec<String>)>, chat: i64)
    ensures
        (forall|j: int| 0 <= j < ps.len() ==> (#[trigger] ps[j]).0 != chat) ==> participants_of(ps, chat) is None,
        forall|i: int|
            0 <= i < ps.len() && ps[i].0 == chat && (forall|j: int| i < j < ps.len() ==> (#[trigger] ps[j]).0 != chat)
                ==> participants_of(ps, chat) == Some(crate::statement::string_views(#[trigger] ps[i].1@)),
    decreases ps.len(),
{
    if ps.len() > 0 {
        lemma_participants_of(ps.drop_last(), chat);
        assert forall|i: int|
            0 <= i < ps.len() && ps[i].0 == chat && (forall|j: int| i < j < ps.len() ==> (#[trigger] ps[j]).0 != chat)
                implies participants_of(ps, chat) == Some(crate::statement::string_views(#[trigger] ps[i].1@)) by {
            if i < ps.len() - 1 {
                assert(ps[ps.len() - 1].0 != chat);
                assert(ps.drop_last()[i] == ps[i]);
                assert forall|j: int| i < j < ps.drop_last().len() implies (#[trigger] ps.drop_last()[j]).0 != chat by {
                    assert(ps.drop_last()[j] == ps[j]);
                }
            }
        }
        assert((forall|j: int| 0 <= j < ps.len() ==> (#[trigger] ps[j]).0 != chat) ==> participants_of(ps, chat) is None) by {
            if forall|j: int| 0 <= j < ps.len() ==> (#[trigger] ps[j]).0 != chat {
                assert(ps[ps.len() - 1].0 != chat);
                assert forall|j: int| 0 <= j < ps.drop_last().len() implies (#[trigger] ps.drop_last()[j]).0 != chat by {
                    assert(ps.drop_last()[j] == ps[j]);
                }
            }
        }
    }
}

/// The message a row makes, unless it has neither text nor attachments.
pub fn message_from_row(row: MessageRow, sent: Stamp, participants: &Participants) -> (r: Option<
    Message,
>)
    ensures
        ({
            let text = message_text_of(
                match row.text {
                    Some(t) => Some(t@),
                    None => None,
                },
                match row.body {
                    Some(b) => Some(b@),
                    None => None,
                },
            );
            match r {
                None => text.len() == 0 && !row.attachments,
                Some(m) => {
                    &&& (text.len() > 0 || row.attachments)
                    &&& m.sent == sent
                    &&& m.from_me == row.from_me
                    &&& m.sender@ == if row.from_me {
                        Seq::empty()
                    } else {
                        match row.handle {
                            Some(h) => h@,
                            None => Seq::empty(),
                        }
                    }
                    &&& crate::statement::string_views(m.participants@) == match row.chat {
                        Some(c) => match participants_of(participants.chats@, c) {
                            Some(p) => p,
                            None => Seq::empty(),
                        },
                        None => Seq::empty(),
                    }
                    &&& match m.chat_name {
                        Some(n) => row.chat_name matches Some(c) && !is_blank(c@) && n@ == c@,
                        None => !(row.chat_name matches Some(c) && !is_blank(c@)),
                    }
                    &&& m.group == (row.style == Some(43i64))
                    &&& m.text@ == text
                    &&& m.attachments == row.attachments
                },
            }
        }),
{
    let text = message_text(&row.text, &row.body);
    if chars_of(text.as_str()).len() == 0 && !row.attachments {
        return None;
    }
    proof {
        reveal_strlit("");
    }
    let sender = if row.from_me {
        String::new()
    } else {
        match &row.handle {
            Some(h) => string_of(&chars_of(h.as_str())),
            None => String::new(),
        }
    };
    let people = match row.chat {
        Some(c) => participants.of(c),
        None => Vec::new(),
    };
    let chat_name = match &row.chat_name {
        Some(n) => if crate::text::blank(&chars_of(n.as_str())) {
            None
        } else {
            Some(string_of(&chars_of(n.as_str())))
        },
        None => None,
    };
    let group = match row.style {
        Some(s) => s == 43,
        None => false,
    };
    Some(
        Message {
            sent,
            from_me: row.from_me,
            sender,
            participants: people,
            chat_name,
            group,
            text,
            attachments: row.attachments,
        },
    )
}

// ---- which messages, and how they read -------------------------------------

/// The name a handle shows as: the contact's, or the handle itself.
pub open spec fn shown_name(c: Contacts, handle: Seq<char>) -> Seq<char> {
    match c.lookup(handle_key(handle)) {
        Some(n) => n,
        None => handle,
    }
}

/// The handles of a conversation: everyone in it, and the sender.
pub open spec fn handles_of(m: Message) -> Seq<Seq<char>> {
    string_views(m.participants@) + if m.sender@.len() > 0 {
        seq![m.sender@]
    } else {
        Seq::empty()
    }
}

/// Whether a handle answers to a lower-cased query: by name, by the
/// handle itself, or, for a query with four digits or more, by number
/// however written.
pub open spec fn handle_matches(c: Contacts, handle: Seq<char>, query: Seq<char>) -> bool {
    ||| occurs_in(query, lowercase_of(shown_name(c, handle)))
    ||| occurs_in(query, lowercase_of(handle))
    ||| (digits_of(query).len() >= 4 && occurs_in(handle_key(query), handle_key(handle)))
}

/// Whether the conversation has someone in it who answers to the query.
pub open spec fn involves_spec(m: Message, query: Seq<char>, c: Contacts) -> bool {
    exists|i: int| 0 <= i < handles_of(m).len() && handle_matches(c, #[trigger] handles_of(m)[i], query)
}

fn count_digits(s: &str) -> (r: usize)
    ensures
        r == digits_of(s@).len(),
{
    let cs = chars_of(s);
    let mut n: usize = 0;
    let mut i: usize = 0;
    while i < cs.len()
        invariant
            i <= cs@.len(),
            cs@ == s@,
            n == digits_of(cs@.take(i as int)).len(),
            n <= i,
        decreases cs.len() - i,
    {
        assert(cs@.take(i + 1).drop_last() =~= cs@.take(i as int));
        assert(cs@.take(i + 1).last() == cs@[i as int]);
        if '0' <= cs[i] && cs[i] <= '9' {
            n = n + 1;
        }
        i = i + 1;
    }
    assert(cs@.take(i as int) =~= cs@);
    n
}

fn contains_text(hay: &str, needle: &str) -> (r: bool)
    ensures
        r == occurs_in(needle@, hay@),
{
    occurs(&chars_of(needle), &chars_of(hay))
}

fn matches_handle(c: &Contacts, handle: &str, query: &str, wanted: &Option<String>) -> (r: bool)
    requires
        c.well_formed(),
        match wanted {
            Some(w) => digits_of(query@).len() >= 4 && w@ == handle_key(query@),
            None => digits_of(query@).len() < 4,
        },
    ensures
        r == handle_matches(*c, handle@, query@),
{
    let name = c.name(handle);
    if contains_text(to_lowercase(name).as_str(), query) {
        return true;
    }
    if contains_text(to_lowercase(handle).as_str(), query) {
        return true;
    }
    match wanted {
        Some(w) => contains_text(normalize(handle).as_str(), w.as_str()),
        None => false,
    }
}

/// Whether the conversation has someone in it matching the lower-cased
/// query, by name or by number; digits are compared normalised, so
/// `070 000 00 01` finds `+46700000001`.
pub fn involves(m: &Message, query: &str, contacts: &Contacts) -> (r: bool)
    requires
        contacts.well_formed(),
    ensures
        r == involves_spec(*m, query@, *contacts),
{
    let wanted = if count_digits(query) >= 4 {
        Some(normalize(query))
    } else {
        None
    };
    let ghost hs = handles_of(*m);
    let mut i: usize = 0;
    while i < m.participants.len()
        invariant
            i <= m.participants@.len(),
            contacts.well_formed(),
            hs == handles_of(*m),
            match wanted {
                Some(w) => digits_of(query@).len() >= 4 && w@ == handle_key(query@),
                None => digits_of(query@).len() < 4,
            },
            forall|j: int| 0 <= j < i ==> !handle_matches(*contacts, #[trigger] hs[j], query@),
        decreases m.participants.len() - i,
    {
        assert(hs[i as int] == m.participants@[i as int]@);
        if matches_handle(contacts, m.participants[i].as_str(), query, &wanted) {
            return true;
        }
        i = i + 1;
    }
    if chars_of(m.sender.as_str()).len() > 0 {
        assert(hs[i as int] == m.sender@);
        if matches_handle(contacts, m.sender.as_str(), query, &wanted) {
            return true;
        }
        assert(hs.len() == i + 1);
    } else {
        assert(hs.len() == i);
    }
    false
}

/// Which messages a log shows: with a contact, those of conversations
/// with them (not group chats when `direct`); with a text, those that
/// contain it in any case. Both queries come lower-cased.
pub open spec fn shown_spec(m: Message, contact: Option<Seq<char>>, direct: bool, text: Option<Seq<char>>, c: Contacts) -> bool {
    &&& (contact matches Some(q) ==> (!direct || !m.group) && involves_spec(m, q, c))
    &&& (text matches Some(t) ==> occurs_in(t, lowercase_of(m.text@)))
}

/// The positions of the messages the log shows, in order.
pub fn shown_messages(
    all: &Vec<Message>,
    contact: Option<&str>,
    direct: bool,
    text: Option<&str>,
    contacts: &Contacts,
) -> (r: Vec<usize>)
    requires
        contacts.well_formed(),
    ensures
        forall|k: int| 0 <= k < r@.len() ==> (#[trigger] r@[k]) < all@.len(),
        forall|k: int, l: int| 0 <= k < l < r@.len() ==> r@[k] < r@[l],
        forall|i: int|
            0 <= i < all@.len() ==> (r@.contains(i as usize) <==> shown_spec(
                #[trigger] all@[i],
                match contact {
                    Some(q) => Some(q@),
                    None => None,
                },
                direct,
                match text {
                    Some(t) => Some(t@),
                    None => None,
                },
                *contacts,
            )),
{
    let ghost cq = match contact {
        Some(q) => Some(q@),
        None => None,
    };
    let ghost tq = match text {
        Some(t) => Some(t@),
        None => None,
    };
    let mut out: Vec<usize> = Vec::new();
    let mut i: usize = 0;
    while i < all.len()
        invariant
            i <= all@.len(),
            contacts.well_formed(),
            cq == match contact {
                Some(q) => Some(q@),
                None => None,
            },
            tq == match text {
                Some(t) => Some(t@),
                None => None,
            },
            forall|k: int| 0 <= k < out@.len() ==> (#[trigger] out@[k]) < i,
            forall|k: int, l: int| 0 <= k < l < out@.len() ==> out@[k] < out@[l],
            forall|j: int|
                0 <= j < i ==> (out@.contains(j as usize) <==> shown_spec(#[trigger] all@[j], cq, direct, tq, *contacts)),
        decreases all.len() - i,
    {
        let m = &all[i];
        let by_contact = match contact {
            Some(q) => (!direct || !m.group) && involves(m, q, contacts),
            None => true,
        };
        let by_text = match text {
            Some(t) => contains_text(to_lowercase(m.text.as_str()).as_str(), t),
            None => true,
        };
        let ghost before = out@;
        if by_contact && by_text {
            out.push(i);
        }
        assert forall|j: int| 0 <= j < i + 1 implies (out@.contains(j as usize) <==> shown_spec(
            #[trigger] all@[j],
            cq,
            direct,
            tq,
            *contacts,
        )) by {
            if j < i {
                if before.contains(j as usize) {
                    let k = choose|k: int| 0 <= k < before.len() && before[k] == j as usize;
                    assert(out@[k] == j as usize);
                }
                if out@.contains(j as usize) {
                    let k = choose|k: int| 0 <= k < out@.len() && out@[k] == j as usize;
                    if k < before.len() {
                        assert(before[k] == j as usize);
                    }
                }
            } else {
                if out@.contains(j as usize) {
                    let k = choose|k: int| 0 <= k < out@.len() && out@[k] == j as usize;
                    if k < before.len() {
                        assert(before[k] < i);
                    }
                }
                if by_contact && by_text {
                    assert(out@[out@.len() - 1] == i);
                }
            }
        }
        i = i + 1;
    }
    out
}

pub open spec fn weekday_name(w: u32) -> Seq<char> {
    if w == 0 {
        "Monday"@
    } else if w == 1 {
        "Tuesday"@
    } else if w == 2 {
        "Wednesday"@
    } else if w == 3 {
        "Thursday"@
    } else if w == 4 {
        "Friday"@
    } else if w == 5 {
        "Saturday"@
    } else if w == 6 {
        "Sunday"@
    } else {
        Seq::empty()
    }
}

fn weekday_text(w: u32) -> (r: &'static str)
    ensures
        r@ == weekday_name(w),
{
    proof {
        reveal_strlit("");
    }
    if w == 0 {
        "Monday"
    } else if w == 1 {
        "Tuesday"
    } else if w == 2 {
        "Wednesday"
    } else if w == 3 {
        "Thursday"
    } else if w == 4 {
        "Friday"
    } else if w == 5 {
        "Saturday"
    } else if w == 6 {
        "Sunday"
    } else {
        ""
    }
}

/// Every line break followed by an indent that lines continuation lines
/// up under the text.
pub open spec fn indented(s: Seq<char>) -> Seq<char>
    decreases s.len(),
{
    if s.len() == 0 {
        s
    } else if s.last() == '\n' {
        indented(s.drop_last()) + "\n       "@
    } else {
        indented(s.drop_last()).push(s.last())
    }
}

/// Who a line of the log is from: a group chat's name (or its members)
/// and the sender; me and whom I wrote to; or the sender.
pub open spec fn who_of(m: Message, c: Contacts) -> Seq<char> {
    let names = string_views(m.participants@).map_values(|h: Seq<char>| shown_name(c, h));
    if m.group {
        let chat = match m.chat_name {
            Some(n) => n@,
            None => joined(names, ", "@),
        };
        "["@ + chat + "] "@ + if m.from_me {
            "me"@
        } else {
            shown_name(c, m.sender@)
        }
    } else if m.from_me {
        "me \u{2192} "@ + joined(names, ", "@)
    } else {
        shown_name(c, m.sender@)
    }
}

/// What a line of the log says: the text, indented on each further line,
/// with a note of an attachment.
pub open spec fn said_of(m: Message) -> Seq<char> {
    let t = indented(m.text@);
    if m.attachments {
        if t.len() == 0 {
            "[attachment]"@
        } else {
            t + " [+attachment]"@
        }
    } else {
        t
    }
}

/// One message's line: the time, who, and what was said.
pub open spec fn message_line(m: Message, c: Contacts) -> Seq<char> {
    zero_padded(m.sent.hour as nat, 2) + seq![':'] + zero_padded(m.sent.minute as nat, 2) + "  "@
        + who_of(m, c) + ": "@ + said_of(m) + seq!['\n']
}

/// The heading before the first message of a day, with a blank line
/// before it unless it is the first.
pub open spec fn day_heading(previous: Option<Date>, m: Message) -> Seq<char> {
    if previous == Some(m.sent.date) {
        Seq::empty()
    } else {
        let blank = if previous is Some {
            seq!['\n']
        } else {
            Seq::empty()
        };
        blank + "\u{2500}\u{2500} "@ + date_text(m.sent.date) + ", "@ + weekday_name(m.sent.weekday) + seq!['\n']
    }
}

/// The log of some messages, a heading for each day.
pub open spec fn log_text(ms: Seq<Message>, c: Contacts) -> Seq<char>
    decreases ms.len(),
{
    if ms.len() == 0 {
        Seq::empty()
    } else {
        let before = ms.drop_last();
        let previous = if before.len() == 0 {
            None
        } else {
            Some(before.last().sent.date)
        };
        log_text(before, c) + day_heading(previous, ms.last()) + message_line(ms.last(), c)
    }
}

fn names_of(m: &Message, c: &Contacts) -> (r: Vec<Vec<char>>)
    requires
        c.well_formed(),
    ensures
        crate::text::views(r@) == string_views(m.participants@).map_values(|h: Seq<char>| shown_name(*c, h)),
{
    let ghost want = string_views(m.participants@).map_values(|h: Seq<char>| shown_name(*c, h));
    let mut out: Vec<Vec<char>> = Vec::new();
    let mut i: usize = 0;
    while i < m.participants.len()
        invariant
            i <= m.participants@.len(),
            c.well_formed(),
            want == string_views(m.participants@).map_values(|h: Seq<char>| shown_name(*c, h)),
            crate::text::views(out@) =~= want.take(i as int),
        decreases m.participants.len() - i,
    {
        let ghost before = out@;
        out.push(chars_of(c.name(m.participants[i].as_str())));
        assert(crate::text::views(out@) =~= crate::text::views(before).push(want[i as int]));
        assert(want.take(i + 1) =~= want.take(i as int).push(want[i as int]));
        i = i + 1;
    }
    assert(want.take(i as int) =~= want);
    out
}

fn who_text(m: &Message, c: &Contacts) -> (r: Vec<char>)
    requires
        c.well_formed(),
    ensures
        r@ == who_of(*m, *c),
{
    let mut out: Vec<char> = Vec::new();
    let names = names_of(m, c);
    if m.group {
        push_str(&mut out, "[");
        match &m.chat_name {
            Some(n) => push_str(&mut out, n.as_str()),
            None => {
                let j = crate::text::join_first(&names, names.len(), ", ");
                assert(crate::text::views(names@).take(names@.len() as int) =~= crate::text::views(names@));
                push_chars(&mut out, &j);
            },
        }
        push_str(&mut out, "] ");
        if m.from_me {
            push_str(&mut out, "me");
        } else {
            push_str(&mut out, c.name(m.sender.as_str()));
        }
    } else if m.from_me {
        push_str(&mut out, "me \u{2192} ");
        let j = crate::text::join_first(&names, names.len(), ", ");
        assert(crate::text::views(names@).take(names@.len() as int) =~= crate::text::views(names@));
        push_chars(&mut out, &j);
    } else {
        push_str(&mut out, c.name(m.sender.as_str()));
    }
    assert(out@ =~= who_of(*m, *c));
    out
}

fn said_text(m: &Message) -> (r: Vec<char>)
    ensures
        r@ == said_of(*m),
{
    let text = chars_of(m.text.as_str());
    let mut said: Vec<char> = Vec::new();
    let mut i: usize = 0;
    while i < text.len()
        invariant
            i <= text@.len(),
            text@ == m.text@,
            said@ == indented(text@.take(i as int)),
        decreases text.len() - i,
    {
        assert(text@.take(i + 1).drop_last() =~= text@.take(i as int));
        assert(text@.take(i + 1).last() == text@[i as int]);
        if text[i] == '\n' {
            push_str(&mut said, "\n       ");
        } else {
            said.push(text[i]);
        }
        i = i + 1;
    }
    assert(text@.take(i as int) =~= text@);
    if m.attachments {
        if said.len() == 0 {
            let mut out: Vec<char> = Vec::new();
            push_str(&mut out, "[attachment]");
            out
        } else {
            push_str(&mut said, " [+attachment]");
            said
        }
    } else {
        said
    }
}

fn push_line(out: &mut Vec<char>, m: &Message, c: &Contacts)
    requires
        c.well_formed(),
    ensures
        final(out)@ == old(out)@ + message_line(*m, *c),
{
    let ghost start = out@;
    push_chars(out, &zero_padded_chars(m.sent.hour as u64, 2));
    out.push(':');
    push_chars(out, &zero_padded_chars(m.sent.minute as u64, 2));
    push_str(out, "  ");
    push_chars(out, &who_text(m, c));
    push_str(out, ": ");
    push_chars(out, &said_text(m));
    out.push('\n');
    assert(out@ =~= start + message_line(*m, *c));
}

/// The log of the messages shown: a heading for each day, then a line per
/// message.
pub fn render_log(all: &Vec<Message>, shown: &Vec<usize>, contacts: &Contacts) -> (r: String)
    requires
        contacts.well_formed(),
        forall|k: int| 0 <= k < shown@.len() ==> (#[trigger] shown@[k]) < all@.len(),
    ensures
        r@ == log_text(shown@.map_values(|k: usize| all@[k as int]), *contacts),
{
    let ghost ms = shown@.map_values(|k: usize| all@[k as int]);
    let mut out: Vec<char> = Vec::new();
    let mut day: Option<Date> = None;
    let mut i: usize = 0;
    assert(ms.take(0) =~= Seq::<Message>::empty());
    while i < shown.len()
        invariant
            i <= shown@.len(),
            contacts.well_formed(),
            forall|k: int| 0 <= k < shown@.len() ==> (#[trigger] shown@[k]) < all@.len(),
            ms == shown@.map_values(|k: usize| all@[k as int]),
            out@ == log_text(ms.take(i as int), *contacts),
            day == if i == 0 {
                None
            } else {
                Some(ms[i - 1].sent.date)
            },
        decreases shown.len() - i,
    {
        let m = &all[shown[i]];
        assert(ms[i as int] == *m);
        assert(ms.take(i + 1).drop_last() =~= ms.take(i as int));
        assert(ms.take(i + 1).last() == *m);
        if i > 0 {
            assert(ms.take(i as int).last() == ms[i - 1]);
        }
        let ghost before = out@;
        let same = match day {
            Some(d) => d == m.sent.date,
            None => false,
        };
        if !same {
            if day.is_some() {
                out.push('\n');
            }
            push_str(&mut out, "\u{2500}\u{2500} ");
            push_str(&mut out, m.sent.date.to_text().as_str());
            push_str(&mut out, ", ");
            push_str(&mut out, weekday_text(m.sent.weekday));
            out.push('\n');
            day = Some(m.sent.date);
        }
        assert(out@ =~= before + day_heading(
            if i == 0 {
                None
            } else {
                Some(ms[i - 1].sent.date)
            },
            *m,
        ));
        push_line(&mut out, m, contacts);
        i = i + 1;
    }
    assert(ms.take(i as int) =~= ms);
    string_of(&out)
}

/// Why the log cannot be shown: the first day is after the last.
pub fn check_span(from: Date, to: Date) -> (r: Result<(), String>)
    ensures
        match r {
            Ok(()) => crate::marks::date_le(from, to),
            Err(e) => !crate::marks::date_le(from, to) && e@ == "--from "@ + date_text(from) + " is after --to "@ + date_text(to),
        },
{
    if crate::marks::date_on_or_before(from, to) {
        Ok(())
    } else {
        let mut out: Vec<char> = Vec::new();
        push_str(&mut out, "--from ");
        push_str(&mut out, from.to_text().as_str());
        push_str(&mut out, " is after --to ");
        push_str(&mut out, to.to_text().as_str());
        Err(string_of(&out))
    }
}


/// A conversation is found by the name a participant is saved under: when
/// the lower-cased name contains the query anywhere, the conversation
/// involves the query.
pub proof fn law_found_by_contact_name(
    m: Message,
    query: Seq<char>,
    c: Contacts,
    i: int,
    name: Seq<char>,
    at: int,
)
    requires
        0 <= i < m.participants@.len(),
        c.lookup(handle_key(m.participants@[i]@)) == Some(name),
        0 <= at && at + query.len() <= lowercase_of(name).len(),
        lowercase_of(name).subrange(at, at + query.len()) == query,
    ensures
        involves_spec(m, query, c),
{
    let hs = handles_of(m);
    assert(hs[i] == m.participants@[i]@);
    assert(occurs_in(query, lowercase_of(name)));
    assert(handle_matches(c, hs[i], query));
}

/// The weekday words of a heading, Monday first: each of the seven days
/// gets its English name, in calendar order.
pub proof fn law_weekday_names(w: u32)
    requires
        w < 7,
    ensures
        weekday_name(w) == seq![
            "Monday"@,
            "Tuesday"@,
            "Wednesday"@,
            "Thursday"@,
            "Friday"@,
            "Saturday"@,
            "Sunday"@,
        ][w as int],
{
}

/// No two days of the week share a name.
pub proof fn law_weekday_names_differ(a: u32, b: u32)
    requires
        a < 7,
        b < 7,
        a != b,
    ensures
        weekday_name(a) != weekday_name(b),
{
    reveal_strlit("Monday");
    reveal_strlit("Tuesday");
    reveal_strlit("Wednesday");
    reveal_strlit("Thursday");
    reveal_strlit("Friday");
    reveal_strlit("Saturday");
    reveal_strlit("Sunday");
    let x = weekday_name(a);
    let y = weekday_name(b);
    assert(x.len() != y.len() || x[0] != y[0] || x[1] != y[1]);
}

} // verus!
