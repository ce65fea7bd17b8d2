//! Exact money, stored as thousandths of a krona.
//!
//! Bank statements carry at most three decimals and rounding errors in a
//! ledger are not acceptable, so amounts are integers rather than floats.

use vstd::prelude::*;

use crate::text::{
    all_digits, chars_of, decimal, decimal_chars, digit_char, digit_value, digits_value, is_digit,
    lemma_digits_value_nonneg, lemma_digits_value_prefix, strip_ws, string_of,
    without_whitespace,
};

verus! {

/// A signed amount in thousandths of the account currency's major unit.
#[derive(Debug, Clone, Copy, PartialEq, Eq, Structural, PartialOrd, Ord, Hash)]
pub struct Amount(pub i64);

/// The text that could not be read as an amount.
#[derive(Debug, Clone, PartialEq, Eq)]
pub struct ParseAmountError(pub String);

pub open spec fn is_sep(c: char) -> bool {
    c == '.' || c == ','
}

/// Position of the first decimal separator, or the length when there is none.
pub open spec fn first_sep(s: Seq<char>) -> int
    decreases s.len(),
{
    if s.len() == 0 {
        0
    } else if is_sep(s[0]) {
        0
    } else {
        1 + first_sep(s.drop_first())
    }
}

proof fn lemma_first_sep(s: Seq<char>)
    ensures
        0 <= first_sep(s) <= s.len(),
        first_sep(s) < s.len() ==> is_sep(s[first_sep(s)]),
        forall|j: int| 0 <= j < first_sep(s) ==> !is_sep(#[trigger] s[j]),
    decreases s.len(),
{
    if s.len() > 0 && !is_sep(s[0]) {
        lemma_first_sep(s.drop_first());
        assert forall|j: int| 0 <= j < first_sep(s) implies !is_sep(#[trigger] s[j]) by {
            if j > 0 {
                assert(s[j] == s.drop_first()[j - 1]);
            }
        }
    }
}

proof fn lemma_first_sep_unique(s: Seq<char>, i: int)
    requires
        0 <= i <= s.len(),
        i < s.len() ==> is_sep(s[i]),
        forall|j: int| 0 <= j < i ==> !is_sep(#[trigger] s[j]),
    ensures
        first_sep(s) == i,
{
    lemma_first_sep(s);
    let f = first_sep(s);
    if f < i {
        assert(!is_sep(s[f]));
    } else if i < f {
        assert(!is_sep(s[i]));
    }
}

pub open spec fn pow10(n: nat) -> int
    decreases n,
{
    if n == 0 {
        1
    } else {
        10 * pow10((n - 1) as nat)
    }
}

/// The text with whitespace removed and the sign taken off.
pub open spec fn unsigned_part(text: Seq<char>) -> Seq<char> {
    let t = strip_ws(text);
    if t.len() > 0 && (t[0] == '-' || t[0] == '+') {
        t.drop_first()
    } else {
        t
    }
}

pub open spec fn is_negative_text(text: Seq<char>) -> bool {
    let t = strip_ws(text);
    t.len() > 0 && t[0] == '-'
}

pub open spec fn whole_part(text: Seq<char>) -> Seq<char> {
    let d = unsigned_part(text);
    d.take(first_sep(d))
}

pub open spec fn fraction_part(text: Seq<char>) -> Seq<char> {
    let d = unsigned_part(text);
    if first_sep(d) < d.len() {
        d.skip(first_sep(d) + 1)
    } else {
        Seq::empty()
    }
}

/// What a piece of text means as an amount, in thousandths: an optional
/// sign, digits, an optional `.` or `,` with up to three decimals, and any
/// whitespace anywhere (as thousands separators). `None` for anything else,
/// including more than three decimals and values that do not fit.
pub open spec fn amount_of(text: Seq<char>) -> Option<int> {
    let d = unsigned_part(text);
    let whole = whole_part(text);
    let fraction = fraction_part(text);
    if d.len() == 0 || fraction.len() > 3 || (whole.len() == 0 && fraction.len() == 0)
        || !all_digits(whole) || !all_digits(fraction) {
        None
    } else {
        let total = digits_value(whole) * 1000 + digits_value(fraction) * pow10(
            (3 - fraction.len()) as nat,
        );
        if total > i64::MAX {
            None
        } else {
            Some(
                if is_negative_text(text) {
                    -total
                } else {
                    total
                },
            )
        }
    }
}

/// The value of `s[from..to]`, all digits, or `None` once it passes `i64::MAX`.
fn digits_capped(s: &[char], from: usize, to: usize) -> (r: Option<i128>)
    requires
        from <= to <= s.len(),
        all_digits(s@.subrange(from as int, to as int)),
    ensures
        match r {
            Some(v) => v == digits_value(s@.subrange(from as int, to as int)) && 0 <= v
                <= i64::MAX,
            None => digits_value(s@.subrange(from as int, to as int)) > i64::MAX,
        },
{
    let ghost full = s@.subrange(from as int, to as int);
    let mut v: i128 = 0;
    let mut i = from;
    while i < to
        invariant
            from <= i <= to <= s.len(),
            full == s@.subrange(from as int, to as int),
            all_digits(full),
            v == digits_value(full.take(i - from)),
            0 <= v <= i64::MAX,
        decreases to - i,
    {
        assert(full.take(i - from + 1).drop_last() =~= full.take(i - from));
        assert(full[i - from] == s@[i as int]);
        assert(is_digit(full[i - from]));
        let d = (s[i] as u32 - '0' as u32) as i128;
        assert(d == digit_value(s@[i as int]));
        v = v * 10 + d;
        i = i + 1;
        if v > i64::MAX as i128 {
            proof {
                lemma_digits_value_prefix(full, i - from);
            }
            return None;
        }
    }
    assert(full.take(i - from) =~= full);
    Some(v)
}

impl Amount {
    pub open spec fn value(self) -> int {
        self.0 as int
    }

    pub fn is_negative(self) -> (r: bool)
        ensures
            r == (self.0 < 0),
    {
        self.0 < 0
    }

    /// Reads an amount: an optional sign, digits, an optional `.` or `,`
    /// decimal separator with up to three decimals, and spaces as thousands
    /// separators. More than three decimals is an error rather than a silent
    /// truncation, and so is a value too large to hold.
    pub fn parse(text: &str) -> (r: Result<Amount, ParseAmountError>)
        ensures
            match r {
                Ok(a) => amount_of(text@) == Some(a.0 as int) && a.0 > i64::MIN,
                Err(e) => amount_of(text@).is_none() && e.0@ == text@,
            },
    {
        let cs = chars_of(text);
        let t = without_whitespace(&cs);
        let negative = t.len() > 0 && t[0] == '-';
        let start: usize = if t.len() > 0 && (t[0] == '-' || t[0] == '+') {
            1
        } else {
            0
        };
        let ghost d = t@.skip(start as int);
        assert(d =~= crate::amount::unsigned_part(text@));
        if start == t.len() {
            return Err(ParseAmountError(string_of(&cs)));
        }
        // The first separator.
        let mut k = start;
        while k < t.len() && t[k] != '.' && t[k] != ','
            invariant
                start <= k <= t.len(),
                d == t@.skip(start as int),
                forall|j: int| 0 <= j < k - start ==> !is_sep(#[trigger] d[j]),
            decreases t.len() - k,
        {
            k = k + 1;
        }
        proof {
            lemma_first_sep_unique(d, k - start);
        }
        let frac_start = if k < t.len() {
            k + 1
        } else {
            k
        };
        assert(t@.subrange(start as int, k as int) =~= whole_part(text@));
        assert(t@.subrange(frac_start as int, t.len() as int) =~= fraction_part(text@));
        let frac_len = t.len() - frac_start;
        if frac_len > 3 || (k == start && frac_len == 0) {
            return Err(ParseAmountError(string_of(&cs)));
        }
        let mut i = start;
        while i < t.len()
            invariant
                start <= i <= t.len(),
                start <= k <= t.len(),
                frac_start == if k < t.len() {
                    k + 1
                } else {
                    k as int
                },
                forall|j: int|
                    start <= j < i && j != k ==> is_digit(#[trigger] t@[j]),
                t@.subrange(start as int, k as int) == whole_part(text@),
                t@.subrange(frac_start as int, t.len() as int) == fraction_part(text@),
                cs@ == text@,
            decreases t.len() - i,
        {
            if i != k && !('0' <= t[i] && t[i] <= '9') {
                assert(i < k ==> t@.subrange(start as int, k as int)[i - start] == t@[i as int]);
                assert(i > k ==> t@.subrange(frac_start as int, t.len() as int)[i - frac_start]
                    == t@[i as int]);
                assert(!is_digit(t@[i as int]));
                assert(!all_digits(whole_part(text@)) || !all_digits(fraction_part(text@))) by {
                    if i < k {
                        assert(!is_digit(whole_part(text@)[i - start]));
                    } else {
                        assert(!is_digit(fraction_part(text@)[i - frac_start]));
                    }
                }
                assert(amount_of(text@).is_none());
                return Err(ParseAmountError(string_of(&cs)));
            }
            i = i + 1;
        }
        assert(all_digits(t@.subrange(start as int, k as int)));
        assert(all_digits(t@.subrange(frac_start as int, t.len() as int)));
        let whole = match digits_capped(&t, start, k) {
            Some(w) => w,
            None => {
                proof {
                    let fr = fraction_part(text@);
                    lemma_digits_value_nonneg(fr);
                    lemma_pow10_pos((3 - fr.len()) as nat);
                    assert(digits_value(fr) * pow10((3 - fr.len()) as nat) >= 0) by (
                    nonlinear_arith)
                        requires
                            digits_value(fr) >= 0,
                            pow10((3 - fr.len()) as nat) > 0,
                    ;
                }
                return Err(ParseAmountError(string_of(&cs)));
            },
        };
        let fraction = match digits_capped(&t, frac_start, t.len()) {
            Some(f) => f,
            None => {
                // At most three digits can never pass the cap.
                proof {
                    lemma_small_digits(t@.subrange(frac_start as int, t.len() as int));
                    reveal_with_fuel(pow10, 4);
                }
                return Err(ParseAmountError(string_of(&cs)));
            },
        };
        proof {
            lemma_small_digits(t@.subrange(frac_start as int, t.len() as int));
        }
        let scale: i128 = if frac_len == 0 {
            1000
        } else if frac_len == 1 {
            100
        } else if frac_len == 2 {
            10
        } else {
            1
        };
        assert(scale == pow10((3 - frac_len) as nat)) by {
            reveal_with_fuel(pow10, 4);
        }
        let total: i128 = whole * 1000 + fraction * scale;
        assert(total == digits_value(whole_part(text@)) * 1000 + digits_value(fraction_part(text@))
            * pow10((3 - fraction_part(text@).len()) as nat));
        assert(negative == is_negative_text(text@));
        if total > i64::MAX as i128 {
            assert(unsigned_part(text@).len() > 0);
            assert(fraction_part(text@).len() <= 3);
            assert(all_digits(whole_part(text@)));
            assert(all_digits(fraction_part(text@)));
            assert(amount_of(text@).is_none());
            return Err(ParseAmountError(string_of(&cs)));
        }
        let value: i64 = if negative {
            -(total as i64)
        } else {
            total as i64
        };
        Ok(Amount(value))
    }

    /// The sum of two amounts.
    pub fn add(self, other: Amount) -> (r: Amount)
        requires
            i64::MIN <= self.0 + other.0 <= i64::MAX,
        ensures
            r.0 == self.0 + other.0,
    {
        Amount(self.0 + other.0)
    }

    /// The amount with its sign turned.
    pub fn neg(self) -> (r: Amount)
        requires
            self.0 > i64::MIN,
        ensures
            r.0 == -self.0,
    {
        Amount(-self.0)
    }
}

pub proof fn lemma_pow10_pos(n: nat)
    ensures
        pow10(n) > 0,
    decreases n,
{
    if n > 0 {
        lemma_pow10_pos((n - 1) as nat);
    }
}

/// At most three digits are worth less than a thousand.
proof fn lemma_small_digits(s: Seq<char>)
    requires
        s.len() <= 3,
        all_digits(s),
    ensures
        0 <= digits_value(s) < pow10(s.len()),
    decreases s.len(),
{
    reveal_with_fuel(pow10, 4);
    if s.len() > 0 {
        assert(all_digits(s.drop_last()));
        lemma_small_digits(s.drop_last());
        assert(is_digit(s[s.len() - 1]));
    }
}


/// How an amount is shown: two decimals, rounded half away from zero, with
/// a minus sign on anything below zero, even when it shows as zero.
pub open spec fn amount_text(v: int) -> Seq<char> {
    let a = if v < 0 {
        -v
    } else {
        v
    };
    let h = (a + 5) / 10;
    let sign = if v < 0 {
        seq!['-']
    } else {
        Seq::<char>::empty()
    };
    sign + decimal((h / 100) as nat) + seq!['.', digit_char((h / 10) % 10), digit_char(h % 10)]
}

fn small_digit(d: u64) -> (c: char)
    requires
        d < 10,
    ensures
        c == digit_char(d as int),
{
    let v = decimal_chars(d);
    assert(decimal(d as nat) == seq![digit_char(d as int)]);
    v[0]
}

impl Amount {
    /// Two decimals, which is what statements are read in.
    pub fn to_text(self) -> (r: String)
        ensures
            r@ == amount_text(self.0 as int),
    {
        let v = self.0 as i128;
        let a: i128 = if v < 0 {
            -v
        } else {
            v
        };
        let h = ((a + 5) / 10) as u64;
        let mut out: Vec<char> = Vec::new();
        if v < 0 {
            out.push('-');
        }
        let whole = decimal_chars(h / 100);
        crate::text::push_chars(&mut out, &whole);
        out.push('.');
        out.push(small_digit((h / 10) % 10));
        out.push(small_digit(h % 10));
        let ghost sign = if v < 0 {
            seq!['-']
        } else {
            Seq::<char>::empty()
        };
        assert(out@ =~= sign + decimal((h / 100) as nat) + seq![
            '.',
            digit_char(((h / 10) % 10) as int),
            digit_char((h % 10) as int),
        ]);
        string_of(&out)
    }
}


impl std::str::FromStr for Amount {
    type Err = ParseAmountError;

    fn from_str(text: &str) -> Result<Amount, ParseAmountError> {
        Amount::parse(text)
    }
}

} // verus!
