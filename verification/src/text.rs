//! Text handling for snapshot records: fixed-point rate parsing, pair-code
//! splitting and case normalization.

use vstd::prelude::*;

verus! {

pub open spec fn is_digit(c: char) -> bool {
    48 <= c as u32 <= 57
}

pub open spec fn digit_val(c: char) -> int {
    c as u32 - 48
}

pub open spec fn all_digits(s: Seq<char>) -> bool {
    forall|i: int| 0 <= i < s.len() ==> is_digit(s[i])
}

/// The number written by a string of decimal digits, most significant first.
pub open spec fn digits_val(s: Seq<char>) -> int
    decreases s.len(),
{
    if s.len() == 0 {
        0
    } else {
        10 * digits_val(s.drop_last()) + digit_val(s.last())
    }
}

pub open spec fn pow10(n: nat) -> int
    decreases n,
{
    if n == 0 {
        1
    } else {
        10 * pow10((n - 1) as nat)
    }
}

/// Index of the first occurrence of `c`, or the length when `c` is absent.
pub open spec fn first_pos(s: Seq<char>, c: char) -> int
    decreases s.len(),
{
    if s.len() == 0 {
        0
    } else if s.first() == c {
        0
    } else {
        1 + first_pos(s.drop_first(), c)
    }
}

pub open spec fn char_count(s: Seq<char>, c: char) -> int
    decreases s.len(),
{
    if s.len() == 0 {
        0
    } else {
        char_count(s.drop_last(), c) + if s.last() == c {
            1int
        } else {
            0int
        }
    }
}

pub proof fn lemma_digits_val_nonneg(s: Seq<char>)
    requires
        all_digits(s),
    ensures
        digits_val(s) >= 0,
    decreases s.len(),
{
    if s.len() > 0 {
        assert(all_digits(s.drop_last()));
        lemma_digits_val_nonneg(s.drop_last());
    }
}

pub proof fn lemma_digits_val_bound(s: Seq<char>)
    requires
        all_digits(s),
    ensures
        digits_val(s) < pow10(s.len()),
    decreases s.len(),
{
    if s.len() > 0 {
        assert(all_digits(s.drop_last()));
        lemma_digits_val_bound(s.drop_last());
        lemma_digits_val_nonneg(s.drop_last());
    }
}

/// Appending one character multiplies the written number by ten and adds
/// the new digit.
pub proof fn lemma_digits_val_step(s: Seq<char>, i: int)
    requires
        0 <= i < s.len(),
    ensures
        digits_val(s.take(i + 1)) == 10 * digits_val(s.take(i)) + digit_val(s[i]),
{
    assert(s.take(i + 1).drop_last() =~= s.take(i));
    assert(s.take(i + 1).last() == s[i]);
}

pub proof fn lemma_digits_val_prefix_le(s: Seq<char>, i: int)
    requires
        all_digits(s),
        0 <= i <= s.len(),
    ensures
        digits_val(s.take(i)) <= digits_val(s),
    decreases s.len() - i,
{
    if i < s.len() {
        lemma_digits_val_step(s, i);
        assert(all_digits(s.take(i)));
        lemma_digits_val_nonneg(s.take(i));
        assert(is_digit(s[i]));
        lemma_digits_val_prefix_le(s, i + 1);
    } else {
        assert(s.take(i) =~= s);
    }
}

/// A scan that saw no `c` before `p`, and `c` at `p` unless `p` is the
/// length, has found the first occurrence.
pub proof fn lemma_first_pos_at(s: Seq<char>, c: char, p: int)
    requires
        0 <= p <= s.len(),
        forall|j: int| 0 <= j < p ==> s[j] != c,
        p < s.len() ==> s[p] == c,
    ensures
        first_pos(s, c) == p,
    decreases s.len(),
{
    if s.len() > 0 {
        if p == 0 {
            if s.len() > 0 && s.first() != c {
                assert(s[0] != c);
            }
        } else {
            assert(s.first() != c);
            let t = s.drop_first();
            assert forall|j: int| 0 <= j < p - 1 implies t[j] != c by {
                assert(t[j] == s[j + 1]);
            }
            if p - 1 < t.len() {
                assert(t[p - 1] == s[p]);
            }
            lemma_first_pos_at(t, c, p - 1);
        }
    }
}

pub proof fn lemma_char_count_step(s: Seq<char>, c: char, i: int)
    requires
        0 <= i < s.len(),
    ensures
        char_count(s.take(i + 1), c) == char_count(s.take(i), c) + if s[i] == c {
            1int
        } else {
            0int
        },
{
    assert(s.take(i + 1).drop_last() =~= s.take(i));
    assert(s.take(i + 1).last() == s[i]);
}

/// The two halves of a pair code "XXX_YYY": defined exactly when the code
/// holds a single underscore.
pub open spec fn pair_halves(s: Seq<char>) -> Option<(Seq<char>, Seq<char>)> {
    if char_count(s, '_') == 1 {
        Some((s.take(first_pos(s, '_')), s.skip(first_pos(s, '_') + 1)))
    } else {
        None
    }
}

/// Split a pair code at its underscore; any other shape is refused.
pub fn split_pair(s: &str) -> (r: Option<(String, String)>)
    ensures
        match r {
            Some(p) => pair_halves(s@) == Some((p.0@, p.1@)),
            None => pair_halves(s@) is None,
        },
{
    let n = s.unicode_len();
    let mut count: usize = 0;
    let mut pos: usize = n;
    let mut i: usize = 0;
    while i < n
        invariant
            n == s@.len(),
            i <= n,
            count <= i,
            count as int == char_count(s@.take(i as int), '_'),
            count == 0 ==> pos == n && (forall|j: int| 0 <= j < i ==> s@[j] != '_'),
            count > 0 ==> pos < i && s@[pos as int] == '_' && (forall|j: int|
                0 <= j < pos ==> s@[j] != '_'),
        decreases n - i,
    {
        proof {
            lemma_char_count_step(s@, '_', i as int);
        }
        if s.get_char(i) == '_' {
            if count == 0 {
                pos = i;
            }
            count = count + 1;
        }
        i = i + 1;
    }
    proof {
        assert(s@.take(n as int) =~= s@);
    }
    if count != 1 {
        return None;
    }
    proof {
        lemma_first_pos_at(s@, '_', pos as int);
    }
    let left = s.substring_char(0, pos).to_owned();
    let right = s.substring_char(pos + 1, n).to_owned();
    proof {
        assert(s@.subrange(0, pos as int) =~= s@.take(pos as int));
        assert(s@.subrange(pos as int + 1, n as int) =~= s@.skip(pos as int + 1));
    }
    Some((left, right))
}

/// The lowercase form of a string, as the standard library computes it.
pub uninterp spec fn lower_of(s: Seq<char>) -> Seq<char>;

/// Relies on str::to_lowercase: the result depends on the characters alone,
/// and an empty string stays empty.
#[verifier::external_body]
pub fn lowercase(s: &str) -> (r: String)
    ensures
        r@ == lower_of(s@),
        s@.len() == 0 ==> r@.len() == 0,
{
    s.to_lowercase()
}

/// Zero-padding on the right up to `l` places, truncating past `l`: the
/// written fraction read to exactly `l` digits.
pub open spec fn pad_to(f: Seq<char>, l: int) -> Seq<char> {
    if f.len() >= l {
        f.take(l)
    } else {
        f + Seq::new((l - f.len()) as nat, |i: int| '0')
    }
}

pub open spec fn int_part(s: Seq<char>) -> Seq<char> {
    s.take(first_pos(s, '.'))
}

pub open spec fn frac_part(s: Seq<char>) -> Seq<char> {
    if first_pos(s, '.') == s.len() {
        Seq::empty()
    } else {
        s.skip(first_pos(s, '.') + 1)
    }
}

/// A rate text is digits with at most one decimal point and at least one
/// digit: the shapes "9", "9.", "9.25" and ".25". Rates are plain
/// non-negative decimals: signs and exponent notation are not rate texts.
pub open spec fn valid_rate_text(s: Seq<char>) -> bool {
    &&& all_digits(int_part(s))
    &&& all_digits(frac_part(s))
    &&& int_part(s).len() + frac_part(s).len() > 0
}

/// The rate a text denotes, in micro-units: the whole part scaled by one
/// million plus the fraction read to six places (later places are cut).
/// Texts of another shape, and rates above `u64::MAX` micro-units, have
/// no value.
pub open spec fn rate_micros_of(s: Seq<char>) -> Option<u64> {
    if valid_rate_text(s) && 1000000 * digits_val(int_part(s)) + digits_val(
        pad_to(frac_part(s), 6),
    ) <= u64::MAX {
        Some(
            (1000000 * digits_val(int_part(s)) + digits_val(pad_to(frac_part(s), 6))) as u64,
        )
    } else {
        None
    }
}

pub proof fn lemma_first_pos_ge(s: Seq<char>, c: char, p: int)
    requires
        0 <= p <= s.len(),
        forall|j: int| 0 <= j < p ==> s[j] != c,
    ensures
        first_pos(s, c) >= p,
    decreases p,
{
    lemma_first_pos_le_len(s, c);
    if p > 0 {
        assert(s.first() != c);
        let t = s.drop_first();
        assert forall|j: int| 0 <= j < p - 1 implies t[j] != c by {
            assert(t[j] == s[j + 1]);
        }
        lemma_first_pos_ge(t, c, p - 1);
    }
}

pub proof fn lemma_first_pos_le_len(s: Seq<char>, c: char)
    ensures
        0 <= first_pos(s, c) <= s.len(),
    decreases s.len(),
{
    if s.len() > 0 && s.first() != c {
        lemma_first_pos_le_len(s.drop_first(), c);
    }
}

pub proof fn lemma_pad_digits(f: Seq<char>, l: int)
    requires
        all_digits(f),
        0 <= l,
    ensures
        all_digits(pad_to(f, l)),
{
    let p = pad_to(f, l);
    assert forall|i: int| 0 <= i < p.len() implies is_digit(p[i]) by {
        if f.len() >= l {
            assert(p[i] == f[i]);
        } else if i < f.len() {
            assert(p[i] == f[i]);
        } else {
            assert(p[i] == '0');
        }
    }
}

/// Parse a rate text to micro-units, as `rate_micros_of` reads it.
pub fn parse_rate(s: &str) -> (r: Option<u64>)
    ensures
        r == rate_micros_of(s@),
{
    let n = s.unicode_len();
    let mut int_acc: u128 = 0;
    let mut seen_dot: bool = false;
    let mut dot: usize = n;
    let mut frac_acc: u64 = 0;
    let mut frac_len: usize = 0;
    let mut frac_seen: usize = 0;
    let mut i: usize = 0;
    while i < n
        invariant
            n == s@.len(),
            i <= n,
            !seen_dot ==> dot == n && frac_acc == 0 && frac_len == 0 && frac_seen == 0
                && (forall|j: int| 0 <= j < i ==> s@[j] != '.' && is_digit(s@[j]))
                && int_acc == digits_val(s@.take(i as int)),
            seen_dot ==> dot < i && s@[dot as int] == '.' && first_pos(s@, '.') == dot
                && (forall|j: int| 0 <= j < dot ==> s@[j] != '.' && is_digit(s@[j]))
                && int_acc == digits_val(s@.take(dot as int)) && frac_seen == i - dot - 1
                && (forall|j: int| dot < j < i ==> is_digit(s@[j])) && frac_len == (
            if frac_seen <= 6 {
                frac_seen as int
            } else {
                6int
            }) && frac_acc == digits_val(s@.subrange(dot as int + 1, dot as int + 1 + frac_len)),
            int_acc <= u64::MAX as u128,
            frac_acc < 1000000,
        decreases n - i,
    {
        let c = s.get_char(i);
        let u = c as u32;
        if 48 <= u && u <= 57 {
            let d = (u - 48) as u64;
            if !seen_dot {
                proof {
                    lemma_digits_val_step(s@, i as int);
                    assert(all_digits(s@.take(i as int)));
                    lemma_digits_val_nonneg(s@.take(i as int));
                }
                int_acc = int_acc * 10 + d as u128;
                if int_acc > u64::MAX as u128 {
                    proof {
                        if valid_rate_text(s@) {
                            lemma_first_pos_ge(s@, '.', i as int + 1);
                            lemma_first_pos_le_len(s@, '.');
                            let fp = first_pos(s@, '.');
                            assert(int_part(s@).take(i as int + 1) =~= s@.take(i as int + 1));
                            lemma_digits_val_prefix_le(int_part(s@), i as int + 1);
                            lemma_pad_digits(frac_part(s@), 6);
                            lemma_digits_val_nonneg(pad_to(frac_part(s@), 6));
                        }
                    }
                    return None;
                }
            } else {
                if frac_len < 6 {
                    proof {
                        let lo = dot as int + 1;
                        assert(s@.subrange(lo, lo + frac_len + 1).drop_last() =~= s@.subrange(
                            lo,
                            lo + frac_len,
                        ));
                        assert(s@.subrange(lo, lo + frac_len + 1).last() == s@[i as int]);
                        assert(all_digits(s@.subrange(lo, lo + frac_len)));
                        lemma_digits_val_bound(s@.subrange(lo, lo + frac_len));
                        assert(pow10(5) == 100000) by {
                            assert(pow10(0) == 1);
                            assert(pow10(1) == 10);
                            assert(pow10(2) == 100);
                            assert(pow10(3) == 1000);
                            assert(pow10(4) == 10000);
                        }
                        if frac_len < 5 {
                            lemma_pow10_le(frac_len as nat, 4nat);
                        }
                    }
                    frac_acc = frac_acc * 10 + d;
                    frac_len = frac_len + 1;
                }
                frac_seen = frac_seen + 1;
            }
        } else if c == '.' {
            if seen_dot {
                proof {
                    let k = i - dot - 1;
                    assert(frac_part(s@)[k as int] == s@[i as int]);
                    assert(!is_digit('.'));
                }
                return None;
            }
            proof {
                lemma_first_pos_at(s@, '.', i as int);
            }
            seen_dot = true;
            dot = i;
        } else {
            proof {
                if !seen_dot {
                    if valid_rate_text(s@) {
                        lemma_first_pos_ge(s@, '.', i as int + 1);
                        lemma_first_pos_le_len(s@, '.');
                        assert(int_part(s@)[i as int] == s@[i as int]);
                    }
                } else {
                    let k = i - dot - 1;
                    assert(frac_part(s@)[k as int] == s@[i as int]);
                }
            }
            return None;
        }
        i = i + 1;
    }
    // Establish the two halves from the scan.
    proof {
        if !seen_dot {
            lemma_first_pos_at(s@, '.', n as int);
            assert(int_part(s@) =~= s@);
            assert(s@.take(n as int) =~= s@);
        } else {
            assert(frac_part(s@) =~= s@.skip(dot as int + 1));
            assert forall|j: int| 0 <= j < frac_part(s@).len() implies is_digit(
                frac_part(s@)[j],
            ) by {
                assert(frac_part(s@)[j] == s@[dot as int + 1 + j]);
            }
        }
        assert(all_digits(int_part(s@)));
        assert(all_digits(frac_part(s@)));
    }
    let int_len: usize = if seen_dot {
        dot
    } else {
        n
    };
    if int_len == 0 && frac_seen == 0 {
        return None;
    }
    // The fraction read to exactly six places.
    proof {
        if seen_dot {
            assert(frac_part(s@).take(frac_len as int) =~= s@.subrange(
                dot as int + 1,
                dot as int + 1 + frac_len,
            ));
            if frac_len as int <= frac_part(s@).len() {
                assert(pad_to(frac_part(s@), frac_len as int) =~= frac_part(s@).take(
                    frac_len as int,
                ));
            }
        } else {
            assert(pad_to(frac_part(s@), 0) =~= frac_part(s@).take(0));
        }
    }
    while frac_len < 6
        invariant
            n == s@.len(),
            frac_len <= 6,
            frac_len >= frac_part(s@).len() || frac_len == 6,
            all_digits(frac_part(s@)),
            frac_acc == digits_val(pad_to(frac_part(s@), frac_len as int)),
            frac_acc < 1000000,
        decreases 6 - frac_len,
    {
        proof {
            let f = frac_part(s@);
            let l = frac_len as int;
            assert(pad_to(f, l + 1).drop_last() =~= pad_to(f, l));
            assert(pad_to(f, l + 1).last() == '0');
            assert(digit_val('0') == 0);
            lemma_pad_digits(f, l);
            lemma_digits_val_bound(pad_to(f, l));
            assert(pow10(5) == 100000) by {
                assert(pow10(0) == 1);
                assert(pow10(1) == 10);
                assert(pow10(2) == 100);
                assert(pow10(3) == 1000);
                assert(pow10(4) == 10000);
            }
            if l < 5 {
                lemma_pow10_le(frac_len as nat, 4nat);
            }
        }
        frac_acc = frac_acc * 10;
        frac_len = frac_len + 1;
    }
    proof {
        lemma_pad_digits(frac_part(s@), 6);
        lemma_digits_val_nonneg(pad_to(frac_part(s@), 6));
        if seen_dot {
            assert(int_part(s@) =~= s@.take(dot as int));
        }
        lemma_digits_val_nonneg(int_part(s@));
    }
    let total: u128 = int_acc * 1000000 + frac_acc as u128;
    if total > u64::MAX as u128 {
        None
    } else {
        Some(total as u64)
    }
}

pub proof fn lemma_pow10_le(a: nat, b: nat)
    requires
        a <= b,
    ensures
        pow10(a) <= pow10(b),
        pow10(a) >= 1,
    decreases b,
{
    if a == b {
        lemma_pow10_pos(a);
    } else {
        lemma_pow10_le(a, (b - 1) as nat);
    }
}

pub proof fn lemma_pow10_pos(a: nat)
    ensures
        pow10(a) >= 1,
    decreases a,
{
    if a > 0 {
        lemma_pow10_pos((a - 1) as nat);
    }
}

} // verus!

