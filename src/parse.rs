//! Parsers for the values given on the command line: a region of a sequence
//! (`"1000 - 2000"`) and a byte size with an optional unit (`"2.5kb"`).

use crate::error::RegionError;
use vstd::prelude::*;
use vstd::string::StrSliceExecFns;

verus! {

/// Why a byte size could not be read.
#[derive(Debug, Clone, Copy, PartialEq, Eq, Structural)]
pub enum SizeError {
    /// The text is not a decimal number with an optional unit.
    InvalidFormat,
}

/// Unicode's `White_Space` characters, those that `char::is_whitespace` accepts.
pub open spec fn is_white_space(c: char) -> bool {
    ('\u{9}' <= c && c <= '\u{d}') || c == ' ' || c == '\u{85}' || c == '\u{a0}' || c
        == '\u{1680}' || ('\u{2000}' <= c && c <= '\u{200a}') || c == '\u{2028}' || c
        == '\u{2029}' || c == '\u{202f}' || c == '\u{205f}' || c == '\u{3000}'
}

/// Whether `c` is white space.
fn white_space(c: char) -> (r: bool)
    ensures
        r == is_white_space(c),
{
    ('\u{9}' <= c && c <= '\u{d}') || c == ' ' || c == '\u{85}' || c == '\u{a0}' || c
        == '\u{1680}' || ('\u{2000}' <= c && c <= '\u{200a}') || c == '\u{2028}' || c
        == '\u{2029}' || c == '\u{202f}' || c == '\u{205f}' || c == '\u{3000}'
}

/// The characters of `cs` that are not white space, in order.
pub open spec fn without_white_space(cs: Seq<char>) -> Seq<char>
    decreases cs.len(),
{
    if cs.len() == 0 {
        cs
    } else if is_white_space(cs.last()) {
        without_white_space(cs.drop_last())
    } else {
        without_white_space(cs.drop_last()).push(cs.last())
    }
}

/// An ASCII digit.
pub open spec fn is_digit_char(c: char) -> bool {
    '0' <= c && c <= '9'
}

/// Every character is an ASCII digit.
pub open spec fn all_digits(cs: Seq<char>) -> bool {
    forall|i: int| 0 <= i < cs.len() ==> is_digit_char(#[trigger] cs[i])
}

/// The number that a string of decimal digits writes.
pub open spec fn digits_value(cs: Seq<char>) -> nat
    decreases cs.len(),
{
    if cs.len() == 0 {
        0
    } else {
        digits_value(cs.drop_last()) * 10 + (cs.last() as u32 - 48) as nat
    }
}

/// What `usize::from_str` reads: an optional `+`, then at least one digit,
/// writing a number that fits a `usize`.
pub open spec fn usize_of(cs: Seq<char>) -> Option<usize> {
    let ds = if cs.len() > 0 && cs[0] == '+' {
        cs.drop_first()
    } else {
        cs
    };
    if ds.len() > 0 && all_digits(ds) && digits_value(ds) <= usize::MAX {
        Some(digits_value(ds) as usize)
    } else {
        None
    }
}

/// The number of dashes in `cs`.
pub open spec fn dash_count(cs: Seq<char>) -> nat
    decreases cs.len(),
{
    if cs.len() == 0 {
        0
    } else {
        dash_count(cs.drop_last()) + if cs.last() == '-' {
            1nat
        } else {
            0nat
        }
    }
}

/// The region that a text names: with white space removed, two numbers joined
/// by one dash.
pub open spec fn region_of(cs: Seq<char>) -> Option<(usize, usize)> {
    let t = without_white_space(cs);
    if dash_count(t) == 1 {
        let p = choose|p: int| 0 <= p < t.len() && t[p] == '-';
        match (usize_of(t.take(p)), usize_of(t.skip(p + 1))) {
            (Some(a), Some(b)) => Some((a, b)),
            _ => None,
        }
    } else {
        None
    }
}

/// The characters of `s`, one by one.
fn chars_of(s: &str) -> (r: Vec<char>)
    ensures
        r@ == s@,
{
    let n = s.unicode_len();
    let mut r: Vec<char> = Vec::with_capacity(n);
    let mut i: usize = 0;
    while i < n
        invariant
            n == s@.len(),
            i <= n,
            r@ == s@.take(i as int),
        decreases n - i,
    {
        r.push(s.get_char(i));
        i += 1;
        assert(r@ =~= s@.take(i as int));
    }
    assert(r@ =~= s@);
    r
}

/// The characters of `s` that are not white space.
pub fn remove_whitespace(s: &str) -> (r: Vec<char>)
    ensures
        r@ == without_white_space(s@),
{
    let cs = chars_of(s);
    let mut r: Vec<char> = Vec::new();
    let mut i: usize = 0;
    while i < cs.len()
        invariant
            i <= cs@.len(),
            r@ == without_white_space(cs@.take(i as int)),
        decreases cs@.len() - i,
    {
        let c = cs[i];
        proof {
            assert(cs@.take(i + 1).drop_last() =~= cs@.take(i as int));
        }
        if !white_space(c) {
            r.push(c);
        }
        i += 1;
    }
    assert(cs@.take(cs@.len() as int) =~= cs@);
    r
}

/// A number that grows by a digit never shrinks.
proof fn lemma_digits_value_grows(cs: Seq<char>, i: int)
    requires
        0 <= i <= cs.len(),
    ensures
        digits_value(cs.take(i)) <= digits_value(cs),
    decreases cs.len() - i,
{
    if i < cs.len() {
        lemma_digits_value_grows(cs, i + 1);
        assert(cs.take(i + 1).drop_last() =~= cs.take(i));
    } else {
        assert(cs.take(i) =~= cs);
    }
}

/// Reads the decimal number in `cs[start..end]` as `usize::from_str` would.
fn parse_usize(cs: &Vec<char>, start: usize, end: usize) -> (r: Option<usize>)
    requires
        start <= end <= cs@.len(),
    ensures
        r == usize_of(cs@.subrange(start as int, end as int)),
{
    let ghost t = cs@.subrange(start as int, end as int);
    let mut i = start;
    if i < end && cs[i] == '+' {
        i += 1;
    }
    let ghost ds = cs@.subrange(i as int, end as int);
    proof {
        if t.len() > 0 && t[0] == '+' {
            assert(ds =~= t.drop_first());
        } else {
            assert(ds =~= t);
        }
    }
    if i == end {
        return None;
    }
    let mut v: usize = 0;
    let mut k = i;
    while k < end
        invariant
            i <= k <= end <= cs@.len(),
            ds == cs@.subrange(i as int, end as int),
            t == cs@.subrange(start as int, end as int),
            ds == (if t.len() > 0 && t[0] == '+' {
                t.drop_first()
            } else {
                t
            }),
            all_digits(ds.take(k - i)),
            v == digits_value(ds.take(k - i)),
        decreases end - k,
    {
        let c = cs[k];
        proof {
            assert(ds.take(k - i + 1).drop_last() =~= ds.take(k - i));
        }
        if !('0' <= c && c <= '9') {
            assert(!is_digit_char(ds[k - i]));
            assert(!all_digits(ds));
            return None;
        }
        let d = (c as u32 - 48) as usize;
        let next = match v.checked_mul(10) {
            Some(m) => m.checked_add(d),
            None => None,
        };
        match next {
            Some(n) => {
                v = n;
            },
            None => {
                proof {
                    lemma_digits_value_grows(ds, k - i + 1);
                }
                return None;
            },
        }
        k += 1;
        assert(all_digits(ds.take(k - i)));
    }
    assert(ds.take(end - i) =~= ds);
    Some(v)
}

/// Counts the dashes in `cs` and finds the last one.
fn find_dashes(cs: &Vec<char>) -> (r: (usize, usize))
    ensures
        r.0 == dash_count(cs@),
        r.0 >= 1 ==> r.1 < cs@.len() && cs@[r.1 as int] == '-',
{
    let mut count: usize = 0;
    let mut at: usize = 0;
    let mut i: usize = 0;
    while i < cs.len()
        invariant
            i <= cs@.len(),
            count == dash_count(cs@.take(i as int)),
            count <= i,
            count >= 1 ==> at < i && cs@[at as int] == '-',
        decreases cs@.len() - i,
    {
        proof {
            assert(cs@.take(i + 1).drop_last() =~= cs@.take(i as int));
        }
        if cs[i] == '-' {
            count += 1;
            at = i;
        }
        i += 1;
    }
    assert(cs@.take(cs@.len() as int) =~= cs@);
    (count, at)
}

/// With one dash in `cs`, it stands at every position that holds a dash.
proof fn lemma_single_dash(cs: Seq<char>, p: int, q: int)
    requires
        dash_count(cs) == 1,
        0 <= p < cs.len(),
        0 <= q < cs.len(),
        cs[p] == '-',
        cs[q] == '-',
    ensures
        p == q,
    decreases cs.len(),
{
    let last = cs.len() - 1;
    if p != last && q != last {
        if cs.last() == '-' {
            lemma_dash_count_positive(cs.drop_last(), p);
        } else {
            lemma_single_dash(cs.drop_last(), p, q);
        }
    } else if p != q {
        let other = if p == last { q } else { p };
        lemma_dash_count_positive(cs.drop_last(), other);
    }
}

/// A sequence with a dash counts at least one.
proof fn lemma_dash_count_positive(cs: Seq<char>, p: int)
    requires
        0 <= p < cs.len(),
        cs[p] == '-',
    ensures
        dash_count(cs) >= 1,
    decreases cs.len(),
{
    if p != cs.len() - 1 {
        lemma_dash_count_positive(cs.drop_last(), p);
    }
}

/// Reads a region given as two numbers joined by a dash, such as
/// `"1000 - 2000"`; white space anywhere is ignored.
pub fn parse_region(region: &str) -> (r: Result<Vec<usize>, RegionError>)
    ensures
        r is Err <==> region_of(region@) is None,
        r matches Err(e) ==> e == RegionError::CouldNotParse,
        r matches Ok(v) ==> region_of(region@) matches Some(p) && v@ == seq![p.0, p.1],
{
    let str_rmw = remove_whitespace(region);
    let (count, at) = find_dashes(&str_rmw);
    if count != 1 {
        return Err(RegionError::CouldNotParse);
    }
    let ghost t = str_rmw@;
    proof {
        let p = choose|p: int| 0 <= p < t.len() && t[p] == '-';
        lemma_single_dash(t, p, at as int);
        assert(t.take(at as int) == t.subrange(0, at as int));
        assert(t.skip(at + 1) == t.subrange(at + 1, t.len() as int));
    }
    let start = match parse_usize(&str_rmw, 0, at) {
        Some(v) => v,
        None => return Err(RegionError::CouldNotParse),
    };
    let end = match parse_usize(&str_rmw, at + 1, str_rmw.len()) {
        Some(v) => v,
        None => return Err(RegionError::CouldNotParse),
    };
    let mut v: Vec<usize> = Vec::with_capacity(2);
    v.push(start);
    v.push(end);
    assert(v@ =~= seq![start, end]);
    Ok(v)
}

/// `cs` without its leading white space.
pub open spec fn trim_start(cs: Seq<char>) -> Seq<char>
    decreases cs.len(),
{
    if cs.len() > 0 && is_white_space(cs[0]) {
        trim_start(cs.drop_first())
    } else {
        cs
    }
}

/// `cs` without its trailing white space.
pub open spec fn trim_end(cs: Seq<char>) -> Seq<char>
    decreases cs.len(),
{
    if cs.len() > 0 && is_white_space(cs.last()) {
        trim_end(cs.drop_last())
    } else {
        cs
    }
}

/// The letter `b` in either case.
pub open spec fn is_letter_b(c: char) -> bool {
    c == 'b' || c == 'B'
}

/// The unit that ends a size, ignoring case: how many characters it takes and
/// the power of ten it scales by (`gb` 9, `mb` 6, `kb` 3, `b` 0, none 0).
pub open spec fn size_unit(t: Seq<char>) -> (nat, nat) {
    let n = t.len();
    if n >= 2 && is_letter_b(t[n - 1]) && (t[n - 2] == 'g' || t[n - 2] == 'G') {
        (2, 9)
    } else if n >= 2 && is_letter_b(t[n - 1]) && (t[n - 2] == 'm' || t[n - 2] == 'M') {
        (2, 6)
    } else if n >= 2 && is_letter_b(t[n - 1]) && (t[n - 2] == 'k' || t[n - 2] == 'K') {
        (2, 3)
    } else if n >= 1 && is_letter_b(t[n - 1]) {
        (1, 0)
    } else {
        (0, 0)
    }
}

/// A point at `p` with digits on both sides and at least one digit in all.
pub open spec fn point_splits(num: Seq<char>, p: int) -> bool {
    &&& 0 <= p < num.len()
    &&& num[p] == '.'
    &&& num.len() >= 2
    &&& all_digits(num.take(p))
    &&& all_digits(num.skip(p + 1))
}

/// The whole and fractional digits of a decimal number: digits, or digits with
/// one point among them.
pub open spec fn number_parts(num: Seq<char>) -> Option<(Seq<char>, Seq<char>)> {
    if num.len() > 0 && all_digits(num) {
        Some((num, Seq::empty()))
    } else if exists|p: int| point_splits(num, p) {
        let p = choose|p: int| point_splits(num, p);
        Some((num.take(p), num.skip(p + 1)))
    } else {
        None
    }
}

/// The digits of a number with its point moved `z` places right: the whole
/// digits, the first `z` fractional ones, and zeros where these run out.
pub open spec fn shifted_digits(whole: Seq<char>, frac: Seq<char>, z: nat) -> Seq<char> {
    let k = if frac.len() < z {
        frac.len()
    } else {
        z
    };
    whole + frac.take(k as int) + Seq::new((z - k) as nat, |i: int| '0')
}

/// The first fractional digit left after the shift is five or more, so the
/// number rounds up.
pub open spec fn rounds_up(frac: Seq<char>, z: nat) -> bool {
    frac.len() > z && frac[z as int] >= '5'
}

/// The byte count that a size text gives: white space trimmed, a decimal
/// number with an optional unit, scaled by the unit, rounded to the nearest
/// whole byte (halves up), and capped at the largest `usize`.
pub open spec fn size_of(cs: Seq<char>) -> Option<usize> {
    let t = trim_end(trim_start(cs));
    let unit = size_unit(t);
    let num = t.take(t.len() - unit.0);
    match number_parts(num) {
        Some(parts) => {
            let v = digits_value(shifted_digits(parts.0, parts.1, unit.1)) + if rounds_up(
                parts.1,
                unit.1,
            ) {
                1nat
            } else {
                0nat
            };
            Some(
                if v > usize::MAX {
                    usize::MAX
                } else {
                    v as usize
                },
            )
        },
        None => None,
    }
}

/// `cs` with leading and trailing white space removed.
fn trimmed(cs: &Vec<char>) -> (r: Vec<char>)
    ensures
        r@ == trim_end(trim_start(cs@)),
{
    let n = cs.len();
    let mut lo: usize = 0;
    assert(cs@.skip(0) =~= cs@);
    while lo < n && white_space(cs[lo])
        invariant
            n == cs@.len(),
            lo <= n,
            trim_start(cs@) == trim_start(cs@.skip(lo as int)),
        decreases n - lo,
    {
        assert(cs@.skip(lo as int).drop_first() =~= cs@.skip(lo + 1));
        lo += 1;
    }
    let mut hi: usize = n;
    let ghost s = cs@.skip(lo as int);
    assert(trim_start(cs@) == s);
    while hi > lo && white_space(cs[hi - 1])
        invariant
            n == cs@.len(),
            lo <= hi <= n,
            s == cs@.skip(lo as int),
            trim_end(s) == trim_end(cs@.subrange(lo as int, hi as int)),
        decreases hi,
    {
        assert(cs@.subrange(lo as int, hi as int).drop_last() =~= cs@.subrange(
            lo as int,
            hi - 1,
        ));
        hi -= 1;
    }
    assert(s =~= cs@.subrange(lo as int, n as int));
    let mut r: Vec<char> = Vec::with_capacity(hi - lo);
    let mut i = lo;
    while i < hi
        invariant
            lo <= i <= hi <= n,
            n == cs@.len(),
            r@ == cs@.subrange(lo as int, i as int),
        decreases hi - i,
    {
        r.push(cs[i]);
        i += 1;
        assert(r@ =~= cs@.subrange(lo as int, i as int));
    }
    r
}

/// Whether `cs[start..end]` holds only digits.
fn digits_only(cs: &Vec<char>, start: usize, end: usize) -> (r: bool)
    requires
        start <= end <= cs@.len(),
    ensures
        r == all_digits(cs@.subrange(start as int, end as int)),
{
    let mut i = start;
    while i < end
        invariant
            start <= i <= end <= cs@.len(),
            forall|k: int| start <= k < i ==> is_digit_char(#[trigger] cs@[k]),
        decreases end - i,
    {
        if !('0' <= cs[i] && cs[i] <= '9') {
            assert(!is_digit_char(cs@.subrange(start as int, end as int)[i - start]));
            return false;
        }
        i += 1;
    }
    assert forall|k: int| 0 <= k < end - start implies is_digit_char(
        #[trigger] cs@.subrange(start as int, end as int)[k],
    ) by {
        assert(cs@.subrange(start as int, end as int)[k] == cs@[start + k]);
    }
    true
}

/// Only one position can split a number at its point.
proof fn lemma_point_unique(num: Seq<char>, p: int, q: int)
    requires
        point_splits(num, p),
        point_splits(num, q),
    ensures
        p == q,
{
    if p < q {
        assert(num.skip(p + 1)[q - p - 1] == num[q]);
    } else if q < p {
        assert(num.skip(q + 1)[p - q - 1] == num[p]);
    }
}

/// `x`, or the largest `usize` where `x` is larger.
pub open spec fn capped(x: nat) -> nat {
    if x > usize::MAX {
        usize::MAX as nat
    } else {
        x
    }
}

/// One more digit on a number that is capped at the largest `usize`.
fn push_digit_capped(v: usize, c: char, Ghost(x): Ghost<nat>) -> (r: usize)
    requires
        is_digit_char(c),
        v == capped(x),
    ensures
        r == capped(x * 10 + (c as u32 - 48) as nat),
{
    let d = (c as u32 - 48) as usize;
    match v.checked_mul(10) {
        Some(m) => match m.checked_add(d) {
            Some(x) => x,
            None => usize::MAX,
        },
        None => usize::MAX,
    }
}

/// The unit at the end of `t`: how many characters it takes and its power of ten.
fn unit_of(t: &Vec<char>) -> (r: (usize, usize))
    ensures
        size_unit(t@) == (r.0 as nat, r.1 as nat),
{
    let n = t.len();
    let ends_b = n >= 1 && (t[n - 1] == 'b' || t[n - 1] == 'B');
    if ends_b && n >= 2 && (t[n - 2] == 'g' || t[n - 2] == 'G') {
        (2, 9)
    } else if ends_b && n >= 2 && (t[n - 2] == 'm' || t[n - 2] == 'M') {
        (2, 6)
    } else if ends_b && n >= 2 && (t[n - 2] == 'k' || t[n - 2] == 'K') {
        (2, 3)
    } else if ends_b {
        (1, 0)
    } else {
        (0, 0)
    }
}

/// Splits the number in `t[..m]` into its whole and fractional digits, given
/// as the end of the one and the start of the other.
fn split_number(t: &Vec<char>, m: usize) -> (r: Option<(usize, usize)>)
    requires
        m <= t@.len(),
    ensures
        r is None <==> number_parts(t@.take(m as int)) is None,
        r matches Some(q) ==> q.0 <= q.1 <= m && number_parts(t@.take(m as int)) == Some(
            (t@.subrange(0, q.0 as int), t@.subrange(q.1 as int, m as int)),
        ),
{
    let ghost num = t@.take(m as int);
    let mut p: usize = 0;
    while p < m && t[p] != '.'
        invariant
            m <= t@.len(),
            p <= m,
            forall|k: int| 0 <= k < p ==> t@[k] != '.',
        decreases m - p,
    {
        p += 1;
    }
    if p == m {
        let valid = m > 0 && digits_only(t, 0, m);
        proof {
            assert(num =~= t@.subrange(0, m as int));
            assert(t@.subrange(m as int, m as int) =~= Seq::<char>::empty());
            if exists|q: int| point_splits(num, q) {
                let q = choose|q: int| point_splits(num, q);
                assert(num[q] == t@[q]);
            }
        }
        if valid {
            Some((m, m))
        } else {
            None
        }
    } else {
        let valid = m >= 2 && digits_only(t, 0, p) && digits_only(t, p + 1, m);
        proof {
            assert(num.take(p as int) =~= t@.subrange(0, p as int));
            assert(num.skip(p + 1) =~= t@.subrange(p + 1, m as int));
            assert(num[p as int] == '.');
            assert(!all_digits(num)) by {
                assert(!is_digit_char(num[p as int]));
            }
            if valid {
                assert(point_splits(num, p as int));
                let q = choose|q: int| point_splits(num, q);
                lemma_point_unique(num, p as int, q);
            } else if exists|q: int| point_splits(num, q) {
                let q = choose|q: int| point_splits(num, q);
                if q < p {
                    assert(num[q] == t@[q]);
                } else if q > p {
                    assert(num.take(q)[p as int] == num[p as int]);
                    assert(!is_digit_char(num.take(q)[p as int]));
                }
            }
        }
        if valid {
            Some((p, p + 1))
        } else {
            None
        }
    }
}

/// The digits of `whole` and `frac` with the point moved `z` places right.
fn shift_digits(
    t: &Vec<char>,
    whole_end: usize,
    frac_start: usize,
    m: usize,
    z: usize,
) -> (r: Vec<char>)
    requires
        whole_end <= frac_start <= m <= t@.len(),
    ensures
        r@ == shifted_digits(
            t@.subrange(0, whole_end as int),
            t@.subrange(frac_start as int, m as int),
            z as nat,
        ),
{
    let ghost whole = t@.subrange(0, whole_end as int);
    let ghost frac = t@.subrange(frac_start as int, m as int);
    let frac_len = m - frac_start;
    let k = if frac_len < z {
        frac_len
    } else {
        z
    };
    let mut shifted: Vec<char> = Vec::new();
    let mut i: usize = 0;
    while i < whole_end
        invariant
            whole_end <= t@.len(),
            i <= whole_end,
            whole == t@.subrange(0, whole_end as int),
            shifted@ == whole.take(i as int),
        decreases whole_end - i,
    {
        shifted.push(t[i]);
        i += 1;
        assert(shifted@ =~= whole.take(i as int));
    }
    assert(shifted@ =~= whole);
    let mut j: usize = 0;
    while j < k
        invariant
            frac_start <= m <= t@.len(),
            k <= m - frac_start,
            j <= k,
            frac == t@.subrange(frac_start as int, m as int),
            shifted@ == whole + frac.take(j as int),
        decreases k - j,
    {
        shifted.push(t[frac_start + j]);
        j += 1;
        assert(shifted@ =~= whole + frac.take(j as int));
    }
    let mut zeros: usize = 0;
    while zeros < z - k
        invariant
            k <= z,
            zeros <= z - k,
            shifted@ == whole + frac.take(k as int) + Seq::new(zeros as nat, |i: int| '0'),
        decreases z - k - zeros,
    {
        shifted.push('0');
        zeros += 1;
        assert(shifted@ =~= whole + frac.take(k as int) + Seq::new(zeros as nat, |i: int| '0'));
    }
    assert(shifted@ =~= shifted_digits(whole, frac, z as nat));
    shifted
}

/// The number that `digits` writes, capped at the largest `usize`.
fn capped_value(digits: &Vec<char>) -> (r: usize)
    requires
        all_digits(digits@),
    ensures
        r == capped(digits_value(digits@)),
{
    let mut v: usize = 0;
    let mut q: usize = 0;
    assert(digits@.take(0) =~= Seq::<char>::empty());
    while q < digits.len()
        invariant
            q <= digits@.len(),
            all_digits(digits@),
            v == capped(digits_value(digits@.take(q as int))),
        decreases digits@.len() - q,
    {
        assert(digits@.take(q + 1).drop_last() =~= digits@.take(q as int));
        v = push_digit_capped(v, digits[q], Ghost(digits_value(digits@.take(q as int))));
        q += 1;
    }
    assert(digits@.take(q as int) =~= digits@);
    v
}

/// Reads a byte size such as `"1500"`, `"2.5kb"` or `" 3 MB "` (a decimal
/// number followed by an optional unit `b`, `kb`, `mb` or `gb` in any case,
/// each a power of 1000), rounded to the nearest byte with halves rounding
/// up; sizes past the largest `usize` are capped there.
pub fn parse_size(size: &str) -> (r: Result<usize, SizeError>)
    ensures
        r is Err <==> size_of(size@) is None,
        r matches Err(e) ==> e == SizeError::InvalidFormat,
        r matches Ok(v) ==> size_of(size@) == Some(v),
{
    let cs = chars_of(size);
    let t = trimmed(&cs);
    let (suffix, z) = unit_of(&t);
    let m = t.len() - suffix;
    let (whole_end, frac_start) = match split_number(&t, m) {
        Some(q) => q,
        None => return Err(SizeError::InvalidFormat),
    };
    let ghost whole = t@.subrange(0, whole_end as int);
    let ghost frac = t@.subrange(frac_start as int, m as int);
    let shifted = shift_digits(&t, whole_end, frac_start, m, z);
    proof {
        let k = if frac.len() < z { frac.len() } else { z as nat };
        assert forall|x: int| 0 <= x < shifted@.len() implies is_digit_char(
            #[trigger] shifted@[x],
        ) by {
            if x < whole.len() {
                assert(shifted@[x] == whole[x]);
            } else if x < whole.len() + k {
                assert(shifted@[x] == frac[x - whole.len()]);
            }
        }
    }
    let mut v = capped_value(&shifted);
    let up = m - frac_start > z && t[frac_start + z] >= '5';
    assert(up == rounds_up(frac, z as nat));
    if up && v < usize::MAX {
        v = v + 1;
    }
    Ok(v)
}

} // verus!
