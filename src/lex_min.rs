//! A canonical form for a sequence that does not depend on where the sequence
//! starts (it may be circular) or on which strand was read.

use crate::revcomp::{reverse_complement, reverse_complement_of, lemma_reverse_complement_involutive};
use crate::rotation::{
    is_least_rotation, lemma_least_undominated, lemma_lex_irreflexive,
    lemma_lex_total, lemma_lex_transitive, lemma_rotate_index, lemma_rotate_rotate, less_at,
    lex_less, minimal_rotation, rotate, symbol_at,
};
use std::cmp::Ordering;
use vstd::prelude::*;
use vstd::utf8::{decode_utf8, encode_utf8, valid_utf8};

verus! {

broadcast use vstd::utf8::decode_utf8_encode_utf8;

/// The longest run of ASCII digits that the natural comparison can take: it
/// accumulates a run in a `u64`, which holds every number of nineteen digits.
pub const MAX_DIGIT_RUN: u64 = 19;

/// Why no canonical form could be given.
#[derive(Debug, Clone, Copy, PartialEq, Eq, Structural)]
pub enum CanonicalError {
    /// A chosen rotation is not valid UTF-8 text.
    Encoding,
}

/// An ASCII digit.
pub open spec fn is_digit_byte(b: u8) -> bool {
    48 <= b <= 57
}

/// The length of the run of digits that ends just before position `i`.
pub open spec fn digit_run_before(b: Seq<u8>, i: int) -> nat
    decreases i,
{
    if i <= 0 || i > b.len() || !is_digit_byte(b[i - 1]) {
        0
    } else {
        1 + digit_run_before(b, i - 1)
    }
}

/// ASCII text with no run of digits longer than [`MAX_DIGIT_RUN`]: the text
/// that the natural comparison orders.
pub open spec fn plain_bytes(b: Seq<u8>) -> bool {
    &&& forall|i: int| 0 <= i < b.len() ==> #[trigger] b[i] < 128
    &&& forall|i: int| 0 <= i <= b.len() ==> #[trigger] digit_run_before(b, i) <= MAX_DIGIT_RUN
}

/// The order that `lexical_sort::natural_lexical_cmp` gives two strings.
pub uninterp spec fn natural_order(a: Seq<char>, b: Seq<char>) -> Ordering;

/// Relies on `lexical_sort::natural_lexical_cmp`, the natural order that puts
/// runs of digits in numeric order, for what it returns on two strings. It adds
/// up a run of digits in a `u64`, which overflows past nineteen digits, and it
/// transliterates other characters into ASCII first, so it is only handed ASCII
/// text with short digit runs.
#[verifier::external_body]
fn natural_cmp(a: &str, b: &str) -> (r: Ordering)
    requires
        plain_bytes(encode_utf8(a@)),
        plain_bytes(encode_utf8(b@)),
    ensures
        r == natural_order(a@, b@),
{
    lexical_sort::natural_lexical_cmp(a, b)
}

/// Relies on `String::from_utf8`: it succeeds exactly on valid UTF-8, and the
/// string then holds the decoded characters.
#[verifier::external_body]
pub(crate) fn decode_text(bytes: Vec<u8>) -> (r: Option<String>)
    ensures
        r is Some <==> valid_utf8(bytes@),
        r matches Some(t) ==> t@ == decode_utf8(bytes@),
{
    String::from_utf8(bytes).ok()
}

/// The lexicographically least rotation of `s`.
pub open spec fn least_rotation(s: Seq<u8>) -> Seq<u8> {
    rotate(s, choose|r: int| is_least_rotation(s, r))
}

/// Whether the reverse candidate is taken: where the natural order applies
/// (`natural`) and read both ways (`o1` forward against reverse, `o2` reverse
/// against forward) puts exactly one candidate first, that one; otherwise the
/// one first in byte order (`reverse_first_bytewise`).
pub open spec fn pick_reverse(
    natural: bool,
    o1: Ordering,
    o2: Ordering,
    reverse_first_bytewise: bool,
) -> bool {
    if natural && o1 == Ordering::Less && o2 != Ordering::Less {
        false
    } else if natural && o2 == Ordering::Less && o1 != Ordering::Less {
        true
    } else {
        reverse_first_bytewise
    }
}

/// Whether the canonical form takes `r`, the reverse strand's least rotation,
/// over `f`, the forward one. Plain text goes by the natural order, read both
/// ways; where that does not decide, and for any other bytes, the byte order does.
pub open spec fn prefers_second(f: Seq<u8>, r: Seq<u8>) -> bool {
    pick_reverse(
        plain_bytes(f) && plain_bytes(r),
        natural_order(decode_utf8(f), decode_utf8(r)),
        natural_order(decode_utf8(r), decode_utf8(f)),
        lex_less(r, f),
    )
}

/// The bytes of the canonical form: the preferred one of the least rotations
/// of the sequence and of its reverse complement.
pub open spec fn canonical_choice(s: Seq<u8>) -> Seq<u8> {
    let f = least_rotation(s);
    let r = least_rotation(reverse_complement_of(s));
    if prefers_second(f, r) {
        r
    } else {
        f
    }
}

/// The canonical form as text, or `None` where a least rotation is not valid UTF-8.
pub open spec fn canonical(s: Seq<u8>) -> Option<Seq<char>> {
    if valid_utf8(least_rotation(s)) && valid_utf8(least_rotation(reverse_complement_of(s))) {
        Some(decode_utf8(canonical_choice(s)))
    } else {
        None
    }
}

/// A non-empty sequence has a least rotation, and every offset that starts one
/// gives the same rotation.
pub proof fn lemma_least_rotation(s: Seq<u8>, r: int)
    requires
        s.len() > 0,
        is_least_rotation(s, r),
    ensures
        least_rotation(s) == rotate(s, r),
{
    let w = lemma_least_undominated(s);
    assert(is_least_rotation(s, w));
    let c = choose|r: int| is_least_rotation(s, r);
    lemma_rotate_index(s, c, 0);
    lemma_rotate_index(s, r, 0);
    lemma_lex_total(rotate(s, c), rotate(s, r));
}

/// A rotation of `s` has the same least rotation as `s`.
pub proof fn lemma_least_rotation_of_rotation(s: Seq<u8>, q: int)
    requires
        0 <= q < s.len(),
    ensures
        least_rotation(rotate(s, q)) == least_rotation(s),
{
    let n = s.len();
    let s2 = rotate(s, q);
    lemma_rotate_index(s, q, 0);
    let w = lemma_least_undominated(s2);
    assert(is_least_rotation(s2, w));
    let p = if q + w < n { q + w } else { q + w - n };
    lemma_rotate_rotate(s, q, w);
    assert forall|y: int| 0 <= y < n implies !#[trigger] lex_less(rotate(s, y), rotate(s, p)) by {
        let y2 = if y >= q { y - q } else { y - q + n };
        lemma_rotate_rotate(s, q, y2);
        assert(!lex_less(rotate(s2, y2), rotate(s2, w)));
    }
    lemma_least_rotation(s2, w);
    lemma_least_rotation(s, p);
}

/// Reverse complementing a rotation gives a rotation of the reverse complement.
pub proof fn lemma_reverse_complement_of_rotation(s: Seq<u8>, q: int)
    requires
        0 <= q < s.len(),
    ensures
        reverse_complement_of(rotate(s, q)) == rotate(
            reverse_complement_of(s),
            if q == 0 { 0 } else { s.len() - q },
        ),
{
    let n = s.len();
    let p = if q == 0 { 0 } else { n - q };
    let a = reverse_complement_of(rotate(s, q));
    let b = rotate(reverse_complement_of(s), p);
    lemma_rotate_index(s, q, 0);
    assert forall|t: int| 0 <= t < n implies a[t] == b[t] by {
        lemma_rotate_index(s, q, n - 1 - t);
        lemma_rotate_index(reverse_complement_of(s), p, t);
    }
    assert(a =~= b);
}

/// Of two sequences of one length, at most one is smaller than the other.
proof fn lemma_lex_asymmetric(a: Seq<u8>, b: Seq<u8>)
    requires
        lex_less(a, b),
    ensures
        !lex_less(b, a),
{
    if lex_less(b, a) {
        lemma_lex_transitive(a, b, a);
        lemma_lex_irreflexive(a);
    }
}

/// Swapping the two candidates swaps the preference, unless they are equal.
proof fn lemma_prefers_second_swap(f: Seq<u8>, r: Seq<u8>)
    requires
        f.len() == r.len(),
        f != r,
    ensures
        prefers_second(r, f) == !prefers_second(f, r),
{
    lemma_lex_total(f, r);
    if lex_less(f, r) {
        lemma_lex_asymmetric(f, r);
    }
    if lex_less(r, f) {
        lemma_lex_asymmetric(r, f);
    }
}

/// The canonical form does not depend on where a sequence starts: every
/// rotation of a non-empty sequence has the same canonical form, as text and
/// as bytes.
pub proof fn lemma_canonical_rotation_invariant(s: Seq<u8>, q: int)
    requires
        0 <= q < s.len(),
    ensures
        canonical(rotate(s, q)) == canonical(s),
        canonical_choice(rotate(s, q)) == canonical_choice(s),
{
    let n = s.len();
    lemma_least_rotation_of_rotation(s, q);
    lemma_reverse_complement_of_rotation(s, q);
    let p = if q == 0 { 0 } else { n - q };
    lemma_least_rotation_of_rotation(reverse_complement_of(s), p);
}

/// The canonical form does not depend on the strand: a sequence and its reverse
/// complement have the same canonical form.
pub proof fn lemma_canonical_strand_invariant(s: Seq<u8>)
    requires
        s.len() > 0,
    ensures
        canonical(reverse_complement_of(s)) == canonical(s),
{
    lemma_reverse_complement_involutive(s);
    lemma_canonical_choice_strand(s);
}

/// The canonical form is a fixed point: canonicalizing its own bytes gives it
/// back, as text and as bytes.
pub proof fn lemma_canonical_idempotent(s: Seq<u8>)
    requires
        s.len() > 0,
    ensures
        canonical(canonical_choice(s)) == canonical(s),
        canonical_choice(canonical_choice(s)) == canonical_choice(s),
{
    let rc = reverse_complement_of(s);
    let c = canonical_choice(s);
    let wf = lemma_least_undominated(s);
    assert(is_least_rotation(s, wf));
    lemma_least_rotation(s, wf);
    let wr = lemma_least_undominated(rc);
    assert(is_least_rotation(rc, wr));
    lemma_least_rotation(rc, wr);
    if c == least_rotation(s) {
        lemma_canonical_rotation_invariant(s, wf);
    } else {
        assert(c == rotate(rc, wr));
        lemma_canonical_rotation_invariant(rc, wr);
        lemma_canonical_strand_invariant(s);
        assert(canonical(c) == canonical(s));
        assert(canonical_choice(c) == canonical_choice(rc));
        lemma_canonical_choice_strand(s);
    }
}

/// Swapping strands changes the canonical bytes only between the two least
/// rotations, and keeps the choice itself.
proof fn lemma_canonical_choice_strand(s: Seq<u8>)
    requires
        s.len() > 0,
    ensures
        canonical_choice(reverse_complement_of(s)) == canonical_choice(s),
{
    lemma_reverse_complement_involutive(s);
    let f = least_rotation(s);
    let r = least_rotation(reverse_complement_of(s));
    let wf = lemma_least_undominated(s);
    assert(is_least_rotation(s, wf));
    lemma_least_rotation(s, wf);
    lemma_rotate_index(s, wf, 0);
    let rc = reverse_complement_of(s);
    let wr = lemma_least_undominated(rc);
    assert(is_least_rotation(rc, wr));
    lemma_least_rotation(rc, wr);
    lemma_rotate_index(rc, wr, 0);
    if f != r {
        lemma_prefers_second_swap(f, r);
    }
}

/// The rotation of `s` that starts at offset `i`, as a new vector.
fn rotated(s: &[u8], i: usize) -> (r: Vec<u8>)
    requires
        i < s@.len(),
    ensures
        r@ == rotate(s@, i as int),
{
    let n = s.len();
    let mut r: Vec<u8> = Vec::with_capacity(n);
    let mut k: usize = 0;
    proof {
        lemma_rotate_index(s@, i as int, 0);
    }
    while k < n
        invariant
            n == s@.len(),
            i < n,
            k <= n,
            r@.len() == k,
            rotate(s@, i as int).len() == n,
            forall|t: int| 0 <= t < k ==> #[trigger] r@[t] == rotate(s@, i as int)[t],
        decreases n - k,
    {
        r.push(symbol_at(s, i, k));
        k += 1;
    }
    assert(r@ =~= rotate(s@, i as int));
    r
}

/// Whether `b` is plain text for the natural order.
fn is_plain(b: &Vec<u8>) -> (r: bool)
    ensures
        r == plain_bytes(b@),
{
    let mut run: u64 = 0;
    let mut i: usize = 0;
    while i < b.len()
        invariant
            i <= b@.len(),
            run == digit_run_before(b@, i as int),
            run <= MAX_DIGIT_RUN,
            forall|k: int| 0 <= k < i ==> #[trigger] b@[k] < 128,
            forall|k: int| 0 <= k <= i ==> #[trigger] digit_run_before(b@, k) <= MAX_DIGIT_RUN,
        decreases b@.len() - i,
    {
        let c = b[i];
        if c >= 128 {
            return false;
        }
        if 48 <= c && c <= 57 {
            run = run + 1;
        } else {
            run = 0;
        }
        if run > MAX_DIGIT_RUN {
            assert(digit_run_before(b@, i + 1) > MAX_DIGIT_RUN);
            return false;
        }
        i += 1;
    }
    true
}

/// Whether `a` comes before `b` in byte order; both have one length.
fn lex_less_bytes(a: &Vec<u8>, b: &Vec<u8>) -> (r: bool)
    requires
        a@.len() == b@.len(),
    ensures
        r == lex_less(a@, b@),
{
    let n = a.len();
    let mut k: usize = 0;
    while k < n && a[k] == b[k]
        invariant
            n == a@.len(),
            n == b@.len(),
            k <= n,
            a@.take(k as int) == b@.take(k as int),
        decreases n - k,
    {
        proof {
            assert(a@.take(k + 1) =~= a@.take(k as int).push(a@[k as int]));
            assert(b@.take(k + 1) =~= b@.take(k as int).push(b@[k as int]));
        }
        k += 1;
    }
    if k == n {
        proof {
            assert(a@ =~= a@.take(k as int));
            assert(b@ =~= b@.take(k as int));
            lemma_lex_irreflexive(a@);
        }
        false
    } else if a[k] < b[k] {
        assert(less_at(a@, b@, k as int));
        true
    } else {
        proof {
            assert(less_at(b@, a@, k as int));
            lemma_lex_asymmetric(b@, a@);
        }
        false
    }
}

/// Whether the canonical form takes the reverse candidate, given the natural
/// order of the two candidates read both ways (`None` where they are not plain
/// text) and whether the reverse one comes first in byte order.
pub fn takes_reverse(orders: Option<(Ordering, Ordering)>, reverse_first_bytewise: bool) -> (r:
    bool)
    ensures
        r == match orders {
            Some(o) => pick_reverse(true, o.0, o.1, reverse_first_bytewise),
            None => reverse_first_bytewise,
        },
{
    match orders {
        Some((o1, o2)) => {
            if matches!(o1, Ordering::Less) && !matches!(o2, Ordering::Less) {
                false
            } else if matches!(o2, Ordering::Less) && !matches!(o1, Ordering::Less) {
                true
            } else {
                reverse_first_bytewise
            }
        },
        None => reverse_first_bytewise,
    }
}

/// The canonical form of a non-empty sequence: the least rotation of the
/// sequence or of its reverse complement, whichever comes first in the natural
/// order (digit runs compared as numbers), with byte order deciding where that
/// order does not. Fails where a least rotation is not valid UTF-8.
pub fn lex_min(dna_string: &[u8]) -> (r: Result<String, CanonicalError>)
    requires
        dna_string@.len() > 0,
    ensures
        r is Err <==> canonical(dna_string@) is None,
        r matches Ok(t) ==> canonical(dna_string@) == Some(t@),
        r matches Err(e) ==> e == CanonicalError::Encoding,
{
    let dna_string_r = reverse_complement(dna_string);
    let index_f = minimal_rotation(dna_string);
    let index_r = minimal_rotation(dna_string_r.as_slice());
    let f = rotated(dna_string, index_f);
    let r = rotated(dna_string_r.as_slice(), index_r);
    proof {
        lemma_least_rotation(dna_string@, index_f as int);
        lemma_least_rotation(dna_string_r@, index_r as int);
        lemma_rotate_index(dna_string@, index_f as int, 0);
        lemma_rotate_index(dna_string_r@, index_r as int, 0);
    }
    let natural = is_plain(&f) && is_plain(&r);
    let by_bytes = lex_less_bytes(&r, &f);
    let f_text = match decode_text(f) {
        Some(t) => t,
        None => return Err(CanonicalError::Encoding),
    };
    let r_text = match decode_text(r) {
        Some(t) => t,
        None => return Err(CanonicalError::Encoding),
    };
    let orders = if natural {
        Some(
            (
                natural_cmp(f_text.as_str(), r_text.as_str()),
                natural_cmp(r_text.as_str(), f_text.as_str()),
            ),
        )
    } else {
        None
    };
    let take_r = takes_reverse(orders, by_bytes);
    if take_r {
        Ok(r_text)
    } else {
        Ok(f_text)
    }
}

} // verus!
