//! Lexicographically least rotations of a byte sequence.

use vstd::prelude::*;

verus! {

/// The rotation of `s` that starts at offset `i`.
pub open spec fn rotate(s: Seq<u8>, i: int) -> Seq<u8> {
    s.subrange(i, s.len() as int) + s.subrange(0, i)
}

/// `a` and `b` agree before position `k`, and `a` holds the smaller symbol at `k`.
pub open spec fn less_at(a: Seq<u8>, b: Seq<u8>, k: int) -> bool {
    &&& 0 <= k < a.len()
    &&& k < b.len()
    &&& a.take(k) == b.take(k)
    &&& a[k] < b[k]
}

/// Strict lexicographic order: `a` is smaller at the first position where the two differ.
pub open spec fn lex_less(a: Seq<u8>, b: Seq<u8>) -> bool {
    exists|k: int| #[trigger] less_at(a, b, k)
}

/// Some rotation of `s` is strictly smaller than the one at offset `x`.
pub open spec fn dominated(s: Seq<u8>, x: int) -> bool {
    exists|y: int| 0 <= y < s.len() && #[trigger] lex_less(rotate(s, y), rotate(s, x))
}

/// Offset `r` starts a rotation that no rotation of `s` is smaller than.
pub open spec fn is_least_rotation(s: Seq<u8>, r: int) -> bool {
    &&& 0 <= r < s.len()
    &&& forall|y: int| 0 <= y < s.len() ==> !#[trigger] lex_less(rotate(s, y), rotate(s, r))
}

/// Symbol `t` of the rotation at `i` is symbol `i + t` of `s`, wrapping at the end.
pub proof fn lemma_rotate_index(s: Seq<u8>, i: int, t: int)
    requires
        0 <= i <= s.len(),
        0 <= t < s.len(),
    ensures
        rotate(s, i).len() == s.len(),
        rotate(s, i)[t] == if i + t < s.len() {
            s[i + t]
        } else {
            s[i + t - s.len()]
        },
{
}

/// Rotating a rotation adds the offsets, wrapping at the end.
pub proof fn lemma_rotate_rotate(s: Seq<u8>, i: int, t: int)
    requires
        0 <= i < s.len(),
        0 <= t < s.len(),
    ensures
        rotate(rotate(s, i), t) == rotate(s, if i + t < s.len() { i + t } else { i + t - s.len() }),
{
    let n = s.len();
    let p = if i + t < n { i + t } else { i + t - n };
    let a = rotate(rotate(s, i), t);
    let b = rotate(s, p);
    assert forall|u: int| 0 <= u < n implies a[u] == b[u] by {
        lemma_rotate_index(rotate(s, i), t, u);
        lemma_rotate_index(s, p, u);
        if t + u < n {
            lemma_rotate_index(s, i, t + u);
        } else {
            lemma_rotate_index(s, i, t + u - n);
        }
    }
    assert(a =~= b);
}

/// No sequence is smaller than itself.
pub proof fn lemma_lex_irreflexive(a: Seq<u8>)
    ensures
        !lex_less(a, a),
{
}

/// The lexicographic order is transitive.
pub proof fn lemma_lex_transitive(a: Seq<u8>, b: Seq<u8>, c: Seq<u8>)
    requires
        lex_less(a, b),
        lex_less(b, c),
    ensures
        lex_less(a, c),
{
    let k1 = choose|k: int| less_at(a, b, k);
    let k2 = choose|k: int| less_at(b, c, k);
    if k1 < k2 {
        assert(b.take(k1) =~= b.take(k2).take(k1));
        assert(c.take(k1) =~= c.take(k2).take(k1));
        assert(b[k1] == b.take(k2)[k1]);
        assert(c[k1] == c.take(k2)[k1]);
        assert(less_at(a, c, k1));
    } else if k2 < k1 {
        assert(a.take(k2) =~= a.take(k1).take(k2));
        assert(b.take(k2) =~= b.take(k1).take(k2));
        assert(a[k2] == a.take(k1)[k2]);
        assert(b[k2] == b.take(k1)[k2]);
        assert(less_at(a, c, k2));
    } else {
        assert(less_at(a, c, k1));
    }
}

/// Two sequences of one length that agree before `k` are equal or ordered one way.
proof fn lemma_lex_total_from(a: Seq<u8>, b: Seq<u8>, k: int)
    requires
        a.len() == b.len(),
        0 <= k <= a.len(),
        a.take(k) == b.take(k),
    ensures
        a == b || lex_less(a, b) || lex_less(b, a),
    decreases a.len() - k,
{
    if k == a.len() {
        assert(a =~= a.take(k));
        assert(b =~= b.take(k));
    } else if a[k] == b[k] {
        assert(a.take(k + 1) =~= a.take(k).push(a[k]));
        assert(b.take(k + 1) =~= b.take(k).push(b[k]));
        lemma_lex_total_from(a, b, k + 1);
    } else if a[k] < b[k] {
        assert(less_at(a, b, k));
    } else {
        assert(less_at(b, a, k));
    }
}

/// Two sequences of one length are equal or ordered one way.
pub proof fn lemma_lex_total(a: Seq<u8>, b: Seq<u8>)
    requires
        a.len() == b.len(),
    ensures
        a == b || lex_less(a, b) || lex_less(b, a),
{
    assert(a.take(0) =~= b.take(0));
    lemma_lex_total_from(a, b, 0);
}

/// Among the rotations at offsets below `m` one is not larger than the others.
proof fn lemma_prefix_least(s: Seq<u8>, m: int) -> (w: int)
    requires
        1 <= m <= s.len(),
    ensures
        0 <= w < m,
        forall|y: int| 0 <= y < m ==> !#[trigger] lex_less(rotate(s, y), rotate(s, w)),
    decreases m,
{
    if m == 1 {
        lemma_lex_irreflexive(rotate(s, 0));
        0
    } else {
        let w0 = lemma_prefix_least(s, m - 1);
        if lex_less(rotate(s, m - 1), rotate(s, w0)) {
            assert forall|y: int| 0 <= y < m implies !#[trigger] lex_less(
                rotate(s, y),
                rotate(s, m - 1),
            ) by {
                if y == m - 1 {
                    lemma_lex_irreflexive(rotate(s, y));
                } else if lex_less(rotate(s, y), rotate(s, m - 1)) {
                    lemma_lex_transitive(rotate(s, y), rotate(s, m - 1), rotate(s, w0));
                }
            }
            m - 1
        } else {
            w0
        }
    }
}

/// Searches upwards from `x` for the first offset whose rotation is not dominated.
proof fn lemma_least_undominated_from(s: Seq<u8>, x: int, w: int) -> (r: int)
    requires
        0 <= x <= w < s.len(),
        !dominated(s, w),
        forall|y: int| 0 <= y < x ==> #[trigger] dominated(s, y),
    ensures
        0 <= r < s.len(),
        !dominated(s, r),
        forall|y: int| 0 <= y < r ==> #[trigger] dominated(s, y),
    decreases w - x,
{
    if !dominated(s, x) {
        x
    } else {
        lemma_least_undominated_from(s, x + 1, w)
    }
}

/// A non-empty sequence has a first offset whose rotation no rotation is smaller than.
pub proof fn lemma_least_undominated(s: Seq<u8>) -> (r: int)
    requires
        s.len() > 0,
    ensures
        0 <= r < s.len(),
        !dominated(s, r),
        forall|y: int| 0 <= y < r ==> #[trigger] dominated(s, y),
{
    let w = lemma_prefix_least(s, s.len() as int);
    lemma_least_undominated_from(s, 0, w)
}

/// Symbol `k` of the rotation of `s` at offset `i`.
pub(crate) fn symbol_at(s: &[u8], i: usize, k: usize) -> (c: u8)
    requires
        i < s@.len(),
        k < s@.len(),
    ensures
        c == rotate(s@, i as int)[k as int],
{
    let n = s.len();
    proof {
        lemma_rotate_index(s@, i as int, k as int);
    }
    if k < n - i {
        s[i + k]
    } else {
        s[k - (n - i)]
    }
}

/// Where the rotations at `i` and `j` agree for `k` symbols and the one at `i`
/// is larger at symbol `k`, every offset from `i` to `i + k` is dominated.
proof fn lemma_skip_dominated(s: Seq<u8>, i: int, j: int, k: int)
    requires
        0 <= i < s.len(),
        0 <= j < s.len(),
        0 <= k < s.len(),
        forall|t: int| 0 <= t < k ==> #[trigger] rotate(s, i)[t] == rotate(s, j)[t],
        rotate(s, j)[k] < rotate(s, i)[k],
    ensures
        forall|x: int| i <= x <= i + k && x < s.len() ==> #[trigger] dominated(s, x),
{
    let n = s.len();
    assert forall|x: int| i <= x <= i + k && x < n implies #[trigger] dominated(s, x) by {
        let t = x - i;
        let y = if j + t < n { j + t } else { j + t - n };
        lemma_rotate_rotate(s, i, t);
        lemma_rotate_rotate(s, j, t);
        let a = rotate(s, y);
        let b = rotate(s, x);
        assert forall|u: int| 0 <= u < k - t implies a[u] == b[u] by {
            lemma_rotate_index(rotate(s, j), t, u);
            lemma_rotate_index(rotate(s, i), t, u);
            assert(rotate(s, i)[t + u] == rotate(s, j)[t + u]);
        }
        lemma_rotate_index(rotate(s, j), t, k - t);
        lemma_rotate_index(rotate(s, i), t, k - t);
        assert(a.take(k - t) =~= b.take(k - t));
        assert(less_at(a, b, k - t));
        assert(lex_less(rotate(s, y), rotate(s, x)));
    }
}

/// Offsets with equal rotations are dominated alike.
proof fn lemma_dominated_same_rotation(s: Seq<u8>, x: int, y: int)
    requires
        rotate(s, x) == rotate(s, y),
    ensures
        dominated(s, x) == dominated(s, y),
{
}

/// The least offset whose rotation is lexicographically smallest among all
/// rotations of `s`, found by comparing two candidate offsets and skipping past
/// the loser after each mismatch.
pub fn minimal_rotation(s: &[u8]) -> (r: usize)
    requires
        s@.len() > 0,
    ensures
        is_least_rotation(s@, r as int),
        forall|y: int| 0 <= y < r ==> rotate(s@, y) != rotate(s@, r as int),
{
    let n = s.len();
    let mut i: usize = 0;
    let mut j: usize = 1;
    while i < n && j < n
        invariant
            n == s@.len(),
            n > 0,
            i <= n,
            j <= n,
            i != j,
            forall|x: int| 0 <= x < n && x < i && x != j ==> #[trigger] dominated(s@, x),
            forall|x: int| 0 <= x < n && x < j && x != i ==> #[trigger] dominated(s@, x),
        decreases 2 * n - i - j,
    {
        let mut k: usize = 0;
        while k < n && symbol_at(s, i, k) == symbol_at(s, j, k)
            invariant
                n == s@.len(),
                i < n,
                j < n,
                k <= n,
                forall|t: int| 0 <= t < k ==> #[trigger] rotate(s@, i as int)[t] == rotate(
                    s@,
                    j as int,
                )[t],
            decreases n - k,
        {
            k += 1;
        }
        if k == n {
            proof {
                lemma_rotate_index(s@, i as int, 0);
                lemma_rotate_index(s@, j as int, 0);
                assert(rotate(s@, i as int) =~= rotate(s@, j as int));
                let lo: int = if i < j { i as int } else { j as int };
                let hi: int = if i < j { j as int } else { i as int };
                let w = lemma_least_undominated(s@);
                if w >= hi {
                    let t = w - hi;
                    lemma_rotate_rotate(s@, lo, t);
                    lemma_rotate_rotate(s@, hi, t);
                    lemma_dominated_same_rotation(s@, lo + t, w);
                    assert(dominated(s@, lo + t));
                }
                assert(w == lo);
                assert forall|y: int| 0 <= y < lo implies rotate(s@, y) != rotate(s@, lo) by {
                    assert(dominated(s@, y));
                    if rotate(s@, y) == rotate(s@, lo) {
                        lemma_dominated_same_rotation(s@, y, lo);
                    }
                }
            }
            return if i < j {
                i
            } else {
                j
            };
        }
        let ci = symbol_at(s, i, k);
        let cj = symbol_at(s, j, k);
        if ci > cj {
            proof {
                lemma_skip_dominated(s@, i as int, j as int, k as int);
            }
            if k >= n - i - 1 {
                i = n;
            } else {
                i = i + k + 1;
                if i == j {
                    i = i + 1;
                }
            }
        } else {
            proof {
                lemma_skip_dominated(s@, j as int, i as int, k as int);
            }
            if k >= n - j - 1 {
                j = n;
            } else {
                j = j + k + 1;
                if i == j {
                    j = j + 1;
                }
            }
        }
    }
    let r = if i < n {
        i
    } else {
        j
    };
    proof {
        let w = lemma_least_undominated(s@);
        assert(w == r);
        assert forall|y: int| 0 <= y < r implies rotate(s@, y) != rotate(s@, r as int) by {
            assert(dominated(s@, y));
            if rotate(s@, y) == rotate(s@, r as int) {
                lemma_dominated_same_rotation(s@, y, r as int);
            }
        }
    }
    r
}

} // verus!
