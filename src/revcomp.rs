//! The complement transform: each base is swapped for its partner on the
//! other strand and the order is reversed.

use vstd::prelude::*;

verus! {

/// ASCII codes of the eight symbols that have a partner.
pub const UPPER_A: u8 = 65;
pub const UPPER_C: u8 = 67;
pub const UPPER_G: u8 = 71;
pub const UPPER_T: u8 = 84;
pub const LOWER_A: u8 = 97;
pub const LOWER_C: u8 = 99;
pub const LOWER_G: u8 = 103;
pub const LOWER_T: u8 = 116;

/// The partner of one symbol on the other strand: `A`/`T` and `C`/`G` swap,
/// lower case stays lower case, and any other byte is its own partner.
pub open spec fn complement(c: u8) -> u8 {
    if c == UPPER_A {
        UPPER_T
    } else if c == UPPER_T {
        UPPER_A
    } else if c == UPPER_C {
        UPPER_G
    } else if c == UPPER_G {
        UPPER_C
    } else if c == LOWER_A {
        LOWER_T
    } else if c == LOWER_T {
        LOWER_A
    } else if c == LOWER_C {
        LOWER_G
    } else if c == LOWER_G {
        LOWER_C
    } else {
        c
    }
}

/// The reverse complement: position `i` holds the partner of the symbol at
/// the mirrored position `len - 1 - i`.
pub open spec fn reverse_complement_of(s: Seq<u8>) -> Seq<u8> {
    Seq::new(s.len(), |i: int| complement(s[s.len() - 1 - i]))
}

/// Taking the partner twice gives the symbol back.
pub proof fn lemma_complement_involutive(c: u8)
    ensures
        complement(complement(c)) == c,
{
}

/// Reverse complementing twice gives the sequence back.
pub proof fn lemma_reverse_complement_involutive(s: Seq<u8>)
    ensures
        reverse_complement_of(reverse_complement_of(s)) == s,
{
    let r = reverse_complement_of(reverse_complement_of(s));
    assert forall|i: int| 0 <= i < s.len() implies r[i] == s[i] by {
        lemma_complement_involutive(s[i]);
    }
    assert(r =~= s);
}

/// The partner of one base.
fn switch_base(c: u8) -> (r: u8)
    ensures
        r == complement(c),
{
    match c {
        UPPER_A => UPPER_T,
        LOWER_A => LOWER_T,
        UPPER_C => UPPER_G,
        LOWER_C => LOWER_G,
        UPPER_T => UPPER_A,
        LOWER_T => LOWER_A,
        UPPER_G => UPPER_C,
        LOWER_G => LOWER_C,
        _ => c,
    }
}

/// The reverse complement of a sequence, as a new vector.
pub fn reverse_complement(dna: &[u8]) -> (r: Vec<u8>)
    ensures
        r@ == reverse_complement_of(dna@),
{
    let n = dna.len();
    let mut revcomp: Vec<u8> = Vec::with_capacity(n);
    let mut i: usize = 0;
    while i < n
        invariant
            n == dna@.len(),
            i <= n,
            revcomp@.len() == i,
            forall|k: int| 0 <= k < i ==> revcomp@[k] == complement(dna@[n - 1 - k]),
        decreases n - i,
    {
        revcomp.push(switch_base(dna[n - 1 - i]));
        i += 1;
    }
    assert(revcomp@ =~= reverse_complement_of(dna@));
    revcomp
}

/// A lookup table of 256 entries, entry `b` holding the partner of byte `b`.
pub fn make_complement_table() -> (table: Vec<u8>)
    ensures
        table@.len() == 256,
        forall|b: int| 0 <= b < 256 ==> table@[b] == complement(b as u8),
{
    let mut table: Vec<u8> = Vec::with_capacity(256);
    let mut b: usize = 0;
    while b < 256
        invariant
            b <= 256,
            table@.len() == b,
            forall|k: int| 0 <= k < b ==> table@[k] == complement(k as u8),
        decreases 256 - b,
    {
        table.push(switch_base(b as u8));
        b += 1;
    }
    table
}

/// Reverse complements a sequence in place, swapping the two ends inwards and
/// complementing through the lookup table.
pub fn revcomp_inplace(seq: &mut [u8])
    ensures
        final(seq)@ == reverse_complement_of(old(seq)@),
{
    let table = make_complement_table();
    let len = seq.len();
    let ghost orig = seq@;
    let mut i: usize = 0;
    while i < len / 2
        invariant
            len == orig.len(),
            seq@.len() == len,
            table@.len() == 256,
            forall|b: int| 0 <= b < 256 ==> table@[b] == complement(b as u8),
            i <= len / 2,
            forall|k: int| 0 <= k < i ==> #[trigger] seq@[k] == complement(orig[len - 1 - k]),
            forall|k: int|
                len - i <= k < len ==> #[trigger] seq@[k] == complement(orig[len - 1 - k]),
            forall|k: int| i <= k < len - i ==> seq@[k] == orig[k],
        decreases len / 2 - i,
    {
        let left = seq[i];
        let right = seq[len - i - 1];
        seq[i] = table[right as usize];
        seq[len - i - 1] = table[left as usize];
        i += 1;
    }
    if len % 2 == 1 {
        let mid = len / 2;
        seq[mid] = table[seq[mid] as usize];
    }
    assert(seq@ =~= reverse_complement_of(orig));
}

} // verus!
