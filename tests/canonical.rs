use mmft::lex_min::{lex_min, takes_reverse, CanonicalError};
use std::cmp::Ordering;
use mmft::revcomp::{make_complement_table, reverse_complement, revcomp_inplace};
use mmft::rotation::minimal_rotation;

fn rotate(s: &[u8], i: usize) -> Vec<u8> {
    let mut v = s[i..].to_vec();
    v.extend_from_slice(&s[..i]);
    v
}

#[test]
fn canonical_catg() {
    assert_eq!(reverse_complement(b"CATG"), b"CATG".to_vec());
    assert_eq!(minimal_rotation(b"CATG"), 1);
    assert_eq!(lex_min(b"CATG"), Ok("ATGC".to_string()));
}

#[test]
fn canonical_same_for_every_rotation() {
    let s = b"GATTACAGG";
    let expected = lex_min(s).unwrap();
    for i in 0..s.len() {
        assert_eq!(lex_min(&rotate(s, i)).unwrap(), expected);
    }
}

#[test]
fn canonical_same_for_both_strands() {
    for s in [&b"GATTACAGG"[..], b"ACCGTTTA", b"AAAAC", b"GGGCCA", b"T"] {
        assert_eq!(lex_min(s), lex_min(&reverse_complement(s)));
    }
}

#[test]
fn canonical_is_a_fixed_point() {
    for s in [&b"GATTACAGG"[..], b"TTTGCA", b"CAGCAGCAG", b"A10"] {
        let c = lex_min(s).unwrap();
        assert_eq!(lex_min(c.as_bytes()).unwrap(), c);
    }
}

#[test]
fn canonical_orders_digit_runs_naturally() {
    // the forward candidate "0A1" comes first naturally, though "01T" is smaller bytewise
    assert_eq!(lex_min(b"A10"), Ok("0A1".to_string()));
}

#[test]
fn canonical_long_digit_run_uses_byte_order() {
    let mut s = vec![b'1'; 21];
    s.push(b'A');
    assert_eq!(lex_min(&s), Ok(String::from_utf8(s.clone()).unwrap()));
}

#[test]
fn canonical_rejects_invalid_text() {
    assert_eq!(lex_min(&[0xC3, 0xA9]), Err(CanonicalError::Encoding));
}

#[test]
fn canonical_single_symbol() {
    assert_eq!(lex_min(b"G"), Ok("C".to_string()));
}

#[test]
fn minimal_rotation_examples() {
    assert_eq!(minimal_rotation(b"AAAA"), 0);
    assert_eq!(minimal_rotation(b"ABAB"), 0);
    assert_eq!(minimal_rotation(b"BABA"), 1);
    assert_eq!(minimal_rotation(b"X"), 0);
    assert_eq!(minimal_rotation(b"CBAAB"), 2);
    assert_eq!(minimal_rotation(b"BAABAA"), 1);
}

#[test]
fn reverse_complement_keeps_case_and_unknown_symbols() {
    assert_eq!(reverse_complement(b"ATCGatcgN-"), b"-NcgatCGAT".to_vec());
    assert_eq!(reverse_complement(b""), Vec::<u8>::new());
}

#[test]
fn revcomp_inplace_matches_reverse_complement() {
    for s in [&b"ATCGatcgN"[..], b"ACGT", b"", b"G"] {
        let mut v = s.to_vec();
        revcomp_inplace(&mut v);
        assert_eq!(v, reverse_complement(s));
    }
}

#[test]
fn complement_table_entries() {
    let t = make_complement_table();
    assert_eq!(t.len(), 256);
    assert_eq!(t[b'A' as usize], b'T');
    assert_eq!(t[b'g' as usize], b'c');
    assert_eq!(t[b'N' as usize], b'N');
    assert_eq!(t[0], 0);
}

#[test]
fn candidate_choice() {
    assert!(!takes_reverse(Some((Ordering::Less, Ordering::Greater)), true));
    assert!(takes_reverse(Some((Ordering::Greater, Ordering::Less)), false));
    assert!(takes_reverse(Some((Ordering::Equal, Ordering::Equal)), true));
    assert!(!takes_reverse(Some((Ordering::Equal, Ordering::Equal)), false));
    assert!(takes_reverse(Some((Ordering::Less, Ordering::Less)), true));
    assert!(takes_reverse(None, true));
    assert!(!takes_reverse(None, false));
}
