use mmft::error::{RegionError, TextError};
use mmft::n50::{inner_n50, n50};
use mmft::records::{
    chunk_sizes, extract_subsequence, fasta_id_description, gc_count, id_listed, length_selected,
    merged_ranges, FID,
};
use mmft::records::SeqRecord;

#[test]
fn gc_counts_both_cases() {
    assert_eq!(gc_count(b"GCgcATN"), 4);
    assert_eq!(gc_count(b""), 0);
}

#[test]
fn merged_ranges_run_end_to_end() {
    assert_eq!(merged_ranges(&vec![3, 0, 2]), vec![(1, 3), (4, 3), (4, 5)]);
    assert_eq!(merged_ranges(&vec![]), vec![]);
}

#[test]
fn chunks_of_a_split() {
    assert_eq!(chunk_sizes(10, 3), vec![3, 3, 3, 1]);
    assert_eq!(chunk_sizes(9, 3), vec![3, 3, 3]);
    assert_eq!(chunk_sizes(2, 5), vec![2]);
    assert_eq!(chunk_sizes(0, 5), Vec::<usize>::new());
}

#[test]
fn region_of_sequence() {
    let s = b"ACGTACGT".to_vec();
    assert_eq!(extract_subsequence(&s, 2, 5), Ok(b"CGT".to_vec()));
    assert_eq!(extract_subsequence(&s, 1, 9), Ok(s.clone()));
    assert_eq!(extract_subsequence(&s, 3, 3), Ok(vec![]));
}

#[test]
fn region_outside_sequence() {
    let s = b"ACGTACGT".to_vec();
    for (a, b) in [(0, 3), (3, 2), (1, 10), (2, 0)] {
        assert_eq!(extract_subsequence(&s, a, b), Err(RegionError::SeqExtractError));
    }
}

#[test]
fn n50_in_given_order() {
    assert_eq!(inner_n50(&[1, 2, 3, 4], 10), 3);
    assert_eq!(inner_n50(&[7], 7), 7);
    assert_eq!(inner_n50(&[1, 1], 100), 1);
}

#[test]
fn n50_sorts_first() {
    assert_eq!(n50(&vec![4, 1, 3, 2]), Some(3));
    assert_eq!(n50(&vec![10, 1, 1, 1]), Some(10));
    assert_eq!(n50(&vec![]), None);
    assert_eq!(n50(&vec![usize::MAX, 1]), None);
}

#[test]
fn header_text_parts() {
    let r = SeqRecord {
        name: b"seq1".to_vec(),
        description: Some(b"sample A".to_vec()),
        sequence: b"ACGT".to_vec(),
    };
    assert_eq!(fasta_id_description(&r, FID::Id), Ok("seq1".to_string()));
    assert_eq!(fasta_id_description(&r, FID::Description), Ok("sample A".to_string()));
    assert_eq!(
        fasta_id_description(&r, FID::Both(" | ".to_string())),
        Ok("seq1 | sample A".to_string())
    );
    let bare = SeqRecord { name: b"x".to_vec(), description: None, sequence: vec![] };
    assert_eq!(fasta_id_description(&bare, FID::Description), Ok(String::new()));
    assert_eq!(fasta_id_description(&bare, FID::Both("".to_string())), Ok("x".to_string()));
}

#[test]
fn header_text_not_utf8() {
    let r = SeqRecord { name: vec![0xFF], description: None, sequence: vec![] };
    assert_eq!(fasta_id_description(&r, FID::Id), Err(TextError::NotUtf8));
    assert_eq!(fasta_id_description(&r, FID::Description), Ok(String::new()));
}

#[test]
fn ids_looked_up() {
    let ids = vec!["a".to_string(), "bc".to_string()];
    assert!(id_listed(&ids, &"bc".to_string()));
    assert!(!id_listed(&ids, &"b".to_string()));
    assert!(!id_listed(&vec![], &"a".to_string()));
}

#[test]
fn length_filter() {
    assert!(length_selected(10, 5, false));
    assert!(!length_selected(5, 5, false));
    assert!(length_selected(4, 5, true));
    assert!(!length_selected(5, 5, true));
}
