use dectree_rs::{SignatureDecisionTree, SignatureError};

#[test]
fn test_signature_subset() {
    let signature_base = vec![0x55, 0xe9, 0xd8, 0x01, 0xfe, 0xff, 0x32, 0x77, 0x89, 0x4f, 0x55];
    let mut tree = SignatureDecisionTree::new();
    tree.add_signature(signature_base.clone(), None, None);
    tree.add_signature(signature_base.clone().into_iter().take(7).collect(), None, Some(signature_base.clone().into_iter().take(7).collect()));
    tree.add_signature(signature_base.clone().into_iter().take(4).collect(), None, Some(signature_base.clone().into_iter().take(4).collect()));
    tree.add_signature([signature_base.clone(), vec![0xfe, 0x38]].concat(), None, Some([signature_base.clone(), vec![0xfe, 0x38]].concat()));
    assert_eq!(tree.get_signature(vec![0x55, 0xe9, 0xd8, 0x01, 0xfe, 0xff, 0x32, 0x00, 0x99, 0x36, 0x5f, 0x21, 0xfd], None), Some(signature_base.clone().into_iter().take(7).collect()));
    assert_eq!(tree.get_signature(vec![0x55, 0xe9, 0xd8, 0x01, 0xfe, 0xff, 0x32], None), Some(signature_base.clone().into_iter().take(7).collect()));
    assert_eq!(tree.get_signature(vec![0x55, 0xe9, 0xd8, 0x01, 0xfe, 0x00], None), Some(signature_base.clone().into_iter().take(4).collect()));
    assert_eq!(tree.get_signature(vec![0x55], None), None);
}

#[test]
fn exact_match_returns_default_payload() {
    let sig = vec![0x55, 0xe9, 0xd8, 0x01, 0xfe, 0xff, 0x32, 0x77, 0x89, 0x4f, 0x55];
    let mut tree: SignatureDecisionTree<Vec<u8>> = SignatureDecisionTree::new();
    assert_eq!(tree.add_signature(sig.clone(), None, None), Ok(()));
    assert_eq!(tree.get_signature(sig.clone(), None), Some(vec![]));
    assert!(tree.is_signature(sig, None));
}

#[test]
fn registering_twice_keeps_the_first_payload() {
    let mut tree: SignatureDecisionTree<u32> = SignatureDecisionTree::new();
    assert_eq!(tree.add_signature(vec![1, 2, 3], None, Some(10)), Ok(()));
    assert_eq!(tree.add_signature(vec![1, 2, 3], None, Some(20)), Ok(()));
    assert_eq!(tree.add_signature(vec![1, 2, 3], Some(vec![0xff, 0xff, 0xff]), Some(30)), Ok(()));
    assert_eq!(tree.get_signature(vec![1, 2, 3], None), Some(10));
    assert_eq!(tree.get_signature(vec![1, 2, 3, 4], None), Some(10));
    assert_eq!(tree.get_signature(vec![1, 2], None), None);
}

#[test]
fn same_bytes_with_another_mask_is_a_new_signature() {
    let mut tree: SignatureDecisionTree<u32> = SignatureDecisionTree::new();
    assert_eq!(tree.add_signature(vec![0x10], None, Some(1)), Ok(()));
    assert_eq!(tree.add_signature(vec![0x10], Some(vec![0xf0]), Some(2)), Ok(()));
    assert_eq!(tree.get_signature(vec![0x10], None), Some(1));
}

#[test]
fn masked_bytes_ignore_unmasked_bits() {
    let mut tree: SignatureDecisionTree<u32> = SignatureDecisionTree::new();
    assert_eq!(tree.add_signature(vec![0x10, 0x20], Some(vec![0xf0, 0xff]), Some(7)), Ok(()));
    assert_eq!(tree.get_signature(vec![0x1f, 0x20], None), Some(7));
    assert_eq!(tree.get_signature(vec![0x10, 0x20], None), Some(7));
    assert_eq!(tree.get_signature(vec![0x13, 0x20, 0x99], None), Some(7));
    assert_eq!(tree.get_signature(vec![0x2f, 0x20], None), None);
    assert_eq!(tree.get_signature(vec![0x1f, 0x21], None), None);
}

#[test]
fn masked_bytes_across_a_branching_node() {
    let mut tree: SignatureDecisionTree<u32> = SignatureDecisionTree::new();
    assert_eq!(tree.add_signature(vec![0x10, 0x20], Some(vec![0xf0, 0xff]), Some(1)), Ok(()));
    assert_eq!(tree.add_signature(vec![0x30, 0x20, 0x01], Some(vec![0xf0, 0xff, 0xff]), Some(2)), Ok(()));
    assert_eq!(tree.get_signature(vec![0x1a, 0x20, 0x01], None), Some(1));
    assert_eq!(tree.get_signature(vec![0x3a, 0x20, 0x01], None), Some(2));
    assert_eq!(tree.get_signature(vec![0x3a, 0x20], None), None);
}

#[test]
fn longest_match_wins() {
    let mut tree: SignatureDecisionTree<u32> = SignatureDecisionTree::new();
    assert_eq!(tree.add_signature(vec![1, 2, 3], None, Some(3)), Ok(()));
    assert_eq!(tree.add_signature(vec![1], None, Some(1)), Ok(()));
    assert_eq!(tree.add_signature(vec![1, 2], None, Some(2)), Ok(()));
    assert_eq!(tree.add_signature(vec![1, 2, 3, 4, 5], None, Some(5)), Ok(()));
    assert_eq!(tree.get_signature(vec![1, 2, 3, 4], None), Some(3));
    assert_eq!(tree.get_signature(vec![1, 2, 9], None), Some(2));
    assert_eq!(tree.get_signature(vec![1, 9], None), Some(1));
    assert_eq!(tree.get_signature(vec![1, 2, 3, 4, 5, 6], None), Some(5));
}

#[test]
fn no_match_gives_nothing() {
    let mut tree: SignatureDecisionTree<u32> = SignatureDecisionTree::new();
    assert_eq!(tree.add_signature(vec![0xaa, 0xbb], None, Some(1)), Ok(()));
    assert_eq!(tree.add_signature(vec![0xaa, 0xcc], None, Some(2)), Ok(()));
    assert_eq!(tree.get_signature(vec![0x99, 0xbb], None), None);
    assert!(!tree.is_signature(vec![0x99, 0xbb], None));
    assert!(!tree.is_signature(vec![0xaa, 0xdd], None));
    assert!(tree.is_signature(vec![0xaa, 0xcc], None));
}

#[test]
fn empty_tree_and_empty_buffer() {
    let mut tree: SignatureDecisionTree<u32> = SignatureDecisionTree::new();
    assert_eq!(tree.get_signature(vec![1, 2, 3], None), None);
    assert_eq!(tree.add_signature(vec![1], None, Some(1)), Ok(()));
    assert_eq!(tree.get_signature(vec![], None), None);
    assert!(!tree.is_signature(vec![], Some(0)));
}

#[test]
fn empty_signature_matches_everywhere() {
    let mut tree: SignatureDecisionTree<u32> = SignatureDecisionTree::new();
    assert_eq!(tree.add_signature(vec![], None, Some(4)), Ok(()));
    assert_eq!(tree.get_signature(vec![], None), Some(4));
    assert_eq!(tree.get_signature(vec![9, 9], Some(1)), Some(4));
}

#[test]
fn lookup_at_an_offset() {
    let mut tree: SignatureDecisionTree<u32> = SignatureDecisionTree::new();
    assert_eq!(tree.add_signature(vec![0x8b, 0xec], None, Some(1)), Ok(()));
    assert_eq!(tree.add_signature(vec![0x8b, 0xff], None, Some(2)), Ok(()));
    assert_eq!(tree.get_signature(vec![0x55, 0x8b, 0xec], Some(1)), Some(1));
    assert_eq!(tree.get_signature(vec![0x55, 0x8b, 0xff], Some(1)), Some(2));
    assert_eq!(tree.get_signature(vec![0x55, 0x8b, 0xec], None), None);
    assert_eq!(tree.get_signature(vec![0x55, 0x8b, 0xec], Some(2)), None);
    assert_eq!(tree.get_signature(vec![0x55, 0x8b, 0xec], Some(7)), None);
}

#[test]
fn mask_of_wrong_length_is_refused() {
    let mut tree: SignatureDecisionTree<u32> = SignatureDecisionTree::new();
    assert_eq!(tree.add_signature(vec![1, 2], Some(vec![0xff]), Some(1)), Err(SignatureError::MaskLengthMismatch));
    assert_eq!(tree.get_signature(vec![1, 2], None), None);
    assert_eq!(tree.add_signature(vec![1, 2], Some(vec![0xff, 0xff]), Some(1)), Ok(()));
    assert_eq!(tree.get_signature(vec![1, 2], None), Some(1));
}

#[test]
fn first_registered_mask_decides_the_branch() {
    // A known limitation: at a branching node the first pending signature that
    // agrees with the buffer byte picks the child, so a longer exact match on
    // another branch is not seen.
    let mut tree: SignatureDecisionTree<u32> = SignatureDecisionTree::new();
    assert_eq!(tree.add_signature(vec![0x00, 0x01], Some(vec![0x0f, 0xff]), Some(1)), Ok(()));
    assert_eq!(tree.add_signature(vec![0x10, 0x02, 0x03], None, Some(2)), Ok(()));
    assert_eq!(tree.get_signature(vec![0x10, 0x02, 0x03], None), None);
    assert_eq!(tree.get_signature(vec![0x10, 0x01], None), Some(1));
}

#[test]
fn deep_shared_prefixes() {
    let mut tree: SignatureDecisionTree<usize> = SignatureDecisionTree::new();
    let base: Vec<u8> = (0u8..40).collect();
    for n in 1..=40usize {
        assert_eq!(tree.add_signature(base[..n].to_vec(), None, Some(n)), Ok(()));
    }
    for n in 1..=40usize {
        let mut buf = base[..n].to_vec();
        buf.push(0xff);
        assert_eq!(tree.get_signature(buf, None), Some(n));
    }
}

#[test]
fn first_registered_pattern_takes_the_branch() {
    let mut tree: SignatureDecisionTree<u32> = SignatureDecisionTree::new();
    assert_eq!(tree.add_signature(vec![0x10, 0x20], Some(vec![0xf0, 0xff]), Some(1)), Ok(()));
    assert_eq!(tree.add_signature(vec![0x1a, 0x30], None, Some(2)), Ok(()));
    assert_eq!(tree.get_signature(vec![0x1a, 0x30], None), None);
    assert_eq!(tree.get_signature(vec![0x1a, 0x20], None), Some(1));
}

#[test]
fn negative_offset_finds_nothing() {
    let mut tree: SignatureDecisionTree<u32> = SignatureDecisionTree::new();
    assert_eq!(tree.add_signature(vec![], None, Some(1)), Ok(()));
    assert_eq!(tree.add_signature(vec![0x55], None, Some(2)), Ok(()));
    assert_eq!(tree.get_signature(vec![0x55], Some(-1)), None);
    assert!(!tree.is_signature(vec![0x55], Some(-3)));
    assert_eq!(tree.get_signature(vec![0x55], Some(0)), Some(2));
}

#[test]
fn offset_equals_dropped_prefix() {
    let mut tree: SignatureDecisionTree<u32> = SignatureDecisionTree::new();
    assert_eq!(tree.add_signature(vec![0x8b, 0xec], None, Some(1)), Ok(()));
    assert_eq!(tree.add_signature(vec![0x8b], Some(vec![0xf0]), Some(2)), Ok(()));
    let buf = vec![0x00, 0x11, 0x8b, 0xec, 0x90];
    for off in 0..=buf.len() {
        assert_eq!(tree.get_signature(buf.clone(), Some(off as i32)), tree.get_signature(buf[off..].to_vec(), None));
    }
    assert_eq!(tree.get_signature(buf.clone(), Some(2)), Some(1));
}
