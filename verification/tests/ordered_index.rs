use btree_index::ordered_index::{ordered_candidate_score_is_better, OrderedIndexCandidateScore};

#[test]
fn test_ordered_candidate_score_prefers_longer_prefix() {
    let shorter_payload = OrderedIndexCandidateScore {
        prefix_len: 2,
        extra_filter_key_columns: 0,
        preserves_order: true,
        payload_width: 3,
        key_width: 3,
    };
    let longer_prefix = OrderedIndexCandidateScore {
        prefix_len: 3,
        extra_filter_key_columns: 0,
        preserves_order: false,
        payload_width: 20,
        key_width: 4,
    };

    assert!(ordered_candidate_score_is_better(
        &longer_prefix,
        "idx_longer_prefix",
        &shorter_payload,
        "idx_shorter_payload"
    ));
}

#[test]
fn test_ordered_candidate_score_prefers_order_preserving_before_extra_filter_keys() {
    let no_extra_filter_keys = OrderedIndexCandidateScore {
        prefix_len: 2,
        extra_filter_key_columns: 0,
        preserves_order: true,
        payload_width: 3,
        key_width: 3,
    };
    let with_extra_filter_keys = OrderedIndexCandidateScore {
        prefix_len: 2,
        extra_filter_key_columns: 2,
        preserves_order: false,
        payload_width: 10,
        key_width: 5,
    };

    assert!(ordered_candidate_score_is_better(
        &no_extra_filter_keys,
        "idx_plain",
        &with_extra_filter_keys,
        "idx_with_tags"
    ));
}

#[test]
fn test_ordered_candidate_score_prefers_extra_filter_key_columns_on_order_tie() {
    let no_extra_filter_keys = OrderedIndexCandidateScore {
        prefix_len: 2,
        extra_filter_key_columns: 0,
        preserves_order: true,
        payload_width: 3,
        key_width: 3,
    };
    let with_extra_filter_keys = OrderedIndexCandidateScore {
        prefix_len: 2,
        extra_filter_key_columns: 2,
        preserves_order: true,
        payload_width: 10,
        key_width: 5,
    };

    assert!(ordered_candidate_score_is_better(
        &with_extra_filter_keys,
        "idx_with_tags",
        &no_extra_filter_keys,
        "idx_plain"
    ));
}

#[test]
fn test_ordered_candidate_score_prefers_order_preserving_on_tie() {
    let filter_only = OrderedIndexCandidateScore {
        prefix_len: 2,
        extra_filter_key_columns: 1,
        preserves_order: false,
        payload_width: 3,
        key_width: 4,
    };
    let ordered = OrderedIndexCandidateScore {
        prefix_len: 2,
        extra_filter_key_columns: 1,
        preserves_order: true,
        payload_width: 20,
        key_width: 5,
    };

    assert!(ordered_candidate_score_is_better(
        &ordered,
        "idx_ordered",
        &filter_only,
        "idx_filter_only"
    ));
}

#[test]
fn test_ordered_candidate_score_prefers_narrower_payload_on_tie() {
    let wide_payload = OrderedIndexCandidateScore {
        prefix_len: 2,
        extra_filter_key_columns: 1,
        preserves_order: true,
        payload_width: 20,
        key_width: 5,
    };
    let narrow_payload = OrderedIndexCandidateScore {
        prefix_len: 2,
        extra_filter_key_columns: 1,
        preserves_order: true,
        payload_width: 8,
        key_width: 5,
    };

    assert!(ordered_candidate_score_is_better(
        &narrow_payload,
        "idx_narrow",
        &wide_payload,
        "idx_wide"
    ));
}
