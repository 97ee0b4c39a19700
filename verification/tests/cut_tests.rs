use tour_cut::cutter::cut;
use tour_cut::cutter::normalize_subtour;

fn sample_tour() -> Vec<u32> {
    vec![
        780, 778, 540, 610, 414, 5, 30, 406, 596, 516, 746, 730, 512, 576, 382, 498, 374, 562,
        488, 706, 708, 490, 564, 376, 500, 384, 578, 514, 740, 756, 518, 598, 408, 532, 416, 612,
        542, 346, 344, 256, 294, 246, 334, 326, 238, 286, 228, 316, 318, 230, 288, 240, 328, 336,
        248, 296, 258, 190, 188, 176, 178,
    ]
}

fn sample_subset() -> Vec<u32> {
    vec![416, 514, 258, 230, 542, 190]
}

fn sample_expected() -> Vec<Vec<u32>> {
    vec![
        vec![
            514, 578, 384, 500, 376, 564, 490, 708, 706, 488, 562, 374, 498, 382, 576, 512, 730,
            746, 516, 596, 406, 30, 5, 414, 610, 540, 778, 780,
        ],
        vec![416, 532, 408, 598, 518, 756, 740],
        vec![542, 612],
        vec![230, 318, 316, 228, 286, 238, 326, 334, 246, 294, 256, 344, 346],
        vec![258, 296, 248, 336, 328, 240, 288],
        vec![190, 188, 176, 178],
    ]
}

#[test]
fn literal_scenario() {
    let result = cut(sample_tour(), sample_subset());
    assert_eq!(result, sample_expected());
}

#[test]
fn literal_scenario_cardinality() {
    // Six cut positions, the last one not at the tour's end, and an empty
    // free remainder before it: exactly six subtours come out.
    let result = cut(sample_tour(), sample_subset());
    assert_eq!(result.len(), 6);
}

#[test]
fn literal_scenario_anchoring() {
    // Every subtour that contains a cut node starts with one.
    let subset = sample_subset();
    let result = cut(sample_tour(), subset.clone());
    for subtour in &result {
        assert!(!subtour.is_empty());
        if subtour.iter().any(|node| subset.contains(node)) {
            assert!(subset.contains(&subtour[0]));
        }
    }
}

#[test]
fn empty_subset_yields_nothing() {
    let result = cut(vec![3, 1, 4, 1, 5], vec![]);
    assert_eq!(result, Vec::<Vec<u32>>::new());
}

#[test]
fn repeated_calls_agree() {
    let first = cut(sample_tour(), sample_subset());
    let second = cut(sample_tour(), sample_subset());
    assert_eq!(first, second);
}

#[test]
fn single_cut_at_tour_end() {
    // The only cut position is the last position: one piece, reversed so
    // that it starts at the cut node.
    let result = cut(vec![1, 2, 3], vec![3]);
    assert_eq!(result, vec![vec![3, 2, 1]]);
}

#[test]
fn single_cut_with_wraparound() {
    // The only cut position is in the middle: the free remainder before it,
    // then the tail from the cut node to the end.
    let result = cut(vec![1, 2, 3], vec![2]);
    assert_eq!(result, vec![vec![1], vec![2, 3]]);
}

#[test]
fn wraparound_with_empty_remainder() {
    // The cut position is the first position: the free remainder is empty
    // and is dropped, leaving the whole tour as one piece.
    let result = cut(vec![5, 7], vec![5]);
    assert_eq!(result, vec![vec![5, 7]]);
}

#[test]
fn every_node_in_subset() {
    let result = cut(vec![1, 2, 3], vec![1, 2, 3]);
    assert_eq!(result, vec![vec![1], vec![2], vec![3]]);
}

#[test]
fn absent_subset_members_are_ignored() {
    // A subset member that never occurs in the tour contributes no cut.
    let result = cut(vec![1, 2, 3], vec![9, 2]);
    assert_eq!(result, vec![vec![1], vec![2, 3]]);
}

#[test]
fn duplicate_tour_nodes() {
    // A node that occurs twice in the tour cuts at both occurrences.
    let result = cut(vec![1, 2, 1], vec![1]);
    assert_eq!(result, vec![vec![1], vec![1, 2]]);
}

#[test]
fn pieces_reassemble_into_tour() {
    // Here no piece with more than one node gets reversed, so plain
    // concatenation of the result rebuilds the tour.
    let result = cut(vec![1, 2, 3, 4], vec![1, 3]);
    assert_eq!(result, vec![vec![1], vec![2], vec![3, 4]]);
    let mut rebuilt: Vec<u32> = Vec::new();
    for subtour in &result {
        rebuilt.extend_from_slice(subtour);
    }
    assert_eq!(rebuilt, vec![1, 2, 3, 4]);
}

#[test]
fn wraparound_adds_one_piece() {
    // Two cut positions, the last not at the tour's end, with a non-empty
    // free remainder: one extra wraparound piece.
    let result = cut(vec![1, 2, 3, 4], vec![1, 3]);
    assert_eq!(result.len(), 3);
}

#[test]
fn normalization_keeps_anchored_piece() {
    let subset = vec![4u32];
    let oriented = normalize_subtour(vec![4, 2, 9], &subset);
    assert_eq!(oriented, vec![4, 2, 9]);
}

#[test]
fn normalization_reverses_unanchored_piece() {
    let subset = vec![9u32];
    let oriented = normalize_subtour(vec![4, 2, 9], &subset);
    assert_eq!(oriented, vec![9, 2, 4]);
}

#[test]
fn normalization_is_idempotent() {
    let subset = vec![9u32];
    let once = normalize_subtour(vec![4, 2, 9], &subset);
    let twice = normalize_subtour(once.clone(), &subset);
    assert_eq!(once, twice);
}
