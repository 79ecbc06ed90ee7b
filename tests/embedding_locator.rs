use stegano_rs::embedding_locator::{
    EmbeddingLocator, HeatmapTraversal, LinearTraversal, PositionListTraversal,
};

#[test]
fn linear_gives_every_index() {
    assert_eq!(LinearTraversal.iter_indices(5), vec![0, 1, 2, 3, 4]);
    assert_eq!(LinearTraversal.iter_indices(0), Vec::<usize>::new());
}

#[test]
fn heatmap_filters_by_threshold() {
    let heatmap = [10u8, 50, 200, 30, 255];
    let traversal = HeatmapTraversal {
        heatmap: &heatmap,
        threshold: 100,
    };
    assert_eq!(traversal.iter_indices(5), vec![2, 4]);
    // Positions past the host are dropped, and a short heat map gives no more.
    assert_eq!(traversal.iter_indices(4), vec![2]);
    assert_eq!(traversal.iter_indices(50), vec![2, 4]);
    // The threshold is inclusive.
    let at = HeatmapTraversal {
        heatmap: &heatmap,
        threshold: 50,
    };
    assert_eq!(at.iter_indices(5), vec![1, 2, 4]);
}

#[test]
fn position_list_drops_out_of_bounds() {
    let positions = [1usize, 3, 5, 7];
    let traversal = PositionListTraversal {
        positions: &positions,
    };
    assert_eq!(traversal.iter_indices(6), vec![1, 3, 5]);
    let unordered = [4usize, 0, 9, 2, 4];
    let traversal = PositionListTraversal {
        positions: &unordered,
    };
    assert_eq!(traversal.iter_indices(5), vec![4, 0, 2, 4]);
}

#[test]
fn locators_repeat_themselves() {
    let heatmap = [10u8, 50, 200, 30, 255];
    let traversal = HeatmapTraversal {
        heatmap: &heatmap,
        threshold: 40,
    };
    assert_eq!(traversal.iter_indices(5), traversal.iter_indices(5));
    assert_eq!(LinearTraversal.iter_indices(3), LinearTraversal.iter_indices(3));
}
