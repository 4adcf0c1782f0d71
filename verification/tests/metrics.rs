use cadagent::metrics::{conflict_confusion_matrix, ConflictDetection, IouEvaluator};

fn conflict(id: usize, ids: Vec<usize>, kind: &str) -> ConflictDetection {
    ConflictDetection {
        conflict_id: id,
        primitive_ids: ids,
        conflict_type: kind.to_string(),
    }
}

#[test]
fn conflict_doc_example_perfect_match() {
    let gt = vec![conflict(1, vec![0, 1], "parallel_perpendicular")];
    let pred = vec![conflict(1, vec![0, 1], "parallel_perpendicular")];
    assert_eq!(conflict_confusion_matrix(&pred, &gt, 1000), (1, 0, 0, 999));
}

#[test]
fn conflict_ids_compared_in_any_order() {
    let gt = vec![conflict(1, vec![3, 1, 2], "a"), conflict(2, vec![5], "b")];
    let pred = vec![
        conflict(9, vec![2, 3, 1], "a"),
        conflict(9, vec![2, 3, 1], "a"),
        conflict(9, vec![5], "c"),
    ];
    assert_eq!(conflict_confusion_matrix(&pred, &gt, 4), (1, 2, 1, 0));
}

#[test]
fn conflict_multiplicity_matters() {
    let gt = vec![conflict(1, vec![1, 1, 2], "a")];
    let pred = vec![conflict(1, vec![1, 2, 2], "a")];
    assert_eq!(conflict_confusion_matrix(&pred, &gt, 10), (0, 1, 1, 8));
}

#[test]
fn iou_evaluator_new() {
    let _e = IouEvaluator::new();
}
