use parabel::centroid::Example;
use parabel::config::HyperParam;
use parabel::model::{Model, PredictError, SparseMat, Tree, TreeNode};
use parabel::train::{Trainer, TrainError};
use parabel::fixed::SCALE;

fn leaf(label: u32, weight_row: Vec<(u32, i64)>) -> TreeNode {
    TreeNode::LeafNode {
        weight_matrix: SparseMat { rows: vec![weight_row] },
        labels: vec![label],
    }
}

fn two_label_tree() -> Tree {
    let root = TreeNode::BranchNode {
        weight_matrix: SparseMat {
            rows: vec![vec![(0u32, SCALE)], vec![(1u32, SCALE)]],
        },
        left: Box::new(leaf(0, vec![(0u32, SCALE)])),
        right: Box::new(leaf(1, vec![(1u32, SCALE)])),
    };
    Tree { root }
}

fn one_tree_model() -> Model {
    Model { trees: vec![two_label_tree()], n_features: 2, hyper_parm: HyperParam::default() }
}

#[test]
fn beam_search_ranks_the_active_feature_first() {
    let model = one_tree_model();
    let out = model.predict(&vec![(0u32, SCALE)], 2).unwrap();
    assert_eq!(out.len(), 2);
    assert_eq!(out[0].0, 0);
    assert_eq!(out[1].0, 1);
    assert!(out[0].1 > out[1].1);
}

#[test]
fn prediction_is_deterministic() {
    let model = one_tree_model();
    let a = model.predict(&vec![(0u32, SCALE), (1, -SCALE)], 2).unwrap();
    let b = model.predict(&vec![(0u32, SCALE), (1, -SCALE)], 2).unwrap();
    assert_eq!(a, b);
}

#[test]
fn prediction_output_properties() {
    let model = one_tree_model();
    let out = model.predict(&vec![(1u32, SCALE)], 2).unwrap();
    for i in 0..out.len() {
        assert!(out[i].1 >= 0);
        for j in i + 1..out.len() {
            assert!(out[i].0 != out[j].0);
            assert!(out[i].1 >= out[j].1);
        }
    }
}

#[test]
fn two_identical_trees_average_to_the_single_tree() {
    let single = one_tree_model();
    let double = Model {
        trees: vec![two_label_tree(), two_label_tree()],
        n_features: 2,
        hyper_parm: HyperParam::default(),
    };
    let input = vec![(0u32, SCALE), (1, SCALE / 2)];
    assert_eq!(single.predict(&input, 2).unwrap(), double.predict(&input, 2).unwrap());
}

#[test]
fn zero_beam_size_is_invalid_input() {
    let model = one_tree_model();
    assert!(matches!(model.predict(&vec![(0u32, SCALE)], 0), Err(PredictError::InvalidInput)));
}

#[test]
fn unsorted_features_are_invalid_input() {
    let model = one_tree_model();
    let r = model.predict(&vec![(1u32, SCALE), (0, SCALE)], 2);
    assert!(matches!(r, Err(PredictError::InvalidInput)));
}

#[test]
fn out_of_range_feature_is_invalid_input() {
    let model = one_tree_model();
    let r = model.predict(&vec![(2u32, SCALE)], 2);
    assert!(matches!(r, Err(PredictError::InvalidInput)));
}

struct ZeroTrainer;

impl Trainer for ZeroTrainer {
    fn train_group(
        &self,
        k: usize,
        _examples: &Vec<Example>,
        _subset: &Vec<usize>,
        _targets: &Vec<Vec<bool>>,
        _n_cols: usize,
    ) -> SparseMat {
        let mut rows: Vec<Vec<(u32, i64)>> = Vec::new();
        for _ in 0..k {
            rows.push(Vec::new());
        }
        SparseMat { rows }
    }
}

fn training_examples() -> Vec<Example> {
    vec![
        Example { features: vec![(0u32, SCALE)], labels: vec![0] },
        Example { features: vec![(1u32, SCALE)], labels: vec![1] },
        Example { features: vec![(0u32, SCALE), (1, SCALE)], labels: vec![2] },
        Example { features: vec![(2u32, SCALE)], labels: vec![3] },
    ]
}

#[test]
fn training_builds_a_working_forest() {
    let mut hp = HyperParam::default();
    hp.max_leaf_size = 2;
    hp.n_trees = 2;
    let model = Model::train(&training_examples(), &hp, &ZeroTrainer, 3).unwrap();
    let out = model.predict(&vec![(0u32, SCALE)], 4).unwrap();
    for i in 0..out.len() {
        assert!(out[i].1 >= 0);
        for j in i + 1..out.len() {
            assert!(out[i].0 != out[j].0);
            assert!(out[i].1 >= out[j].1);
        }
    }
}

#[test]
fn training_with_no_examples_is_invalid_input() {
    let hp = HyperParam::default();
    let r = Model::train(&Vec::new(), &hp, &ZeroTrainer, 3);
    assert!(matches!(r, Err(TrainError::InvalidInput)));
}

#[test]
fn training_with_no_labels_is_invalid_input() {
    let hp = HyperParam::default();
    let examples = vec![Example { features: vec![(0u32, SCALE)], labels: vec![] }];
    let r = Model::train(&examples, &hp, &ZeroTrainer, 3);
    assert!(matches!(r, Err(TrainError::InvalidInput)));
}

#[test]
fn training_with_bad_hyper_params_is_invalid_input() {
    let mut hp = HyperParam::default();
    hp.cluster_epsilon = 0;
    let r = Model::train(&training_examples(), &hp, &ZeroTrainer, 3);
    assert!(matches!(r, Err(TrainError::InvalidInput)));
}
