use parabel::config::HyperParam;
use parabel::model::{Model, SparseMat, Tree, TreeNode};
use parabel::fixed::SCALE;

fn build_model() -> Model {
    let left = TreeNode::LeafNode {
        weight_matrix: SparseMat { rows: vec![vec![(0u32, SCALE), (2, -7)]] },
        labels: vec![5],
    };
    let right = TreeNode::LeafNode {
        weight_matrix: SparseMat { rows: vec![vec![(1u32, -SCALE)], vec![(2u32, 123)]] },
        labels: vec![9, 11],
    };
    let root = TreeNode::BranchNode {
        weight_matrix: SparseMat { rows: vec![vec![(0u32, 1)], vec![(1u32, -2)]] },
        left: Box::new(left),
        right: Box::new(right),
    };
    Model { trees: vec![Tree { root }], n_features: 2, hyper_parm: HyperParam::default() }
}

#[test]
fn save_load_round_trip_preserves_predictions() {
    let model = build_model();
    let input = vec![(0u32, SCALE), (1, SCALE / 4)];
    let before = model.predict(&input, 2).unwrap();
    let tokens = model.save_tokens();
    let reloaded = Model::load_tokens(&tokens).unwrap();
    let after = reloaded.predict(&input, 2).unwrap();
    assert_eq!(before, after);
}

#[test]
fn save_load_round_trip_is_token_exact() {
    let model = build_model();
    let tokens = model.save_tokens();
    let reloaded = Model::load_tokens(&tokens).unwrap();
    assert_eq!(reloaded.save_tokens(), tokens);
}

#[test]
fn truncated_stream_is_rejected() {
    let model = build_model();
    let mut tokens = model.save_tokens();
    tokens.pop();
    assert!(Model::load_tokens(&tokens).is_none());
}

#[test]
fn trailing_garbage_is_rejected() {
    let model = build_model();
    let mut tokens = model.save_tokens();
    tokens.push(0);
    assert!(Model::load_tokens(&tokens).is_none());
}

#[test]
fn well_formedness_check_accepts_and_rejects() {
    assert!(build_model().is_well_formed());
    let broken = Model {
        trees: vec![Tree {
            root: TreeNode::BranchNode {
                weight_matrix: SparseMat { rows: vec![vec![(0u32, 1)]] },
                left: Box::new(TreeNode::LeafNode {
                    weight_matrix: SparseMat { rows: vec![] },
                    labels: vec![],
                }),
                right: Box::new(TreeNode::LeafNode {
                    weight_matrix: SparseMat { rows: vec![] },
                    labels: vec![],
                }),
            },
        }],
        n_features: 2,
        hyper_parm: HyperParam::default(),
    };
    assert!(!broken.is_well_formed());
}

#[test]
fn garbage_is_rejected() {
    assert!(Model::load_tokens(&vec![3, 1, 4, 1, 5]).is_none());
    assert!(Model::load_tokens(&Vec::new()).is_none());
}
