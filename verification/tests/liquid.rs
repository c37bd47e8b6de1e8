use em_liquid::calculate;
use em_liquid::liquid_democracy::{ComputeError, LiquidDemocracy};
use em_liquid::vote_data::{NodeId, VoteData};

const SCALE: u64 = 1_000_000;

const MINORI: NodeId = NodeId(1);
const YASUSHI: NodeId = NodeId(2);
const RAY: NodeId = NodeId(3);
const BREAD: NodeId = NodeId(10);
const RICE: NodeId = NodeId(11);

fn breakfast() -> VoteData {
    let delegates = vec![MINORI, YASUSHI, RAY];
    let policies = vec![BREAD, RICE];
    let votes = vec![
        vec![
            (YASUSHI, 100_000),
            (RAY, 100_000),
            (RICE, 100_000),
            (BREAD, 700_000),
        ],
        vec![(MINORI, 200_000), (RAY, 300_000), (RICE, 500_000)],
        vec![(MINORI, 400_000), (YASUSHI, 400_000), (BREAD, 200_000)],
    ];
    VoteData::new(delegates, policies, votes)
}

fn score(map: &[(NodeId, u64)], id: NodeId) -> u64 {
    map.iter()
        .find(|(k, _)| *k == id)
        .map(|(_, v)| *v)
        .expect("id missing from score map")
}

#[test]
fn matrix_shape() {
    let liq = LiquidDemocracy::new(breakfast());
    let matrix = liq.create_matrix().expect("breakfast snapshot is valid");
    assert_eq!(matrix.dim(), 5);
}

#[test]
fn simple() {
    let liq = LiquidDemocracy::new(breakfast());
    let (result, influence) = liq.calculate().expect("breakfast snapshot is valid");

    let bread = score(&result, BREAD);
    let rice = score(&result, RICE);
    assert!(rice < bread);

    let minori = score(&influence, MINORI);
    let yasushi = score(&influence, YASUSHI);
    assert!(minori > yasushi);
}

#[test]
fn assembled_matrix_entries() {
    let liq = LiquidDemocracy::new(breakfast());
    let matrix = liq.create_matrix().expect("breakfast snapshot is valid");
    // Column 0 is minori's assignment: rows are minori, yasushi, ray, bread, rice.
    assert_eq!(matrix.entry(0, 0), 0);
    assert_eq!(matrix.entry(1, 0), 100_000);
    assert_eq!(matrix.entry(2, 0), 100_000);
    assert_eq!(matrix.entry(3, 0), 700_000);
    assert_eq!(matrix.entry(4, 0), 100_000);
}

#[test]
fn policy_rows_are_identity() {
    let liq = LiquidDemocracy::new(breakfast());
    let matrix = liq.create_matrix().expect("breakfast snapshot is valid");
    for p in 3..5 {
        for q in 3..5 {
            let expected = if p == q { SCALE } else { 0 };
            assert_eq!(matrix.entry(p, q), expected);
        }
    }
}

#[test]
fn outcome_prefers_heavier_policy() {
    let d1 = NodeId(1);
    let d2 = NodeId(2);
    let a = NodeId(20);
    let b = NodeId(21);
    let info = VoteData::new(
        vec![d1, d2],
        vec![a, b],
        vec![
            vec![(a, 700_000), (b, 100_000), (d2, 200_000)],
            vec![(d1, 300_000), (a, 300_000), (b, 200_000)],
        ],
    );
    let (result, _) = calculate(info).expect("snapshot is valid");
    assert!(score(&result, a) > score(&result, b));
}

#[test]
fn unknown_target_rejected() {
    let d1 = NodeId(1);
    let a = NodeId(20);
    let info = VoteData::new(vec![d1], vec![a], vec![vec![(NodeId(99), 500_000)]]);
    assert_eq!(calculate(info), Err(ComputeError::Validation));
}

#[test]
fn duplicate_target_rejected() {
    let d1 = NodeId(1);
    let a = NodeId(20);
    let info = VoteData::new(
        vec![d1],
        vec![a],
        vec![vec![(a, 300_000), (a, 400_000)]],
    );
    assert_eq!(calculate(info), Err(ComputeError::Validation));
}

#[test]
fn overweight_assignment_rejected() {
    let d1 = NodeId(1);
    let d2 = NodeId(2);
    let a = NodeId(20);
    let info = VoteData::new(
        vec![d1, d2],
        vec![a],
        vec![vec![(a, 700_000), (d2, 500_000)], vec![(a, 1_000_000)]],
    );
    assert_eq!(calculate(info), Err(ComputeError::MalformedAssignment));
}

#[test]
fn validation_precedes_weight_check() {
    let d1 = NodeId(1);
    let d2 = NodeId(2);
    let a = NodeId(20);
    let info = VoteData::new(
        vec![d1, d2],
        vec![a],
        vec![vec![(NodeId(99), 100_000)], vec![(a, 900_000), (d1, 900_000)]],
    );
    assert_eq!(calculate(info), Err(ComputeError::Validation));
}

#[test]
fn closed_cycle_reports_nonconvergence() {
    let d1 = NodeId(1);
    let d2 = NodeId(2);
    let a = NodeId(20);
    let info = VoteData::new(
        vec![d1, d2],
        vec![a],
        vec![vec![(d2, 1_000_000)], vec![(d1, 1_000_000)]],
    );
    assert_eq!(calculate(info), Err(ComputeError::NonConvergence));
}

#[test]
fn repeated_calculate_identical() {
    let first = calculate(breakfast()).expect("breakfast snapshot is valid");
    let second = calculate(breakfast()).expect("breakfast snapshot is valid");
    assert_eq!(first, second);
}

#[test]
fn single_delegate_full_weight() {
    let d = NodeId(1);
    let a = NodeId(20);
    let info = VoteData::new(vec![d], vec![a], vec![vec![(a, 1_000_000)]]);
    let (result, influence) = calculate(info).expect("snapshot is valid");
    assert_eq!(result, vec![(a, 1_000_000)]);
    assert_eq!(influence, vec![(d, 1_000_000)]);
}

#[test]
fn delegation_chain_exact() {
    let d1 = NodeId(1);
    let d2 = NodeId(2);
    let a = NodeId(20);
    let info = VoteData::new(
        vec![d1, d2],
        vec![a],
        vec![vec![(d2, 1_000_000)], vec![(a, 1_000_000)]],
    );
    let (result, influence) = calculate(info).expect("snapshot is valid");
    // Both units of weight end on the only policy.
    assert_eq!(score(&result, a), 2_000_000);
    // d2 receives d1's unit on top of its own; d1 keeps only its own.
    assert_eq!(score(&influence, d2), 2_000_000);
    assert_eq!(score(&influence, d1), 1_000_000);
}

#[test]
fn empty_assignment_drops_weight() {
    let d = NodeId(1);
    let a = NodeId(20);
    let info = VoteData::new(vec![d], vec![a], vec![vec![]]);
    let (result, influence) = calculate(info).expect("snapshot is valid");
    assert_eq!(score(&result, a), 0);
    assert_eq!(score(&influence, d), 1_000_000);
}

#[test]
fn empty_delegates() {
    let a = NodeId(20);
    let info = VoteData::new(vec![], vec![a], vec![]);
    let (result, influence) = calculate(info).expect("snapshot is valid");
    assert_eq!(result, vec![(a, 0)]);
    assert!(influence.is_empty());
}

#[test]
fn empty_snapshot() {
    let info = VoteData::new(vec![], vec![], vec![]);
    let (result, influence) = calculate(info).expect("snapshot is valid");
    assert!(result.is_empty());
    assert!(influence.is_empty());
}

#[test]
fn scores_cover_exactly_the_input_ids() {
    let (result, influence) = calculate(breakfast()).expect("breakfast snapshot is valid");
    let policy_ids: Vec<NodeId> = result.iter().map(|(k, _)| *k).collect();
    let delegate_ids: Vec<NodeId> = influence.iter().map(|(k, _)| *k).collect();
    assert_eq!(policy_ids, vec![BREAD, RICE]);
    assert_eq!(delegate_ids, vec![MINORI, YASUSHI, RAY]);
}
