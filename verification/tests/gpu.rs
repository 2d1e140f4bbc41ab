use gol::gpu_utils::{device_rank, select_device, DeviceCandidate, DeviceKind};
use gol::solver_gpu::{
    ceil_div, dispatch_sequence, is_scaled_sequence, is_shifted_sequence, result_in_second_buffer,
    work_group_counts, RUN_COUNT, WORK_GROUP_SIZE,
};

#[test]
fn ceil_div_rounds_up() {
    assert_eq!(ceil_div(0, 16), 0);
    assert_eq!(ceil_div(1, 16), 1);
    assert_eq!(ceil_div(16, 16), 1);
    assert_eq!(ceil_div(17, 16), 2);
    assert_eq!(ceil_div(100, 7), 15);
    assert_eq!(ceil_div(7, 1), 7);
}

#[test]
fn work_groups_cover_the_board() {
    assert_eq!(WORK_GROUP_SIZE, 16);
    assert_eq!(work_group_counts(100, 33), (7, 3));
    assert_eq!(work_group_counts(16, 0), (1, 0));
}

#[test]
fn dispatches_alternate_the_sets() {
    assert_eq!(dispatch_sequence(0), Vec::<u8>::new());
    assert_eq!(dispatch_sequence(1), vec![0]);
    assert_eq!(dispatch_sequence(4), vec![0, 1, 0, 1]);
    assert_eq!(dispatch_sequence(5), vec![0, 1, 0, 1, 0]);
}

#[test]
fn result_buffer_follows_the_parity() {
    assert!(!result_in_second_buffer(0));
    assert!(result_in_second_buffer(1));
    assert!(!result_in_second_buffer(10));
    assert!(result_in_second_buffer(11));
}

#[test]
fn scaled_sequence_check() {
    let good: Vec<u32> = (0..100u32).map(|n| n * 12).collect();
    assert!(is_scaled_sequence(&good, 12));
    let mut bad = good.clone();
    bad[57] += 1;
    assert!(!is_scaled_sequence(&bad, 12));
    assert!(is_scaled_sequence(&[], 3));
}

#[test]
fn shifted_sequence_check() {
    let good: Vec<u32> = (0..65536u32).map(|n| n + 2 * RUN_COUNT).collect();
    assert!(is_shifted_sequence(&good, 2 * RUN_COUNT));
    assert!(!is_shifted_sequence(&good, 2 * RUN_COUNT + 1));
    assert!(!is_shifted_sequence(&[1, 2, 4], 1));
}

fn cand(kind: DeviceKind, has_extensions: bool, compute_families: Vec<bool>) -> DeviceCandidate {
    DeviceCandidate { kind, has_extensions, compute_families }
}

#[test]
fn device_ranks_prefer_discrete_gpus() {
    assert_eq!(device_rank(DeviceKind::DiscreteGpu), 0);
    assert_eq!(device_rank(DeviceKind::IntegratedGpu), 1);
    assert_eq!(device_rank(DeviceKind::VirtualGpu), 2);
    assert_eq!(device_rank(DeviceKind::Cpu), 3);
    assert_eq!(device_rank(DeviceKind::Other), 4);
    assert_eq!(device_rank(DeviceKind::Unrecognized), 5);
}

#[test]
fn select_device_takes_the_preferred_eligible_one() {
    let cands = vec![
        cand(DeviceKind::Cpu, true, vec![true]),
        cand(DeviceKind::DiscreteGpu, false, vec![true]),
        cand(DeviceKind::IntegratedGpu, true, vec![false, false, true, true]),
        cand(DeviceKind::DiscreteGpu, true, vec![false, false]),
        cand(DeviceKind::IntegratedGpu, true, vec![true]),
    ];
    assert_eq!(select_device(&cands), Some((2, 2)));
}

#[test]
fn select_device_keeps_the_first_of_equal_kinds() {
    let cands = vec![
        cand(DeviceKind::VirtualGpu, true, vec![false, true]),
        cand(DeviceKind::VirtualGpu, true, vec![true]),
    ];
    assert_eq!(select_device(&cands), Some((0, 1)));
}

#[test]
fn select_device_finds_none() {
    let cands = vec![cand(DeviceKind::DiscreteGpu, false, vec![true]), cand(DeviceKind::Cpu, true, vec![false])];
    assert_eq!(select_device(&cands), None);
    assert_eq!(select_device(&vec![]), None);
}
