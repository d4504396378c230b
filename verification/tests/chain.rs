use design_project_m11::chain::{Buffer, Stage};

#[test]
fn buffer_passes_items_on_in_order() {
    let mut b: Buffer<u32> = Buffer::new(2);
    assert_eq!(b.shift(Some(1)), None);
    assert_eq!(b.shift(Some(2)), None);
    assert_eq!(b.shift(Some(3)), Some(1));
    assert_eq!(b.shift(None), None);
    assert_eq!(b.shift(Some(4)), Some(2));
    assert_eq!(b.drain(), Some(3));
    assert_eq!(b.drain(), Some(4));
    assert_eq!(b.drain(), None);
}

#[test]
fn buffer_of_size_zero_hands_each_item_straight_back() {
    let mut b: Buffer<&str> = Buffer::new(0);
    assert_eq!(b.shift(Some("a")), Some("a"));
    assert_eq!(b.drain(), None);
}

#[test]
fn buffer_of_size_one_holds_one_item() {
    let mut b: Buffer<u8> = Buffer::new(1);
    assert_eq!(b.shift(Some(7)), None);
    assert_eq!(b.shift(Some(8)), Some(7));
    assert_eq!(b.drain(), Some(8));
    assert_eq!(b.drain(), None);
}

fn run_stage(inputs: &[u32], double: bool) -> Vec<u32> {
    let mut stage: Stage<u32> = Stage::new();
    let mut out = Vec::new();
    for &x in inputs {
        if let Some(y) = stage.receive(x) {
            out.push(y);
        }
        if double && stage.has_current() {
            let c = stage.current_mut();
            *c = *c * 2;
        }
    }
    while let Some(passed) = stage.drain_step() {
        if double && stage.has_current() {
            let c = stage.current_mut();
            *c = *c * 2;
        }
        if let Some(y) = passed {
            out.push(y);
        }
    }
    out.extend(stage.flush());
    out
}

#[test]
fn stage_is_a_pipe() {
    for n in 0..8u32 {
        let inputs: Vec<u32> = (1..=n).collect();
        assert_eq!(run_stage(&inputs, false), inputs);
    }
}

#[test]
fn stage_passes_chunks_on_late_by_two() {
    let mut stage: Stage<u32> = Stage::new();
    assert_eq!(stage.receive(1), None);
    assert!(!stage.has_current());
    assert_eq!(stage.receive(2), None);
    assert!(stage.has_current());
    assert_eq!(*stage.current_mut(), 1);
    assert_eq!(stage.receive(3), None);
    assert_eq!(*stage.current_mut(), 2);
    assert_eq!(stage.receive(4), Some(1));
    assert_eq!(*stage.current_mut(), 3);
    assert_eq!(stage.drain_step(), Some(Some(2)));
    assert_eq!(*stage.current_mut(), 4);
    assert_eq!(stage.drain_step(), None);
    assert_eq!(stage.flush(), vec![3, 4]);
    assert!(!stage.has_current());
    assert_eq!(stage.flush(), Vec::<u32>::new());
}

#[test]
fn stage_filter_sees_every_chunk_once() {
    assert_eq!(run_stage(&[1, 2, 3, 4], true), vec![2, 4, 6, 8]);
    assert_eq!(run_stage(&[5], true), vec![10]);
    assert_eq!(run_stage(&[5, 6], true), vec![10, 12]);
    assert_eq!(run_stage(&[], true), Vec::<u32>::new());
}

#[test]
fn stage_drains_one_chunk_at_a_time() {
    let mut stage: Stage<u32> = Stage::new();
    assert_eq!(stage.receive(1), None);
    assert!(!stage.has_current());
    assert_eq!(stage.drain_step(), Some(None));
    assert_eq!(*stage.current_mut(), 1);
    assert_eq!(stage.drain_step(), None);
    assert_eq!(stage.flush(), vec![1]);
}

#[test]
fn chain_of_stages_keeps_the_stream() {
    let inputs: Vec<u32> = (10..20).collect();
    let mut stream = inputs.clone();
    for _ in 0..3 {
        stream = run_stage(&stream, true);
    }
    let expected: Vec<u32> = inputs.iter().map(|x| x * 8).collect();
    assert_eq!(stream, expected);
}
