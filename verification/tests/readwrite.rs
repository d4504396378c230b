use design_project_m11::readwrite::{
    chunk_plannable, is_sizable, plan_chunk, plan_write, write_plannable, DatasetInfo,
    EmptyReader, ReadCursor, SliceRead, INITIAL_ROWS,
};

fn ds(name: &str, shape: Vec<usize>) -> DatasetInfo {
    DatasetInfo { name: name.to_string(), shape }
}

fn ranges(r: &SliceRead) -> (usize, Vec<(usize, usize)>) {
    (r.dataset, r.ranges.clone())
}

#[test]
fn empty_reader_counts_to_its_limit() {
    let mut r: EmptyReader<3> = EmptyReader::new();
    assert_eq!(r.read_chunk_index(), Some(1));
    assert_eq!(r.read_chunk_index(), Some(2));
    assert_eq!(r.read_chunk_index(), Some(3));
    assert_eq!(r.read_chunk_index(), None);
    assert_eq!(r.read_chunk_index(), None);
}

#[test]
fn empty_reader_of_no_chunks() {
    let mut r: EmptyReader<0> = EmptyReader::new();
    assert_eq!(r.read_chunk_index(), None);
}

#[test]
fn plan_reads_a_block_of_every_long_enough_dataset() {
    let datasets = vec![
        ds("/a", vec![64]),
        ds("/circdistance", vec![64]),
        ds("/b", vec![64, 3]),
        ds("/c", vec![128, 2, 5]),
    ];
    let plan = plan_chunk(16, 8, &datasets).unwrap();
    assert_eq!(plan.queue, 16);
    assert_eq!(plan.next_pos, 24);
    let got: Vec<_> = plan.reads.iter().map(ranges).collect();
    assert_eq!(
        got,
        vec![
            (0, vec![(16, 24)]),
            (2, vec![(16, 24), (0, 3)]),
            (3, vec![(16, 24), (0, 2), (0, 5)]),
        ]
    );
}

#[test]
fn plan_passes_over_datasets_that_end_within_the_chunk() {
    let datasets = vec![ds("/a", vec![64]), ds("/b", vec![128])];
    let plan = plan_chunk(60, 8, &datasets).unwrap();
    let got: Vec<_> = plan.reads.iter().map(ranges).collect();
    assert_eq!(got, vec![(1, vec![(60, 68)])]);
}

#[test]
fn plan_ends_when_a_dataset_ends_before_the_position() {
    let datasets = vec![ds("/a", vec![128]), ds("/b", vec![64])];
    assert!(plan_chunk(96, 8, &datasets).is_none());
}

#[test]
fn plan_skips_the_excluded_dataset_even_when_short() {
    let datasets = vec![ds("/circdistance", vec![64]), ds("/b", vec![128])];
    let plan = plan_chunk(96, 8, &datasets).unwrap();
    let got: Vec<_> = plan.reads.iter().map(ranges).collect();
    assert_eq!(got, vec![(1, vec![(96, 104)])]);
}

#[test]
fn plan_stops_at_a_dataset_of_four_dimensions() {
    let datasets = vec![
        ds("/a", vec![64]),
        ds("/d", vec![64, 1, 1, 1]),
        ds("/b", vec![64]),
    ];
    let plan = plan_chunk(0, 8, &datasets).unwrap();
    let got: Vec<_> = plan.reads.iter().map(ranges).collect();
    assert_eq!(got, vec![(0, vec![(0, 8)])]);
}

#[test]
fn plan_of_no_datasets_is_an_empty_chunk() {
    let plan = plan_chunk(5, 3, &vec![]).unwrap();
    assert_eq!(plan.queue, 5);
    assert_eq!(plan.next_pos, 8);
    assert!(plan.reads.is_empty());
}

#[test]
fn write_plan_of_one_dimension() {
    let p = plan_write(16, 8, &vec![64]);
    assert_eq!(p.array_shape, vec![8]);
    assert_eq!(p.create_shape, vec![INITIAL_ROWS]);
    assert_eq!(p.resize_to, vec![24]);
    assert_eq!(p.ranges, vec![(16, 24)]);
}

#[test]
fn write_plan_of_two_dimensions() {
    let p = plan_write(16, 24, &vec![64, 3]);
    assert_eq!(p.array_shape, vec![8, 3]);
    assert_eq!(p.create_shape, vec![INITIAL_ROWS, 3]);
    assert_eq!(p.resize_to, vec![24, 3]);
    assert_eq!(p.ranges, vec![(16, 24), (0, 3)]);
}

#[test]
fn write_plan_of_three_dimensions() {
    // 4 rows of 2 x 3 values
    let p = plan_write(0, 24, &vec![64, 2, 3]);
    assert_eq!(p.array_shape, vec![4, 2, 3]);
    assert_eq!(p.create_shape, vec![INITIAL_ROWS, 2, 3]);
    assert_eq!(p.resize_to, vec![4, 2, 3]);
    assert_eq!(p.ranges, vec![(0, 4), (0, 2), (0, 3)]);
    let q = plan_write(0, 2, &vec![5, 1, 2]);
    assert_eq!(q.array_shape, vec![1, 1, 2]);
    assert_eq!(q.ranges, vec![(0, 1), (0, 1), (0, 2)]);
    let r = plan_write(3, 2, &vec![2, 1, 1]);
    assert_eq!(r.array_shape, vec![2, 1, 1]);
    assert_eq!(r.resize_to, vec![5, 1, 1]);
    assert_eq!(r.ranges, vec![(3, 5), (0, 1), (0, 1)]);
}

#[test]
fn values_are_written_back_where_they_were_read() {
    let datasets = vec![ds("/a", vec![64]), ds("/b", vec![64, 3]), ds("/c", vec![64, 1, 2])];
    let plan = plan_chunk(8, 8, &datasets).unwrap();
    assert_eq!(plan.reads.len(), 3);
    for read in &plan.reads {
        let shape = &datasets[read.dataset].shape;
        let len: usize = read.ranges.iter().map(|(s, e)| e - s).product();
        let w = plan_write(plan.queue, len, shape);
        assert_eq!(w.ranges, read.ranges);
    }
}

#[test]
fn sizable_needs_six_prime_factors_of_the_row_count() {
    assert!(is_sizable(&vec![64]));
    assert!(is_sizable(&vec![720, 3]));
    assert!(!is_sizable(&vec![32]));
    assert!(!is_sizable(&vec![97, 2]));
    assert!(!is_sizable(&vec![]));
}

#[test]
fn chunk_plannable_checks_only_the_examined_datasets() {
    let good = vec![ds("/a", vec![64]), ds("/b", vec![128])];
    assert!(chunk_plannable(0, 8, &good));
    let bad_late = vec![ds("/a", vec![32]), ds("/b", vec![64])];
    assert!(!chunk_plannable(0, 8, &bad_late));
    // the reader stops at a dataset that ends before the position, so what follows it
    // is never examined
    let stops_early = vec![ds("/a", vec![64]), ds("/b", vec![7])];
    assert!(chunk_plannable(96, 8, &stops_early));
    assert!(!chunk_plannable(usize::MAX, 1, &good));
}

#[test]
fn write_plannable_needs_whole_rows() {
    assert!(write_plannable(0, 10, &vec![64]));
    assert!(write_plannable(0, 12, &vec![64, 3]));
    assert!(!write_plannable(0, 13, &vec![64, 3]));
    assert!(!write_plannable(0, 12, &vec![64, 0]));
    assert!(write_plannable(0, 16, &vec![64, 2, 2]));
    assert!(write_plannable(0, 4, &vec![64, 1, 2]));
    assert!(write_plannable(0, 2, &vec![5, 1, 2]));
    assert!(write_plannable(0, 2, &vec![2, 1, 1]));
    assert!(!write_plannable(0, 5, &vec![64, 1, 2]));
    assert!(!write_plannable(0, 4, &vec![64, 0, 2]));
    assert!(!write_plannable(0, 4, &vec![64, usize::MAX, 2]));
    assert!(!write_plannable(0, 4, &vec![64, 1, 2, 2]));
    assert!(!write_plannable(usize::MAX, 1, &vec![64]));
}

#[test]
fn cursor_moves_on_by_whole_chunks() {
    let datasets = vec![ds("/a", vec![64]), ds("/b", vec![64, 2])];
    let mut cursor: ReadCursor<16> = ReadCursor::new();
    let mut queues = Vec::new();
    while let Some(plan) = cursor.next_chunk(&datasets) {
        assert_eq!(plan.next_pos, cursor.position());
        queues.push(plan.queue);
    }
    // rows 64.. are read as an empty chunk, then the data is exhausted
    assert_eq!(queues, vec![0, 16, 32, 48, 64]);
    assert_eq!(cursor.position(), 80);
    assert!(cursor.next_chunk(&datasets).is_none());
    assert_eq!(cursor.position(), 80);
}
