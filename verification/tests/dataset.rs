use rooney::batch::OHLCBatcher;
use rooney::dataset::{DatasetError, OHLCDataset, OHLCItem};
use rooney::normalize::NormalizeOHLCItem;

/// The four rows of the original CSV fixture, flat and row-major.
fn valid_rows() -> Vec<f32> {
    (1..=24).map(|v| v as f32).collect()
}

fn sub(a: f32, b: f32) -> f32 {
    a - b
}

fn div(a: f32, b: f32) -> f32 {
    a / b
}

fn max(a: f32, b: f32) -> f32 {
    a.max(b)
}

fn flat(rows: &[[f64; 6]]) -> Vec<f32> {
    rows.iter().flat_map(|r| r.iter().map(|v| *v as f32)).collect()
}

#[test]
fn test_valid_construction_block_1() {
    let result = OHLCDataset::new(1, valid_rows());
    assert!(result.is_ok(), "Failed to construct OHLCDataset");
}

#[test]
fn test_valid_construction_block_2() {
    let result = OHLCDataset::new(2, valid_rows());
    assert!(result.is_ok(), "Failed to construct OHLCDataset");
}

#[test]
fn test_construction_block_too_large() {
    let result = OHLCDataset::new(3, valid_rows());
    assert!(result.is_err(), "Created dataset with too large of a block");
}

#[test]
fn construction_error_names_sizes() {
    match OHLCDataset::new(3, valid_rows()) {
        Err(e) => assert_eq!(e, DatasetError::TooSmall { block_size: 3, n_time_steps: 4 }),
        Ok(_) => panic!("Created dataset with too large of a block"),
    }
}

#[test]
fn construction_of_empty_series() {
    assert!(OHLCDataset::<f32>::new(0, Vec::new()).is_ok());
    assert!(OHLCDataset::<f32>::new(1, Vec::new()).is_err());
}

#[test]
fn test_len_block_1() {
    let Ok(dataset) = OHLCDataset::new(1, valid_rows()) else {
        panic!("Failed to construct valid dataset");
    };
    assert_eq!(3, dataset.len());
}

#[test]
fn test_len_block_2() {
    let Ok(dataset) = OHLCDataset::new(2, valid_rows()) else {
        panic!("Failed to construct valid dataset");
    };
    assert_eq!(1, dataset.len());
}

#[test]
fn len_with_empty_blocks() {
    let Ok(dataset) = OHLCDataset::new(0, valid_rows()) else {
        panic!("Failed to construct valid dataset");
    };
    assert_eq!(5, dataset.len());
    let item = dataset.get(4).unwrap();
    assert!(item.block.is_empty() && item.next.is_empty());
    assert!(dataset.get(5).is_none());
}

#[test]
fn test_gets_block_1() {
    let Ok(dataset) = OHLCDataset::new(1, valid_rows()) else {
        panic!("Failed to construct valid dataset");
    };

    let get_opt = dataset.get(0);
    assert!(get_opt.is_some());
    let got = get_opt.unwrap();
    assert!(got.block == vec![1.0, 2.0, 3.0, 4.0, 5.0, 6.0]);
    assert!(got.next == vec![7.0, 8.0, 9.0, 10.0, 11.0, 12.0]);

    let get_opt = dataset.get(2);
    assert!(get_opt.is_some());
    let got = get_opt.unwrap();
    assert!(got.block == vec![13.0, 14.0, 15.0, 16.0, 17.0, 18.0]);
    assert!(got.next == vec![19.0, 20.0, 21.0, 22.0, 23.0, 24.0]);

    assert!(dataset.get(42).is_none());
}

#[test]
fn test_gets_block_2() {
    let Ok(dataset) = OHLCDataset::new(2, valid_rows()) else {
        panic!("Failed to construct valid dataset");
    };

    let get_opt = dataset.get(0);
    assert!(get_opt.is_some());
    let got = get_opt.unwrap();
    assert!(
        got.block == vec![1.0, 2.0, 3.0, 4.0, 5.0, 6.0, 7.0, 8.0, 9.0, 10.0, 11.0, 12.0]
    );
    assert!(
        got.next == vec![13.0, 14.0, 15.0, 16.0, 17.0, 18.0, 19.0, 20.0, 21.0, 22.0, 23.0, 24.0]
    );

    assert!(dataset.get(1).is_none());
}

#[test]
fn consecutive_pairs_overlap_by_one_block() {
    let Ok(dataset) = OHLCDataset::new(1, valid_rows()) else {
        panic!("Failed to construct valid dataset");
    };
    for i in 0..dataset.len() - 1 {
        let a = dataset.get(i).unwrap();
        let b = dataset.get(i + 1).unwrap();
        assert_eq!(a.next, b.block);
    }
}

#[test]
fn test_normalize_simple() {
    let test_item = OHLCItem {
        block: flat(&[[0.0, 1.0, 2.0, 3.0, 4.0, 5.0], [6.0, 7.0, 8.0, 10.0, 9.0, 11.0]]),
        next: flat(&[[0.0, 1.0, 2.0, 3.0, 4.0, 5.0], [6.0, 7.0, 8.0, 10.0, 9.0, 11.0]]),
    };

    let normalizer = NormalizeOHLCItem {};
    let normalized = normalizer.map(&test_item, &sub, &div, &max);

    assert!(
        normalized.block
            == flat(&[[0.0, 0.1, 0.2, 0.3, 0.4, 5.0 / 11.0], [1.0, 0.7, 0.8, 1.0, 0.9, 1.0]])
    );
    assert!(
        normalized.next
            == flat(&[[0.0, 0.1, 0.2, 0.3, 0.4, 5.0 / 11.0], [1.0, 0.7, 0.8, 1.0, 0.9, 1.0]])
    );
}

#[test]
fn test_normalize_long() {
    let test_item = OHLCItem {
        block: flat(&[
            [0.0, 1.0, 2.0, 3.0, 4.0, 5.0],
            [6.0, 7.0, 8.0, 9.0, 10.0, 11.0],
            [12.0, 13.0, 14.0, 15.0, 16.0, 17.0],
            [18.0, 19.0, 20.0, 22.0, 21.0, 23.0],
        ]),
        next: flat(&[
            [30.0, 31.0, 32.0, 33.0, 34.0, 35.0],
            [36.0, 37.0, 38.0, 39.0, 40.0, 41.0],
            [42.0, 43.0, 44.0, 45.0, 46.0, 47.0],
            [48.0, 49.0, 50.0, 52.0, 51.0, 53.0],
        ]),
    };

    let normalizer = NormalizeOHLCItem {};
    let normalized = normalizer.map(&test_item, &sub, &div, &max);

    assert!(
        normalized.block
            == flat(&[
                [0.0, 1.0 / 22.0, 2.0 / 22.0, 3.0 / 22.0, 4.0 / 22.0, 5.0 / 23.0],
                [6.0 / 18.0, 7.0 / 22.0, 8.0 / 22.0, 9.0 / 22.0, 10.0 / 22.0, 11.0 / 23.0],
                [12.0 / 18.0, 13.0 / 22.0, 14.0 / 22.0, 15.0 / 22.0, 16.0 / 22.0, 17.0 / 23.0],
                [1.0, 19.0 / 22.0, 20.0 / 22.0, 1.0, 21.0 / 22.0, 1.0],
            ])
    );

    assert!(
        normalized.next
            == flat(&[
                [30.0 / 18.0, 31.0 / 22.0, 32.0 / 22.0, 33.0 / 22.0, 34.0 / 22.0, 35.0 / 23.0],
                [36.0 / 18.0, 37.0 / 22.0, 38.0 / 22.0, 39.0 / 22.0, 40.0 / 22.0, 41.0 / 23.0],
                [42.0 / 18.0, 43.0 / 22.0, 44.0 / 22.0, 45.0 / 22.0, 46.0 / 22.0, 47.0 / 23.0],
                [48.0 / 18.0, 49.0 / 22.0, 50.0 / 22.0, 52.0 / 22.0, 51.0 / 22.0, 53.0 / 23.0],
            ])
    );
}

#[test]
fn normalize_reference_values() {
    let block = flat(&[
        [2.0, 1.0, 2.0, 3.0, 4.0, 9.0],
        [4.0, 7.0, 8.0, 5.0, 10.0, 3.0],
        [10.0, 13.0, 14.0, 8.0, 16.0, 7.0],
    ]);
    let r = NormalizeOHLCItem.reference(&block, &sub, &max);
    assert_eq!(r.first_time, 2.0);
    assert_eq!(r.time_range, 8.0);
    assert_eq!(r.max_price, 16.0);
    assert_eq!(r.max_volume, 9.0);
}

#[test]
fn normalize_scales_by_column() {
    let r = NormalizeOHLCItem.reference(&flat(&[[2.0, 1.0, 2.0, 4.0, 4.0, 8.0], [6.0, 1.0, 1.0, 4.0, 1.0, 2.0]]), &sub, &max);
    let scaled = NormalizeOHLCItem.scale_rows(&flat(&[[4.0, 2.0, 1.0, 8.0, 6.0, 4.0]]), &r, &sub, &div);
    assert_eq!(scaled, vec![0.5, 0.5, 0.25, 2.0, 1.5, 0.5]);
}

#[test]
fn test_batch_items() {
    let test_item = OHLCItem {
        block: flat(&[
            [0.0, 1.0, 2.0, 3.0, 4.0, 5.0],
            [6.0, 7.0, 8.0, 9.0, 10.0, 11.0],
            [12.0, 13.0, 14.0, 15.0, 16.0, 17.0],
            [18.0, 19.0, 20.0, 21.0, 22.0, 23.0],
        ]),
        next: flat(&[
            [30.0, 31.0, 32.0, 33.0, 34.0, 35.0],
            [36.0, 37.0, 38.0, 39.0, 40.0, 41.0],
            [42.0, 43.0, 44.0, 45.0, 46.0, 47.0],
            [48.0, 49.0, 50.0, 51.0, 52.0, 53.0],
        ]),
    };
    let copy = |it: &OHLCItem<f32>| OHLCItem { block: it.block.clone(), next: it.next.clone() };

    let batcher = OHLCBatcher {};
    let batched = batcher.batch(vec![copy(&test_item), copy(&test_item), copy(&test_item)]);

    assert!(batched.n_items == 3);
    assert!(batched.blocks.len() == 3 * 4 * 6);
    assert!(batched.nexts.len() == 3 * 4 * 6);

    for i_dim in 0..3 {
        assert!(batched.blocks[i_dim * 24..(i_dim + 1) * 24] == test_item.block[..]);
        assert!(batched.nexts[i_dim * 24..(i_dim + 1) * 24] == test_item.next[..]);
    }
}

#[test]
fn batch_keeps_item_order() {
    let items = vec![
        OHLCItem { block: vec![1u32, 2], next: vec![3] },
        OHLCItem { block: vec![4, 5], next: vec![6] },
    ];
    let batched = OHLCBatcher.batch(items);
    assert_eq!(batched.n_items, 2);
    assert_eq!(batched.blocks, vec![1, 2, 4, 5]);
    assert_eq!(batched.nexts, vec![3, 6]);
}

#[test]
fn latest_indices_step_back_by_stride() {
    assert_eq!(rooney::dataset::latest_indices(1000, 3, 128), vec![999, 871, 743]);
    assert_eq!(rooney::dataset::latest_indices(5, 1, 128), vec![4]);
    assert!(rooney::dataset::latest_indices(0, 0, 7).is_empty());
}

#[test]
fn normalize_divides_prices_by_the_largest_price() {
    let rows = flat(&[[0.0, 1.0, 2.0, 3.0, 8.0, 1.0], [1.0, 1.0, 2.0, 4.0, 5.0, 1.0]]);
    let item = OHLCItem { block: rows.clone(), next: rows };
    let normalized = NormalizeOHLCItem.map(&item, &sub, &div, &max);
    let expected = flat(&[[0.0, 0.125, 0.25, 0.375, 1.0, 1.0], [1.0, 0.125, 0.25, 0.5, 0.625, 1.0]]);
    assert_eq!(normalized.block, expected);
    assert_eq!(normalized.next, expected);
}
