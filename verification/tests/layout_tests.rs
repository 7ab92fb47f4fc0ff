use isoworld::layout::{build_world, empty_layer, rows_from_data};

#[test]
fn rows_are_cut_by_width() {
    let data: Vec<usize> = (1..=7).collect();
    assert_eq!(rows_from_data(&data, 3), vec![vec![1, 2, 3], vec![4, 5, 6], vec![7]]);
    assert_eq!(rows_from_data(&data, 7), vec![data.clone()]);
    assert_eq!(rows_from_data(&data, 10), vec![data.clone()]);
    assert_eq!(rows_from_data(&vec![], 4), Vec::<Vec<usize>>::new());
}

#[test]
fn rows_laid_end_to_end_give_data_back() {
    let data: Vec<usize> = vec![4, 0, 9, 9, 1, 3, 8, 2, 5, 5, 6];
    for w in 1..13 {
        let rows = rows_from_data(&data, w);
        let flat: Vec<usize> = rows.iter().flatten().copied().collect();
        assert_eq!(flat, data);
        for r in 0..rows.len() {
            if r + 1 < rows.len() {
                assert_eq!(rows[r].len(), w);
            } else {
                assert!(!rows[r].is_empty() && rows[r].len() <= w);
            }
        }
    }
}

#[test]
fn empty_layer_has_size() {
    assert_eq!(empty_layer(3, 2), vec![vec![0, 0, 0], vec![0, 0, 0]]);
    assert_eq!(empty_layer(0, 2), vec![Vec::<usize>::new(), vec![]]);
}

#[test]
fn world_layers_are_shifted() {
    let raw = vec![vec![vec![1, 2], vec![3, 4]], vec![vec![5, 6], vec![7, 8]]];
    let world = build_world(&raw, 3, 3);
    assert_eq!(world.len(), 4);
    assert_eq!(world[0], vec![vec![1, 2], vec![3, 4]]);
    assert_eq!(world[1], vec![vec![0, 0, 0], vec![0, 5, 6], vec![0, 7, 8]]);
    assert_eq!(world[2], vec![vec![0; 3]; 3]);
    assert_eq!(world[3], vec![vec![0; 3]; 3]);
}

#[test]
fn shifted_layer_is_cut_to_world_size() {
    let raw = vec![
        vec![vec![1]],
        vec![vec![1, 2, 3], vec![4, 5, 6]],
        vec![vec![9, 9], vec![9, 9]],
    ];
    let world = build_world(&raw, 3, 2);
    assert_eq!(world.len(), 5);
    assert_eq!(world[0], vec![vec![1]]);
    assert_eq!(world[1], vec![vec![0, 0, 0], vec![0, 1, 2]]);
    assert_eq!(world[2], vec![vec![0, 0, 0], vec![0, 0, 0]]);
}

#[test]
fn world_of_no_layers_is_two_empty_layers() {
    let raw: Vec<Vec<Vec<usize>>> = vec![];
    assert_eq!(build_world(&raw, 2, 1), vec![vec![vec![0, 0]], vec![vec![0, 0]]]);
}
