use mazecore::{find_neighbors, find_passages, find_path, next_node_in_path};
use rand::SeedableRng;
use rand::rngs::SmallRng;

#[test]
pub fn wont_you_be_my_neight() {
    let width = 4;
    let height = 4;

    let index = 0;
    let neighbors = find_neighbors(index, width, height);
    assert_eq!(neighbors, [Some(4), None, None, Some(1)]);

    let index = 5;
    let neighbors = find_neighbors(index, width, height);
    assert_eq!(neighbors, [Some(9), Some(1), Some(4), Some(6)]);

    let index = 13;
    let neighbors = find_neighbors(index, width, height);
    assert_eq!(neighbors, [None, Some(9), Some(12), Some(14)]);
}

#[test]
pub fn simple() {
    let index = 0;
    let width = 16;
    let height = 16;
    let num_cells = width * height;
    let mut visited = vec![false; num_cells];
    let mut passages: Vec<(usize, usize)> = Vec::new();
    let mut rng = SmallRng::seed_from_u64(11);
    find_passages(index, width, height, &mut visited, &mut passages, &mut rng).unwrap();
    assert_eq!(passages.len(), num_cells - 1);
}

#[test]
pub fn paths() {
    let index = 0;
    let width = 13;
    let height = 13;
    let num_cells = width * height;
    let mut visited = vec![false; num_cells];
    let mut passages: Vec<(usize, usize)> = Vec::new();
    let mut rng = SmallRng::seed_from_u64(42);
    find_passages(index, width, height, &mut visited, &mut passages, &mut rng).unwrap();

    let mut paths: Vec<usize> = Vec::new();
    let mut pruned_path: Vec<usize> = Vec::new();
    let mut stack: Vec<usize> = Vec::new();
    let mut visited = vec![false; num_cells];
    let end = num_cells - 1;
    find_path(
        index,
        end,
        width,
        height,
        &passages,
        &mut visited,
        &mut stack,
        &mut paths,
        &mut pruned_path,
        &mut rng,
    )
    .unwrap();
    println!("{:?}", pruned_path);
    assert_eq!(pruned_path[0], index);
    assert_eq!(*pruned_path.last().unwrap(), end);

    let mut visited = vec![false; num_cells];
    paths.clear();
    pruned_path.clear();
    stack.clear();
    let next = next_node_in_path(
        index,
        end,
        width,
        height,
        &passages,
        &mut visited,
        &mut stack,
        &mut paths,
        &mut pruned_path,
        &mut rng,
    )
    .unwrap();
    println!("{}", next);
}
