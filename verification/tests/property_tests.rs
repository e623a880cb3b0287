use mazecore::MazeError;
use mazecore::{find_passages, find_path, find_walls, next_node_in_path, there_is_no_passage_here};
use rand::SeedableRng;
use rand::rngs::SmallRng;

fn gen_maze(width: usize, height: usize, start: usize, seed: u64) -> Vec<(usize, usize)> {
    let num_cells = width * height;
    let mut visited = vec![false; num_cells];
    let mut passages: Vec<(usize, usize)> = Vec::new();
    let mut rng = SmallRng::seed_from_u64(seed);
    find_passages(start, width, height, &mut visited, &mut passages, &mut rng).unwrap();
    assert!(visited.iter().all(|&v| v));
    passages
}

fn run_find_path(
    start: usize,
    end: usize,
    width: usize,
    height: usize,
    passages: &Vec<(usize, usize)>,
    seed: u64,
) -> Result<Vec<usize>, MazeError> {
    let num_cells = width * height;
    let mut visited = vec![false; num_cells];
    let mut stack: Vec<usize> = Vec::new();
    let mut paths: Vec<usize> = Vec::new();
    let mut pruned_path: Vec<usize> = Vec::new();
    let mut rng = SmallRng::seed_from_u64(seed);
    find_path(
        start,
        end,
        width,
        height,
        passages,
        &mut visited,
        &mut stack,
        &mut paths,
        &mut pruned_path,
        &mut rng,
    )?;
    Ok(pruned_path)
}

/// Breadth-first traversal over the passage list; returns the visit order
/// and, per cell, the cell it was first reached from.
fn bfs(
    width: usize,
    height: usize,
    passages: &Vec<(usize, usize)>,
    start: usize,
) -> (Vec<usize>, Vec<Option<usize>>) {
    let num_cells = width * height;
    let mut seen = vec![false; num_cells];
    let mut parent: Vec<Option<usize>> = vec![None; num_cells];
    let mut order = Vec::new();
    let mut queue = std::collections::VecDeque::new();
    seen[start] = true;
    queue.push_back(start);
    while let Some(c) = queue.pop_front() {
        order.push(c);
        for n in 0..num_cells {
            if !seen[n] && !there_is_no_passage_here(c, n, passages) {
                seen[n] = true;
                parent[n] = Some(c);
                queue.push_back(n);
            }
        }
    }
    (order, parent)
}

fn bfs_path(
    width: usize,
    height: usize,
    passages: &Vec<(usize, usize)>,
    start: usize,
    end: usize,
) -> Vec<usize> {
    let (_, parent) = bfs(width, height, passages, start);
    let mut path = vec![end];
    let mut cur = end;
    while cur != start {
        cur = parent[cur].expect("end not reached from start");
        path.push(cur);
    }
    path.reverse();
    path
}

#[test]
fn generate_counts_and_coverage() {
    for &(width, height, start, seed) in
        &[(5usize, 4usize, 0usize, 7u64), (1, 5, 2, 3), (7, 1, 6, 9), (3, 3, 4, 0), (1, 1, 0, 1)]
    {
        let num_cells = width * height;
        let passages = gen_maze(width, height, start, seed);
        assert_eq!(passages.len(), num_cells - 1);
        for &(a, b) in &passages {
            assert_ne!(a, b, "self-loop passage");
            let adjacent = (b == a + width)
                || (a == b + width)
                || (b == a + 1 && (a + 1) % width != 0)
                || (a == b + 1 && (b + 1) % width != 0);
            assert!(adjacent, "passage between non-adjacent cells");
        }
        for i in 0..passages.len() {
            for j in i + 1..passages.len() {
                let (a, b) = passages[i];
                let (c, d) = passages[j];
                assert!(!((a, b) == (c, d) || (a, b) == (d, c)), "duplicate passage");
            }
        }
        let mut touched = vec![false; num_cells];
        touched[start] = true;
        for &(a, b) in &passages {
            touched[a] = true;
            touched[b] = true;
        }
        assert!(touched.iter().all(|&t| t), "a cell appears in no passage");
    }
}

#[test]
fn generate_is_spanning_tree() {
    let width = 6;
    let height = 5;
    let num_cells = width * height;
    let passages = gen_maze(width, height, 0, 21);
    for &from in &[0usize, 7, num_cells - 1] {
        let (order, _) = bfs(width, height, &passages, from);
        assert_eq!(order.len(), num_cells, "traversal missed or repeated a cell");
        let mut sorted = order.clone();
        sorted.sort();
        sorted.dedup();
        assert_eq!(sorted.len(), num_cells);
    }
}

#[test]
fn find_path_matches_bfs() {
    let width = 6;
    let height = 5;
    let num_cells = width * height;
    let passages = gen_maze(width, height, 3, 99);
    for &(start, end) in &[(0usize, num_cells - 1), (4, 17), (29, 1), (10, 10)] {
        let got = run_find_path(start, end, width, height, &passages, 5).unwrap();
        let want = bfs_path(width, height, &passages, start, end);
        assert_eq!(got, want, "path differs from the unique tree path");
    }
}

#[test]
fn next_step_is_second_element() {
    let width = 5;
    let height = 5;
    let num_cells = width * height;
    let passages = gen_maze(width, height, 0, 13);
    for &(start, end) in &[(0usize, 24usize), (12, 3), (7, 7)] {
        let path = run_find_path(start, end, width, height, &passages, 1).unwrap();
        let mut visited = vec![false; num_cells];
        let mut stack: Vec<usize> = Vec::new();
        let mut paths: Vec<usize> = Vec::new();
        let mut pruned_path: Vec<usize> = Vec::new();
        let mut rng = SmallRng::seed_from_u64(2);
        let next = next_node_in_path(
            start,
            end,
            width,
            height,
            &passages,
            &mut visited,
            &mut stack,
            &mut paths,
            &mut pruned_path,
            &mut rng,
        )
        .unwrap();
        if start == end {
            assert_eq!(next, start);
        } else {
            assert_eq!(next, path[1]);
        }
    }
}

#[test]
fn generate_is_deterministic() {
    let a = gen_maze(13, 13, 0, 11);
    let b = gen_maze(13, 13, 0, 11);
    assert_eq!(a, b, "same seed must reproduce the same passage sequence");
    let c = gen_maze(13, 13, 0, 12);
    assert_ne!(a, c, "another seed should explore in another order");
}

#[test]
fn single_cell_maze() {
    let passages = gen_maze(1, 1, 0, 5);
    assert_eq!(passages.len(), 0);
    let path = run_find_path(0, 0, 1, 1, &passages, 5).unwrap();
    assert_eq!(path, vec![0]);
    let mut visited = vec![false; 1];
    let mut stack: Vec<usize> = Vec::new();
    let mut paths: Vec<usize> = Vec::new();
    let mut pruned_path: Vec<usize> = Vec::new();
    let mut rng = SmallRng::seed_from_u64(5);
    let next = next_node_in_path(
        0,
        0,
        1,
        1,
        &passages,
        &mut visited,
        &mut stack,
        &mut paths,
        &mut pruned_path,
        &mut rng,
    )
    .unwrap();
    assert_eq!(next, 0);
}

#[test]
fn two_cell_maze() {
    let passages = gen_maze(2, 1, 0, 5);
    assert_eq!(passages.len(), 1);
    let (a, b) = passages[0];
    assert!((a, b) == (0, 1) || (a, b) == (1, 0));
    let path = run_find_path(0, 1, 2, 1, &passages, 5).unwrap();
    assert_eq!(path, vec![0, 1]);

    let mut visited = vec![false; 2];
    let mut stack: Vec<usize> = Vec::new();
    let mut paths: Vec<usize> = Vec::new();
    let mut pruned_path: Vec<usize> = Vec::new();
    let mut rng = SmallRng::seed_from_u64(5);
    let next = next_node_in_path(
        0,
        1,
        2,
        1,
        &passages,
        &mut visited,
        &mut stack,
        &mut paths,
        &mut pruned_path,
        &mut rng,
    )
    .unwrap();
    assert_eq!(next, 1);

    let mut horizontal_walls = vec![0u16; 2];
    let mut vertical_walls = vec![0u16; 3];
    find_walls(2, 1, &passages, &mut horizontal_walls, &mut vertical_walls).unwrap();
    // outer boundaries fully walled, the single interior boundary open
    assert_eq!(vertical_walls, vec![0b1, 0b0, 0b1]);
    assert_eq!(horizontal_walls, vec![0b11, 0b11]);
}

#[test]
fn three_by_three_seed42() {
    let passages = gen_maze(3, 3, 0, 42);
    assert_eq!(passages.len(), 8);
    let mut touched = vec![false; 9];
    for &(a, b) in &passages {
        touched[a] = true;
        touched[b] = true;
    }
    assert!(touched.iter().all(|&t| t), "the 8 passages must span all 9 cells");
    let again = gen_maze(3, 3, 0, 42);
    assert_eq!(passages, again);
}

#[test]
fn wall_bits_match_passages() {
    let width = 4;
    let height = 4;
    let passages = gen_maze(width, height, 0, 2);
    let mut horizontal_walls = vec![0u16; height + 1];
    let mut vertical_walls = vec![0u16; width + 1];
    find_walls(width, height, &passages, &mut horizontal_walls, &mut vertical_walls).unwrap();

    assert_eq!(horizontal_walls[0], 0b1111);
    assert_eq!(horizontal_walls[height], 0b1111);
    assert_eq!(vertical_walls[0], 0b1111);
    assert_eq!(vertical_walls[width], 0b1111);
    for h in 1..height {
        for w in 0..width {
            let ind = h * width + w;
            let bit = (horizontal_walls[h] >> w) & 1;
            let open = !there_is_no_passage_here(ind, ind - width, &passages);
            assert_eq!(bit == 0, open, "row boundary {} column {}", h, w);
        }
    }
    for w in 1..width {
        for h in 0..height {
            let ind = h * width + w;
            let bit = (vertical_walls[w] >> h) & 1;
            let open = !there_is_no_passage_here(ind, ind - 1, &passages);
            assert_eq!(bit == 0, open, "column boundary {} row {}", w, h);
        }
    }
}

#[test]
fn zero_dimensions_are_rejected() {
    let mut visited: Vec<bool> = Vec::new();
    let mut passages: Vec<(usize, usize)> = Vec::new();
    let mut rng = SmallRng::seed_from_u64(1);
    let r = find_passages(0, 0, 7, &mut visited, &mut passages, &mut rng);
    assert_eq!(r, Err(MazeError::InvalidDimensions));

    let mut horizontal_walls = vec![0u16; 6];
    let mut vertical_walls = vec![0u16; 1];
    let r = find_walls(0, 5, &passages, &mut horizontal_walls, &mut vertical_walls);
    assert_eq!(r, Err(MazeError::InvalidDimensions));

    let mut stack: Vec<usize> = Vec::new();
    let mut paths: Vec<usize> = Vec::new();
    let mut pruned_path: Vec<usize> = Vec::new();
    let r = find_path(
        0,
        0,
        3,
        0,
        &passages,
        &mut visited,
        &mut stack,
        &mut paths,
        &mut pruned_path,
        &mut rng,
    );
    assert_eq!(r, Err(MazeError::InvalidDimensions));
}

#[test]
fn unreachable_target_is_reported() {
    // an empty passage list breaks the spanning-tree precondition
    let passages: Vec<(usize, usize)> = Vec::new();
    let r = run_find_path(0, 1, 2, 1, &passages, 4);
    assert_eq!(r, Err(MazeError::UnreachableTarget));
}
