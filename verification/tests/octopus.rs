use advent::octopus::{get_adjacent, read_data, solve, tick, tick_it};

fn lines(text: &str) -> Vec<Vec<char>> {
    text.lines().map(|l| l.chars().collect()).collect()
}

const SAMPLE: &str = "5483143223
2745854711
5264556173
6141336146
6357385478
4167524645
2176841721
6882881134
4846848554
5283751526";

#[test]
fn adjacent_row_by_row() {
    assert_eq!(
        get_adjacent(1, 1),
        vec![(0, 0), (0, 1), (0, 2), (1, 0), (1, 2), (2, 0), (2, 1), (2, 2)]
    );
    assert_eq!(get_adjacent(0, 0), vec![(0, 1), (1, 0), (1, 1)]);
    assert_eq!(get_adjacent(9, 9), vec![(8, 8), (8, 9), (9, 8)]);
    assert_eq!(get_adjacent(10, 10), vec![(9, 9)]);
    assert!(get_adjacent(12, 3).is_empty());
}

#[test]
fn first_steps_of_sample() {
    let mut data = read_data(&lines(SAMPLE));
    assert_eq!(tick(&mut data), 0);
    assert_eq!(data[0], vec![6, 5, 9, 4, 2, 5, 4, 3, 3, 4]);
    assert_eq!(tick(&mut data), 35);
    assert_eq!(data[0], vec![8, 8, 0, 7, 4, 7, 6, 5, 5, 5]);
    assert_eq!(data[9], vec![8, 7, 0, 0, 0, 0, 6, 8, 4, 8]);
}

#[test]
fn sample_flashes() {
    let data = read_data(&lines(SAMPLE));
    let steps = tick_it(data, 195);
    assert_eq!(steps.len(), 195);
    assert_eq!(steps[0], (1, 0));
    assert_eq!(steps[1], (2, 35));
    let ten: u32 = steps.iter().take(10).map(|s| s.1).sum();
    assert_eq!(ten, 204);
    let hundred: u32 = steps.iter().take(100).map(|s| s.1).sum();
    assert_eq!(hundred, 1656);
    let first_all = steps.iter().find(|s| s.1 == 100).unwrap();
    assert_eq!(first_all.0, 195);
}

#[test]
fn all_nines_flash_together() {
    let mut data = vec![vec![9u8; 10]; 10];
    assert_eq!(tick(&mut data), 100);
    assert_eq!(data, vec![vec![0u8; 10]; 10]);
}

#[test]
fn flashed_neighbours_gain_energy() {
    let mut data = vec![vec![0u8; 10]; 10];
    data[5][5] = 9;
    assert_eq!(tick(&mut data), 1);
    assert_eq!(data[5][5], 0);
    assert_eq!(data[4][4], 2);
    assert_eq!(data[5][6], 2);
    assert_eq!(data[0][0], 1);
    assert_eq!(data[5][7], 1);
}

#[test]
fn sample_solved() {
    assert_eq!(solve(read_data(&lines(SAMPLE)), 1000), (1656, 195));
    assert_eq!(solve(read_data(&lines(SAMPLE)), 195), (1656, 195));
    // too few steps to see all of them flash together
    assert_eq!(solve(read_data(&lines(SAMPLE)), 194), (1656, 0));
    assert_eq!(solve(read_data(&lines(SAMPLE)), 10), (204, 0));
    assert_eq!(solve(read_data(&lines(SAMPLE)), 0), (0, 0));
}

#[test]
fn early_sync_still_counts_a_hundred_steps() {
    // all flash in the first step and then in every tenth step after it
    let data = vec![vec![9u8; 10]; 10];
    assert_eq!(solve(data, 1000), (1000, 1));
}

/// One step, worked out by rounds: every place takes one unit, then the
/// places above 9 that have not flashed yet flash together, round after
/// round, until none is left.
fn step_by_rounds(grid: &mut Vec<Vec<u8>>) -> u32 {
    let mut level = vec![vec![0u32; 10]; 10];
    for y in 0..10 {
        for x in 0..10 {
            level[y][x] = grid[y][x] as u32 + 1;
        }
    }
    let mut done = vec![vec![false; 10]; 10];
    loop {
        let mut now = Vec::new();
        for y in 0..10usize {
            for x in 0..10usize {
                if level[y][x] > 9 && !done[y][x] {
                    now.push((y, x));
                }
            }
        }
        if now.is_empty() {
            break;
        }
        for (y, x) in now {
            done[y][x] = true;
            for (ny, nx) in get_adjacent(y, x) {
                level[ny][nx] += 1;
            }
        }
    }
    let mut count = 0;
    for y in 0..10 {
        for x in 0..10 {
            if done[y][x] {
                count += 1;
                grid[y][x] = 0;
            } else {
                grid[y][x] = level[y][x] as u8;
            }
        }
    }
    count
}

#[test]
fn cascade_agrees_with_flashing_in_rounds() {
    let mut seed: u64 = 12345;
    for _ in 0..20 {
        let mut grid = vec![vec![0u8; 10]; 10];
        for row in grid.iter_mut() {
            for v in row.iter_mut() {
                seed = seed.wrapping_mul(6364136223846793005).wrapping_add(1442695040888963407);
                *v = ((seed >> 33) % 10) as u8;
            }
        }
        let mut slow = grid.clone();
        for _ in 0..30 {
            let a = tick(&mut grid);
            let b = step_by_rounds(&mut slow);
            assert_eq!(a, b);
            assert_eq!(grid, slow);
        }
    }
}
