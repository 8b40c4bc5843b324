use daily_puzzles::schematic::{sum_numbers, Grid};

// 467..114..
// ...*......
// ..35..633.
// ......#...
// 617*......
// .....+.58.
// ..592.....
// ......755.
// ...$.*....
// .664.598..

// 114 not adjacent to symbol
// 58 not adjacent to symbol

// Total sum is 4361

fn sample_grid() -> Grid {
    let mut grid = Grid::new();
    grid.add_row(&"467..114..".to_string());
    grid.add_row(&"...*......".to_string());
    grid.add_row(&"..35..633.".to_string());
    grid.add_row(&"......#...".to_string());
    grid.add_row(&"617*......".to_string());
    grid.add_row(&".....+.58.".to_string());
    grid.add_row(&"..592.....".to_string());
    grid.add_row(&"......755.".to_string());
    grid.add_row(&"...$.*....".to_string());
    grid.add_row(&".664.598..".to_string());
    grid
}

#[test]
fn test_load() {
    let mut grid = Grid::new();
    grid.add_row(&"467..114..".to_string());
    grid.add_row(&"...*......".to_string());
    grid.add_row(&"..35..633.".to_string());
    grid.add_row(&"......#...".to_string());
    grid.add_row(&"617*......".to_string());
    grid.add_row(&".....+.58.".to_string());
    grid.add_row(&"..592.....".to_string());
    grid.add_row(&"......755.".to_string());
    grid.add_row(&"...$.*....".to_string());
    grid.add_row(&".664.598..".to_string());
    assert!(grid.verify());
}

#[test]
fn test_symbol_not_adjacent() {
    let mut grid = Grid::new();
    grid.add_row(&".....".to_string());
    grid.add_row(&".123.".to_string());
    grid.add_row(&".....".to_string());
    grid.verify();
    assert_eq!(grid.is_symbol_adjacent(1, 1, 3), false);
}

#[test]
fn test_symbol_adjacent_simple() {
    let mut grid = Grid::new();
    grid.add_row(&"...".to_string());
    grid.add_row(&".1.".to_string());
    grid.add_row(&"..$".to_string());
    grid.verify();
    assert!(grid.is_symbol_adjacent(1, 1, 1));
}

#[test]
fn test_symbol_adjacent_simple_not_found() {
    let mut grid = Grid::new();
    grid.add_row(&"...".to_string());
    grid.add_row(&".1.".to_string());
    grid.add_row(&"...".to_string());
    grid.verify();
    assert_eq!(grid.is_symbol_adjacent(1, 1, 1), false);
}

#[test]
fn test_symbol_adjacent_simple_step2() {
    let mut grid = Grid::new();
    grid.add_row(&"....".to_string());
    grid.add_row(&".12.".to_string());
    grid.add_row(&"..$.".to_string());
    grid.verify();
    assert!(grid.is_symbol_adjacent(1, 1, 2));
}

#[test]
fn test_symbol_adjacent_corner() {
    let mut grid = Grid::new();
    grid.add_row(&".....".to_string());
    grid.add_row(&".123.".to_string());
    grid.add_row(&"....$".to_string());
    grid.verify();
    assert!(grid.is_symbol_adjacent(1, 1, 3));
}

#[test]
fn test_symbol_adjacent_top() {
    let mut grid = Grid::new();
    grid.add_row(&"..*..".to_string());
    grid.add_row(&".123.".to_string());
    grid.add_row(&".....".to_string());
    grid.verify();
    assert!(grid.is_symbol_adjacent(1, 1, 3));
}

#[test]
fn test_symbol_adjacent_left() {
    let mut grid = Grid::new();
    grid.add_row(&".....".to_string());
    grid.add_row(&"$123.".to_string());
    grid.add_row(&".....".to_string());
    grid.verify();
    assert!(grid.is_symbol_adjacent(1, 1, 3));
}

#[test]
fn test_symbol_adjacent_right() {
    let mut grid = Grid::new();
    grid.add_row(&".....".to_string());
    grid.add_row(&".123*".to_string());
    grid.add_row(&".....".to_string());
    grid.verify();
    assert!(grid.is_symbol_adjacent(1, 1, 3));
}

#[test]
fn test_find_next_num_single_row() {
    let mut grid = Grid::new();
    grid.add_row(&"467..11..".to_string());
    assert_eq!(grid.find_next_num(0, 0), Some((467, 0, 0, 3)));
    assert_eq!(grid.find_next_num(3, 0), Some((11, 5, 0, 2)));
}

#[test]
fn test_find_next_num_multi_row() {
    let mut grid = Grid::new();
    grid.add_row(&"467..114..".to_string());
    grid.add_row(&"...*......".to_string());
    grid.add_row(&"..35..633.".to_string());
    grid.add_row(&"......#...".to_string());
    assert_eq!(grid.find_next_num(0, 0), Some((467, 0, 0, 3)));
    assert_eq!(grid.find_next_num(3, 0), Some((114, 5, 0, 3)));
    assert_eq!(grid.find_next_num(8, 0), Some((35, 2, 2, 2)));
    assert_eq!(grid.find_next_num(4, 2), Some((633, 6, 2, 3)));
    assert_eq!(grid.find_next_num(9, 2), None);
}

#[test]
fn test_find_next_num_multi_row_right() {
    let mut grid = Grid::new();
    grid.add_row(&"467....114".to_string());
    grid.add_row(&"...23.....".to_string());
    assert_eq!(grid.find_next_num(0, 0), Some((467, 0, 0, 3)));
    assert_eq!(grid.find_next_num(3, 0), Some((114, 7, 0, 3)));
    assert_eq!(grid.find_next_num(10, 0), Some((23, 3, 1, 2)));
    assert_eq!(grid.find_next_num(9, 2), None);
}

#[test]
fn test_adjacent_3_true_1_false() {
    let mut grid = Grid::new();
    grid.add_row(&"467..114..".to_string());
    grid.add_row(&"...*......".to_string());
    grid.add_row(&"..35..633.".to_string());
    grid.add_row(&"......#...".to_string());
    assert_eq!(grid.is_symbol_adjacent(0, 0, 3), true);
    assert_eq!(grid.is_symbol_adjacent(5, 0, 3), false);
    assert_eq!(grid.is_symbol_adjacent(2, 2, 2), true);
    assert_eq!(grid.is_symbol_adjacent(6, 2, 3), true);
}

#[test]
fn test_find_all_adjacent_numbers() {
    let mut grid = Grid::new();
    grid.add_row(&"467..114..".to_string());
    grid.add_row(&"...*......".to_string());
    grid.add_row(&"..35..633.".to_string());
    grid.add_row(&"......#...".to_string());
    grid.add_row(&"617*......".to_string());
    grid.add_row(&".....+.58.".to_string());
    grid.add_row(&"..592.....".to_string());
    grid.add_row(&"......755.".to_string());
    grid.add_row(&"...$.*....".to_string());
    grid.add_row(&".664.598..".to_string());
    assert!(grid.verify());

    let nums = grid.find_all_adjacent_numbers();
    assert_eq!(nums[0], 467);
    assert_eq!(nums[1], 35);
    assert_eq!(nums[2], 633);
    assert_eq!(nums[3], 617);
    assert_eq!(nums[4], 592);
    assert_eq!(nums[5], 755);
    assert_eq!(nums[6], 664);
    assert_eq!(nums[7], 598);

    let sum = nums.iter().fold(0, |acc, n| acc + n);
    assert_eq!(sum, 4361);
}

#[test]
fn test_sample_grid_exact_sequence_and_sum() {
    let grid = sample_grid();
    let nums = grid.find_all_adjacent_numbers();
    assert_eq!(nums, vec![467, 35, 633, 617, 592, 755, 664, 598]);
    assert_eq!(sum_numbers(&nums), 4361);
}

#[test]
fn test_diagonal_only_symbol_included() {
    // A 3-digit run whose only symbol sits at a diagonal corner, one
    // row below and one column past the run's end.
    let mut grid = Grid::new();
    grid.add_row(&".....".to_string());
    grid.add_row(&".123.".to_string());
    grid.add_row(&"....$".to_string());
    let nums = grid.find_all_adjacent_numbers();
    assert_eq!(nums, vec![123]);
}

#[test]
fn test_run_without_border_symbol_excluded() {
    let mut grid = Grid::new();
    grid.add_row(&".....".to_string());
    grid.add_row(&".123.".to_string());
    grid.add_row(&".....".to_string());
    let nums = grid.find_all_adjacent_numbers();
    assert_eq!(nums, Vec::<u32>::new());
}

#[test]
fn test_no_digits_yields_empty_and_zero_sum() {
    let mut grid = Grid::new();
    grid.add_row(&"..*..".to_string());
    grid.add_row(&".....".to_string());
    let nums = grid.find_all_adjacent_numbers();
    assert_eq!(nums.len(), 0);
    assert_eq!(sum_numbers(&nums), 0);
}

#[test]
fn test_get_protected_outside_is_sentinel() {
    let mut grid = Grid::new();
    grid.add_row(&"12".to_string());
    grid.add_row(&"$4".to_string());
    // Every offset that leaves the 2x2 grid reads as '.'.
    assert_eq!(grid.get_protected(0, 0, -1, 0), '.');
    assert_eq!(grid.get_protected(0, 0, 0, -1), '.');
    assert_eq!(grid.get_protected(0, 0, -1, -1), '.');
    assert_eq!(grid.get_protected(1, 1, 1, 0), '.');
    assert_eq!(grid.get_protected(1, 1, 0, 1), '.');
    assert_eq!(grid.get_protected(1, 1, 2000000, 2000000), '.');
    assert_eq!(grid.get_protected(0, 0, i32::MIN, i32::MIN), '.');
    assert_eq!(grid.get_protected(0, 0, i32::MAX, i32::MAX), '.');
    // Inside the grid the real character comes back.
    assert_eq!(grid.get_protected(0, 0, 1, 1), '4');
    assert_eq!(grid.get_protected(1, 1, -1, 0), '$');
}

#[test]
fn test_find_next_num_repeated_calls_agree() {
    let grid = sample_grid();
    let first = grid.find_next_num(3, 0);
    let second = grid.find_next_num(3, 0);
    assert_eq!(first, second);
    assert_eq!(grid.find_next_num(0, 7), grid.find_next_num(0, 7));
}

#[test]
fn test_runs_reconstruct_digit_positions() {
    // Walking the cursor over the sample grid and marking each run's
    // cells must cover every digit cell exactly once.
    let rows: Vec<&str> = vec![
        "467..114..",
        "...*......",
        "..35..633.",
        "......#...",
        "617*......",
        ".....+.58.",
        "..592.....",
        "......755.",
        "...$.*....",
        ".664.598..",
    ];
    let mut grid = Grid::new();
    for r in &rows {
        grid.add_row(&r.to_string());
    }
    let mut covered = vec![vec![0u32; 10]; 10];
    let mut next = grid.find_next_num(0, 0);
    while let Some((_, x, y, len)) = next {
        for c in x..x + len {
            covered[y][c] += 1;
        }
        next = grid.find_next_num(x + len, y);
    }
    for (y, row) in rows.iter().enumerate() {
        for (x, ch) in row.chars().enumerate() {
            if ch.is_ascii_digit() {
                assert_eq!(covered[y][x], 1);
            } else {
                assert_eq!(covered[y][x], 0);
            }
        }
    }
}

#[test]
fn test_get_reads_cells() {
    let grid = sample_grid();
    assert_eq!(grid.get(0, 0), '4');
    assert_eq!(grid.get(3, 1), '*');
    assert_eq!(grid.get(9, 9), '.');
}

#[test]
fn test_verify_rejects_ragged_grid() {
    let mut grid = Grid::new();
    grid.add_row(&"123".to_string());
    grid.add_row(&"12".to_string());
    assert_eq!(grid.verify(), false);
}
