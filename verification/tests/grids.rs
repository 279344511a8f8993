use wfc_overlap::grid::PixelGrid;
use wfc_overlap::overlappingmodel::OverlappingModel;
use wfc_overlap::palette::sorted_distinct;
use wfc_overlap::sourceimage::RGB;
use wfc_overlap::statetable::count_blocks;
use wfc_overlap::utils::rotate_90_clockwise;

fn gray(level: u8) -> RGB {
    RGB(level, level, level)
}

fn grid_of(rows: usize, cols: usize, levels: &[u8]) -> PixelGrid {
    PixelGrid::from_shape_vec((rows, cols), levels.iter().map(|level| gray(*level)).collect())
        .unwrap()
}

fn levels_of(grid: &PixelGrid) -> Vec<u8> {
    grid.to_vec().iter().map(|cell| cell.0).collect()
}

#[test]
fn colors_are_ordered_channel_by_channel() {
    assert!(RGB(0, 255, 255) < RGB(1, 0, 0));
    assert!(RGB(1, 0, 255) < RGB(1, 1, 0));
    assert!(RGB(1, 1, 0) < RGB(1, 1, 1));
    assert_eq!(RGB(4, 5, 6), RGB(4, 5, 6));
    assert_ne!(RGB(4, 5, 6), RGB(6, 5, 4));
}

#[test]
fn sort_key_puts_red_first() {
    assert_eq!(RGB(0, 0, 0).sort_key(), 0);
    assert_eq!(RGB(1, 2, 3).sort_key(), 0x010203);
    assert_eq!(RGB(255, 255, 255).sort_key(), 0xFFFFFF);
    assert_eq!(RGB::from_sort_key(0x010203), RGB(1, 2, 3));
    assert_eq!(RGB::from_sort_key(0xFFFFFF), RGB(255, 255, 255));
    assert_eq!(RGB::from_sort_key(0), RGB(0, 0, 0));
    let colors = [RGB(0, 0, 1), RGB(0, 1, 0), RGB(1, 0, 0), RGB(9, 200, 17)];
    for a in colors {
        assert_eq!(RGB::from_sort_key(a.sort_key()), a);
        for b in colors {
            assert_eq!(a < b, a.sort_key() < b.sort_key());
        }
    }
}

#[test]
fn grid_from_shape_vec_checks_the_cell_count() {
    let cells = vec![gray(1), gray(2), gray(3), gray(4), gray(5), gray(6)];
    assert!(PixelGrid::from_shape_vec((2, 3), cells.clone()).is_some());
    assert!(PixelGrid::from_shape_vec((3, 2), cells.clone()).is_some());
    assert!(PixelGrid::from_shape_vec((1, 6), cells.clone()).is_some());
    assert!(PixelGrid::from_shape_vec((2, 2), cells.clone()).is_none());
    assert!(PixelGrid::from_shape_vec((3, 3), cells.clone()).is_none());
    assert!(PixelGrid::from_shape_vec((0, 0), cells).is_none());
    assert!(PixelGrid::from_shape_vec((0, 4), Vec::new()).is_some());
    assert!(PixelGrid::from_shape_vec((0, usize::MAX), Vec::new()).is_none());
    assert!(PixelGrid::from_shape_vec((usize::MAX, usize::MAX), Vec::new()).is_none());
}

#[test]
fn grid_cells_are_read_row_by_row() {
    let grid = grid_of(2, 3, &[1, 2, 3, 4, 5, 6]);
    assert_eq!(grid.dim(), (2, 3));
    assert_eq!(grid.get(0, 0), Some(gray(1)));
    assert_eq!(grid.get(0, 2), Some(gray(3)));
    assert_eq!(grid.get(1, 0), Some(gray(4)));
    assert_eq!(grid.get(1, 2), Some(gray(6)));
    assert_eq!(grid.get(2, 0), None);
    assert_eq!(grid.get(0, 3), None);
    assert_eq!(levels_of(&grid), vec![1, 2, 3, 4, 5, 6]);
}

#[test]
fn empty_grid_has_a_shape() {
    let grid = grid_of(0, 4, &[]);
    assert_eq!(grid.dim(), (0, 4));
    assert_eq!(grid.get(0, 0), None);
    assert_eq!(levels_of(&grid), Vec::<u8>::new());
}

#[test]
fn grids_are_the_same_when_shape_and_cells_agree() {
    let grid = grid_of(2, 3, &[1, 2, 3, 4, 5, 6]);
    assert!(grid.same_as(&grid_of(2, 3, &[1, 2, 3, 4, 5, 6])));
    assert!(!grid.same_as(&grid_of(3, 2, &[1, 2, 3, 4, 5, 6])));
    assert!(!grid.same_as(&grid_of(2, 3, &[1, 2, 3, 4, 5, 7])));
    assert!(!grid.same_as(&grid_of(2, 3, &[0, 2, 3, 4, 5, 6])));
    assert!(!grid.same_as(&grid_of(1, 3, &[1, 2, 3])));
    assert!(grid_of(0, 2, &[]).same_as(&grid_of(0, 2, &[])));
    assert!(!grid_of(0, 2, &[]).same_as(&grid_of(2, 0, &[])));
}

#[test]
fn windows_come_row_by_row() {
    let grid = grid_of(3, 4, &[0, 1, 2, 3, 10, 11, 12, 13, 20, 21, 22, 23]);
    let windows = grid.windows(2, 2);
    let found: Vec<Vec<u8>> = windows.iter().map(levels_of).collect();
    assert_eq!(
        found,
        vec![
            vec![0, 1, 10, 11],
            vec![1, 2, 11, 12],
            vec![2, 3, 12, 13],
            vec![10, 11, 20, 21],
            vec![11, 12, 21, 22],
            vec![12, 13, 22, 23],
        ]
    );
    for window in &windows {
        assert_eq!(window.dim(), (2, 2));
    }
}

#[test]
fn windows_need_not_be_square() {
    let grid = grid_of(3, 4, &[0, 1, 2, 3, 10, 11, 12, 13, 20, 21, 22, 23]);
    let wide: Vec<Vec<u8>> = grid.windows(1, 3).iter().map(levels_of).collect();
    assert_eq!(
        wide,
        vec![
            vec![0, 1, 2],
            vec![1, 2, 3],
            vec![10, 11, 12],
            vec![11, 12, 13],
            vec![20, 21, 22],
            vec![21, 22, 23],
        ]
    );
    let tall = grid.windows(3, 1);
    assert_eq!(tall.len(), 4);
    assert_eq!(tall[0].dim(), (3, 1));
    assert_eq!(levels_of(&tall[3]), vec![3, 13, 23]);
}

#[test]
fn window_of_the_whole_grid_is_the_grid() {
    let grid = grid_of(2, 3, &[1, 2, 3, 4, 5, 6]);
    let windows = grid.windows(2, 3);
    assert_eq!(windows.len(), 1);
    assert!(windows[0].same_as(&grid));
}

#[test]
fn no_window_is_larger_than_the_grid() {
    let grid = grid_of(2, 3, &[1, 2, 3, 4, 5, 6]);
    assert_eq!(grid.windows(3, 1).len(), 0);
    assert_eq!(grid.windows(1, 4).len(), 0);
    assert_eq!(grid.windows(3, 4).len(), 0);
    assert_eq!(grid_of(0, 3, &[]).windows(1, 1).len(), 0);
}

#[test]
fn quarter_turn_moves_the_first_row_to_the_last_column() {
    let grid = grid_of(2, 3, &[1, 2, 3, 4, 5, 6]);
    let turned = rotate_90_clockwise(&grid);
    assert_eq!(turned.dim(), (3, 2));
    assert_eq!(levels_of(&turned), vec![4, 1, 5, 2, 6, 3]);
    assert_eq!(turned.get(0, 1), Some(gray(1)));
    assert_eq!(turned.get(2, 1), Some(gray(3)));
}

#[test]
fn quarter_turn_of_a_square() {
    let grid = grid_of(2, 2, &[1, 2, 3, 4]);
    assert_eq!(levels_of(&rotate_90_clockwise(&grid)), vec![3, 1, 4, 2]);
}

#[test]
fn four_quarter_turns_give_the_grid_back() {
    let grid = grid_of(3, 4, &[0, 1, 2, 3, 10, 11, 12, 13, 20, 21, 22, 23]);
    let once = rotate_90_clockwise(&grid);
    let twice = rotate_90_clockwise(&once);
    let thrice = rotate_90_clockwise(&twice);
    let back = rotate_90_clockwise(&thrice);
    assert!(!once.same_as(&grid));
    assert_eq!(levels_of(&twice), vec![23, 22, 21, 20, 13, 12, 11, 10, 3, 2, 1, 0]);
    assert_eq!(thrice.dim(), (4, 3));
    assert!(back.same_as(&grid));
}

#[test]
fn palette_is_sorted_and_without_repeats() {
    let cells = vec![
        RGB(9, 0, 0),
        RGB(0, 0, 9),
        RGB(0, 9, 0),
        RGB(9, 0, 0),
        RGB(0, 0, 9),
        RGB(0, 0, 0),
        RGB(255, 255, 255),
        RGB(0, 9, 0),
    ];
    assert_eq!(
        sorted_distinct(&cells),
        vec![RGB(0, 0, 0), RGB(0, 0, 9), RGB(0, 9, 0), RGB(9, 0, 0), RGB(255, 255, 255)]
    );
    assert_eq!(sorted_distinct(&Vec::new()), Vec::<RGB>::new());
    assert_eq!(sorted_distinct(&vec![RGB(1, 2, 3); 5]), vec![RGB(1, 2, 3)]);
}

#[test]
fn palette_does_not_depend_on_where_the_colors_are() {
    let cells = vec![RGB(3, 1, 2), RGB(1, 2, 3), RGB(3, 1, 2), RGB(2, 3, 1), RGB(1, 2, 3), RGB(0, 0, 0)];
    let expected = vec![RGB(0, 0, 0), RGB(1, 2, 3), RGB(2, 3, 1), RGB(3, 1, 2)];
    let grid = PixelGrid::from_shape_vec((2, 3), cells.clone()).unwrap();
    assert_eq!(OverlappingModel::build_color_palette(&grid), expected);
    let mut shuffled = cells.clone();
    shuffled.reverse();
    shuffled.swap(0, 3);
    let other = PixelGrid::from_shape_vec((3, 2), shuffled).unwrap();
    assert_eq!(OverlappingModel::build_color_palette(&other), expected);
    let mut rotated = cells;
    rotated.rotate_left(2);
    let third = PixelGrid::from_shape_vec((1, 6), rotated).unwrap();
    assert_eq!(OverlappingModel::build_color_palette(&third), expected);
}

#[test]
fn palette_of_a_palette_is_the_palette() {
    let grid = grid_of(2, 4, &[7, 3, 7, 1, 9, 3, 3, 0]);
    let palette = OverlappingModel::build_color_palette(&grid);
    assert_eq!(palette, vec![gray(0), gray(1), gray(3), gray(7), gray(9)]);
    let again = PixelGrid::from_shape_vec((1, palette.len()), palette.clone()).unwrap();
    assert_eq!(OverlappingModel::build_color_palette(&again), palette);
}

#[test]
fn block_counts_follow_first_occurrence() {
    let grid = grid_of(1, 7, &[5, 6, 5, 5, 7, 6, 5]);
    let table = count_blocks(grid.windows(1, 1));
    let found: Vec<(Vec<u8>, usize)> =
        table.iter().map(|(block, count)| (levels_of(block), *count)).collect();
    assert_eq!(found, vec![(vec![5], 4), (vec![6], 2), (vec![7], 1)]);
}

#[test]
fn blocks_of_different_shape_are_different_blocks() {
    let table = count_blocks(vec![
        grid_of(1, 2, &[1, 1]),
        grid_of(2, 1, &[1, 1]),
        grid_of(1, 2, &[1, 1]),
    ]);
    assert_eq!(table.len(), 2);
    assert_eq!(table[0].0.dim(), (1, 2));
    assert_eq!(table[0].1, 2);
    assert_eq!(table[1].0.dim(), (2, 1));
    assert_eq!(table[1].1, 1);
    assert_eq!(count_blocks(Vec::new()).len(), 0);
}

#[test]
fn block_frequency_map_takes_width_then_height() {
    let grid = grid_of(3, 4, &[0, 1, 0, 1, 2, 3, 2, 3, 0, 1, 0, 1]);
    let table = OverlappingModel::build_block_frequency_map(&grid, (2, 1));
    let found: Vec<(Vec<u8>, usize)> =
        table.iter().map(|(block, count)| (levels_of(block), *count)).collect();
    assert_eq!(
        found,
        vec![(vec![0, 1], 4), (vec![1, 0], 2), (vec![2, 3], 2), (vec![3, 2], 1)]
    );
    for (block, _) in &table {
        assert_eq!(block.dim(), (1, 2));
    }
}

#[test]
fn block_counts_add_up_to_the_number_of_windows() {
    let levels: Vec<u8> = (0..30).map(|i| (i * 7 % 4) as u8).collect();
    let grid = grid_of(5, 6, &levels);
    for block_width in 1..=6usize {
        for block_height in 1..=5usize {
            let table = OverlappingModel::build_block_frequency_map(&grid, (block_width, block_height));
            let total: usize = table.iter().map(|(_, count)| *count).sum();
            assert_eq!(total, (5 - block_height + 1) * (6 - block_width + 1));
            for (i, (block, count)) in table.iter().enumerate() {
                assert!(*count > 0);
                assert_eq!(block.dim(), (block_height, block_width));
                for (other, _) in &table[i + 1..] {
                    assert!(!block.same_as(other));
                }
            }
        }
    }
}

#[test]
fn block_frequency_map_is_empty_where_no_block_fits() {
    let grid = grid_of(2, 3, &[1, 2, 3, 4, 5, 6]);
    assert_eq!(OverlappingModel::build_block_frequency_map(&grid, (4, 1)).len(), 0);
    assert_eq!(OverlappingModel::build_block_frequency_map(&grid, (1, 3)).len(), 0);
    assert_eq!(OverlappingModel::build_block_frequency_map(&grid, (3, 2)).len(), 1);
}
