use wfc_overlap::grid::PixelGrid;
use wfc_overlap::overlappingmodel::{
    ConfigError, Entropy, ModelError, OverlappingModel, UncertainCell,
};
use wfc_overlap::sourceimage::{BitDepth, ColorType, ImageInfo, SeedImage, RGB};

const A: RGB = RGB(10, 0, 0);
const B: RGB = RGB(10, 0, 1);
const C: RGB = RGB(10, 1, 0);
const D: RGB = RGB(200, 0, 0);

fn seed_of(rows: usize, cols: usize, cells: Vec<RGB>) -> SeedImage {
    SeedImage {
        image_data: PixelGrid::from_shape_vec((rows, cols), cells).unwrap(),
        image_info: ImageInfo {
            width: cols as u32,
            height: rows as u32,
            color_type: ColorType::RGB,
            bit_depth: BitDepth::Eight,
            line_size: cols * 3,
        },
    }
}

fn four_color_model(width: usize, height: usize) -> OverlappingModel {
    OverlappingModel::from_seed_image(seed_of(2, 2, vec![D, B, C, A]), (width, height), (1, 1))
        .unwrap()
}

fn cell_with(model: &OverlappingModel, states: &[bool]) -> UncertainCell {
    let mut cell = UncertainCell::new(model.palette().len(), model.states().len());
    for (i, bit) in states.iter().enumerate() {
        cell.possible_states.set(i, *bit);
    }
    cell
}

fn natural_value(entropy: &Entropy) -> f64 {
    match entropy {
        Entropy::Zero => 0.0,
        Entropy::Shannon { weights, total } => {
            let sum: f64 = weights
                .iter()
                .map(|weight| {
                    let share = *weight as f64 / *total as f64;
                    share * share.ln()
                })
                .sum();
            -sum
        }
    }
}

fn ranks_of(model: &OverlappingModel) -> Vec<u64> {
    let (rows, cols) = model.dims();
    let mut ranks = Vec::new();
    for row in 0..rows {
        for col in 0..cols {
            let cell = model.cell(row, col).unwrap();
            ranks.push(match cell.entropy(model.states()) {
                Some(entropy) => natural_value(&entropy).to_bits(),
                None => 0,
            });
        }
    }
    ranks
}

#[test]
fn four_colors_and_single_pixel_blocks() {
    let model = four_color_model(3, 2);
    assert_eq!(model.palette(), &vec![A, B, C, D]);
    assert_eq!(model.dims(), (2, 3));
    assert_eq!(model.block_dims(), (1, 1));
    let states = model.states();
    assert_eq!(states.len(), 4);
    let blocks: Vec<RGB> = states.iter().map(|(block, _)| block.to_vec()[0]).collect();
    assert_eq!(blocks, vec![D, B, C, A]);
    for (block, count) in states {
        assert_eq!(block.dim(), (1, 1));
        assert_eq!(*count, 1);
    }
    for row in 0..2 {
        for col in 0..3 {
            let cell = model.cell(row, col).unwrap();
            assert_eq!(cell.possible_colors.len(), 4);
            assert!(cell.possible_colors.all());
            assert_eq!(cell.possible_states.len(), 4);
            assert!(cell.possible_states.all());
            let entropy = cell.entropy(states).unwrap();
            assert_eq!(entropy, Entropy::Shannon { weights: vec![1, 1, 1, 1], total: 4 });
            assert!((natural_value(&entropy) - 4f64.ln()).abs() < 1e-12);
        }
    }
    assert!(model.cell(2, 0).is_none());
    assert!(model.cell(0, 3).is_none());
}

#[test]
fn block_as_large_as_the_seed_decides_everything() {
    let seed = seed_of(2, 2, vec![A, B, C, D]);
    let model = OverlappingModel::from_seed_image(seed, (4, 3), (2, 2)).unwrap();
    assert_eq!(model.states().len(), 1);
    assert_eq!(model.states()[0].1, 1);
    assert_eq!(model.states()[0].0.to_vec(), vec![A, B, C, D]);
    for row in 0..3 {
        for col in 0..4 {
            let cell = model.cell(row, col).unwrap();
            assert_eq!(cell.entropy(model.states()), Some(Entropy::Zero));
        }
    }
    let ranks = ranks_of(&model);
    assert_eq!(ranks, vec![0; 12]);
    assert_eq!(
        model.find_lowest_nonzero_entropy_coordinates(&ranks),
        Err(ModelError::AllStatesDecided)
    );
    assert_eq!(
        model.find_lowest_nonzero_entropy_coordinates(&vec![5; 12]),
        Err(ModelError::AllStatesDecided)
    );
}

#[test]
fn repeated_block_is_counted_for_each_window() {
    let seed = seed_of(2, 3, vec![A, A, A, A, A, A]);
    let model = OverlappingModel::from_seed_image(seed, (2, 2), (2, 1)).unwrap();
    assert_eq!(model.palette(), &vec![A]);
    assert_eq!(model.states().len(), 1);
    assert_eq!(model.states()[0].1, 4);
    assert_eq!(
        model.find_lowest_nonzero_entropy_coordinates(&vec![0; 4]),
        Err(ModelError::AllStatesDecided)
    );
}

#[test]
fn contradiction_is_reported_at_its_own_place() {
    for (row, col) in [(0usize, 0usize), (0, 2), (1, 1), (2, 3), (1, 0)] {
        let mut model = four_color_model(4, 3);
        let empty = cell_with(&model, &[false, false, false, false]);
        model.set_cell(row, col, empty);
        let ranks = ranks_of(&model);
        assert_eq!(
            model.find_lowest_nonzero_entropy_coordinates(&ranks),
            Err(ModelError::NoValidStates(row * 4 + col))
        );
    }
}

#[test]
fn first_contradiction_wins() {
    let mut model = four_color_model(3, 3);
    let empty = cell_with(&model, &[false, false, false, false]);
    model.set_cell(2, 1, empty);
    let empty = cell_with(&model, &[false, false, false, false]);
    model.set_cell(1, 2, empty);
    let low = cell_with(&model, &[true, true, false, false]);
    model.set_cell(0, 0, low);
    let ranks = ranks_of(&model);
    assert_eq!(
        model.find_lowest_nonzero_entropy_coordinates(&ranks),
        Err(ModelError::NoValidStates(5))
    );
}

#[test]
fn lowest_entropy_is_found_by_row_and_column() {
    let mut model = four_color_model(4, 3);
    let three = cell_with(&model, &[true, true, true, false]);
    model.set_cell(0, 1, three);
    let two = cell_with(&model, &[false, true, false, true]);
    model.set_cell(1, 3, two);
    let three = cell_with(&model, &[true, false, true, true]);
    model.set_cell(2, 0, three);
    let ranks = ranks_of(&model);
    assert_eq!(model.find_lowest_nonzero_entropy_coordinates(&ranks), Ok([1, 3]));
}

#[test]
fn last_of_equal_entropies_is_found() {
    let model = four_color_model(3, 2);
    let ranks = ranks_of(&model);
    assert_eq!(model.find_lowest_nonzero_entropy_coordinates(&ranks), Ok([1, 2]));

    let mut model = four_color_model(3, 2);
    let two = cell_with(&model, &[true, true, false, false]);
    model.set_cell(0, 1, two);
    let two = cell_with(&model, &[false, false, true, true]);
    model.set_cell(1, 0, two);
    let ranks = ranks_of(&model);
    assert_eq!(model.find_lowest_nonzero_entropy_coordinates(&ranks), Ok([1, 0]));
}

#[test]
fn decided_cells_are_passed_over() {
    let mut model = four_color_model(2, 2);
    for (row, col, chosen) in [(0usize, 0usize, 0usize), (0, 1, 3), (1, 1, 2)] {
        let mut cell = UncertainCell::new(4, 4);
        cell.collapse_to(chosen);
        model.set_cell(row, col, cell);
    }
    let ranks = ranks_of(&model);
    assert_eq!(model.find_lowest_nonzero_entropy_coordinates(&ranks), Ok([1, 0]));
    let mut cell = UncertainCell::new(4, 4);
    cell.collapse_to(1);
    model.set_cell(1, 0, cell);
    let ranks = ranks_of(&model);
    assert_eq!(
        model.find_lowest_nonzero_entropy_coordinates(&ranks),
        Err(ModelError::AllStatesDecided)
    );
}

#[test]
fn rank_zero_counts_as_decided() {
    let model = four_color_model(3, 1);
    assert_eq!(model.find_lowest_nonzero_entropy_coordinates(&[0, 7, 0]), Ok([0, 1]));
    assert_eq!(model.find_lowest_nonzero_entropy_coordinates(&[9, 7, 8]), Ok([0, 1]));
    assert_eq!(model.find_lowest_nonzero_entropy_coordinates(&[7, 7, 8]), Ok([0, 1]));
    assert_eq!(model.find_lowest_nonzero_entropy_coordinates(&[7, 9, 7]), Ok([0, 2]));
    assert_eq!(model.find_lowest_nonzero_entropy_coordinates(&[u64::MAX, 0, 0]), Ok([0, 0]));
    assert_eq!(
        model.find_lowest_nonzero_entropy_coordinates(&[0, 0, 0]),
        Err(ModelError::AllStatesDecided)
    );
}

#[test]
fn coordinates_follow_the_width_of_a_tall_grid() {
    let model = four_color_model(2, 5);
    let mut ranks = vec![9u64; 10];
    ranks[7] = 1;
    assert_eq!(model.find_lowest_nonzero_entropy_coordinates(&ranks), Ok([3, 1]));
    ranks[7] = 9;
    ranks[4] = 2;
    assert_eq!(model.find_lowest_nonzero_entropy_coordinates(&ranks), Ok([2, 0]));
}

#[test]
fn collapse_cell_decides_one_cell() {
    for _ in 0..50 {
        let mut model = four_color_model(3, 2);
        let some = cell_with(&model, &[false, true, true, false]);
        model.set_cell(1, 1, some);
        model.collapse_cell(1, 1);
        let cell = model.cell(1, 1).unwrap();
        let bits: Vec<bool> = cell.possible_states.iter().collect();
        assert!(bits == vec![false, true, false, false] || bits == vec![false, false, true, false]);
        assert_eq!(cell.entropy(model.states()), Some(Entropy::Zero));
        for (row, col) in [(0usize, 0usize), (0, 1), (0, 2), (1, 0), (1, 2)] {
            assert!(model.cell(row, col).unwrap().possible_states.all());
        }
        assert_eq!(model.palette(), &vec![A, B, C, D]);
        assert_eq!(model.dims(), (2, 3));
    }
}

#[test]
fn resolving_every_cell_ends_with_all_decided() {
    let mut model = four_color_model(3, 3);
    let mut steps = 0;
    loop {
        let ranks = ranks_of(&model);
        match model.find_lowest_nonzero_entropy_coordinates(&ranks) {
            Ok([row, col]) => model.collapse_cell(row, col),
            Err(ModelError::AllStatesDecided) => break,
            Err(ModelError::NoValidStates(index)) => panic!("contradiction at {}", index),
        }
        steps += 1;
        assert!(steps <= 9);
    }
    assert_eq!(steps, 9);
}

#[test]
fn model_needs_an_output() {
    let fault = |output, block| {
        OverlappingModel::from_seed_image(seed_of(2, 2, vec![A, B, C, D]), output, block).err()
    };
    assert_eq!(fault((0, 3), (1, 1)), Some(ConfigError::ZeroSizedOutput));
    assert_eq!(fault((3, 0), (1, 1)), Some(ConfigError::ZeroSizedOutput));
    assert_eq!(fault((0, 0), (0, 0)), Some(ConfigError::ZeroSizedOutput));
    assert_eq!(fault((0, usize::MAX), (9, 9)), Some(ConfigError::ZeroSizedOutput));
}

#[test]
fn model_output_must_be_countable() {
    let fault = |output, block| {
        OverlappingModel::from_seed_image(seed_of(2, 2, vec![A, B, C, D]), output, block).err()
    };
    assert_eq!(fault((usize::MAX, 2), (1, 1)), Some(ConfigError::OutputTooLarge));
    assert_eq!(fault((usize::MAX, usize::MAX), (0, 9)), Some(ConfigError::OutputTooLarge));
}

#[test]
fn model_needs_a_block() {
    let fault = |output, block| {
        OverlappingModel::from_seed_image(seed_of(2, 2, vec![A, B, C, D]), output, block).err()
    };
    assert_eq!(fault((3, 3), (0, 1)), Some(ConfigError::ZeroSizedBlock));
    assert_eq!(fault((3, 3), (1, 0)), Some(ConfigError::ZeroSizedBlock));
    assert_eq!(fault((3, 3), (0, 5)), Some(ConfigError::ZeroSizedBlock));
}

#[test]
fn model_needs_a_block_that_fits_the_seed() {
    let fault = |output, block| {
        OverlappingModel::from_seed_image(seed_of(2, 3, vec![A, B, C, D, A, B]), output, block)
            .err()
    };
    assert_eq!(fault((3, 3), (4, 1)), Some(ConfigError::EmptyStateTable));
    assert_eq!(fault((3, 3), (1, 3)), Some(ConfigError::EmptyStateTable));
    assert_eq!(fault((3, 3), (4, 4)), Some(ConfigError::EmptyStateTable));
    assert_eq!(fault((3, 3), (3, 2)), None);
    assert_eq!(fault((1, 1), (1, 1)), None);
    let empty = SeedImage {
        image_data: PixelGrid::from_shape_vec((0, 3), Vec::new()).unwrap(),
        image_info: ImageInfo {
            width: 3,
            height: 0,
            color_type: ColorType::RGB,
            bit_depth: BitDepth::Eight,
            line_size: 9,
        },
    };
    assert_eq!(
        OverlappingModel::from_seed_image(empty, (1, 1), (1, 1)).err(),
        Some(ConfigError::EmptyStateTable)
    );
}
