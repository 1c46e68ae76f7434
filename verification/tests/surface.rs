use ekko::surface::{
    GenerationState, SamplerReply, SamplerRequest, SamplerShape, SurfaceHeightGenerator,
};
use ekko::sampler_log::SamplerLog;
use std::cell::RefCell;

fn overworld_shape(start_block_x: i32, start_block_z: i32) -> SamplerShape {
    SamplerShape {
        horizontal_cell_block_count: 4,
        vertical_cell_block_count: 8,
        min_y: -64,
        height: 384,
        start_block_x,
        start_block_z,
    }
}

fn blend(estimate: i32, latest: i32) -> i32 {
    (0.9f32 * estimate as f32 + 0.1f32 * latest as f32) as i32
}

fn terrain_sampler(surface: impl Fn(i32, i32) -> i32) -> impl Fn(SamplerRequest) -> SamplerReply {
    move |request| match request {
        SamplerRequest::SampleBlock { block, .. } => SamplerReply {
            solid: block.1 <= surface(block.0, block.2),
            estimate: 0,
        },
        SamplerRequest::BlendEstimate { estimate, latest } => SamplerReply {
            solid: false,
            estimate: blend(estimate, latest),
        },
        _ => SamplerReply { solid: false, estimate: 0 },
    }
}

#[test]
fn generation_params_from_shape() {
    let generator = SurfaceHeightGenerator::new();
    let params = generator.calculate_generation_params(&overworld_shape(16, -32));
    assert_eq!(params.horizontal_cells, 4);
    assert_eq!(params.minimum_cell_y, -8);
    assert_eq!(params.start_cell, 15);
    assert_eq!(params.end_cell, 33);
    assert_eq!(params.start_cell_x, 4);
    assert_eq!(params.start_cell_z, -8);
}

#[test]
fn generation_params_round_towards_zero() {
    let generator = SurfaceHeightGenerator::new();
    let shape = SamplerShape {
        horizontal_cell_block_count: 4,
        vertical_cell_block_count: 8,
        min_y: -60,
        height: 40,
        start_block_x: -18,
        start_block_z: 0,
    };
    let params = generator.calculate_generation_params(&shape);
    assert_eq!(params.minimum_cell_y, -7);
    assert_eq!(params.start_cell, 15);
    assert_eq!(params.end_cell, 4);
    assert_eq!(params.start_cell_x, -4);
}

#[test]
fn first_cell_bounds_use_the_wide_range() {
    let generator = SurfaceHeightGenerator::new();
    let params = generator.calculate_generation_params(&overworld_shape(16, -32));
    let state = GenerationState::new(75);
    let bounds = generator.calculate_cell_bounds(&params, &state, 1, 2);
    assert_eq!(bounds.adaptive_start, 15);
    assert_eq!(bounds.adaptive_end, 22);
    assert_eq!(bounds.cell_start_x, 20);
    assert_eq!(bounds.cell_start_z, -24);
    assert_eq!(bounds.sample_start_x, 20);
    assert_eq!(bounds.sample_start_z, -24);
}

#[test]
fn flat_terrain_is_found_everywhere() {
    let generator = SurfaceHeightGenerator::new();
    let sampler = terrain_sampler(|_, _| 70);
    let state = generator.generate(&overworld_shape(16, -32), &mut SamplerLog::new(sampler));
    assert_eq!(state.columns_completed, 256);
    assert!(state.surface_found.iter().all(|&f| f));
    assert!(state.surface_heights.iter().all(|&h| h == 70));
    assert_eq!(state.surface_samples.len(), 256);
    assert_eq!(state.estimated_surface_y, 70);
}

#[test]
fn terrain_below_the_band_is_not_found() {
    let generator = SurfaceHeightGenerator::new();
    let sampler = terrain_sampler(|_, _| 40);
    let state = generator.generate(&overworld_shape(0, 0), &mut SamplerLog::new(sampler));
    assert_eq!(state.columns_completed, 0);
    assert!(state.surface_found.iter().all(|&f| !f));
    assert_eq!(state.estimated_surface_y, 75);
}

#[test]
fn sloped_terrain_gives_each_column_its_height() {
    let generator = SurfaceHeightGenerator::new();
    let sampler = terrain_sampler(|x, z| 68 + x / 4 + z / 8);
    let state = generator.generate(&overworld_shape(0, 0), &mut SamplerLog::new(sampler));
    assert_eq!(state.columns_completed, 256);
    for x in 0..16 {
        for z in 0..16 {
            assert_eq!(state.surface_heights[x * 16 + z], 68 + x as i64 / 4 + z as i64 / 8);
        }
    }
}

#[test]
fn scan_asks_top_down_within_the_band_and_stops_at_the_surface() {
    let generator = SurfaceHeightGenerator::new();
    let asked: RefCell<Vec<(i32, i32, i32)>> = RefCell::new(Vec::new());
    let sampler = |request: SamplerRequest| {
        if let SamplerRequest::SampleBlock { block, .. } = request {
            asked.borrow_mut().push(block);
        }
        terrain_sampler(|_, _| 70)(request)
    };
    let state = generator.generate(&overworld_shape(0, 0), &mut SamplerLog::new(sampler));
    assert_eq!(state.columns_completed, 256);
    let asked = asked.borrow();
    let first_column: Vec<i32> = asked.iter().filter(|b| b.0 == 0 && b.2 == 0).map(|b| b.1).collect();
    let expected: Vec<i32> = (70..=119).rev().collect();
    assert_eq!(first_column, expected);
    assert_eq!(asked[0], (0, 119, 0));
    assert_eq!(asked[1], (0, 119, 1));
}

#[test]
fn estimate_is_the_average_while_converging() {
    let mut state = GenerationState::new(75);
    state.surface_samples.push(70);
    state.surface_samples.push(81);
    let sampler = terrain_sampler(|_, _| 0);
    state.update_surface_estimate(16, &mut SamplerLog::new(sampler));
    assert_eq!(state.estimated_surface_y, 75);
}

#[test]
fn estimate_blends_after_converging() {
    let mut state = GenerationState::new(70);
    for _ in 0..17 {
        state.surface_samples.push(70);
    }
    state.surface_samples.push(80);
    let sampler = terrain_sampler(|_, _| 0);
    state.update_surface_estimate(16, &mut SamplerLog::new(sampler));
    assert_eq!(state.estimated_surface_y, 71);
}

#[test]
fn fast_noise_fills_every_block_once() {
    let shape = SamplerShape {
        horizontal_cell_block_count: 4,
        vertical_cell_block_count: 8,
        min_y: -64,
        height: 16,
        start_block_x: 32,
        start_block_z: -16,
    };
    let filled: RefCell<Vec<((i32, i32, i32), (i32, i32, i32))>> = RefCell::new(Vec::new());
    let sampler = |request: SamplerRequest| {
        if let SamplerRequest::FillBlock { offset, block, .. } = request {
            filled.borrow_mut().push((block, offset));
        }
        SamplerReply { solid: false, estimate: 0 }
    };
    let mut log = ekko::sampler_log::SamplerLog::new(sampler);
    ekko::block_fill::fast_noise(&shape, &mut log);
    let filled = filled.borrow();
    assert_eq!(filled.len(), 16 * 16 * 16);
    let mut blocks: Vec<(i32, i32, i32)> = filled.iter().map(|f| f.0).collect();
    assert_eq!(blocks[0], (32, -49, -16));
    blocks.sort();
    blocks.dedup();
    assert_eq!(blocks.len(), 16 * 16 * 16);
    assert!(blocks.iter().all(|b| (32..48).contains(&b.0) && (-64..-48).contains(&b.1) && (-16..0).contains(&b.2)));
    assert!(filled.iter().all(|f| (0..4).contains(&f.1 .0) && (0..8).contains(&f.1 .1) && (0..4).contains(&f.1 .2)));
}

#[test]
fn scan_requests_follow_the_protocol() {
    let generator = SurfaceHeightGenerator::new();
    let requests: RefCell<Vec<SamplerRequest>> = RefCell::new(Vec::new());
    let sampler = |request: SamplerRequest| {
        requests.borrow_mut().push(request);
        terrain_sampler(|_, _| 70)(request)
    };
    let state = generator.generate(&overworld_shape(0, 0), &mut SamplerLog::new(sampler));
    assert_eq!(state.columns_completed, 256);
    let requests = requests.borrow();
    assert_eq!(requests[0], SamplerRequest::StartDensity);
    assert_eq!(requests[1], SamplerRequest::EndDensity { cell_x: 0 });
    assert_eq!(requests[2], SamplerRequest::CellCorners { cell_x: 0, cell_y: 22, cell_z: 0 });
    assert_eq!(requests[3], SamplerRequest::InterpolateY { local_y: 7, vertical_cell_block_count: 8 });
    assert_eq!(
        requests[4],
        SamplerRequest::SampleBlock {
            sample_start: (0, 112, 0),
            local: (0, 7, 0),
            block: (0, 119, 0),
            horizontal_cell_block_count: 4,
        }
    );
    assert_eq!(requests.iter().filter(|r| **r == SamplerRequest::StartDensity).count(), 1);
    assert_eq!(requests.iter().filter(|r| matches!(r, SamplerRequest::EndDensity { .. })).count(), 4);
    assert_eq!(requests.iter().filter(|r| **r == SamplerRequest::SwapBuffers).count(), 3);
    assert!(matches!(requests.last(), Some(SamplerRequest::BlendEstimate { latest: 70, .. })));
}

#[test]
fn found_surface_is_recorded_in_its_column_only() {
    let generator = SurfaceHeightGenerator::new();
    let mut state = GenerationState::new(75);
    let mut log = SamplerLog::new(terrain_sampler(|_, _| 0));
    generator.handle_surface_found(&mut state, 2, 3, 70, &mut log);
    assert!(state.surface_found[2 * 16 + 3]);
    assert_eq!(state.surface_heights[2 * 16 + 3], 70);
    assert_eq!(state.surface_found.iter().filter(|&&f| f).count(), 1);
    assert_eq!(state.surface_heights.iter().filter(|&&h| h != 0).count(), 1);
    assert_eq!(state.columns_completed, 1);
    assert_eq!(state.surface_samples, vec![70]);
    assert_eq!(state.estimated_surface_y, 70);
}
