use bosrender::error::ErrorKind;
use bosrender::pixels::rgba_to_rgb;
use bosrender::tiles::{blit_rgb, tile_dims, tiles, BYTES_PER_PIXEL};

#[test]
fn test_tiling() {
    let output_dims = (100, 200);
    let tile_dims = (33, 33);

    let mut output_data = vec![0; output_dims.0 * output_dims.1 * BYTES_PER_PIXEL];

    for pos in tiles(output_dims, tile_dims) {
        let (x, y) = pos;
        let tile_data = (0..tile_dims.0 * tile_dims.1 * BYTES_PER_PIXEL)
            .map(|_| (x + y) as u8)
            .collect::<Vec<u8>>();

        assert_eq!(blit_rgb(&tile_data, &mut output_data, pos, output_dims, tile_dims), Ok(()));
    }

    let mut expected_data = vec![0; output_dims.0 * output_dims.1 * BYTES_PER_PIXEL];

    for (y, row) in expected_data
        .chunks_exact_mut(output_dims.0 * BYTES_PER_PIXEL)
        .enumerate()
    {
        for (x, data) in row.iter_mut().enumerate() {
            let (tile_width, tile_height) = tile_dims;
            let x = ((x / BYTES_PER_PIXEL) / tile_width) * tile_width;
            let y = (y / tile_height) * tile_height;

            let val = (x + y) as u8;
            *data = val;
        }
    }

    assert_eq!(output_data, expected_data);
}

#[test]
fn test_tiling_non_square() {
    let output_dims = (100, 350);
    let tile_dims = (33, 83);

    let mut output_data = vec![0; output_dims.0 * output_dims.1 * BYTES_PER_PIXEL];

    for pos in tiles(output_dims, tile_dims) {
        let (x, y) = pos;
        let tile_data = (0..tile_dims.0 * tile_dims.1 * BYTES_PER_PIXEL)
            .map(|_| (x + y) as u8)
            .collect::<Vec<u8>>();

        assert_eq!(blit_rgb(&tile_data, &mut output_data, pos, output_dims, tile_dims), Ok(()));
    }

    let mut expected_data = vec![0; output_dims.0 * output_dims.1 * BYTES_PER_PIXEL];

    for (y, row) in expected_data
        .chunks_exact_mut(output_dims.0 * BYTES_PER_PIXEL)
        .enumerate()
    {
        for (x, data) in row.iter_mut().enumerate() {
            let (tile_width, tile_height) = tile_dims;
            let x = ((x / BYTES_PER_PIXEL) / tile_width) * tile_width;
            let y = (y / tile_height) * tile_height;

            let val = (x + y) as u8;
            *data = val;
        }
    }

    assert_eq!(output_data, expected_data);
}

#[test]
fn tile_count_and_order() {
    let t = tiles((100, 200), (33, 33));
    assert_eq!(t.len(), 28);
    assert_eq!(t[0], (0, 0));
    assert_eq!(t[1], (33, 0));
    assert_eq!(t[3], (99, 0));
    assert_eq!(t[4], (0, 33));
    assert_eq!(t[27], (99, 198));
    for i in 1..t.len() {
        let (a, b) = (t[i - 1], t[i]);
        assert!(a.1 < b.1 || (a.1 == b.1 && a.0 < b.0));
    }
}

#[test]
fn tile_count_non_square() {
    let t = tiles((100, 350), (33, 83));
    assert_eq!(t.len(), 20);
    assert_eq!(t[0], (0, 0));
    assert_eq!(t[19], (99, 332));
}

#[test]
fn tile_count_exact_fit_and_single_tile() {
    assert_eq!(tiles((64, 32), (16, 16)).len(), 8);
    assert_eq!(tiles((10, 10), (10, 10)), vec![(0, 0)]);
    assert_eq!(tiles((10, 10), (100, 100)), vec![(0, 0)]);
    assert_eq!(tiles((0, 10), (4, 4)), Vec::<(usize, usize)>::new());
}

#[test]
fn round_trip_pixel_takes_covering_tile_value() {
    let dims = (100, 200);
    let tile = (33, 33);
    let mut frame = vec![0u8; dims.0 * dims.1 * 3];
    for (x, y) in tiles(dims, tile) {
        let data = vec![(x + y) as u8; tile.0 * tile.1 * 3];
        assert_eq!(blit_rgb(&data, &mut frame, (x, y), dims, tile), Ok(()));
    }
    let at = |px: usize, py: usize| frame[(py * dims.0 + px) * 3];
    assert_eq!(at(50, 70), (33 + 66) as u8);
    assert_eq!(at(99, 199), (99 + 198) as u8);
    assert_eq!(at(0, 0), 0);
}

#[test]
fn blit_clips_at_right_and_bottom_edges() {
    // A 2x2 tile at (1, 1) of a 2x2 frame: only its top-left pixel lands.
    let src: Vec<u8> = (1..=12).collect();
    let mut dest = vec![0u8; 12];
    assert_eq!(blit_rgb(&src, &mut dest, (1, 1), (2, 2), (2, 2)), Ok(()));
    assert_eq!(dest, vec![0, 0, 0, 0, 0, 0, 0, 0, 0, 1, 2, 3]);
}

#[test]
fn blit_places_rows_at_origin() {
    // A 1x2 tile at (1, 0) of a 3x2 frame.
    let src = vec![10, 11, 12, 20, 21, 22];
    let mut dest = vec![9u8; 18];
    assert_eq!(blit_rgb(&src, &mut dest, (1, 0), (3, 2), (1, 2)), Ok(()));
    assert_eq!(dest, vec![9, 9, 9, 10, 11, 12, 9, 9, 9, 9, 9, 9, 20, 21, 22, 9, 9, 9]);
}

#[test]
fn blit_refuses_origin_outside_frame() {
    let src = vec![1u8; 12];
    let mut dest = vec![7u8; 12];
    assert_eq!(blit_rgb(&src, &mut dest, (2, 0), (2, 2), (2, 2)), Err(ErrorKind::InvalidTileGeometry));
    assert_eq!(blit_rgb(&src, &mut dest, (0, 2), (2, 2), (2, 2)), Err(ErrorKind::InvalidTileGeometry));
    assert_eq!(dest, vec![7u8; 12]);
}

#[test]
fn blit_refuses_wrong_sizes() {
    let mut dest = vec![7u8; 12];
    assert_eq!(blit_rgb(&[1u8; 11], &mut dest, (0, 0), (2, 2), (2, 2)), Err(ErrorKind::InvalidTileGeometry));
    let mut short = vec![7u8; 11];
    assert_eq!(blit_rgb(&[1u8; 12], &mut short, (0, 0), (2, 2), (2, 2)), Err(ErrorKind::InvalidTileGeometry));
    assert_eq!(dest, vec![7u8; 12]);
    assert_eq!(short, vec![7u8; 11]);
}

#[test]
fn rgba_to_rgb_drops_alpha() {
    assert_eq!(rgba_to_rgb(vec![1, 2, 3, 4, 5, 6, 7, 8]), vec![1, 2, 3, 5, 6, 7]);
    assert_eq!(rgba_to_rgb(vec![]), Vec::<u8>::new());
}

#[test]
fn tile_dims_defaults_to_image_side() {
    assert_eq!(tile_dims((1920, 1080), Some(256), Some(128)), Ok((256, 128)));
    assert_eq!(tile_dims((1920, 1080), None, Some(128)), Ok((1920, 128)));
    assert_eq!(tile_dims((1920, 1080), None, None), Ok((1920, 1080)));
    assert_eq!(tile_dims((1920, 1080), Some(0), None), Err(ErrorKind::InvalidTileGeometry));
    assert_eq!(tile_dims((0, 1080), None, None), Err(ErrorKind::InvalidTileGeometry));
}
