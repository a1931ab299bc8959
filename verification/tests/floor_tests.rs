use lib::decode::{couple_zero_channels, stb_vorbis_flush_pushdata, stb_vorbis_get_sample_offset,
    vorbis_finish_frame, vorbis_packet_position, window_bounds};
use lib::floor::{draw_line, floor1_range, floor1_step2, floor_curve};
use lib::setup::{compute_classdata, expand_lookup1, floor_sort_order};
use lib::types::{Floor1, Mapping, MappingChannel};
use lib::vorbis::Vorbis;

/// A floor-1 configuration over the given points, with the drawing order
/// and neighbours worked out as the setup does.
fn floor_with_points(xlist: Vec<u16>, rangebits: u8) -> Floor1 {
    let n = xlist.len();
    let sorted_order = floor_sort_order(&xlist);
    let mut neighbors: Vec<(u8, u8)> = vec![(0, 0), (0, 0)];
    for j in 2..n {
        let mut low = 0;
        let mut high = 0;
        lib::bits::neighbors(&xlist, j, &mut low, &mut high);
        neighbors.push((low as u8, high as u8));
    }
    Floor1 {
        partitions: 1,
        partition_class_list: vec![0],
        class_dimensions: vec![(n - 2) as u8],
        class_subclasses: vec![0],
        class_masterbooks: vec![0],
        subclass_books: vec![vec![-1]],
        xlist,
        sorted_order,
        neighbors,
        floor1_multiplier: 1,
        rangebits,
        values: n as i32,
    }
}

#[test]
fn floor_sort_order_sorts_by_x_then_position() {
    assert_eq!(floor_sort_order(&vec![0, 128, 64, 32, 96]), vec![0, 3, 2, 4, 1]);
    assert_eq!(floor_sort_order(&vec![0, 10, 5, 5, 0]), vec![0, 4, 2, 3, 1]);
    assert_eq!(floor_sort_order(&vec![]), Vec::<u8>::new());
}

#[test]
fn floor_ranges() {
    assert_eq!(floor1_range(1), 256);
    assert_eq!(floor1_range(2), 128);
    assert_eq!(floor1_range(3), 86);
    assert_eq!(floor1_range(4), 64);
}

#[test]
fn step2_predicts_and_corrects() {
    let g = floor_with_points(vec![0, 128, 64], 7);
    // end points 10 and 30; the middle point is predicted as 20
    let y = floor1_step2(&g, 256, &vec![10, 30, 0]);
    assert_eq!(y, vec![10, 30, -1]);
    // an even raw value moves the prediction up by half of it
    let y = floor1_step2(&g, 256, &vec![10, 30, 4]);
    assert_eq!(y, vec![10, 30, 22]);
    // an odd one moves it down by half of it plus one, halved
    let y = floor1_step2(&g, 256, &vec![10, 30, 3]);
    assert_eq!(y, vec![10, 30, 18]);
    // beyond the room on both sides, the value goes to the roomier side
    let y = floor1_step2(&g, 256, &vec![10, 30, 100]);
    assert_eq!(y, vec![10, 30, 100]);
}

#[test]
fn step2_uses_corrected_neighbours() {
    let g = floor_with_points(vec![0, 128, 64, 32], 7);
    let y = floor1_step2(&g, 256, &vec![0, 40, 2, 2]);
    // point 2: predicted 20, corrected to 21; point 3 lies between 0 and
    // point 2, is predicted from the corrected value (10) and corrected to 11
    assert_eq!(y[2], 21);
    assert_eq!(y[3], 11);
    // a zero raw value leaves a point out unless a neighbour of a corrected one
    let y = floor1_step2(&g, 256, &vec![0, 40, 2, 0]);
    assert_eq!(y[3], -1);
    assert_eq!(y[0], 0);
}

#[test]
fn draw_line_steps_like_the_predictor() {
    let mut out = vec![-1i32; 12];
    draw_line(&mut out, 2, 5, 9, 1, 10);
    assert_eq!(out[0], -1);
    assert_eq!(out[1], -1);
    for x in 2..9 {
        assert_eq!(out[x], lib::bits::predict_point(x as i32, 2, 9, 5, 1));
    }
    assert_eq!(out[9], -1);
    // clipped at n
    let mut out = vec![0i32; 6];
    draw_line(&mut out, 0, 0, 12, 12, 4);
    assert_eq!(out, vec![0, 1, 2, 3, 0, 0]);
}

#[test]
fn draw_line_with_large_and_backward_inputs() {
    // values far outside 16 bits
    let mut out = vec![0i32; 3];
    draw_line(&mut out, 0, -1_000_000_000, 2, 1_000_000_000, 3);
    assert_eq!(out, vec![-1_000_000_000, 0, 0]);
    // a line drawn right to left writes nothing
    let mut out = vec![7i32; 4];
    draw_line(&mut out, 3, 1, 1, 5, 4);
    assert_eq!(out, vec![7, 7, 7, 7]);
}

#[test]
fn floor_curve_through_points() {
    let g = floor_with_points(vec![0, 16, 8], 4);
    let curve = floor_curve(&g, &vec![0, 8, 4], 20);
    let expected: Vec<i32> = vec![0, 0, 1, 1, 2, 2, 3, 3, 4, 4, 5, 5, 6, 6, 7, 7, 8, 8, 8, 8];
    assert_eq!(curve, expected);
    // a dropped point is not drawn through
    let curve = floor_curve(&g, &vec![0, 8, -1], 16);
    let expected: Vec<i32> = (0..16).map(|x| x / 2).collect();
    assert_eq!(curve, expected);
}

#[test]
fn classdata_digits() {
    let cd = compute_classdata(9, 2, 3);
    assert_eq!(cd.len(), 9);
    assert_eq!(cd[0], vec![0, 0]);
    assert_eq!(cd[5], vec![1, 2]);
    assert_eq!(cd[8], vec![2, 2]);
    let cd = compute_classdata(4, 0, 2);
    assert_eq!(cd, vec![Vec::<u8>::new(); 4]);
}

#[test]
fn lookup1_expansion() {
    let mults: Vec<u16> = vec![7, 8, 9];
    let m = expand_lookup1(&mults, 3, 2, 4, false, &vec![]).expect("fits");
    // entry j takes mults[j % 3] then mults[(j / 3) % 3]
    assert_eq!(m, vec![7, 7, 8, 7, 9, 7, 7, 8]);
    let m = expand_lookup1(&mults, 3, 2, 2, true, &vec![5, 1]).expect("fits");
    assert_eq!(m, vec![9, 8, 8, 7]);
    assert!(expand_lookup1(&vec![0u16; 70000], 70000, 3, 1, false, &vec![]).is_none());
}

#[test]
fn window_bounds_examples() {
    assert_eq!(window_bounds(256, 256, false, false, false), (0, 128, 128, 256));
    assert_eq!(window_bounds(2048, 256, true, true, true), (0, 1024, 1024, 2048));
    assert_eq!(window_bounds(2048, 256, true, false, false), (448, 576, 1472, 1600));
}

#[test]
fn finish_frame_counts_samples() {
    let mut f = Vorbis::new(vec![]);
    f.previous_length = 0;
    assert_eq!(vorbis_finish_frame(&mut f, 256, 0, 128), 0);
    assert_eq!(f.previous_length, 128);
    assert_eq!(f.samples_output, 0);
    assert_eq!(vorbis_finish_frame(&mut f, 256, 0, 128), 128);
    assert_eq!(f.samples_output, 128);
    // a frame shorter than its right slope
    assert_eq!(vorbis_finish_frame(&mut f, 100, 10, 128), 90);
    assert_eq!(f.samples_output, 218);
    assert_eq!(f.previous_length, -28);
}

#[test]
fn packet_position_first_frame() {
    let mut f = Vorbis::new(vec![]);
    f.first_decode = true;
    f.last_seg_which = 0;
    f.end_seg_with_known_loc = -2;
    let (len, left) = vorbis_packet_position(&mut f, 256, 0, 128, 256);
    assert_eq!((len, left), (256, 0));
    assert!(!f.first_decode);
    assert!(f.current_loc_valid);
    assert_eq!(f.discard_samples_deferred, 0);
    // -128 + 128
    assert_eq!(f.current_loc, 0);
}

#[test]
fn packet_position_from_granule() {
    let mut f = Vorbis::new(vec![]);
    f.last_seg_which = 3;
    f.end_seg_with_known_loc = 3;
    f.known_loc_for_packet = 10_000;
    f.current_loc_valid = false;
    let (len, left) = vorbis_packet_position(&mut f, 256, 0, 128, 256);
    assert_eq!((len, left), (256, 0));
    assert!(f.current_loc_valid);
    assert_eq!(f.current_loc, 10_000 - 128 + 128);
}

#[test]
fn packet_position_truncated_last_frame() {
    let mut f = Vorbis::new(vec![]);
    f.last_seg_which = 1;
    f.end_seg_with_known_loc = 1;
    f.known_loc_for_packet = 1050;
    f.current_loc = 1000;
    f.current_loc_valid = true;
    f.page_flag = 4;
    let (len, left) = vorbis_packet_position(&mut f, 256, 0, 128, 256);
    assert_eq!((len, left), (50, 0));
    assert_eq!(f.current_loc, 1050);
}

#[test]
fn packet_position_discards_samples() {
    let mut f = Vorbis::new(vec![]);
    f.discard_samples_deferred = 100;
    f.end_seg_with_known_loc = -2;
    let (len, left) = vorbis_packet_position(&mut f, 256, 0, 128, 256);
    assert_eq!((len, left), (256, 100));
    assert_eq!(f.discard_samples_deferred, 0);
    f.discard_samples_deferred = 300;
    let (_len, left) = vorbis_packet_position(&mut f, 256, 0, 128, 256);
    assert_eq!(left, 128);
    assert_eq!(f.discard_samples_deferred, 172);
}

#[test]
fn sample_offset_and_flush() {
    let mut f = Vorbis::new(vec![]);
    assert_eq!(stb_vorbis_get_sample_offset(&f), -1);
    f.current_loc = 77;
    f.current_loc_valid = true;
    assert_eq!(stb_vorbis_get_sample_offset(&f), 77);
    f.previous_length = 12;
    f.page_crc_tests = -1;
    stb_vorbis_flush_pushdata(&mut f);
    assert_eq!(stb_vorbis_get_sample_offset(&f), -1);
    assert_eq!(f.previous_length, 0);
    assert_eq!(f.page_crc_tests, 0);
}

#[test]
fn coupling_revives_silent_channels() {
    let map = Mapping {
        coupling_steps: 2,
        chan: vec![
            MappingChannel { magnitude: 0, angle: 1, mux: 0 },
            MappingChannel { magnitude: 1, angle: 2, mux: 0 },
            MappingChannel { magnitude: 0, angle: 0, mux: 0 },
        ],
        submaps: 1,
        submap_floor: vec![0],
        submap_residue: vec![0],
    };
    let mut zero = vec![true, false, true];
    couple_zero_channels(&map, &mut zero);
    assert_eq!(zero, vec![false, false, false]);
    let mut zero = vec![true, true, true];
    couple_zero_channels(&map, &mut zero);
    assert_eq!(zero, vec![true, true, true]);
}
