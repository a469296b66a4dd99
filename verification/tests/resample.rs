use polyline::line::PolyLine;
use polyline::point::GridPoint;
use polyline::resample::{ResampleError, SamplePos};

fn line(raw: &[(i32, i32)]) -> PolyLine {
    PolyLine::new(raw.iter().map(|&(x, y)| GridPoint::new(x, y)).collect(), 8)
}

fn pos(raw: &[(usize, u128)]) -> Vec<SamplePos> {
    raw.iter().map(|&(segment, offset)| SamplePos { segment, offset }).collect()
}

fn ring() -> PolyLine {
    line(&[(0, 0), (2, 0), (4, 0), (4, 2), (4, 4), (2, 4), (0, 4), (0, 2), (0, 0)])
}

#[test]
fn polyline_new_keeps_its_arguments() {
    let l = PolyLine::new(vec![GridPoint::new(1, 2), GridPoint::new(3, 4)], 7);
    assert_eq!(l.nodes, vec![GridPoint { x: 1, y: 2 }, GridPoint { x: 3, y: 4 }]);
    assert_eq!(l.grid_size, 7);
}

#[test]
fn polyline_copy_is_independent() {
    let mut l = line(&[(1, 2), (3, 4)]);
    let copy = l.clone();
    l.nodes.push(GridPoint::new(5, 6));
    assert_eq!(copy.nodes, vec![GridPoint::new(1, 2), GridPoint::new(3, 4)]);
    assert_eq!(copy.grid_size, 8);
}

#[test]
fn four_samples_of_the_ring_are_its_corners() {
    assert_eq!(ring().resample(4), Ok(pos(&[(0, 0), (2, 0), (4, 0), (6, 0)])));
}

#[test]
fn one_sample_is_the_start() {
    assert_eq!(ring().resample(1), Ok(pos(&[(0, 0)])));
}

#[test]
fn two_samples_of_the_ring() {
    assert_eq!(ring().resample(2), Ok(pos(&[(0, 0), (4, 0)])));
}

#[test]
fn three_samples_fall_inside_segments() {
    assert_eq!(ring().resample(3), Ok(pos(&[(0, 0), (2, 8), (5, 4)])));
}

#[test]
fn five_samples_of_the_ring() {
    assert_eq!(ring().resample(5), Ok(pos(&[(0, 0), (1, 12), (3, 4), (4, 16), (6, 8)])));
}

#[test]
fn seven_samples_of_the_ring() {
    assert_eq!(
        ring().resample(7),
        Ok(pos(&[(0, 0), (1, 4), (2, 8), (3, 12), (4, 16), (5, 20), (6, 24)]))
    );
}

#[test]
fn sixteen_samples_of_the_ring() {
    let got = ring().resample(16);
    let mut want = Vec::new();
    for s in 0..8 {
        want.push(SamplePos { segment: s, offset: 0 });
        want.push(SamplePos { segment: s, offset: 32 });
    }
    assert_eq!(got, Ok(want));
}

#[test]
fn length_is_the_sum_of_squared_steps() {
    let l = line(&[(0, 0), (3, 0), (3, 4)]);
    assert_eq!(l.resample(5), Ok(pos(&[(0, 0), (0, 25), (1, 5), (1, 30), (1, 55)])));
}

#[test]
fn steps_without_length_are_passed_over() {
    let l = line(&[(0, 0), (0, 0), (1, 0), (1, 0), (1, 2)]);
    assert_eq!(l.resample(4), Ok(pos(&[(1, 0), (3, 1), (3, 6), (3, 11)])));
}

#[test]
fn resample_returns_as_many_positions_as_asked() {
    for n in 1..60usize {
        match ring().resample(n) {
            Ok(v) => {
                assert_eq!(v.len(), n);
                for p in &v {
                    assert!(p.segment < 8);
                    assert!(p.offset < 4 * n as u128);
                }
            }
            Err(e) => panic!("n = {}: {:?}", n, e),
        }
    }
}

#[test]
fn positions_never_go_back() {
    let v = ring().resample(37).unwrap_or_default();
    assert_eq!(v.len(), 37);
    for k in 1..v.len() {
        assert!(v[k - 1].segment <= v[k].segment);
    }
}

#[test]
fn no_samples_asked() {
    assert_eq!(ring().resample(0), Err(ResampleError::NoSamples));
    assert_eq!(line(&[]).resample(0), Err(ResampleError::NoSamples));
}

#[test]
fn empty_line_is_degenerate() {
    assert_eq!(line(&[]).resample(4), Err(ResampleError::Degenerate));
}

#[test]
fn single_vertex_is_degenerate() {
    assert_eq!(line(&[(3, 3)]).resample(4), Err(ResampleError::Degenerate));
}

#[test]
fn line_that_never_moves_is_degenerate() {
    assert_eq!(line(&[(3, 3), (3, 3), (3, 3)]).resample(2), Err(ResampleError::Degenerate));
}

#[test]
fn line_longer_than_64_bits_is_refused() {
    let l = line(&[(i32::MIN, i32::MIN), (i32::MAX, i32::MAX)]);
    assert_eq!(l.resample(3), Err(ResampleError::TooLong));
}

#[test]
fn longest_step_that_fits() {
    let l = line(&[(i32::MIN, 0), (i32::MAX, 0)]);
    let total: u128 = (u32::MAX as u128) * (u32::MAX as u128);
    assert_eq!(
        l.resample(2),
        Ok(vec![SamplePos { segment: 0, offset: 0 }, SamplePos { segment: 0, offset: total }])
    );
}

#[test]
fn negative_coordinates_are_measured_alike() {
    let l = line(&[(-3, -4), (0, 0)]);
    assert_eq!(l.resample(5), Ok(pos(&[(0, 0), (0, 25), (0, 50), (0, 75), (0, 100)])));
}
