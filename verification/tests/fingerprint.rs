use polyline::fingerprint::fingerprints;
use polyline::line::PolyLine;
use polyline::point::GridPoint;
use polyline::retain::{RetentionPolicy, TopKSelector};

fn line(raw: &[(i32, i32)]) -> PolyLine {
    PolyLine::new(raw.iter().map(|&(x, y)| GridPoint::new(x, y)).collect(), 8)
}

fn hex(bytes: &[u8]) -> String {
    let mut out = String::new();
    for b in bytes {
        out.push_str(&format!("{:02x}", b));
    }
    out
}

const RING: [(i32, i32); 9] =
    [(0, 0), (2, 0), (4, 0), (4, 2), (4, 4), (2, 4), (0, 4), (0, 2), (0, 0)];

#[test]
fn bytes_are_big_endian_x_then_y() {
    assert_eq!(
        line(&[(0, 0), (2, 0)]).to_bytes(),
        vec![0, 0, 0, 0, 0, 0, 0, 0, 0, 0, 0, 2, 0, 0, 0, 0]
    );
    assert_eq!(line(&[(1, -2)]).to_bytes(), vec![0, 0, 0, 1, 0xff, 0xff, 0xff, 0xfe]);
    assert_eq!(
        line(&[(i32::MAX, i32::MIN)]).to_bytes(),
        vec![0x7f, 0xff, 0xff, 0xff, 0x80, 0, 0, 0]
    );
    assert_eq!(
        line(&[(0x0102_0304, -0x0102_0304)]).to_bytes(),
        vec![1, 2, 3, 4, 0xfe, 0xfd, 0xfc, 0xfc]
    );
    assert!(line(&[]).to_bytes().is_empty());
}

#[test]
fn bytes_agree_with_the_standard_encoding() {
    let raw = [(7, -7), (123456789, -987654321), (i32::MIN, i32::MAX), (-1, 0)];
    let mut want = Vec::new();
    for (x, y) in raw {
        want.extend_from_slice(&x.to_be_bytes());
        want.extend_from_slice(&y.to_be_bytes());
    }
    assert_eq!(line(&raw).to_bytes(), want);
}

#[test]
fn fingerprint_is_the_sha256_of_the_bytes() {
    assert_eq!(
        hex(&line(&[(0, 0), (2, 0)]).calc_hash()),
        "8d776c6b027412b6fb3dd01b664667d3617cb8d8a01b7d03ee7c6d0efdf0421e"
    );
    assert_eq!(
        hex(&line(&[(1, -2)]).calc_hash()),
        "3ad3dd869e4b5825bb4f49bbf5c8d1cf3a4a0bb90f124324bc139c86ca38b093"
    );
    assert_eq!(
        hex(&line(&[(i32::MAX, i32::MIN)]).calc_hash()),
        "8346342c7b4614022dda1db5b68fb47e0bb2edef9ce6cc133327804acf473f7a"
    );
    assert_eq!(
        hex(&line(&RING).calc_hash()),
        "72b6c136920c41f6b216e829b32fa42ef92bf704fa70ca8e04e9b68505fdd986"
    );
}

#[test]
fn fingerprint_of_the_empty_line() {
    assert_eq!(
        hex(&line(&[]).calc_hash()),
        "e3b0c44298fc1c149afbf4c8996fb92427ae41e4649b934ca495991b7852b855"
    );
}

#[test]
fn fingerprint_has_thirty_two_bytes() {
    assert_eq!(line(&[]).calc_hash().len(), 32);
    assert_eq!(line(&RING).calc_hash().len(), 32);
    assert_eq!(line(&[(5, 5)]).calc_hash().len(), 32);
}

#[test]
fn same_vertices_same_fingerprint() {
    let a = line(&RING);
    let b = PolyLine::new(RING.iter().map(|&(x, y)| GridPoint { x, y }).collect(), 100);
    assert_eq!(a.calc_hash(), b.calc_hash());
    assert_eq!(a.calc_hash(), a.clone().calc_hash());
    assert_eq!(a.calc_hash(), a.calc_hash());
}

#[test]
fn any_changed_coordinate_changes_the_fingerprint() {
    let base = line(&RING).calc_hash();
    for k in 0..RING.len() {
        for (dx, dy) in [(1, 0), (0, 1), (-1, 0), (0, -1), (256, 0), (0, 65536)] {
            let mut raw = RING;
            raw[k] = (raw[k].0 + dx, raw[k].1 + dy);
            assert_ne!(line(&raw).calc_hash(), base);
        }
    }
}

#[test]
fn order_and_length_change_the_fingerprint() {
    let base = line(&RING).calc_hash();
    let without_closing = line(&RING[..8]);
    assert_eq!(
        hex(&without_closing.calc_hash()),
        "4abc40aa21943c18fed5cc6bcbcbc6ffc0e1706a73d313125ca52cebfe8251e6"
    );
    let mut swapped = RING;
    swapped.swap(1, 7);
    assert_eq!(
        hex(&line(&swapped).calc_hash()),
        "c52a0899c1b685fb19ad6d9e64ff43e8df6a039dc348f4812249d9d11fb615ef"
    );
    let mut reversed = RING;
    reversed.reverse();
    assert_ne!(line(&reversed).calc_hash(), base);
    let mut longer = RING.to_vec();
    longer.push((0, 0));
    assert_ne!(line(&longer).calc_hash(), base);
    assert_ne!(line(&[(0, 1)]).calc_hash(), line(&[(1, 0)]).calc_hash());
}

#[test]
fn fingerprints_of_the_retained_lines() {
    let mut sel = TopKSelector::new(RetentionPolicy::SortedDeque, 2);
    sel.offer(3, line(&[(0, 0), (2, 0)]));
    sel.offer(9, line(&[(1, -2)]));
    sel.offer(5, line(&RING));
    let out = fingerprints(&sel);
    assert_eq!(out.len(), 2);
    assert_eq!(out[0].score, 5);
    assert_eq!(
        hex(&out[0].item),
        "72b6c136920c41f6b216e829b32fa42ef92bf704fa70ca8e04e9b68505fdd986"
    );
    assert_eq!(out[1].score, 3);
    assert_eq!(
        hex(&out[1].item),
        "8d776c6b027412b6fb3dd01b664667d3617cb8d8a01b7d03ee7c6d0efdf0421e"
    );
    assert_eq!(sel.len(), 2);
}

#[test]
fn fingerprints_of_an_empty_selector() {
    let sel: TopKSelector<PolyLine> = TopKSelector::new(RetentionPolicy::GuardedReplace, 3);
    assert!(fingerprints(&sel).is_empty());
}
