use polyline::cells::CellSet;
use polyline::line::PolyLine;
use polyline::point::GridPoint;
use polyline::search::GenPolyLines;

fn pts(raw: &[(i32, i32)]) -> Vec<GridPoint> {
    raw.iter().map(|&(x, y)| GridPoint::new(x, y)).collect()
}

fn full_grid(side: i16) -> CellSet {
    let mut all = Vec::new();
    for i in 0..side as i32 {
        for j in 0..side as i32 {
            all.push(GridPoint::new(i, j));
        }
    }
    CellSet::from_points(side, &all)
}

fn square_boundary(side: i16, lo: i32, hi: i32) -> CellSet {
    let mut cells = CellSet::new(side);
    for t in lo..=hi {
        cells.insert(GridPoint::new(t, lo));
        cells.insert(GridPoint::new(t, hi));
        cells.insert(GridPoint::new(lo, t));
        cells.insert(GridPoint::new(hi, t));
    }
    cells
}

fn all_lines(cells: CellSet, side: i16, dist: i32) -> Vec<PolyLine> {
    let mut search = GenPolyLines::new(cells, side, dist);
    let mut out = Vec::new();
    while let Some(line) = search.next_line() {
        out.push(line);
    }
    out
}

fn crowds(a: GridPoint, b: GridPoint, d: i32) -> bool {
    (a.x - b.x).abs() < d && (a.y - b.y).abs() < d
}

#[test]
fn square_boundary_has_twenty_two_closed_lines() {
    let lines = all_lines(square_boundary(8, 0, 4), 8, 2);
    assert_eq!(lines.len(), 22);
}

#[test]
fn lines_come_in_branch_order() {
    let lines = all_lines(square_boundary(8, 0, 4), 8, 2);
    assert_eq!(lines[0].nodes, pts(&[(0, 0), (2, 0), (4, 0), (4, 2), (2, 4), (0, 2), (0, 0)]));
    assert_eq!(
        lines[1].nodes,
        pts(&[(0, 0), (2, 0), (4, 0), (4, 2), (2, 4), (0, 4), (0, 2), (0, 0)])
    );
    assert_eq!(
        lines[2].nodes,
        pts(&[(0, 0), (2, 0), (4, 0), (4, 2), (3, 4), (1, 4), (0, 2), (0, 0)])
    );
    assert_eq!(
        lines[4].nodes,
        pts(&[(0, 0), (2, 0), (4, 0), (4, 2), (4, 4), (2, 4), (0, 4), (0, 2), (0, 0)])
    );
    assert_eq!(lines[11].nodes, pts(&[(0, 0), (0, 2), (0, 4), (2, 4), (4, 2), (2, 0), (0, 0)]));
    assert_eq!(
        lines[21].nodes,
        pts(&[(0, 0), (0, 2), (2, 4), (4, 4), (4, 2), (4, 0), (2, 0), (0, 0)])
    );
}

#[test]
fn lines_carry_the_grid_side() {
    let lines = all_lines(square_boundary(8, 0, 4), 8, 2);
    for line in &lines {
        assert_eq!(line.grid_size, 8);
    }
}

#[test]
fn every_line_ends_where_it_began() {
    let lines = all_lines(full_grid(5), 5, 2);
    assert_eq!(lines.len(), 638);
    for line in &lines {
        assert!(line.nodes.len() >= 6);
        assert!(line.nodes.len() >= 7);
        assert_eq!(line.nodes.first(), line.nodes.last());
        assert_eq!(line.nodes[0], GridPoint::new(0, 0));
    }
}

#[test]
fn every_line_keeps_its_vertices_apart() {
    let lines = all_lines(full_grid(5), 5, 2);
    for line in &lines {
        let open = &line.nodes[..line.nodes.len() - 1];
        for a in 0..open.len() {
            for b in (a + 1)..open.len() {
                assert!(!crowds(open[a], open[b], 2));
            }
        }
    }
}

#[test]
fn every_step_is_a_ring_step() {
    let lines = all_lines(full_grid(5), 5, 2);
    for line in &lines {
        for k in 1..line.nodes.len() {
            let a = line.nodes[k - 1];
            let b = line.nodes[k];
            let reach = (a.x - b.x).abs().max((a.y - b.y).abs());
            assert_eq!(reach, 2);
            assert!(0 <= b.x && b.x < 5 && 0 <= b.y && b.y < 5);
        }
    }
}

#[test]
fn no_line_is_found_twice() {
    let lines = all_lines(full_grid(5), 5, 2);
    for a in 0..lines.len() {
        for b in (a + 1)..lines.len() {
            assert_ne!(lines[a].nodes, lines[b].nodes);
        }
    }
}

#[test]
fn larger_grid_has_more_lines() {
    let lines = all_lines(full_grid(6), 6, 2);
    assert_eq!(lines.len(), 2504);
}

#[test]
fn separation_one_on_a_small_grid() {
    let lines = all_lines(full_grid(3), 3, 1);
    assert_eq!(lines.len(), 302);
    assert_eq!(
        lines[0].nodes,
        pts(&[(0, 0), (1, 0), (2, 0), (1, 1), (2, 1), (1, 2), (0, 1), (0, 0)])
    );
    assert_eq!(
        lines[301].nodes,
        pts(&[(0, 0), (1, 1), (0, 1), (1, 2), (2, 2), (2, 1), (2, 0), (1, 0), (0, 0)])
    );
}

#[test]
fn no_permitted_cell_no_line() {
    let lines = all_lines(CellSet::new(8), 8, 2);
    assert!(lines.is_empty());
}

#[test]
fn grid_without_cells_has_no_line() {
    assert!(all_lines(full_grid(8), 0, 2).is_empty());
    assert!(all_lines(full_grid(8), -1, 2).is_empty());
}

#[test]
fn too_small_a_grid_has_no_line() {
    assert!(all_lines(full_grid(3), 3, 2).is_empty());
}

#[test]
fn exhausted_search_stays_exhausted() {
    let mut search = GenPolyLines::new(square_boundary(8, 0, 4), 8, 2);
    let mut count = 0;
    while search.next_line().is_some() {
        count += 1;
    }
    assert_eq!(count, 22);
    assert!(search.next_line().is_none());
    assert!(search.next_line().is_none());
}

#[test]
fn complete_line_appends_all_lines_in_order() {
    let want = all_lines(square_boundary(8, 0, 4), 8, 2);
    let mut search = GenPolyLines::new(square_boundary(8, 0, 4), 8, 2);
    let mut out = vec![PolyLine::new(pts(&[(9, 9)]), 1)];
    search.complete_line(&mut out);
    assert_eq!(out.len(), 23);
    assert_eq!(out[0].nodes, pts(&[(9, 9)]));
    for k in 0..22 {
        assert_eq!(out[k + 1].nodes, want[k].nodes);
    }
    assert!(search.next_line().is_none());
}

#[test]
fn complete_line_takes_up_where_the_search_stands() {
    let want = all_lines(square_boundary(8, 0, 4), 8, 2);
    let mut search = GenPolyLines::new(square_boundary(8, 0, 4), 8, 2);
    for k in 0..5 {
        let line = search.next_line();
        assert_eq!(line.map(|l| l.nodes), Some(want[k].nodes.clone()));
    }
    let mut out = Vec::new();
    search.complete_line(&mut out);
    assert_eq!(out.len(), 17);
    for k in 0..17 {
        assert_eq!(out[k].nodes, want[k + 5].nodes);
    }
}

#[test]
fn copy_of_a_search_goes_on_alike() {
    let want = all_lines(square_boundary(8, 0, 4), 8, 2);
    let mut search = GenPolyLines::new(square_boundary(8, 0, 4), 8, 2);
    for _ in 0..7 {
        search.next_line();
    }
    let mut copy = search.clone();
    let mut rest = Vec::new();
    search.complete_line(&mut rest);
    let mut rest_of_copy = Vec::new();
    copy.complete_line(&mut rest_of_copy);
    assert_eq!(rest.len(), 15);
    assert_eq!(rest_of_copy.len(), 15);
    for k in 0..15 {
        assert_eq!(rest[k].nodes, want[k + 7].nodes);
        assert_eq!(rest_of_copy[k].nodes, want[k + 7].nodes);
    }
}

#[test]
fn two_searches_find_the_same_lines() {
    let first = all_lines(full_grid(5), 5, 2);
    let second = all_lines(full_grid(5), 5, 2);
    assert_eq!(first.len(), second.len());
    for k in 0..first.len() {
        assert_eq!(first[k].nodes, second[k].nodes);
    }
}

#[test]
fn returned_line_is_a_copy_of_its_own() {
    let mut search = GenPolyLines::new(square_boundary(8, 0, 4), 8, 2);
    let first = search.next_line();
    let kept = first.map(|l| l.nodes);
    let _ = search.next_line();
    assert_eq!(kept, Some(pts(&[(0, 0), (2, 0), (4, 0), (4, 2), (2, 4), (0, 2), (0, 0)])));
}
