use scanline::profile::ScanlineProfile;
use scanline::rect::Rect;
use scanline::scanline::{band_count, ActiveEdges, EdgeSpan};

fn span(y_start: u32, y_end: u32, min_x: u32) -> EdgeSpan {
    EdgeSpan { y_start, y_end, min_x }
}

fn fields(r: &Rect) -> (u32, u32, u32, u32) {
    (r.x1, r.y1, r.x2, r.y2)
}

#[test]
fn rect_new_keeps_corners() {
    assert_eq!(fields(&Rect::new(1, 2, 3, 4)), (1, 2, 3, 4));
}

#[test]
fn rect_intersect_overlap() {
    let a = Rect::new(0, 0, 10, 10);
    let b = Rect::new(5, 3, 20, 8);
    assert_eq!(fields(&a.intersect(&b).unwrap()), (5, 3, 10, 8));
    assert_eq!(fields(&b.intersect(&a).unwrap()), (5, 3, 10, 8));
}

#[test]
fn rect_intersect_touching_edge_is_kept() {
    let a = Rect::new(0, 0, 5, 5);
    let b = Rect::new(5, 0, 9, 5);
    assert_eq!(fields(&a.intersect(&b).unwrap()), (5, 0, 5, 5));
}

#[test]
fn rect_intersect_disjoint_is_none() {
    let a = Rect::new(0, 0, 5, 5);
    assert!(a.intersect(&Rect::new(6, 0, 9, 5)).is_none());
    assert!(a.intersect(&Rect::new(0, 6, 5, 9)).is_none());
}

#[test]
fn rect_intersect_self() {
    let a = Rect::new(2, 3, 4, 5);
    assert_eq!(fields(&a.intersect(&a).unwrap()), (2, 3, 4, 5));
}

fn walk(spans: Vec<EdgeSpan>, height: u32) -> Vec<Vec<usize>> {
    let mut edges = ActiveEdges::new(spans, height);
    let mut rows = vec![];
    for y in 0..height {
        assert_eq!(edges.row(), y);
        edges.enter_row();
        rows.push(edges.active().clone());
        edges.leave_row();
    }
    rows
}

#[test]
fn active_edges_follow_rows() {
    let spans = vec![span(0, 2, 5), span(1, 1, 2), span(1, 3, 7), span(3, 9, 0)];
    let rows = walk(spans, 4);
    assert_eq!(rows[0], vec![0]);
    assert_eq!(rows[1], vec![1, 0, 2]);
    assert_eq!(rows[2], vec![0, 2]);
    assert_eq!(rows[3], vec![3, 2]);
}

#[test]
fn active_edges_equal_columns_stay_after() {
    let spans = vec![span(0, 5, 4), span(1, 5, 4), span(1, 5, 3)];
    let rows = walk(spans, 2);
    assert_eq!(rows[0], vec![0]);
    assert_eq!(rows[1], vec![2, 0, 1]);
}

#[test]
fn active_edges_ignore_rows_below_image() {
    let spans = vec![span(5, 7, 1), span(0, 0, 1)];
    let rows = walk(spans, 3);
    assert_eq!(rows, vec![vec![1], vec![], vec![]]);
}

#[test]
fn profile_stats() {
    let mut profile = ScanlineProfile::default();
    assert_eq!(profile.active_segment_stats(), None);
    profile.active_segment_counts = vec![3, 1, 2, 7, 0];
    assert_eq!(profile.active_segment_stats(), Some((0, 7, 13)));
    profile.active_segment_counts = vec![4];
    assert_eq!(profile.active_segment_stats(), Some((4, 4, 4)));
}

#[test]
fn bands_cover_height() {
    assert_eq!(band_count(0), 0);
    assert_eq!(band_count(1), 1);
    assert_eq!(band_count(16), 1);
    assert_eq!(band_count(17), 2);
    assert_eq!(band_count(600), 38);
}
