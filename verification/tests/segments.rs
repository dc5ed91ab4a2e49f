use nd_renderer::segments::{edge_segments, EdgeSegment};

fn seg(edge: usize, start_vertex: usize, end_vertex: usize, step: i32, steps: i32) -> EdgeSegment {
    EdgeSegment { edge, start_vertex, end_vertex, step, steps }
}

#[test]
fn each_edge_is_cut_into_pieces() {
    assert_eq!(
        edge_segments(&vec![0, 1, 1, 2], 2),
        vec![seg(0, 0, 1, 0, 2), seg(0, 0, 1, 1, 2), seg(1, 1, 2, 0, 2), seg(1, 1, 2, 1, 2)]
    );
}

#[test]
fn one_subdivision_draws_whole_edges() {
    assert_eq!(
        edge_segments(&vec![3, 0, 2, 5], 1),
        vec![seg(0, 3, 0, 0, 1), seg(1, 2, 5, 0, 1)]
    );
}

#[test]
fn no_subdivisions_draw_nothing() {
    assert_eq!(edge_segments(&vec![0, 1, 1, 2], 0), vec![]);
    assert_eq!(edge_segments(&vec![0, 1, 1, 2], -3), vec![]);
}

#[test]
fn no_edges_draw_nothing() {
    assert_eq!(edge_segments(&vec![], 4), vec![]);
}

#[test]
fn pieces_of_an_edge_follow_one_another() {
    let segments = edge_segments(&vec![0, 1, 1, 2, 2, 0], 3);
    assert_eq!(segments.len(), 9);
    for k in 0..segments.len() {
        if k % 3 == 0 {
            assert_eq!(segments[k].step, 0);
        }
        if (k + 1) % 3 == 0 {
            assert_eq!(segments[k].step + 1, segments[k].steps);
        } else {
            assert_eq!(segments[k + 1].edge, segments[k].edge);
            assert_eq!(segments[k + 1].step, segments[k].step + 1);
        }
    }
}
