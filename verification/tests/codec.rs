use tristrip::stripify;
use tristrip::unstripify;
use tristrip::Error;

const RESTART: u32 = 0xFFFFFFFF;

#[test]
fn empty_input_returns_empty_strip() {
    let out = stripify(&[], 10, RESTART).unwrap();
    assert!(out.is_empty());
    let out = stripify(&[], 10, 0).unwrap();
    assert!(out.is_empty());
}

#[test]
fn minimal_triangle_is_unchanged() {
    let out = stripify(&[0, 1, 2], 3, RESTART).unwrap();
    assert_eq!(out, vec![0, 1, 2]);
    let out = stripify(&[0, 1, 2], 3, 0).unwrap();
    assert_eq!(out, vec![0, 1, 2]);
}

#[test]
fn shared_edge_extends_strip_without_stitch() {
    let out = stripify(&[0, 1, 2, 1, 3, 2], 4, RESTART).unwrap();
    assert_eq!(out, vec![0, 1, 2, 3]);
    let out = stripify(&[0, 1, 2, 1, 3, 2], 4, 0).unwrap();
    assert_eq!(out, vec![0, 1, 2, 3]);
}

#[test]
fn disconnected_triangles_stitch_with_restart() {
    let out = stripify(&[0, 1, 2, 3, 4, 5], 6, RESTART).unwrap();
    assert!(out.contains(&RESTART));
    assert_eq!(out, vec![0, 1, 2, RESTART, 3, 4, 5]);
}

#[test]
fn disconnected_triangles_stitch_with_degenerates() {
    let out = stripify(&[0, 1, 2, 3, 4, 5], 6, 0).unwrap();
    // two connector entries (each repeating a neighbouring vertex) sit between
    // the vertex runs of the two triangles
    assert_eq!(out, vec![0, 1, 2, 2, 4, 4, 3, 5]);
}

#[test]
fn invalid_length_is_rejected() {
    assert_eq!(stripify(&[0, 1], 5, 0), Err(Error::InvalidInput));
    assert_eq!(stripify(&[0, 1, 2, 3], 5, RESTART), Err(Error::InvalidInput));
}

#[test]
fn strip_size_stays_within_bound() {
    // worst case: three mutually disconnected triangles
    let tris: Vec<u32> = vec![0, 1, 2, 3, 4, 5, 6, 7, 8];
    let out = stripify(&tris, 9, 0).unwrap();
    assert!(out.len() <= tris.len() / 3 * 5);
    assert_eq!(out.len(), 13);
    let out = stripify(&tris, 9, RESTART).unwrap();
    assert!(out.len() <= tris.len() / 3 * 5);
    assert_eq!(out.len(), 11);
}

#[test]
fn round_trip_with_restart_recovers_rotated_triangles() {
    let tris: Vec<u32> = vec![0, 1, 2, 1, 3, 2, 3, 4, 5];
    let strip = stripify(&tris, 6, RESTART).unwrap();
    let back = unstripify(&strip, RESTART).unwrap();
    assert_eq!(back.len(), tris.len());
    assert_eq!(back, vec![0, 1, 2, 2, 1, 3, 3, 4, 5]);
}

#[test]
fn round_trip_with_degenerates_recovers_rotated_triangles() {
    let tris: Vec<u32> = vec![0, 1, 2, 1, 3, 2, 3, 4, 5];
    let strip = stripify(&tris, 6, 0).unwrap();
    assert_eq!(strip, vec![0, 1, 2, 3, 3, 3, 3, 4, 5]);
    let back = unstripify(&strip, 0).unwrap();
    assert_eq!(back, vec![0, 1, 2, 2, 1, 3, 3, 4, 5]);
}

#[test]
fn round_trip_preserves_each_triangle_up_to_rotation() {
    let tris: Vec<u32> = vec![10, 11, 12, 11, 13, 12, 13, 14, 12, 20, 21, 22, 21, 23, 22];
    for &r in &[0u32, 0xFFFF, 0xFFFFFFFF] {
        let strip = stripify(&tris, 24, r).unwrap();
        assert!(strip.len() <= tris.len() / 3 * 5);
        let back = unstripify(&strip, r).unwrap();
        assert_eq!(back.len(), tris.len());
        for j in 0..tris.len() / 3 {
            let t = (tris[3 * j], tris[3 * j + 1], tris[3 * j + 2]);
            let d = (back[3 * j], back[3 * j + 1], back[3 * j + 2]);
            assert!(
                d == (t.0, t.1, t.2) || d == (t.1, t.2, t.0) || d == (t.2, t.0, t.1),
                "triangle {} changed: {:?} vs {:?}",
                j,
                d,
                t
            );
        }
    }
}

#[test]
fn unstripify_rejects_short_strips() {
    assert_eq!(unstripify(&[], 0), Err(Error::InvalidInput));
    assert_eq!(unstripify(&[7], 0), Err(Error::InvalidInput));
    assert_eq!(unstripify(&[7, 8], RESTART), Err(Error::InvalidInput));
}

#[test]
fn unstripify_alternates_winding() {
    let out = unstripify(&[0, 1, 2, 3], RESTART).unwrap();
    assert_eq!(out, vec![0, 1, 2, 2, 1, 3]);
}

#[test]
fn unstripify_restart_resets_run() {
    let out = unstripify(&[0, 1, 2, RESTART, 5, 6, 7], RESTART).unwrap();
    assert_eq!(out, vec![0, 1, 2, 5, 6, 7]);
}

#[test]
fn unstripify_skips_degenerate_connectors() {
    let out = unstripify(&[0, 1, 2, 2, 3], 0).unwrap();
    assert_eq!(out, vec![0, 1, 2]);
}

#[test]
fn degenerate_mode_keeps_vertex_zero() {
    // with restart_index == 0 an index value of 0 is an ordinary vertex
    let out = unstripify(&[2, 1, 0], 0).unwrap();
    assert_eq!(out, vec![2, 1, 0]);
}

#[test]
fn decoded_length_stays_within_bound() {
    let strip: Vec<u32> = vec![0, 1, 2, 3, 4, 5, 6];
    let out = unstripify(&strip, 0).unwrap();
    assert!(out.len() <= (strip.len() - 2) * 3);
    assert_eq!(out.len(), 15);
}
