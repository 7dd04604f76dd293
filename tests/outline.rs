use space_travel::obj::Face;
use space_travel::outline::{edge_faces, outline_edges};

fn face(a: usize, b: usize, c: usize) -> Face {
    Face { vertex_indices: [a, b, c] }
}

#[test]
fn edges_are_listed_once_with_their_faces() {
    let faces = [face(0, 1, 2), face(2, 1, 3)];
    let edges = edge_faces(&faces);
    let listed: Vec<(usize, usize, Vec<usize>)> =
        edges.iter().map(|e| (e.a, e.b, e.faces.clone())).collect();
    assert_eq!(
        listed,
        vec![
            (0, 1, vec![0]),
            (1, 2, vec![0, 1]),
            (0, 2, vec![0]),
            (1, 3, vec![1]),
            (2, 3, vec![1]),
        ]
    );
}

#[test]
fn outline_is_border_and_silhouette() {
    let faces = [face(0, 1, 2), face(2, 1, 3)];
    let edges = edge_faces(&faces);
    assert_eq!(outline_edges(&edges, &[true, true]), vec![(0, 1), (0, 2), (1, 3), (2, 3)]);
    assert_eq!(
        outline_edges(&edges, &[true, false]),
        vec![(0, 1), (1, 2), (0, 2)]
    );
    assert!(outline_edges(&edges, &[false, false]).is_empty());
}

#[test]
fn edges_of_three_faces_are_not_drawn() {
    let faces = [face(0, 1, 2), face(1, 0, 3), face(0, 1, 4)];
    let edges = edge_faces(&faces);
    assert_eq!(edges[0].faces, vec![0, 1, 2]);
    let drawn = outline_edges(&edges, &[true, false, true]);
    assert!(!drawn.contains(&(0, 1)));
}

#[test]
fn empty_mesh_has_no_edges() {
    let edges = edge_faces(&[]);
    assert!(edges.is_empty());
    assert!(outline_edges(&edges, &[]).is_empty());
}
