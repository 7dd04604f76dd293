use space_travel::obj::{parse_obj, LoadError, ObjMesh};
use space_travel::text::{chars_of, float_token};

fn faces_of(mesh: &ObjMesh) -> Vec<[usize; 3]> {
    mesh.faces.iter().map(|f| f.vertex_indices).collect()
}

fn text_of(cs: &[char]) -> String {
    cs.iter().collect()
}

#[test]
fn quad_splits_into_two_triangles() {
    let mesh = parse_obj("v 1 0 0\nv 0 1 0\nv 0 0 1\nv 1 1 1\nf 1 2 3 4").unwrap();
    assert_eq!(mesh.vertices.len(), 4);
    assert_eq!(faces_of(&mesh), vec![[0, 1, 2], [0, 2, 3]]);
}

#[test]
fn negative_indices_count_back_from_the_last_vertex() {
    let relative = parse_obj("v 1 0 0\nv 0 1 0\nv 0 0 1\nf -3 -2 -1").unwrap();
    let absolute = parse_obj("v 1 0 0\nv 0 1 0\nv 0 0 1\nf 1 2 3").unwrap();
    assert_eq!(faces_of(&relative), vec![[0, 1, 2]]);
    assert_eq!(faces_of(&relative), faces_of(&absolute));
}

#[test]
fn negative_indices_use_the_vertices_read_so_far() {
    let mesh = parse_obj("v 0 0 0\nv 1 0 0\nv 0 1 0\nf -1 -2 -3\nv 5 5 5\nf -1 -2 -3").unwrap();
    assert_eq!(faces_of(&mesh), vec![[2, 1, 0], [3, 2, 1]]);
}

#[test]
fn vertex_line_with_two_numbers_fails_with_its_line() {
    let r = parse_obj("v 1 0 0\nv 0 1\nv 0 0 1\nf 1 2 3");
    assert_eq!(r.unwrap_err(), LoadError::VertexLine { line: 2 });
}

#[test]
fn face_line_with_two_references_fails_with_its_line() {
    let r = parse_obj("v 1 0 0\nv 0 1 0\nv 0 0 1\n\nf 1 2");
    assert_eq!(r.unwrap_err(), LoadError::FaceLine { line: 5 });
}

#[test]
fn fan_triangulation_of_a_pentagon() {
    let mesh = parse_obj("v 0 0 0\nv 1 0 0\nv 2 1 0\nv 1 2 0\nv 0 1 0\nf 1 2 3 4 5").unwrap();
    assert_eq!(faces_of(&mesh), vec![[0, 1, 2], [0, 2, 3], [0, 3, 4]]);
}

#[test]
fn triangle_count_is_sum_of_face_sizes_less_two() {
    let text = "v 0 0 0\nv 1 0 0\nv 2 1 0\nv 1 2 0\nv 0 1 0\nv 3 3 3\n\
                f 1 2 3\nf 1 2 3 4\nf 1 2 3 4 5\nf 1 2 3 4 5 6";
    let mesh = parse_obj(text).unwrap();
    assert_eq!(mesh.faces.len(), 1 + 2 + 3 + 4);
}

#[test]
fn slash_suffixes_of_face_tokens_are_ignored() {
    let mesh = parse_obj("v 0 0 0\nv 1 0 0\nv 0 1 0\nf 1/4/7 2//8 3/6").unwrap();
    assert_eq!(faces_of(&mesh), vec![[0, 1, 2]]);
}

#[test]
fn comments_blank_lines_and_other_tags_are_skipped() {
    let text = "# a comment\n\n   \nvn 0 0 1\nvt 0 1\no thing\nv 1 2 3\r\nv 4 5 6\r\n\tv 7 8 9  \nusemtl x\nf 1 2 3\n";
    let mesh = parse_obj(text).unwrap();
    assert_eq!(mesh.vertices.len(), 3);
    assert_eq!(text_of(&mesh.vertices[2].x), "7");
    assert_eq!(text_of(&mesh.vertices[2].z), "9");
    assert_eq!(faces_of(&mesh), vec![[0, 1, 2]]);
}

#[test]
fn vertex_coordinates_keep_their_text() {
    let mesh = parse_obj("v -1.5 2e3 +0.25 1.0\nv 0 0 0\nv 1 1 1\nf 1 2 3").unwrap();
    let v = &mesh.vertices[0];
    assert_eq!(text_of(&v.x), "-1.5");
    assert_eq!(text_of(&v.y), "2e3");
    assert_eq!(text_of(&v.z), "+0.25");
    assert_eq!(text_of(&v.x).parse::<f32>().unwrap(), -1.5f32);
}

#[test]
fn bare_tag_after_trimming_is_skipped() {
    let mesh = parse_obj("v   \nv 0 0 0\nv 1 0 0\nv 0 1 0\nf 1 2 3").unwrap();
    assert_eq!(mesh.vertices.len(), 3);
}

#[test]
fn tab_after_tag_is_not_a_vertex_line() {
    let r = parse_obj("v\t1 2 3\nf 1 2 3");
    assert_eq!(r.unwrap_err(), LoadError::NoVertices);
}

#[test]
fn non_numeric_coordinate_fails() {
    let r = parse_obj("v 1 0 0\nv 0 x 0\nv 0 0 1\nf 1 2 3");
    assert_eq!(r.unwrap_err(), LoadError::Number { line: 2 });
}

#[test]
fn non_numeric_face_reference_fails() {
    let r = parse_obj("v 1 0 0\nv 0 1 0\nv 0 0 1\nf 1 two 3");
    assert_eq!(r.unwrap_err(), LoadError::Number { line: 4 });
    let r = parse_obj("v 1 0 0\nv 0 1 0\nv 0 0 1\nf 1 /2 3");
    assert_eq!(r.unwrap_err(), LoadError::Number { line: 4 });
    let r = parse_obj("v 1 0 0\nv 0 1 0\nv 0 0 1\nf 1 2 99999999999");
    assert_eq!(r.unwrap_err(), LoadError::Number { line: 4 });
}

#[test]
fn zero_and_too_negative_references_fail() {
    let r = parse_obj("v 1 0 0\nv 0 1 0\nv 0 0 1\nf 0 1 2");
    assert_eq!(r.unwrap_err(), LoadError::Index { line: 4 });
    let r = parse_obj("v 1 0 0\nv 0 1 0\nv 0 0 1\nf -4 1 2");
    assert_eq!(r.unwrap_err(), LoadError::Index { line: 4 });
}

#[test]
fn references_past_the_last_vertex_fail_with_the_face_line() {
    let r = parse_obj("v 1 0 0\nv 0 1 0\nv 0 0 1\nf 1 2 3\nf 1 2 4\nf 1 2 5");
    assert_eq!(r.unwrap_err(), LoadError::Index { line: 5 });
}

#[test]
fn forward_references_to_later_vertices_are_accepted() {
    let mesh = parse_obj("f 1 2 3\nv 1 0 0\nv 0 1 0\nv 0 0 1").unwrap();
    assert_eq!(faces_of(&mesh), vec![[0, 1, 2]]);
}

#[test]
fn no_vertices_and_no_faces_fail() {
    assert_eq!(parse_obj("").unwrap_err(), LoadError::NoVertices);
    assert_eq!(parse_obj("# nothing\n").unwrap_err(), LoadError::NoVertices);
    assert_eq!(parse_obj("v 1 2 3\n").unwrap_err(), LoadError::NoFaces);
}

#[test]
fn the_first_malformed_line_decides() {
    let r = parse_obj("v 1 0\nf 1");
    assert_eq!(r.unwrap_err(), LoadError::VertexLine { line: 1 });
}

#[test]
fn unicode_white_space_separates_words() {
    let mesh = parse_obj("v 1\u{3000}0\u{a0}0\nv 0 1 0\nv 0 0 1\nf 1 2 3\u{2003}").unwrap();
    assert_eq!(text_of(&mesh.vertices[0].y), "0");
    assert_eq!(faces_of(&mesh), vec![[0, 1, 2]]);
}

fn float_ok(s: &str) -> bool {
    let cs = chars_of(s);
    float_token(&cs, 0, cs.len())
}

#[test]
fn float_syntax_matches_f32_parsing() {
    let cases = [
        "0", "1.", ".5", "-2.5", "+3", "1e5", "1E-5", "2.5e+10", "inf", "-Infinity", "NaN",
        "+nan", ".", "", "-", "1e", "e5", "1.2.3", "0x10", "1_0", "in", "infinit", " 1",
        "1 ", "--1", "1e+", "nan1", "١",
    ];
    for s in cases {
        assert_eq!(float_ok(s), s.parse::<f32>().is_ok(), "{s}");
    }
}

#[test]
fn face_references_read_as_i32() {
    let mesh = parse_obj("v 1 0 0\nv 0 1 0\nv 0 0 1\nf +1 +2 +3").unwrap();
    assert_eq!(faces_of(&mesh), vec![[0, 1, 2]]);
    let r = parse_obj("v 1 0 0\nv 0 1 0\nv 0 0 1\nf 1 2 -2147483648");
    assert_eq!(r.unwrap_err(), LoadError::Index { line: 4 });
    let r = parse_obj("v 1 0 0\nv 0 1 0\nv 0 0 1\nf 1 2 -2147483649");
    assert_eq!(r.unwrap_err(), LoadError::Number { line: 4 });
    let r = parse_obj("v 1 0 0\nv 0 1 0\nv 0 0 1\nf 1 2 2147483647");
    assert_eq!(r.unwrap_err(), LoadError::Index { line: 4 });
    let r = parse_obj("v 1 0 0\nv 0 1 0\nv 0 0 1\nf 1 2 2147483648");
    assert_eq!(r.unwrap_err(), LoadError::Number { line: 4 });
    let r = parse_obj("v 1 0 0\nv 0 1 0\nv 0 0 1\nf 1 2 +");
    assert_eq!(r.unwrap_err(), LoadError::Number { line: 4 });
}
