use eggplant::graphics::loader::{
    keyword, parse_corner, parse_face, parse_index, parse_line, Face, Keyword, LineError,
    Statement, Vertex2, Vertex3, Wavefront,
};
use eggplant::graphics::text::{parse_number, split_fields, split_words};

fn strings(found: Vec<Vec<u8>>) -> Vec<String> {
    found.into_iter().map(|word| String::from_utf8(word).unwrap()).collect()
}

fn args(text: &str) -> Vec<Vec<u8>> {
    split_words(text.as_bytes())
}

fn corner(x: u32, y: u32, z: u32) -> Vertex3<u32> {
    Vertex3::new(x, y, z)
}

fn triple(c: &Vertex3<u32>) -> (u32, u32, u32) {
    (c.x, c.y, c.z)
}

fn face_triples(face: &Face) -> Vec<(u32, u32, u32)> {
    face.points.iter().map(triple).collect()
}

#[test]
fn vertex_constructors_keep_their_arguments() {
    let v = Vertex3::new(1.5f32, -2.0, 3.25);
    assert_eq!((v.x, v.y, v.z), (1.5, -2.0, 3.25));
    let t = Vertex2::new(7u32, 9);
    assert_eq!((t.u, t.v), (7, 9));
    let copy = v;
    assert_eq!(copy.x, v.x);
    let face = Face::new(corner(0, 1, 2), corner(3, 4, 5), corner(6, 7, 8));
    assert_eq!(face_triples(&face), vec![(0, 1, 2), (3, 4, 5), (6, 7, 8)]);
}

#[test]
fn words_are_runs_between_spaces() {
    assert_eq!(strings(split_words(b"f 1/2/3  4/5/6\t7/8/9\r\n")), vec!["f", "1/2/3", "4/5/6", "7/8/9"]);
    assert_eq!(strings(split_words(b"  v 0.5 -1 2")), vec!["v", "0.5", "-1", "2"]);
    assert_eq!(strings(split_words(b"single")), vec!["single"]);
    assert_eq!(strings(split_words(b"a\x0bb\x0cc")), vec!["a", "b", "c"]);
    assert!(split_words(b"").is_empty());
    assert!(split_words(b" \t \n").is_empty());
}

#[test]
fn fields_are_what_slashes_separate() {
    assert_eq!(strings(split_fields(b"1/2/3")), vec!["1", "2", "3"]);
    assert_eq!(strings(split_fields(b"1//3")), vec!["1", "", "3"]);
    assert_eq!(strings(split_fields(b"12")), vec!["12"]);
    assert_eq!(strings(split_fields(b"")), vec![""]);
    assert_eq!(strings(split_fields(b"a/")), vec!["a", ""]);
    assert_eq!(strings(split_fields(b"/")), vec!["", ""]);
    assert_eq!(strings(split_fields(b"//")), vec!["", "", ""]);
}

#[test]
fn keywords_are_told_apart() {
    assert_eq!(keyword(b"v"), Keyword::Position);
    assert_eq!(keyword(b"vt"), Keyword::TexCoord);
    assert_eq!(keyword(b"vn"), Keyword::Normal);
    assert_eq!(keyword(b"f"), Keyword::Face);
    assert_eq!(keyword(b"#"), Keyword::Other);
    assert_eq!(keyword(b"vp"), Keyword::Other);
    assert_eq!(keyword(b"ff"), Keyword::Other);
    assert_eq!(keyword(b"V"), Keyword::Other);
    assert_eq!(keyword(b"mtllib"), Keyword::Other);
    assert_eq!(keyword(b""), Keyword::Other);
}

#[test]
fn numbers_are_digits_that_fit() {
    assert_eq!(parse_number(b"0"), Some(0));
    assert_eq!(parse_number(b"42"), Some(42));
    assert_eq!(parse_number(b"00012"), Some(12));
    assert_eq!(parse_number(b"4294967295"), Some(4294967295));
    assert_eq!(parse_number(b"4294967296"), None);
    assert_eq!(parse_number(b"99999999999999999999"), None);
    assert_eq!(parse_number(b""), None);
    assert_eq!(parse_number(b"+5"), None);
    assert_eq!(parse_number(b"-5"), None);
    assert_eq!(parse_number(b"1a"), None);
    assert_eq!(parse_number(b"4294967296x"), None);
    assert_eq!(parse_number(b" 1"), None);
    assert_eq!(parse_number(b"1.0"), None);
}

#[test]
fn indices_count_from_zero() {
    assert_eq!(parse_index(b"1"), 0);
    assert_eq!(parse_index(b"10"), 9);
    assert_eq!(parse_index(b"4294967295"), 4294967294);
    assert_eq!(parse_index(b""), 0);
    assert_eq!(parse_index(b"abc"), 0);
    assert_eq!(parse_index(b"4294967296"), 0);
    assert_eq!(parse_index(b"0"), u32::MAX);
}

#[test]
fn corners_take_three_fields() {
    assert_eq!(parse_corner(b"1/2/3").map(|c| triple(&c)), Some((0, 1, 2)));
    assert_eq!(parse_corner(b"1//3").map(|c| triple(&c)), Some((0, 0, 2)));
    assert_eq!(parse_corner(b"//").map(|c| triple(&c)), Some((0, 0, 0)));
    assert_eq!(parse_corner(b"7/8/9/10").map(|c| triple(&c)), Some((6, 7, 8)));
    assert_eq!(parse_corner(b"x/5/y").map(|c| triple(&c)), Some((0, 4, 0)));
    assert!(parse_corner(b"1/2").is_none());
    assert!(parse_corner(b"1").is_none());
    assert!(parse_corner(b"").is_none());
}

#[test]
fn faces_take_three_corners() {
    let face = parse_face(&args("1/1/1 2/2/2 3/3/3")).unwrap();
    assert_eq!(face_triples(&face), vec![(0, 0, 0), (1, 1, 1), (2, 2, 2)]);
    let quad = parse_face(&args("1/2/3 4/5/6 7/8/9 10/11/12")).unwrap();
    assert_eq!(face_triples(&quad), vec![(0, 1, 2), (3, 4, 5), (6, 7, 8)]);
    let bad_fourth = parse_face(&args("1/2/3 4/5/6 7/8/9 junk")).unwrap();
    assert_eq!(face_triples(&bad_fourth), vec![(0, 1, 2), (3, 4, 5), (6, 7, 8)]);
    assert!(parse_face(&args("1/1/1 2/2/2")).is_none());
    assert!(parse_face(&args("")).is_none());
    assert!(parse_face(&args("1 2 3")).is_none());
    assert!(parse_face(&args("1/1/1 2/2 3/3/3")).is_none());
    assert!(parse_face(&args("1/1/1 2/2/2 3")).is_none());
}

#[test]
fn a_face_line_is_read_from_its_words() {
    let words = split_words(b"f 5/1/2 6/1/2 7/1/2");
    assert_eq!(keyword(&words[0]), Keyword::Face);
    let face = parse_face(&words[1..]).unwrap();
    assert_eq!(face_triples(&face), vec![(4, 0, 1), (5, 0, 1), (6, 0, 1)]);
}

#[test]
fn lines_say_what_their_keyword_announces() {
    match parse_line(b"v 1.0 -2.5 3") {
        Ok(Statement::Position(words)) => assert_eq!(strings(words), vec!["1.0", "-2.5", "3"]),
        _ => panic!("a position"),
    }
    match parse_line(b"  vt 0.25 0.75\r") {
        Ok(Statement::TexCoord(words)) => assert_eq!(strings(words), vec!["0.25", "0.75"]),
        _ => panic!("a texture coordinate"),
    }
    match parse_line(b"vn 0 0 1") {
        Ok(Statement::Normal(words)) => assert_eq!(strings(words), vec!["0", "0", "1"]),
        _ => panic!("a normal"),
    }
    match parse_line(b"v") {
        Ok(Statement::Position(words)) => assert!(words.is_empty()),
        _ => panic!("a position without coordinates"),
    }
    match parse_line(b"f 1/2/3 4/5/6 7/8/9") {
        Ok(Statement::Face(face)) => {
            assert_eq!(face_triples(&face), vec![(0, 1, 2), (3, 4, 5), (6, 7, 8)])
        },
        _ => panic!("a face"),
    }
    assert!(matches!(parse_line(b"# a comment"), Ok(Statement::Other)));
    assert!(matches!(parse_line(b"usemtl wood"), Ok(Statement::Other)));
    assert!(matches!(parse_line(b"fv 1/2/3 4/5/6 7/8/9"), Ok(Statement::Other)));
}

#[test]
fn lines_that_say_nothing_are_told() {
    assert!(matches!(parse_line(b""), Err(LineError::Empty)));
    assert!(matches!(parse_line(b" \t\r\n"), Err(LineError::Empty)));
    assert!(matches!(parse_line(b"f 1 2 3"), Err(LineError::Face)));
    assert!(matches!(parse_line(b"f 1/2/3 4/5/6"), Err(LineError::Face)));
    assert!(matches!(parse_line(b"f"), Err(LineError::Face)));
}

fn square() -> (Vec<Vertex3<f32>>, Vec<Vertex2<f32>>, Vec<Vertex3<f32>>) {
    let verts = vec![
        Vertex3::new(0.0, 0.0, 0.0),
        Vertex3::new(1.0, 0.0, 0.0),
        Vertex3::new(0.0, 1.0, 0.0),
        Vertex3::new(1.0, 1.0, 0.0),
    ];
    let uvs = vec![Vertex2::new(0.0, 0.0), Vertex2::new(1.0, 1.0)];
    let normals = vec![Vertex3::new(0.0, 0.0, 1.0)];
    (verts, uvs, normals)
}

#[test]
fn assemble_gives_each_distinct_corner_one_vertex() {
    let (verts, uvs, normals) = square();
    let faces = vec![
        Face::new(corner(0, 0, 0), corner(1, 1, 0), corner(2, 0, 0)),
        Face::new(corner(1, 1, 0), corner(3, 1, 0), corner(2, 0, 0)),
    ];
    let obj = Wavefront::assemble(verts, uvs, normals, &faces, 0.0f32).unwrap();
    assert_eq!(*obj.faces(), vec![0, 1, 2, 1, 3, 2]);
    assert_eq!(obj.vertex().len(), 4);
    let got: Vec<([f32; 3], [f32; 2], [f32; 3])> =
        obj.vertex().iter().map(|v| (v.pos, v.uv, v.norm)).collect();
    assert_eq!(
        got,
        vec![
            ([0.0, 0.0, 0.0], [0.0, 0.0], [0.0, 0.0, 1.0]),
            ([1.0, 0.0, 0.0], [1.0, 1.0], [0.0, 0.0, 1.0]),
            ([0.0, 1.0, 0.0], [0.0, 0.0], [0.0, 0.0, 1.0]),
            ([1.0, 1.0, 0.0], [1.0, 1.0], [0.0, 0.0, 1.0]),
        ]
    );
}

#[test]
fn assemble_tells_corners_apart_by_every_index() {
    let (verts, uvs, normals) = square();
    let faces = vec![Face::new(corner(0, 0, 0), corner(0, 1, 0), corner(0, 0, 0))];
    let obj = Wavefront::assemble(verts, uvs, normals, &faces, 0.0f32).unwrap();
    assert_eq!(*obj.faces(), vec![0, 1, 0]);
    assert_eq!(obj.vertex().len(), 2);
    assert_eq!(obj.vertex()[1].uv, [1.0, 1.0]);
}

#[test]
fn assemble_stands_in_for_what_the_file_lacks() {
    let verts = vec![Vertex3::new(1u32, 2, 3)];
    let faces = vec![Face::new(corner(0, 0, 0), corner(0, 0, 0), corner(0, 0, 0))];
    let obj = Wavefront::assemble(verts, Vec::new(), Vec::new(), &faces, 7u32).unwrap();
    assert_eq!(*obj.faces(), vec![0, 0, 0]);
    assert_eq!(obj.vertex().len(), 1);
    assert_eq!(obj.vertex()[0].pos, [1, 2, 3]);
    assert_eq!(obj.vertex()[0].uv, [7, 7]);
    assert_eq!(obj.vertex()[0].norm, [7, 7, 7]);

    let nothing = Wavefront::assemble(Vec::new(), Vec::new(), Vec::new(), &faces, 0.5f32).unwrap();
    assert_eq!(nothing.vertex()[0].pos, [0.5, 0.5, 0.5]);
}

#[test]
fn assemble_without_faces_is_empty() {
    let (verts, uvs, normals) = square();
    let obj = Wavefront::assemble(verts, uvs, normals, &[], 0.0f32).unwrap();
    assert!(obj.vertex().is_empty());
    assert!(obj.faces().is_empty());
}

#[test]
fn assemble_refuses_a_corner_out_of_reach() {
    let faces = vec![Face::new(corner(0, 0, 0), corner(4, 0, 0), corner(1, 0, 0))];
    let (verts, uvs, normals) = square();
    assert!(Wavefront::assemble(verts, uvs, normals, &faces, 0.0f32).is_none());
    let faces = vec![Face::new(corner(0, 2, 0), corner(1, 0, 0), corner(2, 0, 0))];
    let (verts, uvs, normals) = square();
    assert!(Wavefront::assemble(verts, uvs, normals, &faces, 0.0f32).is_none());
    let faces = vec![Face::new(corner(0, 0, 0), corner(1, 0, 0), corner(2, 0, 1))];
    let (verts, uvs, normals) = square();
    assert!(Wavefront::assemble(verts, uvs, normals, &faces, 0.0f32).is_none());
    let faces = vec![Face::new(corner(0, 0, 0), corner(1, 0, 0), corner(u32::MAX, 0, 0))];
    let (verts, uvs, normals) = square();
    assert!(Wavefront::assemble(verts, uvs, normals, &faces, 0.0f32).is_none());
    let faces = vec![Face::new(corner(0, 1, 0), corner(0, 0, 0), corner(0, 0, 0))];
    assert!(Wavefront::assemble(vec![Vertex3::new(1u32, 1, 1)], Vec::new(), Vec::new(), &faces, 0).is_none());
}
