use toyrender::error::LoadError;
use toyrender::model::{Loader, Model, Number};
use toyrender::vector3d::Vec3i;

fn value(n: &Number) -> f32 {
    std::str::from_utf8(n.text()).unwrap().parse::<f32>().unwrap()
}

#[test]
fn one_position_and_one_face() {
    let model = Loader::load_obj(b"v 1.0 2.0 3.0\nf 1/1/1 1/1/1 1/1/1\n").unwrap();
    assert_eq!(model.verticies.len(), 1);
    assert_eq!(value(&model.verticies[0].x), 1.0);
    assert_eq!(value(&model.verticies[0].y), 2.0);
    assert_eq!(value(&model.verticies[0].z), 3.0);
    assert_eq!(model.faces.len(), 1);
    assert_eq!(model.faces[0], [Vec3i::new(0, 0, 0); 3]);
    assert!(model.normals.is_empty());
    assert!(model.uv.is_empty());
    assert_eq!(model.diffuse.width(), 0);
    assert_eq!(model.diffuse.height(), 0);
}

#[test]
fn every_kind_of_line() {
    let text = b"# a comment\n\
        v -0.5 0.25 1e-3\n\
        v 1 2 3 4\n\
        vt 0.5 0.75 0.0\n\
        vn 0 0 -1\n\
        vn\t0 1 0\n\
        g group\n\
        \n\
        f 1/1/1 2/1/1 1/1/2\r\n\
        f 3/2/1 2/1/3 1/3/2";
    let model = Loader::load_obj(text).unwrap();
    assert_eq!(model.verticies.len(), 2);
    assert_eq!(model.verticies[0].x.text(), b"-0.5");
    assert_eq!(model.verticies[0].y.text(), b"0.25");
    assert_eq!(model.verticies[0].z.text(), b"1e-3");
    assert_eq!(value(&model.verticies[0].z), 0.001);
    assert_eq!(model.verticies[1].z.text(), b"3");
    assert_eq!(model.uv.len(), 1);
    assert_eq!(model.uv[0][0].text(), b"0.5");
    assert_eq!(model.uv[0][1].text(), b"0.75");
    // A tab after the letters starts no normal.
    assert_eq!(model.normals.len(), 1);
    assert_eq!(model.normals[0].z.text(), b"-1");
    assert_eq!(
        model.faces,
        vec![
            [Vec3i::new(0, 0, 0), Vec3i::new(1, 0, 0), Vec3i::new(0, 0, 1)],
            [Vec3i::new(2, 1, 0), Vec3i::new(1, 0, 2), Vec3i::new(0, 2, 1)],
        ]
    );
}

#[test]
fn an_empty_text_is_an_empty_mesh() {
    for text in [&b""[..], b"\n", b"\n\n\n", b"o name", b" v 1 2 3\n", b"vv 1 2 3\n", b"v\n", b"f\n"] {
        let model = Loader::load_obj(text).unwrap();
        assert!(model.verticies.is_empty());
        assert!(model.faces.is_empty());
        assert!(model.normals.is_empty());
        assert!(model.uv.is_empty());
    }
}

#[test]
fn words_are_split_at_any_white_space() {
    let model = Loader::load_obj(b"v \t 1 \x0b 2\x0c3 \r\nvt  4\t5").unwrap();
    assert_eq!(model.verticies[0].x.text(), b"1");
    assert_eq!(model.verticies[0].y.text(), b"2");
    assert_eq!(model.verticies[0].z.text(), b"3");
    assert_eq!(model.uv[0][0].text(), b"4");
    assert_eq!(model.uv[0][1].text(), b"5");
}

#[test]
fn indices_that_are_not_written_are_minus_one() {
    let model = Loader::load_obj(b"f 1 2/3 4/5/6\n").unwrap();
    assert_eq!(
        model.faces[0],
        [Vec3i::new(0, -1, -1), Vec3i::new(1, 2, -1), Vec3i::new(3, 4, 5)]
    );
}

#[test]
fn indices_are_not_checked_against_the_mesh() {
    let model = Loader::load_obj(b"f 0/-5/+7 2147483647/1/1 -2147483647/1/1\n").unwrap();
    assert_eq!(
        model.faces[0],
        [Vec3i::new(-1, -6, 6), Vec3i::new(2147483646, 0, 0), Vec3i::new(i32::MIN, 0, 0)]
    );
}

fn failure(text: &[u8]) -> LoadError {
    Loader::load_obj(text).unwrap_err()
}

#[test]
fn a_line_with_too_few_numbers() {
    assert_eq!(failure(b"v 1 2\n"), LoadError::MissingToken);
    assert_eq!(failure(b"v \n"), LoadError::MissingToken);
    assert_eq!(failure(b"vn 1 2\n"), LoadError::MissingToken);
    assert_eq!(failure(b"vt 1\n"), LoadError::MissingToken);
    assert_eq!(failure(b"f 1/1/1 2/2/2\n"), LoadError::MissingToken);
    assert_eq!(failure(b"f \n"), LoadError::MissingToken);
    assert_eq!(failure(b"v 1 2 3\nv 1\nv x y z\n"), LoadError::MissingToken);
}

#[test]
fn a_number_that_is_not_one() {
    assert_eq!(failure(b"v 1 2 x\n"), LoadError::MalformedNumber);
    assert_eq!(failure(b"v 1,0 2 3\n"), LoadError::MalformedNumber);
    assert_eq!(failure(b"vt 0.5 --1\n"), LoadError::MalformedNumber);
    assert_eq!(failure(b"vn 1 2 3e\n"), LoadError::MalformedNumber);
    assert_eq!(failure(b"f 1/1/1 2/2/2 a/b/c\n"), LoadError::MalformedNumber);
    assert_eq!(failure(b"f 1//1 2//2 3//3\n"), LoadError::MalformedNumber);
    assert_eq!(failure(b"f 1/ 2 3\n"), LoadError::MalformedNumber);
    assert_eq!(failure(b"f 1/2/3/4 2 3\n"), LoadError::MalformedNumber);
    assert_eq!(failure(b"f 1.0 2 3\n"), LoadError::MalformedNumber);
    assert_eq!(failure(b"f 2147483648 2 3\n"), LoadError::MalformedNumber);
    assert_eq!(failure(b"f -2147483648 2 3\n"), LoadError::MalformedNumber);
    assert_eq!(failure(b"f 99999999999999999999 2 3\n"), LoadError::MalformedNumber);
}

#[test]
fn the_first_fault_of_a_line_decides() {
    // The second word is no number; that the fourth is missing comes later.
    assert_eq!(failure(b"v x 2\n"), LoadError::MalformedNumber);
    assert_eq!(failure(b"v 1 x\n"), LoadError::MalformedNumber);
    assert_eq!(failure(b"f 1 x\n"), LoadError::MalformedNumber);
    assert_eq!(failure(b"f 1 2\nv x\n"), LoadError::MissingToken);
}

#[test]
fn numbers_are_those_that_the_language_reads() {
    let words = [
        "0", "1", "-1", "+1", "1.", ".5", "-.5", "+.5e3", "1.5", "1e5", "1E5", "1e+5", "1e-5",
        "1.e5", "1.5e-3", "007", "0.000581696", "inf", "-inf", "+inf", "Infinity", "INFINITY",
        "-infinity", "nan", "NaN", "-nan", "123456789012345678901234567890", "1e400", "", ".",
        "+", "-", "e", "e5", "1e", "1e+", "1e-", ".e5", "+.", "1.2.3", "1x", "x1", "0x10", "1_0",
        "1,5", "--1", "+-1", "1e5.0", "1ee5", "infinit", "infinityy", "in", "na", "nann", "i",
        "1f", "1.0f32", "١", "1 ",
    ];
    for word in words {
        let ours = Number::parse(word.as_bytes());
        let theirs = word.parse::<f32>();
        assert_eq!(ours.is_some(), theirs.is_ok(), "{:?}", word);
        if let Some(n) = ours {
            assert_eq!(n.text(), word.as_bytes());
            assert_eq!(n.clone(), n);
        }
    }
}

#[test]
fn indices_are_the_integers_that_the_language_reads() {
    let words = [
        "1", "+1", "-1", "0", "-0", "00012", "2147483647", "-2147483647", "2147483648",
        "4294967296", "", "+", "-", "1.0", "1e1", " 1", "1 ", "0x1", "１", "--1", "1-",
        "000000000000000000000000000001",
    ];
    for word in words {
        let text = format!("f {} 1 1\n", word);
        let ours = Loader::load_obj(text.as_bytes());
        match word.parse::<i32>() {
            Ok(v) if !word.contains(' ') => {
                assert_eq!(ours.unwrap().faces[0][0], Vec3i::new(v - 1, -1, -1), "{:?}", word)
            }
            _ => {
                if word.trim().is_empty() {
                    // The word is not there at all: the line is short of a word.
                    assert_eq!(ours.unwrap_err(), LoadError::MissingToken, "{:?}", word)
                } else if word.contains(' ') {
                    assert!(ours.is_ok(), "{:?}", word)
                } else {
                    assert_eq!(ours.unwrap_err(), LoadError::MalformedNumber, "{:?}", word)
                }
            }
        }
    }
}

#[test]
fn corners_are_looked_up_with_care() {
    let text = b"v 1 2 3\nv 4 5 6\nvt 0.1 0.2\nvn 0 0 1\nf 1/1/1 2/1/1 3/2/0\n";
    let model = Loader::load_obj(text).unwrap();
    assert_eq!(model.corner(0, 0), Some(Vec3i::new(0, 0, 0)));
    assert_eq!(model.corner(0, 2), Some(Vec3i::new(2, 1, -1)));
    assert_eq!(model.corner(0, 3), None);
    assert_eq!(model.corner(1, 0), None);

    assert_eq!(model.vertex(0, 1).unwrap().y.text(), b"5");
    assert!(model.vertex(0, 2).is_none());
    assert!(model.vertex(1, 0).is_none());
    assert!(model.vertex(0, 3).is_none());

    assert_eq!(model.uv(0, 0).unwrap()[1].text(), b"0.2");
    assert_eq!(model.uv(0, 1).unwrap()[0].text(), b"0.1");
    assert!(model.uv(0, 2).is_none());
    assert!(model.uv(5, 0).is_none());

    assert_eq!(model.normal(0, 0).unwrap().z.text(), b"1");
    assert!(model.normal(0, 2).is_none());
    assert!(model.normal(0, 7).is_none());
}

#[test]
fn the_default_mesh_is_empty() {
    let model = Model::default();
    assert!(model.verticies.is_empty());
    assert!(model.faces.is_empty());
    assert!(model.normals.is_empty());
    assert!(model.uv.is_empty());
    assert_eq!(model.diffuse.width(), 0);
    assert_eq!(model.corner(0, 0), None);
}

fn small_image() -> Vec<u8> {
    let mut bytes = vec![0u8; 18];
    bytes[2] = 2;
    bytes[12] = 1;
    bytes[14] = 1;
    bytes[16] = 24;
    bytes.extend_from_slice(&[3, 2, 1]);
    bytes
}

#[test]
fn a_mesh_with_its_texture() {
    let model = Loader::from_files(b"v 1 2 3\nf 1 1 1\n", &small_image()).unwrap();
    assert_eq!(model.verticies.len(), 1);
    assert_eq!(model.faces.len(), 1);
    assert_eq!(model.diffuse.width(), 1);
    assert_eq!(model.diffuse.height(), 1);
    assert_eq!(model.diffuse.get(0, 0), 0x010203);
}

#[test]
fn the_mesh_fails_before_the_texture() {
    let bad_image = [0u8; 3];
    assert_eq!(
        Loader::from_files(b"v 1 2\n", &bad_image).unwrap_err(),
        LoadError::MissingToken
    );
    assert_eq!(
        Loader::from_files(b"v 1 2 3\n", &bad_image).unwrap_err(),
        LoadError::Truncated
    );
    let mut unknown = small_image();
    unknown[2] = 1;
    assert_eq!(
        Loader::from_files(b"v 1 2 3\n", &unknown).unwrap_err(),
        LoadError::UnsupportedType
    );
    assert_eq!(
        Loader::from_files(b"f x\n", &small_image()).unwrap_err(),
        LoadError::MalformedNumber
    );
}
