use yarpt::scene_loader::{
    find_material, get_float, get_vec, load, parse_material, parse_transform, split_once,
    CameraText, LoadError, MaterialEntry, MaterialText, ObjectText, ShapeText, TransformText,
    Triple,
};
use yarpt::text::{
    contains_byte, drop_whitespace, end_of_word, find_byte, is_whitespace, is_word, same_text,
    skip_whitespace, split_tokens, starts_with, trim_span, Span,
};

const SCENE: &str = "# A small scene.
camera {
    transform: position 0 0 -5 rotation 0 0 0 scale 1 1 1
    focal_length: 1.5
    focal_plane: 5
    f_stop: 0.01
}

materials {
    red: diffuse 1 0 0 roughness 0.5 metallic 0 emissive 0
    light: diffuse 1 1 1 emissive 4
}

scene {
    sphere(
        material: red
        transform: position 0 0 0 rotation 0 0 0 scale 1 1 1
        radius: 1.25
    )
    box(
        material: light
        transform: position 0 3 0
        bounds: 2 0.1 2
    )
}
";

fn whole(text: &str) -> Span {
    Span { start: 0, end: text.len() }
}

fn word<'a>(text: &'a str, span: Span) -> &'a str {
    &text[span.start..span.end]
}

fn words(text: &str, triple: Triple) -> [&str; 3] {
    [word(text, triple.x), word(text, triple.y), word(text, triple.z)]
}

fn some_words(text: &str, triple: Option<Triple>) -> Option<[&str; 3]> {
    triple.map(|t| words(text, t))
}

fn some_word(text: &str, span: Option<Span>) -> Option<&str> {
    span.map(|s| word(text, s))
}

/// The span of the first line that begins, after its white space, with `start`.
fn line_of(text: &str, start: &str) -> Span {
    let mut offset = 0;
    for line in text.split('\n') {
        let trimmed = line.trim();
        if trimmed.starts_with(start) {
            let begin = offset + (line.len() - line.trim_start().len());
            return Span { start: begin, end: begin + trimmed.len() };
        }
        offset += line.len() + 1;
    }
    panic!("no line begins with {}", start);
}

#[test]
fn white_space_is_blank_and_tab_to_carriage_return() {
    for byte in 0..=255u8 {
        let expected = matches!(byte, 9 | 10 | 11 | 12 | 13 | 32);
        assert_eq!(is_whitespace(byte), expected, "byte {}", byte);
        if byte < 128 {
            assert_eq!(is_whitespace(byte), (byte as char).is_whitespace());
        }
    }
}

#[test]
fn scans_stop_where_they_should() {
    let text = b"  ab \t cd  ";
    assert_eq!(skip_whitespace(text, 0, text.len()), 2);
    assert_eq!(skip_whitespace(text, 2, text.len()), 2);
    assert_eq!(skip_whitespace(text, 4, text.len()), 7);
    assert_eq!(skip_whitespace(text, 9, text.len()), 11);
    assert_eq!(skip_whitespace(text, 4, 6), 6);
    assert_eq!(drop_whitespace(text, 0, text.len()), 9);
    assert_eq!(drop_whitespace(text, 0, 7), 4);
    assert_eq!(drop_whitespace(text, 4, 7), 4);
    assert_eq!(end_of_word(text, 2, text.len()), 4);
    assert_eq!(end_of_word(text, 7, 8), 8);
    assert_eq!(find_byte(text, b'c', 0, text.len()), 7);
    assert_eq!(find_byte(text, b'c', 0, 5), 5);
    assert_eq!(find_byte(text, b'z', 3, text.len()), text.len());
}

#[test]
fn trim_takes_the_white_space_off_both_ends() {
    let text = b" \t hello world \r\n";
    assert_eq!(trim_span(text, Span { start: 0, end: text.len() }), Span { start: 3, end: 14 });
    let blank = b" \t \n";
    assert_eq!(trim_span(blank, Span { start: 0, end: 4 }), Span { start: 4, end: 4 });
    assert_eq!(trim_span(blank, Span { start: 1, end: 1 }), Span { start: 1, end: 1 });
    for sample in ["", "x", "  x", "x  ", " a b ", "\u{b}a\u{c}", "\n\n"] {
        let trimmed = trim_span(sample.as_bytes(), whole(sample));
        assert_eq!(word(sample, trimmed), sample.trim());
    }
}

#[test]
fn words_and_prefixes_compare_bytes() {
    let text = b"camera {";
    let line = Span { start: 0, end: text.len() };
    assert!(starts_with(text, line, b"camera"));
    assert!(starts_with(text, line, b""));
    assert!(!starts_with(text, line, b"cameras"));
    assert!(!starts_with(text, Span { start: 0, end: 5 }, b"camera"));
    assert!(!starts_with(text, Span { start: 1, end: 8 }, b"camera"));
    assert!(is_word(text, Span { start: 0, end: 6 }, b"camera"));
    assert!(!is_word(text, line, b"camera"));
    assert!(!is_word(text, Span { start: 0, end: 6 }, b"camerb"));
    assert!(contains_byte(text, b'{', line));
    assert!(!contains_byte(text, b'{', Span { start: 0, end: 7 }));
    assert!(!contains_byte(text, b'}', line));
}

#[test]
fn same_text_compares_two_spans() {
    let text = b"red blue red re";
    assert!(same_text(text, Span { start: 0, end: 3 }, Span { start: 9, end: 12 }));
    assert!(!same_text(text, Span { start: 0, end: 3 }, Span { start: 4, end: 8 }));
    assert!(!same_text(text, Span { start: 0, end: 3 }, Span { start: 13, end: 15 }));
    assert!(!same_text(text, Span { start: 0, end: 3 }, Span { start: 5, end: 8 }));
    assert!(same_text(text, Span { start: 2, end: 2 }, Span { start: 7, end: 7 }));
}

#[test]
fn tokens_are_the_stretches_without_white_space() {
    for sample in ["", "   ", "a", " a  bb\tccc \n", "diffuse 1 0 0", "x\u{b}y", "1.5e-3  -2"] {
        let list = split_tokens(sample.as_bytes(), whole(sample));
        let found: Vec<&str> = list.iter().map(|&s| word(sample, s)).collect();
        let expected: Vec<&str> = sample.split_whitespace().collect();
        assert_eq!(found, expected, "sample {:?}", sample);
    }
    let text = b"ab cd ef";
    let inner = split_tokens(text, Span { start: 1, end: 7 });
    assert_eq!(
        inner,
        vec![Span { start: 1, end: 2 }, Span { start: 3, end: 5 }, Span { start: 6, end: 7 }]
    );
}

#[test]
fn values_are_taken_in_threes_and_singly() {
    let list = vec![
        Span { start: 0, end: 1 },
        Span { start: 2, end: 3 },
        Span { start: 4, end: 5 },
        Span { start: 6, end: 7 },
    ];
    assert_eq!(get_vec(&list, 0), Some(Triple { x: list[0], y: list[1], z: list[2] }));
    assert_eq!(get_vec(&list, 1), Some(Triple { x: list[1], y: list[2], z: list[3] }));
    assert_eq!(get_vec(&list, 2), None);
    assert_eq!(get_vec(&list, 4), None);
    assert_eq!(get_vec(&list, usize::MAX), None);
    assert_eq!(get_float(&list, 3), Some(list[3]));
    assert_eq!(get_float(&list, 4), None);
}

#[test]
fn split_once_parts_at_the_first_colon() {
    let text = "name: a:b";
    let (name, data) = split_once(text.as_bytes(), whole(text)).unwrap();
    assert_eq!(word(text, name), "name");
    assert_eq!(word(text, data), " a:b");
    assert_eq!(split_once(b"no colon", Span { start: 0, end: 8 }), None);
    let (name, data) = split_once(b":", Span { start: 0, end: 1 }).unwrap();
    assert_eq!((name, data), (Span { start: 0, end: 0 }, Span { start: 1, end: 1 }));
}

#[test]
fn material_line_is_read_name_by_name() {
    let text = " diffuse 1 0.5 0 roughness 0.25 metallic 1 emissive 3";
    let material = parse_material(text.as_bytes(), whole(text)).unwrap();
    assert_eq!(some_words(text, material.diffuse), Some(["1", "0.5", "0"]));
    assert_eq!(some_word(text, material.roughness), Some("0.25"));
    assert_eq!(some_word(text, material.metallic), Some("1"));
    assert_eq!(some_word(text, material.emissive), Some("3"));
}

#[test]
fn material_line_may_leave_values_out_and_hold_other_words() {
    let text = "shiny emissive 3 0.1 roughness 0.5";
    let material = parse_material(text.as_bytes(), whole(text)).unwrap();
    assert_eq!(material.diffuse, None);
    assert_eq!(material.metallic, None);
    assert_eq!(some_word(text, material.emissive), Some("3"));
    assert_eq!(some_word(text, material.roughness), Some("0.5"));
    let empty = parse_material(b"", Span { start: 0, end: 0 }).unwrap();
    assert_eq!(
        empty,
        MaterialText { diffuse: None, roughness: None, metallic: None, emissive: None }
    );
}

#[test]
fn a_later_value_replaces_an_earlier_one() {
    let text = "roughness 0.1 roughness 0.9";
    let material = parse_material(text.as_bytes(), whole(text)).unwrap();
    assert_eq!(some_word(text, material.roughness), Some("0.9"));
}

#[test]
fn a_name_takes_the_next_token_as_its_value_whatever_it_is() {
    let text = "roughness metallic 0.5";
    let material = parse_material(text.as_bytes(), whole(text)).unwrap();
    assert_eq!(some_word(text, material.roughness), Some("metallic"));
    assert_eq!(material.metallic, None);
}

#[test]
fn a_name_with_too_few_values_is_at_fault() {
    for text in ["diffuse 1 0", "diffuse", "roughness", "diffuse 1 0 0 metallic", "emissive 1 emissive"] {
        assert_eq!(parse_material(text.as_bytes(), whole(text)), None, "text {:?}", text);
    }
    for text in ["position 1 2", "scale", "position 0 0 0 rotation 1"] {
        assert_eq!(parse_transform(text.as_bytes(), whole(text)), None, "text {:?}", text);
    }
}

#[test]
fn transform_line_is_read_name_by_name() {
    let text = "position 0 1 -5 rotation 10 20 30 scale 1 2 3";
    let transform = parse_transform(text.as_bytes(), whole(text)).unwrap();
    assert_eq!(some_words(text, transform.position), Some(["0", "1", "-5"]));
    assert_eq!(some_words(text, transform.rotation), Some(["10", "20", "30"]));
    assert_eq!(some_words(text, transform.scale), Some(["1", "2", "3"]));
    let partial = "scale 2 2 2";
    let transform = parse_transform(partial.as_bytes(), whole(partial)).unwrap();
    assert_eq!(transform.position, None);
    assert_eq!(transform.rotation, None);
    assert_eq!(some_words(partial, transform.scale), Some(["2", "2", "2"]));
}

#[test]
fn materials_are_found_by_name_and_the_last_wins() {
    let text = "red blue red green";
    let plain = MaterialText { diffuse: None, roughness: None, metallic: None, emissive: None };
    let materials = vec![
        MaterialEntry { name: Span { start: 0, end: 3 }, material: plain },
        MaterialEntry { name: Span { start: 4, end: 8 }, material: plain },
        MaterialEntry { name: Span { start: 9, end: 12 }, material: plain },
    ];
    assert_eq!(find_material(text.as_bytes(), &materials, Span { start: 0, end: 3 }), Some(2));
    assert_eq!(find_material(text.as_bytes(), &materials, Span { start: 4, end: 8 }), Some(1));
    assert_eq!(find_material(text.as_bytes(), &materials, Span { start: 13, end: 18 }), None);
    assert_eq!(find_material(text.as_bytes(), &vec![], Span { start: 0, end: 3 }), None);
}

#[test]
fn a_whole_scene_is_read() {
    let scene = load(SCENE.as_bytes()).unwrap();
    let camera = scene.camera;
    assert_eq!(some_words(SCENE, camera.transform.position), Some(["0", "0", "-5"]));
    assert_eq!(some_words(SCENE, camera.transform.rotation), Some(["0", "0", "0"]));
    assert_eq!(some_words(SCENE, camera.transform.scale), Some(["1", "1", "1"]));
    assert_eq!(some_word(SCENE, camera.focal_length), Some("1.5"));
    assert_eq!(some_word(SCENE, camera.focal_plane), Some("5"));
    assert_eq!(some_word(SCENE, camera.f_stop), Some("0.01"));

    assert_eq!(scene.materials.len(), 2);
    assert_eq!(word(SCENE, scene.materials[0].name), "red");
    assert_eq!(some_words(SCENE, scene.materials[0].material.diffuse), Some(["1", "0", "0"]));
    assert_eq!(some_word(SCENE, scene.materials[0].material.roughness), Some("0.5"));
    assert_eq!(word(SCENE, scene.materials[1].name), "light");
    assert_eq!(some_word(SCENE, scene.materials[1].material.emissive), Some("4"));
    assert_eq!(scene.materials[1].material.roughness, None);

    assert_eq!(scene.objects.len(), 2);
    let sphere = scene.objects[0];
    assert_eq!(sphere.material, Some(0));
    match sphere.shape {
        ShapeText::Sphere(radius) => assert_eq!(some_word(SCENE, radius), Some("1.25")),
        other => panic!("not a sphere: {:?}", other),
    }
    assert_eq!(some_words(SCENE, sphere.transform.scale), Some(["1", "1", "1"]));
    let cube = scene.objects[1];
    assert_eq!(cube.material, Some(1));
    match cube.shape {
        ShapeText::Box(bounds) => assert_eq!(some_words(SCENE, bounds), Some(["2", "0.1", "2"])),
        other => panic!("not a box: {:?}", other),
    }
    assert_eq!(some_words(SCENE, cube.transform.position), Some(["0", "3", "0"]));
    assert_eq!(cube.transform.rotation, None);
    assert_eq!(cube.transform.scale, None);
}

#[test]
fn an_empty_text_is_an_empty_scene() {
    for text in ["", "\n\n", "# nothing\n", "   "] {
        let scene = load(text.as_bytes()).unwrap();
        assert!(scene.objects.is_empty());
        assert!(scene.materials.is_empty());
        assert_eq!(
            scene.camera,
            CameraText {
                transform: TransformText { position: None, rotation: None, scale: None },
                focal_length: None,
                focal_plane: None,
                f_stop: None,
            }
        );
    }
}

#[test]
fn an_object_starts_from_what_the_one_before_it_left() {
    let text = "materials {\n m: emissive 1\n}\nscene {\n sphere(\n material: m\n radius: 2\n transform: scale 3 3 3\n )\n box(\n )\n sphere(\n )\n}\n";
    let scene = load(text.as_bytes()).unwrap();
    assert_eq!(scene.objects.len(), 3);
    assert_eq!(scene.objects[1].shape, ShapeText::Box(None));
    assert_eq!(scene.objects[1].material, Some(0));
    assert_eq!(some_words(text, scene.objects[1].transform.scale), Some(["3", "3", "3"]));
    // Naming the shape anew forgets its size.
    assert_eq!(scene.objects[2].shape, ShapeText::Sphere(None));
    assert_eq!(scene.objects[2].material, Some(0));
}

#[test]
fn an_object_without_a_material_has_none() {
    let text = "scene {\nsphere(\nradius: 1\n)\n}\n";
    let scene = load(text.as_bytes()).unwrap();
    assert_eq!(
        scene.objects,
        vec![ObjectText {
            shape: ShapeText::Sphere(Some(Span { start: 24, end: 25 })),
            material: None,
            transform: TransformText { position: None, rotation: None, scale: None },
        }]
    );
}

#[test]
fn an_object_keeps_the_material_of_its_time() {
    let text = "materials {\nm: emissive 1\n}\nscene {\nsphere(\nmaterial: m\n)\n}\nmaterials {\nm: emissive 2\n}\nscene {\nsphere(\nmaterial: m\n)\n}\n";
    let scene = load(text.as_bytes()).unwrap();
    assert_eq!(scene.materials.len(), 2);
    assert_eq!(scene.objects[0].material, Some(0));
    assert_eq!(scene.objects[1].material, Some(1));
    assert_eq!(some_word(text, scene.materials[1].material.emissive), Some("2"));
}

#[test]
fn values_of_the_wrong_shape_are_passed_over() {
    let text = "scene {\nradius: 9\nsphere(\nbounds: 1 2 3\n)\nbox(\nradius: 4\n)\n}\n";
    let scene = load(text.as_bytes()).unwrap();
    assert_eq!(scene.objects[0].shape, ShapeText::Sphere(None));
    assert_eq!(scene.objects[1].shape, ShapeText::Box(None));
}

#[test]
fn comments_and_lines_outside_blocks_are_passed_over() {
    let text = "focal_length: 9\n# camera {\ncamera {\n# focal_length: 1\n  focal_length:   2  \r\n}\nfocal_plane: 3\n";
    let scene = load(text.as_bytes()).unwrap();
    assert_eq!(some_word(text, scene.camera.focal_length), Some("2"));
    assert_eq!(scene.camera.focal_plane, None);
}

#[test]
fn a_closing_brace_ends_the_block_on_its_own_line() {
    let text = "camera {\nf_stop: 1 }\nf_stop: 2\n}\n";
    let scene = load(text.as_bytes()).unwrap();
    assert_eq!(scene.camera.f_stop, None);
}

#[test]
fn the_last_line_needs_no_line_end() {
    let text = "camera {\nf_stop: 0.5";
    let scene = load(text.as_bytes()).unwrap();
    assert_eq!(some_word(text, scene.camera.f_stop), Some("0.5"));
}

#[test]
fn an_unknown_material_is_reported_with_its_line() {
    let text = "materials {\n red: diffuse 1 0 0\n}\nscene {\n sphere(\n  material: blue\n )\n}\n";
    assert_eq!(
        load(text.as_bytes()).unwrap_err(),
        LoadError::UnknownMaterial(line_of(text, "material: blue"))
    );
}

#[test]
fn a_material_name_is_taken_as_it_stands_before_the_colon() {
    let text = "materials {\nred : emissive 1\n}\nscene {\nsphere(\nmaterial: red\n)\n}\n";
    assert_eq!(
        load(text.as_bytes()).unwrap_err(),
        LoadError::UnknownMaterial(line_of(text, "material: red"))
    );
}

#[test]
fn a_missing_value_is_reported_with_its_line() {
    let text = "materials {\n red: diffuse 1 0\n}\n";
    assert_eq!(
        load(text.as_bytes()).unwrap_err(),
        LoadError::MissingValue(line_of(text, "red:"))
    );
    let text = "camera {\n transform: position 1\n}\n";
    assert_eq!(
        load(text.as_bytes()).unwrap_err(),
        LoadError::MissingValue(line_of(text, "transform:"))
    );
    let text = "scene {\n box(\n bounds: 1 2\n )\n}\n";
    assert_eq!(
        load(text.as_bytes()).unwrap_err(),
        LoadError::MissingValue(line_of(text, "bounds:"))
    );
    let text = "scene {\n sphere(\n transform: scale 1 1\n )\n}\n";
    assert_eq!(
        load(text.as_bytes()).unwrap_err(),
        LoadError::MissingValue(line_of(text, "transform:"))
    );
}

#[test]
fn reading_stops_at_the_first_line_at_fault() {
    let text = "materials {\n a: roughness\n b: metallic\n}\n";
    assert_eq!(
        load(text.as_bytes()).unwrap_err(),
        LoadError::MissingValue(line_of(text, "a:"))
    );
}

#[test]
fn every_span_lies_in_the_text() {
    let scene = load(SCENE.as_bytes()).unwrap();
    let inside = |span: Span| span.start <= span.end && span.end <= SCENE.len();
    for entry in &scene.materials {
        assert!(inside(entry.name));
        for span in [entry.material.roughness, entry.material.metallic, entry.material.emissive]
            .into_iter()
            .flatten()
        {
            assert!(inside(span));
        }
    }
    for object in &scene.objects {
        assert!(object.material.map_or(true, |m| m < scene.materials.len()));
    }
}
