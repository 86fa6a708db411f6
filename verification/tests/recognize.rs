use stroke::recognize::{TemplateError, Templates};

/// A template file with the given points-per-stroke and templates, each a code
/// point and its strokes' points.
fn file(points_per_stroke: u8, templates: &[(u32, u8, usize)]) -> Vec<u8> {
    let mut bytes = b"SOSR".to_vec();
    bytes.push(1);
    bytes.push(points_per_stroke);
    bytes.extend([0, 0]);
    bytes.extend((templates.len() as u32).to_le_bytes());
    for (code, _, _) in templates {
        bytes.extend(code.to_le_bytes());
    }
    for (_, strokes, points) in templates {
        bytes.push(*strokes);
        bytes.extend(std::iter::repeat(128).take(*points));
    }
    bytes
}

#[test]
fn a_well_formed_file_parses() {
    let bytes = file(4, &[(0x4e00, 1, 8), (0x5341, 2, 16)]);
    let templates = Templates::parse(bytes).unwrap();
    assert_eq!(templates.len(), 2);
    assert_eq!(templates.points_per_stroke(), 4);
    let first = templates.entry(0);
    assert_eq!(first.glyph, '一');
    assert_eq!(first.strokes, 1);
    assert_eq!(first.offset, 12 + 8 + 1);
    let second = templates.entry(1);
    assert_eq!(second.glyph, '十');
    assert_eq!(second.offset, 12 + 8 + 1 + 8 + 1);
    assert_eq!(templates.point(second.offset), 128);
    assert_eq!(templates.widest(), 2);
}

#[test]
fn each_refusal_names_what_is_wrong() {
    assert_eq!(
        Templates::parse(b"not a template file at all".to_vec()).err(),
        Some(TemplateError::NotTemplates)
    );
    let mut bytes = file(4, &[]);
    bytes[4] = 2;
    assert_eq!(Templates::parse(bytes).err(), Some(TemplateError::Version(2)));
    assert_eq!(Templates::parse(file(1, &[])).err(), Some(TemplateError::PointsPerStroke(1)));
    assert_eq!(Templates::parse(file(33, &[])).err(), Some(TemplateError::PointsPerStroke(33)));
    let mut bytes = file(4, &[]);
    bytes[8..12].copy_from_slice(&(2_000_000u32).to_le_bytes());
    assert_eq!(Templates::parse(bytes).err(), Some(TemplateError::TooMany(2_000_000)));
    let mut bytes = file(4, &[]);
    bytes[8..12].copy_from_slice(&3u32.to_le_bytes());
    assert_eq!(Templates::parse(bytes).err(), Some(TemplateError::Truncated));
    assert_eq!(
        Templates::parse(file(4, &[(0xd800, 1, 8)])).err(),
        Some(TemplateError::NotACharacter(0xd800))
    );
    assert_eq!(
        Templates::parse(file(4, &[(0x4e00, 0, 0)])).err(),
        Some(TemplateError::NoStrokes('一'))
    );
    assert_eq!(
        Templates::parse(file(4, &[(0x4e00, 2, 8)])).err(),
        Some(TemplateError::NoStrokes('一'))
    );
    let mut bytes = file(4, &[(0x4e00, 1, 8)]);
    bytes.truncate(bytes.len() - 9);
    assert_eq!(Templates::parse(bytes).err(), Some(TemplateError::Truncated));
}

#[test]
fn a_truncated_synthetic_file_is_rejected() {
    let whole = file(6, &[(0x4e00, 1, 12), (0x4e8c, 2, 24), (0x4e09, 3, 36)]);
    assert!(Templates::parse(whole.clone()).is_ok());
    assert!(Templates::parse(whole[..whole.len() / 2].to_vec()).is_err());
    for k in 0..whole.len() {
        assert!(Templates::parse(whole[..k].to_vec()).is_err(), "cut at {k}");
    }
}

#[test]
fn refusals_read_as_before() {
    assert_eq!(TemplateError::NotTemplates.message(), "that is not a stroke template file");
    assert_eq!(
        TemplateError::Version(2).message(),
        "stroke templates are version 2, this build reads version 1"
    );
    assert_eq!(TemplateError::PointsPerStroke(40).message(), "40 points per stroke is not usable");
    assert_eq!(TemplateError::TooMany(2000000).message(), "2000000 templates is more than this can be");
    assert_eq!(TemplateError::Truncated.message(), "stroke templates are truncated");
    assert_eq!(TemplateError::NotACharacter(0xd800).message(), "U+D800 is not a character");
    assert_eq!(TemplateError::NotACharacter(0x1f).message(), "U+001F is not a character");
    assert_eq!(TemplateError::NotACharacter(0x110000).message(), "U+110000 is not a character");
    assert_eq!(TemplateError::NoStrokes('一').message(), "一 has no usable stroke template");
}

#[test]
fn candidates_are_within_three_strokes() {
    let bytes = file(2, &[(0x4e00, 1, 4), (0x5341, 2, 8), (0x53e3, 3, 12), (0x597d, 6, 24)]);
    let templates = Templates::parse(bytes).unwrap();
    assert_eq!(templates.candidates(1), vec![0, 1, 2]);
    assert_eq!(templates.candidates(5), vec![1, 2, 3]);
    assert_eq!(templates.candidates(20), Vec::<usize>::new());
}
