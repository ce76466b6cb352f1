use ab_glyph::Font;
use crazy_carding::error::TextError;
use crazy_carding::fonts::{Fonts, Style};

/// The smallest file that is a font: a table directory and the three tables
/// that every font must have, with no glyph outlines.
fn tiny_font(units_per_em: u16) -> Vec<u8> {
    let mut head = Vec::new();
    head.extend_from_slice(&0x0001_0000u32.to_be_bytes()); // version
    head.extend_from_slice(&0u32.to_be_bytes()); // revision
    head.extend_from_slice(&0u32.to_be_bytes()); // checksum adjustment
    head.extend_from_slice(&0x5F0F_3CF5u32.to_be_bytes()); // magic number
    head.extend_from_slice(&0u16.to_be_bytes()); // flags
    head.extend_from_slice(&units_per_em.to_be_bytes());
    head.extend_from_slice(&[0; 16]); // created, modified
    head.extend_from_slice(&[0; 8]); // bounding box
    head.extend_from_slice(&[0; 6]); // mac style, lowest size, direction hint
    head.extend_from_slice(&0u16.to_be_bytes()); // index to location format
    head.extend_from_slice(&0u16.to_be_bytes()); // glyph data format
    assert_eq!(head.len(), 54);

    let mut hhea = Vec::new();
    hhea.extend_from_slice(&0x0001_0000u32.to_be_bytes()); // version
    hhea.extend_from_slice(&800i16.to_be_bytes()); // ascender
    hhea.extend_from_slice(&(-200i16).to_be_bytes()); // descender
    hhea.extend_from_slice(&0i16.to_be_bytes()); // line gap
    hhea.extend_from_slice(&[0; 24]);
    hhea.extend_from_slice(&1u16.to_be_bytes()); // number of metrics
    assert_eq!(hhea.len(), 36);

    let mut maxp = Vec::new();
    maxp.extend_from_slice(&0x0000_5000u32.to_be_bytes()); // version
    maxp.extend_from_slice(&1u16.to_be_bytes()); // number of glyphs

    let tables: [(&[u8; 4], Vec<u8>); 3] = [(b"head", head), (b"hhea", hhea), (b"maxp", maxp)];
    let mut file = Vec::new();
    file.extend_from_slice(&0x0001_0000u32.to_be_bytes()); // TrueType outlines
    file.extend_from_slice(&3u16.to_be_bytes()); // number of tables
    file.extend_from_slice(&32u16.to_be_bytes()); // search range
    file.extend_from_slice(&1u16.to_be_bytes()); // entry selector
    file.extend_from_slice(&16u16.to_be_bytes()); // range shift
    let mut offset = 12 + 16 * tables.len() as u32;
    for (tag, data) in &tables {
        file.extend_from_slice(&tag[..]);
        file.extend_from_slice(&0u32.to_be_bytes()); // checksum
        file.extend_from_slice(&offset.to_be_bytes());
        file.extend_from_slice(&(data.len() as u32).to_be_bytes());
        offset += (data.len() as u32 + 3) / 4 * 4;
    }
    for (_, data) in &tables {
        file.extend_from_slice(data);
        while file.len() % 4 != 0 {
            file.push(0);
        }
    }
    file
}

#[test]
fn three_fonts_load_and_each_face_holds_its_own_file() {
    let (regular, italic, bold) = (tiny_font(1000), tiny_font(1024), tiny_font(2048));
    let fonts = Fonts::load(regular.clone(), italic.clone(), bold.clone()).unwrap();
    assert_eq!(fonts.regular.font_data(), regular);
    assert_eq!(fonts.italic.font_data(), italic);
    assert_eq!(fonts.bold.font_data(), bold);
    assert_eq!(fonts.face(Style::Regular).units_per_em(), Some(1000.0));
    assert_eq!(fonts.face(Style::Italic).units_per_em(), Some(1024.0));
    assert_eq!(fonts.face(Style::Bold).units_per_em(), Some(2048.0));
}

#[test]
fn first_file_that_is_not_a_font_fails_the_load() {
    let good = tiny_font(1000);
    let bad = b"not a font".to_vec();
    assert_eq!(
        Fonts::load(bad.clone(), good.clone(), good.clone()).unwrap_err(),
        TextError::AssetLoadFailure(Style::Regular)
    );
    assert_eq!(
        Fonts::load(good.clone(), bad.clone(), good.clone()).unwrap_err(),
        TextError::AssetLoadFailure(Style::Italic)
    );
    assert_eq!(
        Fonts::load(good.clone(), good.clone(), bad.clone()).unwrap_err(),
        TextError::AssetLoadFailure(Style::Bold)
    );
    assert_eq!(
        Fonts::load(good.clone(), bad.clone(), bad.clone()).unwrap_err(),
        TextError::AssetLoadFailure(Style::Italic)
    );
    assert_eq!(
        Fonts::load(Vec::new(), Vec::new(), Vec::new()).unwrap_err(),
        TextError::AssetLoadFailure(Style::Regular)
    );
}

#[test]
fn font_without_its_head_table_is_not_a_font() {
    let mut broken = tiny_font(1000);
    broken[12..16].copy_from_slice(b"xxxx");
    assert_eq!(
        Fonts::load(tiny_font(1000), tiny_font(1000), broken).unwrap_err(),
        TextError::AssetLoadFailure(Style::Bold)
    );
}
