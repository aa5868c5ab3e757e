use andrew::text::fontconfig::{ConfigEvent, FontConfig, FontConfigError};
use andrew::text::{Glyph, TextRun};
use andrew::{Canvas, Endian};

fn glyph(left: i32, top: i32, right: i32, coverage: Vec<(u32, u32, u8)>) -> Glyph {
    Glyph { left, top, right, coverage }
}

#[test]
fn text_width_spans_first_to_last_glyph() {
    let run = TextRun::new((0, 0), [255, 0, 0, 0], vec![glyph(1, 0, 6, vec![]), glyph(7, 0, 12, vec![])]);
    assert_eq!(run.get_width(), 11);
}

#[test]
fn text_width_of_nothing_is_zero() {
    let run = TextRun::new((3, 3), [255, 0, 0, 0], vec![]);
    assert_eq!(run.get_width(), 0);
    let backwards = TextRun::new((0, 0), [255, 0, 0, 0], vec![glyph(5, 0, 9, vec![]), glyph(0, 0, 2, vec![])]);
    assert_eq!(backwards.get_width(), 0);
}

#[test]
fn text_width_ignores_position() {
    let glyphs = vec![glyph(-1, 2, 4, vec![(0, 0, 255)]), glyph(5, 1, 9, vec![])];
    let a = TextRun::new((0, 0), [255, 1, 2, 3], glyphs.clone());
    let b = TextRun::new((40, 17), [255, 1, 2, 3], glyphs);
    assert_eq!(a.get_width(), b.get_width());
    assert_eq!(a.get_width(), 10);
}

#[test]
fn text_composites_glyph_coverage() {
    let mut buf = vec![0u8; 64];
    let mut c = Canvas::new(&mut buf, 4, 4, 16, Endian::Big).unwrap();
    let g = glyph(1, -1, 3, vec![(0, 1, 255), (1, 1, 51), (0, 2, 0)]);
    let run = TextRun::new((0, 1), [255, 255, 255, 255], vec![g]);
    c.draw(&run);
    let px = |x: usize, y: usize| {
        let b = (y * 4 + x) * 4;
        [buf[b], buf[b + 1], buf[b + 2], buf[b + 3]]
    };
    assert_eq!(px(1, 1), [255, 255, 255, 255]);
    assert_eq!(px(2, 1), [255, 51, 51, 51]);
    assert_eq!(px(1, 2), [255, 0, 0, 0]);
    assert_eq!(px(0, 0), [0, 0, 0, 0]);
}

#[test]
fn text_moved_paints_the_same_shape_elsewhere() {
    let g = glyph(0, 0, 2, vec![(0, 0, 255), (1, 1, 255)]);
    let mut first = vec![0u8; 144];
    let mut second = vec![0u8; 144];
    Canvas::new(&mut first, 6, 6, 24, Endian::Big).unwrap().draw(&TextRun::new((1, 1), [255, 9, 9, 9], vec![g.clone()]));
    Canvas::new(&mut second, 6, 6, 24, Endian::Big).unwrap().draw(&TextRun::new((3, 2), [255, 9, 9, 9], vec![g]));
    for y in 0..4 {
        for x in 0..4 {
            let a = (y * 6 + x) * 4;
            let b = ((y + 1) * 6 + x + 2) * 4;
            assert_eq!(first[a..a + 4], second[b..b + 4]);
        }
    }
}

#[test]
fn text_off_canvas_is_clipped() {
    let mut buf = vec![0u8; 16];
    let mut c = Canvas::new(&mut buf, 2, 2, 8, Endian::Big).unwrap();
    let run = TextRun::new((0, 0), [255, 1, 1, 1], vec![glyph(-3, 0, 0, vec![(0, 0, 255), (4, 1, 255)]), glyph(0, 5, 1, vec![(0, 0, 255)])]);
    c.draw(&run);
    assert_eq!(buf, vec![0, 0, 0, 0, 0, 0, 0, 0, 0, 0, 0, 0, 255, 1, 1, 1]);
}

#[test]
fn config_from_events_tracks_open_elements() {
    let events = vec![
        ConfigEvent::Other,
        ConfigEvent::Open("fontconfig".to_string()),
        ConfigEvent::Open("dir".to_string()),
        ConfigEvent::Text("/usr/share/fonts".to_string()),
        ConfigEvent::Close,
        ConfigEvent::Open("cachedir".to_string()),
        ConfigEvent::Text("/var/cache".to_string()),
        ConfigEvent::Close,
        ConfigEvent::Open("dir".to_string()),
        ConfigEvent::Text("~/.fonts".to_string()),
        ConfigEvent::Close,
        ConfigEvent::Close,
    ];
    let config = FontConfig::from_events("/etc/fonts/fonts.conf".to_string(), &events).unwrap();
    assert_eq!(config.get_location(), "/etc/fonts/fonts.conf");
    assert_eq!(config.get_font_dirs(), vec!["/usr/share/fonts".to_string(), "~/.fonts".to_string()]);
}

#[test]
fn config_from_malformed_events_fails() {
    let events = vec![ConfigEvent::Open("fontconfig".to_string()), ConfigEvent::Malformed];
    assert!(matches!(FontConfig::from_events("x".to_string(), &events), Err(FontConfigError::Malformed)));
}

#[test]
fn config_parses_xml() {
    let xml = b"<?xml version=\"1.0\"?>\n<fontconfig>\n  <dir>/usr/share/fonts</dir>\n  <dir prefix=\"xdg\">fonts</dir>\n  <match><test><string>x</string></test></match>\n  <include><![CDATA[conf.d]]></include>\n</fontconfig>\n";
    let config = FontConfig::new("fonts.conf".to_string(), xml).unwrap();
    assert_eq!(config.get_location(), "fonts.conf");
    assert_eq!(config.get_font_dirs(), vec!["/usr/share/fonts".to_string(), "fonts".to_string()]);
}

#[test]
fn config_rejects_malformed_xml() {
    let xml = b"<fontconfig><dir>/usr/share/fonts</fontconfig>";
    assert!(matches!(FontConfig::new("fonts.conf".to_string(), xml), Err(FontConfigError::Malformed)));
}

#[test]
fn font_files_by_extension() {
    let files: Vec<String> = vec![
        "/usr/share/fonts/a.ttf",
        "/usr/share/fonts/b.otf",
        "/usr/share/fonts/.ttf",
        "/usr/share/fonts/c.TTF",
        "/usr/share/fonts/d.ttf.bak",
        "/usr/share/fonts/sub.ttf/e.pcf",
        "f.ttf",
        "ttf",
    ]
    .into_iter()
    .map(String::from)
    .collect();
    assert_eq!(
        FontConfig::get_fonts(&files),
        vec!["/usr/share/fonts/a.ttf".to_string(), "/usr/share/fonts/b.otf".to_string(), "f.ttf".to_string()]
    );
}

#[test]
fn font_dir_index_files() {
    let files: Vec<String> = vec!["/x/fonts.dir", "/x/fonts.dir.old", "/x/myfonts.dir", "fonts.dir", "/x/fonts.dir/a"]
        .into_iter()
        .map(String::from)
        .collect();
    assert_eq!(FontConfig::get_font_dir_files(&files), vec!["/x/fonts.dir".to_string(), "fonts.dir".to_string()]);
}

const INDEX: &[u8] = b"3\ncursor.pcf.gz -xfree86-cursor-medium-r-normal--0-0-0-0-p-0-adobe-fontspecific\nDejaVuSans.ttf -misc-DejaVu Sans-medium-r-normal--0-0-0-0-p-0-iso8859-1\nDejaVuSans-Bold.ttf -misc-DejaVu Sans-bold-r-normal--0-0-0-0-p-0-iso8859-1\n";

#[test]
fn family_fonts_from_index() {
    let second = b"DejaVuSans.ttf -misc-DejaVu Sans-medium-r-normal--0-0-0-0-p-0-iso8859-1\r\nOther.ttf -misc-DejaVuMono-medium-r-normal\r\n".to_vec();
    let files = vec![(b"/fonts/".to_vec(), INDEX.to_vec()), (b"/fonts/".to_vec(), second)];
    let found = FontConfig::get_regular_family_fonts(&files, b"DejaVu");
    assert_eq!(found, vec![b"/fonts/DejaVuSans.ttf".to_vec(), b"/fonts/Other.ttf".to_vec()]);
}

#[test]
fn family_must_begin_a_word() {
    let files = vec![(b"/a/".to_vec(), INDEX.to_vec())];
    assert_eq!(FontConfig::get_regular_family_fonts(&files, b"Sans"), vec![b"/a/DejaVuSans.ttf".to_vec()]);
    assert!(FontConfig::get_regular_family_fonts(&files, b"ejaVu").is_empty());
    assert!(FontConfig::get_regular_family_fonts(&files, b"DejaVu Sans").is_empty());
    assert!(FontConfig::get_regular_family_fonts(&files, b"").is_empty());
    assert_eq!(FontConfig::get_regular_family_fonts(&files, b"cursor"), vec![b"/a/cursor.pcf.gz".to_vec()]);
}

#[test]
fn family_fonts_of_no_index() {
    assert!(FontConfig::get_regular_family_fonts(&vec![], b"DejaVu").is_empty());
    let files = vec![(b"/b/".to_vec(), b"nospace-medium-r-normal\n\n".to_vec())];
    assert!(FontConfig::get_regular_family_fonts(&files, b"nospace").is_empty());
}
