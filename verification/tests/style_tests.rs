use rook_terminal::style_sheet::{
    ansi_palette, apply_ansi_code, background_color, layout_line, prompt_text_color,
    selection_color, text_color, Color32, LineLayout, TextFormat,
};

fn base() -> TextFormat {
    TextFormat {
        color: text_color(),
        background: Color32::transparent(),
        italics: false,
        underline: None,
        strikethrough: None,
    }
}

fn apply(code: &str, f: TextFormat) -> TextFormat {
    let mut g = f;
    apply_ansi_code(code, &mut g, text_color(), Color32::transparent());
    g
}

#[test]
fn colours() {
    assert_eq!(text_color(), Color32::from_rgb(200, 200, 200));
    assert_eq!(prompt_text_color(), Color32::from_rgb(80, 250, 120));
    assert_eq!(selection_color(), Color32::from_rgba_premultiplied(100, 100, 100, 100));
    assert_eq!(background_color(), Color32::from_rgb(27, 27, 27));
    assert_eq!(Color32::transparent(), Color32 { r: 0, g: 0, b: 0, a: 0 });
}

#[test]
fn palette() {
    assert_eq!(ansi_palette(1, false), Color32::from_rgb(204, 36, 29));
    assert_eq!(ansi_palette(6, true), Color32::from_rgb(142, 192, 124));
    assert_eq!(ansi_palette(7, true), Color32::from_rgb(253, 244, 193));
}

#[test]
fn codes_set_colours() {
    assert_eq!(apply("31", base()).color, Color32::from_rgb(204, 36, 29));
    assert_eq!(apply("96", base()).color, Color32::from_rgb(142, 192, 124));
    assert_eq!(apply("44", base()).background, Color32::from_rgb(69, 133, 136));
    assert_eq!(apply("107", base()).background, Color32::from_rgb(253, 244, 193));
    let red = apply("31", base());
    assert_eq!(apply("39", red).color, text_color());
    let on_blue = apply("44", base());
    assert_eq!(apply("49", on_blue).background, Color32::transparent());
}

#[test]
fn codes_set_styles() {
    let red = apply("31", base());
    let u = apply("4", red);
    assert_eq!(u.underline, Some(Color32::from_rgb(204, 36, 29)));
    let s = apply("9", u);
    assert_eq!(s.strikethrough, Some(Color32::from_rgb(204, 36, 29)));
    let i = apply("3", s);
    assert!(i.italics);
    assert!(!apply("23", i).italics);
    assert_eq!(apply("24", i).underline, None);
    assert_eq!(apply("29", i).strikethrough, None);
}

#[test]
fn reset_code_restores_defaults() {
    let styled = apply("3", apply("4", apply("41", apply("32", base()))));
    assert_eq!(apply("0", styled), base());
}

#[test]
fn unknown_codes_change_nothing() {
    let red = apply("31", base());
    for code in ["1", "22", "", "abc", "031", "38", "1000", "50"] {
        assert_eq!(apply(code, red), red);
    }
}

#[test]
fn plain_lines_stay_plain() {
    match layout_line("no escapes here", text_color()) {
        LineLayout::Plain(s) => assert_eq!(s, "no escapes here"),
        LineLayout::Styled(_) => panic!("expected a plain line"),
    }
}

#[test]
fn styled_runs() {
    let red = apply("31", base());
    match layout_line("\x1b[31mred\x1b[0m ok", text_color()) {
        LineLayout::Styled(runs) => {
            assert_eq!(runs, vec![("red".to_string(), red), (" ok".to_string(), base())]);
        }
        LineLayout::Plain(_) => panic!("expected styled runs"),
    }
}

#[test]
fn several_codes_in_one_sequence() {
    let want = apply("4", apply("31", base()));
    match layout_line("a\x1b[31;4mb", text_color()) {
        LineLayout::Styled(runs) => {
            assert_eq!(runs, vec![("a".to_string(), base()), ("b".to_string(), want)]);
        }
        LineLayout::Plain(_) => panic!("expected styled runs"),
    }
}

#[test]
fn unterminated_escape_keeps_the_rest() {
    match layout_line("ab\x1b[31", text_color()) {
        LineLayout::Styled(runs) => {
            assert_eq!(runs, vec![("ab".to_string(), base()), ("ab\x1b[31".to_string(), base())]);
        }
        LineLayout::Plain(_) => panic!("expected styled runs"),
    }
}

#[test]
fn trailing_escape_adds_no_empty_run() {
    let cyan = apply("96", base());
    match layout_line("\x1b[96mX\x1b[0m", text_color()) {
        LineLayout::Styled(runs) => {
            assert_eq!(runs, vec![("X".to_string(), cyan)]);
        }
        LineLayout::Plain(_) => panic!("expected styled runs"),
    }
}

/// The layout as a loop over `&str` finds it: runs of text, each in the
/// format that the codes before it set.
fn reference_layout(line: &str) -> Option<Vec<(String, TextFormat)>> {
    if !line.contains("\x1b[") {
        return None;
    }
    let mut runs: Vec<(String, TextFormat)> = Vec::new();
    let mut current = base();
    let mut remaining: &str = line;
    while let Some(start) = remaining.find("\x1b[") {
        if start > 0 {
            runs.push((remaining[..start].to_string(), current));
        }
        let after: &str = &remaining[start + 2..];
        let Some(m) = after.find('m') else { break; };
        for code in after[..m].split(';') {
            apply_ansi_code(code, &mut current, text_color(), Color32::transparent());
        }
        remaining = &after[m + 1..];
    }
    if !remaining.is_empty() {
        runs.push((remaining.to_string(), current));
    }
    Some(runs)
}

#[test]
fn layout_agrees_with_the_str_loop() {
    let samples = [
        "", "plain", "\x1b[", "\x1b[m", "\x1b[0m", "a\x1b[31mb\x1b[0mc", "\x1b[31;1;4mx",
        "\x1b[3mé\x1b[9m\x1b[29mü", "x\x1b[31", "x\x1b[31\x1b[32my", "\x1b\x1b[34mz",
        "\x1b[;;31m..", "a\x1b[mb\x1b[", "m\x1b[91mm\x1b[mm", "\x1b[44m\x1b[49m\x1b[7mend",
        "ü\x1b[32mü\x1b[0mü", "\x1b[96mrook\x1b[0m",
    ];
    for s in samples {
        let got = match layout_line(s, text_color()) {
            LineLayout::Plain(p) => {
                assert_eq!(p, s);
                None
            }
            LineLayout::Styled(runs) => Some(runs),
        };
        assert_eq!(got, reference_layout(s), "layout of {:?}", s);
    }
}
