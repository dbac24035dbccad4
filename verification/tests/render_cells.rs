use minexp::cells::{format_from_text, normalize, Cell, FmtValue, Format, FormatterError, RawColor};
use minexp::color::{color_from_name, Color};
use minexp::list::List;
use minexp::render::{render_grid, render_line};
use minexp::sort::SortBy;

fn to_string(v: &[char]) -> String {
    v.iter().collect()
}

fn esc_count(s: &str) -> usize {
    s.chars().filter(|c| *c == '\u{1b}').count()
}

fn plain_format(label: &str) -> Format {
    format_from_text(label)
}

#[test]
fn color_names_resolve_in_both_spellings() {
    assert_eq!(color_from_name("BLACK"), Some(Color::BLACK));
    assert_eq!(color_from_name("black"), Some(Color::BLACK));
    assert_eq!(color_from_name("red"), Some(Color::RED));
    assert_eq!(color_from_name("GREEN"), Some(Color::GREEN));
    assert_eq!(color_from_name("yellow"), Some(Color::YELLOW));
    assert_eq!(color_from_name("BLUE"), Some(Color::BLUE));
    assert_eq!(color_from_name("magenta"), Some(Color::MAGENTA));
    assert_eq!(color_from_name("CYAN"), Some(Color::CYAN));
    assert_eq!(color_from_name("white"), Some(Color::WHITE));
    assert_eq!(color_from_name("pink"), None);
    assert_eq!(color_from_name("Red"), None);
    assert_eq!(color_from_name(""), None);
}

#[test]
fn uniform_default_color_renders_without_escapes() {
    let cells: Vec<Cell> = vec![('a', Color::WHITE), ('b', Color::WHITE), ('c', Color::WHITE)];
    let out = to_string(&render_line(&cells));
    assert_eq!(out, "abc");
    assert_eq!(esc_count(&out), 0);
}

#[test]
fn uniform_other_color_renders_one_color_escape() {
    let cells: Vec<Cell> = vec![('a', Color::RED), ('b', Color::RED), ('c', Color::RED)];
    let out = to_string(&render_line(&cells));
    assert_eq!(out, "\u{1b}[31mabc\u{1b}[0m");
    // one color escape plus the closing reset
    assert_eq!(esc_count(&out), 2);
}

#[test]
fn alternating_colors_render_one_escape_per_cell() {
    let cells: Vec<Cell> = vec![('a', Color::RED), ('b', Color::GREEN), ('c', Color::RED)];
    let out = to_string(&render_line(&cells));
    assert_eq!(out, "\u{1b}[31ma\u{1b}[32mb\u{1b}[31mc\u{1b}[0m");
    assert_eq!(esc_count(&out), 4);
}

#[test]
fn rgb_colors_render_decimal_triples() {
    let cells: Vec<Cell> = vec![('x', Color::RGB(255, 0, 10))];
    let out = to_string(&render_line(&cells));
    assert_eq!(out, "\u{1b}[38;2;255;0;10mx\u{1b}[0m");
}

#[test]
fn plain_text_round_trips() {
    let f = plain_format("abc");
    assert_eq!(f.v, vec![('a', Color::WHITE), ('b', Color::WHITE), ('c', Color::WHITE)]);
    assert_eq!(f.childs.len(), 0);
    let out = to_string(&render_line(&f.v));
    assert_eq!(out, "abc");
}

#[test]
fn normalize_text_gives_default_cells() {
    let v = FmtValue::Text("hi".to_string());
    let cells = normalize(&v).unwrap();
    assert_eq!(cells, vec![('h', Color::WHITE), ('i', Color::WHITE)]);
}

#[test]
fn normalize_records_resolve_colors() {
    let v = FmtValue::Cells(vec![
        ('a', RawColor::Named("red".to_string())),
        ('b', RawColor::Rgb(1, 2, 3)),
    ]);
    let cells = normalize(&v).unwrap();
    assert_eq!(cells, vec![('a', Color::RED), ('b', Color::RGB(1, 2, 3))]);
}

#[test]
fn normalize_rejects_unknown_color_names() {
    let v = FmtValue::Cells(vec![
        ('a', RawColor::Named("red".to_string())),
        ('b', RawColor::Named("pink".to_string())),
    ]);
    match normalize(&v) {
        Err(FormatterError::BadColorName(n)) => assert_eq!(n, "pink"),
        other => panic!("unexpected result: {:?}", other),
    }
}

#[test]
fn grid_packs_rows_to_terminal_width() {
    // widths 5, 3 and 5 at terminal width 12 with a one-column margin:
    // slots of 6, two per row
    let fs = vec![plain_format("AAAAA"), plain_format("BBB"), plain_format("CCCCC")];
    let out = to_string(&render_grid(&fs, 12));
    assert_eq!(out, "AAAAA BBB   \nCCCCC \n");
}

#[test]
fn grid_never_packs_less_than_one_column() {
    let fs = vec![plain_format("WIDE LABEL"), plain_format("ALSO WIDE!")];
    let out = to_string(&render_grid(&fs, 4));
    assert_eq!(out, "WIDE LABEL \nALSO WIDE! \n");
}

#[test]
fn list_render_chooses_tree_or_grid() {
    let fs = vec![plain_format("a"), plain_format("b")];
    let grid = List {
        sort_by: SortBy::Name,
        recursive: 0,
        list: false,
        hidden: false,
        paths: vec![".".to_string()],
    };
    assert_eq!(grid.render(&fs, 4), "a b \n");
    let tree = List { list: true, ..grid };
    assert_eq!(tree.render(&fs, 4), "a\nb\n");
}

#[test]
fn tree_render_indents_children_with_tabs() {
    let child = plain_format("inner");
    let mut root = plain_format("outer");
    root.childs = vec![child];
    let mut out: Vec<char> = Vec::new();
    minexp::render::rec_format_format(&root, 0, &mut out);
    assert_eq!(to_string(&out), "outer\n\tinner\n");
}
