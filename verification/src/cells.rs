use vstd::prelude::*;
use crate::color::{color_from_name, color_of_name, Color};
use crate::text::chars_of;

verus! {

/// One rendered terminal character: the Unicode scalar shown, paired
/// with the color it is shown in. The color is fully resolved.
pub type Cell = (char, Color);

/// The rendered representation of one entry: the cells of its label
/// line, and the rendered forms of its children, in order.
#[derive(Debug)]
pub struct Format {
    pub v: Vec<Cell>,
    pub childs: Vec<Format>,
}

/// A color as a formatter callback hands it back: a name, or a numeric
/// triple; not yet validated.
#[derive(Debug, Clone)]
pub enum RawColor {
    Named(String),
    Rgb(u8, u8, u8),
}

/// One cell record as a formatter callback hands it back: the
/// character, paired with the color it asks for.
pub type RawCell = (char, RawColor);

/// What a formatter callback returned, in its two shapes: a plain
/// string, or a sequence of cell records.
#[derive(Debug, Clone)]
pub enum FmtValue {
    Text(String),
    Cells(Vec<RawCell>),
}

/// An error in the configured formatting rules. Such an error aborts
/// the whole listing.
#[derive(Debug, Clone, PartialEq, Eq)]
pub enum FormatterError {
    /// The scripting engine reported an error: the callback threw, a
    /// required field was missing or had the wrong type, or the call
    /// itself failed. Carries the engine's description.
    Script(String),
    /// The callback returned neither a string nor a table of records.
    BadReturn,
    /// A cell record's text holds no character.
    EmptyCell,
    /// A color name that is none of the eight ANSI names. Carries the
    /// offending name.
    BadColorName(String),
    /// A color that is neither a name nor a table.
    BadColorValue,
}

impl FormatterError {
    /// A line of text describing the error, for the caller to show.
    pub fn describe(&self) -> (r: String)
        ensures
            match self {
                FormatterError::Script(m) => r@ == "formatter callback failed: "@ + m@,
                FormatterError::BadReturn => r@
                    == "formatter returned neither a string nor a table of cells"@,
                FormatterError::EmptyCell => r@ == "a cell record holds no character"@,
                FormatterError::BadColorName(n) => r@ == "not a color name: "@ + n@,
                FormatterError::BadColorValue => r@
                    == "a color must be a name or a table of three numbers"@,
            },
    {
        match self {
            FormatterError::Script(m) => String::from_str("formatter callback failed: ").concat(
                m.as_str(),
            ),
            FormatterError::BadReturn => String::from_str(
                "formatter returned neither a string nor a table of cells",
            ),
            FormatterError::EmptyCell => String::from_str("a cell record holds no character"),
            FormatterError::BadColorName(n) => String::from_str("not a color name: ").concat(
                n.as_str(),
            ),
            FormatterError::BadColorValue => String::from_str(
                "a color must be a name or a table of three numbers",
            ),
        }
    }
}

/// The cells of a plain text label: one cell per character, all in the
/// default color.
pub open spec fn text_cells(s: Seq<char>) -> Seq<Cell> {
    Seq::new(s.len(), |i: int| (s[i], Color::WHITE))
}

/// Whether a raw color is acceptable: a triple always, a name only
/// when it denotes one of the eight colors.
pub open spec fn raw_color_ok(rc: RawColor) -> bool {
    match rc {
        RawColor::Named(s) => color_of_name(s@) is Some,
        RawColor::Rgb(r, g, b) => true,
    }
}

/// The color a raw color resolves to, when it is acceptable.
pub open spec fn resolve_raw(rc: RawColor) -> Color {
    match rc {
        RawColor::Named(s) => color_of_name(s@)->Some_0,
        RawColor::Rgb(r, g, b) => Color::RGB(r, g, b),
    }
}

/// The cell a raw record normalizes to, when its color is acceptable.
pub open spec fn resolve_cell(rc: RawCell) -> Cell {
    (rc.0, resolve_raw(rc.1))
}

/// A format whose label is the given text, in the default color, with
/// no children.
pub fn format_from_text(s: &str) -> (r: Format)
    ensures
        r.v@ == text_cells(s@),
        r.childs@.len() == 0,
{
    let cs = chars_of(s);
    let mut v: Vec<Cell> = Vec::new();
    let n = cs.len();
    let mut i: usize = 0;
    while i < n
        invariant
            i <= n,
            n == cs@.len(),
            cs@ == s@,
            v@.len() == i,
            forall|k: int| 0 <= k < i ==> v@[k] == (s@[k], Color::WHITE),
        decreases n - i,
    {
        v.push((cs[i], Color::WHITE));
        i = i + 1;
    }
    assert(v@ =~= text_cells(s@));
    Format { v, childs: Vec::new() }
}

/// Normalizes what a callback returned into the canonical cell
/// sequence: text becomes default-colored cells; records keep their
/// character and resolve their color; the first unacceptable color
/// name fails the whole value.
#[verifier::loop_isolation(false)]
pub fn normalize(value: &FmtValue) -> (r: Result<Vec<Cell>, FormatterError>)
    ensures
        match value {
            FmtValue::Text(s) => r is Ok && r->Ok_0@ == text_cells(s@),
            FmtValue::Cells(cs) => {
                if forall|i: int| 0 <= i < cs@.len() ==> raw_color_ok(#[trigger] cs@[i].1) {
                    &&& r is Ok
                    &&& r->Ok_0@ == Seq::new(cs@.len(), |i: int| resolve_cell(cs@[i]))
                } else {
                    &&& r is Err
                    &&& {
                        let j = first_bad_color(cs@);
                        r->Err_0 matches FormatterError::BadColorName(nm) && cs@[j].1 matches
                            RawColor::Named(s) && nm@ == s@
                    }
                }
            },
        },
{
    match value {
        FmtValue::Text(s) => {
            let f = format_from_text(s.as_str());
            Ok(f.v)
        },
        FmtValue::Cells(cs) => {
            let n = cs.len();
            let mut out: Vec<Cell> = Vec::new();
            let mut i: usize = 0;
            while i < n
                invariant
                    i <= n,
                    n == cs@.len(),
                    forall|k: int| 0 <= k < i ==> raw_color_ok(#[trigger] cs@[k].1),
                    out@.len() == i,
                    forall|k: int| 0 <= k < i ==> out@[k] == resolve_cell(cs@[k]),
                decreases n - i,
            {
                let chr = cs[i].0;
                match &cs[i].1 {
                    RawColor::Named(nm) => {
                        match color_from_name(nm.as_str()) {
                            Some(c) => {
                                out.push((chr, c));
                            },
                            None => {
                                assert(!raw_color_ok(cs@[i as int].1));
                                proof {
                                    lemma_first_bad_color(cs@, i as int);
                                }
                                return Err(FormatterError::BadColorName(nm.clone()));
                            },
                        }
                    },
                    RawColor::Rgb(r, g, b) => {
                        out.push((chr, Color::RGB(*r, *g, *b)));
                    },
                }
                i = i + 1;
            }
            assert(out@ =~= Seq::new(cs@.len(), |i: int| resolve_cell(cs@[i])));
            Ok(out)
        },
    }
}

/// The index of the first record whose color is not acceptable.
pub open spec fn first_bad_color(cs: Seq<RawCell>) -> int {
    choose|j: int|
        0 <= j < cs.len() && !raw_color_ok(cs[j].1) && (forall|k: int|
            0 <= k < j ==> raw_color_ok(#[trigger] cs[k].1))
}

proof fn lemma_first_bad_color(cs: Seq<RawCell>, i: int)
    requires
        0 <= i < cs.len(),
        !raw_color_ok(cs[i].1),
        forall|k: int| 0 <= k < i ==> raw_color_ok(#[trigger] cs[k].1),
    ensures
        first_bad_color(cs) == i,
{
    assert(0 <= i < cs.len() && !raw_color_ok(cs[i].1) && (forall|k: int|
        0 <= k < i ==> raw_color_ok(#[trigger] cs[k].1)));
    let j = first_bad_color(cs);
    if j < i {
        assert(raw_color_ok(cs[j].1));
    }
    if j > i {
        assert(raw_color_ok(cs[i].1));
    }
}

} // verus!
