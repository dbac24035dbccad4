use vstd::prelude::*;
use crate::cells::{text_cells, Cell, Format};
use crate::color::{color_code, dec_spec, push_color_code, push_reset_code, reset_code, Color};

verus! {

/// The characters emitted for a sequence of cells entered with the
/// terminal showing color `cur`: a color escape before each cell whose
/// color differs from the color already showing, each cell's character,
/// and a reset at the end when the final color is not the default.
pub open spec fn render_spec(cells: Seq<Cell>, cur: Color) -> Seq<char>
    decreases cells.len(),
{
    if cells.len() == 0 {
        if cur == Color::WHITE {
            Seq::empty()
        } else {
            reset_code()
        }
    } else {
        let c = cells[0];
        (if c.1 == cur {
            Seq::<char>::empty()
        } else {
            color_code(c.1)
        }) + seq![c.0] + render_spec(cells.drop_first(), c.1)
    }
}

/// Renders one label line with color-run compression: escapes are
/// emitted only where the color changes, never per character.
#[verifier::loop_isolation(false)]
pub fn render_line(cells: &Vec<Cell>) -> (out: Vec<char>)
    ensures
        out@ == render_spec(cells@, Color::WHITE),
{
    let mut out: Vec<char> = Vec::new();
    let mut cur = Color::WHITE;
    let n = cells.len();
    let mut i: usize = 0;
    proof {
        assert(cells@.skip(0) =~= cells@);
    }
    while i < n
        invariant
            i <= n,
            render_spec(cells@, Color::WHITE) == out@ + render_spec(
                cells@.skip(i as int),
                cur,
            ),
        decreases n - i,
    {
        let c = cells[i];
        assert(cells@.skip(i as int)[0] == cells@[i as int]);
        assert(cells@.skip(i as int).drop_first() =~= cells@.skip(i + 1));
        if !(c.1 == cur) {
            push_color_code(&mut out, &c.1);
            cur = c.1;
        }
        out.push(c.0);
        i = i + 1;
    }
    assert(cells@.skip(n as int) =~= Seq::<Cell>::empty());
    if !(cur == Color::WHITE) {
        push_reset_code(&mut out);
    } else {
        assert(out@ + render_spec(cells@.skip(n as int), cur) =~= out@);
    }
    out
}

/// A run of `n` tab characters.
pub open spec fn tabs(n: int) -> Seq<char>
    decreases n,
{
    if n <= 0 {
        Seq::empty()
    } else {
        tabs(n - 1).push('\t')
    }
}

/// A run of `n` spaces.
pub open spec fn pad(n: int) -> Seq<char>
    decreases n,
{
    if n <= 0 {
        Seq::empty()
    } else {
        pad(n - 1).push(' ')
    }
}

/// The indentation depth below `d`: one more level, held at the
/// numeric limit in the (unreachable in practice) extreme.
pub open spec fn next_depth(d: u64) -> u64 {
    if d == u64::MAX {
        d
    } else {
        (d + 1) as u64
    }
}

/// The recursive (tree) rendering of one format: its line behind `d`
/// tabs, then each child's tree one level deeper, depth-first.
pub open spec fn tree_spec(f: Format, d: u64) -> Seq<char>
    decreases f,
{
    tabs(d as int) + render_spec(f.v@, Color::WHITE) + seq!['\n'] + forest_spec(
        f.childs@,
        next_depth(d),
    )
}

/// The tree renderings of a run of formats, one after the other.
pub open spec fn forest_spec(fs: Seq<Format>, d: u64) -> Seq<char>
    decreases fs,
{
    if fs.len() == 0 {
        Seq::empty()
    } else {
        tree_spec(fs[0], d) + forest_spec(fs.drop_first(), d)
    }
}

fn push_tabs(out: &mut Vec<char>, d: u64)
    ensures
        final(out)@ == old(out)@ + tabs(d as int),
{
    let mut k: u64 = 0;
    while k < d
        invariant
            k <= d,
            out@ == old(out)@ + tabs(k as int),
        decreases d - k,
    {
        out.push('\t');
        k = k + 1;
    }
}

/// Appends the tree rendering of `fmt` at depth `depth` to `out`: the
/// label line behind one tab per depth level, then the children.
#[verifier::loop_isolation(false)]
pub fn rec_format_format(fmt: &Format, depth: u64, out: &mut Vec<char>)
    ensures
        final(out)@ == old(out)@ + tree_spec(*fmt, depth),
    decreases *fmt,
{
    push_tabs(out, depth);
    let line = render_line(&fmt.v);
    let mut j: usize = 0;
    while j < line.len()
        invariant
            j <= line@.len(),
            out@ == old(out)@ + tabs(depth as int) + line@.take(j as int),
        decreases line@.len() - j,
    {
        out.push(line[j]);
        assert(out@ =~= old(out)@ + tabs(depth as int) + line@.take(j + 1 as int));
        j = j + 1;
    }
    assert(line@.take(line@.len() as int) =~= line@);
    out.push('\n');
    let d2 = if depth == u64::MAX {
        depth
    } else {
        depth + 1
    };
    let n = fmt.childs.len();
    let mut i: usize = 0;
    assert(fmt.childs@.skip(0) =~= fmt.childs@);
    assert(out@ + forest_spec(fmt.childs@, d2) =~= old(out)@ + tree_spec(*fmt, depth));
    while i < n
        invariant
            i <= n,
            out@ + forest_spec(fmt.childs@.skip(i as int), d2) == old(out)@ + tree_spec(
                *fmt,
                depth,
            ),
        decreases n - i,
    {
        assert(fmt.childs@.skip(i as int)[0] == fmt.childs@[i as int]);
        assert(fmt.childs@.skip(i as int).drop_first() =~= fmt.childs@.skip(i + 1));
        proof {
            assert(decreases_to!(*fmt => fmt.childs@[i as int]));
        }
        rec_format_format(&fmt.childs[i], d2, out);
        i = i + 1;
    }
    assert(fmt.childs@.skip(n as int) =~= Seq::<Format>::empty());
    assert(out@ + forest_spec(fmt.childs@.skip(n as int), d2) =~= out@);
}

/// Appends the characters of `xs` to `out`.
fn append_chars(out: &mut Vec<char>, xs: &Vec<char>)
    ensures
        final(out)@ == old(out)@ + xs@,
{
    let n = xs.len();
    let mut j: usize = 0;
    while j < n
        invariant
            j <= n,
            n == xs@.len(),
            out@ == old(out)@ + xs@.take(j as int),
        decreases n - j,
    {
        out.push(xs[j]);
        assert(out@ =~= old(out)@ + xs@.take(j + 1 as int));
        j = j + 1;
    }
    assert(old(out)@ + xs@.take(n as int) =~= old(out)@ + xs@);
}

fn push_pad(out: &mut Vec<char>, k: usize)
    ensures
        final(out)@ == old(out)@ + pad(k as int),
{
    let mut j: usize = 0;
    while j < k
        invariant
            j <= k,
            out@ == old(out)@ + pad(j as int),
        decreases k - j,
    {
        out.push(' ');
        j = j + 1;
    }
}

/// The length of the longest label among the formats.
pub open spec fn max_label(fs: Seq<Format>) -> int
    decreases fs.len(),
{
    if fs.len() == 0 {
        0
    } else {
        let m = max_label(fs.drop_first());
        if fs[0].v@.len() >= m {
            fs[0].v@.len() as int
        } else {
            m
        }
    }
}

/// No label is longer than the longest one.
pub proof fn lemma_max_label_ge(fs: Seq<Format>, j: int)
    requires
        0 <= j < fs.len(),
    ensures
        fs[j].v@.len() <= max_label(fs),
        max_label(fs) >= 0,
    decreases fs.len(),
{
    if j == 0 {
        lemma_max_label_nonneg(fs.drop_first());
    } else {
        lemma_max_label_ge(fs.drop_first(), j - 1);
    }
}

pub proof fn lemma_max_label_nonneg(fs: Seq<Format>)
    ensures
        max_label(fs) >= 0,
    decreases fs.len(),
{
    if fs.len() > 0 {
        lemma_max_label_nonneg(fs.drop_first());
    }
}

/// One grid slot: the rendered label, padded with spaces to width `w`.
pub open spec fn grid_cell(f: Format, w: int) -> Seq<char> {
    render_spec(f.v@, Color::WHITE) + pad(w - f.v@.len())
}

/// The grid emission from a run of formats, with `cur` slots already
/// filled on the open row: a row break before each entry that would
/// pass the per-row capacity.
pub open spec fn grid_from(fs: Seq<Format>, w: int, cap: int, cur: int) -> Seq<char>
    decreases fs.len(),
{
    if fs.len() == 0 {
        Seq::empty()
    } else if cur >= cap {
        seq!['\n'] + grid_cell(fs[0], w) + grid_from(fs.drop_first(), w, cap, 1)
    } else {
        grid_cell(fs[0], w) + grid_from(fs.drop_first(), w, cap, cur + 1)
    }
}

/// The width-packed grid rendering: every slot is as wide as the
/// longest label plus a one-column margin; the number of slots per row
/// is the terminal width divided by the slot width, and at least one;
/// a final newline closes the last row.
pub open spec fn grid_spec(fs: Seq<Format>, cols: u16) -> Seq<char> {
    let w = max_label(fs) + 1;
    let q = (cols as int) / w;
    let cap = if q >= 1 {
        q
    } else {
        1
    };
    grid_from(fs, w, cap, 0) + seq!['\n']
}

/// Renders a flat listing as a grid fitting a terminal `cols` columns
/// wide.
#[verifier::loop_isolation(false)]
pub fn render_grid(fs: &Vec<Format>, cols: u16) -> (out: Vec<char>)
    requires
        forall|i: int| 0 <= i < fs@.len() ==> (#[trigger] fs@[i].v)@.len() < usize::MAX,
    ensures
        out@ == grid_spec(fs@, cols),
{
    let n = fs.len();
    // the longest label, scanned from the back to follow the
    // head-first recursion of max_label
    let mut m: usize = 0;
    let mut i: usize = n;
    assert(fs@.skip(n as int) =~= Seq::<Format>::empty());
    while i > 0
        invariant
            i <= n,
            m < usize::MAX,
            m == max_label(fs@.skip(i as int)),
        decreases i,
    {
        i = i - 1;
        assert(fs@.skip(i as int)[0] == fs@[i as int]);
        assert(fs@.skip(i as int).drop_first() =~= fs@.skip(i + 1));
        if fs[i].v.len() >= m {
            m = fs[i].v.len();
        }
    }
    assert(fs@.skip(0) =~= fs@);
    let w = m + 1;
    let q = (cols as usize) / w;
    let cap = if q >= 1 {
        q
    } else {
        1usize
    };
    let mut out: Vec<char> = Vec::new();
    let mut current: usize = 0;
    let mut k: usize = 0;
    assert(out@ + grid_from(fs@, w as int, cap as int, 0) =~= grid_from(
        fs@,
        w as int,
        cap as int,
        0,
    ));
    while k < n
        invariant
            k <= n,
            current <= cap,
            grid_from(fs@, w as int, cap as int, 0) == out@ + grid_from(
                fs@.skip(k as int),
                w as int,
                cap as int,
                current as int,
            ),
        decreases n - k,
    {
        assert(fs@.skip(k as int)[0] == fs@[k as int]);
        assert(fs@.skip(k as int).drop_first() =~= fs@.skip(k + 1));
        if current >= cap {
            out.push('\n');
            current = 0;
        }
        let line = render_line(&fs[k].v);
        append_chars(&mut out, &line);
        proof {
            lemma_max_label_ge(fs@, k as int);
        }
        let dif = w - fs[k].v.len();
        push_pad(&mut out, dif);
        current = current + 1;
        k = k + 1;
    }
    assert(fs@.skip(n as int) =~= Seq::<Format>::empty());
    assert(out@ + grid_from(fs@.skip(n as int), w as int, cap as int, current as int) =~= out@);
    out.push('\n');
    assert(out@ =~= grid_spec(fs@, cols));
    out
}

/// The number of escape characters in a character run. Every escape
/// sequence the renderer emits starts with exactly one of them.
pub open spec fn esc_count(s: Seq<char>) -> int
    decreases s.len(),
{
    if s.len() == 0 {
        0
    } else {
        (if s[0] == '\u{1b}' {
            1int
        } else {
            0int
        }) + esc_count(s.drop_first())
    }
}

pub proof fn lemma_esc_count_concat(a: Seq<char>, b: Seq<char>)
    ensures
        esc_count(a + b) == esc_count(a) + esc_count(b),
    decreases a.len(),
{
    if a.len() == 0 {
        assert(a + b =~= b);
    } else {
        assert((a + b).drop_first() =~= a.drop_first() + b);
        assert((a + b)[0] == a[0]);
        lemma_esc_count_concat(a.drop_first(), b);
    }
}

proof fn lemma_esc_single(c: char)
    ensures
        esc_count(seq![c]) == if c == '\u{1b}' {
            1int
        } else {
            0int
        },
{
    assert(seq![c].len() == 1);
    assert(seq![c][0] == c);
    assert(seq![c].drop_first() =~= Seq::<char>::empty());
    assert(esc_count(Seq::<char>::empty()) == 0);
}

proof fn lemma_dec_no_esc(n: int)
    ensures
        esc_count(dec_spec(n)) == 0,
    decreases n,
{
    if n <= 9 {
        lemma_esc_single(crate::color::digit_char(n));
    } else {
        lemma_dec_no_esc(n / 10);
        assert(dec_spec(n) =~= dec_spec(n / 10) + seq![crate::color::digit_char(n % 10)]);
        lemma_esc_count_concat(dec_spec(n / 10), seq![crate::color::digit_char(n % 10)]);
        lemma_esc_single(crate::color::digit_char(n % 10));
    }
}

/// Every color escape holds exactly one escape character.
pub proof fn lemma_code_one_esc(c: Color)
    ensures
        esc_count(color_code(c)) == 1,
{
    match c {
        Color::RGB(r, g, b) => {
            let head = seq!['\u{1b}', '[', '3', '8', ';', '2', ';'];
            assert(esc_count(head) == 1) by {
                reveal_with_fuel(esc_count, 8);
            }
            lemma_esc_count_concat(head, dec_spec(r as int));
            lemma_dec_no_esc(r as int);
            lemma_esc_count_concat(head + dec_spec(r as int), seq![';']);
            lemma_esc_single(';');
            lemma_esc_count_concat(head + dec_spec(r as int) + seq![';'], dec_spec(g as int));
            lemma_dec_no_esc(g as int);
            lemma_esc_count_concat(
                head + dec_spec(r as int) + seq![';'] + dec_spec(g as int),
                seq![';'],
            );
            lemma_esc_count_concat(
                head + dec_spec(r as int) + seq![';'] + dec_spec(g as int) + seq![';'],
                dec_spec(b as int),
            );
            lemma_dec_no_esc(b as int);
            lemma_esc_count_concat(
                head + dec_spec(r as int) + seq![';'] + dec_spec(g as int) + seq![';'] + dec_spec(
                    b as int,
                ),
                seq!['m'],
            );
            lemma_esc_single('m');
        },
        _ => {
            assert(esc_count(color_code(c)) == 1) by {
                reveal_with_fuel(esc_count, 6);
            }
        },
    }
}

/// The reset escape holds exactly one escape character.
pub proof fn lemma_reset_one_esc()
    ensures
        esc_count(reset_code()) == 1,
{
    assert(esc_count(reset_code()) == 1) by {
        reveal_with_fuel(esc_count, 5);
    }
}

/// The color showing after a run of cells is rendered, entered with
/// the terminal showing `cur`.
pub open spec fn final_color(cells: Seq<Cell>, cur: Color) -> Color {
    if cells.len() == 0 {
        cur
    } else {
        cells.last().1
    }
}

/// The number of color changes the renderer emits for a run of cells
/// entered with the terminal showing `cur`: one for each cell whose
/// color differs from the color already showing.
pub open spec fn transitions(cells: Seq<Cell>, cur: Color) -> int
    decreases cells.len(),
{
    if cells.len() == 0 {
        0
    } else {
        (if cells[0].1 == cur {
            0int
        } else {
            1int
        }) + transitions(cells.drop_first(), cells[0].1)
    }
}

/// Color-run compression, counted exactly: the rendered line holds one
/// escape character per color change, plus one for the closing reset
/// when the final color is not the default — never one per cell.
/// (Stated for labels whose own characters are not the escape
/// character; a callback could emit that character itself, and those
/// occurrences would add to the count.)
pub proof fn lemma_render_escape_count(cells: Seq<Cell>, cur: Color)
    requires
        forall|i: int| 0 <= i < cells.len() ==> (#[trigger] cells[i]).0 != '\u{1b}',
    ensures
        esc_count(render_spec(cells, cur)) == transitions(cells, cur) + (if final_color(
            cells,
            cur,
        ) == Color::WHITE {
            0int
        } else {
            1int
        }),
    decreases cells.len(),
{
    if cells.len() == 0 {
        if cur == Color::WHITE {
        } else {
            lemma_reset_one_esc();
        }
    } else {
        let c = cells[0];
        let head: Seq<char> = if c.1 == cur {
            Seq::empty()
        } else {
            color_code(c.1)
        };
        lemma_render_escape_count(cells.drop_first(), c.1);
        lemma_esc_count_concat(head, seq![c.0]);
        lemma_esc_count_concat(head + seq![c.0], render_spec(cells.drop_first(), c.1));
        lemma_esc_single(c.0);
        if c.1 != cur {
            lemma_code_one_esc(c.1);
        }
        if cells.len() > 1 {
            assert(cells.drop_first().last() == cells.last());
        }
    }
}

proof fn lemma_transitions_same(cells: Seq<Cell>, c: Color)
    requires
        forall|i: int| 0 <= i < cells.len() ==> (#[trigger] cells[i]).1 == c,
    ensures
        transitions(cells, c) == 0,
    decreases cells.len(),
{
    if cells.len() > 0 {
        lemma_transitions_same(cells.drop_first(), c);
    }
}

/// A line whose cells all share one color holds exactly one color
/// change (none when that color is the default), and so exactly one
/// color escape; with a non-default color the closing reset adds one
/// more escape character.
pub proof fn lemma_uniform_color_escapes(cells: Seq<Cell>, c: Color)
    requires
        cells.len() > 0,
        forall|i: int| 0 <= i < cells.len() ==> (#[trigger] cells[i]).1 == c,
        forall|i: int| 0 <= i < cells.len() ==> (#[trigger] cells[i]).0 != '\u{1b}',
    ensures
        transitions(cells, Color::WHITE) == (if c == Color::WHITE {
            0int
        } else {
            1int
        }),
        esc_count(render_spec(cells, Color::WHITE)) == (if c == Color::WHITE {
            0int
        } else {
            2int
        }),
{
    lemma_transitions_same(cells.drop_first(), c);
    lemma_render_escape_count(cells, Color::WHITE);
}

/// A line that changes color at every cell, starting away from the
/// default, holds exactly one color change per cell.
pub proof fn lemma_alternating_escapes(cells: Seq<Cell>, cur: Color)
    requires
        forall|i: int| 0 < i < cells.len() ==> (#[trigger] cells[i]).1 != cells[i - 1].1,
        cells.len() > 0 ==> cells[0].1 != cur,
    ensures
        transitions(cells, cur) == cells.len(),
    decreases cells.len(),
{
    if cells.len() > 0 {
        assert(forall|i: int|
            0 < i < cells.drop_first().len() ==> (#[trigger] cells.drop_first()[i]).1
                != cells.drop_first()[i - 1].1) by {
            assert(forall|i: int|
                0 <= i < cells.drop_first().len() ==> #[trigger] cells.drop_first()[i]
                    == cells[i + 1]);
        }
        lemma_alternating_escapes(cells.drop_first(), cells[0].1);
    }
}

/// Round trip of a plain text label: rendering the cells of a string
/// in the default color yields exactly that string, with no escapes.
pub proof fn lemma_plain_round_trip(s: Seq<char>)
    ensures
        render_spec(text_cells(s), Color::WHITE) == s,
    decreases s.len(),
{
    if s.len() == 0 {
        assert(render_spec(text_cells(s), Color::WHITE) =~= s);
    } else {
        assert(text_cells(s)[0] == (s[0], Color::WHITE));
        assert(text_cells(s).drop_first() =~= text_cells(s.drop_first()));
        lemma_plain_round_trip(s.drop_first());
        assert(render_spec(text_cells(s), Color::WHITE) =~= Seq::<char>::empty() + seq![s[0]]
            + render_spec(text_cells(s.drop_first()), Color::WHITE));
        assert(render_spec(text_cells(s), Color::WHITE) =~= s);
    }
}

} // verus!
