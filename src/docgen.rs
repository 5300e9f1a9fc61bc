//! The documentation generator's logic: names of the generated image files,
//! the before/after example blocks of a page, the example SVG files and the
//! table that shows them side by side.

use vstd::prelude::*;
use vstd::string::{StrSliceExecFns, StringExecFns};

verus! {

/// What `std::path::Path::file_stem` gives for a path: its last component
/// without the extension, if it has a last component.
pub uninterp spec fn file_stem_of(path: Seq<char>) -> Option<Seq<char>>;

/// What `std::path::Path::join` gives for a directory and a name.
pub uninterp spec fn joined_path(dir: Seq<char>, name: Seq<char>) -> Seq<char>;

/// Relies on `std::path::Path::file_stem`, which looks at the path's
/// characters alone; a stem cut from a `&str` is valid UTF-8.
#[verifier::external_body]
fn path_file_stem(path: &str) -> (r: Option<String>)
    ensures
        r matches Some(s) ==> file_stem_of(path@) == Some(s@),
        r is None ==> file_stem_of(path@) is None,
{
    std::path::Path::new(path).file_stem().map(|s| s.to_string_lossy().into_owned())
}

/// Relies on `std::path::Path::join`, which looks at its two arguments'
/// characters alone; joining two `&str` paths gives valid UTF-8.
#[verifier::external_body]
fn path_join(dir: &str, name: &str) -> (r: String)
    ensures
        r@ == joined_path(dir@, name@),
{
    std::path::Path::new(dir).join(name).to_string_lossy().into_owned()
}

/// `s` with every match of the non-empty pattern `from` replaced by `to`,
/// matches taken from left to right without overlapping.
pub open spec fn replaced(s: Seq<char>, from: Seq<char>, to: Seq<char>) -> Seq<char>
    decreases s.len(),
{
    if s.len() == 0 || from.len() == 0 {
        s
    } else if from.len() <= s.len() && s.subrange(0, from.len() as int) == from {
        to + replaced(s.subrange(from.len() as int, s.len() as int), from, to)
    } else {
        seq![s[0]] + replaced(s.subrange(1, s.len() as int), from, to)
    }
}

/// Relies on `str::replace`, which replaces every match of `from` in `s`
/// by `to`, matches found from left to right without overlapping.
#[verifier::external_body]
fn replace_all(s: &str, from: &str, to: &str) -> (r: String)
    requires
        from@.len() > 0,
    ensures
        r@ == replaced(s@, from@, to@),
{
    s.replace(from, to)
}

/// Relies on `String::push`, which appends one character.
#[verifier::external_body]
fn push_char(text: &mut String, c: char)
    ensures
        final(text)@ == old(text)@.push(c),
{
    text.push(c);
}

/// Appends `len` copies of `c` to `text`.
pub fn fill_str(text: &mut String, c: char, len: usize)
    ensures
        final(text)@ == old(text)@ + Seq::new(len as nat, |_i: int| c),
{
    let ghost start = text@;
    let mut i: usize = 0;
    while i < len
        invariant
            i <= len,
            text@ == start + Seq::new(i as nat, |_i: int| c),
        decreases len - i,
    {
        push_char(text, c);
        i += 1;
        assert(text@ =~= start + Seq::new(i as nat, |_i: int| c));
    }
}

/// The file name of `path` without its extension; `None` where the path has
/// no last component.
pub fn basename(path: &str) -> (r: Option<String>)
    ensures
        r matches Some(s) ==> file_stem_of(path@) == Some(s@),
        r is None ==> file_stem_of(path@) is None,
{
    path_file_stem(path)
}

/// The path of the image `<basename>.svg` inside `dir`.
pub fn gen_svg_path(dir: &str, basename: &str) -> (r: String)
    ensures
        r@ == joined_path(dir@, basename@ + seq!['.', 's', 'v', 'g']),
{
    let name = String::from_str(basename).concat(".svg");
    proof {
        reveal_strlit(".svg");
        assert(name@ =~= basename@ + seq!['.', 's', 'v', 'g']);
    }
    path_join(dir, name.as_str())
}

/// The example lines of one table block, split into the two columns.
pub struct TableLines {
    pub before: Vec<String>,
    pub after: Vec<String>,
    /// Whether the example files declare the xlink namespace.
    pub insert_xmlns_xlink: bool,
}

/// What a table block holds so far, as the contracts see it.
pub struct ColumnsModel {
    pub before: Seq<Seq<char>>,
    pub after: Seq<Seq<char>>,
    pub insert_xmlns_xlink: bool,
    pub in_after: bool,
}

/// The block after one more line: markers switch state, any other line,
/// without its three-character indent, joins the current column; a line too
/// short to carry the indent makes the block invalid.
pub open spec fn table_step(c: ColumnsModel, line: Seq<char>) -> Option<ColumnsModel> {
    if line == ".. BEFORE"@ {
        Some(c)
    } else if line == ".. NO_XMLNS_XLINK"@ {
        Some(ColumnsModel { insert_xmlns_xlink: false, ..c })
    } else if line == ".. AFTER"@ {
        Some(ColumnsModel { in_after: true, ..c })
    } else if line.len() < 3 {
        None
    } else if c.in_after {
        Some(ColumnsModel { after: c.after.push(line.subrange(3, line.len() as int)), ..c })
    } else {
        Some(ColumnsModel { before: c.before.push(line.subrange(3, line.len() as int)), ..c })
    }
}

/// The block read from line `i` on, and the index after it: reading stops
/// after an `.. END` marker or at the last line.
pub open spec fn scan_table(lines: Seq<Seq<char>>, i: int, c: ColumnsModel) -> Option<(ColumnsModel, int)>
    decreases lines.len() - i,
{
    if i >= lines.len() || i < 0 {
        Some((c, i))
    } else if lines[i] == ".. END"@ {
        Some((c, i + 1))
    } else {
        match table_step(c, lines[i]) {
            Some(c2) => scan_table(lines, i + 1, c2),
            None => None,
        }
    }
}

pub open spec fn empty_columns() -> ColumnsModel {
    ColumnsModel { before: Seq::empty(), after: Seq::empty(), insert_xmlns_xlink: true, in_after: false }
}

pub open spec fn views(v: Seq<String>) -> Seq<Seq<char>> {
    v.map_values(|s: String| s@)
}

fn is_line(line: &String, marker: &str) -> (r: bool)
    ensures
        r == (line@ == marker@),
{
    *line == String::from_str(marker)
}

/// Reads the table block that starts at line `start`: the example lines of
/// each column, and the index of the first line after the block. `None`
/// where an example line is too short to carry its indent.
pub fn read_table(lines: &Vec<String>, start: usize) -> (r: Option<(TableLines, usize)>)
    requires
        start <= lines@.len(),
    ensures
        match scan_table(views(lines@), start as int, empty_columns()) {
            Some((c, next)) => r matches Some((t, n)) && views(t.before@) == c.before && views(
                t.after@,
            ) == c.after && t.insert_xmlns_xlink == c.insert_xmlns_xlink && n == next,
            None => r is None,
        },
{
    let ghost ls = views(lines@);
    let mut before: Vec<String> = Vec::new();
    let mut after: Vec<String> = Vec::new();
    let mut insert_xmlns_xlink = true;
    let mut in_after = false;
    let mut i = start;
    proof {
        assert(views(before@) =~= Seq::<Seq<char>>::empty());
        assert(views(after@) =~= Seq::<Seq<char>>::empty());
    }
    while i < lines.len()
        invariant
            start <= i <= lines@.len(),
            ls == views(lines@),
            scan_table(ls, i as int, ColumnsModel {
                before: views(before@),
                after: views(after@),
                insert_xmlns_xlink,
                in_after,
            }) == scan_table(ls, start as int, empty_columns()),
        decreases lines@.len() - i,
    {
        let line = &lines[i];
        assert(ls[i as int] == line@);
        if is_line(line, ".. END") {
            return Some((TableLines { before, after, insert_xmlns_xlink }, i + 1));
        }
        if is_line(line, ".. BEFORE") {
        } else if is_line(line, ".. NO_XMLNS_XLINK") {
            insert_xmlns_xlink = false;
        } else if is_line(line, ".. AFTER") {
            in_after = true;
        } else {
            let n = line.as_str().unicode_len();
            if n < 3 {
                return None;
            }
            let cell = String::from_str(line.as_str().substring_char(3, n));
            if in_after {
                let ghost old_after = after@;
                after.push(cell);
                assert(views(after@) =~= views(old_after).push(line@.subrange(3, n as int)));
            } else {
                let ghost old_before = before@;
                before.push(cell);
                assert(views(before@) =~= views(old_before).push(line@.subrange(3, n as int)));
            }
        }
        i += 1;
    }
    Some((TableLines { before, after, insert_xmlns_xlink }, i))
}

/// The opening tag that the example files get, with or without the xlink
/// namespace.
pub open spec fn svg_open_tag(insert_xmlns_xlink: bool) -> Seq<char> {
    if insert_xmlns_xlink {
        "<svg xmlns=\"http://www.w3.org/2000/svg\" xmlns:xlink=\"http://www.w3.org/1999/xlink\" width=\"200\" height=\"100\""@
    } else {
        "<svg xmlns=\"http://www.w3.org/000/svg\" width=\"200\" height=\"100\""@
    }
}

/// An example line as written to the file: a line that opens the root
/// element gets the full opening tag.
pub open spec fn svg_line(l: Seq<char>, insert_xmlns_xlink: bool) -> Seq<char> {
    if l.len() >= 4 && l.subrange(0, 4) == "<svg"@ {
        replaced(l, "<svg"@, svg_open_tag(insert_xmlns_xlink))
    } else {
        l
    }
}

/// The text of an example file: each line, adjusted, and a newline.
pub open spec fn svg_text(lines: Seq<Seq<char>>, insert_xmlns_xlink: bool) -> Seq<char>
    decreases lines.len(),
{
    if lines.len() == 0 {
        Seq::empty()
    } else {
        svg_text(lines.drop_last(), insert_xmlns_xlink) + svg_line(lines.last(), insert_xmlns_xlink)
            + seq!['\n']
    }
}

fn opens_svg(l: &str) -> (r: bool)
    ensures
        r == (l@.len() >= 4 && l@.subrange(0, 4) == "<svg"@),
{
    let n = l.unicode_len();
    if n < 4 {
        return false;
    }
    String::from_str(l.substring_char(0, 4)) == String::from_str("<svg")
}

/// The text of the example file made of `lines`.
pub fn gen_svg_file(lines: &Vec<String>, insert_xmlns_xlink: bool) -> (r: String)
    ensures
        r@ == svg_text(views(lines@), insert_xmlns_xlink),
{
    let tag = if insert_xmlns_xlink {
        "<svg xmlns=\"http://www.w3.org/2000/svg\" xmlns:xlink=\"http://www.w3.org/1999/xlink\" width=\"200\" height=\"100\""
    } else {
        "<svg xmlns=\"http://www.w3.org/000/svg\" width=\"200\" height=\"100\""
    };
    assert(tag@ == svg_open_tag(insert_xmlns_xlink));
    let mut s = String::new();
    let mut i: usize = 0;
    while i < lines.len()
        invariant
            i <= lines@.len(),
            tag@ == svg_open_tag(insert_xmlns_xlink),
            s@ == svg_text(views(lines@.take(i as int)), insert_xmlns_xlink),
        decreases lines@.len() - i,
    {
        let l = lines[i].as_str();
        if opens_svg(l) {
            proof {
                reveal_strlit("<svg");
            }
            let line = replace_all(l, "<svg", tag);
            s.append(line.as_str());
        } else {
            s.append(l);
        }
        push_char(&mut s, '\n');
        proof {
            let t = views(lines@.take(i + 1));
            assert(t.drop_last() =~= views(lines@.take(i as int)));
            assert(t.last() == lines@[i as int]@);
        }
        i += 1;
    }
    assert(lines@.take(i as int) =~= lines@);
    s
}

/// `n` copies of `c` (none where `n` is not positive).
pub open spec fn fill(n: int, c: char) -> Seq<char> {
    Seq::new(if n > 0 { n as nat } else { 0 }, |_i: int| c)
}

/// One table row: two cells, each indented by `pad` and padded to its
/// column's width.
pub open spec fn table_row(w1: int, w2: int, pad: int, c1: Seq<char>, c2: Seq<char>) -> Seq<char> {
    "| "@ + fill(pad, ' ') + c1 + fill(w1 - c1.len() + 1 - pad, ' ') + "| "@ + fill(pad, ' ') + c2
        + fill(w2 - c2.len() + 1 - pad, ' ') + "|\n"@
}

/// A horizontal rule across both columns.
pub open spec fn table_rule(w1: int, w2: int) -> Seq<char> {
    "+"@ + fill(w1 + 2, '-') + "+"@ + fill(w2 + 2, '-') + "+\n"@
}

pub open spec fn max_len(cells: Seq<Seq<char>>) -> int
    decreases cells.len(),
{
    if cells.len() == 0 {
        0
    } else {
        let m = max_len(cells.drop_last());
        if cells.last().len() > m {
            cells.last().len() as int
        } else {
            m
        }
    }
}

/// Cell `i` of a column, empty past its end.
pub open spec fn cell(cells: Seq<Seq<char>>, i: int) -> Seq<char> {
    if i < cells.len() {
        cells[i]
    } else {
        Seq::empty()
    }
}

/// The first `n` example rows.
pub open spec fn body_rows(a: Seq<Seq<char>>, b: Seq<Seq<char>>, w1: int, w2: int, n: int) -> Seq<char>
    decreases n,
{
    if n <= 0 {
        Seq::empty()
    } else {
        body_rows(a, b, w1, w2, n - 1) + table_row(w1, w2, 2, cell(a, n - 1), cell(b, n - 1))
    }
}

/// The decimal digit `d`.
pub open spec fn digit(d: nat) -> char {
    if d == 0 { '0' } else if d == 1 { '1' } else if d == 2 { '2' } else if d == 3 { '3' }
    else if d == 4 { '4' } else if d == 5 { '5' } else if d == 6 { '6' } else if d == 7 { '7' }
    else if d == 8 { '8' } else { '9' }
}

/// `n` written in decimal.
pub open spec fn decimal(n: nat) -> Seq<char>
    decreases n,
{
    if n < 10 {
        seq![digit(n)]
    } else {
        decimal(n / 10).push(digit(n % 10))
    }
}

/// A column's width: its longest example line plus two, or its image link.
pub open spec fn column_width(cells: Seq<Seq<char>>, link: Seq<char>) -> int {
    if max_len(cells) + 2 > link.len() {
        max_len(cells) + 2
    } else {
        link.len() as int
    }
}

/// The header of a table: the example files' sizes and the code marker.
pub open spec fn table_head(w1: int, w2: int, before_bytes: nat, after_bytes: nat, cli: bool) -> Seq<char> {
    table_rule(w1, w2) + table_row(
        w1,
        w2,
        0,
        "Before ("@ + decimal(before_bytes) + "b)"@,
        "After ("@ + decimal(after_bytes) + "b)"@,
    ) + table_rule(w1, w2) + (if cli {
        table_row(w1, w2, 0, ".. code-block:: XML"@, ".. code-block:: XML"@)
    } else {
        table_row(w1, w2, 0, "::"@, "::"@)
    }) + table_row(w1, w2, 0, Seq::empty(), Seq::empty())
}

/// The end of a table: for the command-line manual the image links, then
/// a closing rule.
pub open spec fn table_tail(w1: int, w2: int, link1: Seq<char>, link2: Seq<char>, cli: bool) -> Seq<char> {
    (if cli {
        table_rule(w1, w2) + table_row(w1, w2, 0, link1, link2)
    } else {
        Seq::empty()
    }) + table_rule(w1, w2)
}

/// The table that shows a block's two columns side by side: a header with
/// the example files' sizes, the code lines, and, for the command-line
/// manual, the rendered images.
pub open spec fn table_text(
    a: Seq<Seq<char>>,
    b: Seq<Seq<char>>,
    before_bytes: nat,
    after_bytes: nat,
    link1: Seq<char>,
    link2: Seq<char>,
    cli: bool,
) -> Seq<char> {
    let w1 = column_width(a, link1);
    let w2 = column_width(b, link2);
    let n = if a.len() > b.len() { a.len() as int } else { b.len() as int };
    table_head(w1, w2, before_bytes, after_bytes, cli) + body_rows(a, b, w1, w2, n) + table_tail(
        w1,
        w2,
        link1,
        link2,
        cli,
    )
}

fn digit_char(d: usize) -> (r: char)
    requires
        d < 10,
    ensures
        r == digit(d as nat),
{
    if d == 0 { '0' } else if d == 1 { '1' } else if d == 2 { '2' } else if d == 3 { '3' }
    else if d == 4 { '4' } else if d == 5 { '5' } else if d == 6 { '6' } else if d == 7 { '7' }
    else if d == 8 { '8' } else { '9' }
}

/// Appends `n` in decimal to `text`.
fn push_decimal(text: &mut String, n: usize)
    ensures
        final(text)@ == old(text)@ + decimal(n as nat),
    decreases n,
{
    if n < 10 {
        push_char(text, digit_char(n));
        assert(decimal(n as nat) =~= seq![digit(n as nat)]);
    } else {
        push_decimal(text, n / 10);
        push_char(text, digit_char(n % 10));
    }
}

/// Appends `n` copies of `c`, none where `n` is negative.
fn push_fill(text: &mut String, n: i128, c: char)
    requires
        n < 0x2000_0000,
    ensures
        final(text)@ == old(text)@ + fill(n as int, c),
{
    if n > 0 {
        fill_str(text, c, n as usize);
        assert(Seq::new(n as usize as nat, |_i: int| c) =~= fill(n as int, c));
    } else {
        assert(fill(n as int, c) =~= Seq::<char>::empty());
        assert(text@ =~= text@ + fill(n as int, c));
    }
}

/// The length of every cell and link the table is built from stays far below
/// the machine's limits.
pub open spec fn cells_bounded(cells: Seq<Seq<char>>) -> bool {
    forall|i: int| 0 <= i < cells.len() ==> #[trigger] cells[i].len() < 0x1000_0000
}

fn push_row(text: &mut String, w1: usize, w2: usize, pad: usize, c1: &str, c2: &str)
    requires
        w1 < 0x1000_0010,
        w2 < 0x1000_0010,
        pad <= 2,
    ensures
        final(text)@ == old(text)@ + table_row(w1 as int, w2 as int, pad as int, c1@, c2@),
{
    let ghost start = text@;
    let l1 = c1.unicode_len();
    let l2 = c2.unicode_len();
    text.append("| ");
    fill_str(text, ' ', pad);
    text.append(c1);
    push_fill(text, w1 as i128 - l1 as i128 + 1 - pad as i128, ' ');
    text.append("| ");
    fill_str(text, ' ', pad);
    text.append(c2);
    push_fill(text, w2 as i128 - l2 as i128 + 1 - pad as i128, ' ');
    text.append("|\n");
    proof {
        assert(Seq::new(pad as nat, |_i: int| ' ') =~= fill(pad as int, ' '));
        assert(text@ =~= start + table_row(w1 as int, w2 as int, pad as int, c1@, c2@));
    }
}

fn push_rule(text: &mut String, w1: usize, w2: usize)
    requires
        w1 < 0x1000_0010,
        w2 < 0x1000_0010,
    ensures
        final(text)@ == old(text)@ + table_rule(w1 as int, w2 as int),
{
    let ghost start = text@;
    text.append("+");
    fill_str(text, '-', w1 + 2);
    text.append("+");
    fill_str(text, '-', w2 + 2);
    text.append("+\n");
    proof {
        assert(Seq::new((w1 + 2) as nat, |_i: int| '-') =~= fill(w1 + 2, '-'));
        assert(Seq::new((w2 + 2) as nat, |_i: int| '-') =~= fill(w2 + 2, '-'));
        assert(text@ =~= start + table_rule(w1 as int, w2 as int));
    }
}

fn longest(cells: &Vec<String>) -> (r: usize)
    requires
        cells_bounded(views(cells@)),
    ensures
        r == max_len(views(cells@)),
        r < 0x1000_0000,
{
    let mut m: usize = 0;
    let mut i: usize = 0;
    while i < cells.len()
        invariant
            i <= cells@.len(),
            cells_bounded(views(cells@)),
            m == max_len(views(cells@.take(i as int))),
            m < 0x1000_0000,
        decreases cells@.len() - i,
    {
        let n = cells[i].as_str().unicode_len();
        proof {
            let t = views(cells@.take(i + 1));
            assert(t.drop_last() =~= views(cells@.take(i as int)));
            assert(t.last() == cells@[i as int]@);
            assert(views(cells@)[i as int] == cells@[i as int]@);
        }
        if n > m {
            m = n;
        }
        i += 1;
    }
    assert(cells@.take(i as int) =~= cells@);
    m
}

fn push_table_head(text: &mut String, w1: usize, w2: usize, before_bytes: usize, after_bytes: usize, cli: bool)
    requires
        w1 < 0x1000_0010,
        w2 < 0x1000_0010,
    ensures
        final(text)@ == old(text)@ + table_head(w1 as int, w2 as int, before_bytes as nat, after_bytes as nat, cli),
{
    let ghost start = text@;
    let mut head1 = String::from_str("Before (");
    push_decimal(&mut head1, before_bytes);
    head1.append("b)");
    let mut head2 = String::from_str("After (");
    push_decimal(&mut head2, after_bytes);
    head2.append("b)");
    let ghost h1 = "Before ("@ + decimal(before_bytes as nat) + "b)"@;
    let ghost h2 = "After ("@ + decimal(after_bytes as nat) + "b)"@;
    assert(head1@ == h1);
    assert(head2@ == h2);
    let ghost wa = w1 as int;
    let ghost wb = w2 as int;
    let ghost code = if cli {
        table_row(wa, wb, 0, ".. code-block:: XML"@, ".. code-block:: XML"@)
    } else {
        table_row(wa, wb, 0, "::"@, "::"@)
    };
    push_rule(text, w1, w2);
    push_row(text, w1, w2, 0, head1.as_str(), head2.as_str());
    push_rule(text, w1, w2);
    if cli {
        push_row(text, w1, w2, 0, ".. code-block:: XML", ".. code-block:: XML");
    } else {
        push_row(text, w1, w2, 0, "::", "::");
    }
    let ghost mid = text@;
    assert(mid == start + table_rule(wa, wb) + table_row(wa, wb, 0, h1, h2) + table_rule(wa, wb) + code);
    push_row(text, w1, w2, 0, "", "");
    proof {
        let e = Seq::<char>::empty();
        assert(""@ == e) by {
            reveal_strlit("");
        }
        let head = table_rule(wa, wb) + table_row(wa, wb, 0, h1, h2) + table_rule(wa, wb) + code
            + table_row(wa, wb, 0, e, e);
        assert(head == table_head(wa, wb, before_bytes as nat, after_bytes as nat, cli));
        assert(text@ =~= start + head);
    }
}

fn push_table_tail(text: &mut String, w1: usize, w2: usize, link1: &str, link2: &str, cli: bool)
    requires
        w1 < 0x1000_0010,
        w2 < 0x1000_0010,
    ensures
        final(text)@ == old(text)@ + table_tail(w1 as int, w2 as int, link1@, link2@, cli),
{
    let ghost start = text@;
    if cli {
        push_rule(text, w1, w2);
        push_row(text, w1, w2, 0, link1, link2);
    }
    push_rule(text, w1, w2);
    proof {
        assert(text@ =~= start + table_tail(w1 as int, w2 as int, link1@, link2@, cli));
    }
}

/// The table for a block: `before_bytes` and `after_bytes` are the sizes of
/// the example files, the links point at their rendered images, and `cli`
/// selects the command-line manual's layout.
pub fn gen_table(
    lines: &TableLines,
    before_bytes: usize,
    after_bytes: usize,
    img_link_before: &str,
    img_link_after: &str,
    cli: bool,
) -> (r: String)
    requires
        cells_bounded(views(lines.before@)),
        cells_bounded(views(lines.after@)),
        img_link_before@.len() < 0x1000_0000,
        img_link_after@.len() < 0x1000_0000,
    ensures
        r@ == table_text(
            views(lines.before@),
            views(lines.after@),
            before_bytes as nat,
            after_bytes as nat,
            img_link_before@,
            img_link_after@,
            cli,
        ),
{
    let ghost a = views(lines.before@);
    let ghost b = views(lines.after@);
    let m1 = longest(&lines.before) + 2;
    let m2 = longest(&lines.after) + 2;
    let k1 = img_link_before.unicode_len();
    let k2 = img_link_after.unicode_len();
    let w1 = if m1 > k1 { m1 } else { k1 };
    let w2 = if m2 > k2 { m2 } else { k2 };
    assert(w1 == column_width(a, img_link_before@));
    assert(w2 == column_width(b, img_link_after@));

    let mut table = String::new();
    push_table_head(&mut table, w1, w2, before_bytes, after_bytes, cli);
    assert(table@ =~= table_head(w1 as int, w2 as int, before_bytes as nat, after_bytes as nat, cli));
    let ghost prefix = table@;
    let n = if lines.before.len() > lines.after.len() {
        lines.before.len()
    } else {
        lines.after.len()
    };
    let empty = String::new();
    let mut i: usize = 0;
    while i < n
        invariant
            i <= n,
            a == views(lines.before@),
            b == views(lines.after@),
            empty@ == Seq::<char>::empty(),
            w1 < 0x1000_0010,
            w2 < 0x1000_0010,
            table@ == prefix + body_rows(a, b, w1 as int, w2 as int, i as int),
        decreases n - i,
    {
        let c1 = if i < lines.before.len() {
            lines.before[i].as_str()
        } else {
            empty.as_str()
        };
        let c2 = if i < lines.after.len() {
            lines.after[i].as_str()
        } else {
            empty.as_str()
        };
        proof {
            if i < lines.before@.len() {
                assert(a[i as int] == lines.before@[i as int]@);
            }
            if i < lines.after@.len() {
                assert(b[i as int] == lines.after@[i as int]@);
            }
        }
        push_row(&mut table, w1, w2, 2, c1, c2);
        proof {
            assert(table@ =~= prefix + body_rows(a, b, w1 as int, w2 as int, i + 1));
        }
        i += 1;
    }
    push_table_tail(&mut table, w1, w2, img_link_before, img_link_after, cli);
    proof {
        assert(lines.before@.len() == a.len());
        assert(lines.after@.len() == b.len());
    }
    table
}

} // verus!
