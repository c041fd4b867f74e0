use vstd::prelude::*;

verus! {

/// The decimal digit `d`.
pub open spec fn digit(d: nat) -> char {
    seq!['0', '1', '2', '3', '4', '5', '6', '7', '8', '9'][d as int]
}

/// `n` written in decimal, without leading zeros.
pub open spec fn decimal(n: nat) -> Seq<char>
    decreases n,
{
    if n < 10 {
        seq![digit(n)]
    } else {
        decimal(n / 10).push(digit(n % 10))
    }
}

/// `text` in the 24-bit foreground colour `(red, green, blue)`: the escape
/// code `ESC [38;2;R;G;Bm`, the text, then the reset code `ESC [0m`.
pub open spec fn foreground(text: Seq<char>, red: u8, green: u8, blue: u8) -> Seq<char> {
    seq!['\u{1b}', '[', '3', '8', ';', '2', ';'] + decimal(red as nat) + seq![';'] + decimal(
        green as nat,
    ) + seq![';'] + decimal(blue as nat) + seq!['m'] + text + seq!['\u{1b}', '[', '0', 'm']
}

/// The glyph of one cell: a full block.
pub open spec fn block_glyph() -> Seq<char> {
    seq!['\u{2588}']
}

/// The text that shows one cell as a full block in the colour
/// `(red, green, blue)`.
pub open spec fn painted_block(red: u8, green: u8, blue: u8) -> Seq<char> {
    foreground(block_glyph(), red, green, blue)
}

proof fn lemma_decimal_has_no_newline(n: nat)
    ensures
        forall|i: int| 0 <= i < decimal(n).len() ==> #[trigger] decimal(n)[i] != '\n',
    decreases n,
{
    if n >= 10 {
        lemma_decimal_has_no_newline(n / 10);
        assert(decimal(n) == decimal(n / 10).push(digit(n % 10)));
    }
}

/// A painted cell holds no newline, so the text of a grid has exactly one
/// line per row.
pub proof fn painted_block_has_no_newline(red: u8, green: u8, blue: u8)
    ensures
        forall|i: int|
            0 <= i < painted_block(red, green, blue).len() ==> #[trigger] painted_block(
                red,
                green,
                blue,
            )[i] != '\n',
{
    lemma_decimal_has_no_newline(red as nat);
    lemma_decimal_has_no_newline(green as nat);
    lemma_decimal_has_no_newline(blue as nat);
    let s = painted_block(red, green, blue);
    assert forall|i: int| 0 <= i < s.len() implies #[trigger] s[i] != '\n' by {
        let a = seq!['\u{1b}', '[', '3', '8', ';', '2', ';'] + decimal(red as nat);
        let b = a + seq![';'] + decimal(green as nat);
        let c = b + seq![';'] + decimal(blue as nat);
        let d = c + seq!['m'] + block_glyph();
        assert(s == d + seq!['\u{1b}', '[', '0', 'm']);
        if i < d.len() {
            if i < c.len() {
                if i < b.len() {
                    if i < a.len() {
                        if i >= 7 {
                            assert(a[i] == decimal(red as nat)[i - 7]);
                        }
                    } else if i > a.len() {
                        assert(b[i] == decimal(green as nat)[i - a.len() - 1]);
                    }
                } else if i > b.len() {
                    assert(c[i] == decimal(blue as nat)[i - b.len() - 1]);
                }
            }
        }
    }
}

/// Relies on ansi_term's `Colour::RGB(..).paint(..)` and its `Display`: for a
/// style with only an RGB foreground it writes `ESC [38;2;R;G;Bm`, the text,
/// then `ESC [0m`, the numbers in decimal.
#[verifier::external_body]
fn paint(text: &str, red: u8, green: u8, blue: u8) -> (r: String)
    ensures
        r@ == foreground(text@, red, green, blue),
{
    ansi_term::Colour::RGB(red, green, blue).paint(text).to_string()
}

/// The pieces one after the other.
pub open spec fn joined(parts: Seq<Seq<char>>) -> Seq<char>
    decreases parts.len(),
{
    if parts.len() == 0 {
        Seq::empty()
    } else {
        joined(parts.drop_last()) + parts.last()
    }
}

/// Each line's pieces joined and followed by a newline, lines in order.
pub open spec fn lines_text(lines: Seq<Seq<Seq<char>>>) -> Seq<char>
    decreases lines.len(),
{
    if lines.len() == 0 {
        Seq::empty()
    } else {
        lines_text(lines.drop_last()) + joined(lines.last()) + seq!['\n']
    }
}

pub open spec fn strings_view(cells: Seq<Vec<String>>) -> Seq<Seq<Seq<char>>> {
    cells.map_values(|line: Vec<String>| line@.map_values(|s: String| s@))
}

/// The painted text of every cell of the grid.
pub open spec fn painted_grid(grid: Seq<Vec<(u8, u8, u8)>>) -> Seq<Seq<Seq<char>>> {
    grid.map_values(
        |line: Vec<(u8, u8, u8)>| line@.map_values(|c: (u8, u8, u8)| painted_block(c.0, c.1, c.2)),
    )
}

/// The text of a grid: one painted block per cell, left to right, each row
/// ended by a newline.
pub open spec fn rendered(grid: Seq<Vec<(u8, u8, u8)>>) -> Seq<char> {
    lines_text(painted_grid(grid))
}

/// Joins already painted cells into the final text: the cells of each row
/// one after the other, each row followed by a newline.
pub fn assemble(cells: &Vec<Vec<String>>) -> (r: String)
    ensures
        r@ == lines_text(strings_view(cells@)),
{
    let ghost lines = strings_view(cells@);
    let mut out = String::new();
    let mut i: usize = 0;
    while i < cells.len()
        invariant
            i <= cells@.len(),
            lines == strings_view(cells@),
            out@ == lines_text(lines.take(i as int)),
        decreases cells@.len() - i,
    {
        let line = &cells[i];
        let ghost before = out@;
        let mut k: usize = 0;
        while k < line.len()
            invariant
                i < cells@.len(),
                *line == cells@[i as int],
                lines == strings_view(cells@),
                k <= line@.len(),
                out@ == before + joined(lines[i as int].take(k as int)),
            decreases line@.len() - k,
        {
            out.append(line[k].as_str());
            proof {
                let parts = lines[i as int];
                assert(parts.take(k + 1).drop_last() =~= parts.take(k as int));
            }
            k = k + 1;
        }
        proof {
            reveal_strlit("\n");
            assert(lines[i as int].take(k as int) =~= lines[i as int]);
        }
        out.append("\n");
        proof {
            assert(lines.take(i + 1).drop_last() =~= lines.take(i as int));
        }
        i = i + 1;
    }
    proof {
        assert(lines.take(i as int) =~= lines);
    }
    out
}

/// The grid as text: each colour painted as one block, rows ended by
/// newlines.
pub fn render(grid: &Vec<Vec<(u8, u8, u8)>>) -> (r: String)
    ensures
        r@ == rendered(grid@),
{
    let mut cells: Vec<Vec<String>> = Vec::new();
    let mut i: usize = 0;
    while i < grid.len()
        invariant
            i <= grid@.len(),
            cells@.len() == i,
            forall|j: int|
                0 <= j < i ==> (#[trigger] cells@[j])@.map_values(|s: String| s@) == painted_grid(
                    grid@,
                )[j],
        decreases grid@.len() - i,
    {
        let line = &grid[i];
        let mut painted: Vec<String> = Vec::new();
        let mut k: usize = 0;
        while k < line.len()
            invariant
                i < grid@.len(),
                *line == grid@[i as int],
                k <= line@.len(),
                painted@.len() == k,
                forall|j: int|
                    0 <= j < k ==> (#[trigger] painted@[j])@ == painted_block(
                        line@[j].0,
                        line@[j].1,
                        line@[j].2,
                    ),
            decreases line@.len() - k,
        {
            let (red, green, blue) = line[k];
            let glyph = "\u{2588}";
            proof {
                reveal_strlit("\u{2588}");
                assert(glyph@ =~= block_glyph());
            }
            painted.push(paint(glyph, red, green, blue));
            k = k + 1;
        }
        proof {
            assert(painted@.map_values(|s: String| s@) =~= painted_grid(grid@)[i as int]);
        }
        cells.push(painted);
        i = i + 1;
    }
    proof {
        assert(strings_view(cells@) =~= painted_grid(grid@));
    }
    assemble(&cells)
}

} // verus!
