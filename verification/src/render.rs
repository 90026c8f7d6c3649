//! Text rendering of the board.
//!
//! Each of the four rows becomes three lines: a top border of four box
//! segments, a content line with each cell's value centred in a four-column
//! field (a blank for an empty cell), and a bottom border. The exact glyphs
//! and widths are part of the contract: the terminal front end relies on
//! them for alignment.

use vstd::prelude::*;

verus! {

/// The decimal digit `d` as a character.
pub open spec fn digit_char(d: int) -> char {
    if d == 0 {
        '0'
    } else if d == 1 {
        '1'
    } else if d == 2 {
        '2'
    } else if d == 3 {
        '3'
    } else if d == 4 {
        '4'
    } else if d == 5 {
        '5'
    } else if d == 6 {
        '6'
    } else if d == 7 {
        '7'
    } else if d == 8 {
        '8'
    } else {
        '9'
    }
}

/// `v` written in decimal, most significant digit first.
pub open spec fn decimal(v: nat) -> Seq<char>
    decreases v,
{
    if v < 10 {
        seq![digit_char(v as int)]
    } else {
        decimal(v / 10).push(digit_char((v % 10) as int))
    }
}

/// What a cell shows: a blank when empty, else its value in decimal.
pub open spec fn cell_text(v: u32) -> Seq<char> {
    if v == 0 {
        seq![' ']
    } else {
        decimal(v as nat)
    }
}

/// `n` spaces.
pub open spec fn spaces(n: int) -> Seq<char> {
    Seq::new(
        if n >= 0 {
            n as nat
        } else {
            0
        },
        |i: int| ' ',
    )
}

/// `s` centred in a four-column field; a spare column goes to the right.
/// Text already four columns wide or wider stands as it is.
pub open spec fn centered(s: Seq<char>) -> Seq<char> {
    if s.len() >= 4 {
        s
    } else {
        let pad = 4 - s.len();
        spaces(pad / 2) + s + spaces(pad - pad / 2)
    }
}

/// One cell of the content line.
pub open spec fn cell_field(v: u32) -> Seq<char> {
    seq!['│', ' '] + centered(cell_text(v)) + seq![' ', '│', ' ']
}

/// One top border segment.
pub open spec fn top_unit() -> Seq<char> {
    seq!['┌', '─', '─', '─', '─', '─', '─', '┐', ' ']
}

/// One bottom border segment.
pub open spec fn bottom_unit() -> Seq<char> {
    seq!['└', '─', '─', '─', '─', '─', '─', '┘', ' ']
}

/// The top border line of a row.
pub open spec fn top_border() -> Seq<char> {
    top_unit() + top_unit() + top_unit() + top_unit() + seq!['\n']
}

/// The bottom border line of a row.
pub open spec fn bottom_border() -> Seq<char> {
    bottom_unit() + bottom_unit() + bottom_unit() + bottom_unit() + seq!['\n']
}

/// The three lines of row `r`.
pub open spec fn row_text(b: Seq<u32>, r: int) -> Seq<char> {
    top_border() + cell_field(b[4 * r]) + cell_field(b[4 * r + 1]) + cell_field(b[4 * r + 2])
        + cell_field(b[4 * r + 3]) + seq!['\n'] + bottom_border()
}

/// The whole board, four rows of three lines each.
pub open spec fn board_text(b: Seq<u32>) -> Seq<char> {
    row_text(b, 0) + row_text(b, 1) + row_text(b, 2) + row_text(b, 3)
}

/// The decimal digit `d` as a character.
fn digit_of(d: u32) -> (c: char)
    requires
        d < 10,
    ensures
        c == digit_char(d as int),
{
    if d == 0 {
        '0'
    } else if d == 1 {
        '1'
    } else if d == 2 {
        '2'
    } else if d == 3 {
        '3'
    } else if d == 4 {
        '4'
    } else if d == 5 {
        '5'
    } else if d == 6 {
        '6'
    } else if d == 7 {
        '7'
    } else if d == 8 {
        '8'
    } else {
        '9'
    }
}

/// Append `v` in decimal.
fn push_decimal(out: &mut Vec<char>, v: u32)
    ensures
        final(out)@ == old(out)@ + decimal(v as nat),
    decreases v,
{
    if v < 10 {
        let c = digit_of(v);
        out.push(c);
        proof {
            assert(out@ =~= old(out)@ + decimal(v as nat));
        }
    } else {
        push_decimal(out, v / 10);
        let c = digit_of(v % 10);
        out.push(c);
        proof {
            assert((v / 10) as nat == (v as nat) / 10);
            assert((v % 10) as nat == (v as nat) % 10);
            assert(out@ =~= old(out)@ + decimal(v as nat));
        }
    }
}

/// Append `n` spaces.
fn push_spaces(out: &mut Vec<char>, n: usize)
    ensures
        final(out)@ == old(out)@ + spaces(n as int),
{
    let ghost base = out@;
    let mut i: usize = 0;
    while i < n
        invariant
            i <= n,
            out@ == base + spaces(i as int),
        decreases n - i,
    {
        out.push(' ');
        i = i + 1;
        proof {
            assert(out@ =~= base + spaces(i as int));
        }
    }
}

/// Append every character of `t`.
fn push_text(out: &mut Vec<char>, t: &Vec<char>)
    ensures
        final(out)@ == old(out)@ + t@,
{
    let ghost base = out@;
    let mut i: usize = 0;
    while i < t.len()
        invariant
            i <= t@.len(),
            out@ == base + t@.take(i as int),
        decreases t@.len() - i,
    {
        let c = t[i];
        out.push(c);
        i = i + 1;
        proof {
            assert(out@ =~= base + t@.take(i as int));
        }
    }
    proof {
        assert(t@.take(t@.len() as int) =~= t@);
    }
}

/// Append one cell of the content line.
fn push_cell_field(out: &mut Vec<char>, v: u32)
    ensures
        final(out)@ == old(out)@ + cell_field(v),
{
    out.push('│');
    out.push(' ');
    let mut text: Vec<char> = Vec::new();
    if v == 0 {
        text.push(' ');
    } else {
        push_decimal(&mut text, v);
    }
    proof {
        assert(text@ =~= cell_text(v));
    }
    let tlen = text.len();
    if tlen < 4 {
        let pad = 4 - tlen;
        let left = pad / 2;
        push_spaces(out, left);
        push_text(out, &text);
        push_spaces(out, pad - left);
        proof {
            assert(spaces(left as int) + text@ + spaces((pad - left) as int) =~= centered(
                cell_text(v),
            ));
        }
    } else {
        push_text(out, &text);
    }
    out.push(' ');
    out.push('│');
    out.push(' ');
    proof {
        assert(out@ =~= old(out)@ + cell_field(v));
    }
}

/// Append the top border line.
fn push_top_border(out: &mut Vec<char>)
    ensures
        final(out)@ == old(out)@ + top_border(),
{
    let mut k: usize = 0;
    let ghost base = out@;
    while k < 4
        invariant
            k <= 4,
            k == 0 ==> out@ == base,
            k == 1 ==> out@ == base + top_unit(),
            k == 2 ==> out@ == base + top_unit() + top_unit(),
            k == 3 ==> out@ == base + top_unit() + top_unit() + top_unit(),
            k == 4 ==> out@ == base + top_unit() + top_unit() + top_unit() + top_unit(),
        decreases 4 - k,
    {
        out.push('┌');
        out.push('─');
        out.push('─');
        out.push('─');
        out.push('─');
        out.push('─');
        out.push('─');
        out.push('┐');
        out.push(' ');
        proof {
            if k == 0 {
                assert(out@ =~= base + top_unit());
            } else if k == 1 {
                assert(out@ =~= base + top_unit() + top_unit());
            } else if k == 2 {
                assert(out@ =~= base + top_unit() + top_unit() + top_unit());
            } else {
                assert(out@ =~= base + top_unit() + top_unit() + top_unit() + top_unit());
            }
        }
        k = k + 1;
    }
    out.push('\n');
    proof {
        assert(out@ =~= old(out)@ + top_border());
    }
}

/// Append the bottom border line.
fn push_bottom_border(out: &mut Vec<char>)
    ensures
        final(out)@ == old(out)@ + bottom_border(),
{
    let mut k: usize = 0;
    let ghost base = out@;
    while k < 4
        invariant
            k <= 4,
            k == 0 ==> out@ == base,
            k == 1 ==> out@ == base + bottom_unit(),
            k == 2 ==> out@ == base + bottom_unit() + bottom_unit(),
            k == 3 ==> out@ == base + bottom_unit() + bottom_unit() + bottom_unit(),
            k == 4 ==> out@ == base + bottom_unit() + bottom_unit() + bottom_unit()
                + bottom_unit(),
        decreases 4 - k,
    {
        out.push('└');
        out.push('─');
        out.push('─');
        out.push('─');
        out.push('─');
        out.push('─');
        out.push('─');
        out.push('┘');
        out.push(' ');
        proof {
            if k == 0 {
                assert(out@ =~= base + bottom_unit());
            } else if k == 1 {
                assert(out@ =~= base + bottom_unit() + bottom_unit());
            } else if k == 2 {
                assert(out@ =~= base + bottom_unit() + bottom_unit() + bottom_unit());
            } else {
                assert(out@ =~= base + bottom_unit() + bottom_unit() + bottom_unit()
                    + bottom_unit());
            }
        }
        k = k + 1;
    }
    out.push('\n');
    proof {
        assert(out@ =~= old(out)@ + bottom_border());
    }
}

/// Append the three lines of row `r`.
fn push_row(out: &mut Vec<char>, cells: &Vec<u32>, r: usize)
    requires
        r < 4,
        cells@.len() == 16,
    ensures
        final(out)@ == old(out)@ + row_text(cells@, r as int),
{
    push_top_border(out);
    let c0 = cells[4 * r];
    let c1 = cells[4 * r + 1];
    let c2 = cells[4 * r + 2];
    let c3 = cells[4 * r + 3];
    push_cell_field(out, c0);
    push_cell_field(out, c1);
    push_cell_field(out, c2);
    push_cell_field(out, c3);
    out.push('\n');
    push_bottom_border(out);
    proof {
        assert(out@ =~= old(out)@ + row_text(cells@, r as int));
    }
}

/// Relies on `String::from_iter` (through `collect`): the string holds
/// exactly the characters of `v`, in order.
#[verifier::external_body]
fn chars_to_string(v: &Vec<char>) -> (r: String)
    ensures
        r@ == v@,
{
    v.iter().collect()
}

/// The whole board as text, twelve lines for the four rows.
pub(crate) fn board_string(cells: &Vec<u32>) -> (r: String)
    requires
        cells@.len() == 16,
    ensures
        r@ == board_text(cells@),
{
    let mut out: Vec<char> = Vec::new();
    push_row(&mut out, cells, 0);
    push_row(&mut out, cells, 1);
    push_row(&mut out, cells, 2);
    push_row(&mut out, cells, 3);
    proof {
        assert(out@ =~= board_text(cells@));
    }
    chars_to_string(&out)
}

} // verus!
