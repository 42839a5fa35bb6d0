use vstd::prelude::*;
use crate::grid::push_char;
use crate::grid_constant::{row_of, col_of};
use crate::candidate::Candidate;
use vstd::string::StringExecFns;

verus! {

/// The digit character of `d` (for `d < 10`).
pub open spec fn digit_char(d: int) -> char {
    (d + 48) as char
}

/// Decimal text of `n` (for `n < 100`).
pub open spec fn number_text(n: int) -> Seq<char> {
    if n < 10 {
        seq![digit_char(n)]
    } else {
        seq![digit_char(n / 10), digit_char(n % 10)]
    }
}

/// Name of a cell: `r`, its row, `c`, its column, counted from one.
pub open spec fn cell_text(c: int) -> Seq<char> {
    seq!['r', digit_char(row_of(c) + 1), 'c', digit_char(col_of(c) - 8)]
}

fn digit(d: u8) -> (c: char)
    requires
        d < 10,
    ensures
        c == digit_char(d as int),
{
    let b: u8 = d + 48;
    assert(b as char == digit_char(d as int));
    b as char
}

/// Appends the decimal text of `n`.
pub fn push_number(s: &mut String, n: u8)
    requires
        n < 100,
    ensures
        final(s)@ == old(s)@ + number_text(n as int),
{
    if n < 10 {
        push_char(s, digit(n));
    } else {
        push_char(s, digit(n / 10));
        push_char(s, digit(n % 10));
    }
    assert(s@ =~= old(s)@ + number_text(n as int));
}

/// Appends the name of `cell`.
pub fn push_cell(s: &mut String, cell: u8)
    requires
        cell < 81,
    ensures
        final(s)@ == old(s)@ + cell_text(cell as int),
{
    push_char(s, 'r');
    push_char(s, digit(cell / 9 + 1));
    push_char(s, 'c');
    push_char(s, digit(cell % 9 + 1));
    assert(s@ =~= old(s)@ + cell_text(cell as int));
}

/// Name of `cell`, such as `r1c1`.
pub fn format_cell(cell: u8) -> (s: String)
    requires
        cell < 81,
    ensures
        s@ == cell_text(cell as int),
{
    let mut s = String::new();
    push_cell(&mut s, cell);
    assert(s@ =~= cell_text(cell as int));
    s
}

/// Name of house `h`: `row`, `column` or `block` with its number counted from one.
pub open spec fn house_text(h: int) -> Seq<char> {
    if h < 9 {
        "row "@ + number_text(h + 1)
    } else if h < 18 {
        "column "@ + number_text(h - 8)
    } else {
        "block "@ + number_text(h - 17)
    }
}

/// Appends the name of house `h`.
pub fn push_house(s: &mut String, h: u8)
    requires
        h < 27,
    ensures
        final(s)@ == old(s)@ + house_text(h as int),
{
    if h < 9 {
        s.append("row ");
        push_number(s, h + 1);
    } else if h < 18 {
        s.append("column ");
        push_number(s, h - 8);
    } else {
        s.append("block ");
        push_number(s, h - 17);
    }
    assert(s@ =~= old(s)@ + house_text(h as int));
}

/// The cells of a list of candidates, separated by commas.
pub open spec fn cells_text(l: Seq<Candidate>) -> Seq<char>
    decreases l.len(),
{
    if l.len() == 0 {
        Seq::empty()
    } else if l.len() == 1 {
        cell_text(l[0].0 as int)
    } else {
        cells_text(l.drop_last()) + ", "@ + cell_text(l.last().0 as int)
    }
}

/// The digits of a list of candidates, separated by commas.
pub open spec fn values_text(l: Seq<Candidate>) -> Seq<char>
    decreases l.len(),
{
    if l.len() == 0 {
        Seq::empty()
    } else if l.len() == 1 {
        number_text(l[0].1 as int)
    } else {
        values_text(l.drop_last()) + ", "@ + number_text(l.last().1 as int)
    }
}

/// Appends the cells of the candidates.
pub fn push_cand_cells(s: &mut String, l: &Vec<Candidate>)
    requires
        forall|i: int| 0 <= i < l@.len() ==> (#[trigger] l@[i]).0 < 81,
    ensures
        final(s)@ == old(s)@ + cells_text(l@),
{
    let mut i: usize = 0;
    while i < l.len()
        invariant
            i <= l@.len(),
            forall|k: int| 0 <= k < l@.len() ==> (#[trigger] l@[k]).0 < 81,
            s@ == old(s)@ + cells_text(l@.subrange(0, i as int)),
        decreases l@.len() - i,
    {
        let ghost prev = s@;
        assert(l@.subrange(0, i + 1).drop_last() =~= l@.subrange(0, i as int));
        if i > 0 {
            s.append(", ");
        }
        push_cell(s, l[i].0);
        assert(s@ =~= old(s)@ + cells_text(l@.subrange(0, i + 1)));
        i = i + 1;
    }
    assert(l@.subrange(0, l@.len() as int) =~= l@);
}

/// Appends the digits of the candidates.
pub fn push_cand_values(s: &mut String, l: &Vec<Candidate>)
    requires
        forall|i: int| 0 <= i < l@.len() ==> (#[trigger] l@[i]).1 < 100,
    ensures
        final(s)@ == old(s)@ + values_text(l@),
{
    let mut i: usize = 0;
    while i < l.len()
        invariant
            i <= l@.len(),
            forall|k: int| 0 <= k < l@.len() ==> (#[trigger] l@[k]).1 < 100,
            s@ == old(s)@ + values_text(l@.subrange(0, i as int)),
        decreases l@.len() - i,
    {
        assert(l@.subrange(0, i + 1).drop_last() =~= l@.subrange(0, i as int));
        if i > 0 {
            s.append(", ");
        }
        push_number(s, l[i].1);
        assert(s@ =~= old(s)@ + values_text(l@.subrange(0, i + 1)));
        i = i + 1;
    }
    assert(l@.subrange(0, l@.len() as int) =~= l@);
}

/// The name of house `h`.
pub fn format_house(h: u8) -> (s: String)
    requires
        h < 27,
    ensures
        s@ == house_text(h as int),
{
    let mut s = String::new();
    push_house(&mut s, h);
    assert(s@ =~= house_text(h as int));
    s
}

/// Decimal text of any natural number.
pub open spec fn decimal_text(n: nat) -> Seq<char>
    decreases n,
{
    if n < 10 {
        seq![digit_char(n as int)]
    } else {
        decimal_text(n / 10) + seq![digit_char((n % 10) as int)]
    }
}

/// Appends `n` in decimal.
pub fn push_decimal(s: &mut String, n: usize)
    ensures
        final(s)@ == old(s)@ + decimal_text(n as nat),
    decreases n,
{
    if n >= 10 {
        push_decimal(s, n / 10);
    }
    push_char(s, digit((n % 10) as u8));
    assert(s@ =~= old(s)@ + decimal_text(n as nat));
}

} // verus!
