//! A text table: a header row, body rows and a footer row, each column
//! padded to its widest cell.

use unicode_width::UnicodeWidthStr;
use vstd::prelude::*;
use vstd::string::StringExecFns;

verus! {

/// The number of terminal columns that `s` takes.
pub uninterp spec fn display_width(s: Seq<char>) -> nat;

/// Relies on unicode-width's `UnicodeWidthStr::width`: the displayed width
/// of the text in columns, which is zero for empty text.
#[verifier::external_body]
fn text_width(s: &str) -> (r: usize)
    ensures
        r == display_width(s@),
        s@.len() == 0 ==> r == 0,
{
    UnicodeWidthStr::width(s)
}

/// The two texts one after the other.
pub(crate) fn concat(a: &str, b: &str) -> (r: String)
    ensures
        r@ == a@ + b@,
{
    let s = String::from_str(a);
    s.concat(b)
}

/// `s` written `n` times in a row.
pub open spec fn repeated(s: Seq<char>, n: nat) -> Seq<char>
    decreases n,
{
    if n == 0 {
        Seq::empty()
    } else {
        repeated(s, (n - 1) as nat) + s
    }
}

/// Relies on `str::repeat`: `s` written `n` times in a row. The text is
/// ASCII, one byte per character, so the byte count of the result fits.
#[verifier::external_body]
fn repeat(s: &str, n: usize) -> (r: String)
    requires
        forall|i: int| 0 <= i < s@.len() ==> (#[trigger] s@[i] as u32) < 128,
        s@.len() * n <= usize::MAX,
    ensures
        r@ == repeated(s@, n as nat),
{
    s.repeat(n)
}

/// The side of its column a cell's text keeps to.
#[derive(Debug, Clone, Copy, PartialEq, Eq, Structural)]
pub enum Alignment {
    Left,
    Right,
}

/// One cell: its text and alignment.
#[derive(Debug)]
pub struct TableCell {
    pub content: String,
    pub alignment: Alignment,
}

/// `cell` padded with spaces to `width` columns on the side opposite its
/// alignment.
pub open spec fn padded(cell: TableCell, width: nat) -> Seq<char> {
    let pad = repeated(seq![' '], (width - display_width(cell.content@)) as nat);
    match cell.alignment {
        Alignment::Left => cell.content@ + pad,
        Alignment::Right => pad + cell.content@,
    }
}

impl TableCell {
    /// The text padded to `width` columns.
    pub fn format(&self, width: usize) -> (r: String)
        requires
            display_width(self.content@) <= width,
        ensures
            r@ == padded(*self, width as nat),
    {
        let w = text_width(self.content.as_str());
        proof {
            reveal_strlit(" ");
            assert(" "@ =~= seq![' ']);
        }
        let padding = repeat(" ", width - w);
        match self.alignment {
            Alignment::Left => concat(self.content.as_str(), padding.as_str()),
            Alignment::Right => concat(padding.as_str(), self.content.as_str()),
        }
    }
}

/// `parts` written one after the other with `sep` between each two.
pub open spec fn joined(parts: Seq<Seq<char>>, sep: Seq<char>) -> Seq<char>
    decreases parts.len(),
{
    if parts.len() == 0 {
        Seq::empty()
    } else if parts.len() == 1 {
        parts[0]
    } else {
        joined(parts.drop_last(), sep) + sep + parts.last()
    }
}

/// The widest of `widths`, at least `floor`.
pub open spec fn widest(widths: Seq<nat>, floor: nat) -> nat
    decreases widths.len(),
{
    if widths.len() == 0 {
        floor
    } else {
        let rest = widths.drop_last();
        let w = widths.last();
        if w > widest(rest, floor) {
            w
        } else {
            widest(rest, floor)
        }
    }
}

/// The line of `row`: its cells padded to `widths` and set between bars.
pub open spec fn row_line(row: Seq<TableCell>, widths: Seq<usize>) -> Seq<char> {
    seq!['|', ' '] + joined(Seq::new(row.len(), |k: int| padded(row[k], widths[k] as nat)), seq![' ', '|', ' '])
        + seq![' ', '|']
}

/// The line between the header and the body, and between the body and
/// the footer: a run of dashes as wide as each column.
pub open spec fn separator_line(widths: Seq<usize>) -> Seq<char> {
    seq!['|', '-'] + joined(Seq::new(widths.len(), |k: int| repeated(seq!['-'], widths[k] as nat)), seq!['-', '|', '-'])
        + seq!['-', '|']
}

pub(crate) proof fn lemma_joined_step(parts: Seq<Seq<char>>, sep: Seq<char>, k: int)
    requires
        0 <= k < parts.len(),
    ensures
        joined(parts.subrange(0, k + 1), sep) == if k == 0 {
            parts[0]
        } else {
            joined(parts.subrange(0, k), sep) + sep + parts[k]
        },
{
    let next = parts.subrange(0, k + 1);
    assert(next.drop_last() =~= parts.subrange(0, k));
    assert(next.last() == parts[k]);
}

proof fn lemma_widest_bounds(widths: Seq<nat>, floor: nat)
    ensures
        widest(widths, floor) >= floor,
        forall|i: int| 0 <= i < widths.len() ==> widest(widths, floor) >= #[trigger] widths[i],
    decreases widths.len(),
{
    if widths.len() > 0 {
        let rest = widths.drop_last();
        lemma_widest_bounds(rest, floor);
        assert forall|i: int| 0 <= i < widths.len() implies widest(widths, floor) >= #[trigger] widths[i] by {
            if i < widths.len() - 1 {
                assert(widths[i] == rest[i]);
            }
        }
    }
}

/// The line of `row`.
fn render_row(row: &Vec<TableCell>, widths: &Vec<usize>) -> (r: String)
    requires
        row@.len() == widths@.len(),
        forall|k: int| 0 <= k < row@.len() ==> display_width((#[trigger] row@[k]).content@) <= widths@[k],
    ensures
        r@ == row_line(row@, widths@),
{
    let ghost parts = Seq::new(row@.len(), |k: int| padded(row@[k], widths@[k] as nat));
    proof {
        reveal_strlit("| ");
        reveal_strlit(" | ");
        reveal_strlit(" |");
        assert("| "@ =~= seq!['|', ' ']);
        assert(" | "@ =~= seq![' ', '|', ' ']);
        assert(" |"@ =~= seq![' ', '|']);
    }
    let mut s = String::new();
    let mut k: usize = 0;
    while k < row.len()
        invariant
            row@.len() == widths@.len(),
            forall|k: int| 0 <= k < row@.len() ==> display_width((#[trigger] row@[k]).content@) <= widths@[k],
            parts == Seq::new(row@.len(), |k: int| padded(row@[k], widths@[k] as nat)),
            k <= row@.len(),
            " | "@ == seq![' ', '|', ' '],
            s@ == joined(parts.subrange(0, k as int), seq![' ', '|', ' ']),
        decreases row@.len() - k,
    {
        let cell = row[k].format(widths[k]);
        proof {
            lemma_joined_step(parts, seq![' ', '|', ' '], k as int);
        }
        if k > 0 {
            s = concat(s.as_str(), " | ");
            s = concat(s.as_str(), cell.as_str());
        } else {
            s = cell;
        }
        k = k + 1;
    }
    proof {
        assert(parts.subrange(0, k as int) =~= parts);
    }
    let s = concat("| ", s.as_str());
    concat(s.as_str(), " |")
}

/// The separator line for `widths`.
fn render_separator(widths: &Vec<usize>) -> (r: String)
    ensures
        r@ == separator_line(widths@),
{
    let ghost parts = Seq::new(widths@.len(), |k: int| repeated(seq!['-'], widths@[k] as nat));
    proof {
        reveal_strlit("|-");
        reveal_strlit("-|-");
        reveal_strlit("-|");
        reveal_strlit("-");
        assert("|-"@ =~= seq!['|', '-']);
        assert("-|-"@ =~= seq!['-', '|', '-']);
        assert("-|"@ =~= seq!['-', '|']);
        assert("-"@ =~= seq!['-']);
    }
    let mut s = String::new();
    let mut k: usize = 0;
    while k < widths.len()
        invariant
            parts == Seq::new(widths@.len(), |k: int| repeated(seq!['-'], widths@[k] as nat)),
            k <= widths@.len(),
            "-|-"@ == seq!['-', '|', '-'],
            "-"@ == seq!['-'],
            s@ == joined(parts.subrange(0, k as int), seq!['-', '|', '-']),
        decreases widths@.len() - k,
    {
        let dashes = repeat("-", widths[k]);
        proof {
            lemma_joined_step(parts, seq!['-', '|', '-'], k as int);
        }
        if k > 0 {
            s = concat(s.as_str(), "-|-");
            s = concat(s.as_str(), dashes.as_str());
        } else {
            s = dashes;
        }
        k = k + 1;
    }
    proof {
        assert(parts.subrange(0, k as int) =~= parts);
    }
    let s = concat("|-", s.as_str());
    concat(s.as_str(), "-|")
}

/// A table with a header row, body rows and a footer row.
#[derive(Debug)]
pub struct Table {
    pub header: Vec<TableCell>,
    pub body: Vec<Vec<TableCell>>,
    pub footer: Vec<TableCell>,
}

impl Table {
    /// Every body row and the footer have as many cells as the header.
    pub open spec fn spec_valid(&self) -> bool {
        &&& self.footer@.len() == self.header@.len()
        &&& forall|i: int| 0 <= i < self.body@.len() ==> (#[trigger] self.body@[i])@.len() == self.header@.len()
    }

    /// The width of column `k`: that of its widest cell, the header's
    /// first, then the body's from the top, then the footer's.
    pub open spec fn column_width(&self, k: int) -> nat {
        let body = Seq::new(self.body@.len(), |i: int| display_width(self.body@[i]@[k].content@));
        let footer = display_width(self.footer@[k].content@);
        let w = widest(body, display_width(self.header@[k].content@));
        if footer > w {
            footer
        } else {
            w
        }
    }

    /// An empty table.
    pub fn new() -> (r: Self)
        ensures
            r.header@.len() == 0,
            r.body@.len() == 0,
            r.footer@.len() == 0,
    {
        Table { header: Vec::new(), body: Vec::new(), footer: Vec::new() }
    }

    /// Whether every body row and the footer have as many cells as the header.
    pub fn validate(&self) -> (r: bool)
        ensures
            r == self.spec_valid(),
    {
        let n = self.header.len();
        let mut i: usize = 0;
        while i < self.body.len()
            invariant
                n == self.header@.len(),
                i <= self.body@.len(),
                forall|k: int| 0 <= k < i ==> (#[trigger] self.body@[k])@.len() == n,
            decreases self.body@.len() - i,
        {
            if self.body[i].len() != n {
                return false;
            }
            i = i + 1;
        }
        self.footer.len() == n
    }

    /// The width of column `k`.
    fn calculate_column_content_width_for(&self, k: usize) -> (r: usize)
        requires
            self.spec_valid(),
            k < self.header@.len(),
        ensures
            r == self.column_width(k as int),
    {
        let ghost body = Seq::new(self.body@.len(), |i: int| display_width(self.body@[i]@[k as int].content@));
        let mut w = text_width(self.header[k].content.as_str());
        let mut i: usize = 0;
        while i < self.body.len()
            invariant
                self.spec_valid(),
                k < self.header@.len(),
                i <= self.body@.len(),
                body == Seq::new(self.body@.len(), |i: int| display_width(self.body@[i]@[k as int].content@)),
                w == widest(body.subrange(0, i as int), display_width(self.header@[k as int].content@)),
            decreases self.body@.len() - i,
        {
            let c = text_width(self.body[i][k].content.as_str());
            proof {
                assert(body.subrange(0, i + 1).drop_last() =~= body.subrange(0, i as int));
            }
            if c > w {
                w = c;
            }
            i = i + 1;
        }
        proof {
            assert(body.subrange(0, i as int) =~= body);
        }
        let f = text_width(self.footer[k].content.as_str());
        if f > w {
            f
        } else {
            w
        }
    }

    /// The width of each column.
    pub fn calculate_column_content_widths(&self) -> (r: Vec<usize>)
        requires
            self.spec_valid(),
        ensures
            r@.len() == self.header@.len(),
            forall|k: int| 0 <= k < r@.len() ==> #[trigger] r@[k] == self.column_width(k),
    {
        let mut r: Vec<usize> = Vec::new();
        let mut k: usize = 0;
        while k < self.header.len()
            invariant
                self.spec_valid(),
                k <= self.header@.len(),
                r@.len() == k,
                forall|j: int| 0 <= j < k ==> #[trigger] r@[j] == self.column_width(j),
            decreases self.header@.len() - k,
        {
            r.push(self.calculate_column_content_width_for(k));
            k = k + 1;
        }
        r
    }

    /// The lines of the table: the header, a separator, the body rows, a
    /// separator and the footer.
    pub open spec fn lines(&self) -> Seq<Seq<char>> {
        let widths = Seq::new(self.header@.len(), |k: int| self.column_width(k) as usize);
        let sep = separator_line(widths);
        seq![row_line(self.header@, widths), sep] + Seq::new(
            self.body@.len(),
            |i: int| row_line(self.body@[i]@, widths),
        ) + seq![sep, row_line(self.footer@, widths)]
    }

    /// The lines of the table, each column as wide as its widest cell.
    pub fn render(&self) -> (r: Vec<String>)
        requires
            self.spec_valid(),
        ensures
            r@.len() == self.lines().len(),
            forall|i: int| 0 <= i < r@.len() ==> (#[trigger] r@[i])@ == self.lines()[i],
    {
        let widths = self.calculate_column_content_widths();
        let ghost lines = self.lines();
        proof {
            assert(widths@ =~= Seq::new(self.header@.len(), |k: int| self.column_width(k) as usize));
            assert forall|k: int| 0 <= k < self.header@.len() implies {
                &&& display_width((#[trigger] self.header@[k]).content@) <= widths@[k]
                &&& display_width(self.footer@[k].content@) <= widths@[k]
            } by {
                let body = Seq::new(self.body@.len(), |i: int| display_width(self.body@[i]@[k].content@));
                lemma_widest_bounds(body, display_width(self.header@[k].content@));
            }
            assert forall|i: int, k: int|
                0 <= i < self.body@.len() && 0 <= k < self.header@.len() implies display_width(
                    #[trigger] self.body@[i]@[k].content@,
                ) <= widths@[k] by {
                let body = Seq::new(self.body@.len(), |i: int| display_width(self.body@[i]@[k].content@));
                lemma_widest_bounds(body, display_width(self.header@[k].content@));
                assert(body[i] == display_width(self.body@[i]@[k].content@));
            }
        }
        let mut r: Vec<String> = Vec::new();
        r.push(render_row(&self.header, &widths));
        let sep = render_separator(&widths);
        r.push(render_separator(&widths));
        let mut i: usize = 0;
        while i < self.body.len()
            invariant
                self.spec_valid(),
                lines == self.lines(),
                widths@ == Seq::new(self.header@.len(), |k: int| self.column_width(k) as usize),
                forall|i: int, k: int|
                    0 <= i < self.body@.len() && 0 <= k < self.header@.len() ==> display_width(
                        #[trigger] self.body@[i]@[k].content@,
                    ) <= widths@[k],
                i <= self.body@.len(),
                r@.len() == i + 2,
                forall|j: int| 0 <= j < r@.len() ==> (#[trigger] r@[j])@ == lines[j],
            decreases self.body@.len() - i,
        {
            r.push(render_row(&self.body[i], &widths));
            i = i + 1;
        }
        r.push(sep);
        r.push(render_row(&self.footer, &widths));
        r
    }
}

} // verus!
