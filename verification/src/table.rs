//! Tables of text: rows of cells, written out one row to a line.

use vstd::prelude::*;
use vstd::string::StringExecFns;
use crate::names::str_texts;

verus! {

/// `parts` one after another, with `separator` between each two.
pub open spec fn join(parts: Seq<Seq<char>>, separator: Seq<char>) -> Seq<char>
    decreases parts.len(),
{
    if parts.len() == 0 {
        Seq::empty()
    } else if parts.len() == 1 {
        parts[0]
    } else {
        join(parts.drop_last(), separator) + separator + parts.last()
    }
}

/// The text of a table: in each row the cells with `separator` between
/// them, and a line break between each two rows.
pub open spec fn render(rows: Seq<Seq<Seq<char>>>, separator: Seq<char>) -> Seq<char> {
    join(rows.map_values(|row: Seq<Seq<char>>| join(row, separator)), "\n"@)
}

/// Joining one more part.
pub proof fn lemma_join_take(parts: Seq<Seq<char>>, separator: Seq<char>, n: int)
    requires
        0 <= n < parts.len(),
    ensures
        join(parts.take(n + 1), separator) == if n == 0 {
            parts[0]
        } else {
            join(parts.take(n), separator) + separator + parts[n]
        },
{
    assert(parts.take(n + 1).drop_last() =~= parts.take(n));
}

/// A table of text.
#[derive(Clone, Debug)]
pub struct Table<'a> {
    rows: Vec<Vec<&'a str>>,
}

impl<'a> View for Table<'a> {
    type V = Seq<Seq<Seq<char>>>;

    closed spec fn view(&self) -> Seq<Seq<Seq<char>>> {
        self.rows@.map_values(|row: Vec<&'a str>| str_texts(row@))
    }
}

impl<'a> Default for Table<'a> {
    /// A table without rows.
    fn default() -> (table: Self)
        ensures
            table@ == Seq::<Seq<Seq<char>>>::empty(),
    {
        let table = Table { rows: Vec::new() };
        assert(table@ =~= Seq::empty());
        table
    }
}

impl<'a> Table<'a> {
    /// Adds `row` below the rows of the table.
    pub fn push_row(&mut self, row: Vec<&'a str>)
        ensures
            final(self)@ == old(self)@.push(str_texts(row@)),
    {
        self.rows.push(row);
        assert(self@ =~= old(self)@.push(str_texts(row@)));
    }

    /// The text of the table, with `sep` between the cells of a row.
    pub fn to_string(&self, sep: &str) -> (text: String)
        ensures
            text@ == render(self@, sep@),
    {
        let ghost lines = self@.map_values(|row: Seq<Seq<char>>| join(row, sep@));
        let mut text = String::new();
        let mut r: usize = 0;
        while r < self.rows.len()
            invariant
                r <= self.rows.len(),
                lines == self@.map_values(|row: Seq<Seq<char>>| join(row, sep@)),
                lines.len() == self.rows.len(),
                text@ == join(lines.take(r as int), "\n"@),
            decreases self.rows.len() - r,
        {
            if r > 0 {
                text.append("\n");
            }
            let ghost start = text@;
            let row = &self.rows[r];
            let ghost cells = str_texts(row@);
            assert(self@[r as int] == cells);
            let mut c: usize = 0;
            while c < row.len()
                invariant
                    c <= row.len(),
                    cells == str_texts(row@),
                    text@ == start + join(cells.take(c as int), sep@),
                decreases row.len() - c,
            {
                proof {
                    lemma_join_take(cells, sep@, c as int);
                }
                if c > 0 {
                    text.append(sep);
                }
                text.append(row[c]);
                assert(text@ =~= start + join(cells.take(c as int + 1), sep@));
                c += 1;
            }
            proof {
                assert(cells.take(c as int) =~= cells);
                lemma_join_take(lines, "\n"@, r as int);
                assert(lines[r as int] == join(cells, sep@));
                assert(text@ =~= join(lines.take(r as int + 1), "\n"@));
            }
            r += 1;
        }
        assert(lines.take(r as int) =~= lines);
        text
    }
}

} // verus!
