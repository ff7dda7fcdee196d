use vstd::prelude::*;
use vstd::string::StringExecFns;

use crate::models::{clone_names, OutputConsumer};

verus! {

/// One rendered output row, as handed to a sink.
pub struct OutputRow {
    pub key: String,
    pub items: Vec<String>,
    pub quotes: bool,
}

impl OutputRow {
    pub open spec fn model(&self) -> (Seq<char>, Seq<Seq<char>>, bool) {
        (self.key@, self.items.deep_view(), self.quotes)
    }
}

/// A sink that keeps every appended row, for rendering after a drain pass
/// and for validation-only runs.
pub struct RowBuffer {
    pub rows: Vec<OutputRow>,
}

impl RowBuffer {
    pub fn new() -> (b: RowBuffer)
        ensures
            b.rows() == Seq::<(Seq<char>, Seq<Seq<char>>, bool)>::empty(),
    {
        let b = RowBuffer { rows: Vec::new() };
        proof {
            assert(b.rows@.map_values(|r: OutputRow| r.model()) =~= Seq::<
                (Seq<char>, Seq<Seq<char>>, bool),
            >::empty());
        }
        b
    }
}

impl OutputConsumer for RowBuffer {
    open spec fn rows(&self) -> Seq<(Seq<char>, Seq<Seq<char>>, bool)> {
        self.rows@.map_values(|r: OutputRow| r.model())
    }

    fn append(&mut self, key: &String, items: &Vec<String>, quotes: bool) {
        let row = OutputRow { key: key.clone(), items: clone_names(items), quotes };
        self.rows.push(row);
        proof {
            assert(self.rows@.map_values(|r: OutputRow| r.model()) =~= old(self).rows@.map_values(
                |r: OutputRow| r.model(),
            ).push(row.model()));
        }
    }
}

/// The text of one trailing cell: a separator, then the value, quoted when
/// asked.
pub open spec fn csv_cells(items: Seq<Seq<char>>, quotes: bool) -> Seq<char>
    decreases items.len(),
{
    if items.len() == 0 {
        Seq::empty()
    } else {
        csv_cells(items.drop_last(), quotes) + ", "@ + (if quotes {
            "\""@ + items.last() + "\""@
        } else {
            items.last()
        })
    }
}

/// The text of one output line: the key, then each value behind a separator.
pub open spec fn csv_line(key: Seq<char>, items: Seq<Seq<char>>, quotes: bool) -> Seq<char> {
    key + csv_cells(items, quotes)
}

/// Renders one output row as its line of text, without the line break.
pub fn render_csv_line(key: &String, items: &Vec<String>, quotes: bool) -> (r: String)
    ensures
        r@ == csv_line(key@, items.deep_view(), quotes),
{
    let mut s = key.clone();
    proof {
        assert(s@ =~= key@ + csv_cells(items.deep_view().subrange(0, 0), quotes));
    }
    let mut j: usize = 0;
    while j < items.len()
        invariant
            j <= items@.len(),
            s@ == key@ + csv_cells(items.deep_view().subrange(0, j as int), quotes),
        decreases items@.len() - j,
    {
        let ghost pre = s@;
        s.append(", ");
        if quotes {
            s.append("\"");
        }
        s.append(items[j].as_str());
        if quotes {
            s.append("\"");
        }
        proof {
            let dv = items.deep_view();
            assert(dv.subrange(0, j + 1).drop_last() =~= dv.subrange(0, j as int));
            assert(dv.subrange(0, j + 1).last() == dv[j as int]);
            assert(dv[j as int] == items@[j as int]@);
            if quotes {
                assert(s@ =~= pre + ", "@ + ("\""@ + dv[j as int] + "\""@));
            } else {
                assert(s@ =~= pre + ", "@ + dv[j as int]);
            }
            assert(s@ =~= key@ + csv_cells(dv.subrange(0, j + 1), quotes));
        }
        j = j + 1;
    }
    proof {
        assert(items.deep_view().subrange(0, items@.len() as int) =~= items.deep_view());
    }
    s
}

} // verus!
