//! The cells of a spreadsheet row as text.
use calamine::Data;
use vstd::prelude::*;

verus! {

/// A spreadsheet cell of calamine.
#[verifier::external_type_specification]
#[verifier::external_body]
pub struct ExData(Data);

/// The text that calamine displays for a cell.
pub uninterp spec fn cell_text(cell: Data) -> Seq<char>;

/// `Data`'s `to_string`, which writes the cell with its `Display`: the text of
/// a text cell is its content, that of an empty cell is empty, and that of any
/// other cell is what the cell's value displays as.  The result is the
/// `cell_text` of the cell.
#[verifier::external_body]
pub(crate) fn text_of_cell(cell: &Data) -> (text: String)
    ensures
        text@ == cell_text(*cell),
{
    cell.to_string()
}

/// The texts of the cells of a row.
pub open spec fn row_texts(row: Seq<Data>) -> Seq<Seq<char>> {
    Seq::new(row.len(), |i: int| cell_text(row[i]))
}

/// The texts that strings hold.
pub open spec fn text_views(texts: Seq<String>) -> Seq<Seq<char>> {
    Seq::new(texts.len(), |i: int| texts[i]@)
}

/// Writes every cell of a row as text.
pub fn cell_texts(row: &[Data]) -> (texts: Vec<String>)
    ensures
        text_views(texts@) == row_texts(row@),
{
    let mut texts: Vec<String> = Vec::new();
    let mut i: usize = 0;
    while i < row.len()
        invariant
            i <= row.len(),
            texts.len() == i,
            forall|j: int| 0 <= j < i ==> (#[trigger] texts@[j])@ == cell_text(row@[j]),
        decreases row.len() - i,
    {
        let text = text_of_cell(&row[i]);
        texts.push(text);
        i += 1;
    }
    proof {
        assert(text_views(texts@) =~= row_texts(row@));
    }
    texts
}

} // verus!
