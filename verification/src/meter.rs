//! The level bar of the recording screen.

use vstd::prelude::*;

use crate::text::string_of;

verus! {

/// A bar of `width` cells whose first `filled` (at most all) are full.
pub open spec fn bar_view(filled: usize, width: usize) -> Seq<char> {
    Seq::new(width as nat, |i: int| if i < filled {
        '█'
    } else {
        '░'
    })
}

/// The bar for a level already turned into a count of full cells.
pub fn meter_cells(filled: usize, width: usize) -> (r: String)
    ensures
        r@ == bar_view(filled, width),
{
    let filled = if filled < width {
        filled
    } else {
        width
    };
    let mut v: Vec<char> = Vec::new();
    let mut i: usize = 0;
    while i < width
        invariant
            i <= width,
            filled <= width,
            v@ == Seq::new(i as nat, |j: int| if j < filled {
                '█'
            } else {
                '░'
            }),
        decreases width - i,
    {
        v.push(if i < filled {
            '█'
        } else {
            '░'
        });
        assert(v@ =~= Seq::new((i + 1) as nat, |j: int| if j < filled {
            '█'
        } else {
            '░'
        }));
        i += 1;
    }
    assert(v@ =~= bar_view(filled, width));
    string_of(&v)
}

/// Law: a bar is `width` cells wide; exactly `min(filled, width)` cells
/// are full, and they are the leftmost; a fuller level never shows fewer
/// full cells.
pub proof fn lemma_bar_cells(filled: usize, width: usize, more: usize)
    requires
        filled <= more,
    ensures
        bar_view(filled, width).len() == width,
        forall|i: int|
            0 <= i < width ==> (#[trigger] bar_view(filled, width)[i] == '█') == (i < filled),
        forall|i: int|
            0 <= i < width ==> (#[trigger] bar_view(filled, width)[i] == '█' || bar_view(
                filled,
                width,
            )[i] == '░'),
        forall|i: int|
            0 <= i < width && #[trigger] bar_view(filled, width)[i] == '█' ==> bar_view(more, width)[i]
                == '█',
{
}

} // verus!
