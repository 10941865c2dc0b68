//! Layout helpers for the three panes.

use vstd::prelude::*;

verus! {

/// Scroll so that row `sel` is inside a window of `height` rows starting at `scroll`: up to
/// it when it is above, just far enough down when it is below, not at all otherwise.
pub fn keep_visible(scroll: &mut usize, sel: usize, height: usize)
    requires
        height > 0 && sel >= *old(scroll) + height ==> sel < usize::MAX,
    ensures
        height == 0 ==> *final(scroll) == *old(scroll),
        height > 0 && sel < *old(scroll) ==> *final(scroll) == sel,
        height > 0 && *old(scroll) <= sel && sel < *old(scroll) + height ==> *final(scroll) == *old(scroll),
        height > 0 && sel >= *old(scroll) + height ==> *final(scroll) == sel + 1 - height,
        height > 0 ==> *final(scroll) <= sel < *final(scroll) + height,
{
    if height == 0 {
        return;
    }
    if sel < *scroll {
        *scroll = sel;
    } else if sel - *scroll >= height {
        *scroll = sel + 1 - height;
    }
}

} // verus!
