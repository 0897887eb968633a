//! The macOS menu bar icon, made from the logo's pixels.
use vstd::prelude::*;

verus! {

/// Byte `i` of an RGBA image once made a template: black everywhere, and transparent where
/// the logo is dark (its bars, whose red is below 0x40), so the bars become holes and the tint
/// follows the system theme. Bytes past the last whole pixel stay as they are.
pub open spec fn template_byte(px: Seq<u8>, i: int) -> u8 {
    let start = i - i % 4;
    if start + 4 > px.len() {
        px[i]
    } else if i % 4 < 3 {
        0u8
    } else if px[start] < 0x40 {
        0u8
    } else {
        px[i]
    }
}

/// Turns the logo's RGBA pixels into a template image.
pub fn template_pixels(px: &mut Vec<u8>)
    ensures
        final(px)@.len() == old(px)@.len(),
        forall|i: int| 0 <= i < old(px)@.len() ==> #[trigger] final(px)@[i] == template_byte(old(px)@, i),
{
    let ghost orig = px@;
    let n = px.len();
    let mut base: usize = 0;
    while base < n && n - base >= 4
        invariant
            n == orig.len(),
            px@.len() == n,
            base % 4 == 0,
            base <= n,
            forall|i: int| 0 <= i < base ==> #[trigger] px@[i] == template_byte(orig, i),
            forall|i: int| base <= i < n ==> #[trigger] px@[i] == orig[i],
        decreases n - base,
    {
        if px[base] < 0x40 {
            px.set(base + 3, 0);
        }
        px.set(base, 0);
        px.set(base + 1, 0);
        px.set(base + 2, 0);
        assert forall|i: int| base <= i < base + 4 implies #[trigger] px@[i] == template_byte(orig, i) by {
            assert(i % 4 == i - base);
        }
        base += 4;
    }
    assert forall|i: int| base <= i < n implies #[trigger] px@[i] == template_byte(orig, i) by {
        assert(i - i % 4 >= base);
    }
}

} // verus!
