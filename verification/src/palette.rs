//! Colour palettes and the snapping of observed colours to palette entries.
//!
//! Two palettes exist. The two-colour palette holds black and white and carries
//! one bit per pixel; the four-colour palette holds black, red, green and blue
//! and carries two bits per pixel. A colour read back from a frame is mapped to
//! the entry at the smallest squared Euclidean distance, the lower index winning
//! a tie.

use vstd::prelude::*;

verus! {

/// The palette sizes that the format knows.
pub open spec fn valid_colors(colors: u16) -> bool {
    colors == 2 || colors == 4
}

/// Bits that one pixel carries under a palette of `colors` entries.
pub open spec fn bits_for(colors: u16) -> u8 {
    if colors == 2 {
        1
    } else {
        2
    }
}

/// The entries of the palette of `colors` colours, by index.
pub open spec fn palette_spec(colors: u16) -> Seq<[u8; 3]> {
    if colors == 2 {
        seq![[0u8, 0u8, 0u8], [255u8, 255u8, 255u8]]
    } else {
        seq![[0u8, 0u8, 0u8], [255u8, 0u8, 0u8], [0u8, 255u8, 0u8], [0u8, 0u8, 255u8]]
    }
}

/// Two colours agree in all three coordinates.
pub open spec fn same_color(a: [u8; 3], b: [u8; 3]) -> bool {
    a[0] == b[0] && a[1] == b[1] && a[2] == b[2]
}

/// Squared Euclidean distance between two colours.
pub open spec fn distance_sq(a: [u8; 3], b: [u8; 3]) -> int {
    (a[0] - b[0]) * (a[0] - b[0]) + (a[1] - b[1]) * (a[1] - b[1]) + (a[2] - b[2]) * (a[2] - b[2])
}

/// Index of the entry nearest to `color` among the first `n` entries of
/// `palette`; of several nearest entries the first.
pub open spec fn nearest_among(color: [u8; 3], palette: Seq<[u8; 3]>, n: int) -> int
    decreases n,
{
    if n <= 1 {
        0
    } else {
        let best: int = nearest_among(color, palette, n - 1);
        if distance_sq(color, palette[n - 1]) < distance_sq(color, palette[best]) {
            n - 1
        } else {
            best
        }
    }
}

/// Index of the palette entry nearest to `color`; of several nearest entries the first.
pub open spec fn nearest_index(color: [u8; 3], palette: Seq<[u8; 3]>) -> int {
    nearest_among(color, palette, palette.len() as int)
}

/// `index` names an entry of `palette` at the smallest distance from `color`,
/// and no entry before it is as near.
pub open spec fn is_nearest(color: [u8; 3], palette: Seq<[u8; 3]>, index: int) -> bool {
    &&& 0 <= index < palette.len()
    &&& forall|j: int|
        0 <= j < palette.len() ==> distance_sq(color, palette[index]) <= #[trigger] distance_sq(
            color,
            palette[j],
        )
    &&& forall|j: int|
        0 <= j < index ==> distance_sq(color, palette[index]) < #[trigger] distance_sq(
            color,
            palette[j],
        )
}

proof fn lemma_nearest_among(color: [u8; 3], palette: Seq<[u8; 3]>, n: int)
    requires
        1 <= n <= palette.len(),
    ensures
        is_nearest(color, palette.subrange(0, n), nearest_among(color, palette, n)),
    decreases n,
{
    let prefix = palette.subrange(0, n);
    let index: int = nearest_among(color, palette, n);
    if n > 1 {
        lemma_nearest_among(color, palette, n - 1);
        let shorter = palette.subrange(0, n - 1);
        let best: int = nearest_among(color, palette, n - 1);
        assert(shorter[best] == palette[best]);
        assert forall|j: int| 0 <= j < n implies distance_sq(color, prefix[index])
            <= #[trigger] distance_sq(color, prefix[j]) by {
            if j < n - 1 {
                assert(shorter[j] == prefix[j]);
                assert(distance_sq(color, shorter[best]) <= distance_sq(color, shorter[j]));
            }
        }
        assert forall|j: int| 0 <= j < index implies distance_sq(color, prefix[index])
            < #[trigger] distance_sq(color, prefix[j]) by {
            assert(shorter[j] == prefix[j]);
            if index == best {
                assert(distance_sq(color, shorter[best]) < distance_sq(color, shorter[j]));
            } else {
                assert(distance_sq(color, shorter[best]) <= distance_sq(color, shorter[j]));
            }
        }
    }
}

/// Snapping picks an entry of the palette at the smallest squared distance from
/// the observed colour, and among several such entries the one of lowest index.
pub proof fn lemma_nearest_index_is_nearest(color: [u8; 3], palette: Seq<[u8; 3]>)
    requires
        palette.len() > 0,
    ensures
        is_nearest(color, palette, nearest_index(color, palette)),
{
    lemma_nearest_among(color, palette, palette.len() as int);
    assert(palette.subrange(0, palette.len() as int) =~= palette);
}

/// At most one index is nearest in the sense of `is_nearest`.
pub proof fn lemma_nearest_unique(color: [u8; 3], palette: Seq<[u8; 3]>, a: int, b: int)
    requires
        is_nearest(color, palette, a),
        is_nearest(color, palette, b),
    ensures
        a == b,
{
    if a < b {
        assert(distance_sq(color, palette[b]) < distance_sq(color, palette[a]));
        assert(distance_sq(color, palette[a]) <= distance_sq(color, palette[b]));
    } else if b < a {
        assert(distance_sq(color, palette[a]) < distance_sq(color, palette[b]));
        assert(distance_sq(color, palette[b]) <= distance_sq(color, palette[a]));
    }
}

/// A distance of zero means the same colour, and the other way round.
pub proof fn lemma_distance_zero(a: [u8; 3], b: [u8; 3])
    ensures
        distance_sq(a, b) >= 0,
        distance_sq(a, b) == 0 <==> same_color(a, b),
{
    let x: int = a[0] - b[0];
    let y: int = a[1] - b[1];
    let z: int = a[2] - b[2];
    assert(x * x >= 0 && (x * x == 0 <==> x == 0)) by (nonlinear_arith);
    assert(y * y >= 0 && (y * y == 0 <==> y == 0)) by (nonlinear_arith);
    assert(z * z >= 0 && (z * z == 0 <==> z == 0)) by (nonlinear_arith);
}

/// Snapping a colour that is an entry of the palette is exact: the index that
/// comes out holds that same colour, and it is the first index that does.
pub proof fn lemma_snap_palette_entry(palette: Seq<[u8; 3]>, i: int)
    requires
        0 <= i < palette.len(),
    ensures
        0 <= nearest_index(palette[i], palette) <= i,
        same_color(palette[nearest_index(palette[i], palette)], palette[i]),
        forall|j: int|
            0 <= j < nearest_index(palette[i], palette) ==> !same_color(
                #[trigger] palette[j],
                palette[i],
            ),
{
    let color = palette[i];
    let index: int = nearest_index(color, palette);
    lemma_nearest_index_is_nearest(color, palette);
    lemma_distance_zero(color, palette[i]);
    lemma_distance_zero(color, palette[index]);
    assert(distance_sq(color, palette[index]) <= distance_sq(color, palette[i]));
    if i < index {
        assert(distance_sq(color, palette[index]) < distance_sq(color, palette[i]));
    }
    assert forall|j: int| 0 <= j < index implies !same_color(#[trigger] palette[j], palette[i]) by {
        lemma_distance_zero(color, palette[j]);
        assert(distance_sq(color, palette[index]) < distance_sq(color, palette[j]));
    }
}

/// In both palettes of the format every entry snaps to its own index.
pub proof fn lemma_snap_own_palette(colors: u16, index: int)
    requires
        valid_colors(colors),
        0 <= index < palette_spec(colors).len(),
    ensures
        nearest_index(palette_spec(colors)[index], palette_spec(colors)) == index,
{
    let palette = palette_spec(colors);
    lemma_snap_palette_entry(palette, index);
    let found: int = nearest_index(palette[index], palette);
    if found < index {
        assert(same_color(palette[found], palette[index]));
        assert(palette[0][0] == 0 && palette[1][0] == 255);
        if colors == 4 {
            assert(palette[2][1] == 255 && palette[3][2] == 255);
            assert(palette[1][1] == 0 && palette[1][2] == 0 && palette[2][2] == 0);
        }
    }
}

/// Bits per pixel of a palette of `colors` entries, if the format knows that size.
pub fn bits_per_pixel(colors: u16) -> (bits: Option<u8>)
    ensures
        valid_colors(colors) ==> bits == Some(bits_for(colors)),
        !valid_colors(colors) ==> bits is None,
{
    if colors == 2 {
        Some(1)
    } else if colors == 4 {
        Some(2)
    } else {
        None
    }
}

/// The palette of `colors` entries.
pub fn palette(colors: u16) -> (entries: Vec<[u8; 3]>)
    requires
        valid_colors(colors),
    ensures
        entries@ == palette_spec(colors),
{
    let mut entries: Vec<[u8; 3]> = Vec::new();
    entries.push([0, 0, 0]);
    if colors == 2 {
        entries.push([255, 255, 255]);
    } else {
        entries.push([255, 0, 0]);
        entries.push([0, 255, 0]);
        entries.push([0, 0, 255]);
    }
    assert(entries@ =~= palette_spec(colors));
    entries
}

/// Squared Euclidean distance between two colours.
pub fn color_distance(a: [u8; 3], b: [u8; 3]) -> (d: u32)
    ensures
        d == distance_sq(a, b),
        d <= 195075,
{
    let mut total: u32 = 0;
    let mut c: usize = 0;
    while c < 3
        invariant
            c <= 3,
            total <= c * 65025,
            c == 0 ==> total == 0,
            c == 1 ==> total == (a[0] - b[0]) * (a[0] - b[0]),
            c == 2 ==> total == (a[0] - b[0]) * (a[0] - b[0]) + (a[1] - b[1]) * (a[1] - b[1]),
            c == 3 ==> total == distance_sq(a, b),
        decreases 3 - c,
    {
        let x: u32 = if a[c] >= b[c] { (a[c] - b[c]) as u32 } else { (b[c] - a[c]) as u32 };
        assert(x * x <= 65025 && x * x == (a[c as int] - b[c as int]) * (a[c as int] - b[c as int]))
            by (nonlinear_arith)
            requires
                x <= 255,
                x == a[c as int] - b[c as int] || x == b[c as int] - a[c as int],
        ;
        total = total + x * x;
        c += 1;
    }
    total
}

/// Maps an observed colour to the nearest palette entry.
///
/// Returns the index of the entry at the smallest squared distance, the lowest
/// such index on a tie, and whether the observed colour is that entry exactly.
pub fn try_read_pixel(color: [u8; 3], color_palette: &Vec<[u8; 3]>) -> (found: (usize, bool))
    requires
        color_palette.len() > 0,
    ensures
        found.0 == nearest_index(color, color_palette@),
        found.0 < color_palette.len(),
        found.1 == same_color(color, color_palette@[found.0 as int]),
{
    let mut best: usize = 0;
    let mut best_distance: u32 = color_distance(color, color_palette[0]);
    let mut i: usize = 1;
    while i < color_palette.len()
        invariant
            1 <= i <= color_palette.len(),
            best < i,
            best == nearest_among(color, color_palette@, i as int),
            best_distance == distance_sq(color, color_palette@[best as int]),
        decreases color_palette.len() - i,
    {
        let d: u32 = color_distance(color, color_palette[i]);
        if d < best_distance {
            best = i;
            best_distance = d;
        }
        i += 1;
    }
    proof {
        lemma_distance_zero(color, color_palette@[best as int]);
    }
    (best, best_distance == 0)
}

} // verus!
