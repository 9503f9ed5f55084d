use vstd::prelude::*;

use crate::types::StopLabel;

verus! {

/// Page head of the stop map: pinned Leaflet 1.9.4 and leaflet.heat 0.2.0
/// from a CDN, each with a Subresource Integrity hash.
pub const CDN_HEAD: &'static str = r#"  <link rel="stylesheet" href="https://unpkg.com/leaflet@1.9.4/dist/leaflet.css" integrity="sha384-sHL9NAb7lN7rfvG5lfHpm643Xkcjzp4jFvuavGOndn6pjVqS6ny56CAt3nsEVT4H" crossorigin="anonymous"/>
  <script src="https://unpkg.com/leaflet@1.9.4/dist/leaflet.js" integrity="sha384-cxOPjt7s7Iz04uaHJceBmS+qpjv2JkIHNVcuOrM+YHwZOmJGBXI00mdUXEq65HTH" crossorigin="anonymous"></script>
  <script src="https://unpkg.com/leaflet.heat@0.2.0/dist/leaflet-heat.js" integrity="sha384-mFKkGiGvT5vo1fEyGCD3hshDdKmW3wzXW/x+fWriYJArD0R3gawT6lMvLboM22c0" crossorigin="anonymous"></script>"#;

/// Number of colors in the stop-marker palette.
pub const PALETTE_LEN: usize = 12;

/// The stop-marker palette, in order.
pub open spec fn palette() -> Seq<Seq<char>> {
    seq![
        "#e41a1c"@,
        "#377eb8"@,
        "#4daf4a"@,
        "#984ea3"@,
        "#ff7f00"@,
        "#a65628"@,
        "#f781bf"@,
        "#999999"@,
        "#66c2a5"@,
        "#fc8d62"@,
        "#8da0cb"@,
        "#e78ac3"@,
    ]
}

/// The palette color at index `i` (`0 <= i < PALETTE_LEN`).
pub open spec fn palette_color(i: int) -> Seq<char> {
    palette()[i]
}

/// Reads back a palette index from the two hex digits after the `#`.
spec fn palette_position(s: Seq<char>) -> int {
    if s[1] == 'e' && s[2] == '4' {
        0
    } else if s[1] == '3' && s[2] == '7' {
        1
    } else if s[1] == '4' && s[2] == 'd' {
        2
    } else if s[1] == '9' && s[2] == '8' {
        3
    } else if s[1] == 'f' && s[2] == 'f' {
        4
    } else if s[1] == 'a' && s[2] == '6' {
        5
    } else if s[1] == 'f' && s[2] == '7' {
        6
    } else if s[1] == '9' && s[2] == '9' {
        7
    } else if s[1] == '6' && s[2] == '6' {
        8
    } else if s[1] == 'f' && s[2] == 'c' {
        9
    } else if s[1] == '8' && s[2] == 'd' {
        10
    } else if s[1] == 'e' && s[2] == '7' {
        11
    } else {
        -1
    }
}

/// Each palette entry is told apart by its first two hex digits.
proof fn lemma_palette_positions()
    ensures
        forall|i: int| 0 <= i < 12 ==> #[trigger] palette_position(palette()[i]) == i,
{
    assert forall|i: int| 0 <= i < 12 implies #[trigger] palette_position(palette()[i]) == i by {
        if i == 0 {
            reveal_strlit("#e41a1c");
        } else if i == 1 {
            reveal_strlit("#377eb8");
        } else if i == 2 {
            reveal_strlit("#4daf4a");
        } else if i == 3 {
            reveal_strlit("#984ea3");
        } else if i == 4 {
            reveal_strlit("#ff7f00");
        } else if i == 5 {
            reveal_strlit("#a65628");
        } else if i == 6 {
            reveal_strlit("#f781bf");
        } else if i == 7 {
            reveal_strlit("#999999");
        } else if i == 8 {
            reveal_strlit("#66c2a5");
        } else if i == 9 {
            reveal_strlit("#fc8d62");
        } else if i == 10 {
            reveal_strlit("#8da0cb");
        } else {
            reveal_strlit("#e78ac3");
        }
    }
}

/// The palette holds `PALETTE_LEN` pairwise different colors, so stops whose
/// labels differ modulo the palette size are drawn in different colors.
pub proof fn law_palette_distinct(i: int, j: int)
    requires
        0 <= i < PALETTE_LEN,
        0 <= j < PALETTE_LEN,
        i != j,
    ensures
        palette().len() == PALETTE_LEN,
        palette()[i] != palette()[j],
{
    lemma_palette_positions();
    assert(palette_position(palette()[i]) == i);
    assert(palette_position(palette()[j]) == j);
}

/// Two labels get the same map color exactly when they agree modulo the
/// palette size.
pub proof fn law_label_colors(l1: StopLabel, l2: StopLabel)
    ensures
        palette_color(palette_index(l1)) == palette_color(palette_index(l2)) <==> palette_index(l1)
            == palette_index(l2),
{
    if palette_index(l1) != palette_index(l2) {
        law_palette_distinct(palette_index(l1), palette_index(l2));
    }
}

/// Palette position of a label: the label modulo the palette size, taken
/// non-negative (so `NON_STOP` wraps to the last color).
pub open spec fn palette_index(label: StopLabel) -> int {
    (label as int) % (PALETTE_LEN as int)
}

/// The marker color of a stop label on the map.
pub fn color_for_label(label: StopLabel) -> (c: &'static str)
    ensures
        c@ == palette_color(palette_index(label)),
        0 <= palette_index(label) < PALETTE_LEN,
        c@ == palette()[palette_index(label)],
{
    let idx: i32 = if label >= 0 {
        label % 12
    } else {
        11 - (-(label + 1)) % 12
    };
    assert(idx == palette_index(label)) by {
        if label < 0 {
            assert((label as int) % 12 == 11 - (-(label + 1)) % 12) by (nonlinear_arith)
                requires
                    label < 0,
            ;
        }
    }
    match idx {
        0 => "#e41a1c",
        1 => "#377eb8",
        2 => "#4daf4a",
        3 => "#984ea3",
        4 => "#ff7f00",
        5 => "#a65628",
        6 => "#f781bf",
        7 => "#999999",
        8 => "#66c2a5",
        9 => "#fc8d62",
        10 => "#8da0cb",
        _ => "#e78ac3",
    }
}

} // verus!
