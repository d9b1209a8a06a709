use vstd::prelude::*;

use vstd::arithmetic::div_mod::{
    lemma_div_is_ordered, lemma_div_multiples_vanish, lemma_fundamental_div_mod,
    lemma_fundamental_div_mod_converse, lemma_mod_bound,
};
use vstd::arithmetic::mul::lemma_mul_inequality;

verus! {

pub const WIDTH: usize = 1920;

pub const HEIGHT: usize = 1080;

pub const BLACK: u32 = 0x000000;

pub const HIGHLIGHT_COLOR: u32 = 0xFF0000;

pub const SORTED_COLOR: u32 = 0x00FF00;

pub const UNSORTED_COLOR: u32 = 0x0000FF;

/// Does the optional highlight name this bar?
pub open spec fn is_idx(o: Option<usize>, i: int) -> bool {
    match o {
        Some(k) => k == i,
        None => false,
    }
}

/// The color of one bar: a highlight wins over everything; otherwise bars
/// at or past the sorted boundary are drawn sorted, the rest unsorted; with
/// no boundary set, everything is unsorted.
pub open spec fn bar_color(
    i: int,
    h1: Option<usize>,
    h2: Option<usize>,
    sorted_from: Option<usize>,
) -> u32 {
    if is_idx(h1, i) || is_idx(h2, i) {
        HIGHLIGHT_COLOR
    } else {
        match sorted_from {
            Some(b) => if i >= b {
                SORTED_COLOR
            } else {
                UNSORTED_COLOR
            },
            None => UNSORTED_COLOR,
        }
    }
}

/// Height in pixels of a bar of value `v` in an array of `len` bars: the
/// value normalized by the array length, scaled to the frame height.
pub open spec fn bar_height(v: u32, len: nat) -> int {
    if len == 0 {
        0
    } else {
        (v as int) * (HEIGHT as int) / (len as int)
    }
}

/// Is the pixel at column `x`, row `y` covered by a bar? Bars sit side by
/// side, `bw` pixels wide, and grow upward from the bottom edge.
pub open spec fn pixel_on(arr: Seq<u32>, bw: nat, x: int, y: int) -> bool {
    &&& bw > 0
    &&& x / (bw as int) < arr.len()
    &&& (HEIGHT as int) - bar_height(arr[x / (bw as int)], arr.len()) <= y
}

/// The color drawn at column `x`, row `y`.
pub open spec fn pixel_color(
    arr: Seq<u32>,
    h1: Option<usize>,
    h2: Option<usize>,
    sf: Option<usize>,
    bw: nat,
    x: int,
    y: int,
) -> u32 {
    if pixel_on(arr, bw, x, y) {
        bar_color(x / (bw as int), h1, h2, sf)
    } else {
        BLACK
    }
}

/// The color at flat (row-major) buffer position `t`.
pub open spec fn pixel_at(
    arr: Seq<u32>,
    h1: Option<usize>,
    h2: Option<usize>,
    sf: Option<usize>,
    bw: nat,
    t: int,
) -> u32 {
    pixel_color(arr, h1, h2, sf, bw, t % (WIDTH as int), t / (WIDTH as int))
}

/// Row-major indexing: `y * WIDTH + x` is in the buffer's range and decodes
/// back to the column and the row.
pub proof fn lemma_pixel_lookup(x: int, y: int)
    requires
        0 <= x < WIDTH,
        0 <= y < HEIGHT,
    ensures
        0 <= y * (WIDTH as int) + x < (WIDTH * HEIGHT) as int,
        (y * (WIDTH as int) + x) % (WIDTH as int) == x,
        (y * (WIDTH as int) + x) / (WIDTH as int) == y,
{
    let w: int = WIDTH as int;
    lemma_fundamental_div_mod_converse(y * w + x, w, y, x);
    lemma_mul_inequality(y + 1, HEIGHT as int, w);
    assert(y * w + w == (y + 1) * w) by (nonlinear_arith);
    assert(y * w >= 0) by (nonlinear_arith)
        requires
            y >= 0,
            w > 0,
    ;
}

/// A column belongs to bar `i` exactly when it lies in the bar's extent.
proof fn lemma_bar_of_x(x: int, bw: int, i: int)
    requires
        bw > 0,
        x >= 0,
        i >= 0,
    ensures
        x / bw == i <==> i * bw <= x < i * bw + bw,
{
    if i * bw <= x < i * bw + bw {
        lemma_fundamental_div_mod_converse(x, bw, i, x - i * bw);
    }
    if x / bw == i {
        lemma_fundamental_div_mod(x, bw);
        lemma_mod_bound(x, bw);
        assert(bw * i == i * bw) by (nonlinear_arith);
    }
}

/// The drawn buffer is a function of the drawing arguments alone: any two
/// buffers that hold a full redraw from the same arguments are equal, so
/// redrawing with identical arguments never changes a pixel.
pub proof fn lemma_draw_bars_deterministic(
    b1: Seq<u32>,
    b2: Seq<u32>,
    arr: Seq<u32>,
    h1: Option<usize>,
    h2: Option<usize>,
    sf: Option<usize>,
    bw: nat,
)
    requires
        b1.len() == WIDTH * HEIGHT,
        b2.len() == WIDTH * HEIGHT,
        forall|t: int| 0 <= t < b1.len() ==> b1[t] == pixel_at(arr, h1, h2, sf, bw, t),
        forall|t: int| 0 <= t < b2.len() ==> b2[t] == pixel_at(arr, h1, h2, sf, bw, t),
    ensures
        b1 == b2,
{
    assert(b1 =~= b2);
}

/// A valid highlight index takes priority: every covered pixel of its bar
/// is drawn in the highlight color, whatever the sorted boundary says.
pub proof fn lemma_highlight_takes_priority(
    arr: Seq<u32>,
    h1: Option<usize>,
    h2: Option<usize>,
    sf: Option<usize>,
    bw: nat,
    x: int,
    y: int,
)
    requires
        pixel_on(arr, bw, x, y),
        is_idx(h1, x / (bw as int)) || is_idx(h2, x / (bw as int)),
    ensures
        pixel_color(arr, h1, h2, sf, bw, x, y) == HIGHLIGHT_COLOR,
{
}

/// With no highlight on a covered bar, the sorted boundary decides: bars at
/// or past it are drawn in the sorted color, bars before it in the default
/// (unsorted) color.
pub proof fn lemma_sorted_boundary_colors(
    arr: Seq<u32>,
    h1: Option<usize>,
    h2: Option<usize>,
    b: usize,
    bw: nat,
    x: int,
    y: int,
)
    requires
        pixel_on(arr, bw, x, y),
        !is_idx(h1, x / (bw as int)),
        !is_idx(h2, x / (bw as int)),
    ensures
        x / (bw as int) >= b ==> pixel_color(arr, h1, h2, Some(b), bw, x, y) == SORTED_COLOR,
        x / (bw as int) < b ==> pixel_color(arr, h1, h2, Some(b), bw, x, y) == UNSORTED_COLOR,
{
}

/// Rasterize the array into the pixel buffer as vertical bars anchored at
/// the bottom edge: the buffer is cleared to black, then each bar is drawn
/// with its height proportional to its value and its color chosen by the
/// highlight indices and the sorted boundary.
pub fn draw_bars(
    array: &Vec<u32>,
    buffer: &mut Vec<u32>,
    highlight_idx1: Option<usize>,
    highlight_idx2: Option<usize>,
    sorted_until_idx: Option<usize>,
    bar_width: usize,
)
    requires
        old(buffer)@.len() == WIDTH * HEIGHT,
        array@.len() <= WIDTH,
        bar_width <= WIDTH,
        forall|t: int| 0 <= t < array@.len() ==> array@[t] <= array@.len(),
    ensures
        final(buffer)@.len() == WIDTH * HEIGHT,
        forall|t: int| 0 <= t < final(buffer)@.len() ==> final(buffer)@[t] == pixel_at(
            array@,
            highlight_idx1,
            highlight_idx2,
            sorted_until_idx,
            bar_width as nat,
            t,
        ),
{
    let n: usize = array.len();
    let total: usize = WIDTH * HEIGHT;
    let mut t: usize = 0;
    while t < total
        invariant
            total == WIDTH * HEIGHT,
            buffer@.len() == total,
            t <= total,
            forall|u: int| 0 <= u < t ==> buffer@[u] == BLACK,
        decreases total - t,
    {
        buffer[t] = BLACK;
        t += 1;
    }
    if bar_width == 0 {
        return ;
    }
    let w: usize = WIDTH;
    for i in 0..n
        invariant
            n == array@.len(),
            n <= WIDTH,
            w == WIDTH,
            0 < bar_width <= WIDTH,
            total == WIDTH * HEIGHT,
            buffer@.len() == total,
            forall|t2: int| 0 <= t2 < array@.len() ==> array@[t2] <= array@.len(),
            forall|u: int| 0 <= u < total ==> buffer@[u] == (if (u % (WIDTH as int)) / (
            bar_width as int) < i {
                pixel_at(
                    array@,
                    highlight_idx1,
                    highlight_idx2,
                    sorted_until_idx,
                    bar_width as nat,
                    u,
                )
            } else {
                BLACK
            }),
    {
        let v: u32 = array[i];
        let bh: usize = ((v as u64) * (HEIGHT as u64) / (n as u64)) as usize;
        proof {
            assert((v as int) * (HEIGHT as int) <= (n as int) * (HEIGHT as int)) by {
                lemma_mul_inequality(v as int, n as int, HEIGHT as int);
            }
            lemma_div_is_ordered(
                (v as int) * (HEIGHT as int),
                (n as int) * (HEIGHT as int),
                n as int,
            );
            lemma_div_multiples_vanish(HEIGHT as int, n as int);
            assert((n as int) * (HEIGHT as int) == (n as int) * (HEIGHT as int));
            assert(((n as int) * (HEIGHT as int)) / (n as int) == HEIGHT as int);
            assert(bh as int == bar_height(v, n as nat));
            assert(bh <= HEIGHT);
        }
        let y_start: usize = HEIGHT - bh;
        proof {
            assert((i as int) * (bar_width as int) <= (WIDTH as int) * (WIDTH as int))
                by (nonlinear_arith)
                requires
                    0 <= i as int <= WIDTH as int,
                    0 <= bar_width as int <= WIDTH as int,
            ;
        }
        let x_start: usize = i * bar_width;
        let x_end: usize = if x_start + bar_width > w {
            w
        } else {
            x_start + bar_width
        };
        let hi_a: bool = match highlight_idx1 {
            Some(k) => k == i,
            None => false,
        };
        let hi_b: bool = match highlight_idx2 {
            Some(k) => k == i,
            None => false,
        };
        let color: u32 = if hi_a || hi_b {
            HIGHLIGHT_COLOR
        } else {
            match sorted_until_idx {
                Some(b) => if i >= b {
                    SORTED_COLOR
                } else {
                    UNSORTED_COLOR
                },
                None => UNSORTED_COLOR,
            }
        };
        proof {
            assert(color == bar_color(
                i as int,
                highlight_idx1,
                highlight_idx2,
                sorted_until_idx,
            ));
        }
        let mut y: usize = y_start;
        while y < HEIGHT
            invariant
                n == array@.len(),
                n <= WIDTH,
                w == WIDTH,
                i < n,
                0 < bar_width <= WIDTH,
                total == WIDTH * HEIGHT,
                buffer@.len() == total,
                y_start <= y <= HEIGHT,
                y_start as int == (HEIGHT as int) - bar_height(v, n as nat),
                v == array@[i as int],
                x_start == i * bar_width,
                x_end == (if x_start + bar_width > WIDTH {
                    WIDTH as int
                } else {
                    x_start + bar_width
                }),
                color == bar_color(i as int, highlight_idx1, highlight_idx2, sorted_until_idx),
                forall|t2: int| 0 <= t2 < array@.len() ==> array@[t2] <= array@.len(),
                forall|u: int| 0 <= u < total ==> buffer@[u] == (if (u % (WIDTH as int)) / (
                bar_width as int) < i {
                    pixel_at(
                        array@,
                        highlight_idx1,
                        highlight_idx2,
                        sorted_until_idx,
                        bar_width as nat,
                        u,
                    )
                } else if (u % (WIDTH as int)) / (bar_width as int) == i && y_start <= u / (
                WIDTH as int) < y {
                    color
                } else {
                    BLACK
                }),
            decreases HEIGHT - y,
        {
            let mut x: usize = x_start;
            while x < x_end
                invariant
                    n == array@.len(),
                    n <= WIDTH,
                    w == WIDTH,
                    i < n,
                    0 < bar_width <= WIDTH,
                    total == WIDTH * HEIGHT,
                    buffer@.len() == total,
                    y_start <= y < HEIGHT,
                    y_start as int == (HEIGHT as int) - bar_height(v, n as nat),
                    v == array@[i as int],
                    x_start == i * bar_width,
                    x_start <= x,
                    x <= x_end || x == x_start,
                    x_end == (if x_start + bar_width > WIDTH {
                        WIDTH as int
                    } else {
                        x_start + bar_width
                    }),
                    color == bar_color(
                        i as int,
                        highlight_idx1,
                        highlight_idx2,
                        sorted_until_idx,
                    ),
                    forall|t2: int| 0 <= t2 < array@.len() ==> array@[t2] <= array@.len(),
                    forall|u: int| 0 <= u < total ==> buffer@[u] == (if (u % (WIDTH as int)) / (
                    bar_width as int) < i {
                        pixel_at(
                            array@,
                            highlight_idx1,
                            highlight_idx2,
                            sorted_until_idx,
                            bar_width as nat,
                            u,
                        )
                    } else if (u % (WIDTH as int)) / (bar_width as int) == i && (y_start <= u / (
                    WIDTH as int) < y || (u / (WIDTH as int) == y && x_start <= u % (WIDTH as int)
                        < x)) {
                        color
                    } else {
                        BLACK
                    }),
                decreases x_end - x,
            {
                let pos: usize = y * w + x;
                proof {
                    lemma_pixel_lookup(x as int, y as int);
                    lemma_bar_of_x(x as int, bar_width as int, i as int);
                }
                buffer[pos] = color;
                proof {
                    assert forall|u: int| 0 <= u < total implies buffer@[u] == (if (u % (
                    WIDTH as int)) / (bar_width as int) < i {
                        pixel_at(
                            array@,
                            highlight_idx1,
                            highlight_idx2,
                            sorted_until_idx,
                            bar_width as nat,
                            u,
                        )
                    } else if (u % (WIDTH as int)) / (bar_width as int) == i && (y_start <= u / (
                    WIDTH as int) < y || (u / (WIDTH as int) == y && x_start <= u % (WIDTH as int)
                        < x + 1)) {
                        color
                    } else {
                        BLACK
                    }) by {
                        lemma_fundamental_div_mod(u, WIDTH as int);
                        lemma_mod_bound(u, WIDTH as int);
                    };
                }
                x += 1;
            }
            proof {
                assert forall|u: int| 0 <= u < total implies buffer@[u] == (if (u % (
                WIDTH as int)) / (bar_width as int) < i {
                    pixel_at(
                        array@,
                        highlight_idx1,
                        highlight_idx2,
                        sorted_until_idx,
                        bar_width as nat,
                        u,
                    )
                } else if (u % (WIDTH as int)) / (bar_width as int) == i && y_start <= u / (
                WIDTH as int) < y + 1 {
                    color
                } else {
                    BLACK
                }) by {
                    let xu = u % (WIDTH as int);
                    lemma_mod_bound(u, WIDTH as int);
                    lemma_bar_of_x(xu, bar_width as int, i as int);
                };
            }
            y += 1;
        }
        proof {
            assert forall|u: int| 0 <= u < total implies buffer@[u] == (if (u % (WIDTH as int)) / (
            bar_width as int) < i + 1 {
                pixel_at(
                    array@,
                    highlight_idx1,
                    highlight_idx2,
                    sorted_until_idx,
                    bar_width as nat,
                    u,
                )
            } else {
                BLACK
            }) by {
                let xu = u % (WIDTH as int);
                let yu = u / (WIDTH as int);
                lemma_mod_bound(u, WIDTH as int);
                lemma_bar_of_x(xu, bar_width as int, i as int);
                lemma_div_is_ordered(u, (WIDTH as int) * (HEIGHT as int) - 1, WIDTH as int);
                lemma_fundamental_div_mod_converse(
                    (WIDTH as int) * (HEIGHT as int) - 1,
                    WIDTH as int,
                    (HEIGHT as int) - 1,
                    (WIDTH as int) - 1,
                );
                assert(yu < HEIGHT as int);
            };
        }
    }
    proof {
        assert forall|u: int| 0 <= u < total implies buffer@[u] == pixel_at(
            array@,
            highlight_idx1,
            highlight_idx2,
            sorted_until_idx,
            bar_width as nat,
            u,
        ) by {
            let xu = u % (WIDTH as int);
            lemma_mod_bound(u, WIDTH as int);
            lemma_div_is_ordered(u, (WIDTH as int) * (HEIGHT as int) - 1, WIDTH as int);
            lemma_fundamental_div_mod_converse(
                (WIDTH as int) * (HEIGHT as int) - 1,
                WIDTH as int,
                (HEIGHT as int) - 1,
                (WIDTH as int) - 1,
            );
            if (xu / (bar_width as int)) >= n {
                assert(!pixel_on(array@, bar_width as nat, xu, u / (WIDTH as int)));
            }
        };
    }
}

} // verus!
