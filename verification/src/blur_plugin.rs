//! Blur: every pixel becomes the average of the pixels within `radius` of
//! it, each weighted by its distance from it.

use vstd::prelude::*;
use crate::layout::{buffer_len, channel_of, column_of, offset, row_of};
use crate::layout::{lemma_offset_parts, pixel_offset};
use crate::sqrt::{floor_sqrt, is_floor_sqrt, isqrt, lemma_floor_sqrt, lemma_floor_sqrt_of_squares};
use crate::sums::{
    lemma_sum_range_bounds, lemma_sum_range_scaled, lemma_sum_range_window, lemma_sum_range_zero,
    sum_range,
};

verus! {

/// What the blur is asked to do.
#[derive(Clone, Copy, Debug)]
pub struct Params {
    /// Reach of the kernel, in pixels.
    pub radius: u32,
    /// Number of passes over the image.
    pub iterations: u32,
}

/// Distance between two pixels, rounded down.
pub open spec fn distance(cx: int, cy: int, nx: int, ny: int) -> int {
    floor_sqrt((cx - nx) * (cx - nx) + (cy - ny) * (cy - ny))
}

/// Weight of the pixel at (`nx`, `ny`) in the average for the pixel at
/// (`cx`, `cy`): its distance where that is within `radius`, nothing beyond.
pub open spec fn weight(radius: int, cx: int, cy: int, nx: int, ny: int) -> int {
    let d = distance(cx, cy, nx, ny);
    if d <= radius {
        d
    } else {
        0
    }
}

/// The weights along row `ny`, by column.
pub open spec fn row_weights(radius: int, cx: int, cy: int, ny: int) -> spec_fn(int) -> int {
    |nx: int| weight(radius, cx, cy, nx, ny)
}

/// The sum of the weights of each row of an image `width` pixels wide, by row.
pub open spec fn weight_rows(width: int, radius: int, cx: int, cy: int) -> spec_fn(int) -> int {
    |ny: int| sum_range(0, width, row_weights(radius, cx, cy, ny))
}

/// The sum of the weights of all pixels of the image.
pub open spec fn weight_sum(width: int, height: int, radius: int, cx: int, cy: int) -> int {
    sum_range(0, height, weight_rows(width, radius, cx, cy))
}

/// Channel `c` of the pixels along row `ny`, each times its weight, by column.
pub open spec fn row_values(
    data: Seq<u8>,
    width: int,
    radius: int,
    cx: int,
    cy: int,
    c: int,
    ny: int,
) -> spec_fn(int) -> int {
    |nx: int| weight(radius, cx, cy, nx, ny) * data[offset(width, nx, ny, c)]
}

/// The weighted sum of channel `c` over each row, by row.
pub open spec fn value_rows(data: Seq<u8>, width: int, radius: int, cx: int, cy: int, c: int)
    -> spec_fn(int) -> int {
    |ny: int| sum_range(0, width, row_values(data, width, radius, cx, cy, c, ny))
}

/// The weighted sum of channel `c` over all pixels of the image.
pub open spec fn channel_sum(
    data: Seq<u8>,
    width: int,
    height: int,
    radius: int,
    cx: int,
    cy: int,
    c: int,
) -> int {
    sum_range(0, height, value_rows(data, width, radius, cx, cy, c))
}

/// Channel `c` of the pixel at (`cx`, `cy`) after one pass: the weighted
/// average, rounded down, or the channel as it was where no pixel has weight.
pub open spec fn blurred_channel(
    data: Seq<u8>,
    width: int,
    height: int,
    radius: int,
    cx: int,
    cy: int,
    c: int,
) -> int {
    let total = weight_sum(width, height, radius, cx, cy);
    if total > 0 {
        channel_sum(data, width, height, radius, cx, cy, c) / total
    } else {
        data[offset(width, cx, cy, c)] as int
    }
}

/// The buffer after one pass: every byte is computed from `data` alone.
pub open spec fn blur_pass(data: Seq<u8>, width: int, height: int, radius: int) -> Seq<u8> {
    Seq::new(
        data.len(),
        |i: int|
            blurred_channel(
                data,
                width,
                height,
                radius,
                column_of(width, i),
                row_of(width, i),
                channel_of(i),
            ) as u8,
    )
}

/// The buffer after `iterations` passes, each made on the result of the one
/// before.
pub open spec fn blur(data: Seq<u8>, width: int, height: int, radius: int, iterations: nat) -> Seq<
    u8,
>
    decreases iterations,
{
    if iterations == 0 {
        data
    } else {
        blur_pass(blur(data, width, height, radius, (iterations - 1) as nat), width, height, radius)
    }
}

/// The buffer that `process_image` leaves: blurred as `params` say, or as it
/// was where there are no parameters.
pub open spec fn processed(data: Seq<u8>, width: int, height: int, params: Option<Params>) -> Seq<
    u8,
> {
    match params {
        Some(p) => blur(data, width, height, p.radius as int, p.iterations as nat),
        None => data,
    }
}

/// A weight is never negative and never above the radius.
pub proof fn lemma_weight_bounds(radius: int, cx: int, cy: int, nx: int, ny: int)
    requires
        0 <= radius,
    ensures
        0 <= weight(radius, cx, cy, nx, ny) <= radius,
{
    lemma_floor_sqrt_of_squares(cx - nx, cy - ny);
}

/// A pixel further than `radius` away along either axis has no weight.
pub proof fn lemma_weight_outside_box(radius: int, cx: int, cy: int, nx: int, ny: int)
    requires
        nx < cx - radius || nx > cx + radius || ny < cy - radius || ny > cy + radius,
    ensures
        weight(radius, cx, cy, nx, ny) == 0,
{
    lemma_floor_sqrt_of_squares(cx - nx, cy - ny);
    lemma_floor_sqrt_of_squares(cy - ny, cx - nx);
    assert((cx - nx) * (cx - nx) + (cy - ny) * (cy - ny) == (cy - ny) * (cy - ny) + (cx - nx) * (cx
        - nx));
}

/// The pixel itself has no weight in its own average.
pub proof fn lemma_weight_of_centre(radius: int, cx: int, cy: int)
    ensures
        weight(radius, cx, cy, cx, cy) == 0,
{
    assert((cx - cx) * (cx - cx) + (cy - cy) * (cy - cy) == 0);
    lemma_floor_sqrt(0);
    assert(is_floor_sqrt(0, 0));
}

/// Bounds on what one row adds to the sums of a pixel.
pub proof fn lemma_row_bounds(
    data: Seq<u8>,
    width: int,
    radius: int,
    cx: int,
    cy: int,
    c: int,
    ny: int,
    from: int,
    to: int,
)
    requires
        0 <= radius,
        from <= to,
    ensures
        0 <= sum_range(from, to, row_weights(radius, cx, cy, ny)) <= (to - from) * radius,
        0 <= sum_range(from, to, row_values(data, width, radius, cx, cy, c, ny)),
        sum_range(from, to, row_values(data, width, radius, cx, cy, c, ny)) <= 255 * sum_range(
            from,
            to,
            row_weights(radius, cx, cy, ny),
        ),
{
    let weights = row_weights(radius, cx, cy, ny);
    let values = row_values(data, width, radius, cx, cy, c, ny);
    assert forall|nx: int| from <= nx < to implies 0 <= #[trigger] weights(nx) <= radius by {
        lemma_weight_bounds(radius, cx, cy, nx, ny);
    }
    assert forall|nx: int| from <= nx < to implies 0 <= #[trigger] values(nx) <= 255 * radius
        && values(nx) <= 255 * weights(nx) by {
        lemma_weight_bounds(radius, cx, cy, nx, ny);
        let w = weight(radius, cx, cy, nx, ny);
        let v = data[offset(width, nx, ny, c)] as int;
        assert(0 <= w * v <= 255 * w && 255 * w <= 255 * radius) by (nonlinear_arith)
            requires
                0 <= w <= radius,
                0 <= v <= 255,
        ;
    }
    lemma_sum_range_bounds(from, to, weights, radius);
    lemma_sum_range_bounds(from, to, values, 255 * radius);
    lemma_sum_range_scaled(from, to, values, weights, 255);
}

/// A byte times a weight stays far below the range of the accumulators.
proof fn lemma_weighted_byte(v: u8, w: int)
    requires
        0 <= w <= 0xffff_ffff,
    ensures
        0 <= v * w <= 255 * 0xffff_ffff,
        v * w == w * v,
{
    assert(0 <= v * w <= 255 * 0xffff_ffff && v * w == w * v) by (nonlinear_arith)
        requires
            0 <= v <= 255,
            0 <= w <= 0xffff_ffff,
    ;
}

/// The sums that a pixel's average is made of.
struct KernelSums {
    /// Sum of the weights.
    weight: u128,
    /// Sum, for each channel, of the channel's values times their weights.
    channels: [u128; 4],
}

/// The sums over row `ny` for the pixel at (`cx`, `cy`). Only the columns
/// within `radius` of `cx` are visited: the others have no weight.
fn row_sums(data: &[u8], width: u32, height: u32, radius: u32, cx: u32, cy: u32, ny: u32) -> (s:
    KernelSums)
    requires
        data@.len() == buffer_len(width as int, height as int),
        cx < width,
        cy < height,
        ny < height,
    ensures
        s.weight == weight_rows(width as int, radius as int, cx as int, cy as int)(ny as int),
        forall|c: int|
            0 <= c < 4 ==> #[trigger] s.channels[c] == value_rows(
                data@,
                width as int,
                radius as int,
                cx as int,
                cy as int,
                c,
            )(ny as int),
{
    let x_start: u32 = if cx >= radius {
        cx - radius
    } else {
        0
    };
    let x_end: u32 = if radius >= width - 1 - cx {
        width - 1
    } else {
        cx + radius
    };
    let dy: u64 = if ny >= cy {
        (ny - cy) as u64
    } else {
        (cy - ny) as u64
    };
    let ghost weights = row_weights(radius as int, cx as int, cy as int, ny as int);
    proof {
        vstd::slice::axiom_spec_len(data);
    }
    let mut weight_total: u128 = 0;
    let mut channels: [u128; 4] = [0, 0, 0, 0];
    let mut nx: u32 = x_start;
    while nx <= x_end
        invariant
            data@.len() == buffer_len(width as int, height as int),
            data@.len() <= usize::MAX,
            cx < width,
            ny < height,
            x_start <= nx <= x_end + 1,
            x_end < width,
            x_start <= cx <= x_end,
            dy == ny - cy || dy == cy - ny,
            dy < 0x1_0000_0000,
            weights == row_weights(radius as int, cx as int, cy as int, ny as int),
            weight_total == sum_range(x_start as int, nx as int, weights),
            forall|c: int|
                0 <= c < 4 ==> #[trigger] channels[c] == sum_range(
                    x_start as int,
                    nx as int,
                    row_values(data@, width as int, radius as int, cx as int, cy as int, c, ny as int),
                ),
        decreases x_end + 1 - nx,
    {
        let dx: u64 = if nx >= cx {
            (nx - cx) as u64
        } else {
            (cx - nx) as u64
        };
        proof {
            assert(dx * dx <= 0xffff_ffff * 0xffff_ffff && dy * dy <= 0xffff_ffff * 0xffff_ffff)
                by (nonlinear_arith)
                requires
                    0 <= dx <= 0xffff_ffff,
                    0 <= dy <= 0xffff_ffff,
            ;
            assert(dx * dx == (cx - nx) * (cx - nx)) by (nonlinear_arith)
                requires
                    dx == cx - nx || dx == nx - cx,
            ;
            assert(dy * dy == (cy - ny) * (cy - ny)) by (nonlinear_arith)
                requires
                    dy == cy - ny || dy == ny - cy,
            ;
            lemma_row_bounds(
                data@,
                width as int,
                radius as int,
                cx as int,
                cy as int,
                0,
                ny as int,
                x_start as int,
                nx as int,
            );
            lemma_row_bounds(
                data@,
                width as int,
                radius as int,
                cx as int,
                cy as int,
                1,
                ny as int,
                x_start as int,
                nx as int,
            );
            lemma_row_bounds(
                data@,
                width as int,
                radius as int,
                cx as int,
                cy as int,
                2,
                ny as int,
                x_start as int,
                nx as int,
            );
            lemma_row_bounds(
                data@,
                width as int,
                radius as int,
                cx as int,
                cy as int,
                3,
                ny as int,
                x_start as int,
                nx as int,
            );
            assert((nx - x_start) * radius <= 0xffff_ffff * 0xffff_ffff) by (nonlinear_arith)
                requires
                    0 <= nx - x_start <= 0xffff_ffff,
                    0 <= radius <= 0xffff_ffff,
            ;
        }
        let dist: u64 = isqrt(dx as u128 * dx as u128 + dy as u128 * dy as u128);
        assert(dist == distance(cx as int, cy as int, nx as int, ny as int));
        if dist <= radius as u64 {
            let idx: usize = pixel_offset(width, height, nx, ny);
            let w: u128 = dist as u128;
            proof {
                lemma_weighted_byte(data@[idx as int], w as int);
                lemma_weighted_byte(data@[idx + 1], w as int);
                lemma_weighted_byte(data@[idx + 2], w as int);
                lemma_weighted_byte(data@[idx + 3], w as int);
            }
            weight_total = weight_total + w;
            channels[0] = channels[0] + data[idx] as u128 * w;
            channels[1] = channels[1] + data[idx + 1] as u128 * w;
            channels[2] = channels[2] + data[idx + 2] as u128 * w;
            channels[3] = channels[3] + data[idx + 3] as u128 * w;
        }
        nx = nx + 1;
    }
    proof {
        let r = radius as int;
        assert forall|i: int| 0 <= i < x_start implies #[trigger] weights(i) == 0 by {
            lemma_weight_outside_box(r, cx as int, cy as int, i, ny as int);
        }
        assert forall|i: int| x_end + 1 <= i < width implies #[trigger] weights(i) == 0 by {
            lemma_weight_outside_box(r, cx as int, cy as int, i, ny as int);
        }
        lemma_sum_range_window(0, x_start as int, x_end + 1, width as int, weights);
        assert forall|c: int| 0 <= c < 4 implies #[trigger] channels[c] == value_rows(
            data@,
            width as int,
            r,
            cx as int,
            cy as int,
            c,
        )(ny as int) by {
            let values = row_values(data@, width as int, r, cx as int, cy as int, c, ny as int);
            assert forall|i: int| 0 <= i < x_start implies #[trigger] values(i) == 0 by {
                lemma_weight_outside_box(r, cx as int, cy as int, i, ny as int);
            }
            assert forall|i: int| x_end + 1 <= i < width implies #[trigger] values(i) == 0 by {
                lemma_weight_outside_box(r, cx as int, cy as int, i, ny as int);
            }
            lemma_sum_range_window(0, x_start as int, x_end + 1, width as int, values);
        }
    }
    KernelSums { weight: weight_total, channels }
}

/// Bounds on what a run of rows adds to the sums of a pixel.
pub proof fn lemma_rows_bounds(
    data: Seq<u8>,
    width: int,
    radius: int,
    cx: int,
    cy: int,
    c: int,
    from: int,
    to: int,
)
    requires
        0 <= radius,
        0 <= width,
        from <= to,
    ensures
        0 <= sum_range(from, to, weight_rows(width, radius, cx, cy)) <= (to - from) * (width
            * radius),
        0 <= sum_range(from, to, value_rows(data, width, radius, cx, cy, c)),
        sum_range(from, to, value_rows(data, width, radius, cx, cy, c)) <= 255 * sum_range(
            from,
            to,
            weight_rows(width, radius, cx, cy),
        ),
{
    let weights = weight_rows(width, radius, cx, cy);
    let values = value_rows(data, width, radius, cx, cy, c);
    assert forall|ny: int| from <= ny < to implies 0 <= #[trigger] weights(ny) <= width * radius by {
        lemma_row_bounds(data, width, radius, cx, cy, c, ny, 0, width);
    }
    assert forall|ny: int| from <= ny < to implies 0 <= #[trigger] values(ny) <= 255 * (width
        * radius) && values(ny) <= 255 * weights(ny) by {
        lemma_row_bounds(data, width, radius, cx, cy, c, ny, 0, width);
    }
    lemma_sum_range_bounds(from, to, weights, width * radius);
    lemma_sum_range_bounds(from, to, values, 255 * (width * radius));
    lemma_sum_range_scaled(from, to, values, weights, 255);
}

/// A weighted average of bytes is a byte.
pub proof fn lemma_blurred_channel_is_byte(
    data: Seq<u8>,
    width: int,
    height: int,
    radius: int,
    cx: int,
    cy: int,
    c: int,
)
    requires
        0 <= radius,
        0 <= width,
        0 <= height,
    ensures
        0 <= blurred_channel(data, width, height, radius, cx, cy, c) <= 255,
{
    lemma_rows_bounds(data, width, radius, cx, cy, c, 0, height);
    let total = weight_sum(width, height, radius, cx, cy);
    let sum = channel_sum(data, width, height, radius, cx, cy, c);
    if total > 0 {
        assert(0 <= sum / total <= 255) by (nonlinear_arith)
            requires
                0 <= sum <= 255 * total,
                0 < total,
        ;
    }
}

/// The pixel at (`cx`, `cy`) after one pass over `data`. Only the rows
/// within `radius` of `cy` are visited: the others have no weight.
fn blur_pixel(data: &[u8], width: u32, height: u32, radius: u32, cx: u32, cy: u32) -> (pixel: [u8;
    4])
    requires
        data@.len() == buffer_len(width as int, height as int),
        cx < width,
        cy < height,
    ensures
        forall|c: int|
            0 <= c < 4 ==> #[trigger] pixel[c] == blurred_channel(
                data@,
                width as int,
                height as int,
                radius as int,
                cx as int,
                cy as int,
                c,
            ),
{
    let y_start: u32 = if cy >= radius {
        cy - radius
    } else {
        0
    };
    let y_end: u32 = if radius >= height - 1 - cy {
        height - 1
    } else {
        cy + radius
    };
    let ghost w = width as int;
    let ghost r = radius as int;
    let ghost weights = weight_rows(w, r, cx as int, cy as int);
    proof {
        vstd::slice::axiom_spec_len(data);
    }
    let mut weight_total: u128 = 0;
    let mut channels: [u128; 4] = [0, 0, 0, 0];
    let mut ny: u32 = y_start;
    while ny <= y_end
        invariant
            data@.len() == buffer_len(width as int, height as int),
            cx < width,
            cy < height,
            y_start <= ny <= y_end + 1,
            y_end < height,
            w == width,
            r == radius,
            weights == weight_rows(w, r, cx as int, cy as int),
            weight_total == sum_range(y_start as int, ny as int, weights),
            forall|c: int|
                0 <= c < 4 ==> #[trigger] channels[c] == sum_range(
                    y_start as int,
                    ny as int,
                    value_rows(data@, w, r, cx as int, cy as int, c),
                ),
        decreases y_end + 1 - ny,
    {
        let row = row_sums(data, width, height, radius, cx, cy, ny);
        proof {
            lemma_rows_bounds(data@, w, r, cx as int, cy as int, 0, y_start as int, ny + 1);
            lemma_rows_bounds(data@, w, r, cx as int, cy as int, 1, y_start as int, ny + 1);
            lemma_rows_bounds(data@, w, r, cx as int, cy as int, 2, y_start as int, ny + 1);
            lemma_rows_bounds(data@, w, r, cx as int, cy as int, 3, y_start as int, ny + 1);
            assert((ny + 1 - y_start) * (w * r) <= 0x1_0000_0000 * (0xffff_ffff * 0xffff_ffff))
                by (nonlinear_arith)
                requires
                    0 <= ny + 1 - y_start <= 0x1_0000_0000,
                    0 <= w <= 0xffff_ffff,
                    0 <= r <= 0xffff_ffff,
            ;
        }
        weight_total = weight_total + row.weight;
        channels[0] = channels[0] + row.channels[0];
        channels[1] = channels[1] + row.channels[1];
        channels[2] = channels[2] + row.channels[2];
        channels[3] = channels[3] + row.channels[3];
        ny = ny + 1;
    }
    proof {
        assert forall|i: int| (0 <= i < y_start || y_end + 1 <= i < height) implies #[trigger] weights(
            i,
        ) == 0 by {
            let row = row_weights(r, cx as int, cy as int, i);
            assert forall|j: int| 0 <= j < w implies #[trigger] row(j) == 0 by {
                lemma_weight_outside_box(r, cx as int, cy as int, j, i);
            }
            lemma_sum_range_zero(0, w, row);
        }
        lemma_sum_range_window(0, y_start as int, y_end + 1, height as int, weights);
        assert(weight_total == weight_sum(w, height as int, r, cx as int, cy as int));
        assert forall|c: int| 0 <= c < 4 implies #[trigger] channels[c] == channel_sum(
            data@,
            w,
            height as int,
            r,
            cx as int,
            cy as int,
            c,
        ) by {
            let values = value_rows(data@, w, r, cx as int, cy as int, c);
            assert forall|i: int|
                (0 <= i < y_start || y_end + 1 <= i < height) implies #[trigger] values(i) == 0 by {
                let row = row_values(data@, w, r, cx as int, cy as int, c, i);
                assert forall|j: int| 0 <= j < w implies #[trigger] row(j) == 0 by {
                    lemma_weight_outside_box(r, cx as int, cy as int, j, i);
                }
                lemma_sum_range_zero(0, w, row);
            }
            lemma_sum_range_window(0, y_start as int, y_end + 1, height as int, values);
        }
        lemma_blurred_channel_is_byte(data@, w, height as int, r, cx as int, cy as int, 0);
        lemma_blurred_channel_is_byte(data@, w, height as int, r, cx as int, cy as int, 1);
        lemma_blurred_channel_is_byte(data@, w, height as int, r, cx as int, cy as int, 2);
        lemma_blurred_channel_is_byte(data@, w, height as int, r, cx as int, cy as int, 3);
    }
    let idx: usize = pixel_offset(width, height, cx, cy);
    if weight_total > 0 {
        [
            (channels[0] / weight_total) as u8,
            (channels[1] / weight_total) as u8,
            (channels[2] / weight_total) as u8,
            (channels[3] / weight_total) as u8,
        ]
    } else {
        [data[idx], data[idx + 1], data[idx + 2], data[idx + 3]]
    }
}

/// One pass: fills `out` with the blurred image, reading `data` alone.
fn pass(data: &[u8], width: u32, height: u32, radius: u32, out: &mut [u8])
    requires
        data@.len() == buffer_len(width as int, height as int),
        old(out)@.len() == data@.len(),
    ensures
        final(out)@ == blur_pass(data@, width as int, height as int, radius as int),
{
    let ghost w = width as int;
    let ghost h = height as int;
    let ghost target = blur_pass(data@, w, h, radius as int);
    let mut cy: u32 = 0;
    while cy < height
        invariant
            data@.len() == buffer_len(w, h),
            out@.len() == data@.len(),
            w == width,
            h == height,
            cy <= height,
            target == blur_pass(data@, w, h, radius as int),
            forall|i: int| 0 <= i < offset(w, 0, cy as int, 0) ==> out@[i] == target[i],
        decreases height - cy,
    {
        let mut cx: u32 = 0;
        while cx < width
            invariant
                data@.len() == buffer_len(w, h),
                out@.len() == data@.len(),
                w == width,
                h == height,
                cy < height,
                cx <= width,
                target == blur_pass(data@, w, h, radius as int),
                forall|i: int| 0 <= i < offset(w, cx as int, cy as int, 0) ==> out@[i] == target[i],
            decreases width - cx,
        {
            let pixel = blur_pixel(data, width, height, radius, cx, cy);
            proof {
                vstd::slice::axiom_spec_len(data);
            }
            let idx: usize = pixel_offset(width, height, cx, cy);
            proof {
                assert forall|c: int| 0 <= c < 4 implies target[idx + c] == #[trigger] pixel[c] by {
                    lemma_offset_parts(w, cx as int, cy as int, c);
                    lemma_blurred_channel_is_byte(data@, w, h, radius as int, cx as int, cy as int, c);
                }
            }
            out[idx] = pixel[0];
            out[idx + 1] = pixel[1];
            out[idx + 2] = pixel[2];
            out[idx + 3] = pixel[3];
            cx = cx + 1;
        }
        proof {
            assert(offset(w, w, cy as int, 0) == offset(w, 0, cy + 1, 0)) by (nonlinear_arith);
        }
        cy = cy + 1;
    }
    proof {
        assert(offset(w, 0, h, 0) == buffer_len(w, h)) by (nonlinear_arith);
        assert(out@ =~= target);
    }
}

/// Copies `src` over `dst`.
fn copy_buffer(dst: &mut [u8], src: &[u8])
    requires
        old(dst)@.len() == src@.len(),
    ensures
        final(dst)@ == src@,
{
    let len: usize = src.len();
    let mut i: usize = 0;
    while i < len
        invariant
            len == src@.len(),
            dst@.len() == src@.len(),
            i <= len,
            forall|j: int| 0 <= j < i ==> dst@[j] == src@[j],
        decreases len - i,
    {
        dst[i] = src[i];
        i = i + 1;
    }
    assert(dst@ =~= src@);
}

/// Blurs the `width` × `height` image in `rgba_data` in place, as `params`
/// say. Without parameters the buffer is left as it is.
///
/// Each pass is written to a scratch buffer and copied back when it is
/// complete, so that no pixel is computed from a neighbour of the same pass.
pub fn process_image(width: u32, height: u32, rgba_data: &mut [u8], params: Option<Params>)
    requires
        old(rgba_data)@.len() == buffer_len(width as int, height as int),
    ensures
        final(rgba_data)@ == processed(old(rgba_data)@, width as int, height as int, params),
        final(rgba_data)@.len() == old(rgba_data)@.len(),
        params is None ==> final(rgba_data)@ == old(rgba_data)@,
{
    let params = match params {
        Some(params) => params,
        None => {
            return ;
        },
    };
    let ghost w = width as int;
    let ghost h = height as int;
    let ghost r = params.radius as int;
    let len: usize = rgba_data.len();
    let mut buf: Vec<u8> = vec![0u8; len];
    let mut done: u32 = 0;
    while done < params.iterations
        invariant
            rgba_data@.len() == buffer_len(w, h),
            rgba_data@.len() == old(rgba_data)@.len(),
            buf@.len() == rgba_data@.len(),
            w == width,
            h == height,
            r == params.radius,
            done <= params.iterations,
            rgba_data@ == blur(old(rgba_data)@, w, h, r, done as nat),
        decreases params.iterations - done,
    {
        pass(rgba_data, width, height, params.radius, buf.as_mut_slice());
        copy_buffer(rgba_data, buf.as_slice());
        done = done + 1;
    }
}

/// Blurring never changes the length of the buffer, whatever the
/// parameters and however many passes are made.
pub proof fn lemma_blur_keeps_length(data: Seq<u8>, width: int, height: int, params: Option<Params>)
    ensures
        processed(data, width, height, params).len() == data.len(),
{
    if let Some(p) = params {
        lemma_passes_keep_length(data, width, height, p.radius as int, p.iterations as nat);
    }
}

proof fn lemma_passes_keep_length(data: Seq<u8>, width: int, height: int, radius: int, iterations: nat)
    ensures
        blur(data, width, height, radius, iterations).len() == data.len(),
    decreases iterations,
{
    if iterations > 0 {
        lemma_passes_keep_length(data, width, height, radius, (iterations - 1) as nat);
    }
}

/// An image of a single pixel is left as it is, whatever the radius and the
/// number of passes: the only pixel in reach is the pixel itself, at
/// distance zero, so that no pixel has any weight.
pub proof fn lemma_blur_single_pixel(data: Seq<u8>, params: Option<Params>)
    requires
        data.len() == buffer_len(1, 1),
    ensures
        processed(data, 1, 1, params) == data,
{
    if let Some(p) = params {
        lemma_passes_single_pixel(data, p.radius as int, p.iterations as nat);
    }
}

proof fn lemma_passes_single_pixel(data: Seq<u8>, radius: int, iterations: nat)
    requires
        data.len() == 4,
    ensures
        blur(data, 1, 1, radius, iterations) == data,
    decreases iterations,
{
    if iterations > 0 {
        lemma_passes_single_pixel(data, radius, (iterations - 1) as nat);
        lemma_weight_of_centre(radius, 0, 0);
        let row = row_weights(radius, 0, 0, 0);
        assert(sum_range(0, 1, row) == 0) by {
            assert forall|nx: int| 0 <= nx < 1 implies #[trigger] row(nx) == 0 by {}
            lemma_sum_range_zero(0, 1, row);
        }
        let rows = weight_rows(1, radius, 0, 0);
        assert(weight_sum(1, 1, radius, 0, 0) == 0) by {
            assert forall|ny: int| 0 <= ny < 1 implies #[trigger] rows(ny) == 0 by {}
            lemma_sum_range_zero(0, 1, rows);
        }
        assert(blur_pass(data, 1, 1, radius) =~= data);
    }
}

/// Without parameters the buffer is left as it is, whatever the size of the
/// image.
pub proof fn lemma_no_parameters_no_change(data: Seq<u8>, width: int, height: int)
    ensures
        processed(data, width, height, None) == data,
{
}

} // verus!
