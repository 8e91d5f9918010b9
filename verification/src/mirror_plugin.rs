//! Mirror: reverses the order of the columns, of the rows, or of both.

use vstd::prelude::*;
use crate::layout::{buffer_len, channel_of, column_of, offset, row_of};
use crate::layout::{lemma_offset_in_buffer, lemma_offset_parts, lemma_parts_offset, pixel_offset};

verus! {

/// What the mirror is asked to do.
#[derive(Clone, Copy, Debug)]
pub struct Params {
    /// Reverse the columns: left becomes right.
    pub horizontal: bool,
    /// Reverse the rows: top becomes bottom.
    pub vertical: bool,
}

/// Where byte `i` is found after the columns are reversed: same row, same
/// channel, the column as far from the right edge as it was from the left.
pub open spec fn across(width: int, i: int) -> int {
    offset(width, width - 1 - column_of(width, i), row_of(width, i), channel_of(i))
}

/// Where byte `i` is found after the rows are reversed: same column, same
/// channel, the row as far from the bottom as it was from the top.
pub open spec fn below(width: int, height: int, i: int) -> int {
    offset(width, column_of(width, i), height - 1 - row_of(width, i), channel_of(i))
}

/// The buffer with the columns of the image reversed.
pub open spec fn flipped_horizontally(data: Seq<u8>, width: int) -> Seq<u8> {
    Seq::new(data.len(), |i: int| data[across(width, i)])
}

/// The buffer with the rows of the image reversed.
pub open spec fn flipped_vertically(data: Seq<u8>, width: int, height: int) -> Seq<u8> {
    Seq::new(data.len(), |i: int| data[below(width, height, i)])
}

/// The buffer mirrored as the two flags say: first the columns, then, on
/// what that gave, the rows.
pub open spec fn mirrored(
    data: Seq<u8>,
    width: int,
    height: int,
    horizontal: bool,
    vertical: bool,
) -> Seq<u8> {
    let columns_done = if horizontal {
        flipped_horizontally(data, width)
    } else {
        data
    };
    if vertical {
        flipped_vertically(columns_done, width, height)
    } else {
        columns_done
    }
}

/// The buffer that `process_image` leaves: mirrored as `params` say, or as
/// it was where there are no parameters.
pub open spec fn processed(data: Seq<u8>, width: int, height: int, params: Option<Params>) -> Seq<
    u8,
> {
    match params {
        Some(p) => mirrored(data, width, height, p.horizontal, p.vertical),
        None => data,
    }
}

/// The buffer with the four bytes at `a` and the four bytes at `b` exchanged.
spec fn exchanged(data: Seq<u8>, a: int, b: int) -> Seq<u8> {
    Seq::new(
        data.len(),
        |j: int|
            if a <= j < a + 4 {
                data[j - a + b]
            } else if b <= j < b + 4 {
                data[j - b + a]
            } else {
                data[j]
            },
    )
}

/// Exchanges the pixel that starts at `a` with the pixel that starts at `b`.
fn swap_pixels(data: &mut [u8], a: usize, b: usize)
    requires
        a + 4 <= b,
        b + 4 <= old(data)@.len(),
    ensures
        final(data)@ == exchanged(old(data)@, a as int, b as int),
{
    let mut c: usize = 0;
    while c < 4
        invariant
            c <= 4,
            a + 4 <= b,
            b + 4 <= data@.len(),
            data@.len() == old(data)@.len(),
            forall|j: int|
                0 <= j < data@.len() ==> data@[j] == if a <= j < a + c {
                    old(data)@[j - a + b]
                } else if b <= j < b + c {
                    old(data)@[j - b + a]
                } else {
                    old(data)@[j]
                },
        decreases 4 - c,
    {
        let first: u8 = data[a + c];
        let second: u8 = data[b + c];
        data[a + c] = second;
        data[b + c] = first;
        c = c + 1;
    }
    assert(data@ =~= exchanged(old(data)@, a as int, b as int));
}

/// The buffer while the columns are being reversed: the rows above `y` are
/// done, and so are the `x` outermost columns on either side of row `y`.
spec fn partly_flipped_horizontally(data: Seq<u8>, width: int, y: int, x: int) -> Seq<u8> {
    Seq::new(
        data.len(),
        |i: int|
            {
                let row = row_of(width, i);
                let column = column_of(width, i);
                if row < y || (row == y && (column < x || column >= width - x)) {
                    data[across(width, i)]
                } else {
                    data[i]
                }
            },
    )
}

/// Exchanging the pixels in columns `x` and `width - 1 - x` of row `y` takes
/// the reversal one column further.
proof fn lemma_flip_horizontally_step(data: Seq<u8>, width: int, height: int, y: int, x: int)
    requires
        data.len() == buffer_len(width, height),
        0 <= y < height,
        0 <= x,
        2 * x + 1 < width,
    ensures
        exchanged(
            partly_flipped_horizontally(data, width, y, x),
            offset(width, x, y, 0),
            offset(width, width - 1 - x, y, 0),
        ) == partly_flipped_horizontally(data, width, y, x + 1),
{
    let before = partly_flipped_horizontally(data, width, y, x);
    let left = offset(width, x, y, 0);
    let right = offset(width, width - 1 - x, y, 0);
    let after = exchanged(before, left, right);
    let goal = partly_flipped_horizontally(data, width, y, x + 1);
    lemma_offset_in_buffer(width, height, x, y, 3);
    lemma_offset_in_buffer(width, height, width - 1 - x, y, 3);
    assert forall|j: int| 0 <= j < data.len() implies after[j] == goal[j] by {
        lemma_parts_offset(width, height, j);
        let c = channel_of(j);
        lemma_offset_parts(width, x, y, c);
        lemma_offset_parts(width, width - 1 - x, y, c);
        if left <= j < left + 4 {
            lemma_offset_parts(width, x, y, j - left);
        } else if right <= j < right + 4 {
            lemma_offset_parts(width, width - 1 - x, y, j - right);
        }
    }
    assert(after =~= goal);
}

/// When the outer columns of row `y` are done, the row is: a column in the
/// middle stays where it is.
proof fn lemma_flip_horizontally_row(data: Seq<u8>, width: int, height: int, y: int)
    requires
        data.len() == buffer_len(width, height),
        0 <= y < height,
        0 <= width,
    ensures
        partly_flipped_horizontally(data, width, y, width / 2) == partly_flipped_horizontally(
            data,
            width,
            y + 1,
            0,
        ),
{
    let done = partly_flipped_horizontally(data, width, y, width / 2);
    let next = partly_flipped_horizontally(data, width, y + 1, 0);
    assert forall|j: int| 0 <= j < data.len() implies done[j] == next[j] by {
        lemma_parts_offset(width, height, j);
    }
    assert(done =~= next);
}

/// Before the first exchange nothing is reversed; after the last row
/// everything is.
proof fn lemma_flip_horizontally_ends(data: Seq<u8>, width: int, height: int)
    requires
        data.len() == buffer_len(width, height),
        0 <= width,
        0 <= height,
    ensures
        partly_flipped_horizontally(data, width, 0, 0) == data,
        partly_flipped_horizontally(data, width, height, 0) == flipped_horizontally(data, width),
{
    let first = partly_flipped_horizontally(data, width, 0, 0);
    let last = partly_flipped_horizontally(data, width, height, 0);
    assert forall|j: int| 0 <= j < data.len() implies first[j] == data[j] && last[j]
        == flipped_horizontally(data, width)[j] by {
        lemma_parts_offset(width, height, j);
    }
    assert(first =~= data);
    assert(last =~= flipped_horizontally(data, width));
}

/// Reverses the columns of the image in place: in each row the pixel in
/// column `x` changes places with the one in column `width - 1 - x`.
fn flip_horizontally(width: u32, height: u32, data: &mut [u8])
    requires
        old(data)@.len() == buffer_len(width as int, height as int),
    ensures
        final(data)@ == flipped_horizontally(old(data)@, width as int),
{
    let ghost w = width as int;
    let ghost h = height as int;
    proof {
        lemma_flip_horizontally_ends(old(data)@, w, h);
        vstd::slice::axiom_spec_len(data);
    }
    let mut y: u32 = 0;
    while y < height
        invariant
            old(data)@.len() == buffer_len(w, h),
            old(data)@.len() <= usize::MAX,
            w == width,
            h == height,
            y <= height,
            data@ == partly_flipped_horizontally(old(data)@, w, y as int, 0),
        decreases height - y,
    {
        let mut x: u32 = 0;
        while x < width / 2
            invariant
                old(data)@.len() == buffer_len(w, h),
                old(data)@.len() <= usize::MAX,
                w == width,
                h == height,
                y < height,
                x <= width / 2,
                data@ == partly_flipped_horizontally(old(data)@, w, y as int, x as int),
            decreases width / 2 - x,
        {
            let left: usize = pixel_offset(width, height, x, y);
            let right: usize = pixel_offset(width, height, width - 1 - x, y);
            proof {
                lemma_flip_horizontally_step(old(data)@, w, h, y as int, x as int);
            }
            swap_pixels(data, left, right);
            x = x + 1;
        }
        proof {
            lemma_flip_horizontally_row(old(data)@, w, h, y as int);
        }
        y = y + 1;
    }
}

/// The buffer while the rows are being reversed: the `y` outermost rows on
/// either side are done, and so are the first `x` columns of row `y` and of
/// the row it changes places with.
spec fn partly_flipped_vertically(data: Seq<u8>, width: int, height: int, y: int, x: int) -> Seq<
    u8,
> {
    Seq::new(
        data.len(),
        |i: int|
            {
                let row = row_of(width, i);
                let column = column_of(width, i);
                if row < y || row >= height - y || ((row == y || row == height - 1 - y) && column
                    < x) {
                    data[below(width, height, i)]
                } else {
                    data[i]
                }
            },
    )
}

/// Exchanging the pixels in rows `y` and `height - 1 - y` of column `x`
/// takes the reversal one column further.
proof fn lemma_flip_vertically_step(data: Seq<u8>, width: int, height: int, y: int, x: int)
    requires
        data.len() == buffer_len(width, height),
        0 <= x < width,
        0 <= y,
        2 * y + 1 < height,
    ensures
        exchanged(
            partly_flipped_vertically(data, width, height, y, x),
            offset(width, x, y, 0),
            offset(width, x, height - 1 - y, 0),
        ) == partly_flipped_vertically(data, width, height, y, x + 1),
{
    let before = partly_flipped_vertically(data, width, height, y, x);
    let top = offset(width, x, y, 0);
    let bottom = offset(width, x, height - 1 - y, 0);
    let after = exchanged(before, top, bottom);
    let goal = partly_flipped_vertically(data, width, height, y, x + 1);
    lemma_offset_in_buffer(width, height, x, y, 3);
    lemma_offset_in_buffer(width, height, x, height - 1 - y, 3);
    assert forall|j: int| 0 <= j < data.len() implies after[j] == goal[j] by {
        lemma_parts_offset(width, height, j);
        let c = channel_of(j);
        lemma_offset_parts(width, x, y, c);
        lemma_offset_parts(width, x, height - 1 - y, c);
        if top <= j < top + 4 {
            lemma_offset_parts(width, x, y, j - top);
        } else if bottom <= j < bottom + 4 {
            lemma_offset_parts(width, x, height - 1 - y, j - bottom);
        }
    }
    assert(after =~= goal);
}

/// When every column of row `y` has changed places, the row and its
/// counterpart are done.
proof fn lemma_flip_vertically_row(data: Seq<u8>, width: int, height: int, y: int)
    requires
        data.len() == buffer_len(width, height),
        0 <= y,
        2 * y + 1 < height,
        0 <= width,
    ensures
        partly_flipped_vertically(data, width, height, y, width) == partly_flipped_vertically(
            data,
            width,
            height,
            y + 1,
            0,
        ),
{
    let done = partly_flipped_vertically(data, width, height, y, width);
    let next = partly_flipped_vertically(data, width, height, y + 1, 0);
    assert forall|j: int| 0 <= j < data.len() implies done[j] == next[j] by {
        lemma_parts_offset(width, height, j);
    }
    assert(done =~= next);
}

/// Before the first exchange nothing is reversed; when the outer rows are
/// done everything is: a row in the middle stays where it is.
proof fn lemma_flip_vertically_ends(data: Seq<u8>, width: int, height: int)
    requires
        data.len() == buffer_len(width, height),
        0 <= width,
        0 <= height,
    ensures
        partly_flipped_vertically(data, width, height, 0, 0) == data,
        partly_flipped_vertically(data, width, height, height / 2, 0) == flipped_vertically(
            data,
            width,
            height,
        ),
{
    let first = partly_flipped_vertically(data, width, height, 0, 0);
    let last = partly_flipped_vertically(data, width, height, height / 2, 0);
    assert forall|j: int| 0 <= j < data.len() implies first[j] == data[j] && last[j]
        == flipped_vertically(data, width, height)[j] by {
        lemma_parts_offset(width, height, j);
    }
    assert(first =~= data);
    assert(last =~= flipped_vertically(data, width, height));
}

/// Reverses the rows of the image in place: in each column the pixel in row
/// `y` changes places with the one in row `height - 1 - y`.
fn flip_vertically(width: u32, height: u32, data: &mut [u8])
    requires
        old(data)@.len() == buffer_len(width as int, height as int),
    ensures
        final(data)@ == flipped_vertically(old(data)@, width as int, height as int),
{
    let ghost w = width as int;
    let ghost h = height as int;
    proof {
        lemma_flip_vertically_ends(old(data)@, w, h);
        vstd::slice::axiom_spec_len(data);
    }
    let mut y: u32 = 0;
    while y < height / 2
        invariant
            old(data)@.len() == buffer_len(w, h),
            old(data)@.len() <= usize::MAX,
            w == width,
            h == height,
            y <= height / 2,
            data@ == partly_flipped_vertically(old(data)@, w, h, y as int, 0),
        decreases height / 2 - y,
    {
        let mut x: u32 = 0;
        while x < width
            invariant
                old(data)@.len() == buffer_len(w, h),
                old(data)@.len() <= usize::MAX,
                w == width,
                h == height,
                y < height / 2,
                x <= width,
                data@ == partly_flipped_vertically(old(data)@, w, h, y as int, x as int),
            decreases width - x,
        {
            let top: usize = pixel_offset(width, height, x, y);
            let bottom: usize = pixel_offset(width, height, x, height - 1 - y);
            proof {
                lemma_flip_vertically_step(old(data)@, w, h, y as int, x as int);
                assert(top + 4 <= bottom) by (nonlinear_arith)
                    requires
                        top == (y * w + x) * 4,
                        bottom == ((h - 1 - y) * w + x) * 4,
                        y + 1 <= h - 1 - y,
                        1 <= w,
                ;
            }
            swap_pixels(data, top, bottom);
            x = x + 1;
        }
        proof {
            lemma_flip_vertically_row(old(data)@, w, h, y as int);
        }
        y = y + 1;
    }
}

/// Mirrors the `width` × `height` image in `rgba_data` in place, as `params`
/// say: first the columns, if asked, then the rows, if asked. Without
/// parameters the buffer is left as it is.
pub fn process_image(width: u32, height: u32, rgba_data: &mut [u8], params: Option<Params>)
    requires
        old(rgba_data)@.len() == buffer_len(width as int, height as int),
    ensures
        final(rgba_data)@ == processed(old(rgba_data)@, width as int, height as int, params),
        final(rgba_data)@.len() == old(rgba_data)@.len(),
        params is None ==> final(rgba_data)@ == old(rgba_data)@,
{
    let params = match params {
        Some(params) => params,
        None => {
            return ;
        },
    };
    if params.horizontal {
        flip_horizontally(width, height, rgba_data);
    }
    if params.vertical {
        flip_vertically(width, height, rgba_data);
    }
}

/// With neither flag set, mirroring leaves every image as it is.
pub proof fn lemma_mirror_nothing(data: Seq<u8>, width: int, height: int)
    ensures
        processed(data, width, height, Some(Params { horizontal: false, vertical: false }))
            == data,
{
}

/// Without parameters the buffer is left as it is.
pub proof fn lemma_no_parameters_no_change(data: Seq<u8>, width: int, height: int)
    ensures
        processed(data, width, height, None) == data,
{
}

/// Mirroring never changes the length of the buffer.
pub proof fn lemma_mirror_keeps_length(data: Seq<u8>, width: int, height: int, params: Option<Params>)
    ensures
        processed(data, width, height, params).len() == data.len(),
{
}

/// Reversing the columns twice gives the image back.
pub proof fn lemma_flip_horizontally_twice(data: Seq<u8>, width: nat, height: nat)
    requires
        data.len() == buffer_len(width as int, height as int),
    ensures
        flipped_horizontally(flipped_horizontally(data, width as int), width as int) == data,
{
    let w = width as int;
    let h = height as int;
    let once = flipped_horizontally(data, w);
    let twice = flipped_horizontally(once, w);
    assert forall|i: int| 0 <= i < data.len() implies twice[i] == data[i] by {
        lemma_parts_offset(w, h, i);
        let x = w - 1 - column_of(w, i);
        lemma_offset_in_buffer(w, h, x, row_of(w, i), channel_of(i));
        lemma_offset_parts(w, x, row_of(w, i), channel_of(i));
    }
    assert(twice =~= data);
}

/// Reversing the rows twice gives the image back.
pub proof fn lemma_flip_vertically_twice(data: Seq<u8>, width: nat, height: nat)
    requires
        data.len() == buffer_len(width as int, height as int),
    ensures
        flipped_vertically(flipped_vertically(data, width as int, height as int), width as int, height as int)
            == data,
{
    let w = width as int;
    let h = height as int;
    let once = flipped_vertically(data, w, h);
    let twice = flipped_vertically(once, w, h);
    assert forall|i: int| 0 <= i < data.len() implies twice[i] == data[i] by {
        lemma_parts_offset(w, h, i);
        let y = h - 1 - row_of(w, i);
        lemma_offset_in_buffer(w, h, column_of(w, i), y, channel_of(i));
        lemma_offset_parts(w, column_of(w, i), y, channel_of(i));
    }
    assert(twice =~= data);
}

/// It makes no difference whether the columns or the rows are reversed
/// first.
pub proof fn lemma_flips_commute(data: Seq<u8>, width: nat, height: nat)
    requires
        data.len() == buffer_len(width as int, height as int),
    ensures
        flipped_vertically(flipped_horizontally(data, width as int), width as int, height as int)
            == flipped_horizontally(
            flipped_vertically(data, width as int, height as int),
            width as int,
        ),
{
    let w = width as int;
    let h = height as int;
    let one = flipped_vertically(flipped_horizontally(data, w), w, h);
    let other = flipped_horizontally(flipped_vertically(data, w, h), w);
    assert forall|i: int| 0 <= i < data.len() implies one[i] == other[i] by {
        lemma_parts_offset(w, h, i);
        let x = w - 1 - column_of(w, i);
        let y = h - 1 - row_of(w, i);
        lemma_offset_in_buffer(w, h, x, row_of(w, i), channel_of(i));
        lemma_offset_parts(w, x, row_of(w, i), channel_of(i));
        lemma_offset_in_buffer(w, h, column_of(w, i), y, channel_of(i));
        lemma_offset_parts(w, column_of(w, i), y, channel_of(i));
    }
    assert(one =~= other);
}

/// Mirroring is its own inverse: applied twice with the same parameters, it
/// gives the image back. This holds with the horizontal flag alone, with the
/// vertical flag alone, with both and with neither.
pub proof fn lemma_mirror_twice(data: Seq<u8>, width: nat, height: nat, params: Option<Params>)
    requires
        data.len() == buffer_len(width as int, height as int),
    ensures
        processed(processed(data, width as int, height as int, params), width as int, height as int, params)
            == data,
{
    let w = width as int;
    let h = height as int;
    if let Some(p) = params {
        if p.horizontal && p.vertical {
            // Columns, rows, columns, rows: the two in the middle change
            // places, and each pair undoes itself.
            let columns = flipped_horizontally(data, w);
            lemma_flips_commute(flipped_vertically(columns, w, h), width, height);
            lemma_flip_vertically_twice(columns, width, height);
            lemma_flip_horizontally_twice(data, width, height);
        } else if p.horizontal {
            lemma_flip_horizontally_twice(data, width, height);
        } else if p.vertical {
            lemma_flip_vertically_twice(data, width, height);
        }
    }
}

} // verus!
