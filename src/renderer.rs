//! The software rasterizer: a framebuffer of packed `0x00RRGGBB` cells and the
//! primitive drawing operations on it.
use vstd::prelude::*;
use vstd::arithmetic::div_mod::{
    lemma_fundamental_div_mod, lemma_fundamental_div_mod_converse, lemma_multiply_divide_lt,
};
use crate::assets::ImageData;

verus! {

/// The packed form of an RGBA color: red, green and blue in the low 24 bits,
/// alpha dropped.
pub open spec fn packed(color: [u8; 4]) -> u32 {
    packed_rgb(color@[0], color@[1], color@[2])
}

/// Whether `(x, y)` lies on a `width` by `height` surface.
pub open spec fn in_bounds(width: int, height: int, x: int, y: int) -> bool {
    0 <= x < width && 0 <= y < height
}

/// The framebuffer after writing `value` at `(x, y)`: one cell changes when the
/// point is on the surface, none otherwise.
pub open spec fn plot(cells: Seq<u32>, width: int, height: int, x: int, y: int, value: u32) -> Seq<
    u32,
> {
    if in_bounds(width, height, x, y) {
        cells.update(y * width + x, value)
    } else {
        cells
    }
}

/// The framebuffer after writing `value` at each point of `points`, in order.
pub open spec fn plot_all(
    cells: Seq<u32>,
    width: int,
    height: int,
    points: Seq<(int, int)>,
    value: u32,
) -> Seq<u32>
    decreases points.len(),
{
    if points.len() == 0 {
        cells
    } else {
        plot_all(
            plot(cells, width, height, points[0].0, points[0].1, value),
            width,
            height,
            points.drop_first(),
            value,
        )
    }
}

/// The framebuffer resized to `width * height` cells: a prefix of the old cells
/// is kept and the added cells are zero.
pub open spec fn resized_cells(cells: Seq<u32>, width: nat, height: nat) -> Seq<u32> {
    Seq::new(
        width * height,
        |i: int|
            if i < cells.len() {
                cells[i]
            } else {
                0u32
            },
    )
}

/// What a resize asks of the presentation surface that shows the framebuffer.
#[derive(PartialEq, Eq, Structural, Clone, Copy, Debug)]
pub enum ResizeEffect {
    /// The dimensions were already those asked for: nothing changed.
    Unchanged,
    /// The framebuffer changed, and a dimension is zero: a zero-sized
    /// presentation surface cannot exist, so it is left as it is.
    BufferOnly,
    /// The framebuffer changed, and the presentation surface must follow.
    BufferAndSurface,
}

/// The effect that resizing a `old_width` by `old_height` surface to
/// `width` by `height` has.
pub open spec fn resize_effect(old_width: nat, old_height: nat, width: nat, height: nat) -> ResizeEffect {
    if old_width == width && old_height == height {
        ResizeEffect::Unchanged
    } else if width == 0 || height == 0 {
        ResizeEffect::BufferOnly
    } else {
        ResizeEffect::BufferAndSurface
    }
}

/// The packed form of the red, green and blue channels.
pub open spec fn packed_rgb(red: u8, green: u8, blue: u8) -> u32 {
    ((red as int) * 0x10000 + (green as int) * 0x100 + (blue as int)) as u32
}

/// Whether `(px, py)` lies in the box `[x, x + w) x [y, y + h)`.
pub open spec fn in_box(px: int, py: int, x: int, y: int, w: int, h: int) -> bool {
    x <= px < x + w && y <= py < y + h
}

/// The value of cell `i` once the box drawing has reached it (`drawn`), or
/// before: the source's value at the cell's offset from the box's corner
/// `(x, y)`, unless that is `None`.
pub open spec fn box_value(
    before: Seq<u32>,
    width: int,
    x: int,
    y: int,
    source: spec_fn(int, int) -> Option<u32>,
    drawn: bool,
    i: int,
) -> u32 {
    let v = source(i % width - x, i / width - y);
    if drawn && v is Some {
        v->Some_0
    } else {
        before[i]
    }
}

/// The framebuffer after drawing the box `[x, x + w) x [y, y + h)`: a cell whose
/// point lies in the box takes `source(dx, dy)`, where `(dx, dy)` is the point's
/// offset from the box's corner, unless that is `None`; every other cell keeps
/// its value.
pub open spec fn paint_box(
    cells: Seq<u32>,
    width: int,
    x: int,
    y: int,
    w: int,
    h: int,
    source: spec_fn(int, int) -> Option<u32>,
) -> Seq<u32> {
    Seq::new(
        cells.len(),
        |i: int| box_value(cells, width, x, y, source, in_box(i % width, i / width, x, y, w, h), i),
    )
}

/// A box filled with one value throughout.
pub open spec fn solid(value: u32) -> spec_fn(int, int) -> Option<u32> {
    |dx: int, dy: int| Some(value)
}

/// The byte offset of the source pixel that destination offset `(dx, dy)` of
/// a `size` by `size` square samples: nearest neighbour, each axis on its own.
pub open spec fn sample_offset(image_width: int, image_height: int, size: int, dx: int, dy: int) -> int {
    ((dy * image_height / size) * image_width + dx * image_width / size) * 4
}

/// An image stretched over a `size` by `size` square: a sampled pixel whose
/// alpha is zero is transparent, any other is opaque. An empty image has no
/// pixel to sample and is transparent throughout.
pub open spec fn stretched(image: ImageData, size: int) -> spec_fn(int, int) -> Option<u32> {
    |dx: int, dy: int|
        {
            let o = sample_offset(image.width as int, image.height as int, size, dx, dy);
            let bytes = image.rgba_bytes@;
            if image.width == 0 || image.height == 0 || bytes[o + 3] == 0 {
                None
            } else {
                Some(packed_rgb(bytes[o], bytes[o + 1], bytes[o + 2]))
            }
        }
}

/// Whether box drawing, having reached row `row` and in it column `column`,
/// has drawn point `(px, py)`.
spec fn reached(px: int, py: int, x: int, y: int, w: int, row: int, column: int) -> bool {
    (x <= px < x + w && y <= py < y + row) || (py == y + row && x <= px < x + column)
}

/// The box drawing has reached row `row` and, in that row, column `column`:
/// the rows above are drawn, and so is the start of this one.
spec fn drawn_up_to(
    cells: Seq<u32>,
    before: Seq<u32>,
    width: int,
    x: int,
    y: int,
    w: int,
    row: int,
    column: int,
    source: spec_fn(int, int) -> Option<u32>,
) -> bool {
    &&& cells.len() == before.len()
    &&& forall|i: int|
        0 <= i < cells.len() ==> #[trigger] cells[i] == box_value(
            before,
            width,
            x,
            y,
            source,
            reached(i % width, i / width, x, y, w, row, column),
            i,
        )
}

proof fn lemma_point_of_cell(width: int, height: int, i: int)
    requires
        0 <= width,
        0 <= height,
        0 <= i < width * height,
    ensures
        0 <= i % width < width,
        0 <= i / width < height,
        i == (i / width) * width + i % width,
{
    assert(width > 0) by (nonlinear_arith)
        requires
            0 <= width,
            0 <= height,
            0 <= i < width * height,
    ;
    lemma_fundamental_div_mod(i, width);
    lemma_multiply_divide_lt(i, width, height);
    assert(0 <= i / width) by (nonlinear_arith)
        requires
            0 <= i,
            width > 0,
    ;
    assert((i / width) * width == width * (i / width)) by (nonlinear_arith);
}

/// One step of box drawing: the point at offset `(column, row)` was drawn
/// (written when it is on the surface and the source gives a value).
proof fn lemma_box_step(
    cells: Seq<u32>,
    next: Seq<u32>,
    before: Seq<u32>,
    width: int,
    height: int,
    x: int,
    y: int,
    w: int,
    row: int,
    column: int,
    source: spec_fn(int, int) -> Option<u32>,
)
    requires
        0 <= width,
        0 <= height,
        0 <= row,
        0 <= column,
        cells.len() == width * height,
        drawn_up_to(cells, before, width, x, y, w, row, column, source),
        next == if in_bounds(width, height, x + column, y + row) && source(column, row) is Some {
            cells.update((y + row) * width + x + column, source(column, row)->Some_0)
        } else {
            cells
        },
    ensures
        drawn_up_to(next, before, width, x, y, w, row, column + 1, source),
{
    if in_bounds(width, height, x + column, y + row) {
        lemma_cell_index(width, height, x + column, y + row);
    }
    assert(next.len() == cells.len());
    assert forall|i: int| 0 <= i < next.len() implies #[trigger] next[i] == box_value(
        before,
        width,
        x,
        y,
        source,
        reached(i % width, i / width, x, y, w, row, column + 1),
        i,
    ) by {
        lemma_point_of_cell(width, height, i);
        assert(cells[i] == box_value(
            before,
            width,
            x,
            y,
            source,
            reached(i % width, i / width, x, y, w, row, column),
            i,
        ));
        if i % width == x + column && i / width == y + row {
            assert(in_bounds(width, height, x + column, y + row));
        }
    }
}

/// Finishing a row of box drawing moves on to the start of the next row.
proof fn lemma_box_next_row(
    cells: Seq<u32>,
    before: Seq<u32>,
    width: int,
    x: int,
    y: int,
    w: int,
    row: int,
    source: spec_fn(int, int) -> Option<u32>,
)
    requires
        0 <= row,
        drawn_up_to(cells, before, width, x, y, w, row, w, source),
    ensures
        drawn_up_to(cells, before, width, x, y, w, row + 1, 0, source),
{
    assert forall|i: int| 0 <= i < cells.len() implies #[trigger] cells[i] == box_value(
        before,
        width,
        x,
        y,
        source,
        reached(i % width, i / width, x, y, w, row + 1, 0),
        i,
    ) by {
        assert(reached(i % width, i / width, x, y, w, row + 1, 0) == reached(
            i % width,
            i / width,
            x,
            y,
            w,
            row,
            w,
        ));
    }
}

/// A finished box drawing is `paint_box`.
proof fn lemma_box_done(
    cells: Seq<u32>,
    before: Seq<u32>,
    width: int,
    x: int,
    y: int,
    w: int,
    h: int,
    source: spec_fn(int, int) -> Option<u32>,
)
    requires
        drawn_up_to(cells, before, width, x, y, w, h, 0, source),
    ensures
        cells == paint_box(before, width, x, y, w, h, source),
{
    assert forall|i: int| 0 <= i < cells.len() implies #[trigger] cells[i] == paint_box(
        before,
        width,
        x,
        y,
        w,
        h,
        source,
    )[i] by {
        assert(reached(i % width, i / width, x, y, w, h, 0) == in_box(i % width, i / width, x, y, w, h));
    }
    assert(cells =~= paint_box(before, width, x, y, w, h, source));
}

/// Nothing is drawn yet.
proof fn lemma_box_start(
    cells: Seq<u32>,
    width: int,
    x: int,
    y: int,
    w: int,
    source: spec_fn(int, int) -> Option<u32>,
)
    ensures
        drawn_up_to(cells, cells, width, x, y, w, 0, 0, source),
{
}

/// The absolute value of `a`.
pub open spec fn abs(a: int) -> int {
    if a < 0 {
        -a
    } else {
        a
    }
}

/// One step towards `target` from `from`.
pub open spec fn toward(from: int, target: int) -> int {
    if from < target {
        from + 1
    } else {
        from - 1
    }
}

/// The points that Bresenham's algorithm visits from `(x, y)` to
/// `(x2, y2)`, with error term `error`, run `dx` and rise `dy`, both ends
/// included.
pub open spec fn line_from(x: int, y: int, x2: int, y2: int, error: int, dx: nat, dy: nat) -> Seq<
    (int, int),
>
    decreases abs(x2 - x) + abs(y2 - y),
{
    let doubled = 2 * error;
    let step_x = doubled >= -dy;
    let step_y = doubled <= dx;
    if (x == x2 && y == y2) || (step_x && x == x2) || (step_y && y == y2) {
        seq![(x, y)]
    } else {
        let next_x = if step_x {
            toward(x, x2)
        } else {
            x
        };
        let next_y = if step_y {
            toward(y, y2)
        } else {
            y
        };
        let next_error = error + (if step_x {
            -dy
        } else {
            0
        }) + (if step_y {
            dx as int
        } else {
            0
        });
        seq![(x, y)] + line_from(next_x, next_y, x2, y2, next_error, dx, dy)
    }
}

/// The points of the line from `(x1, y1)` to `(x2, y2)` by Bresenham's
/// algorithm, in the order drawn.
pub open spec fn line_points(x1: int, y1: int, x2: int, y2: int) -> Seq<(int, int)> {
    let dx = abs(x2 - x1);
    let dy = abs(y2 - y1);
    line_from(x1, y1, x2, y2, dx - dy, dx as nat, dy as nat)
}

/// The eight points that mirror offset `(ox, oy)` about the centre.
pub open spec fn octants(cx: int, cy: int, ox: int, oy: int) -> Seq<(int, int)> {
    seq![
        (cx + ox, cy + oy),
        (cx - ox, cy + oy),
        (cx + ox, cy - oy),
        (cx - ox, cy - oy),
        (cx + oy, cy + ox),
        (cx - oy, cy + ox),
        (cx + oy, cy - ox),
        (cx - oy, cy - ox),
    ]
}

/// The points that the midpoint circle algorithm visits from offset
/// `(ox, oy)` with decision parameter `decision`, in the order drawn.
pub open spec fn circle_from(cx: int, cy: int, ox: int, oy: int, decision: int) -> Seq<(int, int)>
    decreases oy - ox + 2,
{
    if ox > oy || oy - ox + 2 < 0 {
        seq![]
    } else {
        let next_x = ox + 1;
        let next_y = if decision < 0 {
            oy
        } else {
            oy - 1
        };
        let next_decision = if decision < 0 {
            decision + 2 * next_x + 1
        } else {
            decision + 2 * (next_x - next_y) + 1
        };
        octants(cx, cy, ox, oy) + circle_from(cx, cy, next_x, next_y, next_decision)
    }
}

/// The outline of the circle of `radius` about `(cx, cy)` by the midpoint
/// algorithm, in the order drawn; radius zero is the centre alone.
pub open spec fn circle_points(cx: int, cy: int, radius: nat) -> Seq<(int, int)> {
    if radius == 0 {
        seq![(cx, cy)]
    } else {
        circle_from(cx, cy, 0, radius as int, 1 - radius)
    }
}

/// Whether `v` lies between `a` and `b`, both included.
pub open spec fn between(a: int, v: int, b: int) -> bool {
    (a <= b && a <= v <= b) || (a > b && b <= v <= a)
}

/// Whether consecutive points of `points` are distinct 8-neighbours.
pub open spec fn eight_connected(points: Seq<(int, int)>) -> bool {
    forall|k: int|
        0 <= k < points.len() - 1 ==> abs(#[trigger] points[k + 1].0 - points[k].0) <= 1 && abs(
            points[k + 1].1 - points[k].1,
        ) <= 1 && points[k + 1] != points[k]
}

proof fn lemma_line_from_shape(
    x1: int,
    y1: int,
    x2: int,
    y2: int,
    x: int,
    y: int,
    error: int,
    dx: nat,
    dy: nat,
)
    requires
        dx == abs(x2 - x1),
        dy == abs(y2 - y1),
        between(x1, x, x2),
        between(y1, y, y2),
        error == dx - dy + abs(y - y1) * dx - abs(x - x1) * dy,
        dx >= dy ==> 2 * error >= -dy,
        dx < dy ==> 2 * error <= dx,
    ensures
        line_from(x, y, x2, y2, error, dx, dy).len() >= 1,
        line_from(x, y, x2, y2, error, dx, dy)[0] == (x, y),
        line_from(x, y, x2, y2, error, dx, dy).last() == (x2, y2),
        dx >= dy ==> line_from(x, y, x2, y2, error, dx, dy).len() == dx - abs(x - x1) + 1,
        dx < dy ==> line_from(x, y, x2, y2, error, dx, dy).len() == dy - abs(y - y1) + 1,
        eight_connected(line_from(x, y, x2, y2, error, dx, dy)),
    decreases abs(x2 - x) + abs(y2 - y),
{
    let i = abs(x - x1);
    let j = abs(y - y1);
    let doubled = 2 * error;
    let step_x = doubled >= -dy;
    let step_y = doubled <= dx;
    let points = line_from(x, y, x2, y2, error, dx, dy);
    assert(0 <= i <= dx && 0 <= j <= dy);
    assert(x == x2 <==> i == dx);
    assert(y == y2 <==> j == dy);
    if x == x2 && y == y2 {
        assert(points == seq![(x, y)]);
    } else if step_x && x == x2 {
        assert(2 * error < -(dy as int)) by (nonlinear_arith)
            requires
                error == dx - dy + j * dx - i * dy,
                i == dx,
                0 <= j,
                j + 1 <= dy,
        ;
    } else if step_y && y == y2 {
        assert(2 * error > dx) by (nonlinear_arith)
            requires
                error == dx - dy + j * dx - i * dy,
                j == dy,
                0 <= i,
                i + 1 <= dx,
        ;
    } else {
        assert(step_x || step_y);
        let next_x = if step_x {
            toward(x, x2)
        } else {
            x
        };
        let next_y = if step_y {
            toward(y, y2)
        } else {
            y
        };
        let next_error = error + (if step_x {
            -dy
        } else {
            0
        }) + (if step_y {
            dx as int
        } else {
            0
        });
        let ni = if step_x {
            i + 1
        } else {
            i
        };
        let nj = if step_y {
            j + 1
        } else {
            j
        };
        assert(abs(next_x - x1) == ni);
        assert(abs(next_y - y1) == nj);
        assert(next_error == dx - dy + nj * dx - ni * dy) by (nonlinear_arith)
            requires
                error == dx - dy + j * dx - i * dy,
                next_error == error + (if step_x {
                    -dy
                } else {
                    0
                }) + (if step_y {
                    dx as int
                } else {
                    0
                }),
                ni == if step_x {
                    i + 1
                } else {
                    i
                },
                nj == if step_y {
                    j + 1
                } else {
                    j
                },
        ;
        let rest = line_from(next_x, next_y, x2, y2, next_error, dx, dy);
        lemma_line_from_shape(x1, y1, x2, y2, next_x, next_y, next_error, dx, dy);
        assert(points == seq![(x, y)] + rest);
        assert(points.last() == rest.last());
        assert forall|k: int| 0 <= k < points.len() - 1 implies abs(
            #[trigger] points[k + 1].0 - points[k].0,
        ) <= 1 && abs(points[k + 1].1 - points[k].1) <= 1 && points[k + 1] != points[k] by {
            if k == 0 {
                assert(points[1] == rest[0]);
            } else {
                assert(points[k + 1] == rest[k] && points[k] == rest[k - 1]);
                assert(rest[(k - 1) + 1] == rest[k]);
            }
        }
    }
}

/// A line starts at its first end and stops at its second, visits
/// `max(|x2 - x1|, |y2 - y1|) + 1` points, and steps each time to one of the
/// eight neighbouring points.
pub proof fn lemma_line_shape(x1: int, y1: int, x2: int, y2: int)
    ensures
        line_points(x1, y1, x2, y2)[0] == (x1, y1),
        line_points(x1, y1, x2, y2).last() == (x2, y2),
        line_points(x1, y1, x2, y2).len() == if abs(x2 - x1) >= abs(y2 - y1) {
            abs(x2 - x1) + 1
        } else {
            abs(y2 - y1) + 1
        },
        eight_connected(line_points(x1, y1, x2, y2)),
{
    let dx = abs(x2 - x1);
    let dy = abs(y2 - y1);
    assert(dx - dy == dx - dy + 0 * dx - 0 * dy);
    lemma_line_from_shape(x1, y1, x2, y2, x1, y1, dx - dy, dx as nat, dy as nat);
}

/// Whether `points` holds the images of `p` under the symmetries of a circle
/// about `(cx, cy)`: swapping the two axes' offsets, and mirroring either axis.
#[verifier::opaque]
pub open spec fn mirrors_in(points: Seq<(int, int)>, p: (int, int), cx: int, cy: int) -> bool {
    &&& points.contains((cx + (p.1 - cy), cy + (p.0 - cx)))
    &&& points.contains((2 * cx - p.0, p.1))
    &&& points.contains((p.0, 2 * cy - p.1))
}

/// Whether `points` is closed under the symmetries of a circle about
/// `(cx, cy)`; together they give the eight octants.
pub open spec fn eight_way_symmetric(points: Seq<(int, int)>, cx: int, cy: int) -> bool {
    forall|k: int| 0 <= k < points.len() ==> mirrors_in(points, #[trigger] points[k], cx, cy)
}

proof fn lemma_octants_symmetric(cx: int, cy: int, ox: int, oy: int)
    ensures
        eight_way_symmetric(octants(cx, cy, ox, oy), cx, cy),
{
    reveal(mirrors_in);
    let o = octants(cx, cy, ox, oy);
    assert(o[0] == (cx + ox, cy + oy));
    assert(o[1] == (cx - ox, cy + oy));
    assert(o[2] == (cx + ox, cy - oy));
    assert(o[3] == (cx - ox, cy - oy));
    assert(o[4] == (cx + oy, cy + ox));
    assert(o[5] == (cx - oy, cy + ox));
    assert(o[6] == (cx + oy, cy - ox));
    assert(o[7] == (cx - oy, cy - ox));
    assert(o.len() == 8);
}

proof fn lemma_contains_append(a: Seq<(int, int)>, b: Seq<(int, int)>, x: (int, int))
    requires
        a.contains(x) || b.contains(x),
    ensures
        (a + b).contains(x),
{
    if a.contains(x) {
        let w = choose|w: int| 0 <= w < a.len() && a[w] == x;
        assert((a + b)[w] == x);
    } else {
        let w = choose|w: int| 0 <= w < b.len() && b[w] == x;
        assert((a + b)[w + a.len()] == x);
    }
}

proof fn lemma_symmetric_append(a: Seq<(int, int)>, b: Seq<(int, int)>, cx: int, cy: int)
    requires
        eight_way_symmetric(a, cx, cy),
        eight_way_symmetric(b, cx, cy),
    ensures
        eight_way_symmetric(a + b, cx, cy),
{
    assert forall|k: int| 0 <= k < (a + b).len() implies mirrors_in(
        a + b,
        #[trigger] (a + b)[k],
        cx,
        cy,
    ) by {
        if k < a.len() {
            assert(mirrors_in(a, a[k], cx, cy));
        } else {
            assert(mirrors_in(b, b[k - a.len()], cx, cy));
        }
        lemma_mirrors_append(a, b, (a + b)[k], cx, cy);
    }
}

proof fn lemma_mirrors_append(a: Seq<(int, int)>, b: Seq<(int, int)>, p: (int, int), cx: int, cy: int)
    requires
        mirrors_in(a, p, cx, cy) || mirrors_in(b, p, cx, cy),
    ensures
        mirrors_in(a + b, p, cx, cy),
{
    reveal(mirrors_in);
    lemma_contains_append(a, b, (cx + (p.1 - cy), cy + (p.0 - cx)));
    lemma_contains_append(a, b, (2 * cx - p.0, p.1));
    lemma_contains_append(a, b, (p.0, 2 * cy - p.1));
}

proof fn lemma_circle_from_symmetric(cx: int, cy: int, ox: int, oy: int, decision: int)
    ensures
        eight_way_symmetric(circle_from(cx, cy, ox, oy, decision), cx, cy),
    decreases oy - ox + 2,
{
    if ox > oy || oy - ox + 2 < 0 {
    } else {
        let next_x = ox + 1;
        let next_y = if decision < 0 {
            oy
        } else {
            oy - 1
        };
        let next_decision = if decision < 0 {
            decision + 2 * next_x + 1
        } else {
            decision + 2 * (next_x - next_y) + 1
        };
        lemma_circle_from_symmetric(cx, cy, next_x, next_y, next_decision);
        lemma_octants_symmetric(cx, cy, ox, oy);
        lemma_symmetric_append(
            octants(cx, cy, ox, oy),
            circle_from(cx, cy, next_x, next_y, next_decision),
            cx,
            cy,
        );
    }
}

/// A circle's outline is 8-way symmetric about its centre.
pub proof fn lemma_circle_symmetric(cx: int, cy: int, radius: nat)
    ensures
        eight_way_symmetric(circle_points(cx, cy, radius), cx, cy),
{
    if radius == 0 {
        reveal(mirrors_in);
        let points = seq![(cx, cy)];
        assert(points[0] == (cx, cy));
    } else {
        lemma_circle_from_symmetric(cx, cy, 0, radius as int, 1 - radius);
    }
}

proof fn lemma_plot_all_append(
    cells: Seq<u32>,
    width: int,
    height: int,
    a: Seq<(int, int)>,
    b: Seq<(int, int)>,
    value: u32,
)
    ensures
        plot_all(cells, width, height, a + b, value) == plot_all(
            plot_all(cells, width, height, a, value),
            width,
            height,
            b,
            value,
        ),
    decreases a.len(),
{
    if a.len() == 0 {
        assert(a + b =~= b);
    } else {
        assert((a + b).drop_first() =~= a.drop_first() + b);
        lemma_plot_all_append(
            plot(cells, width, height, a[0].0, a[0].1, value),
            width,
            height,
            a.drop_first(),
            b,
            value,
        );
    }
}

proof fn lemma_plot_all_one(cells: Seq<u32>, width: int, height: int, p: (int, int), value: u32)
    ensures
        plot_all(cells, width, height, seq![p], value) == plot(cells, width, height, p.0, p.1, value),
{
    reveal_with_fuel(plot_all, 2);
    assert(seq![p].drop_first() =~= Seq::<(int, int)>::empty());
}

proof fn lemma_plot_all_first(
    cells: Seq<u32>,
    width: int,
    height: int,
    p: (int, int),
    rest: Seq<(int, int)>,
    value: u32,
)
    ensures
        plot_all(cells, width, height, seq![p] + rest, value) == plot_all(
            plot(cells, width, height, p.0, p.1, value),
            width,
            height,
            rest,
            value,
        ),
{
    lemma_plot_all_append(cells, width, height, seq![p], rest, value);
    lemma_plot_all_one(cells, width, height, p, value);
}

proof fn lemma_sample_in_image(image_width: int, image_height: int, size: int, dx: int, dy: int)
    requires
        0 <= dx < size,
        0 <= dy < size,
        0 <= image_width,
        0 <= image_height,
    ensures
        0 <= dx * image_width / size,
        0 <= dy * image_height / size,
        image_width > 0 && image_height > 0 ==> dx * image_width / size < image_width,
        image_width > 0 && image_height > 0 ==> dy * image_height / size < image_height,
        image_width > 0 && image_height > 0 ==> 0 <= sample_offset(image_width, image_height, size, dx, dy)
            && sample_offset(image_width, image_height, size, dx, dy) + 3 < 4 * image_width
            * image_height,
{
    assert(0 <= dx * image_width && 0 <= dy * image_height) by (nonlinear_arith)
        requires
            0 <= dx,
            0 <= dy,
            0 <= image_width,
            0 <= image_height,
    ;
    if image_width > 0 && image_height > 0 {
        assert(dx * image_width < size * image_width && dy * image_height < size * image_height)
            by (nonlinear_arith)
            requires
                0 <= dx < size,
                0 <= dy < size,
                0 < image_width,
                0 < image_height,
        ;
        assert(size * image_width == image_width * size) by (nonlinear_arith);
        assert(size * image_height == image_height * size) by (nonlinear_arith);
        lemma_multiply_divide_lt(dx * image_width, size, image_width);
        lemma_multiply_divide_lt(dy * image_height, size, image_height);
        let sx = dx * image_width / size;
        let sy = dy * image_height / size;
        assert(0 <= (sy * image_width + sx) * 4 && (sy * image_width + sx) * 4 + 3 < 4 * image_width
            * image_height) by (nonlinear_arith)
            requires
                0 <= sx < image_width,
                0 <= sy < image_height,
        ;
    }
}

proof fn lemma_cell_index(width: int, height: int, x: int, y: int)
    requires
        in_bounds(width, height, x, y),
    ensures
        0 <= y * width + x < width * height,
        (y * width + x) % width == x,
        (y * width + x) / width == y,
{
    assert(0 <= y * width + x < width * height) by (nonlinear_arith)
        requires
            0 <= x < width,
            0 <= y < height,
    ;
    lemma_fundamental_div_mod_converse(y * width + x, width, y, x);
}

/// A point written on the surface reads back, at cell `y * width + x`, as the
/// red, green and blue channels of its color packed into `0x00RRGGBB`; alpha is
/// not kept.
pub proof fn lemma_point_reads_back(cells: Seq<u32>, width: nat, height: nat, x: int, y: int, color: [u8; 4])
    requires
        cells.len() == width * height,
        in_bounds(width as int, height as int, x, y),
    ensures
        plot(cells, width as int, height as int, x, y, packed(color))[y * width + x] == packed(color),
        packed(color) as int == (color@[0] as int) * 0x10000 + (color@[1] as int) * 0x100
            + (color@[2] as int),
{
    lemma_cell_index(width as int, height as int, x, y);
}

/// Drawing a point, or a box (a rectangle, or an image's square) that lies
/// wholly off the surface, leaves every cell as it was.
pub proof fn lemma_off_surface_is_noop(
    cells: Seq<u32>,
    width: nat,
    height: nat,
    x: int,
    y: int,
    w: int,
    h: int,
    value: u32,
    source: spec_fn(int, int) -> Option<u32>,
)
    requires
        cells.len() == width * height,
        x >= width || y >= height || x + w <= 0 || y + h <= 0,
    ensures
        !in_bounds(width as int, height as int, x, y) ==> plot(
            cells,
            width as int,
            height as int,
            x,
            y,
            value,
        ) == cells,
        paint_box(cells, width as int, x, y, w, h, source) == cells,
{
    assert forall|i: int| 0 <= i < cells.len() implies #[trigger] paint_box(
        cells,
        width as int,
        x,
        y,
        w,
        h,
        source,
    )[i] == cells[i] by {
        lemma_point_of_cell(width as int, height as int, i);
    }
    assert(paint_box(cells, width as int, x, y, w, h, source) =~= cells);
}

/// A line whose two ends are one point draws that point alone: at most one
/// cell changes, and when the point is on the surface it is that cell.
pub proof fn lemma_degenerate_line(cells: Seq<u32>, width: nat, height: nat, x: int, y: int, value: u32)
    requires
        cells.len() == width * height,
    ensures
        line_points(x, y, x, y) == seq![(x, y)],
        plot_all(cells, width as int, height as int, line_points(x, y, x, y), value) == plot(
            cells,
            width as int,
            height as int,
            x,
            y,
            value,
        ),
        forall|i: int|
            0 <= i < cells.len() && i != y * width + x ==> #[trigger] plot(
                cells,
                width as int,
                height as int,
                x,
                y,
                value,
            )[i] == cells[i],
{
    lemma_plot_all_one(cells, width as int, height as int, (x, y), value);
    if in_bounds(width as int, height as int, x, y) {
        lemma_cell_index(width as int, height as int, x, y);
    }
}

/// A circle of radius zero draws its centre alone: at most one cell changes,
/// and when the centre is on the surface it is that cell.
pub proof fn lemma_zero_radius_circle(
    cells: Seq<u32>,
    width: nat,
    height: nat,
    cx: int,
    cy: int,
    value: u32,
)
    requires
        cells.len() == width * height,
    ensures
        circle_points(cx, cy, 0) == seq![(cx, cy)],
        plot_all(cells, width as int, height as int, circle_points(cx, cy, 0), value) == plot(
            cells,
            width as int,
            height as int,
            cx,
            cy,
            value,
        ),
        forall|i: int|
            0 <= i < cells.len() && i != cy * width + cx ==> #[trigger] plot(
                cells,
                width as int,
                height as int,
                cx,
                cy,
                value,
            )[i] == cells[i],
{
    lemma_plot_all_one(cells, width as int, height as int, (cx, cy), value);
    if in_bounds(width as int, height as int, cx, cy) {
        lemma_cell_index(width as int, height as int, cx, cy);
    }
}

/// Drawing an image never writes a cell whose sampled source pixel has alpha
/// zero.
pub proof fn lemma_transparent_pixels_skipped(
    cells: Seq<u32>,
    width: nat,
    image: ImageData,
    x: int,
    y: int,
    size: nat,
    i: int,
)
    requires
        0 <= i < cells.len(),
        image.wf(),
        in_box(i % (width as int), i / (width as int), x, y, size as int, size as int),
        image.rgba_bytes@[sample_offset(
            image.width as int,
            image.height as int,
            size as int,
            i % (width as int) - x,
            i / (width as int) - y,
        ) + 3] == 0,
    ensures
        paint_box(cells, width as int, x, y, size as int, size as int, stretched(image, size as int))[i]
            == cells[i],
{
}

/// Resizing twice to the same dimensions is resizing once: the second resize
/// changes nothing and touches neither the framebuffer nor the presentation
/// surface.
pub proof fn lemma_resize_idempotent(cells: Seq<u32>, old_width: nat, old_height: nat, width: nat, height: nat)
    requires
        cells.len() == old_width * old_height,
    ensures
        resize_effect(width, height, width, height) == ResizeEffect::Unchanged,
        resized_cells(resized_cells(cells, width, height), width, height) == resized_cells(
            cells,
            width,
            height,
        ),
        resized_cells(cells, width, height).len() == width * height,
{
    assert(resized_cells(resized_cells(cells, width, height), width, height) =~= resized_cells(
        cells,
        width,
        height,
    ));
}

/// A CPU-side framebuffer of `width * height` packed cells, row-major.
pub struct Renderer {
    buffer: Vec<u32>,
    width: u32,
    height: u32,
}

impl Renderer {
    /// The width of the surface.
    pub closed spec fn spec_width(&self) -> nat {
        self.width as nat
    }

    /// The height of the surface.
    pub closed spec fn spec_height(&self) -> nat {
        self.height as nat
    }

    /// The framebuffer, row-major: cell `y * width + x` holds point `(x, y)`.
    pub closed spec fn cells(&self) -> Seq<u32> {
        self.buffer@
    }

    /// The framebuffer holds exactly one cell per point of the surface.
    pub closed spec fn wf(&self) -> bool {
        self.buffer@.len() == self.width as nat * self.height as nat
    }

    /// A well-formed surface has one cell per point.
    pub proof fn lemma_cells_len(&self)
        requires
            self.wf(),
        ensures
            self.cells().len() == self.spec_width() * self.spec_height(),
    {
    }

    /// A `width` by `height` surface, every cell zero (opaque black).
    pub fn new(width: u32, height: u32) -> (r: Renderer)
        requires
            width as nat * height as nat <= usize::MAX,
        ensures
            r.wf(),
            r.spec_width() == width,
            r.spec_height() == height,
            r.cells() == Seq::new(width as nat * height as nat, |i: int| 0u32),
    {
        let len: usize = (width as u64 * height as u64) as usize;
        let mut buffer: Vec<u32> = Vec::new();
        let mut i: usize = 0;
        while i < len
            invariant
                i <= len,
                buffer@ == Seq::new(i as nat, |k: int| 0u32),
            decreases len - i,
        {
            buffer.push(0);
            i = i + 1;
            assert(buffer@ =~= Seq::new(i as nat, |k: int| 0u32));
        }
        Renderer { buffer, width, height }
    }

    /// The width of the surface.
    pub fn width(&self) -> (r: u32)
        ensures
            r == self.spec_width(),
    {
        self.width
    }

    /// The height of the surface.
    pub fn height(&self) -> (r: u32)
        ensures
            r == self.spec_height(),
    {
        self.height
    }

    /// The framebuffer, row-major.
    pub fn framebuffer(&self) -> (r: &[u32])
        ensures
            r@ == self.cells(),
    {
        self.buffer.as_slice()
    }

    /// The packed form of `rgba`: alpha is dropped.
    pub fn rgba_to_u32(rgba: [u8; 4]) -> (r: u32)
        ensures
            r == packed(rgba),
    {
        let red = rgba[0];
        let green = rgba[1];
        let blue = rgba[2];
        let r = ((red as u32) << 16u32) | ((green as u32) << 8u32) | (blue as u32);
        assert(r == (red as u32) * 0x10000 + (green as u32) * 0x100 + (blue as u32)) by (bit_vector)
            requires
                r == ((red as u32) << 16u32) | ((green as u32) << 8u32) | (blue as u32),
        ;
        r
    }

    /// Writes `value` at `(x, y)` when that point is on the surface.
    fn put(&mut self, x: i64, y: i64, value: u32)
        requires
            old(self).wf(),
        ensures
            final(self).wf(),
            final(self).spec_width() == old(self).spec_width(),
            final(self).spec_height() == old(self).spec_height(),
            final(self).cells() == plot(
                old(self).cells(),
                old(self).spec_width() as int,
                old(self).spec_height() as int,
                x as int,
                y as int,
                value,
            ),
    {
        if x < 0 || y < 0 || x >= self.width as i64 || y >= self.height as i64 {
            return;
        }
        let len = self.buffer.len();
        proof {
            lemma_cell_index(self.width as int, self.height as int, x as int, y as int);
            assert(y * self.width <= y * self.width + x < len) by (nonlinear_arith)
                requires
                    0 <= x,
                    y * self.width + x < self.width * self.height,
                    self.width * self.height == len,
            ;
        }
        let index: usize = y as usize * self.width as usize + x as usize;
        self.buffer.set(index, value);
    }

    /// Writes the packed `color` at `(x, y)` when that point is on the surface;
    /// elsewhere it does nothing.
    pub fn draw_point(&mut self, x: i32, y: i32, color: [u8; 4])
        requires
            old(self).wf(),
        ensures
            final(self).wf(),
            final(self).spec_width() == old(self).spec_width(),
            final(self).spec_height() == old(self).spec_height(),
            final(self).cells() == plot(
                old(self).cells(),
                old(self).spec_width() as int,
                old(self).spec_height() as int,
                x as int,
                y as int,
                packed(color),
            ),
    {
        let value = Self::rgba_to_u32(color);
        self.put(x as i64, y as i64, value);
    }

    /// Draws the line from `(x1, y1)` to `(x2, y2)`, both ends included, by
    /// Bresenham's algorithm; points off the surface are skipped.
    pub fn draw_line(&mut self, x1: i32, y1: i32, x2: i32, y2: i32, color: [u8; 4])
        requires
            old(self).wf(),
        ensures
            final(self).wf(),
            final(self).spec_width() == old(self).spec_width(),
            final(self).spec_height() == old(self).spec_height(),
            final(self).cells() == plot_all(
                old(self).cells(),
                old(self).spec_width() as int,
                old(self).spec_height() as int,
                line_points(x1 as int, y1 as int, x2 as int, y2 as int),
                packed(color),
            ),
    {
        let value = Self::rgba_to_u32(color);
        let ghost sw = self.width as int;
        let ghost sh = self.height as int;
        let ghost target = plot_all(
            self.buffer@,
            sw,
            sh,
            line_points(x1 as int, y1 as int, x2 as int, y2 as int),
            value,
        );
        let end_x = x2 as i64;
        let end_y = y2 as i64;
        let delta_x: i64 = if x1 < x2 {
            end_x - x1 as i64
        } else {
            x1 as i64 - end_x
        };
        let delta_y: i64 = if y1 < y2 {
            end_y - y1 as i64
        } else {
            y1 as i64 - end_y
        };
        let step_x: i64 = if x1 < x2 {
            1
        } else {
            -1
        };
        let step_y: i64 = if y1 < y2 {
            1
        } else {
            -1
        };
        let mut error: i64 = delta_x - delta_y;
        let mut current_x: i64 = x1 as i64;
        let mut current_y: i64 = y1 as i64;
        loop
            invariant_except_break
                target == plot_all(
                    self.buffer@,
                    sw,
                    sh,
                    line_from(
                        current_x as int,
                        current_y as int,
                        x2 as int,
                        y2 as int,
                        error as int,
                        delta_x as nat,
                        delta_y as nat,
                    ),
                    value,
                ),
            invariant
                self.wf(),
                self.width == old(self).width,
                self.height == old(self).height,
                sw == self.width,
                sh == self.height,
                delta_x == abs(x2 - x1),
                delta_y == abs(y2 - y1),
                x1 < x2 ==> step_x == 1 && x1 <= current_x <= x2,
                x1 >= x2 ==> step_x == -1 && x2 <= current_x <= x1,
                y1 < y2 ==> step_y == 1 && y1 <= current_y <= y2,
                y1 >= y2 ==> step_y == -1 && y2 <= current_y <= y1,
                -2 * (delta_x + delta_y) <= error <= 2 * (delta_x + delta_y),
                end_x == x2,
                end_y == y2,
            ensures
                self.wf(),
                self.width == old(self).width,
                self.height == old(self).height,
                self.buffer@ == target,
            decreases abs(x2 - current_x) + abs(y2 - current_y),
        {
            let ghost cells = self.buffer@;
            let ghost points = line_from(
                current_x as int,
                current_y as int,
                x2 as int,
                y2 as int,
                error as int,
                delta_x as nat,
                delta_y as nat,
            );
            let ghost here = (current_x as int, current_y as int);
            self.put(current_x, current_y, value);
            proof {
                lemma_plot_all_one(cells, sw, sh, here, value);
            }
            if current_x == end_x && current_y == end_y {
                break;
            }
            let doubled = 2 * error;
            if doubled >= -delta_y {
                if current_x == end_x {
                    break;
                }
                error = error - delta_y;
                current_x = current_x + step_x;
            }
            if doubled <= delta_x {
                if current_y == end_y {
                    break;
                }
                error = error + delta_x;
                current_y = current_y + step_y;
            }
            proof {
                lemma_plot_all_first(
                    cells,
                    sw,
                    sh,
                    here,
                    line_from(
                        current_x as int,
                        current_y as int,
                        x2 as int,
                        y2 as int,
                        error as int,
                        delta_x as nat,
                        delta_y as nat,
                    ),
                    value,
                );
            }
        }
    }

    /// Draws the outline of the circle of `radius` about
    /// `(center_x, center_y)` by the midpoint algorithm, eight octants at a
    /// time; radius zero draws the centre alone. Points off the surface are
    /// skipped.
    pub fn draw_circle(&mut self, center_x: i32, center_y: i32, radius: u32, color: [u8; 4])
        requires
            old(self).wf(),
        ensures
            final(self).wf(),
            final(self).spec_width() == old(self).spec_width(),
            final(self).spec_height() == old(self).spec_height(),
            final(self).cells() == plot_all(
                old(self).cells(),
                old(self).spec_width() as int,
                old(self).spec_height() as int,
                circle_points(center_x as int, center_y as int, radius as nat),
                packed(color),
            ),
    {
        let value = Self::rgba_to_u32(color);
        let ghost sw = self.width as int;
        let ghost sh = self.height as int;
        let ghost cx = center_x as int;
        let ghost cy = center_y as int;
        let ghost r = radius as int;
        let ghost target = plot_all(self.buffer@, sw, sh, circle_points(cx, cy, radius as nat), value);
        if radius == 0 {
            let ghost cells = self.buffer@;
            self.put(center_x as i64, center_y as i64, value);
            proof {
                lemma_plot_all_one(cells, sw, sh, (cx, cy), value);
            }
            return;
        }
        let center_x = center_x as i64;
        let center_y = center_y as i64;
        let mut offset_x: i64 = 0;
        let mut offset_y: i64 = radius as i64;
        let mut decision: i128 = 1 - radius as i128;
        while offset_x <= offset_y
            invariant
                self.wf(),
                self.width == old(self).width,
                self.height == old(self).height,
                sw == self.width,
                sh == self.height,
                cx == center_x,
                cy == center_y,
                i32::MIN <= cx <= i32::MAX,
                i32::MIN <= cy <= i32::MAX,
                r == radius,
                0 < r <= 0xffff_ffff,
                0 <= offset_x <= r + 2,
                -2 <= offset_y <= r,
                offset_x <= offset_y + 2,
                decision == offset_x * offset_x + 2 * offset_x + offset_y * offset_y - offset_y - r * r
                    + 1,
                target == plot_all(
                    self.buffer@,
                    sw,
                    sh,
                    circle_from(cx, cy, offset_x as int, offset_y as int, decision as int),
                    value,
                ),
            decreases offset_y - offset_x + 2,
        {
            let ghost cells = self.buffer@;
            let ghost (ox, oy, d) = (offset_x as int, offset_y as int, decision as int);
            self.put(center_x + offset_x, center_y + offset_y, value);
            self.put(center_x - offset_x, center_y + offset_y, value);
            self.put(center_x + offset_x, center_y - offset_y, value);
            self.put(center_x - offset_x, center_y - offset_y, value);
            self.put(center_x + offset_y, center_y + offset_x, value);
            self.put(center_x - offset_y, center_y + offset_x, value);
            self.put(center_x + offset_y, center_y - offset_x, value);
            self.put(center_x - offset_y, center_y - offset_x, value);
            proof {
                reveal_with_fuel(plot_all, 9);
                assert(self.buffer@ == plot_all(cells, sw, sh, octants(cx, cy, ox, oy), value));
                assert(-4 * (r + 2) * (r + 2) <= d <= 4 * (r + 2) * (r + 2)) by (nonlinear_arith)
                    requires
                        d == ox * ox + 2 * ox + oy * oy - oy - r * r + 1,
                        0 <= ox <= r + 2,
                        -2 <= oy <= r,
                        0 < r,
                ;
                assert(4 * (r + 2) * (r + 2) <= 0x1_0000_0000_0000_0000_0000) by (nonlinear_arith)
                    requires
                        0 < r <= 0xffff_ffff,
                ;
            }
            offset_x = offset_x + 1;
            if decision < 0 {
                decision = decision + 2 * offset_x as i128 + 1;
            } else {
                offset_y = offset_y - 1;
                decision = decision + 2 * (offset_x as i128 - offset_y as i128) + 1;
            }
            proof {
                assert(decision == offset_x * offset_x + 2 * offset_x + offset_y * offset_y - offset_y
                    - r * r + 1) by (nonlinear_arith)
                    requires
                        d == ox * ox + 2 * ox + oy * oy - oy - r * r + 1,
                        offset_x == ox + 1,
                        d < 0 ==> offset_y == oy && decision == d + 2 * offset_x + 1,
                        d >= 0 ==> offset_y == oy - 1 && decision == d + 2 * (offset_x - offset_y) + 1,
                ;
                lemma_plot_all_append(
                    cells,
                    sw,
                    sh,
                    octants(cx, cy, ox, oy),
                    circle_from(cx, cy, offset_x as int, offset_y as int, decision as int),
                    value,
                );
            }
        }
    }

    /// Fills the box `[x, x + width) x [y, y + height)` with the packed
    /// `color`; points off the surface are skipped.
    pub fn draw_rectangle(&mut self, x: i32, y: i32, width: u32, height: u32, color: [u8; 4])
        requires
            old(self).wf(),
        ensures
            final(self).wf(),
            final(self).spec_width() == old(self).spec_width(),
            final(self).spec_height() == old(self).spec_height(),
            final(self).cells() == paint_box(
                old(self).cells(),
                old(self).spec_width() as int,
                x as int,
                y as int,
                width as int,
                height as int,
                solid(packed(color)),
            ),
    {
        let value = Self::rgba_to_u32(color);
        let ghost source = solid(packed(color));
        let ghost before = self.buffer@;
        let ghost sw = self.width as int;
        let ghost sh = self.height as int;
        proof {
            lemma_box_start(before, sw, x as int, y as int, width as int, source);
        }
        let mut row: u32 = 0;
        while row < height
            invariant
                row <= height,
                self.wf(),
                self.width == old(self).width,
                self.height == old(self).height,
                sw == self.width,
                sh == self.height,
                before == old(self).buffer@,
                source == solid(value),
                drawn_up_to(self.buffer@, before, sw, x as int, y as int, width as int, row as int, 0, source),
            decreases height - row,
        {
            let mut column: u32 = 0;
            while column < width
                invariant
                    row < height,
                    column <= width,
                    self.wf(),
                    self.width == old(self).width,
                    self.height == old(self).height,
                    sw == self.width,
                    sh == self.height,
                    source == solid(value),
                    drawn_up_to(
                        self.buffer@,
                        before,
                        sw,
                        x as int,
                        y as int,
                        width as int,
                        row as int,
                        column as int,
                        source,
                    ),
                decreases width - column,
            {
                let ghost cells = self.buffer@;
                self.put(x as i64 + column as i64, y as i64 + row as i64, value);
                proof {
                    lemma_box_step(
                        cells,
                        self.buffer@,
                        before,
                        sw,
                        sh,
                        x as int,
                        y as int,
                        width as int,
                        row as int,
                        column as int,
                        source,
                    );
                }
                column = column + 1;
            }
            proof {
                lemma_box_next_row(self.buffer@, before, sw, x as int, y as int, width as int, row as int, source);
            }
            row = row + 1;
        }
        proof {
            lemma_box_done(self.buffer@, before, sw, x as int, y as int, width as int, height as int, source);
        }
    }

    /// Draws `image` stretched over the square `[x, x + size) x [y, y + size)`,
    /// sampling the nearest source pixel on each axis
    /// (`source = destination * source_dimension / size`). A sampled pixel
    /// with alpha zero is skipped; any other is written opaque. Points off the
    /// surface are skipped.
    pub fn draw_image(&mut self, image: &ImageData, x: i32, y: i32, size: u32)
        requires
            old(self).wf(),
            image.wf(),
        ensures
            final(self).wf(),
            final(self).spec_width() == old(self).spec_width(),
            final(self).spec_height() == old(self).spec_height(),
            final(self).cells() == paint_box(
                old(self).cells(),
                old(self).spec_width() as int,
                x as int,
                y as int,
                size as int,
                size as int,
                stretched(*image, size as int),
            ),
    {
        let ghost source = stretched(*image, size as int);
        let ghost before = self.buffer@;
        let ghost sw = self.width as int;
        let ghost sh = self.height as int;
        let image_width = image.width;
        let image_height = image.height;
        proof {
            lemma_box_start(before, sw, x as int, y as int, size as int, source);
        }
        let mut row: u32 = 0;
        while row < size
            invariant
                row <= size,
                image.wf(),
                image_width == image.width,
                image_height == image.height,
                self.wf(),
                self.width == old(self).width,
                self.height == old(self).height,
                sw == self.width,
                sh == self.height,
                before == old(self).buffer@,
                source == stretched(*image, size as int),
                drawn_up_to(self.buffer@, before, sw, x as int, y as int, size as int, row as int, 0, source),
            decreases size - row,
        {
            let mut column: u32 = 0;
            while column < size
                invariant
                    row < size,
                    column <= size,
                    image.wf(),
                    image_width == image.width,
                    image_height == image.height,
                    self.wf(),
                    self.width == old(self).width,
                    self.height == old(self).height,
                    sw == self.width,
                    sh == self.height,
                    source == stretched(*image, size as int),
                    drawn_up_to(
                        self.buffer@,
                        before,
                        sw,
                        x as int,
                        y as int,
                        size as int,
                        row as int,
                        column as int,
                        source,
                    ),
                decreases size - column,
            {
                let ghost cells = self.buffer@;
                let screen_x: i64 = x as i64 + column as i64;
                let screen_y: i64 = y as i64 + row as i64;
                if image_width > 0 && image_height > 0 && screen_x >= 0 && screen_y >= 0 && screen_x
                    < self.width as i64 && screen_y < self.height as i64 {
                    proof {
                        assert(column as u64 * image_width as u64 <= 0xffff_ffff * 0xffff_ffffu64
                            && row as u64 * image_height as u64 <= 0xffff_ffff * 0xffff_ffffu64)
                            by (nonlinear_arith)
                            requires
                                column <= 0xffff_ffffu64,
                                row <= 0xffff_ffffu64,
                                image_width <= 0xffff_ffffu64,
                                image_height <= 0xffff_ffffu64,
                        ;
                    }
                    let source_x: u64 = (column as u64 * image_width as u64) / size as u64;
                    let source_y: u64 = (row as u64 * image_height as u64) / size as u64;
                    proof {
                        lemma_sample_in_image(
                            image_width as int,
                            image_height as int,
                            size as int,
                            column as int,
                            row as int,
                        );
                    }
                    let bytes_len = image.rgba_bytes.len();
                    let offset: usize = ((source_y * image_width as u64 + source_x) * 4) as usize;
                    let alpha = image.rgba_bytes[offset + 3];
                    if alpha != 0 {
                        let value = Self::rgba_to_u32(
                            [
                                image.rgba_bytes[offset],
                                image.rgba_bytes[offset + 1],
                                image.rgba_bytes[offset + 2],
                                alpha,
                            ],
                        );
                        self.put(screen_x, screen_y, value);
                    }
                }
                proof {
                    lemma_box_step(
                        cells,
                        self.buffer@,
                        before,
                        sw,
                        sh,
                        x as int,
                        y as int,
                        size as int,
                        row as int,
                        column as int,
                        source,
                    );
                }
                column = column + 1;
            }
            proof {
                lemma_box_next_row(self.buffer@, before, sw, x as int, y as int, size as int, row as int, source);
            }
            row = row + 1;
        }
        proof {
            lemma_box_done(self.buffer@, before, sw, x as int, y as int, size as int, size as int, source);
        }
    }

    /// Fills every cell with the packed `color`.
    pub fn clear(&mut self, color: [u8; 4])
        requires
            old(self).wf(),
        ensures
            final(self).wf(),
            final(self).spec_width() == old(self).spec_width(),
            final(self).spec_height() == old(self).spec_height(),
            final(self).cells() == Seq::new(old(self).cells().len(), |i: int| packed(color)),
    {
        let value = Self::rgba_to_u32(color);
        let len = self.buffer.len();
        let mut i: usize = 0;
        while i < len
            invariant
                i <= len,
                len == self.buffer@.len(),
                self.width == old(self).width,
                self.height == old(self).height,
                self.wf(),
                forall|k: int| 0 <= k < i ==> self.buffer@[k] == value,
            decreases len - i,
        {
            self.buffer.set(i, value);
            i = i + 1;
        }
        assert(self.buffer@ =~= Seq::new(old(self).cells().len(), |i: int| packed(color)));
    }

    /// Resizes the surface to `width` by `height`. Nothing changes when the
    /// dimensions are already those. Otherwise the framebuffer becomes
    /// `width * height` cells long, its first cells kept and the added ones
    /// zero; the result says whether the presentation surface must follow.
    pub fn resize(&mut self, width: u32, height: u32) -> (r: ResizeEffect)
        requires
            old(self).wf(),
            width as nat * height as nat <= usize::MAX,
        ensures
            final(self).wf(),
            r == resize_effect(old(self).spec_width(), old(self).spec_height(), width as nat, height as nat),
            r == ResizeEffect::Unchanged ==> *final(self) == *old(self),
            final(self).spec_width() == width,
            final(self).spec_height() == height,
            final(self).cells().len() == width as nat * height as nat,
            final(self).cells() == resized_cells(old(self).cells(), width as nat, height as nat),
    {
        if self.width == width && self.height == height {
            assert(self.buffer@ =~= resized_cells(self.buffer@, width as nat, height as nat));
            return ResizeEffect::Unchanged;
        }
        let len: usize = (width as u64 * height as u64) as usize;
        let old_len = self.buffer.len();
        self.width = width;
        self.height = height;
        if len <= old_len {
            self.buffer.truncate(len);
        } else {
            let mut i: usize = old_len;
            while i < len
                invariant
                    old_len <= i <= len,
                    old_len == old(self).buffer@.len(),
                    len == width as nat * height as nat,
                    self.width == width,
                    self.height == height,
                    self.buffer@.len() == i,
                    forall|k: int| 0 <= k < old_len ==> self.buffer@[k] == old(self).buffer@[k],
                    forall|k: int| old_len <= k < i ==> self.buffer@[k] == 0u32,
                decreases len - i,
            {
                self.buffer.push(0);
                i = i + 1;
            }
        }
        assert(self.buffer@ =~= resized_cells(old(self).buffer@, width as nat, height as nat));
        if width == 0 || height == 0 {
            ResizeEffect::BufferOnly
        } else {
            ResizeEffect::BufferAndSurface
        }
    }
}

} // verus!
