//! The dynamic time warping recurrence, over any type of cell value.
//!
//! The accumulated-cost table has `rows_x + 1` columns and `rows_y + 1` rows
//! and is stored row-major: cell `(x, y)` lives at `x + y * width`.
//! Cell `(0, 0)` holds `zero`, the rest of the first row and column hold
//! `infinity`, and every inner cell is `relax(local(x - 1, y - 1), insertion,
//! deletion, match)`, where insertion is cell `(x - 1, y)`, deletion is cell
//! `(x, y - 1)` and match is cell `(x - 1, y - 1)`.  The warping cost is the
//! last cell of the table.
use vstd::prelude::*;

verus! {

/// Position of cell `(x, y)` in a row-major table `width` cells wide.
pub open spec fn cell_index(x: int, y: int, width: int) -> int {
    x + y * width
}

/// Cell `(x, y)` of `table` holds what the recurrence prescribes.
pub open spec fn cell_follows<T, L: Fn(usize, usize) -> T, R: Fn(T, T, T, T) -> T>(
    table: Seq<T>,
    width: int,
    x: int,
    y: int,
    zero: T,
    infinity: T,
    local: L,
    relax: R,
) -> bool {
    if x == 0 && y == 0 {
        table[0] == zero
    } else if x == 0 || y == 0 {
        table[cell_index(x, y, width)] == infinity
    } else {
        exists|c: T|
            #[trigger] call_ensures(local, ((x - 1) as usize, (y - 1) as usize), c) && call_ensures(
                relax,
                (
                    c,
                    table[cell_index(x - 1, y, width)],
                    table[cell_index(x, y - 1, width)],
                    table[cell_index(x - 1, y - 1, width)],
                ),
                table[cell_index(x, y, width)],
            )
    }
}

/// `table` is the whole accumulated-cost table of a `width` by `height` grid.
pub open spec fn warping_table<T, L: Fn(usize, usize) -> T, R: Fn(T, T, T, T) -> T>(
    table: Seq<T>,
    width: int,
    height: int,
    zero: T,
    infinity: T,
    local: L,
    relax: R,
) -> bool {
    &&& width >= 1
    &&& height >= 1
    &&& table.len() == width * height
    &&& forall|x: int, y: int|
        0 <= x < width && 0 <= y < height ==> #[trigger] cell_follows(
            table,
            width,
            x,
            y,
            zero,
            infinity,
            local,
            relax,
        )
}

/// A closure that gives one output for each argument.
pub open spec fn local_is_functional<T, L: Fn(usize, usize) -> T>(local: L) -> bool {
    forall|i: usize, j: usize, a: T, b: T|
        #![trigger call_ensures(local, (i, j), a), call_ensures(local, (i, j), b)]
        call_ensures(local, (i, j), a) && call_ensures(local, (i, j), b) ==> a == b
}

/// A closure that gives one output for each argument.
pub open spec fn relax_is_functional<T, R: Fn(T, T, T, T) -> T>(relax: R) -> bool {
    forall|c: T, p: T, q: T, s: T, a: T, b: T|
        #![trigger call_ensures(relax, (c, p, q, s), a), call_ensures(relax, (c, p, q, s), b)]
        call_ensures(relax, (c, p, q, s), a) && call_ensures(relax, (c, p, q, s), b) ==> a == b
}

/// A cell inside the grid lies inside the table.
proof fn lemma_cell_in_table(x: int, y: int, width: int, height: int)
    requires
        0 <= x < width,
        0 <= y < height,
    ensures
        0 <= cell_index(x, y, width) < width * height,
        cell_index(x, y, width) <= cell_index(width - 1, height - 1, width),
        cell_index(width - 1, height - 1, width) == width * height - 1,
{
    assert(0 <= y * width <= (height - 1) * width) by (nonlinear_arith)
        requires
            0 <= y < height,
            0 <= x < width,
    ;
    assert((height - 1) * width == width * height - width) by (nonlinear_arith);
}

/// Distinct cells have distinct positions.
proof fn lemma_cell_unique(x1: int, y1: int, x2: int, y2: int, width: int)
    requires
        0 <= x1 < width,
        0 <= x2 < width,
        0 <= y1,
        0 <= y2,
        cell_index(x1, y1, width) == cell_index(x2, y2, width),
    ensures
        x1 == x2,
        y1 == y2,
{
    if y1 < y2 {
        assert(y1 * width + width <= y2 * width) by (nonlinear_arith)
            requires
                y1 < y2,
                width > 0,
        ;
    } else if y2 < y1 {
        assert(y2 * width + width <= y1 * width) by (nonlinear_arith)
            requires
                y2 < y1,
                width > 0,
        ;
    }
}

/// The row above starts `width` cells earlier.
proof fn lemma_row_above(y: int, width: int)
    ensures
        (y - 1) * width == y * width - width,
{
    assert((y - 1) * width == y * width - width) by (nonlinear_arith);
}

/// Writing one cell keeps every cell that neither is it nor reads it.
proof fn lemma_frame<T, L: Fn(usize, usize) -> T, R: Fn(T, T, T, T) -> T>(
    table: Seq<T>,
    width: int,
    height: int,
    x: int,
    y: int,
    v: T,
    a: int,
    b: int,
    zero: T,
    infinity: T,
    local: L,
    relax: R,
)
    requires
        table.len() == width * height,
        0 <= x < width,
        0 <= y < height,
        0 <= a < width,
        0 <= b < height,
        b < y || (b == y && a < x) || (a == 0 && x > 0),
        cell_follows(table, width, a, b, zero, infinity, local, relax),
    ensures
        cell_follows(
            table.update(cell_index(x, y, width), v),
            width,
            a,
            b,
            zero,
            infinity,
            local,
            relax,
        ),
{
    let k = cell_index(x, y, width);
    let t2 = table.update(k, v);
    lemma_cell_in_table(x, y, width, height);
    lemma_cell_in_table(a, b, width, height);
    lemma_cell_in_table(0, 0, width, height);
    if cell_index(a, b, width) == k {
        lemma_cell_unique(a, b, x, y, width);
    }
    if 0 == k {
        lemma_cell_unique(0, 0, x, y, width);
    }
    if a > 0 && b > 0 {
        lemma_cell_in_table(a - 1, b, width, height);
        lemma_cell_in_table(a, b - 1, width, height);
        lemma_cell_in_table(a - 1, b - 1, width, height);
        if cell_index(a - 1, b, width) == k {
            lemma_cell_unique(a - 1, b, x, y, width);
        }
        if cell_index(a, b - 1, width) == k {
            lemma_cell_unique(a, b - 1, x, y, width);
        }
        if cell_index(a - 1, b - 1, width) == k {
            lemma_cell_unique(a - 1, b - 1, x, y, width);
        }
        let c = choose|c: T|
            #[trigger] call_ensures(local, ((a - 1) as usize, (b - 1) as usize), c) && call_ensures(
                relax,
                (
                    c,
                    table[cell_index(a - 1, b, width)],
                    table[cell_index(a, b - 1, width)],
                    table[cell_index(a - 1, b - 1, width)],
                ),
                table[cell_index(a, b, width)],
            );
        assert(call_ensures(local, ((a - 1) as usize, (b - 1) as usize), c) && call_ensures(
            relax,
            (
                c,
                t2[cell_index(a - 1, b, width)],
                t2[cell_index(a, b - 1, width)],
                t2[cell_index(a - 1, b - 1, width)],
            ),
            t2[cell_index(a, b, width)],
        ));
    }
}

/// Fills the accumulated-cost table of two series of `rows_x` and `rows_y`
/// samples and returns its last cell, the warping cost.  `local(i, j)` is the
/// distance between sample `i` of the first series and sample `j` of the
/// second; `relax(cost, insertion, deletion, match)` combines that distance
/// with the three neighbouring cells.
pub fn warping_cost<T: Copy, L: Fn(usize, usize) -> T, R: Fn(T, T, T, T) -> T>(
    rows_x: usize,
    rows_y: usize,
    zero: T,
    infinity: T,
    local: L,
    relax: R,
) -> (r: T)
    requires
        (rows_x + 1) * (rows_y + 1) <= usize::MAX,
        forall|i: usize, j: usize| i < rows_x && j < rows_y ==> call_requires(local, (i, j)),
        forall|c: T, p: T, q: T, s: T| call_requires(relax, (c, p, q, s)),
    ensures
        exists|table: Seq<T>|
            #[trigger] warping_table(table, rows_x + 1, rows_y + 1, zero, infinity, local, relax) && r
                == table[(rows_x + 1) * (rows_y + 1) - 1],
        rows_x == 0 && rows_y == 0 ==> r == zero,
        (rows_x == 0) != (rows_y == 0) ==> r == infinity,
{
    assert(rows_x + 1 <= usize::MAX && rows_y + 1 <= usize::MAX) by (nonlinear_arith)
        requires
            (rows_x + 1) * (rows_y + 1) <= usize::MAX,
            rows_x >= 0,
            rows_y >= 0,
    ;
    let width = rows_x + 1;
    let height = rows_y + 1;
    let total = width * height;
    let ghost w = width as int;
    let ghost h = height as int;
    assert(total >= 1) by (nonlinear_arith)
        requires
            width >= 1,
            height >= 1,
            total == width * height,
    ;

    let mut table: Vec<T> = Vec::new();
    let mut k: usize = 0;
    while k < total
        invariant
            k <= total,
            table.len() == k,
            forall|i: int| 0 <= i < k ==> table@[i] == infinity,
        decreases total - k,
    {
        table.push(infinity);
        k = k + 1;
    }
    table.set(0, zero);

    assert forall|a: int, b: int|
        0 <= a < w && 0 <= b < h && (b < 1 || a == 0) implies #[trigger] cell_follows(
        table@,
        w,
        a,
        b,
        zero,
        infinity,
        local,
        relax,
    ) by {
        lemma_cell_in_table(a, b, w, h);
        if cell_index(a, b, w) == 0 {
            lemma_cell_in_table(0, 0, w, h);
            lemma_cell_unique(a, b, 0, 0, w);
        }
    }

    let mut y: usize = 1;
    while y < height
        invariant
            1 <= y <= height,
            width == rows_x + 1,
            height == rows_y + 1,
            w == width,
            h == height,
            total == width * height,
            table.len() == total,
            forall|i: usize, j: usize| i < rows_x && j < rows_y ==> call_requires(local, (i, j)),
            forall|c: T, p: T, q: T, s: T| call_requires(relax, (c, p, q, s)),
            forall|a: int, b: int|
                0 <= a < w && 0 <= b < h && (b < y || a == 0) ==> #[trigger] cell_follows(
                    table@,
                    w,
                    a,
                    b,
                    zero,
                    infinity,
                    local,
                    relax,
                ),
        decreases height - y,
    {
        proof {
            lemma_cell_in_table(0, y as int, w, h);
            lemma_row_above(y as int, w);
            assert(y * w + w <= h * w) by (nonlinear_arith)
                requires
                    y < h,
                    w >= 1,
            ;
        }
        let row = y * width;
        let row_above = (y - 1) * width;
        let mut x: usize = 1;
        while x < width
            invariant
                1 <= y < height,
                1 <= x <= width,
                width == rows_x + 1,
                height == rows_y + 1,
                w == width,
                h == height,
                total == width * height,
                row == y * width,
                row_above == (y - 1) * width,
                row_above + width == row,
                row + width <= total,
                table.len() == total,
                forall|i: usize, j: usize|
                    i < rows_x && j < rows_y ==> call_requires(local, (i, j)),
                forall|c: T, p: T, q: T, s: T| call_requires(relax, (c, p, q, s)),
                forall|a: int, b: int|
                    0 <= a < w && 0 <= b < h && (b < y || a == 0 || (b == y && a < x))
                        ==> #[trigger] cell_follows(
                        table@,
                        w,
                        a,
                        b,
                        zero,
                        infinity,
                        local,
                        relax,
                    ),
            decreases width - x,
        {
            let cost = local(x - 1, y - 1);
            let value_insertion = table[(x - 1) + row];
            let value_deletion = table[x + row_above];
            let value_match = table[(x - 1) + row_above];
            let final_value = relax(cost, value_insertion, value_deletion, value_match);
            let ghost before = table@;
            table.set(x + row, final_value);
            proof {
                let xi = x as int;
                let yi = y as int;
                assert(cell_index(xi, yi, w) == x + row);
                assert(cell_index(xi - 1, yi, w) == (x - 1) + row);
                assert(cell_index(xi, yi - 1, w) == x + row_above);
                assert(cell_index(xi - 1, yi - 1, w) == (x - 1) + row_above);
                assert(table@ == before.update(cell_index(xi, yi, w), final_value));
                assert forall|a: int, b: int|
                    0 <= a < w && 0 <= b < h && (b < y || a == 0 || (b == y && a < x + 1))
                        implies #[trigger] cell_follows(
                        table@,
                        w,
                        a,
                        b,
                        zero,
                        infinity,
                        local,
                        relax,
                    ) by {
                    if a == xi && b == yi {
                        assert(call_ensures(local, ((a - 1) as usize, (b - 1) as usize), cost));
                        assert(table@[cell_index(a - 1, b, w)] == value_insertion);
                        assert(table@[cell_index(a, b - 1, w)] == value_deletion);
                        assert(table@[cell_index(a - 1, b - 1, w)] == value_match);
                    } else {
                        assert(cell_follows(before, w, a, b, zero, infinity, local, relax));
                        lemma_frame(
                            before,
                            w,
                            h,
                            xi,
                            yi,
                            final_value,
                            a,
                            b,
                            zero,
                            infinity,
                            local,
                            relax,
                        );
                    }
                }
            }
            x = x + 1;
        }
        y = y + 1;
    }
    proof {
        lemma_cell_in_table(w - 1, h - 1, w, h);
        assert(warping_table(table@, w, h, zero, infinity, local, relax));
        assert(cell_follows(table@, w, w - 1, h - 1, zero, infinity, local, relax));
    }
    table[total - 1]
}

/// Two tables that both follow the recurrence agree on every cell, when the
/// distance and the combination are functions of their arguments.
proof fn lemma_cells_agree<T, L: Fn(usize, usize) -> T, R: Fn(T, T, T, T) -> T>(
    t1: Seq<T>,
    t2: Seq<T>,
    width: int,
    height: int,
    x: int,
    y: int,
    zero: T,
    infinity: T,
    local: L,
    relax: R,
)
    requires
        warping_table(t1, width, height, zero, infinity, local, relax),
        warping_table(t2, width, height, zero, infinity, local, relax),
        local_is_functional(local),
        relax_is_functional(relax),
        0 <= x < width,
        0 <= y < height,
    ensures
        t1[cell_index(x, y, width)] == t2[cell_index(x, y, width)],
    decreases y, x,
{
    assert(cell_follows(t1, width, x, y, zero, infinity, local, relax));
    assert(cell_follows(t2, width, x, y, zero, infinity, local, relax));
    if x > 0 && y > 0 {
        lemma_cells_agree(t1, t2, width, height, x - 1, y, zero, infinity, local, relax);
        lemma_cells_agree(t1, t2, width, height, x, y - 1, zero, infinity, local, relax);
        lemma_cells_agree(t1, t2, width, height, x - 1, y - 1, zero, infinity, local, relax);
        let c1 = choose|c: T|
            #[trigger] call_ensures(local, ((x - 1) as usize, (y - 1) as usize), c)
                && call_ensures(
                relax,
                (
                    c,
                    t1[cell_index(x - 1, y, width)],
                    t1[cell_index(x, y - 1, width)],
                    t1[cell_index(x - 1, y - 1, width)],
                ),
                t1[cell_index(x, y, width)],
            );
        let c2 = choose|c: T|
            #[trigger] call_ensures(local, ((x - 1) as usize, (y - 1) as usize), c)
                && call_ensures(
                relax,
                (
                    c,
                    t2[cell_index(x - 1, y, width)],
                    t2[cell_index(x, y - 1, width)],
                    t2[cell_index(x - 1, y - 1, width)],
                ),
                t2[cell_index(x, y, width)],
            );
        assert(c1 == c2);
    } else if x == 0 && y == 0 {
        assert(cell_index(0, 0, width) == 0);
    }
}

/// The warping cost is determined by its inputs: any two tables that follow
/// the recurrence of the same distance and combination, each a function of
/// its arguments, end in the same cell.
pub proof fn lemma_warping_cost_determined<T, L: Fn(usize, usize) -> T, R: Fn(T, T, T, T) -> T>(
    t1: Seq<T>,
    t2: Seq<T>,
    width: int,
    height: int,
    zero: T,
    infinity: T,
    local: L,
    relax: R,
)
    requires
        warping_table(t1, width, height, zero, infinity, local, relax),
        warping_table(t2, width, height, zero, infinity, local, relax),
        local_is_functional(local),
        relax_is_functional(relax),
    ensures
        t1[width * height - 1] == t2[width * height - 1],
        t1 == t2,
{
    lemma_cell_in_table(width - 1, height - 1, width, height);
    lemma_cells_agree(t1, t2, width, height, width - 1, height - 1, zero, infinity, local, relax);
    assert forall|i: int| 0 <= i < t1.len() implies t1[i] == t2[i] by {
        let x = i % width;
        let y = i / width;
        assert(i == x + y * width && 0 <= x < width && 0 <= y < height) by (nonlinear_arith)
            requires
                0 <= i < width * height,
                width >= 1,
                x == i % width,
                y == i / width,
        ;
        lemma_cells_agree(t1, t2, width, height, x, y, zero, infinity, local, relax);
    }
    assert(t1 =~= t2);
}

/// Cell `(x, y)` of a table agrees with cell `(y, x)` of the table of the
/// swapped series.
proof fn lemma_cells_transpose<
    T,
    L: Fn(usize, usize) -> T,
    M: Fn(usize, usize) -> T,
    R: Fn(T, T, T, T) -> T,
>(
    t1: Seq<T>,
    t2: Seq<T>,
    width: int,
    height: int,
    x: int,
    y: int,
    zero: T,
    infinity: T,
    local: L,
    swapped: M,
    relax: R,
)
    requires
        warping_table(t1, width, height, zero, infinity, local, relax),
        warping_table(t2, height, width, zero, infinity, swapped, relax),
        forall|i: usize, j: usize, a: T, b: T|
            #![trigger call_ensures(local, (i, j), a), call_ensures(swapped, (j, i), b)]
            call_ensures(local, (i, j), a) && call_ensures(swapped, (j, i), b) ==> a == b,
        forall|c: T, p: T, q: T, s: T, a: T, b: T|
            #![trigger call_ensures(relax, (c, p, q, s), a), call_ensures(relax, (c, q, p, s), b)]
            call_ensures(relax, (c, p, q, s), a) && call_ensures(relax, (c, q, p, s), b) ==> a
                == b,
        0 <= x < width,
        0 <= y < height,
    ensures
        t1[cell_index(x, y, width)] == t2[cell_index(y, x, height)],
    decreases y, x,
{
    assert(cell_follows(t1, width, x, y, zero, infinity, local, relax));
    assert(cell_follows(t2, height, y, x, zero, infinity, swapped, relax));
    if x > 0 && y > 0 {
        lemma_cells_transpose(t1, t2, width, height, x - 1, y, zero, infinity, local, swapped, relax);
        lemma_cells_transpose(t1, t2, width, height, x, y - 1, zero, infinity, local, swapped, relax);
        lemma_cells_transpose(
            t1,
            t2,
            width,
            height,
            x - 1,
            y - 1,
            zero,
            infinity,
            local,
            swapped,
            relax,
        );
        let c1 = choose|c: T|
            #[trigger] call_ensures(local, ((x - 1) as usize, (y - 1) as usize), c)
                && call_ensures(
                relax,
                (
                    c,
                    t1[cell_index(x - 1, y, width)],
                    t1[cell_index(x, y - 1, width)],
                    t1[cell_index(x - 1, y - 1, width)],
                ),
                t1[cell_index(x, y, width)],
            );
        let c2 = choose|c: T|
            #[trigger] call_ensures(swapped, ((y - 1) as usize, (x - 1) as usize), c)
                && call_ensures(
                relax,
                (
                    c,
                    t2[cell_index(y - 1, x, height)],
                    t2[cell_index(y, x - 1, height)],
                    t2[cell_index(y - 1, x - 1, height)],
                ),
                t2[cell_index(y, x, height)],
            );
        assert(c1 == c2);
    } else if x == 0 && y == 0 {
        assert(cell_index(0, 0, width) == 0);
        assert(cell_index(0, 0, height) == 0);
    }
}

/// Warping is symmetric: warping the second series against the first gives
/// the same cost as warping the first against the second, when the distance
/// between samples does not depend on their order and the combination treats
/// insertion and deletion alike.
pub proof fn lemma_warping_cost_symmetric<
    T,
    L: Fn(usize, usize) -> T,
    M: Fn(usize, usize) -> T,
    R: Fn(T, T, T, T) -> T,
>(
    t1: Seq<T>,
    t2: Seq<T>,
    width: int,
    height: int,
    zero: T,
    infinity: T,
    local: L,
    swapped: M,
    relax: R,
)
    requires
        warping_table(t1, width, height, zero, infinity, local, relax),
        warping_table(t2, height, width, zero, infinity, swapped, relax),
        forall|i: usize, j: usize, a: T, b: T|
            #![trigger call_ensures(local, (i, j), a), call_ensures(swapped, (j, i), b)]
            call_ensures(local, (i, j), a) && call_ensures(swapped, (j, i), b) ==> a == b,
        forall|c: T, p: T, q: T, s: T, a: T, b: T|
            #![trigger call_ensures(relax, (c, p, q, s), a), call_ensures(relax, (c, q, p, s), b)]
            call_ensures(relax, (c, p, q, s), a) && call_ensures(relax, (c, q, p, s), b) ==> a
                == b,
    ensures
        t1[width * height - 1] == t2[height * width - 1],
{
    lemma_cell_in_table(width - 1, height - 1, width, height);
    lemma_cell_in_table(height - 1, width - 1, height, width);
    lemma_cells_transpose(
        t1,
        t2,
        width,
        height,
        width - 1,
        height - 1,
        zero,
        infinity,
        local,
        swapped,
        relax,
    );
}

/// Every cell of a table lies in a set of values that holds `zero` and
/// `infinity`, every distance, and every combination of its members.
proof fn lemma_cells_in_domain<T, L: Fn(usize, usize) -> T, R: Fn(T, T, T, T) -> T>(
    table: Seq<T>,
    width: int,
    height: int,
    zero: T,
    infinity: T,
    local: L,
    relax: R,
    domain: spec_fn(T) -> bool,
    x: int,
    y: int,
)
    requires
        warping_table(table, width, height, zero, infinity, local, relax),
        domain(zero),
        domain(infinity),
        forall|i: usize, j: usize, c: T| #[trigger] call_ensures(local, (i, j), c) ==> domain(c),
        forall|c: T, p: T, q: T, s: T, o: T|
            #[trigger] call_ensures(relax, (c, p, q, s), o) && domain(c) && domain(p) && domain(q)
                && domain(s) ==> domain(o),
        0 <= x < width,
        0 <= y < height,
    ensures
        domain(table[cell_index(x, y, width)]),
    decreases y, x,
{
    assert(cell_follows(table, width, x, y, zero, infinity, local, relax));
    if x > 0 && y > 0 {
        lemma_cells_in_domain(table, width, height, zero, infinity, local, relax, domain, x - 1, y);
        lemma_cells_in_domain(table, width, height, zero, infinity, local, relax, domain, x, y - 1);
        lemma_cells_in_domain(
            table,
            width,
            height,
            zero,
            infinity,
            local,
            relax,
            domain,
            x - 1,
            y - 1,
        );
        let c = choose|c: T|
            #[trigger] call_ensures(local, ((x - 1) as usize, (y - 1) as usize), c)
                && call_ensures(
                relax,
                (
                    c,
                    table[cell_index(x - 1, y, width)],
                    table[cell_index(x, y - 1, width)],
                    table[cell_index(x - 1, y - 1, width)],
                ),
                table[cell_index(x, y, width)],
            );
        assert(domain(c));
    } else if x == 0 && y == 0 {
        assert(cell_index(0, 0, width) == 0);
    }
}

/// The diagonal cells of the table of a series against itself are `zero`.
proof fn lemma_diagonal_zero<T, L: Fn(usize, usize) -> T, R: Fn(T, T, T, T) -> T>(
    table: Seq<T>,
    rows: int,
    zero: T,
    infinity: T,
    local: L,
    relax: R,
    domain: spec_fn(T) -> bool,
    i: int,
)
    requires
        warping_table(table, rows + 1, rows + 1, zero, infinity, local, relax),
        domain(zero),
        domain(infinity),
        forall|i: usize, j: usize, c: T| #[trigger] call_ensures(local, (i, j), c) ==> domain(c),
        forall|i: usize, c: T| #[trigger] call_ensures(local, (i, i), c) ==> c == zero,
        forall|c: T, p: T, q: T, s: T, o: T|
            #[trigger] call_ensures(relax, (c, p, q, s), o) && domain(c) && domain(p) && domain(q)
                && domain(s) ==> domain(o),
        forall|p: T, q: T, o: T|
            #[trigger] call_ensures(relax, (zero, p, q, zero), o) && domain(p) && domain(q) ==> o
                == zero,
        0 <= i <= rows,
    ensures
        table[cell_index(i, i, rows + 1)] == zero,
    decreases i,
{
    let w = rows + 1;
    assert(cell_follows(table, w, i, i, zero, infinity, local, relax));
    if i == 0 {
        assert(cell_index(0, 0, w) == 0);
    } else {
        lemma_diagonal_zero(table, rows, zero, infinity, local, relax, domain, i - 1);
        lemma_cells_in_domain(table, w, w, zero, infinity, local, relax, domain, i - 1, i);
        lemma_cells_in_domain(table, w, w, zero, infinity, local, relax, domain, i, i - 1);
        let c = choose|c: T|
            #[trigger] call_ensures(local, ((i - 1) as usize, (i - 1) as usize), c)
                && call_ensures(
                relax,
                (
                    c,
                    table[cell_index(i - 1, i, w)],
                    table[cell_index(i, i - 1, w)],
                    table[cell_index(i - 1, i - 1, w)],
                ),
                table[cell_index(i, i, w)],
            );
        assert(c == zero);
    }
}

/// A series is at warping cost `zero` from itself, when the distance of a
/// sample to itself is `zero`, all distances and combinations stay within a
/// set of values that holds `zero` and `infinity`, and combining a `zero`
/// distance with a `zero` match gives `zero` whatever the insertion and
/// deletion within that set.
pub proof fn lemma_self_warping_cost_zero<T, L: Fn(usize, usize) -> T, R: Fn(T, T, T, T) -> T>(
    table: Seq<T>,
    rows: int,
    zero: T,
    infinity: T,
    local: L,
    relax: R,
    domain: spec_fn(T) -> bool,
)
    requires
        warping_table(table, rows + 1, rows + 1, zero, infinity, local, relax),
        domain(zero),
        domain(infinity),
        forall|i: usize, j: usize, c: T| #[trigger] call_ensures(local, (i, j), c) ==> domain(c),
        forall|i: usize, c: T| #[trigger] call_ensures(local, (i, i), c) ==> c == zero,
        forall|c: T, p: T, q: T, s: T, o: T|
            #[trigger] call_ensures(relax, (c, p, q, s), o) && domain(c) && domain(p) && domain(q)
                && domain(s) ==> domain(o),
        forall|p: T, q: T, o: T|
            #[trigger] call_ensures(relax, (zero, p, q, zero), o) && domain(p) && domain(q) ==> o
                == zero,
    ensures
        table[(rows + 1) * (rows + 1) - 1] == zero,
{
    lemma_cell_in_table(rows, rows, rows + 1, rows + 1);
    lemma_diagonal_zero(table, rows, zero, infinity, local, relax, domain, rows);
}

/// Why two multivariate series cannot be warped against each other.
#[derive(Debug, Clone, Copy, PartialEq, Eq, Structural)]
pub enum ShapeError {
    /// The samples of the two series have different numbers of columns.
    ColumnMismatch,
    /// The accumulated-cost table would have more cells than a `usize` counts.
    TooLarge,
    /// A series holds fewer values than its rows times its columns, while
    /// the table has inner cells that would read them.
    SeriesTooShort,
}

/// The table dimensions for two series stored row-major in buffers of
/// `len_x` and `len_y` values, or why there are none.
pub open spec fn series_shape(
    len_x: usize,
    rows_x: usize,
    cols_x: usize,
    len_y: usize,
    rows_y: usize,
    cols_y: usize,
) -> Result<(usize, usize), ShapeError> {
    if cols_x != cols_y {
        Err(ShapeError::ColumnMismatch)
    } else if (rows_x + 1) * (rows_y + 1) > usize::MAX {
        Err(ShapeError::TooLarge)
    } else if rows_x >= 1 && rows_y >= 1 && (rows_x * cols_x > len_x || rows_y * cols_y > len_y) {
        Err(ShapeError::SeriesTooShort)
    } else {
        Ok(((rows_x + 1) as usize, (rows_y + 1) as usize))
    }
}

/// The shape check refuses series whose samples have different column counts,
/// in either direction; it accepts exactly when the columns agree, the table
/// fits, and each series holds its rows of samples whenever an inner cell
/// reads them; and an accepted shape is the first series' rows plus one wide
/// and the second series' rows plus one high.
pub proof fn lemma_shape_accepts_only_matching_series(
    len_x: usize,
    rows_x: usize,
    cols_x: usize,
    len_y: usize,
    rows_y: usize,
    cols_y: usize,
)
    ensures
        cols_x < cols_y ==> series_shape(len_x, rows_x, cols_x, len_y, rows_y, cols_y) == Err::<
            (usize, usize),
            ShapeError,
        >(ShapeError::ColumnMismatch),
        cols_x > cols_y ==> series_shape(len_x, rows_x, cols_x, len_y, rows_y, cols_y) == Err::<
            (usize, usize),
            ShapeError,
        >(ShapeError::ColumnMismatch),
        series_shape(len_x, rows_x, cols_x, len_y, rows_y, cols_y) is Ok <==> (cols_x == cols_y
            && (rows_x + 1) * (rows_y + 1) <= usize::MAX && (rows_x == 0 || rows_y == 0 || (rows_x
            * cols_x <= len_x && rows_y * cols_y <= len_y))),
        series_shape(len_x, rows_x, cols_x, len_y, rows_y, cols_y) matches Ok((w, h)) ==> w
            == rows_x + 1 && h == rows_y + 1,
{
    if (rows_x + 1) * (rows_y + 1) <= usize::MAX {
        assert(rows_x + 1 <= usize::MAX && rows_y + 1 <= usize::MAX) by (nonlinear_arith)
            requires
                (rows_x + 1) * (rows_y + 1) <= usize::MAX,
                rows_x >= 0,
                rows_y >= 0,
        ;
    }
}

/// Checks that two row-major series can be warped against each other and
/// gives the width and height of their accumulated-cost table.
pub fn warping_shape(
    len_x: usize,
    rows_x: usize,
    cols_x: usize,
    len_y: usize,
    rows_y: usize,
    cols_y: usize,
) -> (r: Result<(usize, usize), ShapeError>)
    ensures
        r == series_shape(len_x, rows_x, cols_x, len_y, rows_y, cols_y),
        cols_x != cols_y ==> r == Err::<(usize, usize), ShapeError>(ShapeError::ColumnMismatch),
        r matches Ok((w, h)) ==> cols_x == cols_y && w == rows_x + 1 && h == rows_y + 1 && w * h
            <= usize::MAX,
{
    proof {
        lemma_shape_accepts_only_matching_series(len_x, rows_x, cols_x, len_y, rows_y, cols_y);
    }
    if cols_x != cols_y {
        return Err(ShapeError::ColumnMismatch);
    }
    let width = match rows_x.checked_add(1) {
        Some(w) => w,
        None => {
            assert((rows_x + 1) * (rows_y + 1) > usize::MAX) by (nonlinear_arith)
                requires
                    rows_x + 1 > usize::MAX,
                    rows_y >= 0,
            ;
            return Err(ShapeError::TooLarge);
        },
    };
    let height = match rows_y.checked_add(1) {
        Some(h) => h,
        None => {
            assert((rows_x + 1) * (rows_y + 1) > usize::MAX) by (nonlinear_arith)
                requires
                    rows_y + 1 > usize::MAX,
                    rows_x >= 0,
            ;
            return Err(ShapeError::TooLarge);
        },
    };
    if width.checked_mul(height).is_none() {
        return Err(ShapeError::TooLarge);
    }
    if rows_x >= 1 && rows_y >= 1 {
        let x_fits = match rows_x.checked_mul(cols_x) {
            Some(n) => n <= len_x,
            None => false,
        };
        let y_fits = match rows_y.checked_mul(cols_y) {
            Some(n) => n <= len_y,
            None => false,
        };
        if !x_fits || !y_fits {
            return Err(ShapeError::SeriesTooShort);
        }
    }
    Ok((width, height))
}

/// Once the shape is accepted, every sample that the distance of an inner
/// cell reads lies inside its series' buffer.
pub proof fn lemma_samples_in_series(
    len_x: usize,
    rows_x: usize,
    cols_x: usize,
    len_y: usize,
    rows_y: usize,
    cols_y: usize,
    i: usize,
    j: usize,
)
    requires
        series_shape(len_x, rows_x, cols_x, len_y, rows_y, cols_y) is Ok,
        i < rows_x,
        j < rows_y,
    ensures
        (i + 1) * cols_x <= len_x,
        (j + 1) * cols_y <= len_y,
        (rows_x + 1) * (rows_y + 1) <= usize::MAX,
{
    assert((i + 1) * cols_x <= rows_x * cols_x) by (nonlinear_arith)
        requires
            i < rows_x,
    ;
    assert((j + 1) * cols_y <= rows_y * cols_y) by (nonlinear_arith)
        requires
            j < rows_y,
    ;
}

/// Warps two row-major multivariate series against each other: checks their
/// shape as `warping_shape` does, then fills the accumulated-cost table as
/// `warping_cost` does.  `local(i, j)` is the distance between row `i` of the
/// first series and row `j` of the second.
pub fn warp_series<T: Copy, L: Fn(usize, usize) -> T, R: Fn(T, T, T, T) -> T>(
    len_x: usize,
    rows_x: usize,
    cols_x: usize,
    len_y: usize,
    rows_y: usize,
    cols_y: usize,
    zero: T,
    infinity: T,
    local: L,
    relax: R,
) -> (r: Result<T, ShapeError>)
    requires
        forall|i: usize, j: usize| i < rows_x && j < rows_y ==> call_requires(local, (i, j)),
        forall|c: T, p: T, q: T, s: T| call_requires(relax, (c, p, q, s)),
    ensures
        series_shape(len_x, rows_x, cols_x, len_y, rows_y, cols_y) matches Err(e) ==> r == Err::<
            T,
            ShapeError,
        >(e),
        cols_x != cols_y ==> r == Err::<T, ShapeError>(ShapeError::ColumnMismatch),
        series_shape(len_x, rows_x, cols_x, len_y, rows_y, cols_y) is Ok ==> (r matches Ok(v)
            && exists|table: Seq<T>|
            #[trigger] warping_table(table, rows_x + 1, rows_y + 1, zero, infinity, local, relax)
                && v == table[(rows_x + 1) * (rows_y + 1) - 1]),
{
    match warping_shape(len_x, rows_x, cols_x, len_y, rows_y, cols_y) {
        Err(e) => Err(e),
        Ok(_) => Ok(warping_cost(rows_x, rows_y, zero, infinity, local, relax)),
    }
}

} // verus!
