use vstd::prelude::*;
use vstd::arithmetic::div_mod::lemma_fundamental_div_mod_converse;

verus! {

/// Number of ways to align four squares on the board.
pub const GROUP_COUNT: usize = 69;

/// Four squares `(column, row)` from `(x, y)` in steps of `(dx, dy)`.
pub open spec fn line(x: int, y: int, dx: int, dy: int) -> Seq<(usize, usize)> {
    seq![
        (x as usize, y as usize),
        ((x + dx) as usize, (y + dy) as usize),
        ((x + 2 * dx) as usize, (y + 2 * dy) as usize),
        ((x + 3 * dx) as usize, (y + 3 * dy) as usize),
    ]
}

/// Group `i` of the table: 24 horizontal lines, 21 vertical ones, 12 rising
/// diagonals and 12 falling ones, each family by row and then by column.
pub open spec fn group_at(i: int) -> Seq<(usize, usize)> {
    if i < 24 {
        line(i % 4, i / 4, 1, 0)
    } else if i < 45 {
        line((i - 24) % 7, (i - 24) / 7, 0, 1)
    } else if i < 57 {
        line((i - 45) % 4, (i - 45) / 4, 1, 1)
    } else {
        line((i - 57) % 4, 3 + (i - 57) / 4, 1, -1)
    }
}

/// Appends the lines of one family: rows `y0..y1`, columns `0..width`, the
/// line at `(x, y)` going in steps of `(dx, dy)`.
fn push_family(
    output: &mut Vec<[(usize, usize); 4]>,
    y0: usize,
    y1: usize,
    width: usize,
    dx: usize,
    rising: bool,
    falling: bool,
)
    requires
        y0 <= y1 <= 6,
        1 <= width <= 7,
        dx <= 1,
        !(rising && falling),
        falling ==> y0 >= 3,
        old(output).len() <= 69,
    ensures
        final(output).len() == old(output).len() + (y1 - y0) * width,
        forall|k: int| 0 <= k < old(output).len() ==> #[trigger] final(output)@[k] == old(output)@[k],
        forall|k: int|
            old(output).len() <= k < final(output).len() ==> {
                let j = k - old(output).len();
                #[trigger] final(output)@[k]@ == line(
                    j % width as int,
                    y0 + j / width as int,
                    dx as int,
                    if rising { 1int } else if falling { -1int } else { 0int },
                )
            },
{
    let ghost base = output.len() as int;
    let ghost dy: int = if rising { 1int } else if falling { -1int } else { 0int };
    let mut y = y0;
    while y < y1
        invariant
            y0 <= y <= y1 <= 6,
            1 <= width <= 7,
            dx <= 1,
            falling ==> y0 >= 3,
            base == old(output).len(),
            dy == if rising { 1int } else if falling { -1int } else { 0int },
            output.len() == base + (y - y0) * width,
            forall|k: int| 0 <= k < base ==> #[trigger] output@[k] == old(output)@[k],
            forall|k: int|
                base <= k < output.len() ==> {
                    let j = k - base;
                    #[trigger] output@[k]@ == line(j % width as int, y0 + j / width as int, dx as int, dy)
                },
        decreases y1 - y,
    {
        let mut x: usize = 0;
        while x < width
            invariant
                y0 <= y < y1 <= 6,
                1 <= width <= 7,
                dx <= 1,
                falling ==> y0 >= 3,
                x <= width,
                base == old(output).len(),
                dy == if rising { 1int } else if falling { -1int } else { 0int },
                output.len() == base + (y - y0) * width + x,
                forall|k: int| 0 <= k < base ==> #[trigger] output@[k] == old(output)@[k],
                forall|k: int|
                    base <= k < output.len() ==> {
                        let j = k - base;
                        #[trigger] output@[k]@ == line(j % width as int, y0 + j / width as int, dx as int, dy)
                    },
            decreases width - x,
        {
            let group: [(usize, usize); 4] = if rising {
                [(x, y), (x + dx, y + 1), (x + 2 * dx, y + 2), (x + 3 * dx, y + 3)]
            } else if falling {
                [(x, y), (x + dx, y - 1), (x + 2 * dx, y - 2), (x + 3 * dx, y - 3)]
            } else {
                [(x, y), (x + dx, y), (x + 2 * dx, y), (x + 3 * dx, y)]
            };
            let ghost k = output.len() as int;
            output.push(group);
            proof {
                lemma_fundamental_div_mod_converse(k - base, width as int, (y - y0) as int, x as int);
                assert(output@[k]@ =~= line(x as int, y as int, dx as int, dy));
            }
            x = x + 1;
        }
        assert((y - y0) * width + width == (y + 1 - y0) * width) by (nonlinear_arith);
        y = y + 1;
    }
}

/// Every set of four aligned squares of the board, as `(column, row)` pairs.
pub fn generate_groups() -> (r: Vec<[(usize, usize); 4]>)
    ensures
        r.len() == GROUP_COUNT,
        forall|i: int| 0 <= i < 69 ==> #[trigger] r@[i]@ == group_at(i),
{
    let mut output: Vec<[(usize, usize); 4]> = Vec::new();
    push_family(&mut output, 0, 6, 4, 1, false, false);
    push_family(&mut output, 0, 3, 7, 0, true, false);
    push_family(&mut output, 0, 3, 4, 1, true, false);
    push_family(&mut output, 3, 6, 4, 1, false, true);
    output
}

} // verus!
