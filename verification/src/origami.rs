//! Transparent-paper folding: dots on a grid, folded across horizontal or
//! vertical lines, merge when they land on the same spot; the surviving dots
//! can be rendered as a character grid.

use vstd::prelude::*;

verus! {

/// A dot on the transparent sheet.
#[derive(Clone, Copy, Debug, PartialEq, Eq, Structural)]
pub struct Dot {
    pub x: usize,
    pub y: usize,
}

/// One fold instruction: along a vertical line `x = n` or a horizontal line
/// `y = n`.
#[derive(Clone, Copy, Debug, PartialEq, Eq, Structural)]
pub enum Instruction {
    FoldAlongX(usize),
    FoldAlongY(usize),
}

/// The dot does not fold off the sheet: its mirrored coordinate stays
/// non-negative.
pub open spec fn foldable(d: Dot, i: Instruction) -> bool {
    match i {
        Instruction::FoldAlongX(xf) => d.x > xf ==> d.x - xf <= xf,
        Instruction::FoldAlongY(yf) => d.y > yf ==> d.y - yf <= yf,
    }
}

/// Where the dot lands: mirrored across the fold line if it lies beyond it,
/// unchanged otherwise.
pub open spec fn fold_dot(d: Dot, i: Instruction) -> Dot {
    match i {
        Instruction::FoldAlongX(xf) => if d.x > xf {
            Dot { x: (xf - (d.x - xf)) as usize, y: d.y }
        } else {
            d
        },
        Instruction::FoldAlongY(yf) => if d.y > yf {
            Dot { x: d.x, y: (yf - (d.y - yf)) as usize }
        } else {
            d
        },
    }
}

impl Dot {
    /// Folds one dot across the instruction's line.
    pub fn fold(self, i: &Instruction) -> (r: Dot)
        requires
            foldable(self, *i),
        ensures
            r == fold_dot(self, *i),
    {
        match i {
            Instruction::FoldAlongX(xfold) => {
                if self.x > *xfold {
                    Dot { x: *xfold - (self.x - *xfold), y: self.y }
                } else {
                    self
                }
            },
            Instruction::FoldAlongY(yfold) => {
                if self.y > *yfold {
                    Dot { x: self.x, y: *yfold - (self.y - *yfold) }
                } else {
                    self
                }
            },
        }
    }
}

/// The folded dot list with duplicates dropped, keeping first occurrences in
/// order.
pub open spec fn folded_dedup(dots: Seq<Dot>, i: Instruction) -> Seq<Dot>
    decreases dots.len(),
{
    if dots.len() == 0 {
        Seq::empty()
    } else {
        let prefix = folded_dedup(dots.drop_last(), i);
        let d = fold_dot(dots.last(), i);
        if prefix.contains(d) {
            prefix
        } else {
            prefix.push(d)
        }
    }
}

/// Whether the list already holds this dot.
fn contains_dot(v: &Vec<Dot>, d: Dot) -> (r: bool)
    ensures
        r == v@.contains(d),
{
    let n = v.len();
    let mut k: usize = 0;
    while k < n
        invariant
            n == v@.len(),
            k <= n,
            forall|m: int| 0 <= m < k as int ==> v@[m] != d,
        decreases n - k,
    {
        if v[k] == d {
            return true;
        }
        k = k + 1;
    }
    false
}

/// Applies one fold to every dot and drops the dots that land on an already
/// occupied spot.
pub fn fold(dots: Vec<Dot>, instruction: &Instruction) -> (r: Vec<Dot>)
    requires
        forall|k: int| 0 <= k < dots@.len() ==> foldable(#[trigger] dots@[k], *instruction),
    ensures
        r@ == folded_dedup(dots@, *instruction),
{
    let n = dots.len();
    let mut new_dots: Vec<Dot> = Vec::new();
    let mut k: usize = 0;
    while k < n
        invariant
            n == dots@.len(),
            k <= n,
            forall|m: int| 0 <= m < n as int ==> foldable(#[trigger] dots@[m], *instruction),
            new_dots@ == folded_dedup(dots@.subrange(0, k as int), *instruction),
        decreases n - k,
    {
        let ghost prefix = dots@.subrange(0, k as int);
        let d = dots[k].fold(instruction);
        if !contains_dot(&new_dots, d) {
            new_dots.push(d);
        }
        proof {
            let next = dots@.subrange(0, k as int + 1);
            assert(next.drop_last() =~= prefix);
            assert(next.last() == dots@[k as int]);
        }
        k = k + 1;
    }
    proof {
        assert(dots@.subrange(0, n as int) =~= dots@);
    }
    new_dots
}

/// The largest x coordinate among the dots.
pub open spec fn max_x_of(dots: Seq<Dot>) -> int
    decreases dots.len(),
{
    if dots.len() <= 1 {
        dots[0].x as int
    } else {
        let rest = max_x_of(dots.drop_last());
        if dots.last().x > rest {
            dots.last().x as int
        } else {
            rest
        }
    }
}

/// The largest y coordinate among the dots.
pub open spec fn max_y_of(dots: Seq<Dot>) -> int
    decreases dots.len(),
{
    if dots.len() <= 1 {
        dots[0].y as int
    } else {
        let rest = max_y_of(dots.drop_last());
        if dots.last().y > rest {
            dots.last().y as int
        } else {
            rest
        }
    }
}

/// Whether some dot sits at this grid position.
pub open spec fn dot_at(dots: Seq<Dot>, x: int, y: int) -> bool {
    exists|k: int| 0 <= k < dots.len() && (#[trigger] dots[k]).x == x && dots[k].y == y
}

/// Whether some dot sits at this grid position, by linear scan.
fn any_dot_at(dots: &Vec<Dot>, x: usize, y: usize) -> (r: bool)
    ensures
        r == dot_at(dots@, x as int, y as int),
{
    let n = dots.len();
    let mut k: usize = 0;
    while k < n
        invariant
            n == dots@.len(),
            k <= n,
            forall|m: int| 0 <= m < k as int ==> !((#[trigger] dots@[m]).x == x as int && dots@[m].y
                == y as int),
        decreases n - k,
    {
        if dots[k].x == x && dots[k].y == y {
            return true;
        }
        k = k + 1;
    }
    false
}

/// The computed maxima agree with the spec maxima and every dot is within
/// them.
fn grid_bounds(dots: &Vec<Dot>) -> (r: (usize, usize))
    requires
        dots@.len() > 0,
    ensures
        r.0 == max_x_of(dots@),
        r.1 == max_y_of(dots@),
{
    let n = dots.len();
    let mut mx = dots[0].x;
    let mut my = dots[0].y;
    let mut k: usize = 1;
    while k < n
        invariant
            n == dots@.len(),
            n > 0,
            1 <= k <= n,
            mx == max_x_of(dots@.subrange(0, k as int)),
            my == max_y_of(dots@.subrange(0, k as int)),
        decreases n - k,
    {
        let ghost prefix = dots@.subrange(0, k as int);
        if dots[k].x > mx {
            mx = dots[k].x;
        }
        if dots[k].y > my {
            my = dots[k].y;
        }
        proof {
            let next = dots@.subrange(0, k as int + 1);
            assert(next.drop_last() =~= prefix);
            assert(next.last() == dots@[k as int]);
        }
        k = k + 1;
    }
    proof {
        assert(dots@.subrange(0, n as int) =~= dots@);
    }
    (mx, my)
}

/// The character the rendering holds at flat index `idx`, for row width
/// `w` (cells plus the trailing newline).
pub open spec fn render_char(dots: Seq<Dot>, w: int, idx: int) -> char {
    if idx % w == w - 1 {
        '\n'
    } else if dot_at(dots, idx % w, idx / w) {
        '#'
    } else {
        '.'
    }
}

/// Renders the dots: one row per y up to the largest y, each row one cell
/// per x up to the largest x followed by a newline, `#` where a dot sits and
/// `.` where none does.
pub fn show(dots: &Vec<Dot>) -> (r: Vec<char>)
    requires
        dots@.len() > 0,
        (max_x_of(dots@) + 2) * (max_y_of(dots@) + 1) <= usize::MAX,
    ensures
        r@.len() == (max_x_of(dots@) + 2) * (max_y_of(dots@) + 1),
        forall|idx: int| 0 <= idx < r@.len() ==> r@[idx] == render_char(
            dots@,
            max_x_of(dots@) + 2,
            idx,
        ),
{
    let (mx, my) = grid_bounds(dots);
    let ghost w = max_x_of(dots@) + 2;
    let ghost h = max_y_of(dots@) + 1;
    proof {
        assert(w * h >= w * 1 && w * h >= 1 * h) by (nonlinear_arith)
            requires
                w >= 2,
                h >= 1,
        ;
    }
    let mut r: Vec<char> = Vec::new();
    let mut y: usize = 0;
    while y <= my
        invariant
            mx == max_x_of(dots@),
            my == max_y_of(dots@),
            w == mx as int + 2,
            h == my as int + 1,
            w * h <= usize::MAX,
            w <= usize::MAX,
            h <= usize::MAX,
            y <= my + 1,
            r@.len() == y as int * w,
            r@.len() <= w * h,
            forall|idx: int| 0 <= idx < r@.len() ==> r@[idx] == render_char(dots@, w, idx),
        decreases my + 1 - y,
    {
        proof {
            assert((y as int + 1) * w <= h * w && (y as int + 1) * w == y as int * w + w
                && h * w == w * h) by (nonlinear_arith)
                requires
                    y as int + 1 <= h,
                    w >= 0,
            ;
        }
        let ghost row_base = y as int * w;
        let mut x: usize = 0;
        while x <= mx + 1
            invariant
                mx == max_x_of(dots@),
                my == max_y_of(dots@),
                w == mx as int + 2,
                h == my as int + 1,
                w * h <= usize::MAX,
                y <= my,
                x <= mx + 2,
                row_base == y as int * w,
                row_base + w <= w * h,
                r@.len() == row_base + x as int,
                forall|idx: int| 0 <= idx < r@.len() ==> r@[idx] == render_char(dots@, w, idx),
            decreases mx + 2 - x,
        {
            proof {
                assert((row_base + x as int) % w == x as int && (row_base + x as int) / w
                    == y as int) by (nonlinear_arith)
                    requires
                        row_base == y as int * w,
                        0 <= x as int,
                        (x as int) < w,
                        0 <= y as int,
                ;
            }
            if x == mx + 1 {
                r.push('\n');
            } else if any_dot_at(dots, x, y) {
                r.push('#');
            } else {
                r.push('.');
            }
            x = x + 1;
        }
        y = y + 1;
    }
    proof {
        assert(r@.len() == h * w);
        assert(h * w == w * h) by (nonlinear_arith);
    }
    r
}

} // verus!
