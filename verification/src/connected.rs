//! 4-connected component labeling on a binary mask, with bounding box,
//! area and coordinate sums for each component. Iterative flood fill with
//! an explicit stack; no recursion (page masks can have huge connected
//! regions).
//!
//! A mask of `w * h` bytes is read row-major: pixel `p` sits at column
//! `p % w`, row `p / w`, and is set when its byte is non-zero. Two pixels
//! are adjacent when they share an edge.

use vstd::prelude::*;
use vstd::arithmetic::div_mod::lemma_fundamental_div_mod_converse;

verus! {

/// One connected region of set pixels. The centroid is
/// `(sum_x / area, sum_y / area)`.
#[derive(Clone, Copy, Debug, PartialEq, Eq, Structural)]
pub struct Blob {
    pub area: u32,
    pub min_x: u32,
    pub min_y: u32,
    pub max_x: u32,
    pub max_y: u32,
    /// Sum of the column indices of the pixels.
    pub sum_x: u64,
    /// Sum of the row indices of the pixels.
    pub sum_y: u64,
}

impl Blob {
    /// Bounding-box width, `max_x - min_x + 1`.
    pub fn width(&self) -> (r: u32)
        requires
            self.min_x <= self.max_x,
            self.max_x - self.min_x < u32::MAX,
        ensures
            r == self.max_x - self.min_x + 1,
    {
        self.max_x - self.min_x + 1
    }

    /// Bounding-box height, `max_y - min_y + 1`.
    pub fn height(&self) -> (r: u32)
        requires
            self.min_y <= self.max_y,
            self.max_y - self.min_y < u32::MAX,
        ensures
            r == self.max_y - self.min_y + 1,
    {
        self.max_y - self.min_y + 1
    }
}

// ---------------------------------------------------------------------
// The grid model.
// ---------------------------------------------------------------------

/// Column (`axis == false`) or row (`axis == true`) of pixel `p` in a grid
/// `w` pixels wide.
pub open spec fn coord(w: int, axis: bool, p: int) -> int {
    if axis {
        p / w
    } else {
        p % w
    }
}

/// Pixel `p` lies in the mask and its byte is non-zero.
pub open spec fn is_set(m: Seq<u8>, p: int) -> bool {
    0 <= p < m.len() && m[p] != 0
}

/// `p` and `q` share an edge.
pub open spec fn adjacent(w: int, p: int, q: int) -> bool {
    ||| coord(w, true, p) == coord(w, true, q) && (coord(w, false, q) == coord(w, false, p) + 1
        || coord(w, false, p) == coord(w, false, q) + 1)
    ||| coord(w, false, p) == coord(w, false, q) && (coord(w, true, q) == coord(w, true, p) + 1
        || coord(w, true, p) == coord(w, true, q) + 1)
}

/// A non-empty walk through set pixels, each step to an adjacent pixel.
pub open spec fn is_path(m: Seq<u8>, w: int, path: Seq<int>) -> bool {
    &&& path.len() > 0
    &&& forall|i: int| 0 <= i < path.len() ==> is_set(m, #[trigger] path[i])
    &&& forall|i: int, j: int|
        #![trigger path[i], path[j]]
        0 <= i && j == i + 1 && j < path.len() ==> adjacent(w, path[i], path[j])
}

pub open spec fn connects(m: Seq<u8>, w: int, path: Seq<int>, s: int, q: int) -> bool {
    is_path(m, w, path) && path[0] == s && path.last() == q
}

/// Set pixel `q` can be reached from set pixel `s` through set pixels.
pub open spec fn reaches(m: Seq<u8>, w: int, s: int, q: int) -> bool {
    exists|path: Seq<int>| #[trigger] connects(m, w, path, s, q)
}

/// The 4-connected component of `s`.
pub open spec fn component(m: Seq<u8>, w: int, s: int) -> Set<int> {
    Set::new(|q: int| reaches(m, w, s, q))
}

/// `s` is set and is the first pixel (in row-major order) of its component.
pub open spec fn is_root(m: Seq<u8>, w: int, s: int) -> bool {
    &&& is_set(m, s)
    &&& forall|q: int| #[trigger] reaches(m, w, s, q) ==> s <= q
}

/// How many of the pixels `0 .. n` lie in `c`.
pub open spec fn count_in(c: Set<int>, n: int) -> int
    decreases n,
{
    if n <= 0 {
        0
    } else {
        count_in(c, n - 1) + if c.contains(n - 1) {
            1int
        } else {
            0int
        }
    }
}

/// Sum of the coordinates along `axis` of the pixels `0 .. n` in `c`.
pub open spec fn sum_in(w: int, axis: bool, c: Set<int>, n: int) -> int
    decreases n,
{
    if n <= 0 {
        0
    } else {
        sum_in(w, axis, c, n - 1) + if c.contains(n - 1) {
            coord(w, axis, n - 1)
        } else {
            0
        }
    }
}

/// Least coordinate along `axis` of the pixels `0 .. n` in `c`, or `top`
/// when it is smaller or there is none.
pub open spec fn min_in(w: int, axis: bool, c: Set<int>, n: int, top: int) -> int
    decreases n,
{
    if n <= 0 {
        top
    } else {
        let r = min_in(w, axis, c, n - 1, top);
        if c.contains(n - 1) && coord(w, axis, n - 1) < r {
            coord(w, axis, n - 1)
        } else {
            r
        }
    }
}

/// Greatest coordinate along `axis` of the pixels `0 .. n` in `c`, or 0
/// when there is none.
pub open spec fn max_in(w: int, axis: bool, c: Set<int>, n: int) -> int
    decreases n,
{
    if n <= 0 {
        0
    } else {
        let r = max_in(w, axis, c, n - 1);
        if c.contains(n - 1) && coord(w, axis, n - 1) > r {
            coord(w, axis, n - 1)
        } else {
            r
        }
    }
}

/// The blob of the component of `s` in the mask `m`, `w` pixels wide.
pub open spec fn component_blob(m: Seq<u8>, w: int, s: int) -> Blob {
    let c = component(m, w, s);
    let n = m.len() as int;
    Blob {
        area: count_in(c, n) as u32,
        min_x: min_in(w, false, c, n, u32::MAX as int) as u32,
        min_y: min_in(w, true, c, n, u32::MAX as int) as u32,
        max_x: max_in(w, false, c, n) as u32,
        max_y: max_in(w, true, c, n) as u32,
        sum_x: sum_in(w, false, c, n) as u64,
        sum_y: sum_in(w, true, c, n) as u64,
    }
}

/// The blobs of the components whose area is at least `min_area`, for
/// the components whose first pixel is below `n`, in the order of those
/// first pixels.
pub open spec fn scan_blobs(m: Seq<u8>, w: int, min_area: int, n: int) -> Seq<Blob>
    decreases n,
{
    if n <= 0 {
        Seq::empty()
    } else {
        let prev = scan_blobs(m, w, min_area, n - 1);
        let s = n - 1;
        if is_root(m, w, s) && count_in(component(m, w, s), m.len() as int) >= min_area {
            prev.push(component_blob(m, w, s))
        } else {
            prev
        }
    }
}

/// Every set neighbor of a pixel marked in `c` is marked too.
pub open spec fn closed(m: Seq<u8>, w: int, c: Seq<bool>) -> bool {
    forall|p: int, q: int|
        #![trigger c[p], adjacent(w, p, q)]
        0 <= p < c.len() && c[p] && is_set(m, q) && adjacent(w, p, q) ==> q < c.len() && c[q]
}

// ---------------------------------------------------------------------
// Lemmas on the grid.
// ---------------------------------------------------------------------

proof fn lemma_coords(w: int, x: int, y: int)
    requires
        0 <= x < w,
        0 <= y,
    ensures
        coord(w, false, y * w + x) == x,
        coord(w, true, y * w + x) == y,
{
    lemma_fundamental_div_mod_converse(y * w + x, w, y, x);
}

proof fn lemma_index_bound(w: int, h: int, x: int, y: int)
    requires
        0 <= x < w,
        0 <= y < h,
    ensures
        0 <= y * w + x < w * h,
{
    assert(0 <= y * w + x < w * h) by (nonlinear_arith)
        requires
            0 <= x < w,
            0 <= y < h,
    ;
}

/// Any pixel adjacent to the pixel at `(x, y)` is one of its four
/// neighbors.
proof fn lemma_adjacent_cases(w: int, h: int, x: int, y: int, q: int)
    requires
        0 <= x < w,
        0 <= y < h,
        0 <= q < w * h,
        adjacent(w, y * w + x, q),
    ensures
        (x > 0 && q == y * w + (x - 1)) || (x + 1 < w && q == y * w + (x + 1)) || (y > 0 && q == (
        y - 1) * w + x) || (y + 1 < h && q == (y + 1) * w + x),
{
    lemma_coords(w, x, y);
    let qx = q % w;
    let qy = q / w;
    vstd::arithmetic::div_mod::lemma_fundamental_div_mod(q, w);
    assert(q == w * qy + qx);
    assert(0 <= qx < w) by {
        vstd::arithmetic::div_mod::lemma_mod_bound(q, w);
    }
    assert(qy * w == w * qy) by (nonlinear_arith);
    assert(qy < h) by {
        if qy >= h {
            assert(qy * w >= h * w) by (nonlinear_arith)
                requires
                    qy >= h,
                    w > 0,
            ;
            assert(h * w == w * h) by (nonlinear_arith);
        }
    }
    if qy == y {
    } else if qy == y + 1 {
        assert((y + 1) * w == y * w + w) by (nonlinear_arith);
    } else {
        assert(qy + 1 == y);
        assert((y - 1) * w == y * w - w) by (nonlinear_arith);
    }
}

proof fn lemma_adjacent_symmetric(w: int, p: int, q: int)
    ensures
        adjacent(w, p, q) == adjacent(w, q, p),
{
}

proof fn lemma_reaches_self(m: Seq<u8>, w: int, s: int)
    requires
        is_set(m, s),
    ensures
        reaches(m, w, s, s),
{
    let path = seq![s];
    assert(connects(m, w, path, s, s));
}

/// A set pixel adjacent to a reachable pixel is reachable.
proof fn lemma_reaches_step(m: Seq<u8>, w: int, s: int, p: int, q: int)
    requires
        reaches(m, w, s, p),
        is_set(m, q),
        adjacent(w, p, q),
    ensures
        reaches(m, w, s, q),
{
    let path = choose|path: Seq<int>| connects(m, w, path, s, p);
    let np = path.push(q);
    assert forall|i: int, j: int| 0 <= i && j == i + 1 && j < np.len() implies adjacent(
        w,
        np[i],
        np[j],
    ) by {
        if j < path.len() {
            assert(path[i] == np[i] && path[j] == np[j]);
        } else {
            assert(np[i] == p);
        }
    }
    assert(connects(m, w, np, s, q));
}

/// Reachability is symmetric.
proof fn lemma_reaches_reverse(m: Seq<u8>, w: int, s: int, q: int)
    requires
        reaches(m, w, s, q),
    ensures
        reaches(m, w, q, s),
{
    let path = choose|path: Seq<int>| connects(m, w, path, s, q);
    let rp = path.reverse();
    let n = path.len();
    assert forall|i: int| 0 <= i < rp.len() implies is_set(m, #[trigger] rp[i]) by {
        assert(rp[i] == path[n - 1 - i]);
    }
    assert forall|i: int, j: int| 0 <= i && j == i + 1 && j < rp.len() implies adjacent(
        w,
        rp[i],
        rp[j],
    ) by {
        let a = n - 1 - j;
        let b = n - 1 - i;
        assert(rp[i] == path[b] && rp[j] == path[a]);
        assert(adjacent(w, path[a], path[b]));
        lemma_adjacent_symmetric(w, path[a], path[b]);
    }
    assert(rp[0] == path[n - 1]);
    assert(rp.last() == path[0]);
    assert(connects(m, w, rp, q, s));
}

/// A set pixel reached from anything is set.
proof fn lemma_reaches_set(m: Seq<u8>, w: int, s: int, q: int)
    requires
        reaches(m, w, s, q),
    ensures
        is_set(m, q),
        is_set(m, s),
{
    let path = choose|path: Seq<int>| connects(m, w, path, s, q);
    assert(is_set(m, path[path.len() - 1]));
    assert(is_set(m, path[0]));
}

/// A closed marking that marks one pixel of a path marks all of it.
proof fn lemma_closed_path(m: Seq<u8>, w: int, c: Seq<bool>, path: Seq<int>, k: int)
    requires
        c.len() == m.len(),
        closed(m, w, c),
        is_path(m, w, path),
        0 <= k < path.len(),
        c[path[k]],
    ensures
        forall|j: int| 0 <= j < path.len() ==> c[#[trigger] path[j]],
{
    assert forall|j: int| 0 <= j < path.len() implies c[#[trigger] path[j]] by {
        lemma_closed_path_one(m, w, c, path, k, j);
    }
}

proof fn lemma_closed_path_one(m: Seq<u8>, w: int, c: Seq<bool>, path: Seq<int>, k: int, j: int)
    requires
        c.len() == m.len(),
        closed(m, w, c),
        is_path(m, w, path),
        0 <= k < path.len(),
        0 <= j < path.len(),
        c[path[k]],
    ensures
        c[path[j]],
    decreases if j > k {
        j - k
    } else {
        k - j
    },
{
    if j > k {
        lemma_closed_path_one(m, w, c, path, k, j - 1);
        let p = path[j - 1];
        let q = path[j];
        assert(adjacent(w, p, q));
        assert(is_set(m, q));
        assert(0 <= p < c.len()) by {
            assert(is_set(m, path[j - 1]));
        }
    } else if j < k {
        lemma_closed_path_one(m, w, c, path, k, j + 1);
        let p = path[j + 1];
        let q = path[j];
        assert(adjacent(w, q, p));
        lemma_adjacent_symmetric(w, q, p);
        assert(is_set(m, q));
        assert(0 <= p < c.len()) by {
            assert(is_set(m, path[j + 1]));
        }
    }
}

// ---------------------------------------------------------------------
// Lemmas on the range folds.
// ---------------------------------------------------------------------

proof fn lemma_count_bound(c: Set<int>, n: int)
    requires
        n >= 0,
    ensures
        0 <= count_in(c, n) <= n,
    decreases n,
{
    if n > 0 {
        lemma_count_bound(c, n - 1);
    }
}

proof fn lemma_count_insert(c: Set<int>, n: int, j: int)
    requires
        !c.contains(j),
        0 <= j,
        n >= 0,
    ensures
        count_in(c.insert(j), n) == count_in(c, n) + if j < n {
            1int
        } else {
            0int
        },
    decreases n,
{
    if n > 0 {
        lemma_count_insert(c, n - 1, j);
    }
}

proof fn lemma_sum_insert(w: int, axis: bool, c: Set<int>, n: int, j: int)
    requires
        !c.contains(j),
        0 <= j,
        n >= 0,
    ensures
        sum_in(w, axis, c.insert(j), n) == sum_in(w, axis, c, n) + if j < n {
            coord(w, axis, j)
        } else {
            0
        },
    decreases n,
{
    if n > 0 {
        lemma_sum_insert(w, axis, c, n - 1, j);
    }
}

proof fn lemma_min_insert(w: int, axis: bool, c: Set<int>, n: int, top: int, j: int)
    requires
        !c.contains(j),
        0 <= j,
        n >= 0,
    ensures
        min_in(w, axis, c.insert(j), n, top) == if j < n && coord(w, axis, j) < min_in(
            w,
            axis,
            c,
            n,
            top,
        ) {
            coord(w, axis, j)
        } else {
            min_in(w, axis, c, n, top)
        },
    decreases n,
{
    if n > 0 {
        lemma_min_insert(w, axis, c, n - 1, top, j);
        assert(c.insert(j).contains(n - 1) == (c.contains(n - 1) || n - 1 == j));
    }
}

proof fn lemma_max_insert(w: int, axis: bool, c: Set<int>, n: int, j: int)
    requires
        !c.contains(j),
        0 <= j,
        n >= 0,
    ensures
        max_in(w, axis, c.insert(j), n) == if j < n && coord(w, axis, j) > max_in(w, axis, c, n) {
            coord(w, axis, j)
        } else {
            max_in(w, axis, c, n)
        },
    decreases n,
{
    if n > 0 {
        lemma_max_insert(w, axis, c, n - 1, j);
        assert(c.insert(j).contains(n - 1) == (c.contains(n - 1) || n - 1 == j));
    }
}

proof fn lemma_folds_empty(w: int, n: int, top: int)
    requires
        n >= 0,
    ensures
        count_in(Set::empty(), n) == 0,
        sum_in(w, false, Set::empty(), n) == 0,
        sum_in(w, true, Set::empty(), n) == 0,
        min_in(w, false, Set::empty(), n, top) == top,
        min_in(w, true, Set::empty(), n, top) == top,
        max_in(w, false, Set::empty(), n) == 0,
        max_in(w, true, Set::empty(), n) == 0,
    decreases n,
{
    if n > 0 {
        lemma_folds_empty(w, n - 1, top);
    }
}

proof fn lemma_min_in_le(w: int, axis: bool, c: Set<int>, n: int, top: int, j: int)
    requires
        c.contains(j),
        0 <= j < n,
    ensures
        min_in(w, axis, c, n, top) <= coord(w, axis, j),
    decreases n,
{
    if j < n - 1 {
        lemma_min_in_le(w, axis, c, n - 1, top, j);
    }
}

proof fn lemma_max_in_ge(w: int, axis: bool, c: Set<int>, n: int, j: int)
    requires
        c.contains(j),
        0 <= j < n,
    ensures
        max_in(w, axis, c, n) >= coord(w, axis, j),
    decreases n,
{
    if j < n - 1 {
        lemma_max_in_ge(w, axis, c, n - 1, j);
    }
}

// ---------------------------------------------------------------------
// Flood fill.
// ---------------------------------------------------------------------

/// Index of the stack entry `(x, y)` in a grid `w` pixels wide.
pub open spec fn cell(w: int, e: (u32, u32)) -> int {
    e.1 as int * w + e.0 as int
}

/// The state of a flood fill from `s`: `vis0` was marked before it began,
/// `popped` holds the pixels taken off the stack so far, and every pixel
/// marked since is either popped or waiting on the stack.
spec fn frontier_ok(
    m: Seq<u8>,
    w: int,
    h: int,
    s: int,
    vis0: Seq<bool>,
    popped: Set<int>,
    vis: Seq<bool>,
    stack: Seq<(u32, u32)>,
) -> bool {
    &&& vis.len() == m.len()
    &&& vis0.len() == m.len()
    &&& forall|i: int| 0 <= i < m.len() && #[trigger] vis[i] ==> is_set(m, i)
    &&& forall|i: int| 0 <= i < m.len() && #[trigger] vis0[i] ==> vis[i]
    &&& forall|k: int|
        0 <= k < stack.len() ==> {
            let e = #[trigger] stack[k];
            let c = cell(w, e);
            &&& e.0 < w
            &&& e.1 < h
            &&& 0 <= c < m.len()
            &&& vis[c]
            &&& !vis0[c]
            &&& !popped.contains(c)
            &&& reaches(m, w, s, c)
        }
    &&& forall|k1: int, k2: int|
        0 <= k1 < k2 < stack.len() ==> cell(w, #[trigger] stack[k1]) != cell(w, #[trigger] stack[k2])
    &&& forall|i: int|
        #[trigger] popped.contains(i) ==> 0 <= i < m.len() && vis[i] && !vis0[i] && reaches(m, w, s, i)
    &&& forall|i: int|
        0 <= i < m.len() && #[trigger] vis[i] && !vis0[i] && !popped.contains(i) ==> exists|k: int|
            0 <= k < stack.len() && cell(w, #[trigger] stack[k]) == i
}

/// Marks and pushes the pixel `(nx, ny)`, a neighbor of the reachable pixel
/// `parent`, when it is set and not yet marked.
fn visit(
    mask: &[u8],
    w: u32,
    h: u32,
    visited: &mut Vec<bool>,
    stack: &mut Vec<(u32, u32)>,
    nx: u32,
    ny: u32,
    Ghost(s): Ghost<int>,
    Ghost(vis0): Ghost<Seq<bool>>,
    Ghost(popped): Ghost<Set<int>>,
    Ghost(parent): Ghost<int>,
)
    requires
        frontier_ok(mask@, w as int, h as int, s, vis0, popped, old(visited)@, old(stack)@),
        nx < w,
        ny < h,
        0 <= ny as int * w as int + (nx as int) < mask@.len(),
        reaches(mask@, w as int, s, parent),
        adjacent(w as int, parent, ny as int * w as int + nx as int),
    ensures
        frontier_ok(mask@, w as int, h as int, s, vis0, popped, final(visited)@, final(stack)@),
        ({
            let n = ny as int * w as int + nx as int;
            &&& final(visited)@[n] == (old(visited)@[n] || is_set(mask@, n))
            &&& forall|i: int|
                0 <= i < final(visited)@.len() && i != n ==> final(visited)@[i] == old(
                    visited,
                )@[i]
        }),
        final(visited)@.len() == old(visited)@.len(),
{
    let ghost n = ny as int * w as int + nx as int;
    let len = mask.len();
    assert((ny as usize) as int * (w as usize) as int == ny as int * w as int);
    let i = ny as usize * w as usize + nx as usize;
    if !visited[i] && mask[i] != 0 {
        let ghost v1 = visited@;
        let ghost st1 = stack@;
        visited.set(i, true);
        stack.push((nx, ny));
        proof {
            lemma_reaches_step(mask@, w as int, s, parent, n);
            let v2 = visited@;
            let st2 = stack@;
            assert(cell(w as int, st2[st2.len() - 1]) == n);
            assert forall|k: int| 0 <= k < st1.len() implies st2[k] == st1[k] by {}
            assert forall|j: int|
                0 <= j < mask@.len() && #[trigger] v2[j] && !vis0[j] && !popped.contains(
                    j,
                ) implies exists|k: int| 0 <= k < st2.len() && cell(w as int, #[trigger] st2[k]) == j by {
                if j == n {
                    assert(cell(w as int, st2[st2.len() - 1]) == j);
                } else {
                    assert(v1[j]);
                    let k = choose|k: int| 0 <= k < st1.len() && cell(w as int, #[trigger] st1[k]) == j;
                    assert(st2[k] == st1[k]);
                }
            }
            assert forall|k1: int, k2: int|
                0 <= k1 < k2 < st2.len() implies cell(w as int, #[trigger] st2[k1]) != cell(
                    w as int,
                    #[trigger] st2[k2],
                ) by {
                if k2 == st2.len() - 1 {
                    assert(st2[k1] == st1[k1]);
                    assert(v1[cell(w as int, st1[k1])]);
                } else {
                    assert(st2[k1] == st1[k1] && st2[k2] == st1[k2]);
                }
            }
            assert forall|k: int| 0 <= k < st2.len() implies {
                let e = #[trigger] st2[k];
                let c = cell(w as int, e);
                &&& e.0 < w
                &&& e.1 < h
                &&& 0 <= c < mask@.len()
                &&& v2[c]
                &&& !vis0[c]
                &&& !popped.contains(c)
                &&& reaches(mask@, w as int, s, c)
            } by {
                if k < st1.len() {
                    assert(st2[k] == st1[k]);
                } else {
                    assert(!vis0[n]);
                    if popped.contains(n) {
                        assert(v1[n]);
                    }
                }
            }
        }
    }
}

pub open spec fn imin(a: int, b: int) -> int {
    if a < b {
        a
    } else {
        b
    }
}

pub open spec fn imax(a: int, b: int) -> int {
    if a > b {
        a
    } else {
        b
    }
}

/// Floods the component of the unmarked set pixel `(x, y)`, marks it, and
/// returns its blob.
fn fill_component(mask: &[u8], w: u32, h: u32, visited: &mut Vec<bool>, x: u32, y: u32) -> (b: Blob)
    requires
        mask@.len() == w as int * h as int,
        w as int * h as int <= u32::MAX,
        x < w,
        y < h,
        old(visited)@.len() == mask@.len(),
        closed(mask@, w as int, old(visited)@),
        forall|i: int| 0 <= i < mask@.len() && #[trigger] old(visited)@[i] ==> is_set(mask@, i),
        !old(visited)@[y as int * w as int + x as int],
        is_set(mask@, y as int * w as int + x as int),
    ensures
        final(visited)@.len() == old(visited)@.len(),
        forall|i: int|
            0 <= i < mask@.len() ==> #[trigger] final(visited)@[i] == (old(visited)@[i] || reaches(
                mask@,
                w as int,
                y as int * w as int + x as int,
                i,
            )),
        b == component_blob(mask@, w as int, y as int * w as int + x as int),
{
    let ghost m = mask@;
    let ghost wi = w as int;
    let ghost hi = h as int;
    let ghost nn = mask@.len() as int;
    let ghost s = y as int * w as int + x as int;
    let ghost vis0 = visited@;
    let ghost top = u32::MAX as int;
    let len = mask.len();
    proof {
        lemma_coords(wi, x as int, y as int);
        lemma_reaches_self(m, wi, s);
    }
    let mut stack: Vec<(u32, u32)> = Vec::new();
    stack.push((x, y));
    visited.set(y as usize * w as usize + x as usize, true);
    let ghost mut popped: Set<int> = Set::empty();
    proof {
        lemma_folds_empty(wi, nn, top);
    }
    let mut area: u32 = 0;
    let mut min_x = x;
    let mut max_x = x;
    let mut min_y = y;
    let mut max_y = y;
    let mut sum_x: u64 = 0;
    let mut sum_y: u64 = 0;
    proof {
        let v = visited@;
        assert forall|j: int|
            0 <= j < m.len() && #[trigger] v[j] && !vis0[j] && !popped.contains(j) implies exists|k: int|
                0 <= k < stack@.len() && cell(wi, #[trigger] stack@[k]) == j by {
            assert(j == s);
            assert(cell(wi, stack@[0]) == j);
        }
        assert(frontier_ok(m, wi, hi, s, vis0, popped, visited@, stack@));
    }
    while stack.len() > 0
        invariant
            m == mask@,
            wi == w as int,
            hi == h as int,
            nn == m.len(),
            len == nn,
            nn == wi * hi,
            nn <= u32::MAX,
            top == u32::MAX as int,
            0 <= s < nn,
            x < w,
            y < h,
            coord(wi, false, s) == x,
            coord(wi, true, s) == y,
            vis0.len() == nn,
            closed(m, wi, vis0),
            !vis0[s],
            is_set(m, s),
            frontier_ok(m, wi, hi, s, vis0, popped, visited@, stack@),
            popped.contains(s) || (stack@.len() == 1 && cell(wi, stack@[0]) == s),
            forall|p: int, q: int|
                #![trigger popped.contains(p), adjacent(wi, p, q)]
                popped.contains(p) && is_set(m, q) && adjacent(wi, p, q) ==> visited@[q],
            area as int == count_in(popped, nn),
            sum_x as int == sum_in(wi, false, popped, nn),
            sum_y as int == sum_in(wi, true, popped, nn),
            min_x as int == imin(min_in(wi, false, popped, nn, top), x as int),
            min_y as int == imin(min_in(wi, true, popped, nn, top), y as int),
            max_x as int == imax(max_in(wi, false, popped, nn), x as int),
            max_y as int == imax(max_in(wi, true, popped, nn), y as int),
            sum_x as int <= area as int * wi,
            sum_y as int <= area as int * hi,
            0 <= count_in(popped, nn) <= nn,
        decreases nn - count_in(popped, nn),
    {
        let ghost st0 = stack@;
        let ghost v0 = visited@;
        let ghost pop0 = popped;
        let (px, py) = stack.pop().unwrap();
        let ghost p = py as int * wi + px as int;
        proof {
            assert(st0[st0.len() - 1] == (px, py));
            assert(cell(wi, st0[st0.len() - 1]) == p);
            lemma_coords(wi, px as int, py as int);
            lemma_count_insert(pop0, nn, p);
            lemma_sum_insert(wi, false, pop0, nn, p);
            lemma_sum_insert(wi, true, pop0, nn, p);
            lemma_min_insert(wi, false, pop0, nn, top, p);
            lemma_min_insert(wi, true, pop0, nn, top, p);
            lemma_max_insert(wi, false, pop0, nn, p);
            lemma_max_insert(wi, true, pop0, nn, p);
            popped = pop0.insert(p);
            lemma_count_bound(popped, nn);
            let st1 = stack@;
            assert forall|k: int| 0 <= k < st1.len() implies st1[k] == st0[k] by {}
            assert forall|k: int| 0 <= k < st1.len() implies cell(wi, #[trigger] st1[k]) != p by {
                assert(st1[k] == st0[k]);
            }
            assert forall|j: int|
                0 <= j < m.len() && #[trigger] v0[j] && !vis0[j] && !popped.contains(
                    j,
                ) implies exists|k: int| 0 <= k < st1.len() && cell(wi, #[trigger] st1[k]) == j by {
                let k = choose|k: int| 0 <= k < st0.len() && cell(wi, #[trigger] st0[k]) == j;
                assert(k != st0.len() - 1);
                assert(st1[k] == st0[k]);
            }
            assert(frontier_ok(m, wi, hi, s, vis0, popped, visited@, stack@));
            assert(area as int * wi + (px as int) <= (area as int + 1) * wi) by (nonlinear_arith)
                requires
                    (px as int) < wi,
            ;
            assert(area as int * hi + (py as int) <= (area as int + 1) * hi) by (nonlinear_arith)
                requires
                    (py as int) < hi,
            ;
            assert((area as int + 1) * wi <= nn * wi) by (nonlinear_arith)
                requires
                    area as int + 1 <= nn,
                    wi >= 0,
            ;
            assert((area as int + 1) * hi <= nn * hi) by (nonlinear_arith)
                requires
                    area as int + 1 <= nn,
                    hi >= 0,
            ;
            assert(nn * wi <= u32::MAX as int * u32::MAX as int) by (nonlinear_arith)
                requires
                    nn <= u32::MAX,
                    0 <= wi <= u32::MAX,
            ;
            assert(nn * hi <= u32::MAX as int * u32::MAX as int) by (nonlinear_arith)
                requires
                    nn <= u32::MAX,
                    0 <= hi <= u32::MAX,
            ;
        }
        area += 1;
        if px < min_x {
            min_x = px;
        }
        if px > max_x {
            max_x = px;
        }
        if py < min_y {
            min_y = py;
        }
        if py > max_y {
            max_y = py;
        }
        sum_x += px as u64;
        sum_y += py as u64;

        proof {
            lemma_index_bound(wi, hi, px as int, py as int);
        }
        if px > 0 {
            proof {
                lemma_coords(wi, px as int - 1, py as int);
                lemma_index_bound(wi, hi, px as int - 1, py as int);
            }
            visit(mask, w, h, visited, &mut stack, px - 1, py, Ghost(s), Ghost(vis0), Ghost(popped), Ghost(p));
        }
        let ghost va = visited@;
        if px + 1 < w {
            proof {
                lemma_coords(wi, px as int + 1, py as int);
                lemma_index_bound(wi, hi, px as int + 1, py as int);
            }
            visit(mask, w, h, visited, &mut stack, px + 1, py, Ghost(s), Ghost(vis0), Ghost(popped), Ghost(p));
        }
        let ghost vb = visited@;
        if py > 0 {
            proof {
                lemma_coords(wi, px as int, py as int - 1);
                lemma_index_bound(wi, hi, px as int, py as int - 1);
            }
            visit(mask, w, h, visited, &mut stack, px, py - 1, Ghost(s), Ghost(vis0), Ghost(popped), Ghost(p));
        }
        let ghost vc = visited@;
        if py + 1 < h {
            proof {
                lemma_coords(wi, px as int, py as int + 1);
                lemma_index_bound(wi, hi, px as int, py as int + 1);
            }
            visit(mask, w, h, visited, &mut stack, px, py + 1, Ghost(s), Ghost(vis0), Ghost(popped), Ghost(p));
        }
        proof {
            let vd = visited@;
            assert forall|i: int| 0 <= i < nn && v0[i] implies vd[i] by {
                assert(va[i]);
                assert(vb[i]);
                assert(vc[i]);
            }
            assert forall|pp: int, q: int|
                #![trigger popped.contains(pp), adjacent(wi, pp, q)]
                popped.contains(pp) && is_set(m, q) && adjacent(wi, pp, q) implies vd[q] by {
                if pp == p {
                    lemma_adjacent_cases(wi, hi, px as int, py as int, q);
                    if px > 0 && q == py as int * wi + (px as int - 1) {
                        assert(va[q]);
                        assert(vb[q]);
                        assert(vc[q]);
                    } else if px as int + 1 < wi && q == py as int * wi + (px as int + 1) {
                        assert(vb[q]);
                        assert(vc[q]);
                    } else if py > 0 && q == (py as int - 1) * wi + px as int {
                        assert(vc[q]);
                    }
                } else {
                    assert(pop0.contains(pp));
                    assert(v0[q]);
                }
            }
        }
    }
    proof {
        let v = visited@;
        let comp = component(m, wi, s);
        assert(closed(m, wi, v)) by {
            assert forall|pp: int, q: int|
                #![trigger v[pp], adjacent(wi, pp, q)]
                0 <= pp < v.len() && v[pp] && is_set(m, q) && adjacent(wi, pp, q) implies q < v.len() && v[q] by {
                if vis0[pp] {
                    assert(vis0[q]);
                } else if !popped.contains(pp) {
                    let k = choose|k: int| 0 <= k < stack@.len() && cell(wi, #[trigger] stack@[k]) == pp;
                }
            }
        }
        assert forall|i: int| 0 <= i < nn implies #[trigger] v[i] == (vis0[i] || reaches(m, wi, s, i)) by {
            if v[i] && !vis0[i] {
                if !popped.contains(i) {
                    let k = choose|k: int| 0 <= k < stack@.len() && cell(wi, #[trigger] stack@[k]) == i;
                }
            }
            if reaches(m, wi, s, i) {
                let path = choose|path: Seq<int>| connects(m, wi, path, s, i);
                lemma_closed_path(m, wi, v, path, 0);
                assert(v[path[path.len() - 1]]);
            }
        }
        assert(popped =~= comp) by {
            assert forall|i: int| popped.contains(i) implies comp.contains(i) by {}
            assert forall|i: int| comp.contains(i) implies popped.contains(i) by {
                lemma_reaches_set(m, wi, s, i);
                let path = choose|path: Seq<int>| connects(m, wi, path, s, i);
                lemma_closed_path(m, wi, v, path, 0);
                assert(v[path[path.len() - 1]]);
                if vis0[i] {
                    lemma_closed_path(m, wi, vis0, path, path.len() - 1);
                    assert(vis0[path[0]]);
                }
                if !popped.contains(i) {
                    let k = choose|k: int| 0 <= k < stack@.len() && cell(wi, #[trigger] stack@[k]) == i;
                }
            }
        }
        lemma_min_in_le(wi, false, popped, nn, top, s);
        lemma_min_in_le(wi, true, popped, nn, top, s);
        lemma_max_in_ge(wi, false, popped, nn, s);
        lemma_max_in_ge(wi, true, popped, nn, s);
    }
    Blob { area, min_x, min_y, max_x, max_y, sum_x, sum_y }
}

// ---------------------------------------------------------------------
// Ordering blobs.
// ---------------------------------------------------------------------

/// Areas never increase along `s`.
pub open spec fn area_sorted_desc(s: Seq<Blob>) -> bool {
    forall|i: int, j: int| 0 <= i < j < s.len() ==> (#[trigger] s[i]).area >= (#[trigger] s[j]).area
}

/// The blobs of `s` whose area is `a`, in their order in `s`.
pub open spec fn with_area(s: Seq<Blob>, a: u32) -> Seq<Blob> {
    s.filter(area_is(a))
}

/// Holds of the blobs whose area is `a`.
pub open spec fn area_is(a: u32) -> spec_fn(Blob) -> bool {
    |b: Blob| b.area == a
}

/// `out` is `inp` sorted by decreasing area, blobs of equal area keeping
/// their order in `inp`.
pub open spec fn stable_area_sort_of(out: Seq<Blob>, inp: Seq<Blob>) -> bool {
    &&& area_sorted_desc(out)
    &&& forall|a: u32| #[trigger] with_area(out, a) == with_area(inp, a)
}

proof fn lemma_with_area_none(s: Seq<Blob>, a: u32)
    requires
        forall|i: int| 0 <= i < s.len() ==> (#[trigger] s[i]).area != a,
    ensures
        with_area(s, a) == Seq::<Blob>::empty(),
{
    let pred = area_is(a);
    assert(s.all(|x: Blob| !pred(x)));
    s.lemma_all_neg_filter_empty(pred);
}

/// Sorts blobs by decreasing area; blobs of equal area keep their order.
pub fn sort_by_area_desc(v: Vec<Blob>) -> (out: Vec<Blob>)
    ensures
        stable_area_sort_of(out@, v@),
{
    broadcast use Seq::filter_distributes_over_add, Seq::lemma_filter_push;

    let mut out: Vec<Blob> = Vec::new();
    let mut i: usize = 0;
    proof {
        assert forall|a: u32| #[trigger] with_area(out@, a) == with_area(v@.subrange(0, 0), a) by {
            assert(out@ =~= v@.subrange(0, 0));
        }
    }
    while i < v.len()
        invariant
            i <= v.len(),
            stable_area_sort_of(out@, v@.subrange(0, i as int)),
        decreases v.len() - i,
    {
        let b = v[i];
        let mut pos: usize = 0;
        while pos < out.len() && out[pos].area >= b.area
            invariant
                pos <= out.len(),
                forall|k: int| 0 <= k < pos ==> (#[trigger] out@[k]).area >= b.area,
            decreases out.len() - pos,
        {
            pos = pos + 1;
        }
        let ghost o = out@;
        out.insert(pos, b);
        proof {
            let o2 = out@;
            let pre = o.subrange(0, pos as int);
            let post = o.subrange(pos as int, o.len() as int);
            assert(o == pre + post);
            assert(o2 == pre + seq![b] + post);
            assert forall|k: int| 0 <= k < post.len() implies (#[trigger] post[k]).area < b.area by {
                assert(post[k] == o[pos + k]);
                if pos < o.len() {
                    assert(o[pos as int].area < b.area);
                    if k > 0 {
                        assert(o[pos as int].area >= o[pos + k].area);
                    }
                }
            }
            assert(area_sorted_desc(o2)) by {
                assert forall|i1: int, j1: int| 0 <= i1 < j1 < o2.len() implies (#[trigger] o2[i1]).area >= (
                #[trigger] o2[j1]).area by {
                    if j1 < pos {
                        assert(o2[i1] == o[i1] && o2[j1] == o[j1]);
                    } else if j1 == pos {
                        assert(o2[i1] == o[i1]);
                    } else if i1 < pos {
                        assert(o2[i1] == o[i1] && o2[j1] == o[j1 - 1]);
                    } else if i1 == pos {
                        assert(o2[j1] == post[j1 - pos - 1]);
                    } else {
                        assert(o2[i1] == o[i1 - 1] && o2[j1] == o[j1 - 1]);
                    }
                }
            }
            let ip = v@.subrange(0, i as int);
            assert(v@.subrange(0, i + 1) == ip.push(b));
            assert forall|a: u32| #[trigger] with_area(o2, a) == with_area(v@.subrange(0, i + 1), a) by {
                assert(with_area(o, a) == with_area(ip, a));
                assert(with_area(o, a) == with_area(pre, a) + with_area(post, a));
                assert(with_area(o2, a) == with_area(pre, a) + with_area(seq![b], a) + with_area(post, a));
                assert(seq![b] == Seq::<Blob>::empty().push(b));
                assert(with_area(Seq::<Blob>::empty(), a) =~= Seq::<Blob>::empty()) by {
                    reveal(Seq::filter);
                }
                Seq::<Blob>::empty().lemma_filter_push(b, area_is(a));
                ip.lemma_filter_push(b, area_is(a));
                if b.area == a {
                    lemma_with_area_none(post, a);
                    assert(with_area(post, a) =~= Seq::<Blob>::empty());
                    assert(with_area(o, a) =~= with_area(pre, a));
                    assert(with_area(seq![b], a) =~= seq![b]);
                    assert(with_area(o2, a) =~= with_area(pre, a) + seq![b]);
                } else {
                    assert(with_area(seq![b], a) =~= Seq::<Blob>::empty());
                }
            }
        }
        i = i + 1;
    }
    proof {
        assert(v@.subrange(0, v@.len() as int) == v@);
    }
    out
}

// ---------------------------------------------------------------------
// Labeling.
// ---------------------------------------------------------------------

/// Labels the 4-connected components of set pixels in a row-major
/// `width` x `height` mask and returns the blobs of those whose area is at
/// least `min_area`, largest first; blobs of equal area come in the
/// row-major order of their first pixels. The mask holds at most
/// `u32::MAX` pixels, so that areas and coordinate sums fit their fields.
pub fn label(mask: &[u8], width: u32, height: u32, min_area: u32) -> (blobs: Vec<Blob>)
    requires
        mask@.len() == width as int * height as int,
        width as int * height as int <= u32::MAX,
    ensures
        stable_area_sort_of(
            blobs@,
            scan_blobs(mask@, width as int, min_area as int, mask@.len() as int),
        ),
{
    let ghost m = mask@;
    let ghost wi = width as int;
    let ghost hi = height as int;
    let n = mask.len();
    let mut visited: Vec<bool> = Vec::new();
    while visited.len() < n
        invariant
            visited@.len() <= n,
            forall|i: int| 0 <= i < visited@.len() ==> !(#[trigger] visited@[i]),
        decreases n - visited@.len(),
    {
        visited.push(false);
    }
    let mut found: Vec<Blob> = Vec::new();
    if width == 0 {
        assert(wi * hi == 0) by (nonlinear_arith)
            requires
                wi == 0,
        ;
        assert(n == 0);
        assert(scan_blobs(m, wi, min_area as int, 0) == Seq::<Blob>::empty());
        assert(found@ =~= scan_blobs(m, wi, min_area as int, n as int));
        return sort_by_area_desc(found);
    }
    let mut idx: usize = 0;
    let mut x: u32 = 0;
    let mut y: u32 = 0;
    proof {
        if n > 0 {
            assert(hi > 0) by (nonlinear_arith)
                requires
                    n == wi * hi,
                    n > 0,
                    wi > 0,
                    hi >= 0,
            ;
        }
    }
    while idx < n
        invariant
            m == mask@,
            wi == width as int,
            hi == height as int,
            wi > 0,
            n == m.len(),
            n == wi * hi,
            n <= u32::MAX,
            idx <= n,
            idx as int == y as int * wi + x as int,
            x < width,
            idx < n ==> y < height,
            visited@.len() == n,
            forall|i: int| 0 <= i < n && #[trigger] visited@[i] ==> is_set(m, i),
            closed(m, wi, visited@),
            forall|i: int| 0 <= i < idx && is_set(m, i) ==> #[trigger] visited@[i],
            forall|i: int|
                0 <= i < n && #[trigger] visited@[i] ==> exists|t: int|
                    0 <= t < idx && #[trigger] reaches(m, wi, t, i),
            found@ == scan_blobs(m, wi, min_area as int, idx as int),
        decreases n - idx,
    {
        let ghost s = idx as int;
        let ghost v0 = visited@;
        proof {
            lemma_coords(wi, x as int, y as int);
        }
        if !visited[idx] && mask[idx] != 0 {
            let b = fill_component(mask, width, height, &mut visited, x, y);
            proof {
                let v1 = visited@;
                let comp = component(m, wi, s);
                assert(is_root(m, wi, s)) by {
                    assert forall|q: int| #[trigger] reaches(m, wi, s, q) implies s <= q by {
                        if q < s {
                            lemma_reaches_set(m, wi, s, q);
                            assert(v0[q]);
                            let path = choose|path: Seq<int>| connects(m, wi, path, s, q);
                            lemma_closed_path(m, wi, v0, path, path.len() - 1);
                            assert(v0[path[0]]);
                        }
                    }
                }
                lemma_count_bound(comp, n as int);
                assert(closed(m, wi, v1)) by {
                    assert forall|p: int, q: int|
                        #![trigger v1[p], adjacent(wi, p, q)]
                        0 <= p < v1.len() && v1[p] && is_set(m, q) && adjacent(wi, p, q) implies q
                        < v1.len() && v1[q] by {
                        if v0[p] {
                            assert(v0[q]);
                        } else {
                            lemma_reaches_step(m, wi, s, p, q);
                        }
                    }
                }
                assert forall|i: int| 0 <= i < n && #[trigger] v1[i] implies is_set(m, i) by {
                    if !v0[i] {
                        lemma_reaches_set(m, wi, s, i);
                    }
                }
                assert forall|i: int| 0 <= i < idx + 1 && is_set(m, i) implies #[trigger] v1[i] by {
                    if i == s {
                        lemma_reaches_self(m, wi, s);
                    } else {
                        assert(v0[i]);
                    }
                }
                assert forall|i: int| 0 <= i < n && #[trigger] v1[i] implies exists|t: int|
                    0 <= t < idx + 1 && #[trigger] reaches(m, wi, t, i) by {
                    if v0[i] {
                        let t = choose|t: int| 0 <= t < idx && #[trigger] reaches(m, wi, t, i);
                        assert(reaches(m, wi, t, i));
                    } else {
                        assert(reaches(m, wi, s, i));
                    }
                }
            }
            if b.area >= min_area {
                found.push(b);
            }
        } else {
            proof {
                if is_root(m, wi, s) {
                    assert(v0[s]);
                    let t = choose|t: int| 0 <= t < idx && #[trigger] reaches(m, wi, t, s);
                    lemma_reaches_reverse(m, wi, t, s);
                    assert(reaches(m, wi, s, t));
                }
            }
        }
        idx = idx + 1;
        x = x + 1;
        if x == width {
            proof {
                assert((y as int + 1) * wi == y as int * wi + wi) by (nonlinear_arith);
            }
            x = 0;
            y = y + 1;
            proof {
                if idx < n {
                    assert((y as int) < hi) by (nonlinear_arith)
                        requires
                            idx as int == y as int * wi,
                            (idx as int) < wi * hi,
                            wi > 0,
                    ;
                }
            }
        }
    }
    sort_by_area_desc(found)
}

} // verus!
