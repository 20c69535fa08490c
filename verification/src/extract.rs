//! Extraction of full-resolution crops: its settings, its records, and the
//! bounding box of a group of hair blobs.

use vstd::prelude::*;
use crate::connected::Blob;

verus! {

/// One crop written out.
#[derive(Debug)]
pub struct ExtractedCrop {
    pub source_path: String,
    pub character: String,
    pub crop_index: usize,
    /// x, y, w, h in source coordinates.
    pub bbox: (u32, u32, u32, u32),
    pub area: u32,
}

/// How many top-ranked pages to extract from, and whether to keep a copy
/// of each full page.
pub struct ExtractConfig {
    pub top_n: usize,
    pub also_save_full_page: bool,
}

impl Default for ExtractConfig {
    /// Thirty pages, full pages kept.
    fn default() -> (r: ExtractConfig)
        ensures
            r.top_n == 30,
            r.also_save_full_page,
    {
        ExtractConfig { top_n: 30, also_save_full_page: true }
    }
}

/// Least `min_x` (`axis == false`) or `min_y` (`axis == true`) over `g`,
/// `u32::MAX` when `g` is empty.
pub open spec fn group_min(g: Seq<Blob>, axis: bool) -> u32
    decreases g.len(),
{
    if g.len() == 0 {
        u32::MAX
    } else {
        let r = group_min(g.drop_last(), axis);
        let v = if axis {
            g.last().min_y
        } else {
            g.last().min_x
        };
        if v < r {
            v
        } else {
            r
        }
    }
}

/// Greatest `max_x` (`axis == false`) or `max_y` (`axis == true`) over
/// `g`, 0 when `g` is empty.
pub open spec fn group_max(g: Seq<Blob>, axis: bool) -> u32
    decreases g.len(),
{
    if g.len() == 0 {
        0
    } else {
        let r = group_max(g.drop_last(), axis);
        let v = if axis {
            g.last().max_y
        } else {
            g.last().max_x
        };
        if v > r {
            v
        } else {
            r
        }
    }
}

/// Every blob of a non-empty group lies within the group's least and
/// greatest coordinates, and each of the four extremes is reached by some
/// blob of the group.
pub proof fn law_group_extremes(g: Seq<Blob>)
    requires
        g.len() > 0,
    ensures
        forall|i: int|
            0 <= i < g.len() ==> group_min(g, false) <= (#[trigger] g[i]).min_x && g[i].max_x <= group_max(g, false)
                && group_min(g, true) <= g[i].min_y && g[i].max_y <= group_max(g, true),
        exists|i: int| 0 <= i < g.len() && (#[trigger] g[i]).min_x == group_min(g, false),
        exists|i: int| 0 <= i < g.len() && (#[trigger] g[i]).min_y == group_min(g, true),
        exists|i: int| 0 <= i < g.len() && (#[trigger] g[i]).max_x == group_max(g, false),
        exists|i: int| 0 <= i < g.len() && (#[trigger] g[i]).max_y == group_max(g, true),
    decreases g.len(),
{
    let p = g.drop_last();
    let l = g.len() - 1;
    if g.len() == 1 {
        assert(p.len() == 0);
        assert(g[0] == g.last());
    } else {
        law_group_extremes(p);
        assert forall|i: int| 0 <= i < p.len() implies #[trigger] g[i] == p[i] by {}
        assert(g[l] == g.last());
        if g.last().min_x >= group_min(p, false) {
            let i = choose|i: int| 0 <= i < p.len() && (#[trigger] p[i]).min_x == group_min(p, false);
            assert(g[i] == p[i]);
        }
        if g.last().min_y >= group_min(p, true) {
            let i = choose|i: int| 0 <= i < p.len() && (#[trigger] p[i]).min_y == group_min(p, true);
            assert(g[i] == p[i]);
        }
        if g.last().max_x <= group_max(p, false) {
            let i = choose|i: int| 0 <= i < p.len() && (#[trigger] p[i]).max_x == group_max(p, false);
            assert(g[i] == p[i]);
        }
        if g.last().max_y <= group_max(p, true) {
            let i = choose|i: int| 0 <= i < p.len() && (#[trigger] p[i]).max_y == group_max(p, true);
            assert(g[i] == p[i]);
        }
    }
}

/// The bounding box `(x, y, w, h)` of a group of blobs.
pub fn group_bbox(group: &[Blob]) -> (r: (u32, u32, u32, u32))
    requires
        group_min(group@, false) <= group_max(group@, false),
        group_min(group@, true) <= group_max(group@, true),
        group_max(group@, false) - group_min(group@, false) < u32::MAX,
        group_max(group@, true) - group_min(group@, true) < u32::MAX,
    ensures
        r.0 == group_min(group@, false),
        r.1 == group_min(group@, true),
        r.2 == group_max(group@, false) - group_min(group@, false) + 1,
        r.3 == group_max(group@, true) - group_min(group@, true) + 1,
        forall|i: int|
            0 <= i < group@.len() ==> r.0 <= (#[trigger] group@[i]).min_x && group@[i].max_x < r.0 + r.2 && r.1
                <= group@[i].min_y && group@[i].max_y < r.1 + r.3,
        exists|i: int| 0 <= i < group@.len() && (#[trigger] group@[i]).min_x == r.0,
        exists|i: int| 0 <= i < group@.len() && (#[trigger] group@[i]).min_y == r.1,
        exists|i: int| 0 <= i < group@.len() && (#[trigger] group@[i]).max_x == r.0 + r.2 - 1,
        exists|i: int| 0 <= i < group@.len() && (#[trigger] group@[i]).max_y == r.1 + r.3 - 1,
{
    let mut min_x = u32::MAX;
    let mut min_y = u32::MAX;
    let mut max_x = 0u32;
    let mut max_y = 0u32;
    let mut i: usize = 0;
    while i < group.len()
        invariant
            i <= group@.len(),
            min_x == group_min(group@.subrange(0, i as int), false),
            min_y == group_min(group@.subrange(0, i as int), true),
            max_x == group_max(group@.subrange(0, i as int), false),
            max_y == group_max(group@.subrange(0, i as int), true),
        decreases group@.len() - i,
    {
        let b = group[i];
        proof {
            assert(group@.subrange(0, i + 1).drop_last() == group@.subrange(0, i as int));
            assert(group@.subrange(0, i + 1).last() == b);
        }
        if b.min_x < min_x {
            min_x = b.min_x;
        }
        if b.min_y < min_y {
            min_y = b.min_y;
        }
        if b.max_x > max_x {
            max_x = b.max_x;
        }
        if b.max_y > max_y {
            max_y = b.max_y;
        }
        i = i + 1;
    }
    proof {
        assert(group@.subrange(0, group@.len() as int) == group@);
        law_group_extremes(group@);
    }
    (min_x, min_y, max_x - min_x + 1, max_y - min_y + 1)
}

/// A crop of `w` by `h` pixels is skipped when it covers less than a
/// two-hundredth of a page of `total_pixels` pixels (integer division).
pub fn crop_too_small(w: u32, h: u32, total_pixels: u64) -> (r: bool)
    ensures
        r == ((w as int) * (h as int) < (total_pixels / 200) as int),
{
    proof {
        assert((w as int) * (h as int) <= u32::MAX as int * u32::MAX as int) by (nonlinear_arith);
    }
    (w as u64) * (h as u64) < total_pixels / 200
}

// ---------------------------------------------------------------------
// Merging blobs whose expanded boxes overlap.
// ---------------------------------------------------------------------

/// `a` and `b` are linked by an overlap recorded in `o` (only the entries
/// above the diagonal are read).
pub open spec fn overlaps(o: Seq<Vec<bool>>, a: int, b: int) -> bool {
    ||| a < b && o[a]@[b]
    ||| b < a && o[b]@[a]
}

/// A chain of pairwise overlapping blob indices below `n`.
pub open spec fn is_chain(o: Seq<Vec<bool>>, c: Seq<int>) -> bool {
    &&& c.len() > 0
    &&& forall|k: int| 0 <= k < c.len() ==> 0 <= #[trigger] c[k] < o.len()
    &&& forall|k: int, l: int| #![trigger c[k], c[l]] 0 <= k && l == k + 1 && l < c.len() ==> overlaps(o, c[k], c[l])
}

/// `a` and `b` fall in one group: a chain of overlaps joins them.
pub open spec fn linked(o: Seq<Vec<bool>>, a: int, b: int) -> bool {
    exists|c: Seq<int>| #[trigger] is_chain(o, c) && c[0] == a && c.last() == b
}

/// Index `x` appears in one of the groups.
pub open spec fn grouped(groups: Seq<Vec<usize>>, x: int) -> bool {
    exists|g: int, k: int| 0 <= g < groups.len() && 0 <= k < groups[g]@.len() && #[trigger] groups[g]@[k] == x
}

/// A union-find forest: `rep[x]` is the root reached from `x`, and `dist`
/// strictly decreases along parent links, reaching 0 at the roots.
spec fn uf_ok(parent: Seq<usize>, rep: Seq<int>, dist: Seq<nat>, n: int) -> bool {
    &&& parent.len() == n
    &&& rep.len() == n
    &&& dist.len() == n
    &&& forall|x: int| 0 <= x < n ==> (#[trigger] parent[x]) < n
    &&& forall|x: int| 0 <= x < n ==> 0 <= #[trigger] rep[x] < n
    &&& forall|x: int| 0 <= x < n ==> rep[#[trigger] rep[x]] == rep[x] && parent[rep[x]] == rep[x]
    &&& forall|x: int| 0 <= x < n && #[trigger] parent[x] == x ==> rep[x] == x && dist[x] == 0
    &&& forall|x: int|
        0 <= x < n && #[trigger] parent[x] != x ==> rep[parent[x] as int] == rep[x] && dist[parent[x] as int]
            < dist[x]
}

/// The root of `x`, halving the path on the way.
fn find(parent: &mut Vec<usize>, x: usize, Ghost(rep): Ghost<Seq<int>>, Ghost(dist): Ghost<Seq<nat>>) -> (r: usize)
    requires
        uf_ok(old(parent)@, rep, dist, old(parent)@.len() as int),
        x < old(parent)@.len(),
    ensures
        uf_ok(final(parent)@, rep, dist, old(parent)@.len() as int),
        r as int == rep[x as int],
{
    let ghost n = parent@.len() as int;
    let ghost x0 = x as int;
    let mut x = x;
    while parent[x] != x
        invariant
            uf_ok(parent@, rep, dist, n),
            0 <= x < n,
            rep[x as int] == rep[x0],
        decreases dist[x as int],
    {
        let p = parent[x];
        let gp = parent[p];
        parent.set(x, gp);
        proof {
            let pa = parent@;
            assert forall|y: int| 0 <= y < n && #[trigger] pa[y] != y implies rep[pa[y] as int] == rep[y] && dist[pa[y] as int] < dist[y] by {
                if y == x {
                    if parent@[p as int] == p {
                    }
                }
            }
            assert forall|y: int| 0 <= y < n implies rep[#[trigger] rep[y]] == rep[y] && pa[rep[y]] == rep[y] by {
                if rep[y] == x as int {
                    assert(parent@[rep[y]] == rep[y]) by {
                        assert(pa[rep[y]] == gp);
                    }
                }
            }
        }
        x = gp;
    }
    x
}

/// Joins the sets of `a` and `b`: the root of `a` is hung under the root of
/// `b`.
fn union(
    parent: &mut Vec<usize>,
    a: usize,
    b: usize,
    Ghost(rep): Ghost<Seq<int>>,
    Ghost(dist): Ghost<Seq<nat>>,
) -> (r: (Ghost<Seq<int>>, Ghost<Seq<nat>>))
    requires
        uf_ok(old(parent)@, rep, dist, old(parent)@.len() as int),
        a < old(parent)@.len(),
        b < old(parent)@.len(),
    ensures
        uf_ok(final(parent)@, r.0@, r.1@, old(parent)@.len() as int),
        forall|y: int|
            0 <= y < old(parent)@.len() ==> #[trigger] r.0@[y] == if rep[y] == rep[a as int] {
                rep[b as int]
            } else {
                rep[y]
            },
{
    let ghost n = parent@.len() as int;
    let ra = find(parent, a, Ghost(rep), Ghost(dist));
    let rb = find(parent, b, Ghost(rep), Ghost(dist));
    if ra != rb {
        let ghost p0 = parent@;
        parent.set(ra, rb);
        let ghost rep2 = Seq::new(n as nat, |y: int| if rep[y] == ra as int { rb as int } else { rep[y] });
        let ghost dist2 = Seq::new(n as nat, |y: int| if rep[y] == ra as int { dist[y] + 1 } else { dist[y] });
        proof {
            let pa = parent@;
            assert(p0[ra as int] == ra);
            assert(p0[rb as int] == rb);
            assert forall|x: int| 0 <= x < n implies rep2[#[trigger] rep2[x]] == rep2[x] && pa[rep2[x]] == rep2[x] by {
                assert(rep[rep[x]] == rep[x]);
            }
            assert forall|x: int| 0 <= x < n && #[trigger] pa[x] == x implies rep2[x] == x && dist2[x] == 0 by {
                assert(x != ra);
                assert(p0[x] == x);
            }
            assert forall|x: int|
                0 <= x < n && #[trigger] pa[x] != x implies rep2[pa[x] as int] == rep2[x] && dist2[pa[x] as int] < dist2[x] by {
                if x == ra {
                    assert(rep[ra as int] == ra);
                    assert(rep[rb as int] == rb);
                    assert(dist[rb as int] == 0);
                } else {
                    assert(p0[x] != x);
                    assert(pa[x] == p0[x]);
                }
            }
            assert forall|x: int| 0 <= x < n implies 0 <= #[trigger] rep2[x] < n by {}
            assert forall|x: int| 0 <= x < n implies (#[trigger] pa[x]) < n by {
                if x != ra {
                    assert(pa[x] == p0[x]);
                }
            }
        }
        (Ghost(rep2), Ghost(dist2))
    } else {
        proof {
            assert forall|y: int| 0 <= y < n implies #[trigger] rep[y] == if rep[y] == rep[a as int] {
                rep[b as int]
            } else {
                rep[y]
            } by {}
        }
        (Ghost(rep), Ghost(dist))
    }
}

proof fn lemma_chain_single(o: Seq<Vec<bool>>, a: int)
    requires
        0 <= a < o.len(),
    ensures
        linked(o, a, a),
{
    let c = seq![a];
    assert(is_chain(o, c));
}

proof fn lemma_chain_join(o: Seq<Vec<bool>>, a: int, b: int, c: int, d: int)
    requires
        linked(o, a, b),
        overlaps(o, b, c),
        linked(o, c, d),
    ensures
        linked(o, a, d),
{
    let c1 = choose|ch: Seq<int>| #[trigger] is_chain(o, ch) && ch[0] == a && ch.last() == b;
    let c2 = choose|ch: Seq<int>| #[trigger] is_chain(o, ch) && ch[0] == c && ch.last() == d;
    let cc = c1 + c2;
    assert forall|k: int| 0 <= k < cc.len() implies 0 <= #[trigger] cc[k] < o.len() by {
        if k < c1.len() {
            assert(cc[k] == c1[k]);
        } else {
            assert(cc[k] == c2[k - c1.len()]);
        }
    }
    assert forall|k: int, l: int| #![trigger cc[k], cc[l]] 0 <= k && l == k + 1 && l < cc.len() implies overlaps(o, cc[k], cc[l]) by {
        if l < c1.len() {
            assert(cc[k] == c1[k] && cc[l] == c1[l]);
        } else if k == c1.len() - 1 {
            assert(cc[k] == c1[k] && cc[l] == c2[0]);
        } else {
            assert(cc[k] == c2[k - c1.len()] && cc[l] == c2[l - c1.len()]);
        }
    }
    assert(is_chain(o, cc));
    assert(cc[0] == a);
    assert(cc.last() == c2.last());
}

proof fn lemma_chain_reverse(o: Seq<Vec<bool>>, a: int, b: int)
    requires
        linked(o, a, b),
    ensures
        linked(o, b, a),
{
    let c = choose|ch: Seq<int>| #[trigger] is_chain(o, ch) && ch[0] == a && ch.last() == b;
    let r = c.reverse();
    let n = c.len();
    assert forall|k: int| 0 <= k < r.len() implies 0 <= #[trigger] r[k] < o.len() by {
        assert(r[k] == c[n - 1 - k]);
    }
    assert forall|k: int, l: int| #![trigger r[k], r[l]] 0 <= k && l == k + 1 && l < r.len() implies overlaps(o, r[k], r[l]) by {
        assert(r[k] == c[n - 1 - k] && r[l] == c[n - 1 - l]);
        assert(overlaps(o, c[n - 1 - l], c[n - 1 - k]));
    }
    assert(is_chain(o, r));
    assert(r[0] == b && r.last() == a);
}

/// Along a chain whose every overlap joins equal representatives, the
/// representative is constant.
proof fn lemma_chain_same_rep(o: Seq<Vec<bool>>, rep: Seq<int>, c: Seq<int>, k: int)
    requires
        is_chain(o, c),
        0 <= k < c.len(),
        rep.len() == o.len(),
        forall|u: int, v: int| 0 <= u < v < o.len() && o[u]@[v] ==> #[trigger] rep[u] == #[trigger] rep[v],
    ensures
        rep[c[k]] == rep[c[0]],
    decreases k,
{
    if k > 0 {
        lemma_chain_same_rep(o, rep, c, k - 1);
        assert(overlaps(o, c[k - 1], c[k]));
        assert(0 <= c[k - 1] < o.len());
        assert(0 <= c[k] < o.len());
    }
}

/// The representatives after merging the sets of `a` and `b`: the set of
/// `a` takes the representative of the set of `b`.
pub open spec fn merge_step(rep: Seq<int>, a: int, b: int) -> Seq<int> {
    Seq::new(rep.len(), |y: int| if rep[y] == rep[a] { rep[b] } else { rep[y] })
}

/// The representative of each blob once the overlapping pairs that come
/// before `(i, j)` have been merged, the pairs `i < j` taken row by row;
/// at the start each blob represents itself.
pub open spec fn reps_before(o: Seq<Vec<bool>>, i: nat, j: nat) -> Seq<int>
    decreases i, j,
{
    if j > i + 1 {
        let prev = reps_before(o, i, (j - 1) as nat);
        if o[i as int]@[j - 1] {
            merge_step(prev, i as int, j - 1)
        } else {
            prev
        }
    } else if i > 0 {
        reps_before(o, (i - 1) as nat, o.len())
    } else {
        Seq::new(o.len(), |x: int| x)
    }
}

/// The representative of each blob once every overlapping pair has been
/// merged.
pub open spec fn final_reps(o: Seq<Vec<bool>>) -> Seq<int> {
    reps_before(o, o.len(), o.len() + 1)
}

/// Groups the blobs whose expanded boxes overlap, directly or through
/// other blobs: `overlap[i][j]` (for `i < j`) says whether blobs `i` and
/// `j` overlap. Each group lists its blob indices in increasing order;
/// the groups are disjoint and together hold every index. The groups come
/// in increasing order of the representative their blobs share once every
/// overlapping pair `(i, j)` has been merged, row by row, the set of `i`
/// taking the representative of the set of `j`.
pub fn merge_blobs(overlap: &Vec<Vec<bool>>) -> (groups: Vec<Vec<usize>>)
    requires
        forall|i: int| 0 <= i < overlap@.len() ==> (#[trigger] overlap@[i])@.len() == overlap@.len(),
    ensures
        forall|g: int|
            0 <= g < groups@.len() ==> (#[trigger] groups@[g])@.len() > 0 && forall|k: int, l: int|
                0 <= k < l < groups@[g]@.len() ==> groups@[g]@[k] < groups@[g]@[l],
        forall|g: int, k: int|
            0 <= g < groups@.len() && 0 <= k < groups@[g]@.len() ==> (#[trigger] groups@[g]@[k]) < overlap@.len(),
        forall|x: int| 0 <= x < overlap@.len() ==> #[trigger] grouped(groups@, x),
        forall|g1: int, k1: int, g2: int, k2: int|
            0 <= g1 < groups@.len() && 0 <= g2 < groups@.len() && 0 <= k1 < groups@[g1]@.len() && 0 <= k2
                < groups@[g2]@.len() ==> (g1 == g2 <==> linked(
                overlap@,
                #[trigger] groups@[g1]@[k1] as int,
                #[trigger] groups@[g2]@[k2] as int,
            )),
        forall|g1: int, k1: int, g2: int, k2: int|
            0 <= g1 < g2 < groups@.len() && 0 <= k1 < groups@[g1]@.len() && 0 <= k2 < groups@[g2]@.len()
                ==> final_reps(overlap@)[#[trigger] groups@[g1]@[k1] as int] < final_reps(overlap@)[
                #[trigger] groups@[g2]@[k2] as int],
{
    let n = overlap.len();
    let ghost o = overlap@;
    let mut parent: Vec<usize> = Vec::new();
    while parent.len() < n
        invariant
            parent@.len() <= n,
            forall|x: int| 0 <= x < parent@.len() ==> #[trigger] parent@[x] == x,
        decreases n - parent@.len(),
    {
        let k = parent.len();
        parent.push(k);
    }
    let ghost mut rep: Seq<int> = Seq::new(n as nat, |x: int| x);
    let ghost mut dist: Seq<nat> = Seq::new(n as nat, |x: int| 0nat);
    proof {
        assert forall|a: int, b: int| 0 <= a < n && 0 <= b < n && rep[a] == rep[b] implies linked(o, a, b) by {
            lemma_chain_single(o, a);
        }
    }
    let mut i: usize = 0;
    while i < n
        invariant
            o == overlap@,
            n == o.len(),
            forall|r: int| 0 <= r < o.len() ==> (#[trigger] o[r])@.len() == o.len(),
            i <= n,
            uf_ok(parent@, rep, dist, n as int),
            forall|a: int, b: int| 0 <= a < n && 0 <= b < n && rep[a] == rep[b] ==> linked(o, a, b),
            forall|u: int, v: int| 0 <= u < i && u < v < n && o[u]@[v] ==> #[trigger] rep[u] == #[trigger] rep[v],
            rep == reps_before(o, i as nat, (i + 1) as nat),
        decreases n - i,
    {
        let mut j: usize = i + 1;
        while j < n
            invariant
                o == overlap@,
                n == o.len(),
                forall|r: int| 0 <= r < o.len() ==> (#[trigger] o[r])@.len() == o.len(),
                i < n,
                i + 1 <= j <= n,
                uf_ok(parent@, rep, dist, n as int),
                forall|a: int, b: int| 0 <= a < n && 0 <= b < n && rep[a] == rep[b] ==> linked(o, a, b),
                forall|u: int, v: int|
                    0 <= u < n && u < v < n && o[u]@[v] && (u < i || (u == i && v < j)) ==> #[trigger] rep[u]
                        == #[trigger] rep[v],
                rep == reps_before(o, i as nat, j as nat),
            decreases n - j,
        {
            proof {
                assert(reps_before(o, i as nat, (j + 1) as nat) == if o[i as int]@[j as int] {
                    merge_step(reps_before(o, i as nat, j as nat), i as int, j as int)
                } else {
                    reps_before(o, i as nat, j as nat)
                });
            }
            if overlap[i][j] {
                let ghost rep0 = rep;
                let (Ghost(r2), Ghost(d2)) = union(&mut parent, i, j, Ghost(rep), Ghost(dist));
                proof {
                    rep = r2;
                    dist = d2;
                    assert(rep =~= merge_step(rep0, i as int, j as int));
                    assert forall|a: int, b: int| 0 <= a < n && 0 <= b < n && rep[a] == rep[b] implies linked(o, a, b) by {
                        if rep0[a] == rep0[b] {
                        } else if rep0[a] == rep0[i as int] {
                            assert(rep0[b] == rep0[j as int]);
                            assert(linked(o, a, i as int));
                            assert(linked(o, j as int, b));
                            assert(overlaps(o, i as int, j as int));
                            lemma_chain_join(o, a, i as int, j as int, b);
                        } else {
                            assert(rep0[b] == rep0[i as int]);
                            assert(rep0[a] == rep0[j as int]);
                            assert(linked(o, b, i as int));
                            assert(linked(o, j as int, a));
                            lemma_chain_join(o, b, i as int, j as int, a);
                            lemma_chain_reverse(o, b, a);
                        }
                    }
                    assert forall|u: int, v: int|
                        0 <= u < n && u < v < n && o[u]@[v] && (u < i || (u == i && v < j + 1)) implies #[trigger] rep[u]
                            == #[trigger] rep[v] by {
                        if u == i && v == j {
                        } else {
                            assert(rep0[u] == rep0[v]);
                        }
                    }
                }
            }
            j = j + 1;
        }
        proof {
            assert(reps_before(o, (i + 1) as nat, (i + 2) as nat) == reps_before(o, i as nat, n as nat));
        }
        i = i + 1;
    }
    proof {
        assert(final_reps(o) == reps_before(o, n as nat, (n + 1) as nat));
        if n > 0 {
            assert(reps_before(o, n as nat, (n + 1) as nat) == reps_before(o, (n - 1) as nat, n as nat));
        }
        assert(rep == final_reps(o));
    }
    // Every overlap now joins equal representatives.
    proof {
        assert forall|a: int, b: int| 0 <= a < n && 0 <= b < n && linked(o, a, b) implies rep[a] == rep[b] by {
            let c = choose|ch: Seq<int>| #[trigger] is_chain(o, ch) && ch[0] == a && ch.last() == b;
            assert forall|u: int, v: int| 0 <= u < v < o.len() && o[u]@[v] implies #[trigger] rep[u] == #[trigger] rep[v] by {}
            lemma_chain_same_rep(o, rep, c, c.len() - 1);
        }
    }
    let mut roots: Vec<usize> = Vec::new();
    let mut x: usize = 0;
    while x < n
        invariant
            n == o.len(),
            x <= n,
            uf_ok(parent@, rep, dist, n as int),
            roots@.len() == x,
            forall|y: int| 0 <= y < x ==> #[trigger] roots@[y] as int == rep[y],
        decreases n - x,
    {
        let r = find(&mut parent, x, Ghost(rep), Ghost(dist));
        roots.push(r);
        x = x + 1;
    }
    let mut groups: Vec<Vec<usize>> = Vec::new();
    let ghost mut gr: Seq<int> = Seq::empty();
    let mut r: usize = 0;
    while r < n
        invariant
            n == o.len(),
            r <= n,
            roots@.len() == n,
            rep.len() == n,
            forall|y: int| 0 <= y < n ==> #[trigger] roots@[y] as int == rep[y],
            forall|y: int| 0 <= y < n ==> 0 <= #[trigger] rep[y] < n,
            gr.len() == groups@.len(),
            forall|g: int| 0 <= g < gr.len() ==> #[trigger] gr[g] < r,
            forall|g1: int, g2: int| 0 <= g1 < g2 < gr.len() ==> #[trigger] gr[g1] < #[trigger] gr[g2],
            forall|g: int|
                0 <= g < groups@.len() ==> (#[trigger] groups@[g])@.len() > 0 && forall|k: int, l: int|
                    0 <= k < l < groups@[g]@.len() ==> groups@[g]@[k] < groups@[g]@[l],
            forall|g: int, k: int|
                0 <= g < groups@.len() && 0 <= k < groups@[g]@.len() ==> (#[trigger] groups@[g]@[k]) < n && rep[groups@[g]@[k] as int] == gr[g],
            forall|y: int| 0 <= y < n && rep[y] < r ==> #[trigger] grouped(groups@, y),
        decreases n - r,
    {
        let mut g: Vec<usize> = Vec::new();
        let mut y: usize = 0;
        while y < n
            invariant
                n == o.len(),
                r < n,
                y <= n,
                roots@.len() == n,
                rep.len() == n,
                forall|z: int| 0 <= z < n ==> #[trigger] roots@[z] as int == rep[z],
                forall|k: int| 0 <= k < g@.len() ==> (#[trigger] g@[k]) < y && rep[g@[k] as int] == r,
                forall|k: int, l: int| 0 <= k < l < g@.len() ==> g@[k] < g@[l],
                forall|z: int| 0 <= z < y && rep[z] == r ==> exists|k: int| 0 <= k < g@.len() && #[trigger] g@[k] == z,
            decreases n - y,
        {
            let ghost gq = g@;
            if roots[y] == r {
                g.push(y);
                proof {
                    assert(g@[g@.len() - 1] == y);
                }
            }
            proof {
                assert forall|z: int| 0 <= z < y + 1 && rep[z] == r implies exists|k: int| 0 <= k < g@.len() && #[trigger] g@[k] == z by {
                    if z == y {
                        assert(g@[g@.len() - 1] == y);
                    } else {
                        let k = choose|k: int| 0 <= k < gq.len() && #[trigger] gq[k] == z;
                        assert(g@[k] == gq[k]);
                    }
                }
            }
            y = y + 1;
        }
        if g.len() > 0 {
            let ghost g0 = groups@;
            groups.push(g);
            proof {
                gr = gr.push(r as int);
                assert forall|gg: int| 0 <= gg < g0.len() implies groups@[gg] == g0[gg] by {}
                assert forall|z: int| 0 <= z < n && rep[z] < r + 1 implies #[trigger] grouped(groups@, z) by {
                    if rep[z] < r {
                        assert(grouped(g0, z));
                        let (gg, k) = choose|gg: int, k: int|
                            0 <= gg < g0.len() && 0 <= k < g0[gg]@.len() && #[trigger] g0[gg]@[k] == z;
                        assert(groups@[gg] == g0[gg]);
                        assert(groups@[gg]@[k] == z);
                    } else {
                        let k = choose|k: int| 0 <= k < g@.len() && #[trigger] g@[k] == z;
                        assert(groups@[g0.len() as int]@[k] == z);
                    }
                }
            }
        } else {
            proof {
                assert forall|z: int| 0 <= z < n && rep[z] < r + 1 implies #[trigger] grouped(groups@, z) by {
                    if rep[z] == r {
                        assert(exists|k: int| 0 <= k < g@.len() && #[trigger] g@[k] == z);
                    }
                }
            }
        }
        r = r + 1;
    }
    proof {
        assert forall|g1: int, k1: int, g2: int, k2: int|
            0 <= g1 < groups@.len() && 0 <= g2 < groups@.len() && 0 <= k1 < groups@[g1]@.len() && 0 <= k2
                < groups@[g2]@.len() implies (g1 == g2 <==> linked(
                overlap@,
                #[trigger] groups@[g1]@[k1] as int,
                #[trigger] groups@[g2]@[k2] as int,
            )) by {
            let a = groups@[g1]@[k1] as int;
            let b = groups@[g2]@[k2] as int;
            if g1 != g2 {
                if g1 < g2 {
                    assert(gr[g1] < gr[g2]);
                } else {
                    assert(gr[g2] < gr[g1]);
                }
            }
        }
    }
    groups
}

} // verus!
