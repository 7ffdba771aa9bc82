//! Region extraction: a scan of the pixel grid that groups connected
//! foreground pixels by an exhaustive stack-based traversal, producing one
//! point sequence per discovered region.
//!
//! A traversal is seeded at column 0 of every row not already covered by an
//! earlier traversal. A seed on a background pixel marks only that pixel
//! visited and produces nothing; a row's "processed" flag is set only when a
//! traversal finds a foreground pixel in that row, so a traversal's reach is
//! not confined to its seed row.

use std::collections::VecDeque;
use vstd::prelude::*;
use crate::geometry::Point;
use crate::grid::Grid;

verus! {

/// 4-directional adjacency of two points.
pub open spec fn adjacent(p: Point, q: Point) -> bool {
    ||| (p.x == q.x && (p.y == q.y + 1 || q.y == p.y + 1))
    ||| (p.y == q.y && (p.x == q.x + 1 || q.x == p.x + 1))
}

/// Every point of the sequence names an in-bounds foreground pixel.
pub open spec fn all_foreground(g: Grid, s: Seq<Point>) -> bool {
    forall|k: int| 0 <= k < s.len() ==> g.foreground_point(#[trigger] s[k])
}

/// No coordinate repeats within the sequence.
pub open spec fn distinct_points(s: Seq<Point>) -> bool {
    forall|k: int, l: int| 0 <= k < l < s.len() ==> s[k] != s[l]
}

/// The point at position `k` is 4-adjacent to some earlier point.
pub open spec fn has_earlier_neighbor(s: Seq<Point>, k: int) -> bool {
    exists|l: int| 0 <= l < k && adjacent(s[k], s[l])
}

/// Every point after the first is 4-adjacent to some earlier point, so the
/// sequence accumulates one internally connected region.
pub open spec fn chained(s: Seq<Point>) -> bool {
    forall|k: int| 1 <= k < s.len() ==> #[trigger] has_earlier_neighbor(s, k)
}

/// No pixel coordinate appears in more than one sequence, nor twice in one.
pub open spec fn mutually_exclusive(rs: Seq<Seq<Point>>) -> bool {
    forall|i: int, j: int, k: int, l: int|
        0 <= i < rs.len() && 0 <= j < rs.len() && 0 <= k < rs[i].len() && 0 <= l < rs[j].len() && (
        i != j || k != l) ==> #[trigger] rs[i][k] != #[trigger] rs[j][l]
}

pub open spec fn region_views(rs: Seq<Vec<Point>>) -> Seq<Seq<Point>> {
    rs.map_values(|v: Vec<Point>| v@)
}

/// Row-major position of a point in the visited mask.
pub open spec fn vis_index(g: Grid, p: Point) -> int {
    p.y * g.width + p.x
}

spec fn marked(g: Grid, visited: Seq<bool>, s: Seq<Point>) -> bool {
    forall|k: int| 0 <= k < s.len() ==> visited[vis_index(g, #[trigger] s[k])] == true
}

spec fn regions_marked(g: Grid, visited: Seq<bool>, rs: Seq<Vec<Point>>) -> bool {
    forall|i: int| 0 <= i < rs.len() ==> marked(g, visited, (#[trigger] rs[i])@)
}

spec fn pt_of(c: (u32, u32)) -> Point {
    Point { x: c.0 as i64, y: c.1 as i64 }
}

/// Count of still-unvisited cells; the traversal's termination measure.
pub open spec fn count_false(s: Seq<bool>) -> nat
    decreases s.len(),
{
    if s.len() == 0 {
        0
    } else {
        count_false(s.drop_last()) + if s.last() {
            0nat
        } else {
            1nat
        }
    }
}

proof fn lemma_count_false_update(s: Seq<bool>, i: int)
    requires
        0 <= i < s.len(),
        s[i] == false,
    ensures
        count_false(s.update(i, true)) < count_false(s),
    decreases s.len(),
{
    let t = s.update(i, true);
    if i == s.len() - 1 {
        assert(t.drop_last() =~= s.drop_last());
    } else {
        assert(t.drop_last() =~= s.drop_last().update(i, true));
        lemma_count_false_update(s.drop_last(), i);
    }
}

/// One step-by-step traversal, written as a function on the whole machine
/// state: pops the top coordinate, and on an unvisited in-bounds pixel marks
/// it, collects it when it is foreground, flags its row, and stacks its four
/// in-bounds neighbors (down, right, up, left). Returns the final visited
/// mask, row flags and point sequence once the stack is empty.
pub open spec fn dfs_spec(
    g: Grid,
    visited: Seq<bool>,
    processed: Seq<bool>,
    stack: Seq<(u32, u32)>,
    pts: Seq<Point>,
) -> (Seq<bool>, Seq<bool>, Seq<Point>)
    decreases count_false(visited), stack.len(),
    via dfs_spec_decreases
{
    if stack.len() == 0 {
        (visited, processed, pts)
    } else {
        let c = stack[stack.len() - 1];
        let rest = stack.drop_last();
        if c.0 < g.width && c.1 < g.height {
            let vi = c.1 * g.width + c.0;
            if 0 <= vi < visited.len() && !visited[vi] {
                let visited2 = visited.update(vi, true);
                if g.foreground_at(c.0 as int, c.1 as int) {
                    let processed2 = if 0 <= c.1 < processed.len() {
                        processed.update(c.1 as int, true)
                    } else {
                        processed
                    };
                    let pts2 = pts.push(Point { x: c.0 as i64, y: c.1 as i64 });
                    let st1 = if c.1 + 1 < g.height {
                        rest.push((c.0, (c.1 + 1) as u32))
                    } else {
                        rest
                    };
                    let st2 = if c.0 + 1 < g.width {
                        st1.push(((c.0 + 1) as u32, c.1))
                    } else {
                        st1
                    };
                    let st3 = if c.1 >= 1 {
                        st2.push((c.0, (c.1 - 1) as u32))
                    } else {
                        st2
                    };
                    let st4 = if c.0 >= 1 {
                        st3.push(((c.0 - 1) as u32, c.1))
                    } else {
                        st3
                    };
                    dfs_spec(g, visited2, processed2, st4, pts2)
                } else {
                    dfs_spec(g, visited2, processed, rest, pts)
                }
            } else {
                dfs_spec(g, visited, processed, rest, pts)
            }
        } else {
            dfs_spec(g, visited, processed, rest, pts)
        }
    }
}

#[via_fn]
proof fn dfs_spec_decreases(
    g: Grid,
    visited: Seq<bool>,
    processed: Seq<bool>,
    stack: Seq<(u32, u32)>,
    pts: Seq<Point>,
) {
    if stack.len() != 0 {
        let c = stack[stack.len() - 1];
        if c.0 < g.width && c.1 < g.height {
            let vi = c.1 * g.width + c.0;
            if 0 <= vi < visited.len() && !visited[vi] {
                lemma_count_false_update(visited, vi);
            }
        }
    }
}

/// The row scan: every row whose flag is still clear seeds a traversal at
/// its column 0, and a traversal that collected anything contributes one
/// sequence.
pub open spec fn scan_spec(
    g: Grid,
    y: int,
    processed: Seq<bool>,
    visited: Seq<bool>,
    regions: Seq<Seq<Point>>,
) -> Seq<Seq<Point>>
    decreases g.height - y,
{
    if y < 0 || y >= g.height {
        regions
    } else if !processed[y] {
        let step = dfs_spec(g, visited, processed, seq![(0u32, y as u32)], Seq::empty());
        let regions2 = if step.2.len() > 0 {
            regions.push(step.2)
        } else {
            regions
        };
        scan_spec(g, y + 1, step.1, step.0, regions2)
    } else {
        scan_spec(g, y + 1, processed, visited, regions)
    }
}

/// What region extraction returns on a grid: the row scan started on fresh
/// masks.
pub open spec fn extract_spec(g: Grid) -> Seq<Seq<Point>> {
    scan_spec(
        g,
        0,
        Seq::new(g.height as nat, |i: int| false),
        Seq::new((g.width * g.height) as nat, |i: int| false),
        Seq::empty(),
    )
}

fn make_bool_vec(n: usize) -> (v: Vec<bool>)
    ensures
        v@.len() == n,
        forall|k: int| 0 <= k < n ==> v@[k] == false,
{
    let mut v: Vec<bool> = Vec::new();
    let mut i: usize = 0;
    while i < n
        invariant
            i <= n,
            v@.len() == i,
            forall|k: int| 0 <= k < i ==> v@[k] == false,
        decreases n - i,
    {
        v.push(false);
        i = i + 1;
    }
    v
}

proof fn lemma_vis_bound(x: int, y: int, w: int, h: int)
    by (nonlinear_arith)
    requires
        0 <= x < w,
        0 <= y < h,
    ensures
        0 <= y * w + x < w * h,
{
}

/// Scans the grid and returns one point sequence per region found: each
/// returned sequence is non-empty, holds only in-bounds foreground pixels,
/// grows by 4-adjacency from its first point, and shares no coordinate with
/// any other returned sequence. A grid with no foreground yields nothing.
pub fn extract_regions(grid: &Grid) -> (regions: Vec<Vec<Point>>)
    requires
        grid.wf(),
    ensures
        forall|i: int| 0 <= i < regions@.len() ==> (#[trigger] regions@[i])@.len() >= 1,
        forall|i: int|
            0 <= i < regions@.len() ==> all_foreground(*grid, (#[trigger] regions@[i])@),
        forall|i: int| 0 <= i < regions@.len() ==> chained((#[trigger] regions@[i])@),
        mutually_exclusive(region_views(regions@)),
        grid.all_background() ==> regions@.len() == 0,
        region_views(regions@) == extract_spec(*grid),
{
    let w = grid.width;
    let h = grid.height;
    let mut processed_rows = make_bool_vec(h as usize);
    let mut visited = make_bool_vec(grid.pixels.len());
    let mut regions: Vec<Vec<Point>> = Vec::new();

    proof {
        assert(processed_rows@ =~= Seq::new(grid.height as nat, |i: int| false));
        assert(visited@ =~= Seq::new((grid.width * grid.height) as nat, |i: int| false));
        assert(region_views(regions@) =~= Seq::<Seq<Point>>::empty());
    }
    let mut y: u32 = 0;
    while y < h
        invariant
            grid.wf(),
            w == grid.width,
            h == grid.height,
            y <= h,
            processed_rows@.len() == h,
            visited@.len() == grid.pixels@.len(),
            forall|i: int| 0 <= i < regions@.len() ==> (#[trigger] regions@[i])@.len() >= 1,
            forall|i: int|
                0 <= i < regions@.len() ==> all_foreground(*grid, (#[trigger] regions@[i])@),
            forall|i: int| 0 <= i < regions@.len() ==> chained((#[trigger] regions@[i])@),
            mutually_exclusive(region_views(regions@)),
            regions_marked(*grid, visited@, regions@),
            scan_spec(*grid, y as int, processed_rows@, visited@, region_views(regions@))
                == extract_spec(*grid),
        decreases h - y,
    {
        let ghost scan_y = y as int;
        let ghost p0 = processed_rows@;
        let ghost v0 = visited@;
        let ghost rv0 = region_views(regions@);
        if !processed_rows[y as usize] {
            let ghost seed = (0u32, y);
            let mut stack: VecDeque<(u32, u32)> = VecDeque::new();
            stack.push_back((0, y));
            let mut pts: Vec<Point> = Vec::new();
            proof {
                assert(stack@ =~= seq![(0u32, y)]);
            }
            let ghost dfs_target = dfs_spec(*grid, visited@, processed_rows@, stack@, pts@);
            while stack.len() != 0
                invariant
                    grid.wf(),
                    w == grid.width,
                    h == grid.height,
                    y < h,
                    processed_rows@.len() == h,
                    visited@.len() == grid.pixels@.len(),
                    forall|i: int| 0 <= i < regions@.len() ==> (#[trigger] regions@[i])@.len() >= 1,
                    forall|i: int|
                        0 <= i < regions@.len() ==> all_foreground(*grid, (#[trigger] regions@[i])@),
                    forall|i: int| 0 <= i < regions@.len() ==> chained((#[trigger] regions@[i])@),
                    mutually_exclusive(region_views(regions@)),
                    regions_marked(*grid, visited@, regions@),
                    all_foreground(*grid, pts@),
                    distinct_points(pts@),
                    chained(pts@),
                    marked(*grid, visited@, pts@),
                    forall|i: int, k: int, l: int|
                        0 <= i < regions@.len() && 0 <= k < regions@[i]@.len() && 0 <= l
                            < pts@.len() ==> #[trigger] regions@[i]@[k] != #[trigger] pts@[l],
                    pts@.len() == 0 ==> stack@.len() <= 1 && (forall|t: int|
                        0 <= t < stack@.len() ==> stack@[t] == seed),
                    pts@.len() >= 1 ==> (forall|t: int|
                        0 <= t < stack@.len() ==> exists|l: int|
                            0 <= l < pts@.len() && adjacent(pt_of(#[trigger] stack@[t]), pts@[l])),
                    dfs_spec(*grid, visited@, processed_rows@, stack@, pts@) == dfs_target,
                decreases count_false(visited@), stack@.len(),
            {
                let ghost old_stack = stack@;
                let ghost old_visited = visited@;
                let ghost old_processed = processed_rows@;
                let ghost old_pts = pts@;
                let popped = stack.pop_back();
                let (cx, cy) = popped.unwrap();
                proof {
                    assert(old_stack[old_stack.len() - 1] == (cx, cy));
                }
                if cx < w && cy < h {
                    proof {
                        lemma_vis_bound(cx as int, cy as int, w as int, h as int);
                    }
                    // reading the length shows the verifier that the mask
                    // index below fits in usize
                    let total = visited.len();
                    let vi = (cy as usize) * (w as usize) + (cx as usize);
                    if !visited[vi] {
                        visited.set(vi, true);
                        proof {
                            lemma_count_false_update(old_visited, vi as int);
                            // marking one more cell keeps every earlier mark
                            assert forall|i: int| 0 <= i < regions@.len() implies marked(
                                *grid,
                                visited@,
                                (#[trigger] regions@[i])@,
                            ) by {
                                assert(marked(*grid, old_visited, regions@[i]@));
                                assert(all_foreground(*grid, regions@[i]@));
                                assert forall|k: int|
                                    0 <= k < regions@[i]@.len() implies visited@[vis_index(
                                    *grid,
                                    #[trigger] regions@[i]@[k],
                                )] == true by {
                                    let q = regions@[i]@[k];
                                    assert(grid.foreground_point(q));
                                    lemma_vis_bound(
                                        q.x as int,
                                        q.y as int,
                                        grid.width as int,
                                        grid.height as int,
                                    );
                                    assert(old_visited[vis_index(*grid, q)] == true);
                                }
                            }
                            assert forall|k: int| 0 <= k < pts@.len() implies visited@[vis_index(
                                *grid,
                                #[trigger] pts@[k],
                            )] == true by {
                                let q = pts@[k];
                                assert(grid.foreground_point(q));
                                lemma_vis_bound(
                                    q.x as int,
                                    q.y as int,
                                    grid.width as int,
                                    grid.height as int,
                                );
                                assert(old_visited[vis_index(*grid, q)] == true);
                            }
                        }
                        if grid.is_foreground(cx, cy) {
                            processed_rows.set(cy as usize, true);
                            let p = Point { x: cx as i64, y: cy as i64 };
                            let ghost mut wl: int = 0;
                            proof {
                                assert(vis_index(*grid, p) == vi as int);
                                assert(grid.foreground_point(p));
                                // p was unvisited, every collected point is
                                // visited: p is new everywhere.
                                assert(forall|l: int|
                                    0 <= l < old_pts.len() ==> #[trigger] old_pts[l] != p);
                                assert(forall|i: int, k: int|
                                    0 <= i < regions@.len() && 0 <= k < regions@[i]@.len()
                                        ==> #[trigger] regions@[i]@[k] != p);
                                if old_pts.len() >= 1 {
                                    // the popped coordinate came off the stack,
                                    // so it touches a collected point
                                    assert(exists|l: int|
                                        0 <= l < old_pts.len() && adjacent(
                                            pt_of(old_stack[old_stack.len() - 1]),
                                            old_pts[l],
                                        ));
                                    wl = choose|l: int|
                                        0 <= l < old_pts.len() && adjacent(
                                            pt_of(old_stack[old_stack.len() - 1]),
                                            old_pts[l],
                                        );
                                    assert(pt_of((cx, cy)) == p);
                                    assert(0 <= wl < old_pts.len() && adjacent(p, old_pts[wl]));
                                }
                            }
                            pts.push(p);
                            proof {
                                assert(pts@ == old_pts.push(p));
                                assert forall|k: int|
                                    1 <= k < pts@.len() implies #[trigger] has_earlier_neighbor(
                                    pts@,
                                    k,
                                ) by {
                                    if k < old_pts.len() {
                                        assert(chained(old_pts));
                                        assert(has_earlier_neighbor(old_pts, k));
                                        let l0 = choose|l: int|
                                            0 <= l < k && adjacent(old_pts[k], old_pts[l]);
                                        assert(pts@[k] == old_pts[k]);
                                        assert(pts@[l0] == old_pts[l0]);
                                        assert(adjacent(pts@[k], pts@[l0]));
                                    } else {
                                        assert(k == old_pts.len());
                                        assert(pts@[k] == p);
                                        assert(pts@[wl] == old_pts[wl]);
                                        assert(adjacent(pts@[k], pts@[wl]));
                                    }
                                }
                                assert(chained(pts@));
                            }
                            if cy + 1 < h {
                                stack.push_back((cx, cy + 1));
                            }
                            if cx + 1 < w {
                                stack.push_back((cx + 1, cy));
                            }
                            if cy >= 1 {
                                stack.push_back((cx, cy - 1));
                            }
                            if cx >= 1 {
                                stack.push_back((cx - 1, cy));
                            }
                            proof {
                                let li = pts@.len() - 1;
                                assert(pts@[li] == p);
                                assert forall|t: int| 0 <= t < stack@.len() implies exists|l: int|
                                    0 <= l < pts@.len() && adjacent(
                                        pt_of(#[trigger] stack@[t]),
                                        pts@[l],
                                    ) by {
                                    if t < old_stack.len() - 1 {
                                        // an item left over from before the pop
                                        assert(old_pts.len() >= 1);
                                        assert(stack@[t] == old_stack[t]);
                                        assert(exists|l: int|
                                            0 <= l < old_pts.len() && adjacent(
                                                pt_of(old_stack[t]),
                                                old_pts[l],
                                            ));
                                        let l0 = choose|l: int|
                                            0 <= l < old_pts.len() && adjacent(
                                                pt_of(old_stack[t]),
                                                old_pts[l],
                                            );
                                        assert(pts@[l0] == old_pts[l0]);
                                        assert(adjacent(pt_of(stack@[t]), pts@[l0]));
                                    } else {
                                        // a freshly pushed neighbor of p
                                        assert(adjacent(pt_of(stack@[t]), pts@[li]));
                                    }
                                }
                                // the step taken matches one unfolding of the
                                // traversal function
                                let c = old_stack[old_stack.len() - 1];
                                let rest = old_stack.drop_last();
                                assert(c == (cx, cy));
                                assert((c.1 as int) * grid.width + c.0 == vi as int);
                                let st1 = if c.1 + 1 < grid.height {
                                    rest.push((c.0, (c.1 + 1) as u32))
                                } else {
                                    rest
                                };
                                let st2 = if c.0 + 1 < grid.width {
                                    st1.push(((c.0 + 1) as u32, c.1))
                                } else {
                                    st1
                                };
                                let st3 = if c.1 >= 1 {
                                    st2.push((c.0, (c.1 - 1) as u32))
                                } else {
                                    st2
                                };
                                let st4 = if c.0 >= 1 {
                                    st3.push(((c.0 - 1) as u32, c.1))
                                } else {
                                    st3
                                };
                                assert(stack@ =~= st4);
                                assert(visited@ == old_visited.update(vi as int, true));
                                assert(processed_rows@ == old_processed.update(cy as int, true));
                                assert(grid.foreground_at(cx as int, cy as int));
                                assert(dfs_spec(*grid, old_visited, old_processed, old_stack, old_pts)
                                    == dfs_spec(*grid, visited@, processed_rows@, stack@, pts@));
                            }
                        } else {
                            proof {
                                let c = old_stack[old_stack.len() - 1];
                                assert(c == (cx, cy));
                                assert((c.1 as int) * grid.width + c.0 == vi as int);
                                assert(stack@ =~= old_stack.drop_last());
                                assert(visited@ == old_visited.update(vi as int, true));
                                assert(!grid.foreground_at(cx as int, cy as int));
                                assert(dfs_spec(*grid, old_visited, old_processed, old_stack, old_pts)
                                    == dfs_spec(*grid, visited@, processed_rows@, stack@, pts@));
                            }
                        }
                    } else {
                        proof {
                            let c = old_stack[old_stack.len() - 1];
                            assert(c == (cx, cy));
                            assert((c.1 as int) * grid.width + c.0 == vi as int);
                            assert(old_visited[vi as int] == true);
                            assert(stack@ =~= old_stack.drop_last());
                            assert(dfs_spec(*grid, old_visited, old_processed, old_stack, old_pts)
                                == dfs_spec(*grid, visited@, processed_rows@, stack@, pts@));
                        }
                    }
                } else {
                    proof {
                        let c = old_stack[old_stack.len() - 1];
                        assert(c == (cx, cy));
                        assert(!(c.0 < grid.width && c.1 < grid.height));
                        assert(stack@ =~= old_stack.drop_last());
                        assert(dfs_spec(*grid, old_visited, old_processed, old_stack, old_pts)
                            == dfs_spec(*grid, visited@, processed_rows@, stack@, pts@));
                    }
                }
            }
            let ghost final_v = visited@;
            let ghost final_p = processed_rows@;
            let ghost final_pts = pts@;
            proof {
                assert(stack@ =~= Seq::<(u32, u32)>::empty());
                assert(dfs_spec(*grid, final_v, final_p, stack@, final_pts) == (
                    final_v,
                    final_p,
                    final_pts,
                ));
                assert(dfs_target == (final_v, final_p, final_pts));
            }
            if pts.len() > 0 {
                let ghost old_regions = regions@;
                let ghost new_pts = pts@;
                regions.push(pts);
                proof {
                    assert(regions@ == old_regions.push(pts));
                    assert(mutually_exclusive(region_views(regions@))) by {
                        let rv = region_views(regions@);
                        let old_rv = region_views(old_regions);
                        assert(rv.len() == old_regions.len() + 1);
                        assert(forall|i: int| 0 <= i < old_regions.len() ==> rv[i] == old_rv[i]);
                        assert(rv[old_regions.len() as int] == new_pts);
                        assert forall|i: int, j: int, k: int, l: int|
                            0 <= i < rv.len() && 0 <= j < rv.len() && 0 <= k < rv[i].len() && 0 <= l
                                < rv[j].len() && (i != j || k != l) implies #[trigger] rv[i][k]
                            != #[trigger] rv[j][l] by {
                            let last = old_regions.len() as int;
                            if i < last && j < last {
                                assert(old_rv[i][k] != old_rv[j][l]);
                            } else if i == last && j == last {
                                assert(distinct_points(new_pts));
                                if k < l {
                                    assert(new_pts[k] != new_pts[l]);
                                } else {
                                    assert(new_pts[l] != new_pts[k]);
                                }
                            } else if i < last && j == last {
                                assert(old_regions[i]@[k] != new_pts[l]);
                            } else {
                                assert(old_regions[j]@[l] != new_pts[k]);
                            }
                        }
                    }
                    assert(region_views(regions@) =~= rv0.push(new_pts));
                }
            }
            proof {
                // one row handled: one unfolding of the scan
                assert(p0[scan_y] == false);
                assert(seq![(0u32, scan_y as u32)] =~= seq![(0u32, y)]);
                if final_pts.len() > 0 {
                } else {
                    assert(region_views(regions@) == rv0);
                }
                assert(scan_spec(*grid, scan_y, p0, v0, rv0) == scan_spec(
                    *grid,
                    scan_y + 1,
                    final_p,
                    final_v,
                    region_views(regions@),
                ));
            }
        } else {
            proof {
                assert(p0[scan_y] == true);
                assert(scan_spec(*grid, scan_y, p0, v0, rv0) == scan_spec(
                    *grid,
                    scan_y + 1,
                    processed_rows@,
                    visited@,
                    region_views(regions@),
                ));
            }
        }
        y = y + 1;
    }
    proof {
        assert(scan_spec(*grid, y as int, processed_rows@, visited@, region_views(regions@))
            == region_views(regions@));
        if regions@.len() > 0 {
            let p = regions@[0]@[0];
            assert(all_foreground(*grid, regions@[0]@));
            assert(grid.foreground_point(p));
            assert(grid.foreground_at(p.x as int, p.y as int));
            assert(!grid.all_background());
        }
    }
    regions
}

} // verus!
