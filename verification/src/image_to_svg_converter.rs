//! The pipeline orchestrator: region extraction over the grid, geometric
//! simplification of each extracted sequence of more than one point at a
//! fixed tolerance, and assembly of each result into a drawable path.

use vstd::prelude::*;
use crate::extraction::{all_foreground, extract_regions, extract_spec, region_views};
use crate::geometry::{
    in_range, lemma_rdp_spec_membership, lemma_rdp_spec_shape, rdp, rdp_spec, Point,
};
use crate::grid::Grid;
use crate::svg::{command_point, path_data_spec, PathCommand, SVGImage, SVGPath};

verus! {

/// The fixed tolerance the pipeline hands to the simplifier.
pub const SIMPLIFY_TOLERANCE: i64 = 1;

/// Converts a pixel grid into a collection of drawable paths.
pub struct ImageToSVGConverter {}

/// The command lists the pipeline produces from a list of extracted
/// sequences: every sequence of more than one point is simplified at the
/// fixed tolerance and assembled; shorter ones are discarded.
pub open spec fn pipeline_spec(rs: Seq<Seq<Point>>) -> Seq<Seq<PathCommand>>
    decreases rs.len(),
{
    if rs.len() == 0 {
        Seq::empty()
    } else {
        let rest = pipeline_spec(rs.drop_last());
        if rs.last().len() > 1 {
            rest.push(path_data_spec(rdp_spec(rs.last(), SIMPLIFY_TOLERANCE as int)))
        } else {
            rest
        }
    }
}

/// A path command list is well shaped when it opens with a single move and
/// continues with lines: the form the assembler emits for a point sequence.
pub open spec fn well_shaped_data(data: Seq<PathCommand>) -> bool {
    &&& data.len() >= 2
    &&& data[0] is MoveTo
    &&& forall|k: int| 1 <= k < data.len() ==> #[trigger] data[k] is LineTo
}

impl ImageToSVGConverter {
    pub fn new() -> (c: Self)
        ensures
            c == (ImageToSVGConverter {  }),
    {
        ImageToSVGConverter {  }
    }

    /// Runs the whole pipeline. Every emitted path draws through at least
    /// two in-bounds foreground pixels of the grid, in move-then-lines form,
    /// and the canvas takes the grid's dimensions. A grid with no foreground
    /// yields no paths at all.
    pub fn convert(&self, grid: &Grid) -> (doc: SVGImage)
        requires
            grid.wf(),
        ensures
            doc.width == grid.width,
            doc.height == grid.height,
            forall|pi: int|
                0 <= pi < doc.paths@.len() ==> well_shaped_data(
                    (#[trigger] doc.paths@[pi]).data@,
                ),
            forall|pi: int, k: int|
                0 <= pi < doc.paths@.len() && 0 <= k < doc.paths@[pi].data@.len()
                    ==> grid.foreground_point(command_point(#[trigger] doc.paths@[pi].data@[k])),
            grid.all_background() ==> doc.paths@.len() == 0,
            doc.paths@.map_values(|p: SVGPath| p.data@) == pipeline_spec(extract_spec(*grid)),
            forall|pi: int|
                0 <= pi < doc.paths@.len() ==> (#[trigger] doc.paths@[pi]).style@
                    == Seq::<char>::empty(),
    {
        let regions = extract_regions(grid);
        let mut paths: Vec<SVGPath> = Vec::new();
        let mut ri: usize = 0;
        while ri < regions.len()
            invariant
                grid.wf(),
                ri <= regions@.len(),
                forall|i: int|
                    0 <= i < regions@.len() ==> all_foreground(*grid, (#[trigger] regions@[i])@),
                forall|pi: int|
                    0 <= pi < paths@.len() ==> well_shaped_data((#[trigger] paths@[pi]).data@),
                forall|pi: int, k: int|
                    0 <= pi < paths@.len() && 0 <= k < paths@[pi].data@.len()
                        ==> grid.foreground_point(
                        command_point(#[trigger] paths@[pi].data@[k]),
                    ),
                regions@.len() == 0 ==> paths@.len() == 0,
                forall|pi: int|
                    0 <= pi < paths@.len() ==> (#[trigger] paths@[pi]).style@
                        == Seq::<char>::empty(),
                paths@.map_values(|p: SVGPath| p.data@) == pipeline_spec(
                    region_views(regions@).subrange(0, ri as int),
                ),
            decreases regions@.len() - ri,
        {
            let ghost rv = region_views(regions@);
            let ghost old_paths_map = paths@.map_values(|p: SVGPath| p.data@);
            proof {
                assert(rv.subrange(0, ri + 1).drop_last() =~= rv.subrange(0, ri as int));
                assert(rv.subrange(0, ri + 1).last() == regions@[ri as int]@);
            }
            let region = &regions[ri];
            if region.len() > 1 {
                proof {
                    assert(all_foreground(*grid, region@));
                    assert forall|k: int| 0 <= k < region@.len() implies in_range(
                        #[trigger] region@[k],
                    ) by {
                        assert(grid.foreground_point(region@[k]));
                    }
                }
                let simplified = rdp(region, SIMPLIFY_TOLERANCE);
                proof {
                    lemma_rdp_spec_shape(region@, SIMPLIFY_TOLERANCE as int);
                    lemma_rdp_spec_membership(region@, SIMPLIFY_TOLERANCE as int);
                }
                let data = self.path_points_to_svg_path_data(&simplified);
                paths.push(SVGPath { data, style: String::new() });
                proof {
                    let np = paths@.len() - 1;
                    assert(paths@[np].data@ == path_data_spec(simplified@));
                    assert forall|k: int| 0 <= k < paths@[np].data@.len() implies
                        grid.foreground_point(
                        command_point(#[trigger] paths@[np].data@[k]),
                    ) by {
                        assert(command_point(paths@[np].data@[k]) == simplified@[k]);
                        assert(region@.contains(simplified@[k]));
                        let j = choose|j: int| 0 <= j < region@.len() && region@[j]
                            == simplified@[k];
                        assert(grid.foreground_point(region@[j]));
                    }
                    assert(well_shaped_data(paths@[np].data@));
                    assert(paths@.map_values(|p: SVGPath| p.data@) =~= old_paths_map.push(
                        path_data_spec(rdp_spec(region@, SIMPLIFY_TOLERANCE as int)),
                    ));
                    assert(pipeline_spec(rv.subrange(0, ri + 1)) == old_paths_map.push(
                        path_data_spec(rdp_spec(region@, SIMPLIFY_TOLERANCE as int)),
                    ));
                }
            } else {
                proof {
                    assert(regions@[ri as int]@.len() <= 1);
                    assert(pipeline_spec(rv.subrange(0, ri + 1)) == pipeline_spec(
                        rv.subrange(0, ri as int),
                    ));
                }
            }
            ri = ri + 1;
        }
        proof {
            assert(region_views(regions@).subrange(0, regions@.len() as int) =~= region_views(
                regions@,
            ));
            if grid.all_background() {
                assert(regions@.len() == 0);
            }
        }
        SVGImage { width: grid.width, height: grid.height, paths }
    }

    /// Path assembly: a move to the first point, then a line to each later
    /// point in order. An empty input yields an empty command list.
    pub fn path_points_to_svg_path_data(&self, points: &Vec<Point>) -> (data: Vec<PathCommand>)
        ensures
            data@ == path_data_spec(points@),
    {
        let mut data: Vec<PathCommand> = Vec::new();
        let mut i: usize = 0;
        while i < points.len()
            invariant
                i <= points@.len(),
                data@ == path_data_spec(points@).subrange(0, i as int),
            decreases points@.len() - i,
        {
            if i == 0 {
                data.push(PathCommand::MoveTo(points[0].x, points[0].y));
            } else {
                data.push(PathCommand::LineTo(points[i].x, points[i].y));
            }
            proof {
                assert(data@ =~= path_data_spec(points@).subrange(0, i + 1));
            }
            i = i + 1;
        }
        proof {
            assert(data@ =~= path_data_spec(points@));
        }
        data
    }
}

} // verus!
