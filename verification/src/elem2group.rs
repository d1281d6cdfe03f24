use vstd::prelude::*;

verus! {

use crate::voronoi2::VoronoiInfo;
use crate::loss_topo::{
    siteface2adjsitesameroom, neighbors_in_rooms, groups_within_rooms, outside_sites_alone,
    joined_sites_grouped, groups_face_connected,
};

/// The pair (number of groups, group of each site) that
/// `del_msh_core::elem2group::from_polygon_mesh` returns for the cells of
/// `site2idx` when two cells are joined across a face exactly where the face separates
/// two sites of the same room (faces given by `idx2site`, rooms by `site2room`).
pub uninterp spec fn site_groups(
    site2idx: Seq<usize>,
    idx2site: Seq<usize>,
    site2room: Seq<usize>,
) -> (usize, Seq<usize>);

/// Groups the sites into the connected pieces of their rooms with
/// `del_msh_core::elem2group::from_polygon_mesh`, joining the cell of each site to the
/// neighbours that `siteface2adjsitesameroom` gives.
///
/// Trusted, as the source of the outside function shows it:
/// - the result is the one named by `site_groups`;
/// - there is one group per site, and every group is below the number of groups, since
///   the elements are labelled `0, 1, ...` until none is left unlabelled;
/// - the sites of a group lie in one room, since a traversal only crosses to a site of
///   the room it starts from, and a site keeps the label of the last traversal reaching it;
/// - a site outside every room is alone in its group, since no face leads to it;
/// - two sites of one group are joined by a chain of same-room face neighbours, since
///   both were reached from the kernel of that group by such a chain;
/// - where every face is seen from both sides, the traversals never overlap, so two sites
///   of a room joined across a face share a group.
/// Without symmetric faces, which pieces end up sharing a label is not stated.
#[verifier::external_body]
pub(crate) fn group_sites(voronoi_info: &VoronoiInfo, site2room: &[usize]) -> (res: (usize, Vec<usize>))
    requires
        voronoi_info.wf_faces(),
        site2room.len() == voronoi_info.num_site(),
        neighbors_in_rooms(*voronoi_info, site2room@),
    ensures
        (res.0, res.1@) == site_groups(voronoi_info.site2idx@, voronoi_info.idx2site@, site2room@),
        res.1.len() == site2room.len(),
        forall|i: int| 0 <= i < res.1.len() ==> #[trigger] res.1[i] < res.0,
        groups_within_rooms(site2room@, res.1@),
        outside_sites_alone(site2room@, res.1@),
        groups_face_connected(*voronoi_info, site2room@, res.1@),
        voronoi_info.faces_symmetric() ==> joined_sites_grouped(*voronoi_info, site2room@, res.1@),
{
    del_msh_core::elem2group::from_polygon_mesh(
        &voronoi_info.site2idx,
        |i_site, i_face| siteface2adjsitesameroom(voronoi_info, site2room, i_site, i_face),
    )
}

} // verus!
