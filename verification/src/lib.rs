pub mod ordered;
pub mod sorted;
pub mod voronoi2;
pub mod loss_topo;
pub mod elem2group;

use vstd::prelude::*;

verus! {

use crate::voronoi2::VoronoiInfo;
use crate::sorted::{range_filter, lemma_range_filter_push, lemma_range_filter};

/// Face `f` of the cell of site `i` is a wall: it separates site `i`, which lies in a
/// room, from a site of another room, and `i` is the lower of the two site indices,
/// so that each wall is seen once.
pub open spec fn is_wall_face(vi: VoronoiInfo, site2room: Seq<usize>, i: int, f: int) -> bool {
    let j = vi.neighbor(i, f);
    &&& site2room[i] != usize::MAX
    &&& j != usize::MAX
    &&& i < j
    &&& site2room[i] != site2room[j as int]
}

/// The two Voronoi vertices of face `f` of the cell of site `i`: its start and the
/// start of the next face around the cell.
pub open spec fn face_edge(vi: VoronoiInfo, i: int, f: int) -> Seq<usize> {
    seq![
        vi.idx2vtxv[vi.face_begin(i) + f],
        vi.idx2vtxv[vi.face_begin(i) + (f + 1) % vi.num_face(i)],
    ]
}

/// The vertex pairs of the walls among the first `nf` faces of the cell of site `i`.
pub open spec fn site_walls(vi: VoronoiInfo, site2room: Seq<usize>, i: int, nf: int) -> Seq<usize>
    decreases nf,
{
    if nf <= 0 {
        Seq::empty()
    } else {
        site_walls(vi, site2room, i, nf - 1) + if is_wall_face(vi, site2room, i, nf - 1) {
            face_edge(vi, i, nf - 1)
        } else {
            Seq::empty()
        }
    }
}

/// The vertex pairs of the walls of the first `ns` sites, site after site.
pub open spec fn walls(vi: VoronoiInfo, site2room: Seq<usize>, ns: int) -> Seq<usize>
    decreases ns,
{
    if ns <= 0 {
        Seq::empty()
    } else {
        walls(vi, site2room, ns - 1) + site_walls(vi, site2room, ns - 1, vi.num_face(ns - 1))
    }
}

/// A site outside every room has no wall.
proof fn lemma_site_walls_outside(vi: VoronoiInfo, site2room: Seq<usize>, i: int, nf: int)
    requires
        site2room[i] == usize::MAX,
    ensures
        site_walls(vi, site2room, i, nf) == Seq::<usize>::empty(),
    decreases nf,
{
    if nf > 0 {
        lemma_site_walls_outside(vi, site2room, i, nf - 1);
        assert(site_walls(vi, site2room, i, nf) =~= Seq::<usize>::empty());
    }
}

/// The walls between rooms: for each site in a room and each face of its cell that
/// borders a site of a higher index in another room, the two Voronoi vertices of the
/// face, one pair after the other.
#[verifier::loop_isolation(false)]
pub fn edge2vtvx_wall(voronoi_info: &VoronoiInfo, site2room: &[usize]) -> (edge2vtxv: Vec<usize>)
    requires
        voronoi_info.wf(),
        site2room.len() >= voronoi_info.num_site(),
    ensures
        edge2vtxv@ == walls(*voronoi_info, site2room@, voronoi_info.num_site()),
{
    let ghost vi = *voronoi_info;
    let site2idx = &voronoi_info.site2idx;
    let idx2vtxv = &voronoi_info.idx2vtxv;
    let mut edge2vtxv: Vec<usize> = Vec::new();
    let num_site = site2idx.len() - 1;
    for i_site in 0..num_site
        invariant
            edge2vtxv@ == walls(vi, site2room@, i_site as int),
    {
        let i_room = site2room[i_site];
        if i_room != usize::MAX {
            assert(site2idx[i_site as int] <= site2idx[i_site + 1]);
            let num_vtx_in_site = site2idx[i_site + 1] - site2idx[i_site];
            for i0_vtx in 0..num_vtx_in_site
                invariant
                    edge2vtxv@ == walls(vi, site2room@, i_site as int) + site_walls(
                        vi,
                        site2room@,
                        i_site as int,
                        i0_vtx as int,
                    ),
            {
                proof {
                    vi.lemma_face_in_range(i_site as int, i0_vtx as int);
                    vi.lemma_face_in_range(i_site as int, (i0_vtx as int + 1) % (num_vtx_in_site as int));
                }
                let i1_vtx = (i0_vtx + 1) % num_vtx_in_site;
                let idx = site2idx[i_site] + i0_vtx;
                let i0_vtxv = idx2vtxv[idx];
                let i1_vtxv = idx2vtxv[site2idx[i_site] + i1_vtx];
                let j_site = voronoi_info.idx2site[idx];
                if j_site != usize::MAX && i_site < j_site && i_room != site2room[j_site] {
                    edge2vtxv.push(i0_vtxv);
                    edge2vtxv.push(i1_vtxv);
                }
                assert(edge2vtxv@ =~= walls(vi, site2room@, i_site as int) + site_walls(
                    vi,
                    site2room@,
                    i_site as int,
                    i0_vtx + 1,
                ));
            }
        } else {
            proof {
                lemma_site_walls_outside(vi, site2room@, i_site as int, vi.num_face(i_site as int));
            }
        }
        assert(edge2vtxv@ =~= walls(vi, site2room@, i_site + 1));
    }
    edge2vtxv
}

/// Site `i` lies in a room and its cell has at least one wall face.
pub open spec fn site_has_wall(vi: VoronoiInfo, site2room: Seq<usize>, i: int) -> bool {
    exists|f: int| 0 <= f < vi.num_face(i) && #[trigger] is_wall_face(vi, site2room, i, f)
}

/// The walls of a site come in vertex pairs.
proof fn lemma_site_walls_even(vi: VoronoiInfo, site2room: Seq<usize>, i: int, nf: int)
    ensures
        site_walls(vi, site2room, i, nf).len() % 2 == 0,
    decreases nf,
{
    if nf > 0 {
        lemma_site_walls_even(vi, site2room, i, nf - 1);
    }
}

/// The walls of the sites come in vertex pairs.
proof fn lemma_walls_even(vi: VoronoiInfo, site2room: Seq<usize>, ns: int)
    ensures
        walls(vi, site2room, ns).len() % 2 == 0,
    decreases ns,
{
    if ns > 0 {
        lemma_walls_even(vi, site2room, ns - 1);
        lemma_site_walls_even(vi, site2room, ns - 1, vi.num_face(ns - 1));
    }
}

/// Pair `k` of the walls of site `i` is the vertex pair of a wall face `f` of its cell.
proof fn lemma_site_walls_pair(vi: VoronoiInfo, site2room: Seq<usize>, i: int, nf: int, k: int) -> (f: int)
    requires
        0 <= k,
        2 * k + 1 < site_walls(vi, site2room, i, nf).len(),
    ensures
        0 <= f < nf,
        is_wall_face(vi, site2room, i, f),
        site_walls(vi, site2room, i, nf)[2 * k] == face_edge(vi, i, f)[0],
        site_walls(vi, site2room, i, nf)[2 * k + 1] == face_edge(vi, i, f)[1],
    decreases nf,
{
    let prev = site_walls(vi, site2room, i, nf - 1);
    lemma_site_walls_even(vi, site2room, i, nf - 1);
    if 2 * k + 1 < prev.len() {
        lemma_site_walls_pair(vi, site2room, i, nf - 1, k)
    } else {
        nf - 1
    }
}

/// Law: each vertex pair that `edge2vtvx_wall` lists is the pair of a wall face: a face
/// between a site in a room and a site of higher index in another room.
pub proof fn lemma_walls_between_rooms(vi: VoronoiInfo, site2room: Seq<usize>, ns: int, k: int) -> (sf: (int, int))
    requires
        0 <= k,
        2 * k + 1 < walls(vi, site2room, ns).len(),
    ensures
        0 <= sf.0 < ns,
        0 <= sf.1 < vi.num_face(sf.0),
        is_wall_face(vi, site2room, sf.0, sf.1),
        walls(vi, site2room, ns)[2 * k] == face_edge(vi, sf.0, sf.1)[0],
        walls(vi, site2room, ns)[2 * k + 1] == face_edge(vi, sf.0, sf.1)[1],
        ({
            let (i, f) = sf;
            let begin = vi.site2idx[i] as int;
            let n = vi.site2idx[i + 1] - vi.site2idx[i];
            let j = vi.idx2site[begin + f];
            &&& site2room[i] != usize::MAX
            &&& j != usize::MAX
            &&& i < j
            &&& site2room[j as int] != site2room[i]
            &&& walls(vi, site2room, ns)[2 * k] == vi.idx2vtxv@[begin + f]
            &&& walls(vi, site2room, ns)[2 * k + 1] == vi.idx2vtxv@[begin + (f + 1) % n]
        }),
    decreases ns,
{
    let prev = walls(vi, site2room, ns - 1);
    lemma_walls_even(vi, site2room, ns - 1);
    if 2 * k + 1 < prev.len() {
        lemma_walls_between_rooms(vi, site2room, ns - 1, k)
    } else {
        let k1 = k - prev.len() / 2;
        let f = lemma_site_walls_pair(vi, site2room, ns - 1, vi.num_face(ns - 1), k1);
        (ns - 1, f)
    }
}

/// Face `f` of site `i` is a wall, so its vertex pair is among the walls of the first
/// `nf > f` faces of that site.
proof fn lemma_site_walls_complete(vi: VoronoiInfo, site2room: Seq<usize>, i: int, nf: int, f: int) -> (k: int)
    requires
        0 <= f < nf,
        is_wall_face(vi, site2room, i, f),
    ensures
        0 <= k,
        2 * k + 1 < site_walls(vi, site2room, i, nf).len(),
        site_walls(vi, site2room, i, nf)[2 * k] == face_edge(vi, i, f)[0],
        site_walls(vi, site2room, i, nf)[2 * k + 1] == face_edge(vi, i, f)[1],
    decreases nf,
{
    let prev = site_walls(vi, site2room, i, nf - 1);
    lemma_site_walls_even(vi, site2room, i, nf - 1);
    if f == nf - 1 {
        (prev.len() / 2) as int
    } else {
        lemma_site_walls_complete(vi, site2room, i, nf - 1, f)
    }
}

proof fn lemma_walls_complete_upto(vi: VoronoiInfo, site2room: Seq<usize>, ns: int, i: int, f: int) -> (k: int)
    requires
        0 <= i < ns,
        0 <= f < vi.num_face(i),
        is_wall_face(vi, site2room, i, f),
    ensures
        0 <= k,
        2 * k + 1 < walls(vi, site2room, ns).len(),
        walls(vi, site2room, ns)[2 * k] == face_edge(vi, i, f)[0],
        walls(vi, site2room, ns)[2 * k + 1] == face_edge(vi, i, f)[1],
    decreases ns,
{
    let prev = walls(vi, site2room, ns - 1);
    lemma_walls_even(vi, site2room, ns - 1);
    if i == ns - 1 {
        let k1 = lemma_site_walls_complete(vi, site2room, i, vi.num_face(i), f);
        (prev.len() / 2) as int + k1
    } else {
        lemma_walls_complete_upto(vi, site2room, ns - 1, i, f)
    }
}

/// Law: every face between a site in a room and a site of higher index in another room
/// is listed by `edge2vtvx_wall`: the start of the face and the start of the next face
/// around the cell appear as one vertex pair.
pub proof fn lemma_walls_complete(vi: VoronoiInfo, site2room: Seq<usize>, i: int, f: int) -> (k: int)
    requires
        0 <= i < vi.num_site(),
        0 <= f < vi.site2idx[i + 1] - vi.site2idx[i],
        site2room[i] != usize::MAX,
        vi.idx2site[vi.site2idx[i] + f] != usize::MAX,
        i < vi.idx2site[vi.site2idx[i] + f],
        site2room[vi.idx2site[vi.site2idx[i] + f] as int] != site2room[i],
    ensures
        0 <= k,
        2 * k + 1 < walls(vi, site2room, vi.num_site()).len(),
        walls(vi, site2room, vi.num_site())[2 * k] == vi.idx2vtxv@[vi.site2idx[i] + f],
        walls(vi, site2room, vi.num_site())[2 * k + 1] == vi.idx2vtxv@[vi.site2idx[i] + (f + 1) % (
        vi.site2idx[i + 1] - vi.site2idx[i])],
{
    lemma_walls_complete_upto(vi, site2room, vi.num_site(), i, f)
}

/// Law: a site is held out of the Lloyd relaxation exactly when it lies in a room and
/// some face of its cell, whichever, borders a site of higher index in another room.
pub proof fn lemma_held_sites_exact(vi: VoronoiInfo, site2room: Seq<usize>, i: int)
    ensures
        site_has_wall(vi, site2room, i) <==> (site2room[i] != usize::MAX && exists|f: int|
            0 <= f < vi.site2idx[i + 1] - vi.site2idx[i] && #[trigger] vi.idx2site[vi.site2idx[i] + f]
                != usize::MAX && i < vi.idx2site[vi.site2idx[i] + f] && site2room[vi.idx2site[
            vi.site2idx[i] + f] as int] != site2room[i]),
{
    if site_has_wall(vi, site2room, i) {
        let f = choose|f: int| 0 <= f < vi.num_face(i) && #[trigger] is_wall_face(vi, site2room, i, f);
        assert(vi.idx2site[vi.site2idx[i] + f] != usize::MAX);
    }
    if site2room[i] != usize::MAX && exists|f: int|
        0 <= f < vi.site2idx[i + 1] - vi.site2idx[i] && #[trigger] vi.idx2site[vi.site2idx[i] + f]
            != usize::MAX && i < vi.idx2site[vi.site2idx[i] + f] && site2room[vi.idx2site[
        vi.site2idx[i] + f] as int] != site2room[i] {
        let f = choose|f: int|
            0 <= f < vi.site2idx[i + 1] - vi.site2idx[i] && #[trigger] vi.idx2site[vi.site2idx[i] + f]
                != usize::MAX && i < vi.idx2site[vi.site2idx[i] + f] && site2room[vi.idx2site[
            vi.site2idx[i] + f] as int] != site2room[i];
        assert(is_wall_face(vi, site2room, i, f));
    }
}

/// For each site, whether its cell has a wall face: such sites are left out of the
/// Lloyd relaxation that pulls the other sites toward the centers of their cells.
#[verifier::loop_isolation(false)]
pub fn site2canmove(voronoi_info: &VoronoiInfo, site2room: &[usize]) -> (site2canmove: Vec<bool>)
    requires
        voronoi_info.wf_faces(),
        site2room.len() == voronoi_info.num_site(),
    ensures
        site2canmove.len() == site2room.len(),
        forall|i: int|
            0 <= i < site2room.len() ==> #[trigger] site2canmove[i] == site_has_wall(
                *voronoi_info,
                site2room@,
                i,
            ),
{
    let ghost vi = *voronoi_info;
    let num_site = site2room.len();
    let site2idx = &voronoi_info.site2idx;
    let mut site2canmove: Vec<bool> = Vec::new();
    for i_site in 0..num_site
        invariant
            site2canmove.len() == i_site,
            forall|i: int|
                0 <= i < i_site ==> #[trigger] site2canmove[i] == site_has_wall(vi, site2room@, i),
    {
        let mut can_move = false;
        assert(site2idx[i_site as int] <= site2idx[i_site + 1]);
        if site2idx[i_site + 1] != site2idx[i_site] {
            let i_room = site2room[i_site];
            if i_room != usize::MAX {
                let num_vtx_in_site = site2idx[i_site + 1] - site2idx[i_site];
                for i0_vtx in 0..num_vtx_in_site
                    invariant
                        can_move <==> exists|f: int|
                            0 <= f < i0_vtx && #[trigger] is_wall_face(vi, site2room@, i_site as int, f),
                {
                    proof {
                        vi.lemma_face_in_range(i_site as int, i0_vtx as int);
                    }
                    let idx = site2idx[i_site] + i0_vtx;
                    let j_site = voronoi_info.idx2site[idx];
                    if j_site != usize::MAX && i_site < j_site && i_room != site2room[j_site] {
                        can_move = true;
                    }
                    assert(is_wall_face(vi, site2room@, i_site as int, i0_vtx as int) == (j_site
                        != usize::MAX && i_site < j_site && i_room != site2room[j_site as int]));
                }
            }
        }
        site2canmove.push(can_move);
    }
    site2canmove
}

/// Law: the sites kept out of the Lloyd relaxation are exactly the sites whose cells
/// contribute wall edges to `edge2vtvx_wall`.
pub proof fn lemma_fixed_sites_are_wall_sites(vi: VoronoiInfo, site2room: Seq<usize>, i: int)
    ensures
        site_has_wall(vi, site2room, i) <==> site_walls(vi, site2room, i, vi.num_face(i)).len() > 0,
{
    lemma_site_walls_nonempty(vi, site2room, i, vi.num_face(i));
}

proof fn lemma_site_walls_nonempty(vi: VoronoiInfo, site2room: Seq<usize>, i: int, nf: int)
    ensures
        site_walls(vi, site2room, i, nf).len() > 0 <==> exists|f: int|
            0 <= f < nf && #[trigger] is_wall_face(vi, site2room, i, f),
    decreases nf,
{
    if nf > 0 {
        lemma_site_walls_nonempty(vi, site2room, i, nf - 1);
        if is_wall_face(vi, site2room, i, nf - 1) {
            assert(site_walls(vi, site2room, i, nf).len() >= 2);
        }
    }
}

/// The site-to-room incidence matrix: row `r` marks the sites of room `r`, so that
/// multiplying it with the areas of the cells sums the area of each room.
#[verifier::loop_isolation(false)]
pub fn sum_sites_for_rooms(site2room: &[usize], num_room: usize) -> (matrix: Vec<bool>)
    requires
        num_room * site2room.len() <= usize::MAX,
        forall|i: int|
            0 <= i < site2room.len() ==> #[trigger] site2room[i] == usize::MAX || site2room[i]
                < num_room,
    ensures
        matrix.len() == num_room * site2room.len(),
        forall|r: int, i: int|
            0 <= r < num_room && 0 <= i < site2room.len() ==> #[trigger] matrix[r * site2room.len()
                + i] == (site2room[i] == r),
{
    let num_site = site2room.len();
    let mut matrix: Vec<bool> = vec![false; num_site * num_room];
    assert(num_site * num_room == num_room * num_site) by (nonlinear_arith);
    assert forall|k: int| 0 <= k < matrix.len() implies #[trigger] matrix[k] == false by {
        assert(cloned(false, matrix@[k]));
        if num_site == 0 {
            assert(num_room * num_site == 0) by (nonlinear_arith)
                requires
                    num_site == 0,
            ;
        }
        assert(k % (num_site as int) >= 0);
    }
    for i_site in 0..num_site
        invariant
            matrix.len() == num_room * num_site,
            forall|k: int|
                0 <= k < matrix.len() ==> #[trigger] matrix[k] == (k % (num_site as int) < i_site
                    && site2room[k % (num_site as int)] == k / (num_site as int)),
    {
        let i_room = site2room[i_site];
        if i_room != usize::MAX {
            assert(i_room * num_site + i_site < num_room * num_site) by (nonlinear_arith)
                requires
                    i_room < num_room,
                    i_site < num_site,
            ;
            let k0 = i_room * num_site + i_site;
            matrix.set(k0, true);
            proof {
                vstd::arithmetic::div_mod::lemma_fundamental_div_mod_converse(
                    k0 as int,
                    num_site as int,
                    i_room as int,
                    i_site as int,
                );
                assert forall|k: int| 0 <= k < matrix.len() implies #[trigger] matrix[k] == (k % (
                num_site as int) < i_site + 1 && site2room[k % (num_site as int)] == k / (
                num_site as int)) by {
                    vstd::arithmetic::div_mod::lemma_fundamental_div_mod(k, num_site as int);
                    if k % (num_site as int) == i_site && site2room[i_site as int] == k / (
                    num_site as int) {
                        let q = k / (num_site as int);
                        let m = k % (num_site as int);
                        assert(k == k0) by (nonlinear_arith)
                            requires
                                k == (num_site as int) * q + m,
                                m == i_site,
                                q == i_room,
                                k0 == i_room * num_site + i_site,
                        ;
                    }
                }
            }
        }
    }
    proof {
        assert forall|r: int, i: int|
            0 <= r < num_room && 0 <= i < num_site implies #[trigger] matrix[r * num_site + i] == (
        site2room[i] == r) by {
            assert(r * num_site + i < num_room * num_site) by (nonlinear_arith)
                requires
                    r < num_room,
                    i < num_site,
            ;
            vstd::arithmetic::div_mod::lemma_fundamental_div_mod_converse(
                r * num_site + i,
                num_site as int,
                r,
                i,
            );
        }
    }
    matrix
}

/// The pass of site `i`: where site `i` lies in a room, each later site of the same
/// room that is too close to it leaves its room (becomes `usize::MAX`).
pub open spec fn remove_close_to(rooms: Seq<usize>, is_close: Seq<Vec<bool>>, i: int) -> Seq<usize> {
    if rooms[i] == usize::MAX {
        rooms
    } else {
        Seq::new(
            rooms.len(),
            |j: int|
                if i < j && rooms[j] == rooms[i] && is_close[i][j] {
                    usize::MAX
                } else {
                    rooms[j]
                },
        )
    }
}

/// The rooms after the passes of sites `0..k`, in that order.
pub open spec fn remove_close_upto(rooms: Seq<usize>, is_close: Seq<Vec<bool>>, k: int) -> Seq<usize>
    decreases k,
{
    if k <= 0 {
        rooms
    } else {
        remove_close_to(remove_close_upto(rooms, is_close, k - 1), is_close, k - 1)
    }
}

/// `is_close` is a square matrix over the sites of `rooms`.
pub open spec fn is_site_matrix(rooms: Seq<usize>, is_close: Seq<Vec<bool>>) -> bool {
    &&& is_close.len() == rooms.len()
    &&& forall|i: int| 0 <= i < is_close.len() ==> #[trigger] is_close[i].len() == rooms.len()
}

/// Takes out of their room the sites that are too close to a site of lower index in
/// the same room. `is_close[i][j]` tells whether sites `i` and `j` are too close.
#[verifier::loop_isolation(false)]
pub fn remove_site_too_close(site2room: &mut Vec<usize>, is_close: &Vec<Vec<bool>>)
    requires
        is_site_matrix(old(site2room)@, is_close@),
    ensures
        final(site2room)@ == remove_close_upto(old(site2room)@, is_close@, old(site2room)@.len() as int),
{
    let ghost rooms0 = site2room@;
    let num_site = site2room.len();
    for i_site in 0..num_site
        invariant
            site2room.len() == num_site,
            site2room@ == remove_close_upto(rooms0, is_close@, i_site as int),
    {
        let ghost before = site2room@;
        let i_room = site2room[i_site];
        if i_room != usize::MAX {
            let mut j_site = i_site + 1;
            while j_site < num_site
                invariant
                    i_site < j_site <= num_site,
                    site2room.len() == num_site,
                    i_room == before[i_site as int],
                    forall|j: int|
                        0 <= j < num_site ==> #[trigger] site2room@[j] == if j < j_site {
                            remove_close_to(before, is_close@, i_site as int)[j]
                        } else {
                            before[j]
                        },
                decreases num_site - j_site,
            {
                let j_room = site2room[j_site];
                assert(is_close@[i_site as int].len() == rooms0.len());
                if j_room != usize::MAX && i_room == j_room && is_close[i_site][j_site] {
                    site2room.set(j_site, usize::MAX);
                }
                j_site = j_site + 1;
            }
        }
        assert(site2room@ =~= remove_close_to(before, is_close@, i_site as int));
    }
}

proof fn lemma_remove_close_upto_len(rooms: Seq<usize>, is_close: Seq<Vec<bool>>, k: int)
    ensures
        remove_close_upto(rooms, is_close, k).len() == rooms.len(),
    decreases k,
{
    if k > 0 {
        lemma_remove_close_upto_len(rooms, is_close, k - 1);
    }
}

/// Law: taking out close sites never moves a site into another room: after the
/// passes of any number of sites, each site has kept its room or left it.
pub proof fn lemma_remove_close_only_clears(
    rooms: Seq<usize>,
    is_close: Seq<Vec<bool>>,
    k: int,
    j: int,
)
    requires
        0 <= j < rooms.len(),
    ensures
        remove_close_upto(rooms, is_close, k).len() == rooms.len(),
        remove_close_upto(rooms, is_close, k)[j] == rooms[j] || remove_close_upto(
            rooms,
            is_close,
            k,
        )[j] == usize::MAX,
    decreases k,
{
    lemma_remove_close_upto_len(rooms, is_close, k);
    if k > 0 {
        lemma_remove_close_only_clears(rooms, is_close, k - 1, j);
    }
}

/// The pair `(i, j)` is settled after the passes of `k > i` sites: if both are still
/// in the same room, they are not too close.
proof fn lemma_pair_settled(rooms: Seq<usize>, is_close: Seq<Vec<bool>>, i: int, j: int, k: int)
    requires
        0 <= i < j < rooms.len(),
        i < k,
    ensures
        ({
            let r = remove_close_upto(rooms, is_close, k);
            r[i] != usize::MAX && r[i] == r[j] ==> !is_close[i][j]
        }),
    decreases k,
{
    lemma_remove_close_upto_len(rooms, is_close, k - 1);
    if k - 1 > i {
        lemma_pair_settled(rooms, is_close, i, j, k - 1);
    }
}

/// Law: once every site has had its pass, no two sites left in one room are too close.
pub proof fn lemma_remove_close_separates(rooms: Seq<usize>, is_close: Seq<Vec<bool>>, i: int, j: int)
    requires
        0 <= i < j < rooms.len(),
    ensures
        ({
            let r = remove_close_upto(rooms, is_close, rooms.len() as int);
            r[i] != usize::MAX && r[i] == r[j] ==> !is_close[i][j]
        }),
{
    lemma_pair_settled(rooms, is_close, i, j, rooms.len() as int);
}

/// Law: taking out the close sites a second time changes nothing.
pub proof fn lemma_remove_close_idempotent(rooms: Seq<usize>, is_close: Seq<Vec<bool>>)
    ensures
        ({
            let r = remove_close_upto(rooms, is_close, rooms.len() as int);
            remove_close_upto(r, is_close, r.len() as int) == r
        }),
{
    let n = rooms.len() as int;
    lemma_remove_close_upto_len(rooms, is_close, n);
    lemma_fixed_point(rooms, is_close, n);
}

proof fn lemma_fixed_point(rooms: Seq<usize>, is_close: Seq<Vec<bool>>, k: int)
    requires
        0 <= k <= rooms.len(),
    ensures
        ({
            let r = remove_close_upto(rooms, is_close, rooms.len() as int);
            remove_close_upto(r, is_close, k) == r
        }),
    decreases k,
{
    let n = rooms.len() as int;
    let r = remove_close_upto(rooms, is_close, n);
    lemma_remove_close_upto_len(rooms, is_close, n);
    if k > 0 {
        lemma_fixed_point(rooms, is_close, k - 1);
        let i = k - 1;
        if r[i] != usize::MAX {
            assert forall|j: int| 0 <= j < r.len() implies #[trigger] remove_close_to(r, is_close, i)[j]
                == r[j] by {
                if i < j && r[j] == r[i] {
                    lemma_remove_close_separates(rooms, is_close, i, j);
                }
            }
            assert(remove_close_to(r, is_close, i) =~= r);
        }
    }
}

/// The Voronoi vertices of the cell of site `i`, in order around the cell.
pub open spec fn cell_vertices(vi: VoronoiInfo, i: int) -> Seq<usize> {
    vi.idx2vtxv@.subrange(vi.site2idx[i] as int, vi.site2idx[i + 1] as int)
}

/// The Voronoi vertices of the cell of `i_site`, in order around the cell.
pub fn cell_polygon(voronoi_info: &VoronoiInfo, i_site: usize) -> (vtxs: Vec<usize>)
    requires
        voronoi_info.wf_vertices(),
        i_site < voronoi_info.num_site(),
    ensures
        vtxs@ == cell_vertices(*voronoi_info, i_site as int),
{
    let begin = voronoi_info.site2idx[i_site];
    let end = voronoi_info.site2idx[i_site + 1];
    assert(begin <= end <= voronoi_info.site2idx[voronoi_info.num_site()]);
    let mut vtxs: Vec<usize> = Vec::new();
    let mut idx = begin;
    while idx < end
        invariant
            begin <= idx <= end <= voronoi_info.idx2vtxv.len(),
            vtxs@ == voronoi_info.idx2vtxv@.subrange(begin as int, idx as int),
        decreases end - idx,
    {
        vtxs.push(voronoi_info.idx2vtxv[idx]);
        assert(vtxs@ =~= voronoi_info.idx2vtxv@.subrange(begin as int, idx + 1));
        idx = idx + 1;
    }
    vtxs
}

/// The vertex pairs of all faces of the cell of site `i`, face after face.
pub open spec fn cell_boundary(vi: VoronoiInfo, i: int) -> Seq<usize> {
    Seq::new(vi.num_face(i) as nat, |f: int| face_edge(vi, i, f)).flatten()
}

/// The vertex pairs of the faces of the cells of the first `ns` sites.
pub open spec fn cell_boundaries(vi: VoronoiInfo, ns: nat) -> Seq<usize> {
    Seq::new(ns, |i: int| cell_boundary(vi, i)).flatten()
}

/// The boundaries of all cells: for each site and each face of its cell, the two Voronoi
/// vertices of the face, one pair after the other.
#[verifier::loop_isolation(false)]
pub fn cell_edges(voronoi_info: &VoronoiInfo) -> (edge2vtxv: Vec<usize>)
    requires
        voronoi_info.wf_vertices(),
    ensures
        edge2vtxv@ == cell_boundaries(*voronoi_info, voronoi_info.num_site() as nat),
{
    let ghost vi = *voronoi_info;
    let ghost fb = |i: int| cell_boundary(vi, i);
    let site2idx = &voronoi_info.site2idx;
    let idx2vtxv = &voronoi_info.idx2vtxv;
    let num_site = site2idx.len() - 1;
    let mut edge2vtxv: Vec<usize> = Vec::new();
    for i_site in 0..num_site
        invariant
            edge2vtxv@ == Seq::new(i_site as nat, fb).flatten(),
    {
        assert(site2idx[i_site as int] <= site2idx[i_site + 1]);
        let num_vtx_in_site = site2idx[i_site + 1] - site2idx[i_site];
        let ghost prev = edge2vtxv@;
        let ghost fe = |f: int| face_edge(vi, i_site as int, f);
        for i0_vtx in 0..num_vtx_in_site
            invariant
                edge2vtxv@ == prev + Seq::new(i0_vtx as nat, fe).flatten(),
        {
            proof {
                vi.lemma_face_in_range(i_site as int, i0_vtx as int);
                vi.lemma_face_in_range(i_site as int, (i0_vtx as int + 1) % (num_vtx_in_site as int));
            }
            let i1_vtx = (i0_vtx + 1) % num_vtx_in_site;
            let i0 = idx2vtxv[site2idx[i_site] + i0_vtx];
            let i1 = idx2vtxv[site2idx[i_site] + i1_vtx];
            edge2vtxv.push(i0);
            edge2vtxv.push(i1);
            proof {
                assert(Seq::new((i0_vtx + 1) as nat, fe) =~= Seq::new(i0_vtx as nat, fe).push(fe(i0_vtx as int)));
                Seq::new(i0_vtx as nat, fe).lemma_flatten_push(fe(i0_vtx as int));
                assert(edge2vtxv@ =~= prev + Seq::new((i0_vtx + 1) as nat, fe).flatten());
            }
        }
        proof {
            assert(Seq::new(num_vtx_in_site as nat, fe) =~= Seq::new(vi.num_face(i_site as int) as nat, |f: int| face_edge(vi, i_site as int, f)));
            assert(Seq::new((i_site + 1) as nat, fb) =~= Seq::new(i_site as nat, fb).push(fb(i_site as int)));
            Seq::new(i_site as nat, fb).lemma_flatten_push(fb(i_site as int));
        }
    }
    edge2vtxv
}

/// Site `i` lies in a room and its cell has a face, so that the cell is filled.
pub open spec fn is_filled(vi: VoronoiInfo, site2room: Seq<usize>) -> spec_fn(usize) -> bool {
    |i: usize| site2room[i as int] != usize::MAX && vi.num_face(i as int) > 0
}

/// Site `i` with the palette entry of its room.
pub open spec fn with_room_color(site2room: Seq<usize>) -> spec_fn(usize) -> (usize, u8) {
    |i: usize| (i, (site2room[i as int] + 2) as u8)
}

/// The cells to fill when painting: each site in a room whose cell has a face, in
/// increasing order, with the palette entry of its room.
#[verifier::loop_isolation(false)]
pub fn filled_cells(voronoi_info: &VoronoiInfo, site2room: &[usize]) -> (cells: Vec<(usize, u8)>)
    requires
        voronoi_info.offsets_sorted(),
        site2room.len() >= voronoi_info.num_site(),
        forall|i: int|
            0 <= i < voronoi_info.num_site() ==> #[trigger] site2room[i] == usize::MAX || site2room[i]
                + 2 <= u8::MAX,
    ensures
        cells@ == range_filter(voronoi_info.num_site() as nat, is_filled(*voronoi_info, site2room@)).map_values(
            with_room_color(site2room@),
        ),
{
    let ghost p = is_filled(*voronoi_info, site2room@);
    let ghost m = with_room_color(site2room@);
    let site2idx = &voronoi_info.site2idx;
    let num_site = site2idx.len() - 1;
    let mut cells: Vec<(usize, u8)> = Vec::new();
    for i_site in 0..num_site
        invariant
            cells@ == range_filter(i_site as nat, p).map_values(m),
    {
        let i_room = site2room[i_site];
        if i_room != usize::MAX {
            let i_color = room_palette_index(i_room);
            assert(site2idx[i_site as int] <= site2idx[i_site + 1]);
            if site2idx[i_site + 1] != site2idx[i_site] {
                cells.push((i_site, i_color));
            }
        }
        proof {
            lemma_range_filter_push(i_site as nat, p);
            let prev = range_filter(i_site as nat, p);
            if p(i_site) {
                assert(prev.push(i_site).map_values(m) =~= prev.map_values(m).push(m(i_site)));
            }
            assert(cells@ =~= range_filter((i_site + 1) as nat, p).map_values(m));
        }
    }
    cells
}

/// Law: a site is listed among the filled cells exactly when it lies in a room and its
/// cell has a face; it is listed with the palette entry of its room, once, and the sites
/// come in increasing order.
pub proof fn lemma_filled_cells_exact(vi: VoronoiInfo, site2room: Seq<usize>, i: int)
    requires
        0 <= vi.num_site() <= usize::MAX,
        0 <= i < vi.num_site(),
    ensures
        ({
            let cells = range_filter(vi.num_site() as nat, is_filled(vi, site2room)).map_values(
                with_room_color(site2room),
            );
            &&& (exists|k: int| 0 <= k < cells.len() && #[trigger] cells[k].0 == i) <==> (site2room[i]
                != usize::MAX && vi.site2idx[i + 1] > vi.site2idx[i])
            &&& forall|k: int|
                0 <= k < cells.len() ==> #[trigger] cells[k].0 < vi.num_site() && cells[k].1 == (
                site2room[cells[k].0 as int] + 2) as u8 && site2room[cells[k].0 as int] != usize::MAX
            &&& forall|k1: int, k2: int| 0 <= k1 < k2 < cells.len() ==> cells[k1].0 < cells[k2].0
        }),
{
    let p = is_filled(vi, site2room);
    let sites = range_filter(vi.num_site() as nat, p);
    lemma_range_filter(vi.num_site() as nat, p);
    let cells = sites.map_values(with_room_color(site2room));
    assert forall|k: int| 0 <= k < cells.len() implies #[trigger] cells[k].0 < vi.num_site() && cells[k].1
        == (site2room[cells[k].0 as int] + 2) as u8 && site2room[cells[k].0 as int] != usize::MAX by {
        assert(sites.contains(sites[k]));
    }
    if site2room[i] != usize::MAX && vi.site2idx[i + 1] > vi.site2idx[i] {
        assert(p(i as usize));
        assert(sites.contains(i as usize));
        let k = choose|k: int| 0 <= k < sites.len() && sites[k] == i as usize;
        assert(cells[k].0 == i);
    }
    if exists|k: int| 0 <= k < cells.len() && #[trigger] cells[k].0 == i {
        let k = choose|k: int| 0 <= k < cells.len() && #[trigger] cells[k].0 == i;
        assert(sites.contains(sites[k]));
    }
}

/// The palette entry of room `i_room`: the first two entries are the background and the
/// lines, the rooms follow.
pub fn room_palette_index(i_room: usize) -> (idx: u8)
    requires
        i_room + 2 <= u8::MAX,
    ensures
        idx == i_room + 2,
{
    (i_room + 2) as u8
}

} // verus!
