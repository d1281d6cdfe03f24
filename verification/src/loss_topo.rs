use std::collections::BTreeSet;
use vstd::prelude::*;

verus! {

use crate::sorted::{
    strictly_increasing, range_filter, lemma_range_filter, lemma_increasing_unique,
    lemma_filter_increasing,
};
use crate::ordered::{lemma_usize_ordered, set_to_sorted_vec};
use crate::voronoi2::VoronoiInfo;
use crate::elem2group::{group_sites, site_groups};

/// The indices `i` with `map[i] == value`, in increasing order.
pub open spec fn indices_with(map: Seq<usize>, value: usize) -> Seq<usize> {
    range_filter(map.len(), holds_value(map, value))
}

/// Whether index `i` of `map` holds `value`.
pub open spec fn holds_value(map: Seq<usize>, value: usize) -> spec_fn(usize) -> bool {
    |i: usize| map[i as int] == value
}

/// A sequence of distinct, increasing numbers holding exactly the indices of
/// `map` that hold `value` is `indices_with(map, value)`.
proof fn lemma_indices_with(s: Seq<usize>, map: Seq<usize>, value: usize)
    requires
        map.len() <= usize::MAX,
        strictly_increasing(s),
        forall|x: usize| s.contains(x) <==> (x < map.len() && map[x as int] == value),
    ensures
        s == indices_with(map, value),
{
    lemma_range_filter(map.len(), holds_value(map, value));
    lemma_increasing_unique(s, indices_with(map, value));
}

/// Turns a map from sites to groups into the list of the sites of each group.
/// Sites mapped to `usize::MAX` belong to no group; each list is in increasing order.
pub fn inverse_map(num_group: usize, site2group: &[usize]) -> (group2site: Vec<Vec<usize>>)
    requires
        forall|i: int|
            0 <= i < site2group.len() ==> #[trigger] site2group[i] == usize::MAX || site2group[i]
                < num_group,
    ensures
        group2site.len() == num_group,
        forall|g: int|
            0 <= g < num_group ==> #[trigger] group2site[g]@ == indices_with(site2group@, g as usize),
{
    proof {
        lemma_usize_ordered();
    }
    let mut group2set: Vec<BTreeSet<usize>> = Vec::new();
    for g in 0..num_group
        invariant
            group2set.len() == g,
            forall|k: int| 0 <= k < g ==> #[trigger] group2set[k]@ == Set::<usize>::empty(),
    {
        group2set.push(BTreeSet::new());
    }
    let num_site = site2group.len();
    for i_site in 0..num_site
        invariant
            num_site == site2group.len(),
            group2set.len() == num_group,
            forall|i: int|
                0 <= i < site2group.len() ==> #[trigger] site2group[i] == usize::MAX || site2group[i]
                    < num_group,
            forall|g: int|
                0 <= g < num_group ==> #[trigger] group2set[g]@ == Set::new(
                    |i: usize| i < i_site && site2group[i as int] == g,
                ),
    {
        let i_group = site2group[i_site];
        let ghost before = group2set@;
        if i_group != usize::MAX {
            group2set[i_group].insert(i_site);
        }
        assert forall|g: int| 0 <= g < num_group implies #[trigger] group2set[g]@ == Set::new(
            |i: usize| i < i_site + 1 && site2group[i as int] == g,
        ) by {
            if g == i_group && i_group != usize::MAX {
                assert(group2set[g]@ =~= Set::new(
                    |i: usize| i < i_site + 1 && site2group[i as int] == g,
                ));
            } else {
                assert(group2set[g] == before[g]);
                assert(group2set[g]@ =~= Set::new(
                    |i: usize| i < i_site + 1 && site2group[i as int] == g,
                ));
            }
        }
    }
    let mut group2site: Vec<Vec<usize>> = Vec::new();
    for g in 0..num_group
        invariant
            num_site == site2group.len(),
            group2set.len() == num_group,
            group2site.len() == g,
            forall|k: int|
                0 <= k < num_group ==> #[trigger] group2set[k]@ == Set::new(
                    |i: usize| i < num_site && site2group[i as int] == k,
                ),
            forall|k: int| 0 <= k < g ==> #[trigger] group2site[k]@ == indices_with(site2group@, k as usize),
    {
        let sites = set_to_sorted_vec(&group2set[g]);
        proof {
            assert forall|x: usize| sites@.contains(x) <==> (x < site2group@.len() && site2group@[x as int] == g) by {
                assert(sites@.to_set().contains(x) == sites@.contains(x));
            }
            lemma_indices_with(sites@, site2group@, g);
        }
        group2site.push(sites);
    }
    group2site
}

/// Every neighbour of a site in a room is in a room too.
pub open spec fn neighbors_in_rooms(vi: VoronoiInfo, site2room: Seq<usize>) -> bool {
    forall|i: int, f: int|
        0 <= i < vi.num_site() && 0 <= f < vi.num_face(i) && site2room[i] != usize::MAX
            && vi.neighbor(i, f) != usize::MAX ==> site2room[#[trigger] vi.neighbor(i, f) as int]
            != usize::MAX
}

/// The site across face `f` of the cell of site `i` where it lies in the same room
/// as site `i`, else `usize::MAX`.
pub open spec fn same_room_neighbor(vi: VoronoiInfo, site2room: Seq<usize>, i: int, f: int) -> usize {
    let j = vi.neighbor(i, f);
    if site2room[i] == usize::MAX || j == usize::MAX || site2room[i] != site2room[j as int] {
        usize::MAX
    } else {
        j
    }
}

/// The site across face `i_face` of the cell of `i_site` if both lie in the same
/// room, else `usize::MAX`.
pub fn siteface2adjsitesameroom(
    voronoi_info: &VoronoiInfo,
    site2room: &[usize],
    i_site: usize,
    i_face: usize,
) -> (j: usize)
    requires
        voronoi_info.wf_faces(),
        site2room.len() == voronoi_info.num_site(),
        neighbors_in_rooms(*voronoi_info, site2room@),
        i_site < voronoi_info.num_site(),
        i_face < voronoi_info.num_face(i_site as int),
    ensures
        j == same_room_neighbor(*voronoi_info, site2room@, i_site as int, i_face as int),
{
    proof {
        voronoi_info.lemma_face_in_range(i_site as int, i_face as int);
    }
    let i_room = site2room[i_site];
    if i_room == usize::MAX {
        return usize::MAX;
    }
    let j_site = voronoi_info.idx2site[voronoi_info.site2idx[i_site] + i_face];
    if j_site == usize::MAX {
        return usize::MAX;
    }
    let j_room = site2room[j_site];
    if i_room != j_room {
        return usize::MAX;
    }
    j_site
}

/// Sites of one group lie in one room.
pub open spec fn groups_within_rooms(site2room: Seq<usize>, site2group: Seq<usize>) -> bool {
    forall|i: int, j: int|
        0 <= i < site2group.len() && 0 <= j < site2group.len() && #[trigger] site2group[i]
            == #[trigger] site2group[j] ==> site2room[i] == site2room[j]
}

/// A site outside every room is alone in its group.
pub open spec fn outside_sites_alone(site2room: Seq<usize>, site2group: Seq<usize>) -> bool {
    forall|i: int, j: int|
        0 <= i < site2group.len() && 0 <= j < site2group.len() && i != j && site2room[i]
            == usize::MAX ==> #[trigger] site2group[i] != #[trigger] site2group[j]
}

/// Two sites joined across a face of a cell, in the same room, share a group.
pub open spec fn joined_sites_grouped(vi: VoronoiInfo, site2room: Seq<usize>, site2group: Seq<usize>) -> bool {
    forall|i: int, f: int|
        0 <= i < vi.num_site() && 0 <= f < vi.num_face(i) && #[trigger] same_room_neighbor(
            vi,
            site2room,
            i,
            f,
        ) != usize::MAX ==> site2group[same_room_neighbor(vi, site2room, i, f) as int]
            == site2group[i]
}

/// Sites `a` and `b` are joined across a face of the cell of one of them, within a room.
pub open spec fn face_linked(vi: VoronoiInfo, site2room: Seq<usize>, a: int, b: int) -> bool {
    ||| exists|f: int| 0 <= f < vi.num_face(a) && #[trigger] same_room_neighbor(vi, site2room, a, f) == b
    ||| exists|f: int| 0 <= f < vi.num_face(b) && #[trigger] same_room_neighbor(vi, site2room, b, f) == a
}

/// `path` is a chain of sites, each joined to the next across a face within a room.
pub open spec fn is_room_chain(vi: VoronoiInfo, site2room: Seq<usize>, path: Seq<usize>) -> bool {
    &&& path.len() >= 1
    &&& forall|t: int| 0 <= t < path.len() ==> #[trigger] path[t] < vi.num_site()
    &&& forall|t: int|
        0 <= t < path.len() - 1 ==> face_linked(vi, site2room, #[trigger] path[t] as int, path[t + 1] as int)
}

/// Two sites of one group are joined by a chain of sites of one room, each joined to the
/// next across a face.
pub open spec fn groups_face_connected(vi: VoronoiInfo, site2room: Seq<usize>, site2group: Seq<usize>) -> bool {
    forall|i: int, j: int|
        0 <= i < site2group.len() && 0 <= j < site2group.len() && #[trigger] site2group[i]
            == #[trigger] site2group[j] ==> exists|path: Seq<usize>|
            #[trigger] is_room_chain(vi, site2room, path) && path[0] == i && path.last() == j
}

/// The groups of the sites of room `r`, in increasing order.
pub open spec fn groups_of_room(
    site2room: Seq<usize>,
    site2group: Seq<usize>,
    num_group: nat,
    r: usize,
) -> Seq<usize> {
    range_filter(num_group, room_has_group(site2room, site2group, r))
}

/// Some site of room `r` is in group `g`.
pub open spec fn room_has_group(site2room: Seq<usize>, site2group: Seq<usize>, r: usize) -> spec_fn(
    usize,
) -> bool {
    |g: usize| exists|i: int| 0 <= i < site2room.len() && site2room[i] == r && site2group[i] == g
}

/// For each room, the groups of its sites, in increasing order.
pub fn room2group(
    num_room: usize,
    num_group: usize,
    site2room: &[usize],
    site2group: &[usize],
) -> (room2group: Vec<Vec<usize>>)
    requires
        site2group.len() == site2room.len(),
        forall|i: int|
            0 <= i < site2room.len() ==> #[trigger] site2room[i] == usize::MAX || site2room[i]
                < num_room,
        forall|i: int| 0 <= i < site2group.len() ==> #[trigger] site2group[i] < num_group,
    ensures
        room2group.len() == num_room,
        forall|r: int|
            0 <= r < num_room ==> #[trigger] room2group[r]@ == groups_of_room(
                site2room@,
                site2group@,
                num_group as nat,
                r as usize,
            ),
{
    proof {
        lemma_usize_ordered();
    }
    let mut room2set: Vec<BTreeSet<usize>> = Vec::new();
    for r in 0..num_room
        invariant
            room2set.len() == r,
            forall|k: int| 0 <= k < r ==> #[trigger] room2set[k]@ == Set::<usize>::empty(),
    {
        room2set.push(BTreeSet::new());
    }
    let num_site = site2room.len();
    for i_site in 0..num_site
        invariant
            num_site == site2room.len(),
            site2group.len() == site2room.len(),
            room2set.len() == num_room,
            forall|i: int|
                0 <= i < site2room.len() ==> #[trigger] site2room[i] == usize::MAX || site2room[i]
                    < num_room,
            forall|i: int| 0 <= i < site2group.len() ==> #[trigger] site2group[i] < num_group,
            forall|r: int|
                0 <= r < num_room ==> #[trigger] room2set[r]@ == Set::new(
                    |g: usize|
                        exists|i: int|
                            0 <= i < i_site && site2room[i] == r && site2group[i] == g,
                ),
    {
        let i_room = site2room[i_site];
        let ghost before = room2set@;
        if i_room != usize::MAX {
            let i_group = site2group[i_site];
            room2set[i_room].insert(i_group);
        }
        assert forall|r: int| 0 <= r < num_room implies #[trigger] room2set[r]@ == Set::new(
            |g: usize| exists|i: int| 0 <= i < i_site + 1 && site2room[i] == r && site2group[i] == g,
        ) by {
            let target = Set::new(
                |g: usize|
                    exists|i: int| 0 <= i < i_site + 1 && site2room[i] == r && site2group[i] == g,
            );
            assert forall|g: usize| #[trigger] room2set[r]@.contains(g) == target.contains(g) by {
                if target.contains(g) {
                    let i = choose|i: int|
                        0 <= i < i_site + 1 && site2room[i] == r && site2group[i] == g;
                    if i < i_site {
                        assert(before[r]@.contains(g));
                    }
                }
                if before[r]@.contains(g) {
                    let i = choose|i: int|
                        0 <= i < i_site && site2room[i] == r && site2group[i] == g;
                    assert(target.contains(g));
                }
            }
            assert(room2set[r]@ =~= target);
        }
    }
    let mut room2group: Vec<Vec<usize>> = Vec::new();
    for r in 0..num_room
        invariant
            num_site == site2room.len(),
            site2group.len() == site2room.len(),
            room2set.len() == num_room,
            forall|i: int| 0 <= i < site2group.len() ==> #[trigger] site2group[i] < num_group,
            room2group.len() == r,
            forall|k: int|
                0 <= k < num_room ==> #[trigger] room2set[k]@ == Set::new(
                    |g: usize|
                        exists|i: int| 0 <= i < num_site && site2room[i] == k && site2group[i] == g,
                ),
            forall|k: int|
                0 <= k < r ==> #[trigger] room2group[k]@ == groups_of_room(
                    site2room@,
                    site2group@,
                    num_group as nat,
                    k as usize,
                ),
    {
        let groups = set_to_sorted_vec(&room2set[r]);
        proof {
            let p = room_has_group(site2room@, site2group@, r as usize);
            lemma_range_filter(num_group as nat, p);
            assert forall|g: usize| groups@.contains(g) <==> groups_of_room(
                site2room@,
                site2group@,
                num_group as nat,
                r as usize,
            ).contains(g) by {
                assert(groups@.to_set().contains(g) == groups@.contains(g));
                if groups@.contains(g) {
                    let i = choose|i: int|
                        0 <= i < num_site && site2room[i] == r && site2group[i] == g;
                    assert(site2group[i] < num_group);
                }
            }
            lemma_increasing_unique(
                groups@,
                groups_of_room(site2room@, site2group@, num_group as nat, r as usize),
            );
        }
        room2group.push(groups);
    }
    room2group
}

/// The connected pieces of the rooms: the number of groups, the group of each site, and
/// for each room the groups of its sites in increasing order.
pub fn topology(voronoi_info: &VoronoiInfo, num_room: usize, site2room: &[usize]) -> (res: (
    usize,
    Vec<usize>,
    Vec<Vec<usize>>,
))
    requires
        voronoi_info.wf_faces(),
        site2room.len() == voronoi_info.num_site(),
        forall|i: int|
            0 <= i < site2room.len() ==> #[trigger] site2room[i] == usize::MAX || site2room[i]
                < num_room,
        neighbors_in_rooms(*voronoi_info, site2room@),
    ensures
        (res.0, res.1@) == site_groups(voronoi_info.site2idx@, voronoi_info.idx2site@, site2room@),
        res.1.len() == site2room.len(),
        forall|i: int| 0 <= i < res.1.len() ==> #[trigger] res.1[i] < res.0,
        groups_within_rooms(site2room@, res.1@),
        outside_sites_alone(site2room@, res.1@),
        groups_face_connected(*voronoi_info, site2room@, res.1@),
        voronoi_info.faces_symmetric() ==> joined_sites_grouped(*voronoi_info, site2room@, res.1@),
        res.2.len() == num_room,
        forall|r: int|
            0 <= r < num_room ==> #[trigger] res.2[r]@ == groups_of_room(
                site2room@,
                res.1@,
                res.0 as nat,
                r as usize,
            ),
{
    let (num_group, site2group) = group_sites(voronoi_info, site2room);
    let room2group = room2group(num_room, num_group, site2room, &site2group);
    (num_group, site2group, room2group)
}

/// Some face of the cell of site `s` borders a site of room `b`.
pub open spec fn site_touches_room(vi: VoronoiInfo, site2room: Seq<usize>, s: int, b: usize) -> bool {
    exists|f: int|
        0 <= f < vi.num_face(s) && #[trigger] vi.neighbor(s, f) != usize::MAX && site2room[vi.neighbor(
            s,
            f,
        ) as int] == b
}

/// Some site of room `a` has a cell that borders a site of room `b`.
pub open spec fn rooms_adjacent(vi: VoronoiInfo, site2room: Seq<usize>, a: usize, b: usize) -> bool {
    exists|s: int|
        0 <= s < vi.num_site() && site2room[s] == a && #[trigger] site_touches_room(
            vi,
            site2room,
            s,
            b,
        )
}

/// Whether a cell of one of the sites `room2site[i0_room]` borders a site of room
/// `i1_room`.
#[verifier::loop_isolation(false)]
pub fn is_two_room_connected(
    i0_room: usize,
    i1_room: usize,
    site2room: &[usize],
    room2site: &Vec<Vec<usize>>,
    voronoi_info: &VoronoiInfo,
) -> (is_connected: bool)
    requires
        voronoi_info.wf_faces(),
        site2room.len() == voronoi_info.num_site(),
        i0_room < room2site.len(),
        forall|k: int|
            0 <= k < room2site[i0_room as int].len() ==> #[trigger] room2site[i0_room as int][k]
                < voronoi_info.num_site(),
    ensures
        is_connected == exists|k: int|
            0 <= k < room2site[i0_room as int].len() && #[trigger] site_touches_room(
                *voronoi_info,
                site2room@,
                room2site[i0_room as int][k] as int,
                i1_room,
            ),
{
    let ghost vi = *voronoi_info;
    let sites = &room2site[i0_room];
    let mut is_connected = false;
    let mut k: usize = 0;
    while k < sites.len()
        invariant
            0 <= k <= sites.len(),
            is_connected == exists|k2: int|
                0 <= k2 < k && #[trigger] site_touches_room(vi, site2room@, sites[k2] as int, i1_room),
        decreases sites.len() - k,
    {
        let i_site = sites[k];
        assert(voronoi_info.site2idx[i_site as int] <= voronoi_info.site2idx[i_site + 1]);
        let begin = voronoi_info.site2idx[i_site];
        let end = voronoi_info.site2idx[i_site + 1];
        let mut idx = begin;
        while idx < end
            invariant
                begin <= idx <= end,
                begin == vi.site2idx[i_site as int],
                end == vi.site2idx[i_site + 1],
                is_connected == ((exists|k2: int|
                    0 <= k2 < k && #[trigger] site_touches_room(vi, site2room@, sites[k2] as int, i1_room))
                    || exists|f: int|
                    0 <= f < idx - begin && #[trigger] vi.neighbor(i_site as int, f) != usize::MAX
                        && site2room[vi.neighbor(i_site as int, f) as int] == i1_room),
            decreases end - idx,
        {
            proof {
                vi.lemma_face_in_range(i_site as int, idx - begin);
            }
            let j_site = voronoi_info.idx2site[idx];
            if j_site != usize::MAX && site2room[j_site] == i1_room {
                is_connected = true;
            }
            assert(vi.neighbor(i_site as int, idx - begin) == j_site);
            idx = idx + 1;
        }
        assert(vi.num_face(i_site as int) == end - begin);
        assert(sites[k as int] == i_site);
        proof {
            if site_touches_room(vi, site2room@, i_site as int, i1_room) {
                let f = choose|f: int|
                    0 <= f < vi.num_face(i_site as int) && #[trigger] vi.neighbor(i_site as int, f)
                        != usize::MAX && site2room[vi.neighbor(i_site as int, f) as int] == i1_room;
                assert(is_connected);
            }
        }
        assert(is_connected == exists|k2: int|
            0 <= k2 < k + 1 && #[trigger] site_touches_room(vi, site2room@, sites[k2] as int, i1_room));
        k = k + 1;
    }
    is_connected
}

/// When `room2site[i0_room]` lists the sites of room `i0_room`, the rooms are connected
/// exactly when they are adjacent.
proof fn lemma_connected_iff_adjacent(
    vi: VoronoiInfo,
    site2room: Seq<usize>,
    sites: Seq<usize>,
    a: usize,
    b: usize,
)
    requires
        vi.wf_faces(),
        site2room.len() == vi.num_site(),
        sites == indices_with(site2room, a),
    ensures
        (exists|k: int| 0 <= k < sites.len() && #[trigger] site_touches_room(vi, site2room, sites[k] as int, b))
            == rooms_adjacent(vi, site2room, a, b),
{
    lemma_range_filter(site2room.len(), holds_value(site2room, a));
    if rooms_adjacent(vi, site2room, a, b) {
        let s = choose|s: int|
            0 <= s < vi.num_site() && site2room[s] == a && #[trigger] site_touches_room(vi, site2room, s, b);
        assert(sites.contains(s as usize));
        let k = choose|k: int| 0 <= k < sites.len() && sites[k] == s as usize;
        assert(site_touches_room(vi, site2room, sites[k] as int, b));
    }
    if exists|k: int| 0 <= k < sites.len() && #[trigger] site_touches_room(vi, site2room, sites[k] as int, b) {
        let k = choose|k: int| 0 <= k < sites.len() && #[trigger] site_touches_room(vi, site2room, sites[k] as int, b);
        assert(sites.contains(sites[k]));
        assert(site2room[sites[k] as int] == a);
    }
}

/// How a site is pulled when the topology of the rooms is repaired.
#[derive(Clone, Copy, Debug, PartialEq, Eq, Structural)]
pub enum Attraction {
    /// The site of `room` nearest to a site of `other_room` moves onto that site.
    TowardRoom { room: usize, other_room: usize },
    /// `site` moves to the center of the domain.
    ToCenter { site: usize },
    /// `site` moves onto the site of group `group` nearest to it.
    TowardGroup { site: usize, group: usize },
}

/// The rooms that the connections pair with room `r`, in the order of the connections.
pub open spec fn room_partners(conns: Seq<(usize, usize)>, r: usize) -> Seq<usize> {
    conns.filter(involves(r)).map_values(other_end(r))
}

/// The connection involves room `r`.
pub open spec fn involves(r: usize) -> spec_fn((usize, usize)) -> bool {
    |c: (usize, usize)| c.0 == r || c.1 == r
}

/// The room that the connection pairs with room `r`.
pub open spec fn other_end(r: usize) -> spec_fn((usize, usize)) -> usize {
    |c: (usize, usize)|
        if c.0 == r {
            c.1
        } else {
            c.0
        }
}

/// Some site of group `g` has a cell with at least one face.
pub open spec fn group_has_cell(vi: VoronoiInfo, site2group: Seq<usize>, g: usize) -> bool {
    exists|s: int| 0 <= s < site2group.len() && site2group[s] == g && #[trigger] vi.num_face(s) > 0
}

/// The attractions for room `r`.
///
/// A room in one piece is pulled toward each room that a connection pairs it with and
/// that it does not touch. A room in several pieces keeps its first piece that has a
/// cell and pulls the sites of its other pieces toward it; without such a piece, all its
/// sites go to the center.
pub open spec fn room_attractions(
    vi: VoronoiInfo,
    site2room: Seq<usize>,
    site2group: Seq<usize>,
    num_group: nat,
    conns: Seq<(usize, usize)>,
    r: usize,
) -> Seq<Attraction> {
    let groups = groups_of_room(site2room, site2group, num_group, r);
    if groups.len() == 1 {
        room_partners(conns, r).filter(not_adjacent(vi, site2room, r)).map_values(toward_room(r))
    } else {
        let cands = groups.filter(has_cell(vi, site2group));
        if cands.len() == 0 {
            groups.map_values(sites_to_center(site2group)).flatten()
        } else {
            groups.filter(other_than(cands[0])).map_values(
                sites_toward(site2group, cands[0]),
            ).flatten()
        }
    }
}

/// Room `j` is not adjacent to room `r`.
pub open spec fn not_adjacent(vi: VoronoiInfo, site2room: Seq<usize>, r: usize) -> spec_fn(usize) -> bool {
    |j: usize| !rooms_adjacent(vi, site2room, r, j)
}

/// Room `r` is pulled toward room `j`.
pub open spec fn toward_room(r: usize) -> spec_fn(usize) -> Attraction {
    |j: usize| Attraction::TowardRoom { room: r, other_room: j }
}

/// Group `g` has a site whose cell has a face.
pub open spec fn has_cell(vi: VoronoiInfo, site2group: Seq<usize>) -> spec_fn(usize) -> bool {
    |g: usize| group_has_cell(vi, site2group, g)
}

/// Group `g` is not group `a`.
pub open spec fn other_than(a: usize) -> spec_fn(usize) -> bool {
    |g: usize| g != a
}

/// Each site of group `g` goes to the center.
pub open spec fn sites_to_center(site2group: Seq<usize>) -> spec_fn(usize) -> Seq<Attraction> {
    |g: usize| indices_with(site2group, g).map_values(|s: usize| Attraction::ToCenter { site: s })
}

/// Each site of group `g` is pulled toward group `a`.
pub open spec fn sites_toward(site2group: Seq<usize>, a: usize) -> spec_fn(usize) -> Seq<Attraction> {
    |g: usize|
        indices_with(site2group, g).map_values(|s: usize| Attraction::TowardGroup { site: s, group: a })
}

/// The attractions of rooms `0..num_room`, room after room.
pub open spec fn attractions(
    vi: VoronoiInfo,
    site2room: Seq<usize>,
    site2group: Seq<usize>,
    num_group: nat,
    conns: Seq<(usize, usize)>,
    num_room: nat,
) -> Seq<Attraction> {
    Seq::new(
        num_room,
        |r: int| room_attractions(vi, site2room, site2group, num_group, conns, r as usize),
    ).flatten()
}

/// The rooms that the connections pair with room `i_room`.
pub fn rooms_to_connect(i_room: usize, room_connections: &Vec<(usize, usize)>) -> (rooms: Vec<usize>)
    ensures
        rooms@ == room_partners(room_connections@, i_room),
{
    let ghost p = involves(i_room);
    let ghost m = other_end(i_room);
    let mut rooms: Vec<usize> = Vec::new();
    let n = room_connections.len();
    for k in 0..n
        invariant
            n == room_connections.len(),
            p == involves(i_room),
            m == other_end(i_room),
            rooms@ == room_connections@.take(k as int).filter(p).map_values(m),
    {
        let (i0_room, i1_room) = room_connections[k];
        if i0_room == i_room {
            rooms.push(i1_room);
        } else if i1_room == i_room {
            rooms.push(i0_room);
        }
        proof {
            let c = room_connections@[k as int];
            assert(room_connections@.take(k + 1) =~= room_connections@.take(k as int).push(c));
            let prev = room_connections@.take(k as int).filter(p);
            room_connections@.take(k as int).lemma_filter_push(c, p);
            if p(c) {
                assert(prev.push(c).map_values(m) =~= prev.map_values(m).push(m(c)));
            }
            assert(rooms@ =~= room_connections@.take(k + 1).filter(p).map_values(m));
        }
    }
    assert(room_connections@.take(n as int) =~= room_connections@);
    rooms
}

/// The sites of `indices_with(map, value)` are indices of `map`.
proof fn lemma_indices_with_bound(map: Seq<usize>, value: usize)
    requires
        map.len() <= usize::MAX,
    ensures
        forall|k: int|
            0 <= k < indices_with(map, value).len() ==> #[trigger] indices_with(map, value)[k]
                < map.len() && map[indices_with(map, value)[k] as int] == value,
{
    lemma_range_filter(map.len(), holds_value(map, value));
    assert forall|k: int| 0 <= k < indices_with(map, value).len() implies #[trigger] indices_with(
        map,
        value,
    )[k] < map.len() && map[indices_with(map, value)[k] as int] == value by {
        assert(indices_with(map, value).contains(indices_with(map, value)[k]));
    }
}

/// Room `i_room` is pulled toward each room of `partners` that it does not touch.
fn attract_to_rooms(
    voronoi_info: &VoronoiInfo,
    site2room: &[usize],
    room2site: &Vec<Vec<usize>>,
    i_room: usize,
    partners: &Vec<usize>,
) -> (res: Vec<Attraction>)
    requires
        voronoi_info.wf_faces(),
        site2room.len() == voronoi_info.num_site(),
        i_room < room2site.len(),
        room2site[i_room as int]@ == indices_with(site2room@, i_room),
    ensures
        res@ == partners@.filter(not_adjacent(*voronoi_info, site2room@, i_room)).map_values(
            toward_room(i_room),
        ),
{
    let ghost vi = *voronoi_info;
    let ghost p = not_adjacent(vi, site2room@, i_room);
    let ghost m = toward_room(i_room);
    proof {
        lemma_indices_with_bound(site2room@, i_room);
    }
    let mut res: Vec<Attraction> = Vec::new();
    let n = partners.len();
    for k in 0..n
        invariant
            n == partners.len(),
            vi == *voronoi_info,
            voronoi_info.wf_faces(),
            site2room.len() == voronoi_info.num_site(),
            i_room < room2site.len(),
            room2site[i_room as int]@ == indices_with(site2room@, i_room),
            forall|k2: int|
                0 <= k2 < room2site[i_room as int].len() ==> #[trigger] room2site[i_room as int][k2]
                    < voronoi_info.num_site(),
            p == not_adjacent(vi, site2room@, i_room),
            m == toward_room(i_room),
            res@ == partners@.take(k as int).filter(p).map_values(m),
    {
        let j_room = partners[k];
        let is_connected = is_two_room_connected(i_room, j_room, site2room, room2site, voronoi_info);
        if !is_connected {
            res.push(Attraction::TowardRoom { room: i_room, other_room: j_room });
        }
        proof {
            lemma_connected_iff_adjacent(vi, site2room@, room2site[i_room as int]@, i_room, j_room);
            let prev = partners@.take(k as int).filter(p);
            assert(partners@.take(k + 1) =~= partners@.take(k as int).push(j_room));
            partners@.take(k as int).lemma_filter_push(j_room, p);
            assert(p(j_room) == !is_connected);
            if p(j_room) {
                assert(prev.push(j_room).map_values(m) =~= prev.map_values(m).push(m(j_room)));
            }
            assert(res@ =~= partners@.take(k + 1).filter(p).map_values(m));
        }
    }
    assert(partners@.take(n as int) =~= partners@);
    res
}

/// The first group of `groups` that has a site whose cell has a face, or `usize::MAX`
/// where there is none.
#[verifier::loop_isolation(false)]
fn attractor_group(
    voronoi_info: &VoronoiInfo,
    site2group: &[usize],
    groups: &Vec<usize>,
    group2site: &Vec<Vec<usize>>,
) -> (i_group: usize)
    requires
        voronoi_info.wf_faces(),
        site2group.len() == voronoi_info.num_site(),
        forall|k: int| 0 <= k < groups.len() ==> #[trigger] groups[k] < group2site.len(),
        forall|g: int|
            0 <= g < group2site.len() ==> #[trigger] group2site[g]@ == indices_with(
                site2group@,
                g as usize,
            ),
    ensures
        groups@.filter(has_cell(*voronoi_info, site2group@)).len() == 0 ==> i_group == usize::MAX,
        groups@.filter(has_cell(*voronoi_info, site2group@)).len() > 0 ==> i_group == groups@.filter(
            has_cell(*voronoi_info, site2group@),
        )[0],
{
    let ghost vi = *voronoi_info;
    let ghost p = has_cell(vi, site2group@);
    let n = groups.len();
    let mut k: usize = 0;
    while k < n
        invariant
            0 <= k <= n,
            groups@.take(k as int).filter(p).len() == 0,
        decreases n - k,
    {
        let j_group = groups[k];
        let sites = &group2site[j_group];
        proof {
            lemma_indices_with_bound(site2group@, j_group);
            lemma_range_filter(site2group@.len(), holds_value(site2group@, j_group));
        }
        let mut found = false;
        let mut m: usize = 0;
        while m < sites.len()
            invariant
                0 <= m <= sites.len(),
                sites@ == indices_with(site2group@, j_group),
                found == exists|m2: int| 0 <= m2 < m && #[trigger] vi.num_face(sites[m2] as int) > 0,
            decreases sites.len() - m,
        {
            let j_site = sites[m];
            if voronoi_info.site2idx[j_site + 1] > voronoi_info.site2idx[j_site] {
                found = true;
            }
            assert(vi.num_face(sites[m as int] as int) > 0 <==> voronoi_info.site2idx[j_site + 1]
                > voronoi_info.site2idx[j_site as int]);
            m = m + 1;
        }
        proof {
            assert(found == p(j_group)) by {
                if found {
                    let m2 = choose|m2: int| 0 <= m2 < m && #[trigger] vi.num_face(sites[m2] as int) > 0;
                    assert(site2group@[sites[m2] as int] == j_group);
                }
                if p(j_group) {
                    let s = choose|s: int|
                        0 <= s < site2group.len() && site2group[s] == j_group && #[trigger] vi.num_face(s) > 0;
                    assert(sites@.contains(s as usize));
                    let m2 = choose|m2: int| 0 <= m2 < sites.len() && sites[m2] == s as usize;
                    assert(vi.num_face(sites[m2] as int) > 0);
                }
            }
            assert(groups@.take(k + 1) =~= groups@.take(k as int).push(j_group));
            groups@.take(k as int).lemma_filter_push(j_group, p);
        }
        if found {
            proof {
                let rest = groups@.skip(k + 1);
                assert(groups@ =~= groups@.take(k as int) + (seq![j_group] + rest));
                Seq::filter_distributes_over_add(
                    groups@.take(k as int),
                    seq![j_group] + rest,
                    p,
                );
                rest.lemma_filter_prepend(j_group, p);
                assert(groups@.filter(p) =~= seq![j_group] + rest.filter(p));
            }
            return j_group;
        }
        k = k + 1;
    }
    assert(groups@.take(n as int) =~= groups@);
    usize::MAX
}

/// The attractions of a room in several pieces, whose groups are `groups`: without an
/// attractor group (`i_group == usize::MAX`) all their sites go to the center, else the
/// sites of the other groups are pulled toward group `i_group`.
fn attract_split(
    site2group: &[usize],
    groups: &Vec<usize>,
    group2site: &Vec<Vec<usize>>,
    i_group: usize,
) -> (res: Vec<Attraction>)
    requires
        forall|k: int| 0 <= k < groups.len() ==> #[trigger] groups[k] < group2site.len(),
        forall|g: int|
            0 <= g < group2site.len() ==> #[trigger] group2site[g]@ == indices_with(
                site2group@,
                g as usize,
            ),
    ensures
        i_group == usize::MAX ==> res@ == groups@.map_values(sites_to_center(site2group@)).flatten(),
        i_group != usize::MAX ==> res@ == groups@.filter(other_than(i_group)).map_values(
            sites_toward(site2group@, i_group),
        ).flatten(),
{
    let ghost center = sites_to_center(site2group@);
    let ghost toward = sites_toward(site2group@, i_group);
    let ghost keep = other_than(i_group);
    let mut res: Vec<Attraction> = Vec::new();
    let n = groups.len();
    for k in 0..n
        invariant
            n == groups.len(),
            forall|k2: int| 0 <= k2 < groups.len() ==> #[trigger] groups[k2] < group2site.len(),
            forall|g: int|
                0 <= g < group2site.len() ==> #[trigger] group2site[g]@ == indices_with(
                    site2group@,
                    g as usize,
                ),
            center == sites_to_center(site2group@),
            toward == sites_toward(site2group@, i_group),
            keep == other_than(i_group),
            res@ == if i_group == usize::MAX {
                groups@.take(k as int).map_values(center).flatten()
            } else {
                groups@.take(k as int).filter(keep).map_values(toward).flatten()
            },
    {
        let j_group = groups[k];
        let ghost prefix = res@;
        let ghost item = if i_group == usize::MAX {
            center(j_group)
        } else {
            toward(j_group)
        };
        if i_group == usize::MAX || i_group != j_group {
            let sites = &group2site[j_group];
            let ns = sites.len();
            for m in 0..ns
                invariant
                    ns == sites.len(),
                    sites@ == indices_with(site2group@, j_group),
                    item.len() == sites.len(),
                    forall|m2: int|
                        0 <= m2 < ns ==> #[trigger] item[m2] == if i_group == usize::MAX {
                            Attraction::ToCenter { site: sites[m2] }
                        } else {
                            Attraction::TowardGroup { site: sites[m2], group: i_group }
                        },
                    res@ == prefix + item.take(m as int),
            {
                let j_site = sites[m];
                if i_group == usize::MAX {
                    res.push(Attraction::ToCenter { site: j_site });
                } else {
                    res.push(Attraction::TowardGroup { site: j_site, group: i_group });
                }
                assert(item.take(m + 1) =~= item.take(m as int).push(item[m as int]));
                assert(res@ =~= prefix + item.take(m + 1));
            }
            assert(item.take(ns as int) =~= item);
        }
        proof {
            let gs = groups@.take(k as int);
            assert(groups@.take(k + 1) =~= gs.push(j_group));
            if i_group == usize::MAX {
                assert(gs.push(j_group).map_values(center) =~= gs.map_values(center).push(center(j_group)));
                gs.map_values(center).lemma_flatten_push(center(j_group));
            } else {
                gs.lemma_filter_push(j_group, keep);
                let fs = gs.filter(keep);
                if keep(j_group) {
                    assert(fs.push(j_group).map_values(toward) =~= fs.map_values(toward).push(toward(j_group)));
                    fs.map_values(toward).lemma_flatten_push(toward(j_group));
                } else {
                    assert(res@ =~= prefix);
                }
            }
        }
    }
    assert(groups@.take(n as int) =~= groups@);
    res
}

/// Every room below `num_room` has at least one site.
pub open spec fn rooms_nonempty(site2room: Seq<usize>, num_room: nat) -> bool {
    forall|r: usize| r < num_room ==> #[trigger] room_has_site(site2room, r)
}

/// Some site lies in room `r`.
pub open spec fn room_has_site(site2room: Seq<usize>, r: usize) -> bool {
    exists|i: int| 0 <= i < site2room.len() && site2room[i] == r
}

/// The attractions that repair the topology of the rooms, room after room, given the
/// groups of the sites (`site2group`, below `num_group`) and of the rooms (`room2group`).
#[verifier::loop_isolation(false)]
pub fn attractions_from_groups(
    voronoi_info: &VoronoiInfo,
    site2room: &[usize],
    num_room: usize,
    num_group: usize,
    site2group: &[usize],
    room2group: &Vec<Vec<usize>>,
    room_connections: &Vec<(usize, usize)>,
) -> (res: Vec<Attraction>)
    requires
        voronoi_info.wf_faces(),
        site2room.len() == voronoi_info.num_site(),
        site2group.len() == site2room.len(),
        forall|i: int|
            0 <= i < site2room.len() ==> #[trigger] site2room[i] == usize::MAX || site2room[i]
                < num_room,
        forall|i: int| 0 <= i < site2group.len() ==> #[trigger] site2group[i] < num_group,
        room2group.len() == num_room,
        forall|r: int|
            0 <= r < num_room ==> #[trigger] room2group[r]@ == groups_of_room(
                site2room@,
                site2group@,
                num_group as nat,
                r as usize,
            ),
        rooms_nonempty(site2room@, num_room as nat),
    ensures
        res@ == attractions(
            *voronoi_info,
            site2room@,
            site2group@,
            num_group as nat,
            room_connections@,
            num_room as nat,
        ),
        groups_within_rooms(site2room@, site2group@) ==> forall|k: int|
            0 <= k < res.len() ==> #[trigger] pulls_within_rooms(site2room@, site2group@, res[k]),
{
    let ghost vi = *voronoi_info;
    let ghost f = |r: int|
        room_attractions(vi, site2room@, site2group@, num_group as nat, room_connections@, r as usize);
    let room2site = inverse_map(num_room, site2room);
    let group2site = inverse_map(num_group, site2group);
    let mut res: Vec<Attraction> = Vec::new();
    for i_room in 0..num_room
        invariant
            res@ == Seq::new(i_room as nat, f).flatten(),
            f == (|r: int|
                room_attractions(vi, site2room@, site2group@, num_group as nat, room_connections@, r as usize)),
    {
        let groups = &room2group[i_room];
        proof {
            let p = room_has_group(site2room@, site2group@, i_room);
            lemma_range_filter(num_group as nat, p);
            assert forall|k: int| 0 <= k < groups.len() implies #[trigger] groups[k] < group2site.len() by {
                assert(groups@.contains(groups[k]));
            }
            assert(room_has_site(site2room@, i_room));
            let i = choose|i: int| 0 <= i < site2room.len() && site2room[i] == i_room;
            assert(p(site2group[i]));
            assert(groups@.contains(site2group[i]));
        }
        assert(groups.len() > 0);
        let mut step = if groups.len() == 1 {
            let partners = rooms_to_connect(i_room, room_connections);
            attract_to_rooms(voronoi_info, site2room, &room2site, i_room, &partners)
        } else {
            let i_group = attractor_group(voronoi_info, site2group, groups, &group2site);
            attract_split(site2group, groups, &group2site, i_group)
        };
        assert(step@ == f(i_room as int));
        res.append(&mut step);
        proof {
            assert(Seq::new((i_room + 1) as nat, f) =~= Seq::new(i_room as nat, f).push(f(i_room as int)));
            Seq::new(i_room as nat, f).lemma_flatten_push(f(i_room as int));
        }
    }
    proof {
        if groups_within_rooms(site2room@, site2group@) {
            assert forall|k: int| 0 <= k < res.len() implies #[trigger] pulls_within_rooms(
                site2room@,
                site2group@,
                res[k],
            ) by {
                lemma_attractions_within_rooms(
                    vi,
                    site2room@,
                    site2group@,
                    num_group as nat,
                    room_connections@,
                    num_room as nat,
                    k,
                );
            }
        }
    }
    res
}

/// The attractions that repair the topology of the rooms: the sites are grouped into
/// the connected pieces of their rooms by `topology`, then `attractions_from_groups`
/// says where each site is pulled.
pub fn unidirectional_attractions(
    voronoi_info: &VoronoiInfo,
    site2room: &[usize],
    num_room: usize,
    room_connections: &Vec<(usize, usize)>,
) -> (res: Vec<Attraction>)
    requires
        voronoi_info.wf_faces(),
        site2room.len() == voronoi_info.num_site(),
        forall|i: int|
            0 <= i < site2room.len() ==> #[trigger] site2room[i] == usize::MAX || site2room[i]
                < num_room,
        neighbors_in_rooms(*voronoi_info, site2room@),
        rooms_nonempty(site2room@, num_room as nat),
    ensures
        ({
            let (num_group, site2group) = site_groups(
                voronoi_info.site2idx@,
                voronoi_info.idx2site@,
                site2room@,
            );
            res@ == attractions(
                *voronoi_info,
                site2room@,
                site2group,
                num_group as nat,
                room_connections@,
                num_room as nat,
            ) && forall|k: int|
                0 <= k < res.len() ==> #[trigger] pulls_within_rooms(site2room@, site2group, res[k])
        }),
{
    let (num_group, site2group, room2group) = topology(voronoi_info, num_room, site2room);
    attractions_from_groups(
        voronoi_info,
        site2room,
        num_room,
        num_group,
        &site2group,
        &room2group,
        room_connections,
    )
}

/// The edges that split room `r` contributes when it is in several pieces: for each of
/// its groups, the room (`true`) then the group (`false`).
pub open spec fn split_room_edges(
    site2room: Seq<usize>,
    site2group: Seq<usize>,
    num_group: nat,
    r: usize,
) -> Seq<(usize, bool)> {
    let groups = groups_of_room(site2room, site2group, num_group, r);
    if groups.len() <= 1 {
        Seq::empty()
    } else {
        groups.map_values(room_then_group(r)).flatten()
    }
}

/// The edge from room `r` to group `g`.
pub open spec fn room_then_group(r: usize) -> spec_fn(usize) -> Seq<(usize, bool)> {
    |g: usize| seq![(r, true), (g, false)]
}

/// The edge between the two rooms of a connection where they do not touch.
pub open spec fn missing_connection(vi: VoronoiInfo, site2room: Seq<usize>) -> spec_fn(
    (usize, usize),
) -> Seq<(usize, bool)> {
    |c: (usize, usize)|
        if rooms_adjacent(vi, site2room, c.0, c.1) {
            Seq::empty()
        } else {
            seq![(c.0, true), (c.1, true)]
        }
}

/// The edges between rooms and groups that the k-means style loss pulls together: those of
/// the split rooms, room after room, then those of the missing connections.
pub open spec fn room_group_edges(
    vi: VoronoiInfo,
    site2room: Seq<usize>,
    site2group: Seq<usize>,
    num_group: nat,
    conns: Seq<(usize, usize)>,
    num_room: nat,
) -> Seq<(usize, bool)> {
    Seq::new(num_room, |r: int| split_room_edges(site2room, site2group, num_group, r as usize)).flatten()
        + conns.map_values(missing_connection(vi, site2room)).flatten()
}

/// The edges between rooms and groups, given the groups of the sites (`site2group`, below
/// `num_group`) and of the rooms (`room2group`). Each edge is two entries; `true` marks a
/// room, `false` a group.
#[verifier::loop_isolation(false)]
pub fn edge2roomgroup_from_groups(
    voronoi_info: &VoronoiInfo,
    site2room: &[usize],
    num_room: usize,
    num_group: usize,
    site2group: &[usize],
    room2group: &Vec<Vec<usize>>,
    room_connections: &Vec<(usize, usize)>,
) -> (edge2roomgroup: Vec<(usize, bool)>)
    requires
        voronoi_info.wf_faces(),
        site2room.len() == voronoi_info.num_site(),
        site2group.len() == site2room.len(),
        forall|i: int|
            0 <= i < site2room.len() ==> #[trigger] site2room[i] == usize::MAX || site2room[i]
                < num_room,
        room2group.len() == num_room,
        forall|r: int|
            0 <= r < num_room ==> #[trigger] room2group[r]@ == groups_of_room(
                site2room@,
                site2group@,
                num_group as nat,
                r as usize,
            ),
        forall|k: int| 0 <= k < room_connections.len() ==> #[trigger] room_connections[k].0 < num_room,
    ensures
        edge2roomgroup@ == room_group_edges(
            *voronoi_info,
            site2room@,
            site2group@,
            num_group as nat,
            room_connections@,
            num_room as nat,
        ),
{
    let ghost vi = *voronoi_info;
    let ghost f = |r: int| split_room_edges(site2room@, site2group@, num_group as nat, r as usize);
    let ghost h = missing_connection(vi, site2room@);
    let room2site = inverse_map(num_room, site2room);
    let mut edge2roomgroup: Vec<(usize, bool)> = Vec::new();
    // edges of the divided rooms
    for i_room in 0..num_room
        invariant
            edge2roomgroup@ == Seq::new(i_room as nat, f).flatten(),
    {
        let groups = &room2group[i_room];
        let ghost prev = edge2roomgroup@;
        let ghost g2e = room_then_group(i_room);
        if groups.len() > 1 {
            let ng = groups.len();
            for k in 0..ng
                invariant
                    ng == groups.len(),
                    g2e == room_then_group(i_room),
                    edge2roomgroup@ == prev + groups@.take(k as int).map_values(g2e).flatten(),
            {
                let i_group = groups[k];
                edge2roomgroup.push((i_room, true));
                edge2roomgroup.push((i_group, false));
                proof {
                    let gs = groups@.take(k as int);
                    assert(groups@.take(k + 1) =~= gs.push(i_group));
                    assert(gs.push(i_group).map_values(g2e) =~= gs.map_values(g2e).push(g2e(i_group)));
                    gs.map_values(g2e).lemma_flatten_push(g2e(i_group));
                    assert(edge2roomgroup@ =~= prev + groups@.take(k + 1).map_values(g2e).flatten());
                }
            }
            assert(groups@.take(ng as int) =~= groups@);
        }
        proof {
            if groups.len() <= 1 {
                assert(edge2roomgroup@ =~= prev + f(i_room as int));
            }
            assert(Seq::new((i_room + 1) as nat, f) =~= Seq::new(i_room as nat, f).push(f(i_room as int)));
            Seq::new(i_room as nat, f).lemma_flatten_push(f(i_room as int));
        }
    }
    // edges of the missing connections
    let ghost rooms_part = edge2roomgroup@;
    let nc = room_connections.len();
    for k in 0..nc
        invariant
            nc == room_connections.len(),
            edge2roomgroup@ == rooms_part + room_connections@.take(k as int).map_values(h).flatten(),
    {
        let (i0_room, i1_room) = room_connections[k];
        proof {
            lemma_connected_iff_adjacent(vi, site2room@, room2site[i0_room as int]@, i0_room, i1_room);
            lemma_indices_with_bound(site2room@, i0_room);
        }
        let is_connected = is_two_room_connected(i0_room, i1_room, site2room, &room2site, voronoi_info);
        let ghost before = edge2roomgroup@;
        if !is_connected {
            edge2roomgroup.push((i0_room, true));
            edge2roomgroup.push((i1_room, true));
        }
        proof {
            let c = room_connections@[k as int];
            let cs = room_connections@.take(k as int);
            assert(room_connections@.take(k + 1) =~= cs.push(c));
            assert(cs.push(c).map_values(h) =~= cs.map_values(h).push(h(c)));
            cs.map_values(h).lemma_flatten_push(h(c));
            assert(edge2roomgroup@ =~= before + h(c));
        }
    }
    assert(room_connections@.take(nc as int) =~= room_connections@);
    edge2roomgroup
}

/// The edges between rooms and groups of the k-means style loss, with the groups that
/// `topology` finds.
pub fn edge2roomgroup(
    voronoi_info: &VoronoiInfo,
    site2room: &[usize],
    num_room: usize,
    room_connections: &Vec<(usize, usize)>,
) -> (edge2roomgroup: Vec<(usize, bool)>)
    requires
        voronoi_info.wf_faces(),
        site2room.len() == voronoi_info.num_site(),
        forall|i: int|
            0 <= i < site2room.len() ==> #[trigger] site2room[i] == usize::MAX || site2room[i]
                < num_room,
        neighbors_in_rooms(*voronoi_info, site2room@),
        forall|k: int| 0 <= k < room_connections.len() ==> #[trigger] room_connections[k].0 < num_room,
    ensures
        ({
            let (num_group, site2group) = site_groups(
                voronoi_info.site2idx@,
                voronoi_info.idx2site@,
                site2room@,
            );
            edge2roomgroup@ == room_group_edges(
                *voronoi_info,
                site2room@,
                site2group,
                num_group as nat,
                room_connections@,
                num_room as nat,
            )
        }),
{
    let (num_group, site2group, room2group) = topology(voronoi_info, num_room, site2room);
    edge2roomgroup_from_groups(
        voronoi_info,
        site2room,
        num_room,
        num_group,
        &site2group,
        &room2group,
        room_connections,
    )
}

/// Locates entry `k` of a flattened sequence: it is entry `j` of part `i`.
proof fn lemma_flatten_member<A>(ss: Seq<Seq<A>>, k: int) -> (ij: (int, int))
    requires
        0 <= k < ss.flatten().len(),
    ensures
        0 <= ij.0 < ss.len(),
        0 <= ij.1 < ss[ij.0].len(),
        ss[ij.0][ij.1] == ss.flatten()[k],
    decreases ss.len(),
{
    if k < ss[0].len() {
        (0, k)
    } else {
        let rest = ss.drop_first();
        let ij = lemma_flatten_member(rest, k - ss[0].len());
        (ij.0 + 1, ij.1)
    }
}

/// Part `i` of a flattened sequence starts at an offset `off`; where all parts have even
/// length, `off` is even.
proof fn lemma_flatten_offset<A>(ss: Seq<Seq<A>>, i: int) -> (off: int)
    requires
        0 <= i < ss.len(),
    ensures
        0 <= off,
        off + ss[i].len() <= ss.flatten().len(),
        forall|j: int| 0 <= j < ss[i].len() ==> #[trigger] ss.flatten()[off + j] == ss[i][j],
        (forall|t: int| 0 <= t < ss.len() ==> #[trigger] ss[t].len() % 2 == 0) ==> off % 2 == 0,
    decreases ss.len(),
{
    let rest = ss.drop_first();
    assert(ss.flatten() == ss[0] + rest.flatten());
    if i == 0 {
        0
    } else {
        let off1 = lemma_flatten_offset(rest, i - 1);
        assert(rest[i - 1] == ss[i]);
        assert forall|j: int| 0 <= j < ss[i].len() implies #[trigger] ss.flatten()[ss[0].len() + off1
            + j] == ss[i][j] by {
            assert(rest.flatten()[off1 + j] == rest[i - 1][j]);
        }
        if forall|t: int| 0 <= t < ss.len() ==> #[trigger] ss[t].len() % 2 == 0 {
            assert forall|t: int| 0 <= t < rest.len() implies #[trigger] rest[t].len() % 2 == 0 by {
                assert(rest[t] == ss[t + 1]);
            }
            assert(ss[0].len() % 2 == 0);
        }
        ss[0].len() + off1
    }
}

/// Law: the lists of `inverse_map` undo the map: a site is in the list of group `g`
/// exactly when the map sends it to `g`, so each site with a group is in one list only.
pub proof fn lemma_inverse_map_partition(map: Seq<usize>, g: usize, i: int)
    requires
        map.len() <= usize::MAX,
        0 <= i < map.len(),
    ensures
        indices_with(map, g).contains(i as usize) <==> map[i] == g,
{
    lemma_range_filter(map.len(), holds_value(map, g));
}

/// Law: the groups of a room are exactly the groups of its sites.
pub proof fn lemma_room_groups_are_site_groups(
    site2room: Seq<usize>,
    site2group: Seq<usize>,
    num_group: nat,
    r: usize,
    g: usize,
)
    requires
        num_group <= usize::MAX,
        site2group.len() == site2room.len(),
        forall|i: int| 0 <= i < site2group.len() ==> #[trigger] site2group[i] < num_group,
    ensures
        groups_of_room(site2room, site2group, num_group, r).contains(g) <==> exists|i: int|
            0 <= i < site2room.len() && site2room[i] == r && #[trigger] site2group[i] == g,
{
    lemma_range_filter(num_group, room_has_group(site2room, site2group, r));
    if exists|i: int| 0 <= i < site2room.len() && site2room[i] == r && #[trigger] site2group[i] == g {
        let i = choose|i: int| 0 <= i < site2room.len() && site2room[i] == r && #[trigger] site2group[i] == g;
        assert(g < num_group);
    }
}

/// Law: repairing the topology pulls a room in one piece only toward rooms that it does
/// not touch, never pulls a site toward its own group, and names only existing sites.
pub proof fn lemma_attractions_sound(
    vi: VoronoiInfo,
    site2room: Seq<usize>,
    site2group: Seq<usize>,
    num_group: nat,
    conns: Seq<(usize, usize)>,
    num_room: nat,
    k: int,
)
    requires
        site2group.len() <= usize::MAX,
        num_group <= usize::MAX + 1,
        num_room <= usize::MAX + 1,
        0 <= k < attractions(vi, site2room, site2group, num_group, conns, num_room).len(),
    ensures
        match attractions(vi, site2room, site2group, num_group, conns, num_room)[k] {
            Attraction::TowardRoom { room, other_room } => room < num_room && !rooms_adjacent(
                vi,
                site2room,
                room,
                other_room,
            ),
            Attraction::ToCenter { site } => site < site2group.len(),
            Attraction::TowardGroup { site, group } => site < site2group.len() && site2group[site as int]
                != group,
        },
{
    let fr = |r: int| room_attractions(vi, site2room, site2group, num_group, conns, r as usize);
    let all = Seq::new(num_room, fr);
    let ij = lemma_flatten_member(all, k);
    let r = ij.0 as usize;
    let item = all[ij.0][ij.1];
    let groups = groups_of_room(site2room, site2group, num_group, r);
    if groups.len() == 1 {
        let partners = room_partners(conns, r);
        let kept = partners.filter(not_adjacent(vi, site2room, r));
        partners.lemma_filter_pred(not_adjacent(vi, site2room, r), ij.1);
        assert(item == toward_room(r)(kept[ij.1]));
    } else {
        let cands = groups.filter(has_cell(vi, site2group));
        if cands.len() == 0 {
            let parts = groups.map_values(sites_to_center(site2group));
            let mn = lemma_flatten_member(parts, ij.1);
            let g = groups[mn.0];
            lemma_indices_with_bound(site2group, g);
            assert(item == parts[mn.0][mn.1]);
        } else {
            let a = cands[0];
            let others = groups.filter(other_than(a));
            let parts = others.map_values(sites_toward(site2group, a));
            let mn = lemma_flatten_member(parts, ij.1);
            let g = others[mn.0];
            groups.lemma_filter_pred(other_than(a), mn.0);
            lemma_indices_with_bound(site2group, g);
            assert(item == parts[mn.0][mn.1]);
        }
    }
}

/// The attraction moves only a site that lies in a room, and a site pulled toward a
/// group is pulled toward sites of its own room.
pub open spec fn pulls_within_rooms(site2room: Seq<usize>, site2group: Seq<usize>, a: Attraction) -> bool {
    match a {
        Attraction::TowardRoom { room, other_room } => room != usize::MAX,
        Attraction::ToCenter { site } => site < site2room.len() && site2room[site as int] != usize::MAX,
        Attraction::TowardGroup { site, group } => {
            &&& site < site2room.len()
            &&& site2room[site as int] != usize::MAX
            &&& forall|s: int|
                0 <= s < site2group.len() && #[trigger] site2group[s] == group ==> site2room[s]
                    == site2room[site as int]
        },
    }
}

/// A group of room `r` holds a site of room `r`, and where groups lie within rooms,
/// all its sites are in room `r`.
proof fn lemma_group_of_room(
    site2room: Seq<usize>,
    site2group: Seq<usize>,
    num_group: nat,
    r: usize,
    g: usize,
)
    requires
        num_group <= usize::MAX + 1,
        site2group.len() == site2room.len(),
        groups_within_rooms(site2room, site2group),
        groups_of_room(site2room, site2group, num_group, r).contains(g),
    ensures
        forall|s: int| 0 <= s < site2group.len() && #[trigger] site2group[s] == g ==> site2room[s] == r,
{
    lemma_range_filter(num_group, room_has_group(site2room, site2group, r));
    let i = choose|i: int| 0 <= i < site2room.len() && site2room[i] == r && site2group[i] == g;
    assert forall|s: int| 0 <= s < site2group.len() && #[trigger] site2group[s] == g implies site2room[s]
        == r by {
        assert(site2group[s] == site2group[i]);
    }
}

/// Law: where the groups lie within rooms, repairing the topology never moves a site
/// outside every room, and never pulls a site toward a site of another room.
pub proof fn lemma_attractions_within_rooms(
    vi: VoronoiInfo,
    site2room: Seq<usize>,
    site2group: Seq<usize>,
    num_group: nat,
    conns: Seq<(usize, usize)>,
    num_room: nat,
    k: int,
)
    requires
        site2group.len() == site2room.len(),
        site2group.len() <= usize::MAX,
        num_group <= usize::MAX + 1,
        num_room <= usize::MAX,
        groups_within_rooms(site2room, site2group),
        0 <= k < attractions(vi, site2room, site2group, num_group, conns, num_room).len(),
    ensures
        pulls_within_rooms(
            site2room,
            site2group,
            attractions(vi, site2room, site2group, num_group, conns, num_room)[k],
        ),
{
    let fr = |r: int| room_attractions(vi, site2room, site2group, num_group, conns, r as usize);
    let all = Seq::new(num_room, fr);
    let ij = lemma_flatten_member(all, k);
    let r = ij.0 as usize;
    let item = all[ij.0][ij.1];
    let groups = groups_of_room(site2room, site2group, num_group, r);
    if groups.len() == 1 {
        let partners = room_partners(conns, r);
        let kept = partners.filter(not_adjacent(vi, site2room, r));
        assert(item == toward_room(r)(kept[ij.1]));
    } else {
        let cands = groups.filter(has_cell(vi, site2group));
        if cands.len() == 0 {
            let parts = groups.map_values(sites_to_center(site2group));
            let mn = lemma_flatten_member(parts, ij.1);
            let g = groups[mn.0];
            assert(groups.contains(g));
            lemma_group_of_room(site2room, site2group, num_group, r, g);
            lemma_indices_with_bound(site2group, g);
            assert(item == parts[mn.0][mn.1]);
        } else {
            let a = cands[0];
            assert(cands.contains(a));
            groups.lemma_filter_contains_rev(has_cell(vi, site2group), a);
            lemma_group_of_room(site2room, site2group, num_group, r, a);
            let others = groups.filter(other_than(a));
            let parts = others.map_values(sites_toward(site2group, a));
            let mn = lemma_flatten_member(parts, ij.1);
            let g = others[mn.0];
            assert(others.contains(g));
            groups.lemma_filter_contains_rev(other_than(a), g);
            lemma_group_of_room(site2room, site2group, num_group, r, g);
            lemma_indices_with_bound(site2group, g);
            assert(item == parts[mn.0][mn.1]);
        }
    }
}

/// Parts of even length flatten to a sequence of even length.
proof fn lemma_flatten_even<A>(ss: Seq<Seq<A>>)
    requires
        forall|i: int| 0 <= i < ss.len() ==> #[trigger] ss[i].len() % 2 == 0,
    ensures
        ss.flatten().len() % 2 == 0,
    decreases ss.len(),
{
    if ss.len() > 0 {
        let rest = ss.drop_first();
        assert forall|i: int| 0 <= i < rest.len() implies #[trigger] rest[i].len() % 2 == 0 by {
            assert(rest[i] == ss[i + 1]);
        }
        lemma_flatten_even(rest);
    }
}

/// Law: the room-group edges come in whole pairs, so that entries `2 * e` and
/// `2 * e + 1` are the two ends of edge `e`.
pub proof fn lemma_room_group_edges_paired(
    vi: VoronoiInfo,
    site2room: Seq<usize>,
    site2group: Seq<usize>,
    num_group: nat,
    conns: Seq<(usize, usize)>,
    num_room: nat,
)
    ensures
        room_group_edges(vi, site2room, site2group, num_group, conns, num_room).len() % 2 == 0,
{
    let rooms = Seq::new(
        num_room,
        |r: int| split_room_edges(site2room, site2group, num_group, r as usize),
    );
    assert forall|r: int| 0 <= r < rooms.len() implies #[trigger] rooms[r].len() % 2 == 0 by {
        let groups = groups_of_room(site2room, site2group, num_group, r as usize);
        let parts = groups.map_values(room_then_group(r as usize));
        assert forall|i: int| 0 <= i < parts.len() implies #[trigger] parts[i].len() % 2 == 0 by {
            assert(parts[i].len() == 2);
        }
        lemma_flatten_even(parts);
    }
    lemma_flatten_even(rooms);
    let missing = conns.map_values(missing_connection(vi, site2room));
    assert forall|i: int| 0 <= i < missing.len() implies #[trigger] missing[i].len() % 2 == 0 by {
        assert(missing[i] == missing_connection(vi, site2room)(conns[i]));
    }
    lemma_flatten_even(missing);
}

proof fn lemma_rooms_adjacent_one_way(vi: VoronoiInfo, site2room: Seq<usize>, a: usize, b: usize)
    requires
        vi.wf_faces(),
        site2room.len() == vi.num_site(),
        vi.faces_symmetric(),
        rooms_adjacent(vi, site2room, a, b),
    ensures
        rooms_adjacent(vi, site2room, b, a),
{
    let s = choose|s: int|
        0 <= s < vi.num_site() && site2room[s] == a && #[trigger] site_touches_room(vi, site2room, s, b);
    let f = choose|f: int|
        0 <= f < vi.num_face(s) && #[trigger] vi.neighbor(s, f) != usize::MAX && site2room[vi.neighbor(
            s,
            f,
        ) as int] == b;
    vi.lemma_face_in_range(s, f);
    let j = vi.neighbor(s, f) as int;
    let g = choose|g: int| 0 <= g < vi.num_face(j) && #[trigger] vi.neighbor(j, g) == s;
    assert(vi.neighbor(j, g) != usize::MAX);
    assert(site_touches_room(vi, site2room, j, a));
}

/// Law: where every face is seen from both sides, room `a` touches room `b` exactly when
/// room `b` touches room `a`.
pub proof fn lemma_rooms_adjacent_symmetric(vi: VoronoiInfo, site2room: Seq<usize>, a: usize, b: usize)
    requires
        vi.wf_faces(),
        site2room.len() == vi.num_site(),
        vi.faces_symmetric(),
    ensures
        rooms_adjacent(vi, site2room, a, b) == rooms_adjacent(vi, site2room, b, a),
{
    if rooms_adjacent(vi, site2room, a, b) {
        lemma_rooms_adjacent_one_way(vi, site2room, a, b);
    }
    if rooms_adjacent(vi, site2room, b, a) {
        lemma_rooms_adjacent_one_way(vi, site2room, b, a);
    }
}

/// Law: where every face is seen from both sides, writing connection `k` the other way
/// round swaps the two ends of its edge among the room-group edges and changes nothing
/// else.
#[verifier::spinoff_prover]
#[verifier::rlimit(40)]
pub proof fn lemma_swap_connection(
    vi: VoronoiInfo,
    site2room: Seq<usize>,
    site2group: Seq<usize>,
    num_group: nat,
    conns: Seq<(usize, usize)>,
    num_room: nat,
    k: int,
)
    requires
        vi.wf_faces(),
        site2room.len() == vi.num_site(),
        vi.faces_symmetric(),
        0 <= k < conns.len(),
    ensures
        ({
            let c = conns[k];
            let h = missing_connection(vi, site2room);
            let rooms = Seq::new(
                num_room,
                |r: int| split_room_edges(site2room, site2group, num_group, r as usize),
            ).flatten();
            let before = conns.take(k).map_values(h).flatten();
            let after = conns.skip(k + 1).map_values(h).flatten();
            &&& room_group_edges(vi, site2room, site2group, num_group, conns, num_room) == rooms
                + before + h(c) + after
            &&& room_group_edges(
                vi,
                site2room,
                site2group,
                num_group,
                conns.update(k, (c.1, c.0)),
                num_room,
            ) == rooms + before + h(c).reverse() + after
        }),
{
    let c = conns[k];
    let c2 = (c.1, c.0);
    let conns2 = conns.update(k, c2);
    let h = missing_connection(vi, site2room);
    lemma_rooms_adjacent_symmetric(vi, site2room, c.0, c.1);
    assert(h(c2) =~= h(c).reverse());
    assert(conns2.take(k) =~= conns.take(k));
    assert(conns2.skip(k + 1) =~= conns.skip(k + 1));
    assert(conns =~= conns.take(k) + seq![c] + conns.skip(k + 1));
    assert(conns2 =~= conns.take(k) + seq![c2] + conns.skip(k + 1));
    let pre = conns.take(k).map_values(h);
    let post = conns.skip(k + 1).map_values(h);
    assert(conns.map_values(h) =~= pre + seq![h(c)] + post);
    assert(conns2.map_values(h) =~= pre + seq![h(c2)] + post);
    vstd::seq_lib::lemma_flatten_concat(pre + seq![h(c)], post);
    vstd::seq_lib::lemma_flatten_concat(pre, seq![h(c)]);
    vstd::seq_lib::lemma_flatten_concat(pre + seq![h(c2)], post);
    vstd::seq_lib::lemma_flatten_concat(pre, seq![h(c2)]);
    seq![h(c)].lemma_flatten_singleton();
    seq![h(c2)].lemma_flatten_singleton();
    let rooms = Seq::new(
        num_room,
        |r: int| split_room_edges(site2room, site2group, num_group, r as usize),
    ).flatten();
    assert(room_group_edges(vi, site2room, site2group, num_group, conns, num_room) =~= rooms
        + pre.flatten() + h(c) + post.flatten());
    assert(room_group_edges(vi, site2room, site2group, num_group, conns2, num_room) =~= rooms
        + pre.flatten() + h(c2) + post.flatten());
}

/// Each room contributes an even number of entries to the room-group edges.
proof fn lemma_split_room_edges_even(
    site2room: Seq<usize>,
    site2group: Seq<usize>,
    num_group: nat,
    r: usize,
)
    ensures
        split_room_edges(site2room, site2group, num_group, r).len() % 2 == 0,
{
    let groups = groups_of_room(site2room, site2group, num_group, r);
    let parts = groups.map_values(room_then_group(r));
    assert forall|i: int| 0 <= i < parts.len() implies #[trigger] parts[i].len() % 2 == 0 by {
        assert(parts[i].len() == 2);
    }
    lemma_flatten_even(parts);
}

/// Law: when the sites of a room fall into more than one group, each group of a site of
/// that room is joined to the room by an edge: some edge `e` has the room at entry `2 * e`
/// and the group at entry `2 * e + 1`.
pub proof fn lemma_split_room_edges_cover(
    vi: VoronoiInfo,
    site2room: Seq<usize>,
    site2group: Seq<usize>,
    num_group: nat,
    conns: Seq<(usize, usize)>,
    num_room: nat,
    r: usize,
    i1: int,
    i2: int,
    i: int,
) -> (e: int)
    requires
        site2group.len() == site2room.len(),
        site2group.len() <= usize::MAX,
        num_group <= usize::MAX,
        forall|t: int| 0 <= t < site2group.len() ==> #[trigger] site2group[t] < num_group,
        r < num_room,
        0 <= i1 < site2room.len(),
        0 <= i2 < site2room.len(),
        0 <= i < site2room.len(),
        site2room[i1] == r,
        site2room[i2] == r,
        site2group[i1] != site2group[i2],
        site2room[i] == r,
    ensures
        0 <= e,
        2 * e + 1 < room_group_edges(vi, site2room, site2group, num_group, conns, num_room).len(),
        room_group_edges(vi, site2room, site2group, num_group, conns, num_room)[2 * e] == (r, true),
        room_group_edges(vi, site2room, site2group, num_group, conns, num_room)[2 * e + 1] == (
            site2group[i],
            false,
        ),
{
    let g = site2group[i];
    let groups = groups_of_room(site2room, site2group, num_group, r);
    let p = room_has_group(site2room, site2group, r);
    lemma_range_filter(num_group, p);
    assert(p(site2group[i1]));
    assert(p(site2group[i2]));
    assert(p(g));
    assert(groups.contains(site2group[i1]));
    assert(groups.contains(site2group[i2]));
    assert(groups.contains(g));
    assert(groups.len() > 1) by {
        if groups.len() <= 1 {
            let a = choose|k: int| 0 <= k < groups.len() && groups[k] == site2group[i1];
            let b = choose|k: int| 0 <= k < groups.len() && groups[k] == site2group[i2];
        }
    }
    let m = choose|k: int| 0 <= k < groups.len() && groups[k] == g;
    let parts = groups.map_values(room_then_group(r));
    assert forall|t: int| 0 <= t < parts.len() implies #[trigger] parts[t].len() % 2 == 0 by {
        assert(parts[t].len() == 2);
    }
    let off = lemma_flatten_offset(parts, m);
    assert(parts[m] == seq![(r, true), (g, false)]);
    let f = |q: int| split_room_edges(site2room, site2group, num_group, q as usize);
    let all = Seq::new(num_room, f);
    assert forall|t: int| 0 <= t < all.len() implies #[trigger] all[t].len() % 2 == 0 by {
        lemma_split_room_edges_even(site2room, site2group, num_group, t as usize);
    }
    assert(all[r as int] == parts.flatten());
    let off2 = lemma_flatten_offset(all, r as int);
    let edges = room_group_edges(vi, site2room, site2group, num_group, conns, num_room);
    assert(edges == all.flatten() + conns.map_values(missing_connection(vi, site2room)).flatten());
    let j0 = off;
    let j1 = off + 1;
    assert(parts.flatten()[off + 0] == parts[m][0]);
    assert(parts.flatten()[off + 1] == parts[m][1]);
    assert(all.flatten()[off2 + j0] == all[r as int][j0]);
    assert(all.flatten()[off2 + j1] == all[r as int][j1]);
    assert(off % 2 == 0);
    assert(off2 % 2 == 0);
    let e = (off2 + off) / 2;
    assert(2 * e == off2 + j0);
    assert(2 * e + 1 == off2 + j1);
    assert(edges[2 * e] == all.flatten()[2 * e]);
    assert(edges[2 * e + 1] == all.flatten()[2 * e + 1]);
    e
}

/// Law: in a room split into several groups, let `a` be the least group of a site of
/// the room that holds a site whose cell has a face. Every site of the room outside
/// group `a` is then pulled toward group `a`.
pub proof fn lemma_split_room_pulls_every_site(
    vi: VoronoiInfo,
    site2room: Seq<usize>,
    site2group: Seq<usize>,
    num_group: nat,
    conns: Seq<(usize, usize)>,
    num_room: nat,
    r: usize,
    a: usize,
    ia: int,
    ta: int,
    s: int,
) -> (k: int)
    requires
        site2group.len() == site2room.len(),
        site2group.len() <= usize::MAX,
        num_group <= usize::MAX,
        forall|t: int| 0 <= t < site2group.len() ==> #[trigger] site2group[t] < num_group,
        r < num_room,
        num_room <= usize::MAX,
        0 <= ia < site2room.len(),
        site2room[ia] == r,
        site2group[ia] == a,
        0 <= ta < site2group.len(),
        site2group[ta] == a,
        vi.site2idx[ta + 1] > vi.site2idx[ta],
        forall|i: int, t: int|
            0 <= i < site2room.len() && 0 <= t < site2group.len() && site2room[i] == r
                && #[trigger] site2group[i] < a && #[trigger] site2group[t] == site2group[i]
                ==> vi.site2idx[t + 1] <= vi.site2idx[t],
        0 <= s < site2room.len(),
        site2room[s] == r,
        site2group[s] != a,
    ensures
        0 <= k < attractions(vi, site2room, site2group, num_group, conns, num_room).len(),
        attractions(vi, site2room, site2group, num_group, conns, num_room)[k]
            == (Attraction::TowardGroup { site: s as usize, group: a }),
{
    let g = site2group[s];
    let groups = groups_of_room(site2room, site2group, num_group, r);
    let p = room_has_group(site2room, site2group, r);
    lemma_range_filter(num_group, p);
    assert(p(a));
    assert(p(g));
    assert(groups.contains(a));
    assert(groups.contains(g));
    let ma = choose|q: int| 0 <= q < groups.len() && groups[q] == a;
    let mg = choose|q: int| 0 <= q < groups.len() && groups[q] == g;
    assert(groups.len() != 1);
    // the kept group is `a`
    let hc = has_cell(vi, site2group);
    assert(vi.num_face(ta) > 0);
    assert(hc(a));
    groups.lemma_filter_contains(hc, ma);
    let cands = groups.filter(hc);
    assert(cands.contains(a));
    let ja = choose|q: int| 0 <= q < cands.len() && cands[q] == a;
    let c0 = cands[0];
    groups.lemma_filter_pred(hc, 0);
    assert(cands.contains(c0));
    groups.lemma_filter_contains_rev(hc, c0);
    assert(p(c0));
    lemma_filter_increasing(groups, hc);
    assert(c0 == a) by {
        if ja > 0 {
            assert(c0 < a);
        }
        if c0 < a {
            let i = choose|i: int| 0 <= i < site2room.len() && site2room[i] == r && site2group[i] == c0;
            let t = choose|t: int| 0 <= t < site2group.len() && site2group[t] == c0 && #[trigger] vi.num_face(t) > 0;
            assert(site2group[t] == site2group[i]);
        }
    }
    // the site's own group is among the others
    let oa = other_than(a);
    groups.lemma_filter_contains(oa, mg);
    let others = groups.filter(oa);
    assert(others.contains(g));
    let mo = choose|q: int| 0 <= q < others.len() && others[q] == g;
    let parts = others.map_values(sites_toward(site2group, a));
    lemma_range_filter(site2group.len(), holds_value(site2group, g));
    assert(indices_with(site2group, g).contains(s as usize));
    let ts = choose|q: int|
        0 <= q < indices_with(site2group, g).len() && indices_with(site2group, g)[q] == s as usize;
    assert(parts[mo][ts] == (Attraction::TowardGroup { site: s as usize, group: a }));
    let off = lemma_flatten_offset(parts, mo);
    assert(parts.flatten()[off + ts] == parts[mo][ts]);
    let fr = |q: int| room_attractions(vi, site2room, site2group, num_group, conns, q as usize);
    let all = Seq::new(num_room, fr);
    assert(all[r as int] == parts.flatten());
    let off2 = lemma_flatten_offset(all, r as int);
    let j = off + ts;
    assert(all.flatten()[off2 + j] == all[r as int][j]);
    off2 + j
}

} // verus!
