use floorplan::loss_topo::{
    attractions_from_groups, edge2roomgroup, inverse_map, is_two_room_connected, room2group,
    rooms_to_connect, siteface2adjsitesameroom, topology, unidirectional_attractions, Attraction,
};
use floorplan::voronoi2::VoronoiInfo;
use floorplan::{
    cell_edges, cell_polygon, edge2vtvx_wall, filled_cells, remove_site_too_close, room_palette_index,
    site2canmove, sum_sites_for_rooms,
};

const NONE: usize = usize::MAX;

/// Three unit cells side by side: site 0 | site 1 | site 2.
/// Vertices: 0 (0,0), 1 (1,0), 2 (2,0), 3 (3,0), 4 (3,1), 5 (2,1), 6 (1,1), 7 (0,1).
fn strip3() -> VoronoiInfo {
    VoronoiInfo {
        site2idx: vec![0, 4, 8, 12],
        idx2vtxv: vec![0, 1, 6, 7, 1, 2, 5, 6, 2, 3, 4, 5],
        idx2site: vec![NONE, 1, NONE, NONE, NONE, 2, NONE, 0, NONE, NONE, NONE, 1],
    }
}

/// Four unit cells side by side: site 0 | site 1 | site 2 | site 3.
fn strip4() -> VoronoiInfo {
    VoronoiInfo {
        site2idx: vec![0, 4, 8, 12, 16],
        idx2vtxv: vec![0, 1, 8, 9, 1, 2, 7, 8, 2, 3, 6, 7, 3, 4, 5, 6],
        idx2site: vec![
            NONE, 1, NONE, NONE, NONE, 2, NONE, 0, NONE, 3, NONE, 1, NONE, NONE, NONE, 2,
        ],
    }
}

/// The three cells of `strip3` and two more sites without a cell.
fn strip3_with_empty_cells() -> VoronoiInfo {
    let mut vi = strip3();
    vi.site2idx.push(12);
    vi.site2idx.push(12);
    vi
}

#[test]
fn inverse_map_lists_sites_of_each_group() {
    let site2group = vec![1, NONE, 0, 1, 2];
    let group2site = inverse_map(3, &site2group);
    assert_eq!(group2site, vec![vec![2], vec![0, 3], vec![4]]);
}

#[test]
fn inverse_map_empty_groups() {
    let group2site = inverse_map(2, &[NONE, NONE]);
    assert_eq!(group2site, vec![Vec::<usize>::new(), Vec::new()]);
    assert_eq!(inverse_map(0, &[]), Vec::<Vec<usize>>::new());
}

#[test]
fn walls_between_two_rooms() {
    let vi = strip3();
    assert_eq!(edge2vtvx_wall(&vi, &[0, 0, 1]), vec![2, 5]);
    assert_eq!(edge2vtvx_wall(&vi, &[0, 1, 2]), vec![1, 6, 2, 5]);
}

#[test]
fn walls_none_in_one_room_or_outside_rooms() {
    let vi = strip3();
    assert_eq!(edge2vtvx_wall(&vi, &[0, 0, 0]), Vec::<usize>::new());
    assert_eq!(edge2vtvx_wall(&vi, &[NONE, NONE, NONE]), Vec::<usize>::new());
}

#[test]
fn walls_toward_sites_outside_rooms() {
    let vi = strip3();
    assert_eq!(edge2vtvx_wall(&vi, &[NONE, 0, NONE]), vec![2, 5]);
}

#[test]
fn can_move_marks_lower_site_of_each_wall() {
    let vi = strip3();
    assert_eq!(site2canmove(&vi, &[0, 1, 2]), vec![true, true, false]);
    assert_eq!(site2canmove(&vi, &[0, 0, 1]), vec![false, true, false]);
    assert_eq!(site2canmove(&vi, &[0, 0, 0]), vec![false, false, false]);
}

#[test]
fn can_move_agrees_with_walls() {
    let vi = strip4();
    let rooms = [0, 1, 1, 2];
    let walls = edge2vtvx_wall(&vi, &rooms);
    let can_move = site2canmove(&vi, &rooms);
    assert_eq!(can_move, vec![true, false, true, false]);
    assert_eq!(walls, vec![1, 8, 3, 6]);
}

#[test]
fn incidence_of_sites_and_rooms() {
    let m = sum_sites_for_rooms(&[0, NONE, 1], 2);
    assert_eq!(m, vec![true, false, false, false, false, true]);
    assert_eq!(sum_sites_for_rooms(&[], 3), Vec::<bool>::new());
}

fn close_matrix(n: usize, pairs: &[(usize, usize)]) -> Vec<Vec<bool>> {
    let mut m = vec![vec![false; n]; n];
    for &(i, j) in pairs {
        m[i][j] = true;
        m[j][i] = true;
    }
    m
}

#[test]
fn remove_close_sites_of_same_room() {
    let mut rooms = vec![0, 0, 0, 1];
    let close = close_matrix(4, &[(0, 1), (1, 2), (2, 3)]);
    remove_site_too_close(&mut rooms, &close);
    assert_eq!(rooms, vec![0, NONE, 0, 1]);
}

#[test]
fn remove_close_keeps_other_rooms_and_outside_sites() {
    let mut rooms = vec![NONE, 0, 1, 0];
    let close = close_matrix(4, &[(0, 1), (1, 2), (2, 3), (1, 3)]);
    remove_site_too_close(&mut rooms, &close);
    assert_eq!(rooms, vec![NONE, 0, 1, NONE]);
}

#[test]
fn remove_close_twice_changes_nothing() {
    let mut rooms = vec![0, 0, 0, 0, 1, 1];
    let close = close_matrix(6, &[(0, 2), (1, 3), (2, 3), (4, 5), (0, 4)]);
    remove_site_too_close(&mut rooms, &close);
    let once = rooms.clone();
    assert_eq!(once, vec![0, 0, NONE, NONE, 1, NONE]);
    remove_site_too_close(&mut rooms, &close);
    assert_eq!(rooms, once);
}

#[test]
fn same_room_neighbor_across_faces() {
    let vi = strip3();
    let rooms = [0, 0, 1];
    assert_eq!(siteface2adjsitesameroom(&vi, &rooms, 0, 1), 1);
    assert_eq!(siteface2adjsitesameroom(&vi, &rooms, 0, 0), NONE);
    assert_eq!(siteface2adjsitesameroom(&vi, &rooms, 1, 1), NONE);
    assert_eq!(siteface2adjsitesameroom(&vi, &rooms, 1, 3), 0);
}

#[test]
fn topology_of_connected_rooms() {
    let vi = strip3();
    let (num_group, site2group, room2group) = topology(&vi, 2, &[0, 0, 1]);
    assert_eq!(num_group, 2);
    assert_eq!(site2group, vec![0, 0, 1]);
    assert_eq!(room2group, vec![vec![0], vec![1]]);
}

#[test]
fn topology_of_split_room() {
    let vi = strip3();
    let (num_group, site2group, room2group) = topology(&vi, 2, &[0, 1, 0]);
    assert_eq!(num_group, 3);
    assert_eq!(site2group, vec![0, 1, 2]);
    assert_eq!(room2group, vec![vec![0, 2], vec![1]]);
}

#[test]
fn room_groups_are_sorted_and_distinct() {
    let room2group = room2group(3, 5, &[2, 0, 2, NONE, 2, 0], &[4, 1, 0, 3, 4, 1]);
    assert_eq!(room2group, vec![vec![1], Vec::new(), vec![0, 4]]);
}

#[test]
fn connected_rooms() {
    let vi = strip4();
    let rooms = [0, 1, 1, 2];
    let room2site = inverse_map(3, &rooms);
    assert!(is_two_room_connected(0, 1, &rooms, &room2site, &vi));
    assert!(is_two_room_connected(2, 1, &rooms, &room2site, &vi));
    assert!(!is_two_room_connected(0, 2, &rooms, &room2site, &vi));
    assert!(!is_two_room_connected(1, 1 + 5, &rooms, &room2site, &vi));
}

#[test]
fn partners_of_a_room() {
    let conns = vec![(0, 1), (2, 0), (1, 2), (0, 3)];
    assert_eq!(rooms_to_connect(0, &conns), vec![1, 2, 3]);
    assert_eq!(rooms_to_connect(2, &conns), vec![0, 1]);
    assert_eq!(rooms_to_connect(4, &conns), Vec::<usize>::new());
}

#[test]
fn attractions_for_missing_connection() {
    let vi = strip4();
    let got = unidirectional_attractions(&vi, &[0, 1, 1, 2], 3, &vec![(0, 2), (0, 1)]);
    assert_eq!(
        got,
        vec![
            Attraction::TowardRoom { room: 0, other_room: 2 },
            Attraction::TowardRoom { room: 2, other_room: 0 },
        ]
    );
}

#[test]
fn attractions_for_split_room() {
    let vi = strip3();
    let got = unidirectional_attractions(&vi, &[0, 1, 0], 2, &vec![(0, 1)]);
    assert_eq!(got, vec![Attraction::TowardGroup { site: 2, group: 0 }]);
}

#[test]
fn attractions_for_room_without_cells() {
    let vi = strip3_with_empty_cells();
    let got = unidirectional_attractions(&vi, &[0, 1, 2, 3, 3], 4, &vec![]);
    assert_eq!(
        got,
        vec![Attraction::ToCenter { site: 3 }, Attraction::ToCenter { site: 4 }]
    );
}

#[test]
fn attractions_from_given_groups() {
    let vi = strip3();
    let site2room = [0, 1, 0];
    let site2group = [0, 1, 2];
    let room2group = vec![vec![0, 2], vec![1]];
    let got = attractions_from_groups(&vi, &site2room, 2, 3, &site2group, &room2group, &vec![]);
    assert_eq!(got, vec![Attraction::TowardGroup { site: 2, group: 0 }]);
}

#[test]
fn kmean_edges_of_split_room_and_missing_connection() {
    let vi = strip3();
    let got = edge2roomgroup(&vi, &[0, 1, 0], 2, &vec![(0, 1)]);
    assert_eq!(got, vec![(0, true), (0, false), (0, true), (2, false)]);
    let vi = strip4();
    let got = edge2roomgroup(&vi, &[0, 1, 1, 2], 3, &vec![(0, 2), (1, 2)]);
    assert_eq!(got, vec![(0, true), (2, true)]);
}

#[test]
fn polygon_of_a_cell() {
    let vi = strip3();
    assert_eq!(cell_polygon(&vi, 1), vec![1, 2, 5, 6]);
    let vi = strip3_with_empty_cells();
    assert_eq!(cell_polygon(&vi, 3), Vec::<usize>::new());
}

#[test]
fn boundaries_of_all_cells() {
    let vi = strip3();
    let edges = cell_edges(&vi);
    assert_eq!(
        edges,
        vec![0, 1, 1, 6, 6, 7, 7, 0, 1, 2, 2, 5, 5, 6, 6, 1, 2, 3, 3, 4, 4, 5, 5, 2]
    );
}

#[test]
fn palette_index_of_rooms() {
    assert_eq!(room_palette_index(0), 2);
    assert_eq!(room_palette_index(253), 255);
}

#[test]
fn groups_stay_in_rooms_and_outside_sites_are_alone() {
    let vi = strip4();
    let site2room = [0, NONE, NONE, 0];
    let (_, site2group, room2group) = topology(&vi, 1, &site2room);
    assert_ne!(site2group[1], site2group[2]);
    assert_ne!(site2group[0], site2group[3]);
    for i in 0..4 {
        for j in 0..4 {
            if site2group[i] == site2group[j] {
                assert_eq!(site2room[i], site2room[j]);
            }
        }
    }
    assert_eq!(room2group[0].len(), 2);
}

#[test]
fn attractions_leave_outside_sites_alone() {
    let vi = strip4();
    let site2room = [0, NONE, NONE, 0];
    let got = unidirectional_attractions(&vi, &site2room, 1, &vec![]);
    assert_eq!(got, vec![Attraction::TowardGroup { site: 3, group: 0 }]);
}

#[test]
fn swapped_connection_swaps_edge_ends() {
    let vi = strip4();
    let rooms = [0, 1, 1, 2];
    let forward = edge2roomgroup(&vi, &rooms, 3, &vec![(1, 2), (0, 2)]);
    let backward = edge2roomgroup(&vi, &rooms, 3, &vec![(1, 2), (2, 0)]);
    assert_eq!(forward, vec![(0, true), (2, true)]);
    assert_eq!(backward, vec![(2, true), (0, true)]);
}

#[test]
fn cells_to_fill_with_room_colors() {
    let vi = strip3_with_empty_cells();
    let got = filled_cells(&vi, &[1, NONE, 0, 2, 5]);
    assert_eq!(got, vec![(0, 3), (2, 2)]);
}
