use elderforge::seq_count::positions_occurring_once;
use elderforge::physics::lattice::lattice_tetrahedra;
use elderforge::physics::particles::{offset_pairs, offset_tets, ParticleRegistry};
use elderforge::physics::polytope::{edge_key, horizon_edges, sorted_tri};
use elderforge::physics::soft::{free_particle_count, Cloth, ClothHandle, ClothTopology, SoftBody, SoftBodyHandle};
use elderforge::physics::tet_mesh::{boundary_faces, unique_edges, used_nodes};

/// Node positions of a lattice of `cells` over `center +- half`, x fastest.
fn node_positions(cells: [u32; 3], half: [f32; 3]) -> Vec<[f32; 3]> {
    let mut out = Vec::new();
    for k in 0..=cells[2] {
        for j in 0..=cells[1] {
            for i in 0..=cells[0] {
                out.push([
                    -half[0] + 2.0 * half[0] * i as f32 / cells[0] as f32,
                    -half[1] + 2.0 * half[1] * j as f32 / cells[1] as f32,
                    -half[2] + 2.0 * half[2] * k as f32 / cells[2] as f32,
                ]);
            }
        }
    }
    out
}

fn tet_volume(p: &[[f32; 3]], t: [u32; 4]) -> f32 {
    let a = p[t[0] as usize];
    let sub = |x: [f32; 3]| [x[0] - a[0], x[1] - a[1], x[2] - a[2]];
    let (b, c, d) = (sub(p[t[1] as usize]), sub(p[t[2] as usize]), sub(p[t[3] as usize]));
    let cross = [c[1] * d[2] - c[2] * d[1], c[2] * d[0] - c[0] * d[2], c[0] * d[1] - c[1] * d[0]];
    (b[0] * cross[0] + b[1] * cross[1] + b[2] * cross[2]) / 6.0
}

fn all_cells(cells: [u32; 3]) -> Vec<bool> {
    vec![true; (cells[0] * cells[1] * cells[2]) as usize]
}

#[test]
fn box_lattice_has_six_tets_per_cell() {
    let cells = [1, 1, 1];
    let tets = lattice_tetrahedra(cells, &all_cells(cells));
    // One cell -> 8 nodes, 6 tets.
    let (used, count) = used_nodes(8, &tets);
    assert_eq!(used.len(), 8);
    assert_eq!(count, 8);
    assert_eq!(tets.len(), 6);
    // A single cube's boundary is 6 faces x 2 triangles = 12.
    assert_eq!(boundary_faces(&tets).len(), 12);
    // Every tet has a non-negligible rest volume.
    let p = node_positions(cells, [0.5; 3]);
    assert!(tets.iter().all(|&t| tet_volume(&p, t).abs() > 1e-9));
}

#[test]
fn box_lattice_total_volume_matches_box() {
    let cells = [2, 2, 2];
    let tets = lattice_tetrahedra(cells, &all_cells(cells));
    let p = node_positions(cells, [0.5; 3]);
    let total: f32 = tets.iter().map(|&t| tet_volume(&p, t).abs()).sum();
    assert!((total - 1.0).abs() < 1e-5, "summed tet volume {total} != 1");
}

#[test]
fn lattice_indices_are_in_range() {
    let cells = [3, 2, 4];
    let tets = lattice_tetrahedra(cells, &all_cells(cells));
    let n = 4 * 3 * 5;
    let edges = unique_edges(&tets);
    let surface = boundary_faces(&tets);
    assert!(edges.iter().all(|&(a, b)| a < n && b < n && a != b));
    assert!(tets.iter().all(|t| t.iter().all(|&v| v < n)));
    assert!(surface.iter().all(|(t, o)| t.iter().all(|&v| v < n) && *o < n));
}

#[test]
fn ball_keeps_only_interior_cells_and_is_lighter_than_its_box() {
    let res = 6u32;
    let r = 1.0f32;
    let step = 2.0 * r / res as f32;
    let mut keep = Vec::new();
    for k in 0..res {
        for j in 0..res {
            for i in 0..res {
                let c = [
                    (i as f32 + 0.5) * step - r,
                    (j as f32 + 0.5) * step - r,
                    (k as f32 + 0.5) * step - r,
                ];
                keep.push((c[0] * c[0] + c[1] * c[1] + c[2] * c[2]).sqrt() <= r);
            }
        }
    }
    let ball = lattice_tetrahedra([res; 3], &keep);
    let boxed = lattice_tetrahedra([res; 3], &all_cells([res; 3]));
    assert!(ball.len() < boxed.len());
    assert!(!boundary_faces(&ball).is_empty());
    let (used, count) = used_nodes(7 * 7 * 7, &ball);
    assert!(used.iter().any(|&u| u));
    assert!(count < 7 * 7 * 7, "corner nodes carry no mass");
}

#[test]
fn lattice_clamps_zero_cells_to_one() {
    let tets = lattice_tetrahedra([0, 0, 0], &vec![true]);
    assert_eq!(tets.len(), 6);
    assert_eq!(tets[0], [0, 1, 3, 7]);
    assert_eq!(tets[5], [0, 4, 6, 7]);
}

#[test]
fn lattice_skips_dropped_cells() {
    let tets = lattice_tetrahedra([2, 1, 1], &vec![false, true]);
    assert_eq!(tets.len(), 6);
    // Cell (1, 0, 0) of a 3x2x2 node grid: low corner is node 1.
    assert_eq!(tets[0], [1, 2, 5, 11]);
}

#[test]
fn unique_edges_of_one_tet_and_shared_faces() {
    let one = vec![[0, 1, 2, 3]];
    assert_eq!(unique_edges(&one), vec![(0, 1), (0, 2), (0, 3), (1, 2), (1, 3), (2, 3)]);
    // Two tets sharing face (0, 1, 2): 6 + 3 new edges, and 6 boundary faces.
    let two = vec![[0, 1, 2, 3], [2, 1, 0, 4]];
    assert_eq!(unique_edges(&two).len(), 9);
    let faces = boundary_faces(&two);
    assert_eq!(faces.len(), 6);
    assert!(faces.iter().all(|(t, _)| {
        let mut s = *t;
        s.sort();
        s != [0, 1, 2]
    }));
    assert_eq!(faces[0], ([1, 2, 3], 0));
}

#[test]
fn used_nodes_counts_at_least_one() {
    let (used, count) = used_nodes(5, &vec![]);
    assert_eq!(used, vec![false; 5]);
    assert_eq!(count, 1);
    let (used, count) = used_nodes(6, &vec![[5, 1, 2, 3]]);
    assert_eq!(used, vec![false, true, true, true, false, true]);
    assert_eq!(count, 4);
}

#[test]
fn sorted_tri_and_edge_key() {
    assert_eq!(sorted_tri([3, 1, 2]), [1, 2, 3]);
    assert_eq!(sorted_tri([2, 2, 1]), [1, 2, 2]);
    assert_eq!(edge_key(7, 3), (3, 7));
    assert_eq!(edge_key(3, 7), (3, 7));
}

#[test]
fn horizon_of_two_adjacent_faces() {
    // Two triangles sharing edge 1-2: the horizon is the outer four edges.
    let faces = vec![[0, 1, 2], [2, 1, 3]];
    assert_eq!(horizon_edges(&faces), vec![(0, 1), (0, 2), (1, 3), (2, 3)]);
    assert!(horizon_edges(&vec![]).is_empty());
}

#[test]
fn cloth_grid_constraint_topology() {
    let cloth = ClothTopology::grid(4, 3);
    assert_eq!(cloth.particle_count(), 12);
    // Structural: horizontal (cols-1)*rows + vertical cols*(rows-1).
    assert_eq!(cloth.structural.len(), 3 * 3 + 4 * 2);
    // Shear: 2 per interior quad.
    assert_eq!(cloth.shear.len(), 2 * 3 * 2);
    // Bending: (cols-2)*rows + cols*(rows-2).
    assert_eq!(cloth.bending.len(), 2 * 3 + 4 * 1);
    // Rest lengths come from the placed positions (unit spacing here).
    let pos = |i: u32| ((i % 4) as f32, (i / 4) as f32);
    assert!(cloth.structural.iter().all(|&(a, b)| {
        let (pa, pb) = (pos(a), pos(b));
        let l = ((pa.0 - pb.0).powi(2) + (pa.1 - pb.1).powi(2)).sqrt();
        (l - 1.0).abs() < 1e-6
    }));
}

#[test]
fn cloth_grid_clamps_and_orders() {
    let g = ClothTopology::grid(0, 1);
    assert_eq!((g.cols, g.rows), (2, 2));
    assert_eq!(g.structural, vec![(0, 1), (0, 2), (1, 3), (2, 3)]);
    assert_eq!(g.shear, vec![(0, 3), (1, 2)]);
    assert!(g.bending.is_empty());
}

#[test]
fn cloth_pins_get_zero_inverse_mass() {
    let pinned: Vec<bool> = (0..9).map(|i| i == 0 || i == 2).collect();
    assert_eq!(free_particle_count(&pinned), 7);
    assert_eq!(free_particle_count(&vec![true, true]), 1);
}

#[test]
fn cloth_indices_cover_every_quad() {
    let cloth = Cloth::new(0, 4, 3);
    // (cols-1)(rows-1) quads x 2 triangles x 3 indices.
    assert_eq!(cloth.indices().len(), 3 * 2 * 2 * 3);
    let n = (4 * 3) as u32;
    assert!(cloth.indices().iter().all(|&i| i < n));
}

#[test]
fn cloth_and_soft_body_bookkeeping() {
    let cloth = Cloth::new(10, 2, 2);
    assert_eq!(cloth.base(), 10);
    assert_eq!(cloth.dims(), (2, 2));
    assert_eq!(cloth.particle_count(), 4);
    assert_eq!(cloth.indices(), vec![0, 2, 3, 0, 3, 1]);
    let soft = SoftBody::new(3, 8, vec![[0, 1, 2]]);
    assert_eq!(soft.base(), 3);
    assert_eq!(soft.particle_count(), 8);
    assert_eq!(soft.surface(), &[[0, 1, 2]]);
    assert_eq!(soft.clone().surface(), &[[0, 1, 2]]);
    assert_eq!(ClothHandle(1), ClothHandle(1));
    assert_ne!(SoftBodyHandle(0), SoftBodyHandle(2));
}

#[test]
fn particle_runs_are_appended_and_disjoint() {
    let mut reg = ParticleRegistry::new();
    let s = reg.add_soft_body(8, vec![[0, 1, 2]]);
    let c = reg.add_cloth(4, 3);
    let s2 = reg.add_soft_body(5, vec![]);
    assert_eq!(reg.particle_count(), 25);
    assert_eq!(reg.soft_body_range(s), Some((0, 8)));
    assert_eq!(reg.cloth_range(c), Some((8, 20)));
    assert_eq!(reg.soft_body_range(s2), Some((20, 25)));
    assert_eq!(reg.soft_body(SoftBodyHandle(2)).map(|b| b.base()), None);
    assert_eq!(reg.cloth(c).map(|cl| cl.dims()), Some((4, 3)));
    assert_eq!(reg.cloth_range(ClothHandle(1)), None);
    assert_eq!(reg.soft_bodies().len(), 2);
    assert_eq!(reg.cloths().len(), 1);
    assert_eq!(offset_pairs(8, &vec![(0, 1), (3, 2)]), vec![(8, 9), (11, 10)]);
    assert_eq!(offset_tets(20, &vec![[0, 1, 2, 4]]), vec![[20, 21, 22, 24]]);
}

#[test]
fn positions_occurring_once_skips_repeated_keys() {
    let keys: Vec<u128> = vec![7, 3, 7, 9, 3, 5];
    assert_eq!(positions_occurring_once(&keys), vec![3, 5]);
    assert!(positions_occurring_once(&vec![]).is_empty());
}

#[test]
fn lattice_edges_and_surface_stay_inside_the_lattice() {
    let cells = [3u32, 2, 2];
    let tets = lattice_tetrahedra(cells, &all_cells(cells));
    let nodes = 4 * 3 * 3;
    for (a, b) in unique_edges(&tets) {
        assert!(a < b && (b as usize) < nodes);
    }
    let faces = boundary_faces(&tets);
    assert!(!faces.is_empty());
    for (tri, opposite) in faces {
        assert!(tri.iter().all(|&v| (v as usize) < nodes));
        assert!((opposite as usize) < nodes);
    }
}

#[test]
fn soft_body_surface_names_its_own_particles() {
    let soft = SoftBody::new(10, 4, vec![[0, 1, 2], [1, 2, 3]]);
    assert!(soft.surface().iter().all(|t| t.iter().all(|&v| (v as usize) < soft.particle_count())));
}
