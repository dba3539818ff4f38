use terrain_gen::downhill::Downhill;
use terrain_gen::erosion::Erosion;
use terrain_gen::mesh::Mesh;
use terrain_gen::mesh_splitter::MeshSplitter;
use terrain_gen::rand::SeededRng;
use terrain_gen::scale::UNIT;

fn tenth(n: i64) -> i64 {
    n * (UNIT / 10)
}

#[test]
fn test_split_doubles_width_and_keeps_children_under_parents() {
    let mut mesh = Mesh::new(2, 10 * UNIT);
    mesh.set_z_vector(vec![vec![4 * UNIT, 6 * UNIT], vec![8 * UNIT, 2 * UNIT]]);
    let mut rng = SeededRng::new(11);
    let (out, _strict) = MeshSplitter::split(&mesh, &mut rng, (0, 750_000));
    assert_eq!(out.get_width(), 4);
    assert_eq!(out.get_out_of_bounds_z(), 10 * UNIT);
    for x in 0..4i32 {
        for y in 0..4i32 {
            assert!(out.get_z(x, y) <= mesh.get_z(x / 2, y / 2));
            // refinement never digs below the parent's neighbourhood floor
            let mut floor = mesh.get_z(x / 2, y / 2);
            for dx in -1..2i32 {
                for dy in -1..2i32 {
                    floor = floor.min(mesh.get_z(x / 2 + dx, y / 2 + dy));
                }
            }
            assert!(out.get_z(x, y) >= floor);
        }
    }
}

#[test]
fn test_split_strict_samples_preserve_downhill() {
    // repeated refinement from a single cell that drains off the grid: with
    // samples strictly inside their intervals, the refined mesh keeps a
    // downhill neighbour everywhere
    let mut mesh = Mesh::new(1, 0);
    mesh.set_z(0, 0, 8 * UNIT);
    let mut rng = SeededRng::new(7);
    // the first refinement samples from [0, 8] with an interior fraction, so
    // every sample is strictly inside its interval
    let (out, strict) = MeshSplitter::split(&mesh, &mut rng, (100_000, 900_000));
    assert!(strict);
    let downhill = Downhill::new(&out);
    assert!(downhill.all_cells_have_downhill());
    mesh = out;
    for _ in 0..2 {
        let (out, strict) = MeshSplitter::split(&mesh, &mut rng, (100_000, 900_000));
        if strict {
            let downhill = Downhill::new(&out);
            assert!(downhill.all_cells_have_downhill());
        }
        mesh = out;
    }
    assert_eq!(mesh.get_width(), 8);
}

#[test]
fn test_erode_reports_downhill_complete_mesh() {
    let mut mesh = Mesh::new(3, 0);
    mesh.set_z_vector(vec![
        vec![tenth(1), tenth(8), tenth(2)],
        vec![tenth(3), tenth(5), tenth(9)],
        vec![tenth(6), tenth(4), tenth(7)],
    ]);
    let mut rng = SeededRng::new(11);
    let (out, converged) = Erosion::erode(mesh, &mut rng, 0, 8);
    assert!(converged);
    let downhill = Downhill::new(&out);
    assert!(downhill.all_cells_have_downhill());
    // no pits, so nothing was touched
    assert_eq!(out.get_z(1, 1), tenth(5));
}

#[test]
fn test_erode_lowers_lone_pit_and_reports_failure() {
    // the centre is the strict global minimum with nowhere to drain; erosion
    // lowers it but cannot give it a downhill neighbour
    let mut mesh = Mesh::new(3, UNIT);
    mesh.set_z_vector(vec![
        vec![tenth(5), tenth(8), tenth(2)],
        vec![tenth(3), tenth(1), tenth(9)],
        vec![tenth(6), tenth(4), tenth(7)],
    ]);
    let mut rng = SeededRng::new(11);
    let (out, converged) = Erosion::erode(mesh, &mut rng, 0, 4);
    assert!(!converged);
    assert!(out.get_z(1, 1) < tenth(1));
    assert_eq!(out.get_z(0, 0), tenth(5));
}
