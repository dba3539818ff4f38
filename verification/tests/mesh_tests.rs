use terrain_gen::mesh::Mesh;
use terrain_gen::scale::{Scale, UNIT};

fn tenth(n: i64) -> i64 {
    n * (UNIT / 10)
}

#[test]
fn test_get_min_z() {
    let mut mesh = Mesh::new(3, 0);

    let z = vec![
        vec![tenth(8), tenth(1), tenth(3)],
        vec![tenth(9), tenth(7), tenth(4)],
        vec![tenth(2), tenth(5), tenth(6)],
    ];

    mesh.set_z_vector(z);

    assert_eq!(mesh.get_min_z(), tenth(1));
}

#[test]
fn test_get_max_z() {
    let mut mesh = Mesh::new(3, 0);

    let z = vec![
        vec![tenth(8), tenth(1), tenth(3)],
        vec![tenth(9), tenth(7), tenth(4)],
        vec![tenth(2), tenth(5), tenth(6)],
    ];

    mesh.set_z_vector(z);

    assert_eq!(mesh.get_max_z(), tenth(9));
}

#[test]
fn test_get_z_out_of_bounds_reads_sentinel() {
    let mesh = Mesh::new(2, 42);
    assert_eq!(mesh.get_z(-1, 0), 42);
    assert_eq!(mesh.get_z(0, 2), 42);
    assert_eq!(mesh.get_z(0, 0), 0);
    assert!(mesh.in_bounds(1, 1));
    assert!(!mesh.in_bounds(2, 0));
}

#[test]
fn test_rescale_remaps_cells_and_keeps_sentinel() {
    let mut mesh = Mesh::new(2, 7);
    mesh.set_z(0, 0, 0);
    mesh.set_z(0, 1, UNIT / 2);
    mesh.set_z(1, 0, UNIT / 4);
    mesh.set_z(1, 1, UNIT);
    let scale = Scale::new((0, UNIT), (0, 2 * UNIT));
    let out = mesh.rescale(&scale);
    assert_eq!(out.get_width(), 2);
    assert_eq!(out.get_out_of_bounds_z(), 7);
    assert_eq!(out.get_z(0, 0), 0);
    assert_eq!(out.get_z(0, 1), UNIT);
    assert_eq!(out.get_z(1, 0), UNIT / 2);
    assert_eq!(out.get_z(1, 1), 2 * UNIT);
}
