use terrain_gen::downhill::Downhill;
use terrain_gen::mesh::Mesh;
use terrain_gen::scale::UNIT;

fn tenth(n: i64) -> i64 {
    n * (UNIT / 10)
}

fn mesh_from(rows: Vec<Vec<i64>>) -> Mesh {
    let mut mesh = Mesh::new(rows.len() as i32, 0);
    mesh.set_z_vector(rows);
    mesh
}

#[test]
fn test_compute_directions() {
    let mesh = mesh_from(vec![
        vec![tenth(1), tenth(8), tenth(2)],
        vec![tenth(3), tenth(5), tenth(9)],
        vec![tenth(6), tenth(4), tenth(7)],
    ]);

    let expected = [false, true, true, false, true, false, false, true];
    let actual = Downhill::compute_directions(&mesh, 1, 1);

    assert_eq!(actual, expected);
}

#[test]
fn test_compute_all_directions() {
    let mesh = mesh_from(vec![vec![tenth(1), tenth(2)], vec![tenth(3), tenth(4)]]);

    let expected = vec![
        vec![
            [true, true, true, true, false, false, false, true],
            [true, true, true, false, false, true, true, true],
        ],
        vec![
            [true, true, true, true, true, true, false, true],
            [true, true, true, true, true, true, true, true],
        ],
    ];

    let actual = Downhill::new(&mesh);

    for x in 0..2i32 {
        for y in 0..2i32 {
            assert_eq!(actual.get_directions(x, y), expected[x as usize][y as usize]);
        }
    }
}

#[test]
fn test_all_cells_have_downhill() {
    let mesh = mesh_from(vec![
        vec![tenth(1), tenth(8), tenth(2)],
        vec![tenth(3), tenth(5), tenth(9)],
        vec![tenth(6), tenth(4), tenth(7)],
    ]);
    let downhill = Downhill::new(&mesh);

    assert_eq!(downhill.all_cells_have_downhill(), true);
}

#[test]
fn test_not_all_cells_have_downhill() {
    let mesh = mesh_from(vec![
        vec![tenth(5), tenth(8), tenth(2)],
        vec![tenth(3), tenth(1), tenth(9)],
        vec![tenth(6), tenth(4), tenth(7)],
    ]);
    let downhill = Downhill::new(&mesh);

    assert_eq!(downhill.all_cells_have_downhill(), false);
}

#[test]
fn test_downhill_antisymmetric_on_grid() {
    // wherever a direction bit is set and the neighbour is in bounds, the
    // opposite bit of the neighbour is clear
    let offsets: [(i32, i32); 8] =
        [(-1, 0), (-1, -1), (0, -1), (1, -1), (1, 0), (1, 1), (0, 1), (-1, 1)];
    let mesh = mesh_from(vec![
        vec![tenth(1), tenth(8), tenth(2)],
        vec![tenth(3), tenth(5), tenth(9)],
        vec![tenth(6), tenth(4), tenth(7)],
    ]);
    let downhill = Downhill::new(&mesh);
    for x in 0..3i32 {
        for y in 0..3i32 {
            let dirs = downhill.get_directions(x, y);
            for d in 0..8usize {
                let nx = x + offsets[d].0;
                let ny = y + offsets[d].1;
                if dirs[d] && nx >= 0 && ny >= 0 && nx < 3 && ny < 3 {
                    let opposite = if d < 4 { d + 4 } else { d - 4 };
                    assert!(!downhill.get_directions(nx, ny)[opposite]);
                }
            }
        }
    }
}
