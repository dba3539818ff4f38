use terrain_gen::flow_map::FlowMap;
use terrain_gen::mesh::Mesh;
use terrain_gen::rand::SeededRng;
use terrain_gen::river_runner::{get_junctions_and_rivers, get_junctions_and_rivers_from_flow_map,
    get_max_flow_over_sea_level, get_neighbour, Color, Junction, Position, River};
use terrain_gen::single_downhill::MockDownhillMap;
use terrain_gen::scale::UNIT;

fn mesh() -> Mesh {
    let mut mesh = Mesh::new(4, 0);
    let z = vec![
        vec![UNIT, UNIT, UNIT, UNIT],
        vec![UNIT, UNIT, 0, 0],
        vec![UNIT, UNIT, UNIT, UNIT],
        vec![UNIT, UNIT, UNIT, UNIT],
    ];
    mesh.set_z_vector(z);
    mesh
}

fn downhill_map() -> MockDownhillMap {
    MockDownhillMap::new(vec![
        vec![6, 6, 6, 6],
        vec![6, 6, 6, 6],
        vec![0, 0, 0, 0],
        vec![0, 0, 0, 0],
    ])
}

fn flow_map() -> FlowMap {
    let mut flow_map = FlowMap::new(4);
    let values = vec![
        vec![1u32, 2, 5, 7],
        vec![3, 7, 9, 12],
        vec![2, 2, 2, 2],
        vec![1, 1, 1, 1],
    ];
    for x in 0..4i32 {
        for y in 0..4i32 {
            flow_map.set_flow(x, y, values[x as usize][y as usize]);
        }
    }
    flow_map
}

#[test]
fn test_get_downhill() {
    let position = Position { x: 1, y: 2 };
    assert_eq!(
        get_neighbour(position, &mesh(), &downhill_map()),
        Some(Position { x: 1, y: 3 })
    );
}

#[test]
fn test_get_downhill_out_of_bounds() {
    let position = Position { x: 1, y: 3 };
    assert_eq!(get_neighbour(position, &mesh(), &downhill_map()), None);
}

#[test]
fn test_get_max_flow_over_sea_level() {
    assert_eq!(get_max_flow_over_sea_level(&mesh(), UNIT / 2, &flow_map()), 7);
}

#[test]
fn test_get_junctions_and_rivers_from_flow_map() {
    let (junctions, rivers) = get_junctions_and_rivers_from_flow_map(
        &mesh(),
        3,
        UNIT / 2,
        (0, UNIT),
        &downhill_map(),
        &flow_map(),
    );

    println!("{:?}", rivers);
    println!("{:?}", junctions);

    let blue = Color::blue();

    let half = UNIT / 2;
    let one_and_half = UNIT + UNIT / 2;
    assert!(junctions.contains(&Junction::new(Position { x: 1, y: 0 }, 0, 0, blue)));
    assert!(junctions.contains(&Junction::new(Position { x: 1, y: 1 }, UNIT, UNIT, blue)));
    assert!(rivers.contains(&River::new(Position { x: 1, y: 0 }, Position { x: 1, y: 1 }, blue)));
    assert!(junctions.contains(&Junction::new(Position { x: 1, y: 1 }, UNIT, UNIT, blue)));
    assert!(junctions.contains(
        &Junction::new(Position { x: 1, y: 2 }, one_and_half, one_and_half, blue)
    ));
    assert!(rivers.contains(&River::new(Position { x: 1, y: 1 }, Position { x: 1, y: 2 }, blue)));
    assert!(junctions.contains(&Junction::new(Position { x: 0, y: 2 }, half, half, blue)));
    assert!(junctions.contains(&Junction::new(Position { x: 0, y: 3 }, UNIT, UNIT, blue)));
    assert!(rivers.contains(&River::new(Position { x: 0, y: 2 }, Position { x: 0, y: 3 }, blue)));
    assert_eq!(rivers.len(), 3);
    assert_eq!(junctions.len(), 6);
}

#[test]
fn test_get_junctions_and_rivers_full_stage() {
    // a mesh whose every cell has a strictly lower neighbour; every river
    // emitted must point at a strictly lower in-bounds cell
    let mut mesh = Mesh::new(3, 0);
    let tenth = UNIT / 10;
    mesh.set_z_vector(vec![
        vec![1 * tenth, 8 * tenth, 2 * tenth],
        vec![3 * tenth, 5 * tenth, 9 * tenth],
        vec![6 * tenth, 4 * tenth, 7 * tenth],
    ]);
    let mut rng = SeededRng::new(11);
    let (junctions, rivers) = get_junctions_and_rivers(&mesh, 1, 0, (10_000, 490_000), &mut rng);
    assert_eq!(junctions.len(), 2 * rivers.len());
    for river in rivers.iter() {
        let from_z = mesh.get_z(river.from.x, river.from.y);
        let to_z = mesh.get_z(river.to.x, river.to.y);
        assert!(mesh.in_bounds(river.to.x, river.to.y));
        assert!(to_z < from_z);
    }
}
