use terrain_gen::flow_map::FlowMap;
use terrain_gen::mesh::Mesh;
use terrain_gen::single_downhill::MockDownhillMap;

fn directions() -> MockDownhillMap {
    MockDownhillMap::new(vec![
        vec![6, 6, 6, 6],
        vec![6, 6, 6, 6],
        vec![0, 0, 0, 0],
        vec![0, 0, 0, 0],
    ])
}

#[test]
pub fn test_rain_on() {
    let mesh = Mesh::new(4, 0);
    let downhill_map = directions();

    let mut flow_map = FlowMap::new(4);
    let exited = flow_map.rain_on_capped(&mesh, &downhill_map, 2, 1);
    assert!(exited);

    let expected = vec![
        vec![0u32, 0, 0, 0],
        vec![0, 1, 1, 1],
        vec![0, 1, 0, 0],
        vec![0, 0, 0, 0],
    ];

    for x in 0..4i32 {
        for y in 0..4i32 {
            assert_eq!(flow_map.get_flow(x, y), expected[x as usize][y as usize]);
        }
    }
}

#[test]
pub fn test_from() {
    let mesh = Mesh::new(4, 0);
    let downhill_map = directions();

    let flow_map = FlowMap::from_capped(&mesh, &downhill_map).unwrap();

    let expected = vec![
        vec![1u32, 2, 3, 4],
        vec![3, 6, 9, 12],
        vec![2, 2, 2, 2],
        vec![1, 1, 1, 1],
    ];

    for x in 0..4i32 {
        for y in 0..4i32 {
            assert_eq!(flow_map.get_flow(x, y), expected[x as usize][y as usize]);
        }
    }
}

#[test]
fn test_every_cell_rains_on_itself() {
    let mesh = Mesh::new(4, 0);
    let downhill_map = directions();
    let flow_map = FlowMap::from_capped(&mesh, &downhill_map).unwrap();
    for x in 0..4i32 {
        for y in 0..4i32 {
            assert!(flow_map.get_flow(x, y) >= 1);
        }
    }
}

#[test]
fn test_total_flow_counts_trace_steps() {
    // the sum of all flow counts equals the total number of cells visited by
    // all sixteen traces; here every trace runs to the nearest exit
    let mesh = Mesh::new(4, 0);
    let downhill_map = directions();
    let flow_map = FlowMap::from_capped(&mesh, &downhill_map).unwrap();
    let mut total: u64 = 0;
    for x in 0..4i32 {
        for y in 0..4i32 {
            total += flow_map.get_flow(x, y) as u64;
        }
    }
    // trace lengths per source, row by row: rows 0 and 1 run along +y to the
    // edge (4+3+2+1 each), rows 2 and 3 first step along -x and then drain
    // along row 1
    let expected_total: u64 = (4 + 3 + 2 + 1) + (4 + 3 + 2 + 1) + (5 + 4 + 3 + 2) + (6 + 5 + 4 + 3);
    assert_eq!(total, expected_total);
}

#[test]
fn test_trace_over_budget_is_a_stage_failure() {
    // two cells pointing at each other never drain: the capped tracer
    // reports the failure instead of looping
    let mesh = Mesh::new(2, 0);
    let downhill_map = MockDownhillMap::new(vec![vec![4, 4], vec![0, 0]]);

    let mut flow_map = FlowMap::new(2);
    let exited = flow_map.rain_on_capped(&mesh, &downhill_map, 0, 0);
    assert!(!exited);

    assert!(FlowMap::from_capped(&mesh, &downhill_map).is_none());
}

#[test]
fn test_capped_tracer_agrees_on_descending_terrain() {
    // on a mesh with strict descent everywhere the capped tracer succeeds and
    // matches the descending tracer cell for cell
    let mut mesh = Mesh::new(2, 0);
    mesh.set_z_vector(vec![vec![400, 300], vec![200, 100]]);
    let downhill_map = MockDownhillMap::new(vec![vec![5, 5], vec![5, 5]]);
    let strong = FlowMap::from(&mesh, &downhill_map);
    let capped = FlowMap::from_capped(&mesh, &downhill_map).unwrap();
    for x in 0..2i32 {
        for y in 0..2i32 {
            assert_eq!(strong.get_flow(x, y), capped.get_flow(x, y));
        }
    }
}
