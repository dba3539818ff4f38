use terrain_gen::mesh::Mesh;
use terrain_gen::world::{parse_rivers, RiverRecord, World};

#[test]
fn test_parse_rivers_reads_records() {
    let text: Vec<u8> = b"1,2,3,4,5\n10,20,30,40,50\n".to_vec();
    let records = parse_rivers(&text).unwrap();
    assert_eq!(records.len(), 2);
    assert_eq!(records[0], RiverRecord { x: 1, y: 2, nx: 3, ny: 4, flow: 5 });
    assert_eq!(records[1], RiverRecord { x: 10, y: 20, nx: 30, ny: 40, flow: 50 });
}

#[test]
fn test_parse_rivers_skips_empty_lines_and_final_newline_is_optional() {
    let text: Vec<u8> = b"\n7,8,9,10,11\n\n1,1,1,1,4294967295".to_vec();
    let records = parse_rivers(&text).unwrap();
    assert_eq!(records.len(), 2);
    assert_eq!(records[0], RiverRecord { x: 7, y: 8, nx: 9, ny: 10, flow: 11 });
    assert_eq!(records[1].flow, 4294967295);
}

#[test]
fn test_parse_rivers_rejects_malformed_input() {
    assert!(parse_rivers(&b"1,2,3,4\n".to_vec()).is_none());
    assert!(parse_rivers(&b"1,2,3,4,5,6\n".to_vec()).is_none());
    assert!(parse_rivers(&b"1,2,,4,5\n".to_vec()).is_none());
    assert!(parse_rivers(&b"1,2,x,4,5\n".to_vec()).is_none());
    assert!(parse_rivers(&b"1,2,3,4,4294967296\n".to_vec()).is_none());
}

#[test]
fn test_world_holds_its_parts() {
    let mesh = Mesh::new(2, 0);
    let rivers = vec![RiverRecord { x: 0, y: 0, nx: 0, ny: 1, flow: 3 }];
    let world = World::new(mesh, 42, rivers);
    assert_eq!(world.sea_level, 42);
    assert_eq!(world.rivers.len(), 1);
    assert_eq!(world.mesh.get_width(), 2);
}
