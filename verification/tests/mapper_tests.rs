use pixel_vault::ledger::VaultError;
use pixel_vault::mapper::{get_coordinates_from_id, get_index_from_coordinates, Coordinates};

#[test]
fn id_one_maps_to_origin() {
    let c = get_coordinates_from_id(1, 1000);
    assert_eq!(c, Ok(Coordinates { x: 1, y: 1 }));
}

#[test]
fn ids_walk_rows_first() {
    assert_eq!(
        get_coordinates_from_id(1000, 1000),
        Ok(Coordinates { x: 1000, y: 1 })
    );
    assert_eq!(
        get_coordinates_from_id(1001, 1000),
        Ok(Coordinates { x: 1, y: 2 })
    );
    assert_eq!(
        get_coordinates_from_id(1_000_000, 1000),
        Ok(Coordinates { x: 1000, y: 1000 })
    );
}

#[test]
fn out_of_range_ids_are_rejected() {
    assert_eq!(get_coordinates_from_id(0, 1000), Err(VaultError::OutOfRange));
    assert_eq!(
        get_coordinates_from_id(1_000_001, 1000),
        Err(VaultError::OutOfRange)
    );
}

#[test]
fn coordinates_round_trip_to_index() {
    assert_eq!(get_index_from_coordinates(1, 1, 1000), 0);
    assert_eq!(get_index_from_coordinates(1000, 1, 1000), 999);
    assert_eq!(get_index_from_coordinates(1, 2, 1000), 1000);
    for id in [1u32, 2, 999, 1000, 1001, 123_456, 1_000_000] {
        let c = get_coordinates_from_id(id, 1000).unwrap();
        assert_eq!(get_index_from_coordinates(c.x, c.y, 1000), (id - 1) as usize);
    }
}
