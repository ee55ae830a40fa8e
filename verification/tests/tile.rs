use procgen_core::tile::{
    all_valid_ids, Connection, ConnectionSocket, Orientation, TileID,
};
use procgen_core::x_and_y_from_pos;

#[test]
fn chunk_coordinate_from_position() {
    // The position-to-chunk helper: position (50, _, 105) with chunk size
    // 50 lands in chunk (1, 3).
    assert_eq!(x_and_y_from_pos(50, 105, 50), (1, 3));
    assert_eq!(x_and_y_from_pos(0, 0, 50), (0, 0));
    assert_eq!(x_and_y_from_pos(1, 51, 50), (1, 2));
    assert_eq!(x_and_y_from_pos(100, 100, 50), (2, 2));
}

#[test]
fn all_valid_ids_are_the_nine_tiles() {
    let ids = all_valid_ids();
    assert_eq!(ids.len(), 9);
    let mut raw: Vec<TileID> = ids.clone();
    raw.dedup();
    assert_eq!(raw.len(), 9);
    assert_eq!(ids[0], TileID::new(TileID::EMPTY));
    assert_eq!(ids[1], TileID::new(TileID::WALL + TileID::ROT_0));
    assert_eq!(ids[5], TileID::new(TileID::CORNER + TileID::ROT_0));
}

#[test]
fn tile_names() {
    assert_eq!(TileID::new(TileID::EMPTY).to_string(), "EMPTY");
    assert_eq!(TileID::new(TileID::WALL + TileID::ROT_0).to_string(), "WALL_0");
    assert_eq!(TileID::new(TileID::WALL + TileID::ROT_90).to_string(), "WALL_90");
    assert_eq!(TileID::new(TileID::CORNER + TileID::ROT_180).to_string(), "CORNER_180");
    assert_eq!(TileID::new(TileID::CORNER + TileID::ROT_270).to_string(), "CORNER_270");
}

#[test]
fn rotation_identity_decodes_degrees() {
    assert_eq!(TileID::new(TileID::WALL + TileID::ROT_0).rotation_identity(), Some(0));
    assert_eq!(TileID::new(TileID::WALL + TileID::ROT_90).rotation_identity(), Some(90));
    assert_eq!(TileID::new(TileID::CORNER + TileID::ROT_180).rotation_identity(), Some(180));
    assert_eq!(TileID::new(TileID::CORNER + TileID::ROT_270).rotation_identity(), Some(270));
    assert_eq!(TileID::new(TileID::EMPTY).rotation_identity(), Some(0));
}

#[test]
fn type_value_extracts_low_bits() {
    assert_eq!(TileID::new(TileID::WALL + TileID::ROT_270).type_value(), TileID::WALL);
    assert_eq!(TileID::new(TileID::CORNER + TileID::ROT_90).type_value(), TileID::CORNER);
    assert_eq!(TileID::new(TileID::EMPTY).type_value(), TileID::EMPTY);
}

#[test]
fn connection_map_matches_table() {
    let wall0 = TileID::new(TileID::WALL + TileID::ROT_0).connection_map();
    assert_eq!(wall0.top, ConnectionSocket::Either(Connection::First));
    assert_eq!(wall0.right, ConnectionSocket::Either(Connection::Open));
    assert_eq!(wall0.bottom, ConnectionSocket::Either(Connection::First));
    assert_eq!(wall0.left, ConnectionSocket::Either(Connection::Open));

    // The bare wall type reads as its unrotated form.
    let bare = TileID::new(TileID::WALL).connection_map();
    assert_eq!(bare, wall0);

    let empty = TileID::new(TileID::EMPTY).connection_map();
    assert_eq!(empty.top, ConnectionSocket::Either(Connection::Either));

    let corner90 = TileID::new(TileID::CORNER + TileID::ROT_90).connection_map();
    assert_eq!(corner90.bottom, ConnectionSocket::Either(Connection::Second));
    assert_eq!(corner90.left, ConnectionSocket::Either(Connection::First));
}

#[test]
fn connection_matching_rule() {
    // Exact values match themselves.
    assert!(Connection::First.matches(&Connection::First));
    assert!(Connection::Second.matches(&Connection::Second));
    assert!(Connection::Open.matches(&Connection::Open));
    assert!(!Connection::First.matches(&Connection::Second));
    // The wildcard accepts anything except an open edge.
    assert!(Connection::Either.matches(&Connection::First));
    assert!(Connection::Either.matches(&Connection::Either));
    assert!(!Connection::Either.matches(&Connection::Open));
    assert!(!Connection::Open.matches(&Connection::Either));
}

#[test]
fn socket_acceptance() {
    let first = ConnectionSocket::Either(Connection::First);
    let open = ConnectionSocket::Either(Connection::Open);
    let wild = ConnectionSocket::Either(Connection::Either);
    assert!(first.accepts_incoming_connection(&first));
    assert!(!first.accepts_incoming_connection(&open));
    assert!(wild.accepts_incoming_connection(&first));
    assert!(!wild.accepts_incoming_connection(&open));

    let mf = ConnectionSocket::MaleFemale { male: Connection::First, female: Connection::Second };
    // A directional socket checks its female half against the other male.
    assert!(mf.accepts_incoming_connection(
        &ConnectionSocket::MaleFemale { male: Connection::Second, female: Connection::First }
    ));
    assert!(!mf.accepts_incoming_connection(
        &ConnectionSocket::MaleFemale { male: Connection::First, female: Connection::Second }
    ));
}

#[test]
fn orientation_inversion() {
    assert_eq!(Orientation::Top.invert(), Orientation::Bottom);
    assert_eq!(Orientation::Bottom.invert(), Orientation::Top);
    assert_eq!(Orientation::Left.invert(), Orientation::Right);
    assert_eq!(Orientation::Right.invert(), Orientation::Left);
}

#[test]
fn connection_inversion() {
    let (o, c) = Connection::First.invert(&Orientation::Top);
    assert_eq!(o, Orientation::Bottom);
    assert_eq!(c, Connection::Second);
    let (o, c) = Connection::Open.invert(&Orientation::Left);
    assert_eq!(o, Orientation::Right);
    assert_eq!(c, Connection::Either);
}
