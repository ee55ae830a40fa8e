//! Tile model: a compact tile identity packing type and rotation into one
//! byte, and the per-edge connection table that drives adjacency matching.

use vstd::prelude::*;

verus! {

/// Edge of a tile: which side of the tile a neighbor touches.
#[derive(Debug, Clone, Copy, PartialEq, Eq, Hash, Structural)]
pub enum Orientation {
    Top,
    Right,
    Bottom,
    Left,
}

impl Orientation {
    /// The opposite side: this edge as seen from the neighbor.
    pub open spec fn spec_invert(self) -> Orientation {
        match self {
            Orientation::Top => Orientation::Bottom,
            Orientation::Right => Orientation::Left,
            Orientation::Bottom => Orientation::Top,
            Orientation::Left => Orientation::Right,
        }
    }

    pub fn invert(&self) -> (r: Orientation)
        ensures
            r == self.spec_invert(),
    {
        match self {
            Orientation::Top => Orientation::Bottom,
            Orientation::Right => Orientation::Left,
            Orientation::Bottom => Orientation::Top,
            Orientation::Left => Orientation::Right,
        }
    }
}

/// What one edge of a tile offers for adjacency matching: nothing, one of
/// the tile's two wall planes (`Open` offers nothing), or the wildcard.
#[derive(Debug, Clone, Copy, PartialEq, Eq, Hash, Structural)]
pub enum Connection {
    Open,
    First,
    Second,
    Either,
}

/// The symmetric matching rule on connection values: `First`, `Second` and
/// `Open` match only themselves, and `Either` matches anything but `Open`.
pub open spec fn spec_conn_matches(a: Connection, b: Connection) -> bool {
    match (a, b) {
        (Connection::Either, Connection::Open) => false,
        (Connection::Either, _) => true,
        (Connection::Open, Connection::Either) => false,
        (_, Connection::Either) => true,
        (Connection::First, Connection::First) => true,
        (Connection::Second, Connection::Second) => true,
        (Connection::Open, Connection::Open) => true,
        _ => false,
    }
}

impl Connection {
    /// Whether this connection value matches the other under the wildcard
    /// rule.
    pub fn matches(&self, other: &Connection) -> (r: bool)
        ensures
            r == spec_conn_matches(*self, *other),
    {
        match (self, other) {
            (Connection::Either, o) => match o {
                Connection::Open => false,
                _ => true,
            },
            (o, Connection::Either) => match o {
                Connection::Open => false,
                _ => true,
            },
            (Connection::First, Connection::First) => true,
            (Connection::Second, Connection::Second) => true,
            (Connection::Open, Connection::Open) => true,
            _ => false,
        }
    }

    /// The connection a neighbor must offer on the opposite edge to mate
    /// with this one, together with that edge.
    pub fn invert(&self, orientation: &Orientation) -> (r: (Orientation, Connection))
        ensures
            r.0 == orientation.spec_invert(),
            r.1 == match *self {
                Connection::Open => Connection::Either,
                Connection::First => Connection::Second,
                Connection::Second => Connection::First,
                Connection::Either => Connection::Open,
            },
    {
        let o = orientation.invert();
        let c = match self {
            Connection::Open => Connection::Either,
            Connection::First => Connection::Second,
            Connection::Second => Connection::First,
            Connection::Either => Connection::Open,
        };
        (o, c)
    }
}

/// A tile edge's socket: either one symmetric connection value, or a
/// directional male/female pair.
#[derive(Debug, Clone, Copy, PartialEq, Eq, Hash, Structural)]
pub enum ConnectionSocket {
    Either(Connection),
    MaleFemale { male: Connection, female: Connection },
}

/// Whether socket `a` accepts an incoming connection from socket `b`: a
/// symmetric socket matches the other side's outgoing value, a directional
/// socket matches with its female half.
pub open spec fn spec_accepts(a: ConnectionSocket, b: ConnectionSocket) -> bool {
    match (a, b) {
        (ConnectionSocket::Either(con), ConnectionSocket::MaleFemale { male: o_m, .. }) =>
            spec_conn_matches(con, o_m),
        (ConnectionSocket::Either(con), ConnectionSocket::Either(ocon)) => spec_conn_matches(
            con,
            ocon,
        ),
        (ConnectionSocket::MaleFemale { female, .. }, ConnectionSocket::MaleFemale {
            male: o_m,
            .. }) => spec_conn_matches(female, o_m),
        (ConnectionSocket::MaleFemale { female, .. }, ConnectionSocket::Either(con)) =>
            spec_conn_matches(female, con),
    }
}

impl ConnectionSocket {
    /// Checks that this socket accepts the incoming connection. A
    /// male/female socket checks only its female half against the other's
    /// male half.
    pub fn accepts_incoming_connection(&self, other: &Self) -> (r: bool)
        ensures
            r == spec_accepts(*self, *other),
    {
        match (self, other) {
            (ConnectionSocket::Either(con), o) => match o {
                ConnectionSocket::MaleFemale { male: o_m, .. } => con.matches(o_m),
                ConnectionSocket::Either(ocon) => con.matches(ocon),
            },
            (ConnectionSocket::MaleFemale { female, .. }, o) => match o {
                ConnectionSocket::MaleFemale { male: o_m, .. } => female.matches(o_m),
                ConnectionSocket::Either(con) => female.matches(con),
            },
        }
    }
}

/// The connection sockets a tile offers on its four edges.
#[derive(Debug, Clone, Copy, PartialEq, Eq, Hash, Structural)]
pub struct ConnectionMap {
    pub top: ConnectionSocket,
    pub right: ConnectionSocket,
    pub bottom: ConnectionSocket,
    pub left: ConnectionSocket,
}

impl ConnectionMap {
    /// The socket on the given edge.
    pub open spec fn spec_at(self, o: Orientation) -> ConnectionSocket {
        match o {
            Orientation::Top => self.top,
            Orientation::Right => self.right,
            Orientation::Bottom => self.bottom,
            Orientation::Left => self.left,
        }
    }

    pub fn at(&self, o: Orientation) -> (r: ConnectionSocket)
        ensures
            r == self.spec_at(o),
    {
        match o {
            Orientation::Top => self.top,
            Orientation::Right => self.right,
            Orientation::Bottom => self.bottom,
            Orientation::Left => self.left,
        }
    }
}


/// Compact tile identity: the low four bits carry the tile type, bits 4-6
/// the rotation code.
#[derive(Debug, Clone, Copy, PartialEq, Eq, Hash, Structural)]
pub struct TileID(u8);

impl View for TileID {
    type V = u8;

    closed spec fn view(&self) -> u8 {
        self.0
    }
}

/// The nine canonical tile ids: the empty tile, and walls and corners at
/// four rotations, in the order the solver seeds a fresh cell with.
pub open spec fn spec_all_valid_ids() -> Seq<u8> {
    seq![0u8, 0x11u8, 0x31u8, 0x51u8, 0x71u8, 0x12u8, 0x32u8, 0x52u8, 0x72u8]
}

/// Whether a byte is one of the nine canonical tile ids.
pub open spec fn spec_is_valid_tile(t: u8) -> bool {
    spec_all_valid_ids().contains(t)
}

/// The ids the connection table covers: the nine canonical ids, plus the
/// bare wall and corner types, read as their unrotated forms.
pub open spec fn spec_is_connectable(t: u8) -> bool {
    spec_is_valid_tile(t) || t == TileID::WALL || t == TileID::CORNER
}

/// The connection table: which socket each oriented tile shape presents on
/// each of its four edges.
pub open spec fn spec_connection_map(t: u8) -> ConnectionMap {
    if t == TileID::EMPTY {
        ConnectionMap {
            top: ConnectionSocket::Either(Connection::Either),
            right: ConnectionSocket::Either(Connection::Either),
            bottom: ConnectionSocket::Either(Connection::Either),
            left: ConnectionSocket::Either(Connection::Either),
        }
    } else if t == TileID::WALL + TileID::ROT_0 || t == TileID::WALL {
        ConnectionMap {
            top: ConnectionSocket::Either(Connection::First),
            right: ConnectionSocket::Either(Connection::Open),
            bottom: ConnectionSocket::Either(Connection::First),
            left: ConnectionSocket::Either(Connection::Open),
        }
    } else if t == TileID::CORNER + TileID::ROT_0 || t == TileID::CORNER {
        ConnectionMap {
            top: ConnectionSocket::Either(Connection::Open),
            right: ConnectionSocket::Either(Connection::First),
            bottom: ConnectionSocket::Either(Connection::First),
            left: ConnectionSocket::Either(Connection::Open),
        }
    } else if t == TileID::WALL + TileID::ROT_90 {
        ConnectionMap {
            top: ConnectionSocket::Either(Connection::Open),
            right: ConnectionSocket::Either(Connection::First),
            bottom: ConnectionSocket::Either(Connection::Open),
            left: ConnectionSocket::Either(Connection::First),
        }
    } else if t == TileID::CORNER + TileID::ROT_90 {
        ConnectionMap {
            top: ConnectionSocket::Either(Connection::Open),
            right: ConnectionSocket::Either(Connection::Open),
            bottom: ConnectionSocket::Either(Connection::Second),
            left: ConnectionSocket::Either(Connection::First),
        }
    } else if t == TileID::WALL + TileID::ROT_180 {
        ConnectionMap {
            top: ConnectionSocket::Either(Connection::Second),
            right: ConnectionSocket::Either(Connection::Open),
            bottom: ConnectionSocket::Either(Connection::Second),
            left: ConnectionSocket::Either(Connection::Open),
        }
    } else if t == TileID::CORNER + TileID::ROT_180 {
        ConnectionMap {
            top: ConnectionSocket::Either(Connection::Second),
            right: ConnectionSocket::Either(Connection::Open),
            bottom: ConnectionSocket::Either(Connection::Open),
            left: ConnectionSocket::Either(Connection::Second),
        }
    } else if t == TileID::WALL + TileID::ROT_270 {
        ConnectionMap {
            top: ConnectionSocket::Either(Connection::Open),
            right: ConnectionSocket::Either(Connection::Second),
            bottom: ConnectionSocket::Either(Connection::Open),
            left: ConnectionSocket::Either(Connection::Second),
        }
    } else {
        // CORNER + ROT_270
        ConnectionMap {
            top: ConnectionSocket::Either(Connection::First),
            right: ConnectionSocket::Either(Connection::Second),
            bottom: ConnectionSocket::Either(Connection::Open),
            left: ConnectionSocket::Either(Connection::Open),
        }
    }
}

/// Printable name of a tile id.
pub open spec fn spec_tile_name(t: u8) -> Seq<char> {
    let typ = t & TileID::TILE_TYPE_MASK;
    let rot = t & TileID::ROT_MASK;
    if typ == TileID::EMPTY {
        "EMPTY"@
    } else if typ == TileID::WALL {
        if rot == TileID::ROT_90 {
            "WALL_90"@
        } else if rot == TileID::ROT_180 {
            "WALL_180"@
        } else if rot == TileID::ROT_270 {
            "WALL_270"@
        } else {
            "WALL_0"@
        }
    } else if typ == TileID::CORNER {
        if rot == TileID::ROT_90 {
            "CORNER_90"@
        } else if rot == TileID::ROT_180 {
            "CORNER_180"@
        } else if rot == TileID::ROT_270 {
            "CORNER_270"@
        } else {
            "CORNER_0"@
        }
    } else {
        if rot == TileID::ROT_90 {
            "UNDEFINED_90"@
        } else if rot == TileID::ROT_180 {
            "UNDEFINED_180"@
        } else if rot == TileID::ROT_270 {
            "UNDEFINED_270"@
        } else {
            "UNDEFINED_0"@
        }
    }
}

impl TileID {
    /// The low four bits carry the tile type.
    pub const TILE_TYPE_MASK: u8 = 0b0000_1111;

    pub const EMPTY: u8 = 0b0000_0000;

    pub const WALL: u8 = 0b0000_0001;

    pub const CORNER: u8 = 0b0000_0010;

    /// The next three bits carry the rotation code.
    pub const ROT_MASK: u8 = 0b111_0000;

    pub const ROT_0: u8 = 0b1_0000;

    pub const ROT_90: u8 = 0b11_0000;

    pub const ROT_180: u8 = 0b101_0000;

    pub const ROT_270: u8 = 0b111_0000;

    pub fn new(value: u8) -> (r: Self)
        ensures
            r@ == value,
    {
        TileID(value)
    }

    /// The tile type: the low four bits.
    pub fn type_value(&self) -> (r: u8)
        ensures
            r == self@ & TileID::TILE_TYPE_MASK,
    {
        self.0 & Self::TILE_TYPE_MASK
    }

    /// The rotation in degrees, or nothing for the unhandled rotation
    /// codes. Rotation codes outside the table are the callers' fault and
    /// are excluded.
    pub fn rotation_identity(&self) -> (r: Option<u32>)
        requires
            self@ & TileID::ROT_MASK == 0 || self@ & TileID::ROT_MASK == TileID::ROT_0 || self@
                & TileID::ROT_MASK == TileID::ROT_90 || self@ & TileID::ROT_MASK
                == TileID::ROT_180 || self@ & TileID::ROT_MASK == TileID::ROT_270,
        ensures
            r == Some(
                if self@ & TileID::ROT_MASK == TileID::ROT_90 {
                    90u32
                } else if self@ & TileID::ROT_MASK == TileID::ROT_180 {
                    180u32
                } else if self@ & TileID::ROT_MASK == TileID::ROT_270 {
                    270u32
                } else {
                    0u32
                },
            ),
    {
        let id = self.0 & Self::ROT_MASK;
        if id == 0 {
            Some(0)
        } else if id == Self::ROT_0 {
            Some(0)
        } else if id == Self::ROT_90 {
            Some(90)
        } else if id == Self::ROT_180 {
            Some(180)
        } else {
            Some(270)
        }
    }

    /// The sockets this tile offers on its four edges, from the fixed
    /// connection table. Ids outside the table are the callers' fault and
    /// are excluded.
    pub fn connection_map(&self) -> (r: ConnectionMap)
        requires
            spec_is_connectable(self@),
        ensures
            r == spec_connection_map(self@),
    {
        proof {
            assert(spec_all_valid_ids().contains(self@) ==> self@ == 0 || self@ == 0x11 || self@
                == 0x31 || self@ == 0x51 || self@ == 0x71 || self@ == 0x12 || self@ == 0x32
                || self@ == 0x52 || self@ == 0x72) by {
                if spec_all_valid_ids().contains(self@) {
                    let i = choose|i: int|
                        0 <= i < spec_all_valid_ids().len() && spec_all_valid_ids()[i] == self@;
                    assert(spec_all_valid_ids()[i] == self@);
                }
            }
        }
        let t = self.0;
        if t == Self::EMPTY {
            ConnectionMap {
                top: ConnectionSocket::Either(Connection::Either),
                right: ConnectionSocket::Either(Connection::Either),
                bottom: ConnectionSocket::Either(Connection::Either),
                left: ConnectionSocket::Either(Connection::Either),
            }
        } else if t == Self::WALL + Self::ROT_0 || t == Self::WALL {
            ConnectionMap {
                top: ConnectionSocket::Either(Connection::First),
                right: ConnectionSocket::Either(Connection::Open),
                bottom: ConnectionSocket::Either(Connection::First),
                left: ConnectionSocket::Either(Connection::Open),
            }
        } else if t == Self::CORNER + Self::ROT_0 || t == Self::CORNER {
            ConnectionMap {
                top: ConnectionSocket::Either(Connection::Open),
                right: ConnectionSocket::Either(Connection::First),
                bottom: ConnectionSocket::Either(Connection::First),
                left: ConnectionSocket::Either(Connection::Open),
            }
        } else if t == Self::WALL + Self::ROT_90 {
            ConnectionMap {
                top: ConnectionSocket::Either(Connection::Open),
                right: ConnectionSocket::Either(Connection::First),
                bottom: ConnectionSocket::Either(Connection::Open),
                left: ConnectionSocket::Either(Connection::First),
            }
        } else if t == Self::CORNER + Self::ROT_90 {
            ConnectionMap {
                top: ConnectionSocket::Either(Connection::Open),
                right: ConnectionSocket::Either(Connection::Open),
                bottom: ConnectionSocket::Either(Connection::Second),
                left: ConnectionSocket::Either(Connection::First),
            }
        } else if t == Self::WALL + Self::ROT_180 {
            ConnectionMap {
                top: ConnectionSocket::Either(Connection::Second),
                right: ConnectionSocket::Either(Connection::Open),
                bottom: ConnectionSocket::Either(Connection::Second),
                left: ConnectionSocket::Either(Connection::Open),
            }
        } else if t == Self::CORNER + Self::ROT_180 {
            ConnectionMap {
                top: ConnectionSocket::Either(Connection::Second),
                right: ConnectionSocket::Either(Connection::Open),
                bottom: ConnectionSocket::Either(Connection::Open),
                left: ConnectionSocket::Either(Connection::Second),
            }
        } else if t == Self::WALL + Self::ROT_270 {
            ConnectionMap {
                top: ConnectionSocket::Either(Connection::Open),
                right: ConnectionSocket::Either(Connection::Second),
                bottom: ConnectionSocket::Either(Connection::Open),
                left: ConnectionSocket::Either(Connection::Second),
            }
        } else {
            ConnectionMap {
                top: ConnectionSocket::Either(Connection::First),
                right: ConnectionSocket::Either(Connection::Second),
                bottom: ConnectionSocket::Either(Connection::Open),
                left: ConnectionSocket::Either(Connection::Open),
            }
        }
    }

    /// Printable name of this tile, such as `WALL_90`.
    pub fn to_string(&self) -> (r: String)
        ensures
            r@ == spec_tile_name(self@),
    {
        let typ = self.0 & Self::TILE_TYPE_MASK;
        let rot = self.0 & Self::ROT_MASK;
        let name: &str = if typ == Self::EMPTY {
            "EMPTY"
        } else if typ == Self::WALL {
            if rot == Self::ROT_90 {
                "WALL_90"
            } else if rot == Self::ROT_180 {
                "WALL_180"
            } else if rot == Self::ROT_270 {
                "WALL_270"
            } else {
                "WALL_0"
            }
        } else if typ == Self::CORNER {
            if rot == Self::ROT_90 {
                "CORNER_90"
            } else if rot == Self::ROT_180 {
                "CORNER_180"
            } else if rot == Self::ROT_270 {
                "CORNER_270"
            } else {
                "CORNER_0"
            }
        } else {
            if rot == Self::ROT_90 {
                "UNDEFINED_90"
            } else if rot == Self::ROT_180 {
                "UNDEFINED_180"
            } else if rot == Self::ROT_270 {
                "UNDEFINED_270"
            } else {
                "UNDEFINED_0"
            }
        };
        name.to_string()
    }
}

/// Two tile ids are the same exactly when they pack the same byte.
pub proof fn lemma_tile_eq(a: TileID, b: TileID)
    ensures
        (a == b) <==> (a@ == b@),
{
}

/// All nine canonical tile ids, in seeding order.
pub fn all_valid_ids() -> (r: Vec<TileID>)
    ensures
        r@.len() == spec_all_valid_ids().len(),
        forall|i: int| 0 <= i < r@.len() ==> (#[trigger] r@[i])@ == spec_all_valid_ids()[i],
{
    let mut ids: Vec<TileID> = Vec::new();
    ids.push(TileID::new(TileID::EMPTY));
    ids.push(TileID::new(TileID::WALL + TileID::ROT_0));
    ids.push(TileID::new(TileID::WALL + TileID::ROT_90));
    ids.push(TileID::new(TileID::WALL + TileID::ROT_180));
    ids.push(TileID::new(TileID::WALL + TileID::ROT_270));
    ids.push(TileID::new(TileID::CORNER + TileID::ROT_0));
    ids.push(TileID::new(TileID::CORNER + TileID::ROT_90));
    ids.push(TileID::new(TileID::CORNER + TileID::ROT_180));
    ids.push(TileID::new(TileID::CORNER + TileID::ROT_270));
    ids
}

} // verus!
