use vstd::prelude::*;
use vstd::string::*;

use crate::board::{board_from_layout, Board};
use crate::board_data::{EDGE_NODES, NODE_EDGES, NODE_TILES, TILE_NODES};
use crate::log_format::{decimal, push_decimal};
use crate::types::{NodeId, PortType, Resource, TileId, NODE_COUNT, TILE_COUNT};

verus! {

/// The number of harbours on the board.
pub const PORT_COUNT: usize = 9;

/// The two coastal nodes of each harbour, in the order the configuration lists the harbours.
pub const PORT_NODE_PAIRS: [(NodeId, NodeId); PORT_COUNT] = [
    (25, 26),
    (28, 29),
    (32, 33),
    (35, 36),
    (38, 39),
    (40, 44),
    (45, 47),
    (48, 49),
    (52, 53),
];

/// A character with the Unicode White_Space property: what trimming a string strips.
pub open spec fn is_white_space(c: char) -> bool {
    let u = c as u32;
    ||| 0x09 <= u <= 0x0d
    ||| u == 0x20
    ||| u == 0x85
    ||| u == 0xa0
    ||| u == 0x1680
    ||| 0x2000 <= u <= 0x200a
    ||| u == 0x2028
    ||| u == 0x2029
    ||| u == 0x202f
    ||| u == 0x205f
    ||| u == 0x3000
}

/// `s` without its leading white space.
pub open spec fn trim_start(s: Seq<char>) -> Seq<char>
    decreases s.len(),
{
    if s.len() > 0 && is_white_space(s[0]) {
        trim_start(s.drop_first())
    } else {
        s
    }
}

/// `s` without its trailing white space.
pub open spec fn trim_end(s: Seq<char>) -> Seq<char>
    decreases s.len(),
{
    if s.len() > 0 && is_white_space(s.last()) {
        trim_end(s.drop_last())
    } else {
        s
    }
}

/// `s` without leading and trailing white space.
pub open spec fn trimmed(s: Seq<char>) -> Seq<char> {
    trim_end(trim_start(s))
}

/// The upper-case letters, in alphabetical order.
pub open spec fn upper_alphabet() -> Seq<char> {
    "ABCDEFGHIJKLMNOPQRSTUVWXYZ"@
}

/// The character with an ASCII lower-case letter made upper-case.
pub open spec fn ascii_upper(c: char) -> char {
    if 'a' <= c && c <= 'z' {
        upper_alphabet()[c as int - 'a' as int]
    } else {
        c
    }
}

/// `s` with its ASCII lower-case letters made upper-case.
pub open spec fn ascii_uppercase(s: Seq<char>) -> Seq<char> {
    s.map_values(|c: char| ascii_upper(c))
}

/// The form in which a resource name is looked up: trimmed and in ASCII upper case.
pub open spec fn name_key(s: Seq<char>) -> Seq<char> {
    ascii_uppercase(trimmed(s))
}

/// The resource that a looked-up name stands for: wood or lumber, brick, sheep or wool, wheat or grain, ore.
pub open spec fn resource_named(key: Seq<char>) -> Option<Resource> {
    if key == "WOOD"@ || key == "LUMBER"@ {
        Some(Resource::Lumber)
    } else if key == "BRICK"@ {
        Some(Resource::Brick)
    } else if key == "SHEEP"@ || key == "WOOL"@ {
        Some(Resource::Wool)
    } else if key == "WHEAT"@ || key == "GRAIN"@ {
        Some(Resource::Grain)
    } else if key == "ORE"@ {
        Some(Resource::Ore)
    } else {
        None
    }
}

/// Why a board configuration was refused.
#[derive(Clone, Debug, PartialEq, Eq)]
pub enum BoardConfigError {
    /// The tile list did not name every tile; it held this many.
    TileCount(usize),
    /// The harbour list did not name every harbour; it held this many.
    PortCount(usize),
    /// A name that is no resource, trimmed and in upper case.
    UnknownResource(String),
    /// Fewer numbers than resource tiles.
    NumbersTooShort,
    /// More numbers than resource tiles.
    NumbersTooLong,
}

/// The message that explains a refusal.
pub open spec fn error_text(e: BoardConfigError) -> Seq<char> {
    match e {
        BoardConfigError::TileCount(n) => "tile_resources expected 19, got "@ + decimal(n as nat),
        BoardConfigError::PortCount(n) => "port_resources expected 9, got "@ + decimal(n as nat),
        BoardConfigError::UnknownResource(name) => "unknown resource: "@ + name@,
        BoardConfigError::NumbersTooShort => "numbers list too short"@,
        BoardConfigError::NumbersTooLong => "numbers list too long"@,
    }
}

impl BoardConfigError {
    /// The message that explains the refusal.
    pub fn message(&self) -> (text: String)
        ensures
            text@ == error_text(*self),
    {
        match self {
            BoardConfigError::TileCount(n) => {
                let mut text = String::from_str("tile_resources expected 19, got ");
                push_decimal(&mut text, *n as u64);
                text
            },
            BoardConfigError::PortCount(n) => {
                let mut text = String::from_str("port_resources expected 9, got ");
                push_decimal(&mut text, *n as u64);
                text
            },
            BoardConfigError::UnknownResource(name) => {
                let mut text = String::from_str("unknown resource: ");
                text.append(name.as_str());
                text
            },
            BoardConfigError::NumbersTooShort => String::from_str("numbers list too short"),
            BoardConfigError::NumbersTooLong => String::from_str("numbers list too long"),
        }
    }
}

/// Whether the character is white space.
fn white_space(c: char) -> (white: bool)
    ensures
        white == is_white_space(c),
{
    let u = c as u32;
    (0x09 <= u && u <= 0x0d) || u == 0x20 || u == 0x85 || u == 0xa0 || u == 0x1680 || (0x2000 <= u && u <= 0x200a)
        || u == 0x2028 || u == 0x2029 || u == 0x202f || u == 0x205f || u == 0x3000
}

proof fn lemma_trim_start_at(s: Seq<char>, k: int)
    requires
        0 <= k <= s.len(),
        forall|j: int| 0 <= j < k ==> is_white_space(#[trigger] s[j]),
        k == s.len() || !is_white_space(s[k]),
    ensures
        trim_start(s) == s.subrange(k, s.len() as int),
    decreases k,
{
    if k == 0 {
        assert(s.subrange(0, s.len() as int) =~= s);
    } else {
        let rest = s.drop_first();
        assert forall|j: int| 0 <= j < k - 1 implies is_white_space(#[trigger] rest[j]) by {
            assert(rest[j] == s[j + 1]);
        }
        lemma_trim_start_at(rest, k - 1);
        assert(rest.subrange(k - 1, rest.len() as int) =~= s.subrange(k, s.len() as int));
    }
}

proof fn lemma_trim_end_at(s: Seq<char>, e: int)
    requires
        0 <= e <= s.len(),
        forall|j: int| e <= j < s.len() ==> is_white_space(#[trigger] s[j]),
        e == 0 || !is_white_space(s[e - 1]),
    ensures
        trim_end(s) == s.subrange(0, e),
    decreases s.len() - e,
{
    if e == s.len() {
        assert(s.subrange(0, s.len() as int) =~= s);
    } else {
        let rest = s.drop_last();
        assert(is_white_space(s[s.len() - 1]));
        assert forall|j: int| e <= j < rest.len() implies is_white_space(#[trigger] rest[j]) by {
            assert(rest[j] == s[j]);
        }
        if e > 0 {
            assert(rest[e - 1] == s[e - 1]);
        }
        lemma_trim_end_at(rest, e);
        assert(rest.subrange(0, e) =~= s.subrange(0, e));
    }
}

/// Where the text of `value` starts and ends once its white space is trimmed.
fn trimmed_bounds(value: &str) -> (bounds: (usize, usize))
    ensures
        bounds.0 <= bounds.1 <= value@.len(),
        value@.subrange(bounds.0 as int, bounds.1 as int) == trimmed(value@),
{
    let n = value.unicode_len();
    let mut start: usize = 0;
    while start < n && white_space(value.get_char(start))
        invariant
            n == value@.len(),
            start <= n,
            forall|j: int| 0 <= j < start ==> is_white_space(#[trigger] value@[j]),
        decreases n - start,
    {
        start = start + 1;
    }
    proof {
        lemma_trim_start_at(value@, start as int);
    }
    let mut end: usize = n;
    while end > start && white_space(value.get_char(end - 1))
        invariant
            n == value@.len(),
            start <= end <= n,
            forall|j: int| end <= j < n ==> is_white_space(#[trigger] value@[j]),
        decreases end,
    {
        end = end - 1;
    }
    proof {
        let t = value@.subrange(start as int, n as int);
        assert forall|j: int| end - start <= j < t.len() implies is_white_space(#[trigger] t[j]) by {
            assert(t[j] == value@[start + j]);
        }
        if end > start {
            assert(t[end - start - 1] == value@[end - 1]);
        }
        lemma_trim_end_at(t, end - start);
        assert(t.subrange(0, end - start) =~= value@.subrange(start as int, end as int));
    }
    (start, end)
}

/// The text of `value` from `start` to `end`, with ASCII lower-case letters made upper-case.
fn uppercase_between(value: &str, start: usize, end: usize) -> (text: String)
    requires
        start <= end <= value@.len(),
    ensures
        text@ == ascii_uppercase(value@.subrange(start as int, end as int)),
{
    let alphabet = "ABCDEFGHIJKLMNOPQRSTUVWXYZ";
    proof {
        reveal_strlit("ABCDEFGHIJKLMNOPQRSTUVWXYZ");
    }
    let mut text = String::new();
    let mut i: usize = start;
    while i < end
        invariant
            start <= i <= end <= value@.len(),
            alphabet@ == upper_alphabet(),
            alphabet@.len() == 26,
            text@ == ascii_uppercase(value@.subrange(start as int, i as int)),
        decreases end - i,
    {
        let c = value.get_char(i);
        if 'a' <= c && c <= 'z' {
            let k = (c as u32 - 'a' as u32) as usize;
            text.append(alphabet.substring_char(k, k + 1));
        } else {
            text.append(value.substring_char(i, i + 1));
        }
        proof {
            assert(value@.subrange(start as int, i + 1) =~= value@.subrange(start as int, i as int).push(c));
            assert(ascii_uppercase(value@.subrange(start as int, i + 1)) =~= ascii_uppercase(
                value@.subrange(start as int, i as int),
            ).push(ascii_upper(c)));
        }
        i = i + 1;
    }
    text
}

/// Whether two strings hold the same characters.
fn same_text(a: &str, b: &str) -> (same: bool)
    ensures
        same == (a@ == b@),
{
    let n = a.unicode_len();
    if n != b.unicode_len() {
        return false;
    }
    let mut i: usize = 0;
    while i < n
        invariant
            n == a@.len(),
            n == b@.len(),
            i <= n,
            forall|j: int| 0 <= j < i ==> a@[j] == b@[j],
        decreases n - i,
    {
        if a.get_char(i) != b.get_char(i) {
            return false;
        }
        i = i + 1;
    }
    proof {
        assert(a@ =~= b@);
    }
    true
}

/// The resource that a name stands for, trimmed and compared in upper case; a name that stands for none is
/// refused with its looked-up form.
pub fn parse_resource(value: &str) -> (parsed: Result<Resource, BoardConfigError>)
    ensures
        match resource_named(name_key(value@)) {
            Some(r) => parsed == Ok::<Resource, BoardConfigError>(r),
            None => parsed matches Err(BoardConfigError::UnknownResource(name)) && name@ == name_key(value@),
        },
{
    let (start, end) = trimmed_bounds(value);
    let key = uppercase_between(value, start, end);
    let k = key.as_str();
    if same_text(k, "WOOD") || same_text(k, "LUMBER") {
        Ok(Resource::Lumber)
    } else if same_text(k, "BRICK") {
        Ok(Resource::Brick)
    } else if same_text(k, "SHEEP") || same_text(k, "WOOL") {
        Ok(Resource::Wool)
    } else if same_text(k, "WHEAT") || same_text(k, "GRAIN") {
        Ok(Resource::Grain)
    } else if same_text(k, "ORE") {
        Ok(Resource::Ore)
    } else {
        Err(BoardConfigError::UnknownResource(key))
    }
}

/// The harbour that trades a resource two for one.
pub open spec fn spec_port_type_from_resource(resource: Resource) -> PortType {
    match resource {
        Resource::Brick => PortType::Brick,
        Resource::Lumber => PortType::Lumber,
        Resource::Ore => PortType::Ore,
        Resource::Grain => PortType::Grain,
        Resource::Wool => PortType::Wool,
    }
}

/// The harbour that trades a resource two for one.
pub fn port_type_from_resource(resource: Resource) -> (port: PortType)
    ensures
        port == spec_port_type_from_resource(resource),
{
    match resource {
        Resource::Brick => PortType::Brick,
        Resource::Lumber => PortType::Lumber,
        Resource::Ore => PortType::Ore,
        Resource::Grain => PortType::Grain,
        Resource::Wool => PortType::Wool,
    }
}

/// The resource that a listed tile names; none for a tile listed without one.
pub open spec fn listed_resource(name: Option<String>) -> Option<Resource> {
    match name {
        Some(s) => resource_named(name_key(s@)),
        None => None,
    }
}

/// The entry is no name, or a name that stands for a resource.
pub open spec fn name_ok(name: Option<String>) -> bool {
    name matches Some(s) ==> resource_named(name_key(s@)) is Some
}

/// The position of the first entry from `i` on whose name stands for no resource, or the length when there is none.
pub open spec fn first_unknown(names: Seq<Option<String>>, i: int) -> int
    decreases names.len() - i,
{
    if i >= names.len() {
        names.len() as int
    } else if !name_ok(names[i]) {
        i
    } else {
        first_unknown(names, i + 1)
    }
}

/// The looked-up form of the name at position `i`.
pub open spec fn key_at(names: Seq<Option<String>>, i: int) -> Seq<char> {
    name_key(names[i]->0@)
}

/// The number of tiles listed with a resource among the first `i`.
pub open spec fn resource_tiles_before(names: Seq<Option<String>>, i: int) -> nat
    decreases i,
{
    if i <= 0 {
        0
    } else {
        resource_tiles_before(names, i - 1) + if names[i - 1] is Some {
            1nat
        } else {
            0nat
        }
    }
}

/// The number of tile `i`: the tiles with a resource take the numbers in order, the others have none.
pub open spec fn tile_number_at(names: Seq<Option<String>>, numbers: Seq<u8>, i: int) -> Option<u8> {
    if names[i] is Some {
        Some(numbers[resource_tiles_before(names, i) as int])
    } else {
        None
    }
}

/// The desert among the first `i` tiles: the last one listed without a resource, or tile 0 if there is none.
pub open spec fn desert_at(names: Seq<Option<String>>, i: int) -> TileId
    decreases i,
{
    if i <= 0 {
        0
    } else if names[i - 1] is None {
        (i - 1) as TileId
    } else {
        desert_at(names, i - 1)
    }
}

/// The harbour of a listed entry: the two-for-one harbour of the resource it names, or three for one.
pub open spec fn listed_port(name: Option<String>) -> PortType {
    match name {
        Some(s) => spec_port_type_from_resource(resource_named(name_key(s@))->0),
        None => PortType::ThreeToOne,
    }
}

/// The harbour at node `n` after the first `k` harbours are placed: that of the last of them at the node, or none.
pub open spec fn port_of_pairs(ports: Seq<Option<String>>, n: int, k: int) -> PortType
    decreases k,
{
    if k <= 0 {
        PortType::NoPort
    } else if PORT_NODE_PAIRS@[k - 1].1 == n || PORT_NODE_PAIRS@[k - 1].0 == n {
        listed_port(ports[k - 1])
    } else {
        port_of_pairs(ports, n, k - 1)
    }
}

/// The board that a configuration describes: the standard topology with the listed tiles, numbers and harbours.
pub open spec fn configured_board(
    board: Board,
    tiles: Seq<Option<String>>,
    ports: Seq<Option<String>>,
    numbers: Seq<u8>,
) -> bool {
    &&& board.node_edges == NODE_EDGES
    &&& board.edge_nodes == EDGE_NODES
    &&& board.node_tiles == NODE_TILES
    &&& board.tile_nodes == TILE_NODES
    &&& forall|i: int| 0 <= i < TILE_COUNT ==> #[trigger] board.tile_resources@[i] == listed_resource(tiles[i])
    &&& forall|i: int| 0 <= i < TILE_COUNT ==> #[trigger] board.tile_numbers@[i] == tile_number_at(tiles, numbers, i)
    &&& forall|n: int| 0 <= n < NODE_COUNT ==> #[trigger] board.node_ports@[n] == port_of_pairs(ports, n, PORT_COUNT as int)
    &&& board.desert_tile == desert_at(tiles, TILE_COUNT as int)
}

proof fn lemma_first_unknown_at(names: Seq<Option<String>>, s: int, i: int)
    requires
        0 <= s <= i <= names.len(),
        forall|j: int| s <= j < i ==> name_ok(#[trigger] names[j]),
        i == names.len() || !name_ok(names[i]),
    ensures
        first_unknown(names, s) == i,
    decreases i - s,
{
    if s < i {
        lemma_first_unknown_at(names, s + 1, i);
    }
}

/// The harbour of a listed entry, or the refusal of a name that stands for no resource.
fn parse_port(name: &Option<String>) -> (port: Result<PortType, BoardConfigError>)
    ensures
        name_ok(*name) ==> port == Ok::<PortType, BoardConfigError>(listed_port(*name)),
        !name_ok(*name) ==> (port matches Err(BoardConfigError::UnknownResource(key)) && key@ == name_key(name->0@)),
{
    match name {
        Some(text) => match parse_resource(text.as_str()) {
            Ok(resource) => Ok(port_type_from_resource(resource)),
            Err(e) => Err(e),
        },
        None => Ok(PortType::ThreeToOne),
    }
}

/// The board that a configuration describes: a resource name (or none, for the desert) for each tile, a resource
/// name (or none, for a three-for-one harbour) for each harbour, and the numbers of the resource tiles in tile
/// order. Names are trimmed and compared in upper case. The desert is the last tile without a resource.
pub fn board_from_config(
    tile_resources: &Vec<Option<String>>,
    port_resources: &Vec<Option<String>>,
    numbers: &Vec<u8>,
) -> (result: Result<Board, BoardConfigError>)
    ensures
        ({
            let tiles = tile_resources@;
            let ports = port_resources@;
            let tiles_known = tiles.len() == TILE_COUNT && ports.len() == PORT_COUNT && first_unknown(tiles, 0) == TILE_COUNT;
            let needed = resource_tiles_before(tiles, TILE_COUNT as int);
            &&& tiles.len() != TILE_COUNT ==> result == Err::<Board, BoardConfigError>(BoardConfigError::TileCount(tiles.len() as usize))
            &&& tiles.len() == TILE_COUNT && ports.len() != PORT_COUNT ==> result == Err::<Board, BoardConfigError>(
                BoardConfigError::PortCount(ports.len() as usize),
            )
            &&& tiles.len() == TILE_COUNT && ports.len() == PORT_COUNT && first_unknown(tiles, 0) < TILE_COUNT ==> (result matches Err(
                BoardConfigError::UnknownResource(key),
            ) && key@ == key_at(tiles, first_unknown(tiles, 0)))
            &&& tiles_known && numbers@.len() < needed ==> result == Err::<Board, BoardConfigError>(BoardConfigError::NumbersTooShort)
            &&& tiles_known && numbers@.len() > needed ==> result == Err::<Board, BoardConfigError>(BoardConfigError::NumbersTooLong)
            &&& tiles_known && numbers@.len() == needed && first_unknown(ports, 0) < PORT_COUNT ==> (result matches Err(
                BoardConfigError::UnknownResource(key),
            ) && key@ == key_at(ports, first_unknown(ports, 0)))
            &&& tiles_known && numbers@.len() == needed && first_unknown(ports, 0) == PORT_COUNT ==> (result matches Ok(board)
                && configured_board(board, tiles, ports, numbers@) && board.wf())
        }),
{
    if tile_resources.len() != TILE_COUNT {
        return Err(BoardConfigError::TileCount(tile_resources.len()));
    }
    if port_resources.len() != PORT_COUNT {
        return Err(BoardConfigError::PortCount(port_resources.len()));
    }
    let ghost tiles = tile_resources@;
    let ghost ports = port_resources@;
    let mut resources: [Option<Resource>; TILE_COUNT] = [None; TILE_COUNT];
    let mut idx: usize = 0;
    while idx < TILE_COUNT
        invariant
            idx <= TILE_COUNT,
            tiles == tile_resources@,
            tiles.len() == TILE_COUNT,
            port_resources@.len() == PORT_COUNT,
            forall|j: int| 0 <= j < idx ==> name_ok(#[trigger] tiles[j]),
            forall|j: int| 0 <= j < idx ==> #[trigger] resources@[j] == listed_resource(tiles[j]),
        decreases TILE_COUNT - idx,
    {
        match &tile_resources[idx] {
            Some(name) => match parse_resource(name.as_str()) {
                Ok(resource) => {
                    resources[idx] = Some(resource);
                },
                Err(e) => {
                    proof {
                        assert(tiles[idx as int] == Some(*name));
                        assert(!name_ok(tiles[idx as int]));
                        lemma_first_unknown_at(tiles, 0, idx as int);
                        assert(key_at(tiles, idx as int) == name_key(name@));
                    }
                    return Err(e);
                },
            },
            None => {
                resources[idx] = None;
            },
        }
        idx = idx + 1;
    }
    proof {
        lemma_first_unknown_at(tiles, 0, TILE_COUNT as int);
    }
    let mut tile_numbers: [Option<u8>; TILE_COUNT] = [None; TILE_COUNT];
    let mut next: usize = 0;
    let mut desert: TileId = 0;
    let mut idx: usize = 0;
    while idx < TILE_COUNT
        invariant
            idx <= TILE_COUNT,
            tiles == tile_resources@,
            tiles.len() == TILE_COUNT,
            port_resources@.len() == PORT_COUNT,
            first_unknown(tiles, 0) == TILE_COUNT,
            forall|j: int| 0 <= j < TILE_COUNT ==> #[trigger] resources@[j] == listed_resource(tiles[j]),
            forall|j: int| 0 <= j < TILE_COUNT ==> name_ok(#[trigger] tiles[j]),
            next == resource_tiles_before(tiles, idx as int),
            next <= numbers@.len(),
            desert == desert_at(tiles, idx as int),
            forall|j: int| 0 <= j < idx ==> #[trigger] tile_numbers@[j] == tile_number_at(tiles, numbers@, j),
        decreases TILE_COUNT - idx,
    {
        proof {
            assert(name_ok(tiles[idx as int]));
            assert(resources@[idx as int] == listed_resource(tiles[idx as int]));
        }
        if resources[idx].is_none() {
            desert = idx as TileId;
            tile_numbers[idx] = None;
        } else {
            if next >= numbers.len() {
                proof {
                    assert(tiles[idx as int] is Some);
                    assert(resource_tiles_before(tiles, idx as int + 1) == next + 1);
                    lemma_resource_tiles_grow(tiles, idx as int + 1, TILE_COUNT as int);
                }
                return Err(BoardConfigError::NumbersTooShort);
            }
            tile_numbers[idx] = Some(numbers[next]);
            next = next + 1;
        }
        idx = idx + 1;
    }
    if next < numbers.len() {
        return Err(BoardConfigError::NumbersTooLong);
    }
    let mut node_ports: [PortType; NODE_COUNT] = [PortType::NoPort; NODE_COUNT];
    let mut k: usize = 0;
    while k < PORT_COUNT
        invariant
            k <= PORT_COUNT,
            ports == port_resources@,
            ports.len() == PORT_COUNT,
            tiles == tile_resources@,
            tiles.len() == TILE_COUNT,
            first_unknown(tiles, 0) == TILE_COUNT,
            numbers@.len() == resource_tiles_before(tiles, TILE_COUNT as int),
            forall|j: int| 0 <= j < k ==> name_ok(#[trigger] ports[j]),
            forall|n: int| 0 <= n < NODE_COUNT ==> #[trigger] node_ports@[n] == port_of_pairs(ports, n, k as int),
        decreases PORT_COUNT - k,
    {
        let entry = &port_resources[k];
        let port = match parse_port(entry) {
            Ok(port) => port,
            Err(e) => {
                proof {
                    assert(ports[k as int] == *entry);
                    assert(!name_ok(ports[k as int]));
                    lemma_first_unknown_at(ports, 0, k as int);
                    assert(key_at(ports, k as int) == name_key(entry->0@));
                }
                return Err(e);
            },
        };
        let (a, b) = PORT_NODE_PAIRS[k];
        node_ports[a as usize] = port;
        node_ports[b as usize] = port;
        proof {
            assert forall|n: int| 0 <= n < NODE_COUNT implies #[trigger] node_ports@[n] == port_of_pairs(ports, n, k + 1) by {
            }
        }
        k = k + 1;
    }
    proof {
        lemma_first_unknown_at(ports, 0, PORT_COUNT as int);
    }
    let board = board_from_layout(resources, tile_numbers, node_ports, desert);
    proof {
        assert(next == resource_tiles_before(tiles, TILE_COUNT as int));
    }
    Ok(board)
}

proof fn lemma_resource_tiles_grow(names: Seq<Option<String>>, i: int, j: int)
    requires
        0 <= i <= j,
    ensures
        resource_tiles_before(names, i) <= resource_tiles_before(names, j),
    decreases j - i,
{
    if i < j {
        lemma_resource_tiles_grow(names, i, j - 1);
    }
}

} // verus!
