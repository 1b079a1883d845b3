//! The small decisions of the gatekeeper, the orchestrator and the game
//! servers: logging in, answering a health check, the load a server reports
//! and whether it takes more players, and the next port to try for a new
//! server.
use vstd::prelude::*;

verus! {

/// What a player sends to log in.
pub struct LoginRequest {
    pub username: String,
    pub password: String,
}

/// Where to connect.
pub struct SimpleServerInfo {
    pub ip: String,
    pub port: u16,
    pub zone: String,
}

/// The answer to a successful login: an identifier for the player and the
/// server to connect to.
pub struct LoginResponse {
    pub player_uuid: String,
    pub server: SimpleServerInfo,
}

/// The answer to a refused request.
pub struct ErrorResponse {
    pub error: String,
}

/// The answer to a health check.
pub struct HealthResponse {
    pub status: String,
}

/// Whether `c` is a lower-case hexadecimal digit.
pub open spec fn is_lower_hex(c: char) -> bool {
    let n = c as u32;
    (0x30 <= n <= 0x39) || (0x61 <= n <= 0x66)
}

/// The text of a version-4 UUID in its hyphenated form: 36 characters,
/// hyphens at 8, 13, 18 and 23, lower-case hexadecimal digits elsewhere,
/// the version digit 4 at 14 and the variant digit 8, 9, a or b at 19.
pub open spec fn is_v4_uuid_text(s: Seq<char>) -> bool {
    &&& s.len() == 36
    &&& forall|i: int|
        0 <= i < 36 ==> if i == 8 || i == 13 || i == 18 || i == 23 {
            #[trigger] s[i] == '-'
        } else {
            is_lower_hex(s[i])
        }
    &&& s[14] == '4'
    &&& (s[19] == '8' || s[19] == '9' || s[19] == 'a' || s[19] == 'b')
}

/// A fresh random version-4 UUID, in its hyphenated form.
/// Calls `uuid::Uuid::new_v4`, which sets the version and variant bits of a
/// random number, and formats it with `Display`, which writes the hyphenated
/// lower-case form. Left unsaid: which UUID comes out, since it is random.
#[verifier::external_body]
fn new_player_uuid() -> (s: String)
    ensures
        is_v4_uuid_text(s@),
{
    uuid::Uuid::new_v4().to_string()
}

/// A game server as the orchestrator registered it: where it listens, its
/// zone, its load and status, and where it stands on the globe, latitude
/// and longitude in millionths of a degree.
pub struct GameServerEntry {
    pub ip: String,
    pub port: u16,
    pub zone: String,
    pub status: String,
    pub num_players: u16,
    pub capacity: u16,
    pub lat_e6: i32,
    pub lon_e6: i32,
}

/// The server takes new players: it is "available" and not full.
pub open spec fn takes_players(s: GameServerEntry) -> bool {
    s.status@ == "available"@ && s.num_players < s.capacity
}

/// The squared distance between two places given by latitude and longitude,
/// in squared millionths of a degree.
pub open spec fn geo_distance_sq(lat_a: int, lon_a: int, lat_b: int, lon_b: int) -> int {
    (lat_a - lat_b) * (lat_a - lat_b) + (lon_a - lon_b) * (lon_a - lon_b)
}

/// How far the server is from the place (`lat`, `lon`).
pub open spec fn server_distance(s: GameServerEntry, lat: i32, lon: i32) -> int {
    geo_distance_sq(s.lat_e6 as int, s.lon_e6 as int, lat as int, lon as int)
}

/// Server `i` takes players, none that takes players is closer to (`lat`,
/// `lon`), and none before it in the list is as close.
pub open spec fn is_nearest_available(servers: Seq<GameServerEntry>, lat: i32, lon: i32, i: int) -> bool {
    &&& 0 <= i < servers.len()
    &&& takes_players(servers[i])
    &&& forall|j: int|
        0 <= j < servers.len() && takes_players(#[trigger] servers[j]) ==> server_distance(servers[i], lat, lon)
            <= server_distance(servers[j], lat, lon)
    &&& forall|j: int|
        0 <= j < i && takes_players(#[trigger] servers[j]) ==> server_distance(servers[j], lat, lon)
            > server_distance(servers[i], lat, lon)
}

/// The distance between `a` and `b`.
fn abs_diff(a: i32, b: i32) -> (d: u64)
    ensures
        d == if a >= b {
            a - b
        } else {
            b - a
        },
{
    if a >= b {
        (a as i64 - b as i64) as u64
    } else {
        (b as i64 - a as i64) as u64
    }
}

/// The squared distance between two places (see [`geo_distance_sq`]).
pub fn distance_sq(lat_a: i32, lon_a: i32, lat_b: i32, lon_b: i32) -> (d: u128)
    ensures
        d == geo_distance_sq(lat_a as int, lon_a as int, lat_b as int, lon_b as int),
{
    let dlat = abs_diff(lat_a, lat_b);
    let dlon = abs_diff(lon_a, lon_b);
    assert((dlat as int) * (dlat as int) <= 0xffff_ffff_ffff_ffff && (dlat as int) * (dlat as int) == (lat_a
        - lat_b) * (lat_a - lat_b)) by (nonlinear_arith)
        requires
            dlat <= 0xffff_ffff,
            dlat == lat_a - lat_b || dlat == lat_b - lat_a,
    ;
    assert((dlon as int) * (dlon as int) <= 0xffff_ffff_ffff_ffff && (dlon as int) * (dlon as int) == (lon_a
        - lon_b) * (lon_a - lon_b)) by (nonlinear_arith)
        requires
            dlon <= 0xffff_ffff,
            dlon == lon_a - lon_b || dlon == lon_b - lon_a,
    ;
    let a = (dlat as u128) * (dlat as u128);
    let b = (dlon as u128) * (dlon as u128);
    a + b
}

/// The position in `servers` of the server that takes players and is
/// nearest to (`lat`, `lon`), the first of them on a tie; `None` when no
/// server takes players.
pub fn nearest_available_server(servers: &Vec<GameServerEntry>, lat: i32, lon: i32) -> (r: Option<usize>)
    ensures
        match r {
            Some(i) => is_nearest_available(servers@, lat, lon, i as int),
            None => forall|j: int| 0 <= j < servers@.len() ==> !takes_players(#[trigger] servers@[j]),
        },
{
    let mut best: Option<usize> = None;
    let mut best_d: u128 = 0;
    let mut k: usize = 0;
    while k < servers.len()
        invariant
            k <= servers@.len(),
            match best {
                Some(i) => {
                    &&& i < k
                    &&& takes_players(servers@[i as int])
                    &&& best_d == server_distance(servers@[i as int], lat, lon)
                    &&& forall|j: int|
                        0 <= j < k && takes_players(#[trigger] servers@[j]) ==> best_d <= server_distance(
                            servers@[j],
                            lat,
                            lon,
                        )
                    &&& forall|j: int|
                        0 <= j < i && takes_players(#[trigger] servers@[j]) ==> server_distance(
                            servers@[j],
                            lat,
                            lon,
                        ) > best_d
                },
                None => forall|j: int| 0 <= j < k ==> !takes_players(#[trigger] servers@[j]),
            },
        decreases servers@.len() - k,
    {
        let s = &servers[k];
        if accepts_players(&s.status, s.num_players, s.capacity) {
            let d = distance_sq(s.lat_e6, s.lon_e6, lat, lon);
            let better = match best {
                Some(_) => d < best_d,
                None => true,
            };
            if better {
                best = Some(k);
                best_d = d;
            }
        }
        k = k + 1;
    }
    best
}

/// Logs a player in. Any username is accepted with the password "1234";
/// any other password is refused with the error "invalid credentials". An
/// accepted player gets a fresh identifier and the address and zone of the
/// game server that takes players and is nearest to the player's place
/// (`player_lat`, `player_lon`), the first in the list on a tie; when no
/// server takes players the login fails with "no game server available".
pub fn login_handler(request: &LoginRequest, servers: &Vec<GameServerEntry>, player_lat: i32, player_lon: i32) -> (r:
    Result<LoginResponse, ErrorResponse>)
    ensures
        r is Ok <==> (request.password@ == "1234"@ && exists|j: int|
            0 <= j < servers@.len() && takes_players(#[trigger] servers@[j])),
        r matches Ok(resp) ==> {
            &&& is_v4_uuid_text(resp.player_uuid@)
            &&& exists|i: int|
                #[trigger] is_nearest_available(servers@, player_lat, player_lon, i) && resp.server.ip@
                    == servers@[i].ip@ && resp.server.port == servers@[i].port && resp.server.zone@
                    == servers@[i].zone@
        },
        r matches Err(e) ==> e.error@ == if request.password@ == "1234"@ {
            "no game server available"@
        } else {
            "invalid credentials"@
        },
{
    let expected = "1234".to_string();
    if request.password != expected {
        return Err(ErrorResponse { error: "invalid credentials".to_string() });
    }
    match nearest_available_server(servers, player_lat, player_lon) {
        Some(i) => {
            let s = &servers[i];
            let resp = LoginResponse {
                player_uuid: new_player_uuid(),
                server: SimpleServerInfo { ip: s.ip.clone(), port: s.port, zone: s.zone.clone() },
            };
            assert(is_nearest_available(servers@, player_lat, player_lon, i as int));
            Ok(resp)
        },
        None => Err(ErrorResponse { error: "no game server available".to_string() }),
    }
}

/// The answer to a health check: status "ok".
pub fn health_handler() -> (r: HealthResponse)
    ensures
        r.status@ == "ok"@,
{
    HealthResponse { status: "ok".to_string() }
}

/// The status a game server reports: "full" once it holds `max_players`
/// players or more, "available" before.
pub fn server_status(current_players: u16, max_players: u16) -> (s: String)
    ensures
        s@ == if current_players >= max_players {
            "full"@
        } else {
            "available"@
        },
{
    if current_players >= max_players {
        "full".to_string()
    } else {
        "available".to_string()
    }
}

/// Whether a server reported as `status` with `num_players` players out of
/// `capacity` takes new players: it must be "available" and not full.
pub fn accepts_players(status: &String, num_players: u16, capacity: u16) -> (b: bool)
    ensures
        b == (status@ == "available"@ && num_players < capacity),
{
    let available = "available".to_string();
    *status == available && num_players < capacity
}

/// The first port the orchestrator tries for a new game server.
pub const STARTING_PORT: u16 = 8001;
/// The last port the orchestrator tries before starting over.
pub const MAX_PORT: u16 = 9000;
/// The number of players a game server takes.
pub const MAX_PLAYERS_PER_SERVER: u16 = 50;

/// The port to try next, from the cursor of the port search, and the cursor
/// after that try: past the last port the search starts over from the first.
pub fn next_port_candidate(cursor: u16) -> (r: (u16, u16))
    ensures
        r.0 == if cursor > MAX_PORT {
            STARTING_PORT
        } else {
            cursor
        },
        r.1 == r.0 + 1,
        cursor >= STARTING_PORT ==> STARTING_PORT <= r.0 <= MAX_PORT && r.1 >= STARTING_PORT,
{
    let port = if cursor > MAX_PORT {
        STARTING_PORT
    } else {
        cursor
    };
    (port, port + 1)
}

} // verus!
