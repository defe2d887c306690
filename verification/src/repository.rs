//! The remote repository manifest: what `repo.json` describes. Values are
//! held as plain data; fetching them is the caller's business.

use vstd::prelude::*;
use vstd::string::StringExecFns;
use vstd::string::StringSliceAdditionalSpecFns;
use crate::json::Json;
use crate::text;

verus! {

/// Why repository data could not be had.
#[derive(Debug)]
pub enum Error {
    /// The request for repository data failed; carries the URL asked for.
    Http { url: String },
    /// The repository manifest did not parse.
    Deserialization,
}

/// One mod the repository offers.
#[derive(Debug)]
pub struct Mod {
    pub mod_name: String,
    pub checksum: String,
    pub enabled: bool,
}

impl Clone for Mod {
    /// The copy holds the same fields.
    fn clone(&self) -> (r: Self)
        ensures
            r.mod_name@ == self.mod_name@,
            r.checksum@ == self.checksum@,
            r.enabled == self.enabled,
    {
        Mod {
            mod_name: self.mod_name.clone(),
            checksum: self.checksum.clone(),
            enabled: self.enabled,
        }
    }
}

/// Credentials the repository may ask its clients to send.
#[derive(Debug)]
pub struct BasicAuth {
    pub username: String,
    pub password: String,
}

/// One game server the repository advertises. The address is kept as the
/// text the manifest carried.
#[derive(Debug)]
pub struct Server {
    pub name: String,
    pub address: String,
    pub port: u16,
    pub password: String,
    pub battle_eye: bool,
}

/// The repository manifest. Its own `checksum` mixes in the generation
/// time upstream, so equality decisions never rest on it.
#[derive(Debug)]
pub struct Repository {
    pub repo_name: String,
    pub checksum: String,
    pub required_mods: Vec<Mod>,
    pub optional_mods: Vec<Mod>,
    pub client_parameters: String,
    pub repo_basic_authentication: Option<BasicAuth>,
    pub version: String,
    pub servers: Vec<Server>,
}

/// A copy of the manifest with the mod lists cleared and the unreliable
/// checksum struck out.
pub fn replicate_remote_repo_info(remote: &Repository) -> (r: Repository)
    ensures
        r.repo_name@ == remote.repo_name@,
        r.checksum@ == "INVALID"@,
        r.required_mods@.len() == 0,
        r.optional_mods@.len() == 0,
        r.client_parameters@ == remote.client_parameters@,
        r.version@ == remote.version@,
{
    Repository {
        repo_name: remote.repo_name.clone(),
        checksum: String::from_str("INVALID"),
        required_mods: Vec::new(),
        optional_mods: Vec::new(),
        client_parameters: remote.client_parameters.clone(),
        repo_basic_authentication: match &remote.repo_basic_authentication {
            Some(auth) => Some(
                BasicAuth { username: auth.username.clone(), password: auth.password.clone() },
            ),
            None => None,
        },
        version: remote.version.clone(),
        servers: clone_servers(&remote.servers),
    }
}

/// Copies the server list, keeping every field.
fn clone_servers(servers: &Vec<Server>) -> (r: Vec<Server>)
    ensures
        r@.len() == servers@.len(),
{
    let mut out: Vec<Server> = Vec::new();
    let mut i: usize = 0;
    while i < servers.len()
        invariant
            0 <= i <= servers@.len(),
            out@.len() == i,
        decreases servers@.len() - i,
    {
        let s = &servers[i];
        out.push(
            Server {
                name: s.name.clone(),
                address: s.address.clone(),
                port: s.port,
                password: s.password.clone(),
                battle_eye: s.battle_eye,
            },
        );
        i = i + 1;
    }
    out
}

/// Reads a numeric field that may arrive as a number or as a numeric
/// string, exactly as the manifest format tolerates.
pub fn deserialize_number_from_string(v: &Json) -> (r: Result<u64, Error>)
    ensures
        match r {
            Ok(n) => {
                &&& (v matches Json::Num(m) ==> n == m)
                &&& (v matches Json::Str(s) ==> text::spec_parse_u64(vstd::utf8::encode_utf8(s@)) == Some(n))
                &&& (v matches Json::Num(_) || v matches Json::Str(_))
            },
            Err(_) => !(v matches Json::Num(_)) && (v matches Json::Str(s)
                ==> text::spec_parse_u64(vstd::utf8::encode_utf8(s@)) is None),
        },
{
    match v {
        Json::Num(n) => Ok(*n),
        Json::Str(s) => {
            let bs = s.as_str().as_bytes();
            match text::parse_u64(bs) {
                Some(n) => Ok(n),
                None => Err(Error::Deserialization),
            }
        },
        _ => Err(Error::Deserialization),
    }
}

// ---------------------------------------------------------------------------
// Reading `repo.json`
// ---------------------------------------------------------------------------

// The field names, as bytes.
pub open spec fn k_repo_name() -> Seq<u8> {
    text::bytes_of_chars("repoName"@)
}

pub open spec fn k_checksum_repo() -> Seq<u8> {
    text::bytes_of_chars("checksum"@)
}

pub open spec fn k_required_mods() -> Seq<u8> {
    text::bytes_of_chars("requiredMods"@)
}

pub open spec fn k_optional_mods() -> Seq<u8> {
    text::bytes_of_chars("optionalMods"@)
}

pub open spec fn k_client_parameters() -> Seq<u8> {
    text::bytes_of_chars("clientParameters"@)
}

pub open spec fn k_basic_auth() -> Seq<u8> {
    text::bytes_of_chars("repoBasicAuthentication"@)
}

pub open spec fn k_version() -> Seq<u8> {
    text::bytes_of_chars("version"@)
}

pub open spec fn k_servers() -> Seq<u8> {
    text::bytes_of_chars("servers"@)
}

pub open spec fn k_mod_name() -> Seq<u8> {
    text::bytes_of_chars("modName"@)
}

pub open spec fn k_check_sum() -> Seq<u8> {
    text::bytes_of_chars("checkSum"@)
}

pub open spec fn k_enabled() -> Seq<u8> {
    text::bytes_of_chars("enabled"@)
}

/// What a repository mod entry must hold: `modName`, `checkSum`,
/// `enabled`.
pub open spec fn tree_rmod_ok(j: Json) -> bool {
    &&& j matches Json::Obj(ms)
    &&& (j matches Json::Obj(ms) ==> {
        &&& crate::srf_json::spec_obj_get(ms@, k_mod_name()) matches Some(Json::Str(_))
        &&& crate::srf_json::spec_obj_get(ms@, k_check_sum()) matches Some(Json::Str(_))
        &&& crate::srf_json::spec_obj_get(ms@, k_enabled()) matches Some(Json::Bool(_))
    })
}

/// The entry read from a repository mod object, copied verbatim.
pub open spec fn rmod_matches_tree(m: Mod, j: Json) -> bool {
    j matches Json::Obj(ms) ==> {
        &&& (crate::srf_json::spec_obj_get(ms@, k_mod_name()) matches Some(Json::Str(s))
            ==> m.mod_name@ == s@)
        &&& (crate::srf_json::spec_obj_get(ms@, k_check_sum()) matches Some(Json::Str(s))
            ==> m.checksum@ == s@)
        &&& (crate::srf_json::spec_obj_get(ms@, k_enabled()) matches Some(Json::Bool(b))
            ==> m.enabled == b)
    }
}

/// Reads one repository mod entry.
fn rmod_from_json(j: &Json) -> (r: Result<Mod, Error>)
    ensures
        match r {
            Ok(m) => tree_rmod_ok(*j) && rmod_matches_tree(m, *j),
            Err(_) => !tree_rmod_ok(*j),
        },
{
    proof {
        reveal_strlit("modName");
        reveal_strlit("checkSum");
        reveal_strlit("enabled");
        lemma_key_bytes_ascii();
    }
    let ms = match j {
        Json::Obj(ms) => ms,
        _ => {
            return Err(Error::Deserialization);
        },
    };
    let mod_name = match crate::srf_json::obj_get(ms, text::str_bytes("modName").as_slice()) {
        Some(Json::Str(s)) => s.clone(),
        _ => {
            return Err(Error::Deserialization);
        },
    };
    let checksum = match crate::srf_json::obj_get(ms, text::str_bytes("checkSum").as_slice()) {
        Some(Json::Str(s)) => s.clone(),
        _ => {
            return Err(Error::Deserialization);
        },
    };
    let enabled = match crate::srf_json::obj_get(ms, text::str_bytes("enabled").as_slice()) {
        Some(Json::Bool(b)) => *b,
        _ => {
            return Err(Error::Deserialization);
        },
    };
    Ok(Mod { mod_name, checksum, enabled })
}

/// The key literals used here are plain ASCII.
proof fn lemma_key_bytes_ascii()
    ensures
        "modName".is_ascii(),
        "checkSum".is_ascii(),
        "enabled".is_ascii(),
        "repoName".is_ascii(),
        "checksum".is_ascii(),
        "requiredMods".is_ascii(),
        "optionalMods".is_ascii(),
        "clientParameters".is_ascii(),
        "repoBasicAuthentication".is_ascii(),
        "version".is_ascii(),
        "servers".is_ascii(),
        "name".is_ascii(),
        "address".is_ascii(),
        "port".is_ascii(),
        "password".is_ascii(),
        "battleEye".is_ascii(),
        "username".is_ascii(),
{
    reveal_strlit("modName");
    reveal_strlit("checkSum");
    reveal_strlit("enabled");
    reveal_strlit("repoName");
    reveal_strlit("checksum");
    reveal_strlit("requiredMods");
    reveal_strlit("optionalMods");
    reveal_strlit("clientParameters");
    reveal_strlit("repoBasicAuthentication");
    reveal_strlit("version");
    reveal_strlit("servers");
    reveal_strlit("name");
    reveal_strlit("address");
    reveal_strlit("port");
    reveal_strlit("password");
    reveal_strlit("battleEye");
    reveal_strlit("username");
}

pub open spec fn k_srv_name() -> Seq<u8> {
    text::bytes_of_chars("name"@)
}

pub open spec fn k_address() -> Seq<u8> {
    text::bytes_of_chars("address"@)
}

pub open spec fn k_port() -> Seq<u8> {
    text::bytes_of_chars("port"@)
}

pub open spec fn k_password() -> Seq<u8> {
    text::bytes_of_chars("password"@)
}

pub open spec fn k_battle_eye() -> Seq<u8> {
    text::bytes_of_chars("battleEye"@)
}

pub open spec fn k_username() -> Seq<u8> {
    text::bytes_of_chars("username"@)
}

/// A port field: a number, or the same digits as a string, within
/// sixteen bits either way.
pub open spec fn port_ok(v: Json) -> bool {
    match v {
        Json::Num(n) => n <= 0xffff,
        Json::Str(s) => text::spec_parse_u64(vstd::utf8::encode_utf8(s@)) matches Some(n) && n
            <= 0xffff,
        _ => false,
    }
}

/// The port value a well-formed port field carries.
pub open spec fn port_value(v: Json) -> u64 {
    match v {
        Json::Num(n) => n,
        Json::Str(s) => text::spec_parse_u64(vstd::utf8::encode_utf8(s@))->Some_0,
        _ => 0,
    }
}

/// What a server entry must hold: `name`, `address`, `port`, `password`,
/// `battleEye`.
pub open spec fn tree_server_ok(j: Json) -> bool {
    &&& j matches Json::Obj(ms)
    &&& (j matches Json::Obj(ms) ==> {
        &&& crate::srf_json::spec_obj_get(ms@, k_srv_name()) matches Some(Json::Str(_))
        &&& crate::srf_json::spec_obj_get(ms@, k_address()) matches Some(Json::Str(_))
        &&& crate::srf_json::spec_obj_get(ms@, k_port()) matches Some(v) && port_ok(v)
        &&& crate::srf_json::spec_obj_get(ms@, k_password()) matches Some(Json::Str(_))
        &&& crate::srf_json::spec_obj_get(ms@, k_battle_eye()) matches Some(Json::Bool(_))
    })
}

/// The server read from a server entry, copied verbatim.
pub open spec fn server_matches_tree(s: Server, j: Json) -> bool {
    j matches Json::Obj(ms) ==> {
        &&& (crate::srf_json::spec_obj_get(ms@, k_srv_name()) matches Some(Json::Str(t))
            ==> s.name@ == t@)
        &&& (crate::srf_json::spec_obj_get(ms@, k_address()) matches Some(Json::Str(t))
            ==> s.address@ == t@)
        &&& (crate::srf_json::spec_obj_get(ms@, k_port()) matches Some(v) ==> (port_ok(v)
            ==> s.port == port_value(v)))
        &&& (crate::srf_json::spec_obj_get(ms@, k_password()) matches Some(Json::Str(t))
            ==> s.password@ == t@)
        &&& (crate::srf_json::spec_obj_get(ms@, k_battle_eye()) matches Some(Json::Bool(b))
            ==> s.battle_eye == b)
    }
}

/// Reads one server entry: the address is kept as text, the port may be
/// a number or a numeric string and must fit sixteen bits.
fn server_from_json(j: &Json) -> (r: Result<Server, Error>)
    ensures
        match r {
            Ok(s) => tree_server_ok(*j) && server_matches_tree(s, *j),
            Err(_) => !tree_server_ok(*j),
        },
{
    proof {
        lemma_key_bytes_ascii();
    }
    let ms = match j {
        Json::Obj(ms) => ms,
        _ => {
            return Err(Error::Deserialization);
        },
    };
    let name = match crate::srf_json::obj_get(ms, text::str_bytes("name").as_slice()) {
        Some(Json::Str(s)) => s.clone(),
        _ => {
            return Err(Error::Deserialization);
        },
    };
    let address = match crate::srf_json::obj_get(ms, text::str_bytes("address").as_slice()) {
        Some(Json::Str(s)) => s.clone(),
        _ => {
            return Err(Error::Deserialization);
        },
    };
    let port64 = match crate::srf_json::obj_get(ms, text::str_bytes("port").as_slice()) {
        Some(v) => match deserialize_number_from_string(v) {
            Ok(n) => n,
            Err(e) => {
                return Err(e);
            },
        },
        None => {
            return Err(Error::Deserialization);
        },
    };
    if port64 > 0xffff {
        return Err(Error::Deserialization);
    }
    let password = match crate::srf_json::obj_get(ms, text::str_bytes("password").as_slice()) {
        Some(Json::Str(s)) => s.clone(),
        _ => {
            return Err(Error::Deserialization);
        },
    };
    let battle_eye = match crate::srf_json::obj_get(ms, text::str_bytes("battleEye").as_slice()) {
        Some(Json::Bool(b)) => *b,
        _ => {
            return Err(Error::Deserialization);
        },
    };
    Ok(Server { name, address, port: port64 as u16, password, battle_eye })
}

/// What the whole manifest object must hold for the reader to accept it:
/// every field the format names, each with the right shape.
pub open spec fn tree_repo_ok(j: Json) -> bool {
    &&& j matches Json::Obj(ms)
    &&& (j matches Json::Obj(ms) ==> {
        &&& crate::srf_json::spec_obj_get(ms@, k_repo_name()) matches Some(Json::Str(_))
        &&& crate::srf_json::spec_obj_get(ms@, k_checksum_repo()) matches Some(Json::Str(_))
        &&& crate::srf_json::spec_obj_get(ms@, k_required_mods()) matches Some(Json::Arr(v)) && (
        forall|k: int| 0 <= k < v@.len() ==> tree_rmod_ok(#[trigger] v@[k]))
        &&& crate::srf_json::spec_obj_get(ms@, k_optional_mods()) matches Some(Json::Arr(v)) && (
        forall|k: int| 0 <= k < v@.len() ==> tree_rmod_ok(#[trigger] v@[k]))
        &&& crate::srf_json::spec_obj_get(ms@, k_client_parameters()) matches Some(Json::Str(_))
        &&& crate::srf_json::spec_obj_get(ms@, k_version()) matches Some(Json::Str(_))
        &&& crate::srf_json::spec_obj_get(ms@, k_servers()) matches Some(Json::Arr(v)) && (forall|
            k: int,
        | 0 <= k < v@.len() ==> tree_server_ok(#[trigger] v@[k]))
        &&& (crate::srf_json::spec_obj_get(ms@, k_basic_auth()) matches Some(Json::Obj(am)) ==> {
            &&& crate::srf_json::spec_obj_get(am@, k_username()) matches Some(Json::Str(_))
            &&& crate::srf_json::spec_obj_get(am@, k_password()) matches Some(Json::Str(_))
        })
    })
}

/// Every field read from the manifest object, pinned against the tree.
pub open spec fn repo_matches_tree(rep: Repository, j: Json) -> bool {
    j matches Json::Obj(ms) ==> {
        &&& (crate::srf_json::spec_obj_get(ms@, k_repo_name()) matches Some(Json::Str(s))
            ==> rep.repo_name@ == s@)
        &&& (crate::srf_json::spec_obj_get(ms@, k_checksum_repo()) matches Some(Json::Str(s))
            ==> rep.checksum@ == s@)
        &&& (crate::srf_json::spec_obj_get(ms@, k_required_mods()) matches Some(Json::Arr(v))
            ==> rep.required_mods@.len() == v@.len() && (forall|k: int|
            0 <= k < v@.len() ==> rmod_matches_tree(#[trigger] rep.required_mods@[k], v@[k])))
        &&& (crate::srf_json::spec_obj_get(ms@, k_optional_mods()) matches Some(Json::Arr(v))
            ==> rep.optional_mods@.len() == v@.len() && (forall|k: int|
            0 <= k < v@.len() ==> rmod_matches_tree(#[trigger] rep.optional_mods@[k], v@[k])))
        &&& (crate::srf_json::spec_obj_get(ms@, k_client_parameters()) matches Some(Json::Str(s))
            ==> rep.client_parameters@ == s@)
        &&& (crate::srf_json::spec_obj_get(ms@, k_version()) matches Some(Json::Str(s))
            ==> rep.version@ == s@)
        &&& (crate::srf_json::spec_obj_get(ms@, k_servers()) matches Some(Json::Arr(v))
            ==> rep.servers@.len() == v@.len() && (forall|k: int|
            0 <= k < v@.len() ==> server_matches_tree(#[trigger] rep.servers@[k], v@[k])))
        &&& (crate::srf_json::spec_obj_get(ms@, k_basic_auth()) matches Some(Json::Obj(am)) ==> {
            &&& rep.repo_basic_authentication matches Some(auth)
            &&& (crate::srf_json::spec_obj_get(am@, k_username()) matches Some(Json::Str(s))
                ==> auth.username@ == s@)
            &&& (crate::srf_json::spec_obj_get(am@, k_password()) matches Some(Json::Str(s))
                ==> auth.password@ == s@)
        })
        &&& (!(crate::srf_json::spec_obj_get(ms@, k_basic_auth()) matches Some(Json::Obj(_)))
            ==> rep.repo_basic_authentication is None)
    }
}

/// Reads a list of repository mod entries.
fn rmods_from_json(v: &Vec<Json>) -> (r: Result<Vec<Mod>, Error>)
    ensures
        match r {
            Ok(out) => out@.len() == v@.len() && (forall|k: int|
                0 <= k < v@.len() ==> tree_rmod_ok(#[trigger] v@[k]) && rmod_matches_tree(
                    out@[k],
                    v@[k],
                )),
            Err(_) => !(forall|k: int| 0 <= k < v@.len() ==> tree_rmod_ok(#[trigger] v@[k])),
        },
{
    let mut out: Vec<Mod> = Vec::new();
    let mut i: usize = 0;
    while i < v.len()
        invariant
            0 <= i <= v@.len(),
            out@.len() == i,
            forall|k: int|
                0 <= k < i ==> tree_rmod_ok(#[trigger] v@[k]) && rmod_matches_tree(
                    out@[k],
                    v@[k],
                ),
        decreases v@.len() - i,
    {
        match rmod_from_json(&v[i]) {
            Ok(m) => {
                out.push(m);
            },
            Err(e) => {
                proof {
                    assert(!tree_rmod_ok(v@[i as int]));
                }
                return Err(e);
            },
        }
        i = i + 1;
    }
    Ok(out)
}

/// Reads the whole repository manifest: every field is pinned against the
/// parsed tree, and the reader refuses exactly the inputs that are not
/// JSON or whose tree lacks a field. Integer fields tolerate numeric
/// strings.
pub fn parse_repository(input: &[u8]) -> (r: Result<Repository, Error>)
    ensures
        crate::json::spec_parse_json(input@) is None ==> r is Err,
        r matches Ok(rep) ==> exists|j: Json|
            {
                &&& #[trigger] tree_repo_ok(j)
                &&& repo_matches_tree(rep, j)
                &&& crate::json::spec_parse_json(input@) matches Some(sj)
                    && crate::json::json_matches(j, sj)
            },
        r is Err ==> (crate::json::spec_parse_json(input@) is None || exists|j: Json|
            {
                &&& !#[trigger] tree_repo_ok(j)
                &&& crate::json::spec_parse_json(input@) matches Some(sj)
                    && crate::json::json_matches(j, sj)
            }),
{
    proof {
        lemma_key_bytes_ascii();
    }
    let tree = match crate::json::parse_json(input) {
        Some(j) => j,
        None => {
            return Err(Error::Deserialization);
        },
    };
    let ms = match &tree {
        Json::Obj(ms) => ms,
        _ => {
            proof {
                assert(!tree_repo_ok(tree));
            }
            return Err(Error::Deserialization);
        },
    };
    let repo_name = match crate::srf_json::obj_get(ms, text::str_bytes("repoName").as_slice()) {
        Some(Json::Str(s)) => s.clone(),
        _ => {
            proof {
                assert(!tree_repo_ok(tree));
            }
            return Err(Error::Deserialization);
        },
    };
    let checksum = match crate::srf_json::obj_get(ms, text::str_bytes("checksum").as_slice()) {
        Some(Json::Str(s)) => s.clone(),
        _ => {
            proof {
                assert(!tree_repo_ok(tree));
            }
            return Err(Error::Deserialization);
        },
    };
    let required_mods = match crate::srf_json::obj_get(
        ms,
        text::str_bytes("requiredMods").as_slice(),
    ) {
        Some(Json::Arr(v)) => match rmods_from_json(v) {
            Ok(out) => out,
            Err(e) => {
                proof {
                    assert(!tree_repo_ok(tree));
                }
                return Err(e);
            },
        },
        _ => {
            proof {
                assert(!tree_repo_ok(tree));
            }
            return Err(Error::Deserialization);
        },
    };
    let optional_mods = match crate::srf_json::obj_get(
        ms,
        text::str_bytes("optionalMods").as_slice(),
    ) {
        Some(Json::Arr(v)) => match rmods_from_json(v) {
            Ok(out) => out,
            Err(e) => {
                proof {
                    assert(!tree_repo_ok(tree));
                }
                return Err(e);
            },
        },
        _ => {
            proof {
                assert(!tree_repo_ok(tree));
            }
            return Err(Error::Deserialization);
        },
    };
    let client_parameters = match crate::srf_json::obj_get(
        ms,
        text::str_bytes("clientParameters").as_slice(),
    ) {
        Some(Json::Str(s)) => s.clone(),
        _ => {
            proof {
                assert(!tree_repo_ok(tree));
            }
            return Err(Error::Deserialization);
        },
    };
    let repo_basic_authentication = match crate::srf_json::obj_get(
        ms,
        text::str_bytes("repoBasicAuthentication").as_slice(),
    ) {
        Some(Json::Obj(auth_ms)) => {
            let username = match crate::srf_json::obj_get(
                auth_ms,
                text::str_bytes("username").as_slice(),
            ) {
                Some(Json::Str(s)) => s.clone(),
                _ => {
                    proof {
                    assert(!tree_repo_ok(tree));
                }
                proof {
                assert(!tree_repo_ok(tree));
            }
            return Err(Error::Deserialization);
                },
            };
            let password = match crate::srf_json::obj_get(
                auth_ms,
                text::str_bytes("password").as_slice(),
            ) {
                Some(Json::Str(s)) => s.clone(),
                _ => {
                    proof {
                    assert(!tree_repo_ok(tree));
                }
                proof {
                assert(!tree_repo_ok(tree));
            }
            return Err(Error::Deserialization);
                },
            };
            Some(BasicAuth { username, password })
        },
        _ => None,
    };
    let version = match crate::srf_json::obj_get(ms, text::str_bytes("version").as_slice()) {
        Some(Json::Str(s)) => s.clone(),
        _ => {
            proof {
                assert(!tree_repo_ok(tree));
            }
            return Err(Error::Deserialization);
        },
    };
    let servers = match crate::srf_json::obj_get(ms, text::str_bytes("servers").as_slice()) {
        Some(Json::Arr(v)) => {
            proof {
                if tree_repo_ok(tree) {
                    assert forall|k: int| 0 <= k < v@.len() implies tree_server_ok(
                        #[trigger] v@[k],
                    ) by {}
                }
            }
            let mut out: Vec<Server> = Vec::new();
            let mut i: usize = 0;
            while i < v.len()
                invariant
                    crate::json::spec_parse_json(input@) matches Some(sj)
                        && crate::json::json_matches(tree, sj),
                    tree_repo_ok(tree) ==> (forall|k: int|
                        0 <= k < v@.len() ==> tree_server_ok(#[trigger] v@[k])),
                    0 <= i <= v@.len(),
                    out@.len() == i,
                    forall|k: int|
                        0 <= k < i ==> tree_server_ok(#[trigger] v@[k]) && server_matches_tree(
                            out@[k],
                            v@[k],
                        ),
                decreases v@.len() - i,
            {
                match server_from_json(&v[i]) {
                    Ok(s) => {
                        out.push(s);
                    },
                    Err(e) => {
                        proof {
                            assert(!tree_server_ok(v@[i as int]));
                        }
                        return Err(e);
                    },
                }
                i = i + 1;
            }
            out
        },
        _ => {
            proof {
                assert(!tree_repo_ok(tree));
            }
            return Err(Error::Deserialization);
        },
    };
    let rep = Repository {
        repo_name,
        checksum,
        required_mods,
        optional_mods,
        client_parameters,
        repo_basic_authentication,
        version,
        servers,
    };
    proof {
        assert(tree_repo_ok(tree));
        assert(repo_matches_tree(rep, tree));
    }
    Ok(rep)
}

} // verus!
