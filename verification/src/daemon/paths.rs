//! Where the daemon keeps its files, and how it names itself to clients.
//!
//! Never a port: the index holds what is in the user's files, and a port of the
//! machine is open to every process on it. A socket or a pipe that only the user
//! can open gives the right access by itself.

use vstd::prelude::*;

use crate::text::{chars_of, starts_with, text_of};

verus! {

/// The conventions that paths and directories follow.
#[derive(Debug, Clone, Copy, PartialEq, Eq, Structural)]
pub enum Platform {
    Unix,
    Windows,
    Other,
}

/// What the environment says, a variable that is unset as `None`.
#[derive(Debug)]
pub struct Environment {
    pub platform: Platform,
    /// `RIPINDEX_TEST_RUNTIME_DIR`: takes the place of the runtime directory.
    pub test_runtime_dir: Option<String>,
    /// `RIPINDEX_TEST_STATE_DIR`: takes the place of the state directory.
    pub test_state_dir: Option<String>,
    /// `RIPINDEX_TEST_SOCKET_PATH`: takes the place of the socket.
    pub test_socket_path: Option<String>,
    /// `RIPINDEX_TEST_PIPE_NAME`: takes the place of the pipe.
    pub test_pipe_name: Option<String>,
    pub xdg_runtime_dir: Option<String>,
    pub xdg_state_home: Option<String>,
    pub home: Option<String>,
    pub local_app_data: Option<String>,
    pub user_name: Option<String>,
    /// The directory for temporary files.
    pub temp_dir: String,
}

/// The value of a variable that is set and not empty.
pub open spec fn set_to(var: Option<String>) -> Option<Seq<char>> {
    match var {
        Some(v) if v@.len() > 0 => Some(v@),
        _ => None,
    }
}

fn value(var: &Option<String>) -> (r: Option<&String>)
    ensures
        match r {
            Some(v) => set_to(*var) == Some(v@),
            None => set_to(*var) is None,
        },
{
    match var {
        Some(v) => if v.as_str().is_empty() {
            None
        } else {
            Some(v)
        },
        None => None,
    }
}

/// Whether the path is a drive and nothing more, such as `C:`.
pub open spec fn is_drive(dir: Seq<char>) -> bool {
    dir.len() == 2 && dir[1] == ':' && ('a' <= dir[0] <= 'z' || 'A' <= dir[0] <= 'Z')
}

/// Whether a name can follow the path without a separator.
pub open spec fn open_ended(dir: Seq<char>, platform: Platform) -> bool {
    ||| dir.len() == 0
    ||| dir.last() == '/'
    ||| platform is Windows && (dir.last() == '\\' || is_drive(dir))
}

/// The relative `name` under the directory `dir`.
pub open spec fn under(dir: Seq<char>, name: Seq<char>, platform: Platform) -> Seq<char> {
    if open_ended(dir, platform) {
        dir + name
    } else {
        dir.push(
            if platform is Windows {
                '\\'
            } else {
                '/'
            },
        ) + name
    }
}

/// The relative `name` under the directory `dir`.
pub fn join_on(dir: &str, name: &str, platform: Platform) -> (r: String)
    ensures
        r@ == under(dir@, name@, platform),
{
    let cs = chars_of(dir);
    let windows: bool = matches!(platform, Platform::Windows);
    let n: usize = cs.len();
    let open: bool = n == 0 || cs[n - 1] == '/' || windows && (cs[n - 1] == '\\' || n == 2
        && cs[1] == ':' && ('a' <= cs[0] && cs[0] <= 'z' || 'A' <= cs[0] && cs[0] <= 'Z'));
    assert(open == open_ended(dir@, platform));
    let mut r: String = dir.to_string();
    if !open {
        r.push(
            if windows {
                '\\'
            } else {
                '/'
            },
        );
    }
    r.push_str(name);
    r
}

impl Environment {
    /// The directory for temporary state without a better place.
    pub open spec fn temp_place(&self) -> Seq<char> {
        under(self.temp_dir@, "ripindex"@, self.platform)
    }

    /// The directory for what lasts.
    pub open spec fn state_place(&self) -> Seq<char> {
        match set_to(self.test_state_dir) {
            Some(d) => d,
            None => match self.platform {
                Platform::Unix => match (set_to(self.xdg_state_home), set_to(self.home)) {
                    (Some(d), _) => under(d, "ripindex"@, self.platform),
                    (None, Some(d)) => under(
                        under(under(d, ".local"@, self.platform), "state"@, self.platform),
                        "ripindex"@,
                        self.platform,
                    ),
                    _ => self.temp_place(),
                },
                Platform::Windows => match set_to(self.local_app_data) {
                    Some(d) => under(d, "ripindex"@, self.platform),
                    None => self.temp_place(),
                },
                Platform::Other => self.temp_place(),
            },
        }
    }

    /// The directory for what ends with the daemon.
    pub open spec fn runtime_place(&self) -> Seq<char> {
        match set_to(self.test_runtime_dir) {
            Some(d) => d,
            None => match self.platform {
                Platform::Unix => match set_to(self.xdg_runtime_dir) {
                    Some(d) => under(d, "ripindex"@, self.platform),
                    None => self.state_place(),
                },
                Platform::Windows => match set_to(self.local_app_data) {
                    Some(d) => under(
                        under(d, "ripindex"@, self.platform),
                        "run"@,
                        self.platform,
                    ),
                    None => self.temp_place(),
                },
                Platform::Other => self.temp_place(),
            },
        }
    }
}

fn temp_place(env: &Environment) -> (r: String)
    ensures
        r@ == env.temp_place(),
{
    join_on(env.temp_dir.as_str(), "ripindex", env.platform)
}

/// The directory for the instance lock and, on Unix, the socket:
/// `$XDG_RUNTIME_DIR/ripindex`, else the state directory; on Windows
/// `%LOCALAPPDATA%\ripindex\run`; where none of these is set, a directory for
/// temporary files.
pub fn runtime_dir(env: &Environment) -> (r: String)
    ensures
        r@ == env.runtime_place(),
{
    if let Some(d) = value(&env.test_runtime_dir) {
        return d.clone();
    }
    match env.platform {
        Platform::Unix => match value(&env.xdg_runtime_dir) {
            Some(d) => join_on(d.as_str(), "ripindex", env.platform),
            None => state_dir(env),
        },
        Platform::Windows => match value(&env.local_app_data) {
            Some(d) => {
                let own = join_on(d.as_str(), "ripindex", env.platform);
                join_on(own.as_str(), "run", env.platform)
            },
            None => temp_place(env),
        },
        Platform::Other => temp_place(env),
    }
}

/// The directory for the log and the configuration: `$XDG_STATE_HOME/ripindex`,
/// else `~/.local/state/ripindex`; on Windows `%LOCALAPPDATA%\ripindex`; where
/// none of these is set, a directory for temporary files.
pub fn state_dir(env: &Environment) -> (r: String)
    ensures
        r@ == env.state_place(),
{
    if let Some(d) = value(&env.test_state_dir) {
        return d.clone();
    }
    match env.platform {
        Platform::Unix => {
            if let Some(d) = value(&env.xdg_state_home) {
                return join_on(d.as_str(), "ripindex", env.platform);
            }
            match value(&env.home) {
                Some(d) => {
                    let local = join_on(d.as_str(), ".local", env.platform);
                    let state = join_on(local.as_str(), "state", env.platform);
                    join_on(state.as_str(), "ripindex", env.platform)
                },
                None => temp_place(env),
            }
        },
        Platform::Windows => match value(&env.local_app_data) {
            Some(d) => join_on(d.as_str(), "ripindex", env.platform),
            None => temp_place(env),
        },
        Platform::Other => temp_place(env),
    }
}

/// The lock of the one daemon: who holds it is the daemon. Taken before the
/// transport is bound, so that of several daemons started at once all but one
/// end before they get there.
pub fn lock_file(env: &Environment) -> (r: String)
    ensures
        r@ == under(env.runtime_place(), "daemon.lock"@, env.platform),
{
    let dir = runtime_dir(env);
    join_on(dir.as_str(), "daemon.lock", env.platform)
}

/// The log.
pub fn log_file(env: &Environment) -> (r: String)
    ensures
        r@ == under(env.state_place(), "daemon.log"@, env.platform),
{
    let dir = state_dir(env);
    join_on(dir.as_str(), "daemon.log", env.platform)
}

/// Where the log goes when it is full.
pub fn rotated_log_file(env: &Environment) -> (r: String)
    ensures
        r@ == under(env.state_place(), "daemon.log.1"@, env.platform),
{
    let dir = state_dir(env);
    join_on(dir.as_str(), "daemon.log.1", env.platform)
}

/// The configuration.
pub fn config_file(env: &Environment) -> (r: String)
    ensures
        r@ == under(env.state_place(), "config.toml"@, env.platform),
{
    let dir = state_dir(env);
    join_on(dir.as_str(), "config.toml", env.platform)
}

/// The socket of the daemon, on Unix.
pub fn socket_path(env: &Environment) -> (r: String)
    ensures
        r@ == match set_to(env.test_socket_path) {
            Some(p) => p,
            None => under(env.runtime_place(), "daemon.sock"@, env.platform),
        },
{
    if let Some(p) = value(&env.test_socket_path) {
        return p.clone();
    }
    let dir = runtime_dir(env);
    join_on(dir.as_str(), "daemon.sock", env.platform)
}

/// A letter or digit of ASCII, a hyphen or an underscore.
pub open spec fn is_plain(c: char) -> bool {
    'a' <= c <= 'z' || 'A' <= c <= 'Z' || '0' <= c <= '9' || c == '-' || c == '_'
}

/// The plain characters of a text.
pub open spec fn plain_part(s: Seq<char>) -> Seq<char> {
    s.filter(|c: char| is_plain(c))
}

/// The user as the name of the pipe holds it.
pub open spec fn pipe_user(user: Option<String>) -> Seq<char> {
    let plain = match user {
        Some(u) => plain_part(u@),
        None => "default"@,
    };
    if plain.len() == 0 {
        "default"@
    } else {
        plain
    }
}

/// The name of the daemon's pipe, on Windows: one for each user of the machine.
/// What keeps others out is not the name but who may open the pipe.
pub fn pipe_name(env: &Environment) -> (r: String)
    ensures
        r@ == match set_to(env.test_pipe_name) {
            Some(name) => name,
            None => "\\\\.\\pipe\\ripindex-"@ + pipe_user(env.user_name),
        },
{
    if let Some(name) = value(&env.test_pipe_name) {
        return name.clone();
    }
    let mut r: String = "\\\\.\\pipe\\ripindex-".to_string();
    let user = match &env.user_name {
        Some(u) => plain_text(u.as_str()),
        None => "default".to_string(),
    };
    if user.as_str().is_empty() {
        r.push_str("default");
    } else {
        r.push_str(user.as_str());
    }
    r
}

fn plain_text(s: &str) -> (r: String)
    ensures
        r@ == plain_part(s@),
{
    let cs = chars_of(s);
    let mut r = String::new();
    let mut i: usize = 0;
    proof {
        reveal(Seq::filter);
        assert(s@.take(0) =~= Seq::empty());
        assert(r@ =~= Seq::empty());
    }
    while i < cs.len()
        invariant
            i <= cs@.len(),
            cs@ == s@,
            r@ == plain_part(s@.take(i as int)),
        decreases cs@.len() - i,
    {
        let c = cs[i];
        if 'a' <= c && c <= 'z' || 'A' <= c && c <= 'Z' || '0' <= c && c <= '9' || c == '-' || c
            == '_' {
            r.push(c);
        }
        i = i + 1;
        proof {
            reveal(Seq::filter);
            assert(s@.take(i as int).drop_last() =~= s@.take(i - 1));
        }
    }
    assert(s@.take(i as int) =~= s@);
    r
}

/// A path of Windows without the prefix that marks it as verbatim. A path of the
/// network stays one.
pub open spec fn without_verbatim(path: Seq<char>, platform: Platform) -> Seq<char> {
    if !(platform is Windows) {
        path
    } else if "\\\\?\\UNC\\"@.is_prefix_of(path) {
        "\\\\"@ + path.skip("\\\\?\\UNC\\"@.len() as int)
    } else if "\\\\?\\"@.is_prefix_of(path) {
        path.skip("\\\\?\\"@.len() as int)
    } else {
        path
    }
}

/// A path as the daemon keys and reports it: without the verbatim prefix that
/// Windows puts before a canonical path, which editors reject. On any other
/// platform the path itself.
pub fn strip_verbatim(path: &str, platform: Platform) -> (r: String)
    ensures
        r@ == without_verbatim(path@, platform),
{
    if !matches!(platform, Platform::Windows) {
        return path.to_string();
    }
    let cs = chars_of(path);
    proof {
        reveal_strlit("\\\\?\\UNC\\");
        reveal_strlit("\\\\?\\");
    }
    if starts_with(path, "\\\\?\\UNC\\") {
        let mut r: String = "\\\\".to_string();
        let rest = text_of(cs.as_slice(), 8, cs.len());
        assert(rest@ =~= path@.skip(8));
        r.push_str(rest.as_str());
        return r;
    }
    if starts_with(path, "\\\\?\\") {
        let r = text_of(cs.as_slice(), 4, cs.len());
        assert(r@ =~= path@.skip(4));
        return r;
    }
    path.to_string()
}

/// A path that was stripped carries no verbatim prefix unless one followed the
/// other in it.
pub proof fn lemma_no_verbatim_prefix(path: Seq<char>)
    ensures
        ({
            let r = without_verbatim(path, Platform::Windows);
            &&& "\\\\?\\"@.is_prefix_of(r) ==> exists|head: Seq<char>| #[trigger]
                head.is_prefix_of(path) && (head == "\\\\?\\"@ + "\\\\?\\"@ || head
                    == "\\\\?\\UNC\\"@ + "?\\"@)
            &&& !"\\\\?\\"@.is_prefix_of(path) ==> r == path
        }),
{
    reveal_strlit("\\\\?\\UNC\\");
    reveal_strlit("\\\\?\\");
    reveal_strlit("\\\\");
    reveal_strlit("?\\");
    let unc = "\\\\?\\UNC\\"@;
    let mark = "\\\\?\\"@;
    let r = without_verbatim(path, Platform::Windows);
    if unc.is_prefix_of(path) {
        assert(path.subrange(0, 8) =~= unc);
        assert forall|k: int| 0 <= k < 4 implies path[k] == mark[k] by {
            assert(path.subrange(0, 8)[k] == unc[k]);
        }
        assert(mark =~= path.subrange(0, 4));
        if mark.is_prefix_of(r) {
            assert(r.subrange(0, 4) =~= mark);
            let head = unc + "?\\"@;
            assert forall|k: int| 0 <= k < 10 implies path[k] == head[k] by {
                if k < 8 {
                    assert(path.subrange(0, 8)[k] == unc[k]);
                } else {
                    assert(r.subrange(0, 4)[k - 6] == mark[k - 6]);
                    assert(r[k - 6] == path[k]);
                }
            }
            assert(head =~= path.subrange(0, 10));
            assert(head.is_prefix_of(path));
        }
    } else if mark.is_prefix_of(path) {
        if mark.is_prefix_of(r) {
            assert(r.subrange(0, 4) =~= mark);
            let head = mark + mark;
            assert forall|k: int| 0 <= k < 8 implies path[k] == head[k] by {
                if k < 4 {
                    assert(path.subrange(0, 4)[k] == mark[k]);
                } else {
                    assert(r.subrange(0, 4)[k - 4] == mark[k - 4]);
                }
            }
            assert(head =~= path.subrange(0, 8));
            assert(head.is_prefix_of(path));
        }
    }
}

} // verus!
