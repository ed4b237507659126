//! Where the daemon keeps its files.

use vstd::prelude::*;

use super::config::Config;
use super::paths::{
    is_plain, pipe_user, plain_part, set_to, under, without_verbatim, Environment, Platform,
};
use super::run::poll_time;
use super::server::upkeep_of;

verus! {

/// A name under a directory ends in the name and starts with the directory, with a separator
/// between them that one of the two has or that is put there, and nothing else.
pub proof fn lemma_under(dir: Seq<char>, name: Seq<char>, platform: Platform)
    ensures
        under(dir, name, platform) == dir + name || (dir.len() > 0 && (under(dir, name, platform)
            == dir.push('/') + name || platform is Windows && under(dir, name, platform)
            == dir.push('\\') + name)),
        dir.len() > 0 && dir.last() != '/' && !(platform is Windows) ==> under(dir, name, platform)
            == dir.push('/') + name,
        dir.len() > 0 && dir.last() == '/' ==> under(dir, name, platform) == dir + name,
{
}

/// What lasts does not depend on where what ends with the daemon is kept, nor the other way
/// round where each has a place of its own. On Unix the second is kept with the first where no
/// place is given for it.
pub proof fn lemma_runtime_place(env: Environment)
    ensures
        set_to(env.test_runtime_dir) matches Some(d) ==> env.runtime_place() == d,
        set_to(env.test_state_dir) matches Some(d) ==> env.state_place() == d,
        set_to(env.test_runtime_dir) is None && env.platform is Unix && set_to(
            env.xdg_runtime_dir,
        ) is None ==> env.runtime_place() == env.state_place(),
        set_to(env.test_runtime_dir) is None && env.platform is Unix && (set_to(
            env.xdg_runtime_dir,
        ) matches Some(d)) ==> env.runtime_place() == under(
            set_to(env.xdg_runtime_dir)->0,
            seq!['r', 'i', 'p', 'i', 'n', 'd', 'e', 'x'],
            env.platform,
        ),
{
    reveal_strlit("ripindex");
    assert("ripindex"@ =~= seq!['r', 'i', 'p', 'i', 'n', 'd', 'e', 'x']);
}

/// Only what is set counts, and of what is set on Unix the home of states comes before the home
/// of the user.
pub proof fn lemma_state_place(env: Environment, other: Environment)
    requires
        env.platform is Unix,
        other.platform is Unix,
        set_to(env.test_state_dir) is None,
        set_to(other.test_state_dir) is None,
    ensures
        set_to(env.xdg_state_home) is Some && set_to(env.xdg_state_home) == set_to(
            other.xdg_state_home,
        ) ==> env.state_place() == other.state_place(),
        set_to(env.xdg_state_home) is None && set_to(other.xdg_state_home) is None && set_to(
            env.home,
        ) is Some && set_to(env.home) == set_to(other.home) ==> env.state_place()
            == other.state_place(),
{
}

/// A variable that is set to nothing is not set.
pub proof fn lemma_set_to(var: Option<String>)
    ensures
        set_to(var) is None <==> (var is None || var->0@.len() == 0),
        set_to(var) matches Some(v) ==> var is Some && v == var->0@,
{
}

/// A path that is not one of Windows stays what it is; one of Windows loses a verbatim prefix
/// and nothing else.
pub proof fn lemma_without_verbatim(path: Seq<char>, platform: Platform)
    ensures
        !(platform is Windows) ==> without_verbatim(path, platform) == path,
        platform is Windows && !(path.len() >= 4 && path.subrange(0, 4) == seq![
            '\\',
            '\\',
            '?',
            '\\',
        ]) ==> without_verbatim(path, platform) == path,
        platform is Windows && path.len() >= 8 && path.subrange(0, 8) == seq![
            '\\',
            '\\',
            '?',
            '\\',
            'U',
            'N',
            'C',
            '\\',
        ] ==> without_verbatim(path, platform) == seq!['\\', '\\'] + path.subrange(
            8,
            path.len() as int,
        ),
{
    reveal_strlit("\\\\?\\UNC\\");
    reveal_strlit("\\\\?\\");
    reveal_strlit("\\\\");
    let unc = "\\\\?\\UNC\\"@;
    let plain = "\\\\?\\"@;
    assert(unc =~= seq!['\\', '\\', '?', '\\', 'U', 'N', 'C', '\\']);
    assert(plain =~= seq!['\\', '\\', '?', '\\']);
    assert("\\\\"@ =~= seq!['\\', '\\']);
    if unc.is_prefix_of(path) {
        assert(path.subrange(0, 4) =~= path.subrange(0, 8).subrange(0, 4));
        assert(plain =~= unc.subrange(0, 4));
    }
    if path.len() >= 8 {
        assert(path.skip(8) =~= path.subrange(8, path.len() as int));
    }
}

/// The name of a pipe holds letters and digits of ASCII, hyphens and underscores of the user's
/// name only, and the whole of a name that has no others.
pub proof fn lemma_pipe_user(user: Option<String>)
    ensures
        pipe_user(user).len() > 0,
        forall|i: int|
            #![trigger pipe_user(user)[i]]
            0 <= i < pipe_user(user).len() ==> {
                let c = pipe_user(user)[i];
                'a' <= c <= 'z' || 'A' <= c <= 'Z' || '0' <= c <= '9' || c == '-' || c == '_'
            },
        user is Some && user->0@.len() > 0 && (forall|i: int|
            0 <= i < user->0@.len() ==> {
                let c = #[trigger] user->0@[i];
                'a' <= c <= 'z' || 'A' <= c <= 'Z' || '0' <= c <= '9' || c == '-' || c == '_'
            }) ==> pipe_user(user) == user->0@,
        user is None ==> pipe_user(user) == seq!['d', 'e', 'f', 'a', 'u', 'l', 't'],
{
    reveal_strlit("default");
    assert("default"@ =~= seq!['d', 'e', 'f', 'a', 'u', 'l', 't']);
    if let Some(u) = user {
        lemma_plain_part(u@);
    }
}

proof fn lemma_plain_part(s: Seq<char>)
    ensures
        forall|i: int| 0 <= i < plain_part(s).len() ==> is_plain(#[trigger] plain_part(s)[i]),
        (forall|i: int| 0 <= i < s.len() ==> is_plain(#[trigger] s[i])) ==> plain_part(s) == s,
    decreases s.len(),
{
    reveal(Seq::filter);
    if s.len() > 0 {
        let f = s.drop_last();
        lemma_plain_part(f);
        assert(s =~= f.push(s.last()));
        if forall|i: int| 0 <= i < s.len() ==> is_plain(#[trigger] s[i]) {
            assert forall|i: int| 0 <= i < f.len() implies is_plain(#[trigger] f[i]) by {
                assert(f[i] == s[i]);
            }
            assert(is_plain(s[s.len() - 1]));
        }
    } else {
        assert(plain_part(s) =~= s);
    }
}

/// A look comes after the time that ends an idle daemon, within a second and half a minute.
pub proof fn lemma_poll_time(timeout_ms: u64, v: u64)
    ensures
        1000 <= poll_time(timeout_ms) <= 30_000,
        1000 <= v <= 30_000 && v <= timeout_ms ==> v <= poll_time(timeout_ms) <= timeout_ms,
        1000 <= v <= 30_000 && v >= timeout_ms ==> v >= poll_time(timeout_ms) >= timeout_ms,
{
}

/// Roots are kept as the configuration says; the pause between two crawls is in seconds there.
pub proof fn lemma_upkeep(config: Config)
    ensures
        upkeep_of(config).merge == config.merge,
        upkeep_of(config).governor == config.governor,
        upkeep_of(config).watch.debounce_ms == config.watch_debounce_ms,
        upkeep_of(config).watch.periodic_reconcile_ms <= 1000 * config.periodic_reconcile_secs,
        upkeep_of(config).watch.periodic_reconcile_ms < 1000 * config.periodic_reconcile_secs
            ==> upkeep_of(config).watch.periodic_reconcile_ms == u64::MAX,
{
}

} // verus!
