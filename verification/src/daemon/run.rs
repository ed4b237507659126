//! When an idle daemon ends, when its log is full, and the texts that tell how to
//! start it on login.

use vstd::prelude::*;

verus! {

/// A log above this size is full.
pub const LOG_ROTATE_BYTES: u64 = 0xa0_0000;

/// Whether the log is full.
pub fn must_rotate(len: u64) -> (r: bool)
    ensures
        r == (len > 10 * 1024 * 1024),
{
    len > LOG_ROTATE_BYTES
}

/// How long the daemon has been idle: without a client and without a root. Times
/// are in milliseconds.
#[derive(Debug, Clone, Copy, PartialEq, Eq, Structural)]
pub struct IdleWatch {
    /// The time after which an idle daemon ends.
    pub timeout_ms: u64,
    /// Since when every look found it idle.
    pub since: Option<u64>,
}

/// The time between two looks.
pub open spec fn poll_time(timeout_ms: u64) -> u64 {
    if timeout_ms <= 1000 {
        1000
    } else if timeout_ms >= 30_000 {
        30_000
    } else {
        timeout_ms
    }
}

/// What a look does: the watch behind it, and whether the daemon ends.
pub open spec fn looked(w: IdleWatch, idle: bool, now_ms: u64) -> (IdleWatch, bool) {
    if !idle {
        (IdleWatch { since: None, ..w }, false)
    } else {
        match w.since {
            Some(t) => (w, now_ms - t >= w.timeout_ms),
            None => (IdleWatch { since: Some(now_ms), ..w }, w.timeout_ms == 0),
        }
    }
}

impl IdleWatch {
    /// A watch that has not looked yet.
    pub fn new(timeout_ms: u64) -> (w: Self)
        ensures
            w == (IdleWatch { timeout_ms, since: None }),
    {
        IdleWatch { timeout_ms, since: None }
    }

    /// The time between two looks: half a minute or the timeout, whichever is
    /// shorter, and a second at least.
    pub fn poll_ms(&self) -> (ms: u64)
        ensures
            ms == poll_time(self.timeout_ms),
    {
        let short: u64 = if self.timeout_ms < 30_000 {
            self.timeout_ms
        } else {
            30_000
        };
        if short < 1000 {
            1000
        } else {
            short
        }
    }

    /// Takes in what a look found, and says whether the daemon ends.
    pub fn look(&mut self, idle: bool, now_ms: u64) -> (ends: bool)
        ensures
            (*final(self), ends) == looked(*old(self), idle, now_ms),
    {
        if !idle {
            self.since = None;
            return false;
        }
        match self.since {
            Some(t) => now_ms >= t && now_ms - t >= self.timeout_ms,
            None => {
                self.since = Some(now_ms);
                self.timeout_ms == 0
            },
        }
    }
}

/// One look: whether the daemon was idle, and when.
pub ghost struct Look {
    pub idle: bool,
    pub at: u64,
}

/// The watch behind a sequence of looks.
pub open spec fn after_looks(w: IdleWatch, looks: Seq<Look>) -> IdleWatch
    decreases looks.len(),
{
    if looks.len() == 0 {
        w
    } else {
        looked(after_looks(w, looks.drop_last()), looks.last().idle, looks.last().at).0
    }
}

/// Whether the last of the looks ends the daemon.
pub open spec fn ends_at_last(w: IdleWatch, looks: Seq<Look>) -> bool {
    looks.len() > 0 && looked(
        after_looks(w, looks.drop_last()),
        looks.last().idle,
        looks.last().at,
    ).1
}

/// Every look from the one at `first` on found the daemon idle.
pub open spec fn idle_from(looks: Seq<Look>, first: int) -> bool {
    forall|k: int| first <= k < looks.len() ==> (#[trigger] looks[k]).idle
}

proof fn lemma_since(timeout_ms: u64, looks: Seq<Look>) -> (first: int)
    ensures
        after_looks(IdleWatch { timeout_ms, since: None }, looks).timeout_ms == timeout_ms,
        0 <= first <= looks.len(),
        idle_from(looks, first),
        match after_looks(IdleWatch { timeout_ms, since: None }, looks).since {
            Some(t) => first < looks.len() && t == looks[first].at,
            None => first == looks.len(),
        },
    decreases looks.len(),
{
    let w = IdleWatch { timeout_ms, since: None };
    if looks.len() == 0 {
        0
    } else {
        let front = looks.drop_last();
        let first = lemma_since(timeout_ms, front);
        let n = looks.len() as int;
        if !looks.last().idle {
            n
        } else {
            assert forall|k: int| first <= k < n implies (#[trigger] looks[k]).idle by {
                if k < n - 1 {
                    assert(front[k].idle);
                }
            }
            first
        }
    }
}

/// The daemon ends only when every look over a time as long as the timeout found
/// it without a client and without a root.
pub proof fn lemma_ends_only_idle(timeout_ms: u64, looks: Seq<Look>)
    requires
        ends_at_last(IdleWatch { timeout_ms, since: None }, looks),
    ensures
        exists|first: int|
            0 <= first < looks.len() && looks.last().at - (#[trigger] looks[first]).at
                >= timeout_ms && idle_from(looks, first),
{
    let front = looks.drop_last();
    let first = lemma_since(timeout_ms, front);
    let n = looks.len() as int;
    assert forall|k: int| first <= k < n implies (#[trigger] looks[k]).idle by {
        if k < n - 1 {
            assert(front[k].idle);
        }
    }
    assert(idle_from(looks, first));
    assert(looks[first].at == looks[first].at);
}

/// The unit of systemd that starts this program as a daemon.
pub open spec fn unit_text(exe: Seq<char>) -> Seq<char> {
    "[Unit]\nDescription=ripindex daemon\n\n[Service]\nType=simple\nExecStart="@ + exe
        + " daemon\nRestart=on-failure\nRestartSec=2\n\n[Install]\nWantedBy=default.target\n"@
}

/// The unit of systemd that starts the program `exe` as a daemon.
pub fn systemd_unit(exe: &str) -> (r: String)
    ensures
        r@ == unit_text(exe@),
{
    let mut r: String =
        "[Unit]\nDescription=ripindex daemon\n\n[Service]\nType=simple\nExecStart=".to_string();
    r.push_str(exe);
    r.push_str(
        " daemon\nRestart=on-failure\nRestartSec=2\n\n[Install]\nWantedBy=default.target\n",
    );
    r
}

/// The property list of launchd that starts this program as a daemon.
pub open spec fn plist_text(exe: Seq<char>) -> Seq<char> {
    "<?xml version=\"1.0\" encoding=\"UTF-8\"?>\n<!DOCTYPE plist PUBLIC \"-//Apple//DTD PLIST 1.0//EN\" \"http://www.apple.com/DTDs/PropertyList-1.0.dtd\">\n<plist version=\"1.0\">\n<dict>\n    <key>Label</key>\n    <string>com.ripindex.daemon</string>\n    <key>ProgramArguments</key>\n    <array>\n        <string>"@
        + exe
        + "</string>\n        <string>daemon</string>\n    </array>\n    <key>RunAtLoad</key>\n    <true/>\n    <key>KeepAlive</key>\n    <true/>\n</dict>\n</plist>\n"@
}

/// The property list of launchd that starts the program `exe` as a daemon.
pub fn launchd_plist(exe: &str) -> (r: String)
    ensures
        r@ == plist_text(exe@),
{
    let mut r: String =
        "<?xml version=\"1.0\" encoding=\"UTF-8\"?>\n<!DOCTYPE plist PUBLIC \"-//Apple//DTD PLIST 1.0//EN\" \"http://www.apple.com/DTDs/PropertyList-1.0.dtd\">\n<plist version=\"1.0\">\n<dict>\n    <key>Label</key>\n    <string>com.ripindex.daemon</string>\n    <key>ProgramArguments</key>\n    <array>\n        <string>".to_string();
    r.push_str(exe);
    r.push_str(
        "</string>\n        <string>daemon</string>\n    </array>\n    <key>RunAtLoad</key>\n    <true/>\n    <key>KeepAlive</key>\n    <true/>\n</dict>\n</plist>\n",
    );
    r
}

/// The operating systems that have a text of their own.
#[derive(Debug, Clone, Copy, PartialEq, Eq, Structural)]
pub enum System {
    Linux,
    MacOs,
    Windows,
    Other,
}

/// How to have the daemon started on login.
pub open spec fn hint_text(exe: Seq<char>, system: System) -> Seq<char> {
    match system {
        System::Linux =>
            "Install a systemd user unit so ripindex starts on login:\n\n  mkdir -p ~/.config/systemd/user\n  cat > ~/.config/systemd/user/ripindex.service <<'EOF'\n"@
            + unit_text(exe) + "EOF\n  systemctl --user enable --now ripindex\n"@,
        System::MacOs =>
            "Install a launchd agent so ripindex starts on login:\n\n  cat > ~/Library/LaunchAgents/com.ripindex.daemon.plist <<'EOF'\n"@
            + plist_text(exe)
            + "EOF\n  launchctl load ~/Library/LaunchAgents/com.ripindex.daemon.plist\n"@,
        System::Windows =>
            "ripindex autostarts on demand (the first `ripindex search`/`status`/etc. spawns it if it isn't running already); there is no login-time autostart hook shipped for Windows in this build. A Scheduled Task (`schtasks /create /sc onlogon /tn ripindex /tr \"<path to ripindex.exe> daemon\"`) achieves the same effect if you want the daemon warm before your first command."@,
        System::Other => "No autostart hint is available for this platform."@,
    }
}

/// How to have the daemon started on login. A text only: nothing is installed.
pub fn install_hint(exe: &str, system: System) -> (r: String)
    ensures
        r@ == hint_text(exe@, system),
{
    match system {
        System::Linux => {
            let mut r: String =
                "Install a systemd user unit so ripindex starts on login:\n\n  mkdir -p ~/.config/systemd/user\n  cat > ~/.config/systemd/user/ripindex.service <<'EOF'\n".to_string();
            r.push_str(systemd_unit(exe).as_str());
            r.push_str("EOF\n  systemctl --user enable --now ripindex\n");
            r
        },
        System::MacOs => {
            let mut r: String =
                "Install a launchd agent so ripindex starts on login:\n\n  cat > ~/Library/LaunchAgents/com.ripindex.daemon.plist <<'EOF'\n".to_string();
            r.push_str(launchd_plist(exe).as_str());
            r.push_str("EOF\n  launchctl load ~/Library/LaunchAgents/com.ripindex.daemon.plist\n");
            r
        },
        System::Windows =>
            "ripindex autostarts on demand (the first `ripindex search`/`status`/etc. spawns it if it isn't running already); there is no login-time autostart hook shipped for Windows in this build. A Scheduled Task (`schtasks /create /sc onlogon /tn ripindex /tr \"<path to ripindex.exe> daemon\"`) achieves the same effect if you want the daemon warm before your first command.".to_string(),
        System::Other => "No autostart hint is available for this platform.".to_string(),
    }
}

} // verus!
