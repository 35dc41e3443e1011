//! The settings of `nog.conf`, as plain values.
use vstd::prelude::*;
use vstd::string::*;

verus! {

#[derive(Debug, Clone)]
pub struct GeneralConfig {
    pub version: String,
    pub log_level: String,
}

#[derive(Debug, Clone)]
pub struct PathsConfig {
    pub tier_pins: String,
    pub pacman_conf: String,
    pub log_file: String,
    /// Directory of the per-run CSV logs; a leading `~/` expands against `$HOME`.
    pub run_logs: String,
}

#[derive(Debug, Clone)]
pub struct ReposConfig {
    pub staging: String,
    pub testing: String,
    pub stable: String,
}

/// Hold windows, in days, per tier. These are the authoritative durations.
#[derive(Debug, Clone, Copy, PartialEq, Eq, Structural)]
pub struct HoldsConfig {
    pub tier1_days: u32,
    pub tier2_days: u32,
    pub tier3_days: u32,
}

/// `[aur] helper`: one of "auto", "yay", "paru", "none".
#[derive(Debug, Clone)]
pub struct AurConfig {
    pub helper: String,
}

impl Default for AurConfig {
    fn default() -> (c: AurConfig)
        ensures
            c.helper@ == "auto"@,
    {
        AurConfig { helper: String::from_str("auto") }
    }
}

#[derive(Debug, Clone)]
pub struct NogConfig {
    pub general: GeneralConfig,
    pub paths: PathsConfig,
    pub repos: ReposConfig,
    pub holds: HoldsConfig,
    pub aur: AurConfig,
}

impl NogConfig {
    /// The built-in configuration used when no `nog.conf` can be read.
    /// `tier_pins` is where the tier-pins file is looked for in that case.
    pub fn fallback(tier_pins: String) -> (c: NogConfig)
        ensures
            c.general.version@ == "0.1.0"@,
            c.general.log_level@ == "info"@,
            c.paths.tier_pins@ == tier_pins@,
            c.paths.pacman_conf@ == "/etc/pacman.conf"@,
            c.paths.log_file@ == "/var/log/nog.log"@,
            c.paths.run_logs@ == "~/.local/share/nog/logs"@,
            c.repos.staging@ == "https://repo.kognog.org/staging"@,
            c.repos.testing@ == "https://repo.kognog.org/testing"@,
            c.repos.stable@ == "https://repo.kognog.org/stable"@,
            c.holds == (HoldsConfig { tier1_days: 30, tier2_days: 15, tier3_days: 7 }),
            c.aur.helper@ == "auto"@,
    {
        NogConfig {
            general: GeneralConfig {
                version: String::from_str("0.1.0"),
                log_level: String::from_str("info"),
            },
            paths: PathsConfig {
                tier_pins,
                pacman_conf: String::from_str("/etc/pacman.conf"),
                log_file: String::from_str("/var/log/nog.log"),
                run_logs: String::from_str("~/.local/share/nog/logs"),
            },
            repos: ReposConfig {
                staging: String::from_str("https://repo.kognog.org/staging"),
                testing: String::from_str("https://repo.kognog.org/testing"),
                stable: String::from_str("https://repo.kognog.org/stable"),
            },
            holds: HoldsConfig { tier1_days: 30, tier2_days: 15, tier3_days: 7 },
            aur: AurConfig::default(),
        }
    }
}

} // verus!
