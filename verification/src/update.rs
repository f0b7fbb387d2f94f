//! Update channels and the manifest each one follows.

use vstd::prelude::*;

verus! {

/// Update channel: stable follows releases, beta also follows prereleases.
#[derive(Debug, Clone, Copy, PartialEq, Eq, Structural)]
pub enum Channel {
    Stable,
    Beta,
}

/// Result of an update check.
#[derive(Debug, Clone)]
pub struct CheckUpdateResult {
    pub available: bool,
    pub current_version: String,
    pub version: Option<String>,
    pub notes: Option<String>,
    pub date: Option<String>,
}

/// The update manifest URL a channel follows: stable reads `latest.json` of
/// the newest release, beta reads `beta-latest.json` on the rolling `beta` tag.
pub fn manifest_url(channel: Channel) -> (r: &'static str)
    ensures
        r@ == (match channel {
            Channel::Stable => "https://github.com/Horldsence/vofa-NEXT/releases/latest/download/latest.json"@,
            Channel::Beta => "https://github.com/Horldsence/vofa-NEXT/releases/download/beta/beta-latest.json"@,
        }),
{
    match channel {
        Channel::Stable => "https://github.com/Horldsence/vofa-NEXT/releases/latest/download/latest.json",
        Channel::Beta => "https://github.com/Horldsence/vofa-NEXT/releases/download/beta/beta-latest.json",
    }
}

} // verus!
