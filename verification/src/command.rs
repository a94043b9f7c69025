//! The commands that the daemon answers.

use vstd::prelude::*;

verus! {

/// A command of the daemon. Its name is what is sent on the command line.
#[derive(Clone, Copy, Debug, PartialEq, Eq, Structural)]
pub enum Command {
    Stats,
    OverTime,
    TopDomains,
    TopAds,
    TopClients,
    AllQueries,
    DbStats,
}

impl Command {
    /// The name of the command as the daemon knows it.
    pub open spec fn name_of(self) -> Seq<char> {
        match self {
            Command::Stats => "stats"@,
            Command::OverTime => "overTime"@,
            Command::TopDomains => "top-domains"@,
            Command::TopAds => "top-ads"@,
            Command::TopClients => "top-clients"@,
            Command::AllQueries => "getallqueries"@,
            Command::DbStats => "dbstats"@,
        }
    }

    /// The name of the command as the daemon knows it.
    pub fn name(self) -> (name: &'static str)
        ensures
            name@ == self.name_of(),
    {
        match self {
            Command::Stats => "stats",
            Command::OverTime => "overTime",
            Command::TopDomains => "top-domains",
            Command::TopAds => "top-ads",
            Command::TopClients => "top-clients",
            Command::AllQueries => "getallqueries",
            Command::DbStats => "dbstats",
        }
    }

    /// The command that lists the domains asked for most often: the blocked
    /// ones if `blocked` is set, else the permitted ones.
    pub fn top_list(blocked: bool) -> (command: Command)
        ensures
            command == (if blocked {
                Command::TopAds
            } else {
                Command::TopDomains
            }),
    {
        if blocked {
            Command::TopAds
        } else {
            Command::TopDomains
        }
    }
}

} // verus!
