//! Which leg a mount is on, and moving it to a better one while it runs.
//!
//! The chain decides which leg reaches the server; this is what keeps asking. A
//! mount's SMB session is attached from the start, with or without a connection,
//! and a better leg reaches it by being handed a connection on that leg.
//!
//! Nothing here touches the network. A look for a better leg is a sequence of
//! stages: [`Legs::step`] says what comes first, and [`Legs::looked`],
//! [`Legs::took`] and [`Legs::finish`] say what follows once their caller has
//! asked the chain or the session and knows the answer.

use vstd::prelude::*;

verus! {

/// A leg: how data gets to the server.
#[derive(Clone, Copy, PartialEq, Eq, Structural, Debug)]
pub enum Transport {
    /// SMB, straight to the server.
    SmbDirect,
    /// SMB, through the tunnel.
    SmbOverVpn,
    /// The HTTP API.
    Https,
}

/// A leg that the chain has settled on, and where it reaches the server.
#[derive(Debug)]
pub struct Route {
    pub transport: Transport,
    pub smb_host: Option<String>,
}

/// A way to the server that the chain has found.
#[derive(Debug)]
pub enum SmbRoute {
    /// The server answers at this host.
    Direct { host: String },
    /// A tunnel is open to the server at this host.
    Tunnelled { host: String },
    /// There is none.
    Unavailable,
}

impl SmbRoute {
    /// The leg that this route is, and its host.
    pub open spec fn leg(self) -> Option<(Transport, Seq<char>)> {
        match self {
            SmbRoute::Direct { host } => Some((Transport::SmbDirect, host@)),
            SmbRoute::Tunnelled { host } => Some((Transport::SmbOverVpn, host@)),
            SmbRoute::Unavailable => None,
        }
    }
}

/// How a session is built on a route.
#[derive(Debug)]
pub enum Taking {
    /// Dial this host, and adopt the connection.
    DialAndAdopt { host: String },
    /// Adopt the connection that came with the route, which is to this host.
    Adopt { host: String },
    /// It cannot be: the operation is not supported.
    NotSupported,
}

/// How a session is built on `route`.
pub fn take(route: &SmbRoute) -> (r: Taking)
    ensures
        match *route {
            SmbRoute::Direct { host } => r matches Taking::DialAndAdopt { host: to } && to@ == host@,
            SmbRoute::Tunnelled { host } => r matches Taking::Adopt { host: to } && to@ == host@,
            SmbRoute::Unavailable => r is NotSupported,
        },
{
    match route {
        SmbRoute::Direct { host } => Taking::DialAndAdopt { host: host.clone() },
        SmbRoute::Tunnelled { host } => Taking::Adopt { host: host.clone() },
        SmbRoute::Unavailable => Taking::NotSupported,
    }
}

/// What the session and the chain say of themselves at some moment.
#[derive(Debug)]
pub struct Seen {
    /// Whether a session is up and not known to be dead.
    pub connected: bool,
    /// The leg that the chain last settled on.
    pub settled: Option<Transport>,
}

impl Seen {
    /// The leg that carries the data. A session that is not live means that the
    /// HTTP API is what answers, whatever the chain last decided.
    pub open spec fn carries(self) -> Transport {
        if self.connected && self.settled is Some {
            self.settled->0
        } else {
            Transport::Https
        }
    }
}

/// Something worth logging.
#[derive(Debug)]
pub enum Notice {
    /// The policy forbids SMB.
    SmbDisabled,
    /// The leg that the mount came up on.
    First { now: Transport },
    /// The leg has changed.
    Changed { now: Transport, was: Transport },
    /// The tunnel opened, and no session could be built through it.
    NothingThroughTunnel { error: String, from: Transport },
    /// The leg answers, and no session could be built on it.
    NoSession { leg: Transport, host: String, error: String, from: Transport },
}

/// What each leg is called in the log.
#[derive(Debug)]
pub struct LegNames {
    pub smb_direct: String,
    pub smb_over_vpn: String,
    pub https: String,
}

impl LegNames {
    /// What `leg` is called.
    pub open spec fn name(self, leg: Transport) -> Seq<char> {
        match leg {
            Transport::SmbDirect => self.smb_direct@,
            Transport::SmbOverVpn => self.smb_over_vpn@,
            Transport::Https => self.https@,
        }
    }

    /// What `leg` is called.
    pub fn name_of(&self, leg: Transport) -> (r: &str)
        ensures
            r@ == self.name(leg),
    {
        match leg {
            Transport::SmbDirect => self.smb_direct.as_str(),
            Transport::SmbOverVpn => self.smb_over_vpn.as_str(),
            Transport::Https => self.https.as_str(),
        }
    }
}

impl Notice {
    /// How the notice reads, where the legs have these names.
    pub open spec fn reads(self, names: LegNames) -> Seq<char> {
        match self {
            Notice::SmbDisabled => "Transport: the HTTP API (SMB is disabled)"@,
            Notice::First { now } => "Transport: "@ + names.name(now),
            Notice::Changed { now, was } => "Transport: now "@ + names.name(now) + ", was "@
                + names.name(was),
            Notice::NothingThroughTunnel { error, from } =>
                "Transport: no SMB session through the tunnel ("@ + error@ + "); staying on "@
                + names.name(from),
            Notice::NoSession { leg, host, error, from } => "Transport: "@ + names.name(leg)
                + " answers at "@ + host@ + ", but no session could be built on it ("@ + error@
                + "); staying on "@ + names.name(from),
        }
    }

    /// How the notice reads, where the legs have these names.
    pub fn text(&self, names: &LegNames) -> (r: String)
        ensures
            r@ == self.reads(*names),
    {
        let mut r = String::new();
        match self {
            Notice::SmbDisabled => {
                r.append("Transport: the HTTP API (SMB is disabled)");
            },
            Notice::First { now } => {
                r.append("Transport: ");
                r.append(names.name_of(*now));
            },
            Notice::Changed { now, was } => {
                r.append("Transport: now ");
                r.append(names.name_of(*now));
                r.append(", was ");
                r.append(names.name_of(*was));
            },
            Notice::NothingThroughTunnel { error, from } => {
                r.append("Transport: no SMB session through the tunnel (");
                r.append(error.as_str());
                r.append("); staying on ");
                r.append(names.name_of(*from));
            },
            Notice::NoSession { leg, host, error, from } => {
                r.append("Transport: ");
                r.append(names.name_of(*leg));
                r.append(" answers at ");
                r.append(host.as_str());
                r.append(", but no session could be built on it (");
                r.append(error.as_str());
                r.append("); staying on ");
                r.append(names.name_of(*from));
            },
        }
        assert(r@ =~= self.reads(*names));
        r
    }
}

/// What to do next in a look for a better leg.
#[derive(Debug)]
pub enum Stage {
    /// Ask the chain for a leg better than this one.
    Look { before: Transport },
    /// Have the session take the route, which is this leg to this host.
    Take { before: Transport, leg: Transport, host: String },
    /// Look at the session and the chain again, and finish.
    Finish,
}

/// What to do about a session that was to be built.
#[derive(Debug)]
pub struct Outcome {
    /// Tell the chain that this is the leg in use.
    pub settle: Option<Route>,
    /// Tell the chain that the tunnel carried nothing, and why.
    pub tunnel_carried_nothing: Option<String>,
    /// Warn of this.
    pub warning: Option<Notice>,
}

/// What a mount remembers of its legs.
#[derive(Debug)]
pub struct Legs {
    /// The leg last reported, so that a change is logged once rather than every
    /// time the watch looks.
    pub reported: Option<Transport>,
}

/// Whether the chain is asked for a better leg at all: not once the server has
/// refused the login.
pub open spec fn asks(refused: bool) -> bool {
    !refused
}

/// The leg that the chain is told about after `taken` came of taking `leg` to
/// `host`.
pub open spec fn settles(
    leg: Transport,
    host: Seq<char>,
    taken: Result<(), String>,
) -> Option<(Transport, Seq<char>)> {
    match taken {
        Ok(()) => Some((leg, host)),
        Err(_) => None,
    }
}

/// The failure that the chain is told of as the tunnel's: a session that was to
/// come through the tunnel and did not, unless the login was what failed.
pub open spec fn blames_tunnel(
    leg: Transport,
    taken: Result<(), String>,
    refused: bool,
) -> Option<Seq<char>> {
    match taken {
        Err(error) => if !refused && leg is SmbOverVpn {
            Some(error@)
        } else {
            None
        },
        Ok(()) => None,
    }
}

/// Whether `warning` is what is owed after `taken` came of taking `leg` to `host`
/// from `before`: nothing after a success or a refusal, and otherwise the failure,
/// told as the tunnel's or as that of the leg.
pub open spec fn warns(
    before: Transport,
    leg: Transport,
    host: Seq<char>,
    taken: Result<(), String>,
    refused: bool,
    warning: Option<Notice>,
) -> bool {
    match taken {
        Err(error) => if refused {
            warning is None
        } else if leg is SmbOverVpn {
            warning matches Some(Notice::NothingThroughTunnel { error: e, from }) && e@ == error@
                && from == before
        } else {
            warning matches Some(Notice::NoSession { leg: l, host: h, error: e, from }) && l == leg
                && h@ == host && e@ == error@ && from == before
        },
        Ok(()) => warning is None,
    }
}

/// The leg that the chain has on record once it has been told `told`, where it had
/// `settled` before.
pub open spec fn on_record(
    settled: Option<Transport>,
    told: Option<(Transport, Seq<char>)>,
) -> Option<Transport> {
    match told {
        Some((leg, _)) => Some(leg),
        None => settled,
    }
}

/// What is logged when the leg is `now`, after `reported` was the last one logged.
pub open spec fn notice(reported: Option<Transport>, now: Transport) -> Option<Notice> {
    match reported {
        None => Some(Notice::First { now }),
        Some(was) => if was != now {
            Some(Notice::Changed { now, was })
        } else {
            None
        },
    }
}

/// What is logged over a series of looks that found the mount on these legs.
pub open spec fn notices(reported: Option<Transport>, legs: Seq<Transport>) -> Seq<Notice>
    decreases legs.len(),
{
    if legs.len() == 0 {
        Seq::empty()
    } else {
        let rest = notices(Some(legs[0]), legs.skip(1));
        match notice(reported, legs[0]) {
            Some(first) => seq![first] + rest,
            None => rest,
        }
    }
}

impl Legs {
    /// Nothing reported yet.
    pub fn new() -> (r: Self)
        ensures
            r.reported is None,
    {
        Legs { reported: None }
    }

    /// Whether there is anything to attach and to look for: not when the policy
    /// forbids SMB, which is then worth a notice.
    pub fn start(may_use_smb: bool) -> (r: Result<Legs, Notice>)
        ensures
            may_use_smb ==> r == Ok::<Legs, Notice>(Legs { reported: None }),
            !may_use_smb ==> r == Err::<Legs, Notice>(Notice::SmbDisabled),
    {
        if !may_use_smb {
            return Err(Notice::SmbDisabled);
        }
        Ok(Legs::new())
    }

    /// The leg that carries data.
    ///
    /// A live session is on whichever SMB leg the chain last settled on. Connected
    /// with no such leg on record is a moment between a redial and its decision
    /// landing: understating it is the safe side.
    pub fn current(seen: &Seen) -> (r: Transport)
        ensures
            r == seen.carries(),
    {
        if !seen.connected {
            return Transport::Https;
        }
        match seen.settled {
            Some(transport) => transport,
            None => Transport::Https,
        }
    }

    /// Starts a look for a better leg than the one that carries data. After a
    /// refused login there is none: see [`Legs::took`].
    pub fn step(&self, seen: &Seen, refused: bool) -> (r: Stage)
        ensures
            r == if asks(refused) {
                Stage::Look { before: seen.carries() }
            } else {
                Stage::Finish
            },
    {
        if refused {
            Stage::Finish
        } else {
            Stage::Look { before: Self::current(seen) }
        }
    }

    /// What follows once the chain has answered.
    pub fn looked(&self, before: Transport, found: &Option<SmbRoute>) -> (r: Stage)
        ensures
            match *found {
                Some(route) => match route.leg() {
                    Some((leg, host)) => r matches Stage::Take { before: b, leg: l, host: h } && b
                        == before && l == leg && h@ == host,
                    None => r is Finish,
                },
                None => r is Finish,
            },
            *found matches Some(SmbRoute::Direct { host }) ==> (r matches Stage::Take {
                before: b,
                leg: l,
                host: h,
            } && b == before && l is SmbDirect && h@ == host@),
            *found matches Some(SmbRoute::Tunnelled { host }) ==> (r matches Stage::Take {
                before: b,
                leg: l,
                host: h,
            } && b == before && l is SmbOverVpn && h@ == host@),
    {
        match found {
            Some(SmbRoute::Direct { host }) => Stage::Take {
                before,
                leg: Transport::SmbDirect,
                host: host.clone(),
            },
            Some(SmbRoute::Tunnelled { host }) => Stage::Take {
                before,
                leg: Transport::SmbOverVpn,
                host: host.clone(),
            },
            _ => Stage::Finish,
        }
    }

    /// What to do once the session has taken the route or failed to; `refused` is
    /// whether the server has by now refused the login. A refusal has been told
    /// already. A tunnel that opened was counted as working, so the chain has to
    /// hear when nothing came through it.
    pub fn took(
        &self,
        before: Transport,
        leg: Transport,
        host: &str,
        taken: Result<(), String>,
        refused: bool,
    ) -> (r: Outcome)
        ensures
            match settles(leg, host@, taken) {
                Some((to, at)) => r.settle matches Some(route) && route.transport == to && (
                route.smb_host matches Some(h) && h@ == at),
                None => r.settle is None,
            },
            match blames_tunnel(leg, taken, refused) {
                Some(why) => r.tunnel_carried_nothing matches Some(w) && w@ == why,
                None => r.tunnel_carried_nothing is None,
            },
            warns(before, leg, host@, taken, refused, r.warning),
    {
        match taken {
            Ok(()) => Outcome {
                settle: Some(Route { transport: leg, smb_host: Some(host.to_owned()) }),
                tunnel_carried_nothing: None,
                warning: None,
            },
            Err(_) if refused => Outcome {
                settle: None,
                tunnel_carried_nothing: None,
                warning: None,
            },
            Err(error) if leg == Transport::SmbOverVpn => Outcome {
                settle: None,
                tunnel_carried_nothing: Some(error.clone()),
                warning: Some(Notice::NothingThroughTunnel { error, from: before }),
            },
            Err(error) => Outcome {
                settle: None,
                tunnel_carried_nothing: None,
                warning: Some(
                    Notice::NoSession { leg, host: host.to_owned(), error, from: before },
                ),
            },
        }
    }

    /// Finishes a look: the leg that the mount is on afterwards, and what to log
    /// about it.
    pub fn finish(&mut self, seen: &Seen) -> (r: (Transport, Option<Notice>))
        ensures
            r.0 == seen.carries(),
            r.1 == notice(old(self).reported, seen.carries()),
            final(self).reported == Some(seen.carries()),
    {
        let now = Self::current(seen);
        (now, self.report(now))
    }

    /// The leg is `now`: what to log about it, which is nothing when it is the one
    /// last logged.
    pub fn report(&mut self, now: Transport) -> (r: Option<Notice>)
        ensures
            r == notice(old(self).reported, now),
            final(self).reported == Some(now),
    {
        let r = match self.reported {
            None => Some(Notice::First { now }),
            Some(was) if was != now => Some(Notice::Changed { now, was }),
            Some(_) => None,
        };
        self.reported = Some(now);
        r
    }
}

/// A session that is not live carries nothing: the HTTP API is the leg, whatever
/// the chain has on record.
pub proof fn dead_session_leaves_the_http_api(settled: Option<Transport>)
    ensures
        (Seen { connected: false, settled }).carries() is Https,
{
}

/// A move that works is where the mount is afterwards: with the session up and the
/// chain told, the leg that was taken carries the data.
pub proof fn move_that_works_lands_on_its_leg(
    settled: Option<Transport>,
    route: SmbRoute,
    taken: Result<(), String>,
)
    requires
        route.leg() is Some,
        taken is Ok,
    ensures
        ({
            let (leg, host) = route.leg()->0;
            let told = settles(leg, host, taken);
            let after = Seen { connected: true, settled: on_record(settled, told) };
            after.carries() == leg && leg !is Https
        }),
{
}

/// A move that fails changes nothing: nothing is put on record, and a session that
/// is as live as it was is on the leg that it was on.
pub proof fn move_that_fails_changes_nothing(
    seen: Seen,
    leg: Transport,
    host: Seq<char>,
    taken: Result<(), String>,
)
    requires
        taken is Err,
    ensures
        on_record(seen.settled, settles(leg, host, taken)) == seen.settled,
        (Seen {
            connected: seen.connected,
            settled: on_record(seen.settled, settles(leg, host, taken)),
        }).carries() == seen.carries(),
{
}

/// A refused login is never asked for again: where a refusal stays, no look from
/// the first one that finds it asks for anything.
pub proof fn refused_login_is_not_asked_for_again(refused: Seq<bool>, first: int)
    requires
        0 <= first < refused.len(),
        refused[first],
        forall|i: int, j: int| 0 <= i <= j < refused.len() && refused[i] ==> refused[j],
    ensures
        forall|i: int| first <= i < refused.len() ==> !asks(#[trigger] refused[i]),
{
}

/// A leg is logged once however often the watch looks: finding it again right
/// after adds nothing to what is logged.
pub proof fn looking_again_logs_nothing(
    reported: Option<Transport>,
    legs: Seq<Transport>,
    i: int,
)
    requires
        0 <= i < legs.len(),
    ensures
        notices(reported, legs.insert(i + 1, legs[i])) == notices(reported, legs),
    decreases legs.len(),
{
    let again = legs.insert(i + 1, legs[i]);
    if i == 0 {
        reveal_with_fuel(notices, 2);
        assert(again.skip(1).skip(1) =~= legs.skip(1));
    } else {
        looking_again_logs_nothing(Some(legs[0]), legs.skip(1), i - 1);
        assert(again.skip(1) =~= legs.skip(1).insert(i, legs[i]));
    }
}

/// The log tells the legs without a gap: what is logged over a series of looks
/// starts from the leg last logged, each entry starts from the leg that the one
/// before it arrived at, and the last arrives at the leg that the mount is on.
pub proof fn log_tells_every_leg(reported: Option<Transport>, legs: Seq<Transport>)
    ensures
        tells(reported, notices(reported, legs), if legs.len() == 0 {
            reported
        } else {
            Some(legs.last())
        }),
    decreases legs.len(),
{
    if legs.len() > 0 {
        let rest = legs.skip(1);
        log_tells_every_leg(Some(legs[0]), rest);
        if let Some(first) = notice(reported, legs[0]) {
            let all = seq![first] + notices(Some(legs[0]), rest);
            assert(all.skip(1) =~= notices(Some(legs[0]), rest));
        }
    }
}

/// Whether the notices lead from the leg `from` to the leg `to`, each one arriving
/// at another leg than it started from.
pub open spec fn tells(from: Option<Transport>, told: Seq<Notice>, to: Option<Transport>) -> bool
    decreases told.len(),
{
    if told.len() == 0 {
        from == to
    } else {
        match told[0] {
            Notice::First { now } => from is None && tells(Some(now), told.skip(1), to),
            Notice::Changed { now, was } => from == Some(was) && now != was && tells(
                Some(now),
                told.skip(1),
                to,
            ),
            _ => false,
        }
    }
}

/// The host that is taken, and settled on once a session is up, is the host that the
/// route was found with, and the leg is the one that the route is: the direct one, or
/// the one through the tunnel. There is nothing to take where there is no route.
pub proof fn host_found_is_the_host_settled_on(route: SmbRoute)
    ensures
        match route {
            SmbRoute::Direct { host } => {
                &&& route.leg() matches Some((leg, taken)) && leg is SmbDirect && taken == host@
                &&& settles(Transport::SmbDirect, host@, Ok(())) == Some(
                    (Transport::SmbDirect, host@),
                )
            },
            SmbRoute::Tunnelled { host } => {
                &&& route.leg() matches Some((leg, taken)) && leg is SmbOverVpn && taken == host@
                &&& settles(Transport::SmbOverVpn, host@, Ok(())) == Some(
                    (Transport::SmbOverVpn, host@),
                )
            },
            SmbRoute::Unavailable => route.leg() is None,
        },
{
}

/// The leg that carries the data is never a guess: with a session up it is the leg on
/// record, and without one, or with none on record, it is the HTTP API.
pub proof fn leg_on_record_carries_a_live_session(connected: bool, settled: Option<Transport>)
    ensures
        ({
            let leg = (Seen { connected, settled }).carries();
            &&& connected ==> (settled matches Some(l) ==> leg == l)
            &&& !connected || settled is None ==> leg == Transport::Https
        }),
{
}

/// A look asks for a better leg exactly as long as the login has not been refused.
pub proof fn only_a_refusal_stops_the_asking(refused: bool)
    ensures
        asks(refused) <==> !refused,
{
}

/// A session that is up is settled on, and nothing is said of it. One that could not
/// be built is never settled on, and unless the login was refused, which has been
/// said already, it is warned of once, with the error and the leg that the mount
/// stays on. The tunnel alone hears of its own failures, and of all of them.
pub proof fn every_failure_is_told_to_whom_it_concerns(
    before: Transport,
    leg: Transport,
    host: Seq<char>,
    taken: Result<(), String>,
    refused: bool,
    warning: Option<Notice>,
)
    requires
        warns(before, leg, host, taken, refused, warning),
    ensures
        taken is Ok ==> settles(leg, host, taken) == Some((leg, host)),
        taken is Err ==> settles(leg, host, taken) is None,
        taken is Ok || refused || leg != Transport::SmbOverVpn ==> blames_tunnel(
            leg,
            taken,
            refused,
        ) is None,
        taken matches Err(e) ==> !refused ==> leg == Transport::SmbOverVpn ==> blames_tunnel(
            leg,
            taken,
            refused,
        ) == Some(e@),
        warning is None <==> taken is Ok || refused,
        warning matches Some(Notice::NothingThroughTunnel { error, from }) ==> {
            &&& leg == Transport::SmbOverVpn
            &&& from == before
            &&& taken matches Err(e) && e@ == error@
        },
        warning matches Some(Notice::NoSession { leg: on, host: at, error, from }) ==> {
            &&& leg != Transport::SmbOverVpn
            &&& on == leg && at@ == host && from == before
            &&& taken matches Err(e) && e@ == error@
        },
        warning matches Some(w) ==> w is NothingThroughTunnel || w is NoSession,
{
}

/// A leg is logged exactly where it is not the one last logged: the first one as
/// such, and every other with the one that it comes after.
pub proof fn leg_is_logged_where_it_is_new(reported: Option<Transport>, now: Transport)
    ensures
        notice(reported, now) is None <==> reported == Some(now),
        reported is None ==> (notice(reported, now) matches Some(Notice::First { now: to }) && to
            == now),
        reported matches Some(was) ==> was != now ==> (notice(reported, now) matches Some(
            Notice::Changed { now: to, was: from },
        ) && to == now && from == was),
{
}

/// Each notice says which legs it is about under their names, and where there is a
/// host or an error, which.
pub proof fn notices_say_what_they_are_about(notice: Notice, names: LegNames)
    ensures
        names.name(Transport::SmbDirect) == names.smb_direct@,
        names.name(Transport::SmbOverVpn) == names.smb_over_vpn@,
        names.name(Transport::Https) == names.https@,
        notice is SmbDisabled ==> notice.reads(names)
            == "Transport: the HTTP API (SMB is disabled)"@,
        notice matches Notice::First { now } ==> notice.reads(names) == "Transport: "@ + names.name(
            now,
        ),
        notice matches Notice::Changed { now, was } ==> notice.reads(names) == "Transport: now "@
            + names.name(now) + ", was "@ + names.name(was),
        notice matches Notice::NothingThroughTunnel { error, from } ==> notice.reads(names)
            == "Transport: no SMB session through the tunnel ("@ + error@ + "); staying on "@
            + names.name(from),
        notice matches Notice::NoSession { leg, host, error, from } ==> notice.reads(names)
            == "Transport: "@ + names.name(leg) + " answers at "@ + host@
            + ", but no session could be built on it ("@ + error@ + "); staying on "@ + names.name(
            from,
        ),
{
}

} // verus!
