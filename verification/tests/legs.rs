use synology_filestation_mount::legs::{
    take, LegNames, Legs, Notice, Outcome, Seen, SmbRoute, Stage, Taking, Transport,
};

const PUBLIC: &str = "e4e-nas.ucsd.edu";
const INSIDE: &str = "10.90.24.1";

fn names() -> LegNames {
    LegNames {
        smb_direct: "SMB".to_string(),
        smb_over_vpn: "SMB over VPN".to_string(),
        https: "HTTPS".to_string(),
    }
}

/// A mount whose server and session do what they are told.
struct Mount {
    legs: Legs,
    direct_answers: bool,
    tunnel_works: bool,
    /// The chain's record.
    settled: Option<Transport>,
    tunnel_failures: Vec<String>,
    probes: usize,
    opens: usize,
    connected: bool,
    refused: bool,
    /// The next session is refused by the server.
    refuses: bool,
    /// Every session fails the way a dead link does.
    fails: bool,
    took: Vec<String>,
    log: Vec<String>,
}

impl Mount {
    fn new(direct_answers: bool, tunnel_works: bool) -> Mount {
        Mount {
            legs: Legs::new(),
            direct_answers,
            tunnel_works,
            settled: None,
            tunnel_failures: Vec::new(),
            probes: 0,
            opens: 0,
            connected: false,
            refused: false,
            refuses: false,
            fails: false,
            took: Vec::new(),
            log: Vec::new(),
        }
    }

    fn seen(&self) -> Seen {
        Seen {
            connected: self.connected,
            settled: self.settled,
        }
    }

    fn current(&self) -> Transport {
        Legs::current(&self.seen())
    }

    fn better_than(&mut self, leg: Transport) -> Option<SmbRoute> {
        if leg == Transport::SmbDirect {
            return None;
        }
        self.probes += 1;
        if self.direct_answers {
            return Some(SmbRoute::Direct {
                host: PUBLIC.to_string(),
            });
        }
        if leg == Transport::Https && self.tunnel_failures.is_empty() {
            self.opens += 1;
            if self.tunnel_works {
                return Some(SmbRoute::Tunnelled {
                    host: INSIDE.to_string(),
                });
            }
        }
        None
    }

    fn take(&mut self, route: &SmbRoute) -> Result<(), String> {
        match take(route) {
            Taking::DialAndAdopt { host } => self.took.push(format!("direct {host}")),
            Taking::Adopt { host } => self.took.push(format!("tunnel {host}")),
            Taking::NotSupported => self.took.push("nothing".to_string()),
        }
        if self.refuses {
            self.refused = true;
            return Err("permission denied".to_string());
        }
        if self.fails {
            return Err("connection reset".to_string());
        }
        self.connected = true;
        Ok(())
    }

    fn step(&mut self) -> Transport {
        let seen = self.seen();
        if let Stage::Look { before } = self.legs.step(&seen, self.refused) {
            let found = self.better_than(before);
            if let Stage::Take { before, leg, host } = self.legs.looked(before, &found) {
                let taken = self.take(&found.unwrap());
                let refused = self.refused;
                let Outcome {
                    settle,
                    tunnel_carried_nothing,
                    warning,
                } = self.legs.took(before, leg, &host, taken, refused);
                if let Some(route) = settle {
                    self.settled = Some(route.transport);
                }
                if let Some(why) = tunnel_carried_nothing {
                    self.tunnel_failures.push(why);
                }
                if let Some(notice) = warning {
                    self.log.push(notice.text(&names()));
                }
            }
        }
        let seen = self.seen();
        let (now, notice) = self.legs.finish(&seen);
        if let Some(notice) = notice {
            self.log.push(notice.text(&names()));
        }
        now
    }
}

#[test]
fn a_mount_that_started_on_http_moves_to_smb_once_it_answers() {
    let mut mount = Mount::new(false, false);

    assert_eq!(mount.step(), Transport::Https);
    assert!(mount.took.is_empty(), "nothing answered to take");

    mount.direct_answers = true;
    assert_eq!(mount.step(), Transport::SmbDirect);
    assert_eq!(mount.took, vec![format!("direct {PUBLIC}")]);
    assert_eq!(
        mount.settled,
        Some(Transport::SmbDirect),
        "and the chain knows it, so a redial goes the same way"
    );
}

#[test]
fn on_the_best_leg_it_looks_for_nothing() {
    let mut mount = Mount::new(true, true);

    assert_eq!(mount.step(), Transport::SmbDirect);
    let probes = mount.probes;
    for _ in 0..5 {
        assert_eq!(mount.step(), Transport::SmbDirect);
    }

    assert_eq!(mount.probes, probes, "no traffic of its own");
    assert_eq!(mount.opens, 0);
}

#[test]
fn a_tunnelled_mount_moves_to_direct_when_direct_answers() {
    let mut mount = Mount::new(false, true);

    assert_eq!(mount.step(), Transport::SmbOverVpn);
    assert_eq!(mount.step(), Transport::SmbOverVpn);
    assert_eq!(
        mount.opens, 1,
        "a working tunnel is not raised again to ask whether it works"
    );

    mount.direct_answers = true;
    assert_eq!(mount.step(), Transport::SmbDirect);
    assert_eq!(
        mount.took,
        vec![format!("tunnel {INSIDE}"), format!("direct {PUBLIC}")]
    );
}

#[test]
fn a_refused_login_is_never_asked_for_again() {
    let mut mount = Mount::new(true, true);
    mount.refuses = true;

    assert_eq!(mount.step(), Transport::Https);
    let probes = mount.probes;
    for _ in 0..5 {
        assert_eq!(mount.step(), Transport::Https);
    }

    assert_eq!(mount.took.len(), 1, "asked once, and believed");
    assert_eq!(mount.probes, probes, "and not even probed for");
    assert_eq!(mount.log, vec!["Transport: HTTPS"]);
}

#[test]
fn a_leg_that_answers_but_carries_no_session_changes_nothing() {
    let mut mount = Mount::new(false, true);
    assert_eq!(mount.step(), Transport::SmbOverVpn);

    mount.direct_answers = true;
    mount.fails = true;
    assert_eq!(mount.step(), Transport::SmbOverVpn);
    assert_eq!(
        mount.settled,
        Some(Transport::SmbOverVpn),
        "not settled on a leg nothing is using"
    );
    assert_eq!(
        mount.log,
        vec![
            "Transport: SMB over VPN",
            "Transport: SMB answers at e4e-nas.ucsd.edu, but no session could be built on it \
             (connection reset); staying on SMB over VPN",
        ]
    );
    assert!(mount.tunnel_failures.is_empty());
}

#[test]
fn a_tunnel_that_carries_no_session_is_told_to_the_chain() {
    let mut mount = Mount::new(false, true);
    mount.fails = true;

    for _ in 0..3 {
        assert_eq!(mount.step(), Transport::Https);
    }
    assert_eq!(mount.tunnel_failures, vec!["connection reset"]);
    assert_eq!(mount.opens, 1, "raised once, and not every minute");
    assert_eq!(mount.probes, 3, "while the cheap probe carries on");
    assert_eq!(
        mount.log,
        vec![
            "Transport: no SMB session through the tunnel (connection reset); staying on HTTPS",
            "Transport: HTTPS",
        ]
    );
}

#[test]
fn a_session_that_died_is_reported_and_brought_back() {
    let mut mount = Mount::new(true, false);
    assert_eq!(mount.step(), Transport::SmbDirect);

    mount.connected = false;
    assert_eq!(
        mount.current(),
        Transport::Https,
        "what carries the data now is the fallback, and the badge says so"
    );

    assert_eq!(mount.step(), Transport::SmbDirect);
    assert_eq!(mount.took.len(), 2);
}

#[test]
fn a_change_of_leg_is_logged_once() {
    let mut mount = Mount::new(false, false);

    mount.step();
    mount.direct_answers = true;
    mount.step();
    mount.step();

    let text = mount.log.join("\n");
    assert_eq!(
        text.matches("Transport: now SMB, was HTTPS").count(),
        1,
        "said when it happened, and not again: {text}"
    );
    assert_eq!(
        mount.log,
        vec!["Transport: HTTPS", "Transport: now SMB, was HTTPS"]
    );
}

#[test]
fn a_policy_without_smb_has_nothing_to_look_for() {
    assert!(matches!(Legs::start(true), Ok(Legs { reported: None })));
    match Legs::start(false) {
        Err(notice) => assert_eq!(
            notice.text(&names()),
            "Transport: the HTTP API (SMB is disabled)"
        ),
        Ok(_) => panic!("nothing to attach"),
    }
}

#[test]
fn a_live_session_is_on_the_leg_on_record() {
    let legs = [
        Transport::SmbDirect,
        Transport::SmbOverVpn,
        Transport::Https,
    ];
    for leg in legs {
        assert_eq!(
            Legs::current(&Seen {
                connected: true,
                settled: Some(leg)
            }),
            leg
        );
        assert_eq!(
            Legs::current(&Seen {
                connected: false,
                settled: Some(leg)
            }),
            Transport::Https
        );
    }
    assert_eq!(
        Legs::current(&Seen {
            connected: true,
            settled: None
        }),
        Transport::Https
    );
}

#[test]
fn no_route_is_nothing_to_take() {
    let legs = Legs::new();
    assert!(matches!(
        legs.looked(Transport::Https, &None),
        Stage::Finish
    ));
    assert!(matches!(
        legs.looked(Transport::Https, &Some(SmbRoute::Unavailable)),
        Stage::Finish
    ));
    assert!(matches!(
        take(&SmbRoute::Unavailable),
        Taking::NotSupported
    ));
}

#[test]
fn a_session_that_was_built_settles_its_leg_and_host() {
    let legs = Legs::new();
    let done = legs.took(
        Transport::Https,
        Transport::SmbOverVpn,
        INSIDE,
        Ok(()),
        false,
    );
    let route = done.settle.unwrap();
    assert_eq!(route.transport, Transport::SmbOverVpn);
    assert_eq!(route.smb_host.as_deref(), Some(INSIDE));
    assert_eq!(done.tunnel_carried_nothing, None);
    assert!(done.warning.is_none());

    let refused = legs.took(
        Transport::Https,
        Transport::SmbOverVpn,
        INSIDE,
        Err("no".to_string()),
        true,
    );
    assert!(refused.settle.is_none());
    assert_eq!(refused.tunnel_carried_nothing, None);
    assert!(refused.warning.is_none());
}

#[test]
fn a_leg_found_again_is_not_reported_again() {
    let mut legs = Legs::new();
    assert!(matches!(
        legs.report(Transport::Https),
        Some(Notice::First {
            now: Transport::Https
        })
    ));
    assert!(legs.report(Transport::Https).is_none());
    assert!(matches!(
        legs.report(Transport::SmbOverVpn),
        Some(Notice::Changed {
            now: Transport::SmbOverVpn,
            was: Transport::Https
        })
    ));
    assert_eq!(legs.reported, Some(Transport::SmbOverVpn));
}
