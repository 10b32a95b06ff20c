use proxy_jump::{parse_jump_spec, resolve_chain, Host, JumpSpec, MAX_HOPS};

fn host(name: &str, hostname: &str) -> Host {
    Host {
        name: name.to_string(),
        hostname: hostname.to_string(),
        user: "ops".to_string(),
        ..Host::default()
    }
}

fn jumping(name: &str, hostname: &str, via: &str) -> Host {
    Host {
        proxy_jump: Some(via.to_string()),
        ..host(name, hostname)
    }
}

/// Reads the `Host` blocks of an `ssh_config` text.
fn parse_ssh_config(text: &str) -> Vec<Host> {
    let mut hosts: Vec<Host> = Vec::new();
    for line in text.lines() {
        let Some((key, value)) = line.trim().split_once(' ') else {
            continue;
        };
        let value = value.trim().to_string();
        if key == "Host" {
            hosts.push(Host {
                name: value,
                ..Host::default()
            });
        } else if let Some(entry) = hosts.last_mut() {
            match key {
                "HostName" => entry.hostname = value,
                "User" => entry.user = value,
                "ProxyJump" => entry.proxy_jump = Some(value),
                _ => {}
            }
        }
    }
    hosts
}

// --- spec parsing ----------------------------------------------------------

#[test]
fn parses_a_bare_alias() {
    assert_eq!(
        parse_jump_spec("bastion"),
        vec![JumpSpec {
            user: None,
            host: "bastion".into(),
            port: None
        }]
    );
}

#[test]
fn parses_user_host_and_port() {
    assert_eq!(
        parse_jump_spec("ops@jump.example.com:2222"),
        vec![JumpSpec {
            user: Some("ops".into()),
            host: "jump.example.com".into(),
            port: Some(2222)
        }]
    );
}

#[test]
fn parses_a_multi_hop_value_in_order() {
    let hops = parse_jump_spec("first, ops@second:2222");
    assert_eq!(hops.len(), 2);
    assert_eq!(hops[0].host, "first");
    assert_eq!(hops[1].host, "second");
    assert_eq!(hops[1].port, Some(2222));
}

#[test]
fn parses_ipv6_literals() {
    let bare = parse_jump_spec("2001:db8::1");
    assert_eq!(bare[0].host, "2001:db8::1");
    assert_eq!(bare[0].port, None);

    let bracketed = parse_jump_spec("ops@[2001:db8::1]:2222");
    assert_eq!(bracketed[0].host, "2001:db8::1");
    assert_eq!(bracketed[0].port, Some(2222));
    assert_eq!(bracketed[0].user.as_deref(), Some("ops"));
}

#[test]
fn skips_unusable_hops() {
    assert!(parse_jump_spec("").is_empty());
    assert!(parse_jump_spec(" , ").is_empty());
    assert!(parse_jump_spec("host:not-a-port").is_empty());
}

// --- chain resolution ------------------------------------------------------

#[test]
fn no_proxy_jump_means_no_chain() {
    let target = host("web", "10.0.0.1");
    assert!(resolve_chain(&target, &[]).unwrap().is_empty());
}

#[test]
fn proxy_jump_none_opts_out() {
    let target = jumping("web", "10.0.0.1", "none");
    assert!(resolve_chain(&target, &[]).unwrap().is_empty());
}

#[test]
fn resolves_an_alias_against_the_known_hosts() {
    let known = vec![Host {
        port: 2222,
        identity_file: Some("/keys/proxy".into()),
        ..host("public-proxy", "proxy.example.com")
    }];
    let target = jumping("internal", "192.168.100.50", "public-proxy");

    let chain = resolve_chain(&target, &known).unwrap();
    assert_eq!(chain.len(), 1);
    assert_eq!(chain[0].hostname, "proxy.example.com");
    assert_eq!(chain[0].user, "ops");
    assert_eq!(chain[0].port, 2222);
    assert_eq!(chain[0].identity_file.as_deref(), Some("/keys/proxy"));
}

#[test]
fn resolves_a_chain_parsed_straight_from_an_ssh_config() {
    // End to end over the two halves that must agree: what a configuration
    // holds is what the resolver looks jump aliases up in.
    let cfg = "\
Host public-proxy
    HostName proxy.example.com
    User ops

Host internal
    HostName 192.168.100.50
    User admin
    ProxyJump public-proxy
";
    let hosts = parse_ssh_config(cfg);
    let target = hosts.iter().find(|h| h.name == "internal").unwrap();

    let chain = resolve_chain(target, &hosts).unwrap();
    assert_eq!(chain.len(), 1);
    assert_eq!(chain[0].name, "public-proxy");
    assert_eq!(chain[0].hostname, "proxy.example.com");
    assert_eq!(chain[0].user, "ops");
    assert_eq!(chain[0].port, 22);
}

#[test]
fn unknown_alias_falls_back_to_a_literal_host() {
    let target = jumping("internal", "10.0.0.2", "jump.example.com");
    let chain = resolve_chain(&target, &[]).unwrap();
    assert_eq!(chain.len(), 1);
    assert_eq!(chain[0].hostname, "jump.example.com");
    assert_eq!(chain[0].port, 22);
}

#[test]
fn explicit_user_and_port_override_the_known_entry() {
    let known = vec![Host {
        port: 2222,
        ..host("public-proxy", "proxy.example.com")
    }];
    let target = jumping("internal", "10.0.0.2", "admin@public-proxy:2022");

    let chain = resolve_chain(&target, &known).unwrap();
    assert_eq!(chain[0].hostname, "proxy.example.com"); // still inherited
    assert_eq!(chain[0].user, "admin");
    assert_eq!(chain[0].port, 2022);
}

#[test]
fn a_hostname_less_entry_uses_its_alias_as_the_address() {
    let known = vec![Host {
        hostname: String::new(),
        ..host("public-proxy", "")
    }];
    let target = jumping("internal", "10.0.0.2", "public-proxy");
    assert_eq!(
        resolve_chain(&target, &known).unwrap()[0].hostname,
        "public-proxy"
    );
}

#[test]
fn multi_hop_chains_keep_connection_order() {
    let known = vec![host("first", "10.0.0.1"), host("second", "10.0.0.2")];
    let target = jumping("internal", "10.0.0.3", "first,second");

    let chain = resolve_chain(&target, &known).unwrap();
    let names: Vec<&str> = chain.iter().map(|h| h.name.as_str()).collect();
    assert_eq!(names, ["first", "second"]);
}

#[test]
fn a_nested_jump_host_is_connected_first() {
    let known = vec![
        host("outer", "10.0.0.1"),
        jumping("inner", "10.0.0.2", "outer"),
    ];
    let target = jumping("internal", "10.0.0.3", "inner");

    let chain = resolve_chain(&target, &known).unwrap();
    let names: Vec<&str> = chain.iter().map(|h| h.name.as_str()).collect();
    assert_eq!(names, ["outer", "inner"]);
    // Flattened: the caller connects hop by hop and must not re-expand.
    assert!(chain.iter().all(|h| h.proxy_jump.is_none()));
}

#[test]
fn a_self_referencing_jump_is_rejected() {
    let known = vec![jumping("loop", "10.0.0.1", "loop")];
    let target = jumping("internal", "10.0.0.2", "loop");
    let err = resolve_chain(&target, &known).unwrap_err().to_string();
    assert!(err.contains("cycle"), "unexpected error: {err}");
}

#[test]
fn two_aliases_for_one_bastion_are_rejected() {
    // Same machine, different name: still a loop, just a less obvious one.
    let known = vec![
        jumping("proxy-a", "10.0.0.1", "proxy-b"),
        host("proxy-b", "10.0.0.1"),
    ];
    let target = jumping("internal", "10.0.0.2", "proxy-a");
    assert!(resolve_chain(&target, &known).is_err());
}

#[test]
fn a_jump_back_to_the_target_is_rejected() {
    let known = vec![jumping("bastion", "10.0.0.1", "internal")];
    let target = jumping("internal", "10.0.0.2", "bastion");
    assert!(resolve_chain(&target, &known).is_err());
}

#[test]
fn an_over_long_chain_is_rejected() {
    let hops: Vec<String> = (0..MAX_HOPS + 1).map(|i| format!("h{i}")).collect();
    let known: Vec<Host> = hops
        .iter()
        .enumerate()
        .map(|(i, name)| host(name, &format!("10.0.0.{i}")))
        .collect();
    let target = jumping("internal", "10.1.0.1", &hops.join(","));
    assert!(resolve_chain(&target, &known).is_err());
}
