use proxy_jump::chain::resolve_hop;
use proxy_jump::decimal::{append_decimal, parse_port};
use proxy_jump::hop::{parse_hop, split_host_port};
use proxy_jump::host::jump_value;
use proxy_jump::text::{eq_ignore_ascii_case, find, rfind, trim, white_space};
use proxy_jump::{parse_jump_spec, resolve_chain, ChainError, Host, JumpSpec, MAX_HOPS};

fn host(name: &str, hostname: &str) -> Host {
    Host {
        name: name.to_string(),
        hostname: hostname.to_string(),
        user: "ops".to_string(),
        ..Host::default()
    }
}

fn jumping(name: &str, hostname: &str, via: &str) -> Host {
    Host {
        proxy_jump: Some(via.to_string()),
        ..host(name, hostname)
    }
}

fn spec(user: Option<&str>, host: &str, port: Option<u16>) -> JumpSpec {
    JumpSpec {
        user: user.map(|u| u.to_string()),
        host: host.to_string(),
        port,
    }
}

fn names(chain: &[Host]) -> Vec<&str> {
    chain.iter().map(|h| h.name.as_str()).collect()
}

/// `n` hosts, each jumping through the next; the last one through `last`.
fn nested(n: usize, last: Option<&str>) -> Vec<Host> {
    (0..n)
        .map(|i| Host {
            proxy_jump: if i + 1 < n {
                Some(format!("h{}", i + 1))
            } else {
                last.map(|l| l.to_string())
            },
            ..host(&format!("h{i}"), &format!("10.0.0.{i}"))
        })
        .collect()
}

// --- text ------------------------------------------------------------------

#[test]
fn white_space_is_that_of_unicode() {
    for c in '\0'..=char::MAX {
        assert_eq!(white_space(c), c.is_whitespace(), "{c:?}");
    }
}

#[test]
fn trimming_keeps_inner_white_space() {
    assert_eq!(trim("\u{3000}\t a b\u{a0}\u{85}\n"), "a b");
    assert_eq!(trim(" \u{2003} "), "");
    assert_eq!(trim("\u{fc}\u{200b}"), "\u{fc}\u{200b}");
    for s in ["", " ", "x", " x", "x ", "  \u{1680}x y\u{205f}"] {
        assert_eq!(trim(s), s.trim());
    }
}

#[test]
fn positions_count_characters() {
    assert_eq!(find("\u{fc}b:c:", ':'), Some(2));
    assert_eq!(rfind("\u{fc}b:c:", ':'), Some(4));
    assert_eq!(find("abc", ':'), None);
    assert_eq!(rfind("", ':'), None);
}

#[test]
fn case_is_ignored_for_ascii_letters_only() {
    assert!(eq_ignore_ascii_case("NoNe", "none"));
    assert!(!eq_ignore_ascii_case("none ", "none"));
    assert!(!eq_ignore_ascii_case("\u{c4}", "\u{e4}"));
    assert!(!eq_ignore_ascii_case("@", "`"));
    assert!(!eq_ignore_ascii_case("[", "{"));
}

// --- decimal numbers -------------------------------------------------------

#[test]
fn ports_are_read_like_numbers() {
    assert_eq!(parse_port("22"), Some(22));
    assert_eq!(parse_port("+22"), Some(22));
    assert_eq!(parse_port("65535"), Some(65535));
    assert_eq!(parse_port("65536"), None);
    for s in [
        "", "+", "-", "-0", "-1", "++1", "0", "000000000000000000022", "99999999999999999999",
        "65535x", "65536x", " 22", "22 ", "2_2", "0x16", "\u{663}", "+0", "+65535", "655350",
    ] {
        assert_eq!(parse_port(s), s.parse::<u16>().ok(), "{s:?}");
    }
}

#[test]
fn every_port_is_read_back() {
    for port in 0..=u16::MAX {
        let mut text = String::from("p");
        append_decimal(&mut text, port as usize);
        assert_eq!(text, format!("p{port}"));
        assert_eq!(parse_port(&text[1..]), Some(port));
    }
}

#[test]
fn large_numbers_are_written_in_full() {
    let mut text = String::new();
    append_decimal(&mut text, 1_234_567_890);
    assert_eq!(text, "1234567890");
}

// --- hops ------------------------------------------------------------------

#[test]
fn host_and_port_are_split() {
    assert_eq!(split_host_port("web"), Some(("web", None)));
    assert_eq!(split_host_port("web:22"), Some(("web", Some(22))));
    assert_eq!(split_host_port("web:"), None);
    assert_eq!(split_host_port("web:70000"), None);
    assert_eq!(split_host_port(":22"), Some(("", Some(22))));
    assert_eq!(split_host_port("::1"), Some(("::1", None)));
    assert_eq!(split_host_port("[::1]"), Some(("::1", None)));
    assert_eq!(split_host_port("[::1]:22"), Some(("::1", Some(22))));
    assert_eq!(split_host_port("[::1]:"), None);
    assert_eq!(split_host_port("[::1]:x"), None);
    assert_eq!(split_host_port("[::1]22"), Some(("::1", None)));
    assert_eq!(split_host_port("[]"), Some(("", None)));
    assert_eq!(split_host_port("[::1"), Some(("[::1", None)));
    assert_eq!(split_host_port("[a:22"), Some(("[a", Some(22))));
    assert_eq!(split_host_port("a]:22"), Some(("a]", Some(22))));
    assert_eq!(split_host_port(""), Some(("", None)));
}

#[test]
fn the_last_at_sign_ends_the_user() {
    assert_eq!(parse_hop("a@b@c"), Some(spec(Some("a@b"), "c", None)));
    assert_eq!(parse_hop("@c"), Some(spec(None, "@c", None)));
    assert_eq!(parse_hop("@@c"), Some(spec(Some("@"), "c", None)));
    assert_eq!(parse_hop("a@"), None);
    assert_eq!(parse_hop("a@:22"), None);
    assert_eq!(parse_hop("a@[]:22"), None);
    assert_eq!(parse_hop("@"), Some(spec(None, "@", None)));
    assert_eq!(parse_hop("  \t"), None);
}

#[test]
fn written_hops_are_read_back() {
    for (text, expected) in [
        ("h", spec(None, "h", None)),
        ("\u{2003}h\t ", spec(None, "h", None)),
        ("u@h", spec(Some("u"), "h", None)),
        ("h:1", spec(None, "h", Some(1))),
        ("u@h:65535", spec(Some("u"), "h", Some(65535))),
        ("[::1]", spec(None, "::1", None)),
        ("u@[fe80::1%eth0]:22", spec(Some("u"), "fe80::1%eth0", Some(22))),
        ("\u{fc}ser@h\u{f6}st:22", spec(Some("\u{fc}ser"), "h\u{f6}st", Some(22))),
    ] {
        assert_eq!(parse_hop(text), Some(expected));
    }
}

#[test]
fn lists_are_read_entry_by_entry() {
    assert_eq!(
        parse_jump_spec(" a ,,u@b:2,c:x,\u{a0}d"),
        vec![
            spec(None, "a", None),
            spec(Some("u"), "b", Some(2)),
            spec(None, "d", None)
        ]
    );
    let mut joined = parse_jump_spec("a,b:1");
    joined.extend(parse_jump_spec("c@d,"));
    assert_eq!(parse_jump_spec("a,b:1,c@d,"), joined);
}

// --- jump values -----------------------------------------------------------

#[test]
fn jump_values_are_trimmed() {
    assert_eq!(jump_value(&jumping("w", "a", "  bastion\t")), Some("bastion"));
    assert_eq!(jump_value(&jumping("w", "a", "nonesuch")), Some("nonesuch"));
    assert_eq!(jump_value(&jumping("w", "a", " NoNe ")), None);
    assert_eq!(jump_value(&jumping("w", "a", " \u{2003} ")), None);
    assert_eq!(jump_value(&jumping("w", "a", "")), None);
    assert_eq!(jump_value(&host("w", "a")), None);
}

// --- single hops -----------------------------------------------------------

#[test]
fn the_first_matching_entry_is_used() {
    let known = [
        host("other", "1"),
        Host {
            port: 2022,
            identity_file: Some("/key".to_string()),
            ..jumping("b", "2", "other")
        },
        host("b", "3"),
    ];
    assert_eq!(resolve_hop(&spec(None, "b", None), &known), known[1]);
    assert_eq!(
        resolve_hop(&spec(Some("root"), "b", Some(1)), &known),
        Host {
            user: "root".to_string(),
            port: 1,
            ..known[1].clone()
        }
    );
}

#[test]
fn an_unknown_hop_has_default_settings() {
    assert_eq!(
        resolve_hop(&spec(None, "b", None), &[host("B", "1")]),
        Host {
            name: "b".to_string(),
            hostname: "b".to_string(),
            ..Host::default()
        }
    );
    assert_eq!(Host::default().port, 22);
    assert_eq!(Host::default().proxy_jump, None);
}

// --- chains ----------------------------------------------------------------

#[test]
fn unusable_hops_leave_an_empty_chain() {
    let target = jumping("internal", "10.0.0.2", "host:not-a-port, ,");
    assert!(resolve_chain(&target, &[]).unwrap().is_empty());
}

#[test]
fn an_opted_out_bastion_is_reached_directly() {
    let known = [jumping("b", "1", "none")];
    let target = jumping("internal", "10.0.0.2", "b");
    let chain = resolve_chain(&target, &known).unwrap();
    assert_eq!(names(&chain), ["b"]);
    assert_eq!(chain[0].proxy_jump, None);
}

#[test]
fn nested_hops_stand_directly_before_their_host() {
    let known = [
        host("a", "1"),
        jumping("b", "2", "x,y"),
        host("c", "3"),
        jumping("y", "4", "z"),
    ];
    let target = jumping("internal", "10.0.0.2", "a,b,c");
    let chain = resolve_chain(&target, &known).unwrap();
    assert_eq!(names(&chain), ["a", "x", "z", "y", "b", "c"]);
}

#[test]
fn resolving_a_hop_of_a_chain_again_gives_nothing() {
    let known = nested(4, None);
    let target = jumping("internal", "10.1.0.1", "h0");
    let chain = resolve_chain(&target, &known).unwrap();
    assert_eq!(names(&chain), ["h3", "h2", "h1", "h0"]);
    for hop in &chain {
        assert!(resolve_chain(hop, &known).unwrap().is_empty());
        assert!(resolve_chain(hop, &[]).unwrap().is_empty());
    }
}

#[test]
fn a_cycle_names_the_host_that_comes_back() {
    let known = [jumping("a", "1", "b"), jumping("b", "2", "a")];
    let target = jumping("internal", "10.0.0.2", "a");
    let error = resolve_chain(&target, &known).unwrap_err();
    assert_eq!(
        error,
        ChainError::Cycle {
            name: "a".to_string()
        }
    );
    assert_eq!(error.to_string(), "ProxyJump cycle detected at 'a'");
}

#[test]
fn a_repeated_hop_is_a_cycle() {
    let target = jumping("internal", "10.0.0.2", "a,root@a:2222");
    assert_eq!(
        resolve_chain(&target, &[]).unwrap_err().to_string(),
        "ProxyJump cycle detected at 'a'"
    );
}

#[test]
fn one_machine_under_two_users_is_no_cycle() {
    let known = [host("a", "10.0.0.1"), host("b", "10.0.0.1")];
    let target = jumping("internal", "10.0.0.2", "a,root@b");
    let chain = resolve_chain(&target, &known).unwrap();
    assert_eq!(names(&chain), ["a", "b"]);
    let target = jumping("internal", "10.0.0.2", "a,b:2222");
    assert_eq!(resolve_chain(&target, &known).unwrap().len(), 2);
    let target = jumping("internal", "10.0.0.2", "a,b:22");
    assert_eq!(
        resolve_chain(&target, &known).unwrap_err().to_string(),
        "ProxyJump cycle detected at 'b'"
    );
}

#[test]
fn endpoints_that_read_the_same_count_as_one() {
    let known = [
        Host {
            user: "a@b".to_string(),
            ..host("one", "c")
        },
        Host {
            user: "a".to_string(),
            ..host("two", "b@c")
        },
    ];
    let target = jumping("internal", "10.0.0.2", "one,two");
    assert_eq!(
        resolve_chain(&target, &known).unwrap_err().to_string(),
        "ProxyJump cycle detected at 'two'"
    );
}

#[test]
fn a_second_alias_for_the_target_is_rejected() {
    let known = [host("again", "10.0.0.2")];
    let target = jumping("internal", "10.0.0.2", "again");
    assert_eq!(
        resolve_chain(&target, &known).unwrap_err().to_string(),
        "ProxyJump cycle detected at 'again'"
    );
}

#[test]
fn a_target_without_an_address_is_at_its_alias() {
    let known = [host("b", "web")];
    let target = jumping("web", "", "b");
    assert_eq!(
        resolve_chain(&target, &known).unwrap_err().to_string(),
        "ProxyJump cycle detected at 'b'"
    );
    let target = jumping("web", "", "root@b");
    assert_eq!(names(&resolve_chain(&target, &known).unwrap()), ["b"]);
}

#[test]
fn the_longest_chain_has_max_hops() {
    let hops: Vec<String> = (0..MAX_HOPS).map(|i| format!("h{i}")).collect();
    let target = jumping("internal", "10.1.0.1", &hops.join(","));
    let chain = resolve_chain(&target, &[]).unwrap();
    assert_eq!(chain.len(), 10);
    assert_eq!(names(&chain), hops);

    let target = jumping("internal", "10.1.0.1", "h0");
    assert_eq!(resolve_chain(&target, &nested(10, None)).unwrap().len(), 10);
}

#[test]
fn one_hop_more_is_too_long() {
    let hops: Vec<String> = (0..MAX_HOPS + 1).map(|i| format!("h{i}")).collect();
    let target = jumping("internal", "10.1.0.1", &hops.join(","));
    let error = resolve_chain(&target, &[]).unwrap_err();
    assert_eq!(error, ChainError::TooLong);
    assert_eq!(error.to_string(), "ProxyJump chain longer than 10 hops");

    let target = jumping("internal", "10.1.0.1", "h0");
    assert_eq!(
        resolve_chain(&target, &nested(11, None)).unwrap_err(),
        ChainError::TooLong
    );
}

#[test]
fn the_limit_bounds_the_nesting_that_is_followed() {
    let target = jumping("internal", "10.1.0.1", "h0");
    // A loop within reach is found, one beyond it is not looked for.
    assert_eq!(
        resolve_chain(&target, &nested(10, Some("h0"))).unwrap_err(),
        ChainError::Cycle {
            name: "h0".to_string()
        }
    );
    assert_eq!(
        resolve_chain(&target, &nested(12, Some("h0"))).unwrap_err(),
        ChainError::TooLong
    );
    assert_eq!(
        resolve_chain(&target, &nested(100_000, None)).unwrap_err(),
        ChainError::TooLong
    );
}

#[test]
fn a_full_chain_stops_before_a_later_cycle() {
    let mut hops: Vec<String> = (0..MAX_HOPS + 1).map(|i| format!("h{i}")).collect();
    hops.push("h0".to_string());
    let target = jumping("internal", "10.1.0.1", &hops.join(","));
    assert_eq!(
        resolve_chain(&target, &[]).unwrap_err(),
        ChainError::TooLong
    );
}
