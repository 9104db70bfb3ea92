use nockchain::kernel_pool::KernelPoolConfig;
use nockchain::mining::{
    attempt_outcome, command_effects, create_candidate_variation, dispatch_batch, dispatch_step, effects_to_vec,
    enable_mining_poke, has_solution, is_command_effect, mining_candidate, mining_pool_config,
    mining_setup_pokes, parallel_worker_count, parse_u64, set_mining_key_advanced_poke, set_mining_key_poke,
    split_chars, starts_mining, str_chars, tag, KeyConfigError, MiningKeyConfig, MiningWire,
    ParseIntErrorKind, MINING_WIRE_VERSION,
};
use nockchain::noun::Noun;
use std::str::FromStr;

fn d(v: u64) -> Noun {
    Noun::direct(v)
}

fn c(h: Noun, t: Noun) -> Noun {
    Noun::cell(h, t)
}

#[test]
fn wire_verbs_and_wires() {
    assert_eq!(MiningWire::Mined.verb(), "mined");
    assert_eq!(MiningWire::Candidate.verb(), "candidate");
    assert_eq!(MiningWire::SetPubKey.verb(), "setpubkey");
    assert_eq!(MiningWire::Enable.verb(), "enable");
    let w = MiningWire::Candidate.to_wire();
    assert_eq!(w.source, "miner");
    assert_eq!(w.version, MINING_WIRE_VERSION);
    assert_eq!(w.version, 1);
    assert_eq!(w.tags, vec!["candidate".to_string()]);
}

#[test]
fn parse_simple_key_config() {
    let cfg = MiningKeyConfig::from_str("1,1:key").unwrap();
    assert_eq!(cfg.share, 1);
    assert_eq!(cfg.m, 1);
    assert_eq!(cfg.keys, vec!["key".to_string()]);
}

#[test]
fn parse_multisig_key_config() {
    let cfg = MiningKeyConfig::parse("2,3:a,b,c").unwrap();
    assert_eq!(
        cfg,
        MiningKeyConfig { share: 2, m: 3, keys: vec!["a".to_string(), "b".to_string(), "c".to_string()] }
    );
    let cfg = MiningKeyConfig::parse("+7,0:").unwrap();
    assert_eq!(cfg.share, 7);
    assert_eq!(cfg.m, 0);
    assert_eq!(cfg.keys, vec!["".to_string()]);
}

#[test]
fn parse_key_config_errors() {
    assert_eq!(
        MiningKeyConfig::parse("abc").unwrap_err(),
        "Invalid format. Expected 'share,m:key1,key2,key3'"
    );
    assert_eq!(
        MiningKeyConfig::parse("1,1:a:b").unwrap_err(),
        "Invalid format. Expected 'share,m:key1,key2,key3'"
    );
    assert_eq!(MiningKeyConfig::parse("1:abc").unwrap_err(), "Invalid share,m format");
    assert_eq!(MiningKeyConfig::parse("1,2,3:abc").unwrap_err(), "Invalid share,m format");
    assert_eq!(MiningKeyConfig::parse("x,1:k").unwrap_err(), "invalid digit found in string");
    assert_eq!(MiningKeyConfig::parse("1,-1:k").unwrap_err(), "invalid digit found in string");
    assert_eq!(MiningKeyConfig::parse(",1:k").unwrap_err(), "cannot parse integer from empty string");
    assert_eq!(
        MiningKeyConfig::parse("18446744073709551616,1:k").unwrap_err(),
        "number too large to fit in target type"
    );
    assert_eq!(MiningKeyConfig::parse_config("1:k"), Err(KeyConfigError::ShareM));
    assert_eq!(
        MiningKeyConfig::parse_config("1,:k"),
        Err(KeyConfigError::Int(ParseIntErrorKind::Empty))
    );
}

#[test]
fn parse_u64_matches_std() {
    for s in ["0", "42", "+42", "18446744073709551615", "18446744073709551616", "", "+", "-1", "4a", " 1"] {
        let ours = parse_u64(&s.chars().collect());
        let std = s.parse::<u64>();
        match (ours, std) {
            (Ok(a), Ok(b)) => assert_eq!(a, b),
            (Err(_), Err(_)) => {}
            (a, b) => panic!("disagreement on {:?}: {:?} vs {:?}", s, a, b),
        }
    }
    assert_eq!(parse_u64(&"".chars().collect()), Err(ParseIntErrorKind::Empty));
    assert_eq!(parse_u64(&"99999999999999999999".chars().collect()), Err(ParseIntErrorKind::PosOverflow));
}

#[test]
fn split_keeps_empty_parts() {
    let parts = split_chars(&str_chars("a,,b,"), ',');
    let strs: Vec<String> = parts.iter().map(|p| p.iter().collect()).collect();
    assert_eq!(strs, vec!["a", "", "b", ""]);
    assert_eq!(split_chars(&str_chars(""), ',').len(), 1);
}

#[test]
fn pool_config_scales_with_threads() {
    let cfg = mining_pool_config(32);
    assert_eq!(
        cfg,
        KernelPoolConfig {
            min_size: 16,
            max_size: 24,
            max_kernel_age: 600_000_000_000,
            max_kernel_usage: 50,
            checkout_timeout: 30_000_000_000,
        }
    );
    let small = mining_pool_config(2);
    assert_eq!(small.min_size, 4);
    assert_eq!(small.max_size, 8);
}

#[test]
fn tags_are_little_endian_cords() {
    assert_eq!(tag("mine"), d(1701734765));
    assert_eq!(tag("command"), d(28268862397837155));
}

#[test]
fn pokes_have_the_expected_shape() {
    assert_eq!(enable_mining_poke(true), c(tag("command"), c(tag("enable-mining"), d(0))));
    assert_eq!(enable_mining_poke(false), c(tag("command"), c(tag("enable-mining"), d(1))));
    assert_eq!(set_mining_key_poke("pk"), c(tag("command"), c(tag("set-mining-key"), tag("pk"))));
    let cfgs = vec![
        MiningKeyConfig { share: 1, m: 2, keys: vec!["a".to_string(), "b".to_string()] },
        MiningKeyConfig { share: 3, m: 4, keys: vec![] },
    ];
    let keys1 = c(tag("b"), c(tag("a"), d(0)));
    let t1 = c(d(1), c(d(2), keys1));
    let t2 = c(d(3), c(d(4), d(0)));
    assert_eq!(
        set_mining_key_advanced_poke(&cfgs),
        c(tag("command"), c(tag("set-mining-key-advanced"), c(t2, c(t1, d(0)))))
    );
}

#[test]
fn setup_pokes_for_each_configuration() {
    let none = mining_setup_pokes(&None, true);
    assert_eq!(none.len(), 1);
    assert_eq!(none[0].0, MiningWire::Enable);
    assert_eq!(none[0].1, enable_mining_poke(false));
    assert!(!starts_mining(&None, true));

    let simple = Some(vec![MiningKeyConfig { share: 1, m: 1, keys: vec!["k".to_string()] }]);
    let pokes = mining_setup_pokes(&simple, true);
    assert_eq!(pokes.len(), 2);
    assert_eq!(pokes[0].0, MiningWire::SetPubKey);
    assert_eq!(pokes[0].1, set_mining_key_poke("k"));
    assert_eq!(pokes[1].0, MiningWire::Enable);
    assert_eq!(pokes[1].1, enable_mining_poke(true));
    assert!(starts_mining(&simple, true));
    assert!(!starts_mining(&simple, false));

    let adv_cfgs = vec![MiningKeyConfig { share: 2, m: 1, keys: vec!["k".to_string()] }];
    let pokes = mining_setup_pokes(&Some(adv_cfgs.clone()), false);
    assert_eq!(pokes[0].1, set_mining_key_advanced_poke(&adv_cfgs));
    assert_eq!(pokes[1].1, enable_mining_poke(false));
}

#[test]
fn mine_effects_yield_candidates() {
    let e = c(tag("mine"), c(d(5), d(6)));
    assert_eq!(mining_candidate(&e), Some(c(d(5), d(6))));
    assert_eq!(mining_candidate(&c(tag("other"), d(1))), None);
    assert_eq!(mining_candidate(&d(3)), None);
}

#[test]
fn command_effects_are_solutions() {
    let effects = vec![
        c(tag("other"), d(1)),
        c(tag("command"), d(2)),
        d(7),
        c(tag("command"), d(3)),
    ];
    assert!(is_command_effect(&effects[1]));
    assert!(!is_command_effect(&effects[2]));
    assert!(has_solution(&effects));
    let cmds = command_effects(effects.iter().map(|e| e.copy()).collect());
    assert_eq!(cmds, vec![c(tag("command"), d(2)), c(tag("command"), d(3))]);
    assert!(attempt_outcome(effects).is_some());
    let none = vec![c(tag("other"), d(1))];
    assert!(!has_solution(&none));
    assert!(attempt_outcome(none).is_none());
}

#[test]
fn effect_lists_and_variations() {
    let list = c(d(1), c(d(2), c(d(3), d(0))));
    assert_eq!(effects_to_vec(&list), vec![d(1), d(2), d(3)]);
    assert!(effects_to_vec(&d(0)).is_empty());
    assert_eq!(create_candidate_variation(&d(9), 4), c(d(9), d(4)));
}

#[test]
fn work_is_numbered_from_mine_effects_only() {
    let mine = c(tag("mine"), d(5));
    let (n, w) = dispatch_step(0, &mine);
    assert_eq!(n, 1);
    assert_eq!(w, Some((1, d(5))));
    let (n2, w2) = dispatch_step(n, &c(tag("other"), d(5)));
    assert_eq!(n2, 1);
    assert_eq!(w2, None);
    let (n3, w3) = dispatch_step(n2, &mine);
    assert_eq!((n3, w3), (2, Some((2, d(5)))));
}

#[test]
fn formatted_configs_parse_back() {
    for (share, m, keys) in [
        (1u64, 1u64, vec!["k".to_string()]),
        (0, u64::MAX, vec!["a".to_string(), "bb".to_string(), "".to_string()]),
        (42, 7, vec!["x y".to_string(), "z".to_string()]),
    ] {
        let text = format!("{},{}:{}", share, m, keys.join(","));
        let cfg = MiningKeyConfig::from_str(&text).unwrap();
        assert_eq!(cfg, MiningKeyConfig { share, m, keys });
    }
}

#[test]
fn a_batch_is_numbered_without_gaps() {
    let batch = vec![
        c(tag("mine"), d(10)),
        c(tag("command"), d(1)),
        c(tag("mine"), d(11)),
        d(0),
        c(tag("mine"), d(12)),
    ];
    let (next, work) = dispatch_batch(4, &batch);
    assert_eq!(next, 7);
    assert_eq!(work, vec![(5, d(10)), (6, d(11)), (7, d(12))]);
    let (same, none) = dispatch_batch(7, &vec![d(3)]);
    assert_eq!(same, 7);
    assert!(none.is_empty());
}

#[test]
fn worker_count_is_three_quarters_with_a_floor() {
    assert_eq!(parallel_worker_count(4), 8);
    assert_eq!(parallel_worker_count(32), 24);
    assert_eq!(parallel_worker_count(13), 9);
}
