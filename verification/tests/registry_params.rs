use lunatic::environment::{
    lookup_name, lookup_type, namespace_allowed, EnvConfig, Environment, Process,
};
use lunatic::node::{Node, RegistryError, SpawnError};
use lunatic::params::{params_match, params_to_vec, Param, ParamKind};
use lunatic::semver::{parse_query, parse_version, query_matches_exec, Version};

#[test]
fn params_encode_one_tag_byte_and_sixteen_payload_bytes() {
    let bytes = params_to_vec(&[Param::I32(1)]);
    let mut expected = vec![0x7f, 1];
    expected.extend(std::iter::repeat(0).take(15));
    assert_eq!(bytes, expected);
    assert_eq!(bytes.len(), 17);
}

#[test]
fn params_encode_sign_extends_negative_integers() {
    let bytes = params_to_vec(&[Param::I32(-1)]);
    let mut expected = vec![0x7f];
    expected.extend(std::iter::repeat(0xff).take(16));
    assert_eq!(bytes, expected);
    let bytes64 = params_to_vec(&[Param::I64(-2)]);
    let mut expected64 = vec![0x7e, 0xfe];
    expected64.extend(std::iter::repeat(0xff).take(15));
    assert_eq!(bytes64, expected64);
}

#[test]
fn params_encode_in_call_order_little_endian() {
    let bytes = params_to_vec(&[Param::I64(0x0102), Param::V128(3)]);
    let mut expected = vec![0x7e, 0x02, 0x01];
    expected.extend(std::iter::repeat(0).take(14));
    expected.push(0x7b);
    expected.push(3);
    expected.extend(std::iter::repeat(0).take(15));
    assert_eq!(bytes, expected);
}

#[test]
fn params_match_requires_exact_kinds() {
    assert!(params_match(&[Param::I32(5)], &[ParamKind::I32]));
    assert!(!params_match(&[Param::I32(5)], &[ParamKind::V128]));
    assert!(!params_match(&[Param::I32(5)], &[ParamKind::I32, ParamKind::I64]));
    assert!(params_match(&[], &[]));
}

#[test]
fn exact_versions_parse_and_malformed_ones_do_not() {
    assert_eq!(
        parse_version("1.2.3"),
        Some(Version { major: 1, minor: 2, patch: 3 })
    );
    assert_eq!(
        parse_version("0.0.0"),
        Some(Version { major: 0, minor: 0, patch: 0 })
    );
    assert_eq!(parse_version("1.2"), None);
    assert_eq!(parse_version("1.2.3.4"), None);
    assert_eq!(parse_version("01.2.3"), None);
    assert_eq!(parse_version("1.2.x"), None);
    assert_eq!(parse_version(""), None);
    assert_eq!(parse_version("99999999999999999999.0.0"), None);
}

#[test]
fn caret_queries_follow_the_compatibility_rule() {
    let q1 = parse_query("^1").unwrap();
    assert!(query_matches_exec(&q1, &Version { major: 1, minor: 0, patch: 0 }));
    assert!(query_matches_exec(&q1, &Version { major: 1, minor: 9, patch: 2 }));
    assert!(!query_matches_exec(&q1, &Version { major: 2, minor: 0, patch: 0 }));
    let q11 = parse_query("^1.1").unwrap();
    assert!(!query_matches_exec(&q11, &Version { major: 1, minor: 0, patch: 9 }));
    assert!(query_matches_exec(&q11, &Version { major: 1, minor: 1, patch: 0 }));
    assert!(query_matches_exec(&q11, &Version { major: 1, minor: 2, patch: 0 }));
    let q02 = parse_query("^0.2").unwrap();
    assert!(query_matches_exec(&q02, &Version { major: 0, minor: 2, patch: 5 }));
    assert!(!query_matches_exec(&q02, &Version { major: 0, minor: 3, patch: 0 }));
    let q003 = parse_query("^0.0.3").unwrap();
    assert!(query_matches_exec(&q003, &Version { major: 0, minor: 0, patch: 3 }));
    assert!(!query_matches_exec(&q003, &Version { major: 0, minor: 0, patch: 4 }));
    let exact = parse_query("=1.1.0").unwrap();
    assert!(query_matches_exec(&exact, &Version { major: 1, minor: 1, patch: 0 }));
    assert!(!query_matches_exec(&exact, &Version { major: 1, minor: 1, patch: 1 }));
    assert!(parse_query("^1.x").is_none());
    assert!(parse_query("").is_none());
}

#[test]
fn registry_resolves_the_highest_version_satisfying_a_caret_range() {
    let mut node = Node::new(Vec::new());
    let env = Environment::new(&mut node, EnvConfig::default());
    env.register_name(&mut node, "svc", "1.0.0", Process::from_id(10)).unwrap();
    env.register_name(&mut node, "svc", "1.1.0", Process::from_id(11)).unwrap();
    env.register_name(&mut node, "svc", "2.0.0", Process::from_id(20)).unwrap();
    let found = lookup_name(&node, &env, "svc", "^1").unwrap();
    assert_eq!(found.unwrap().id(), 11);
    let found2 = lookup_name(&node, &env, "svc", "^2").unwrap();
    assert_eq!(found2.unwrap().id(), 20);
    assert!(lookup_name(&node, &env, "svc", "^3").unwrap().is_none());
    assert!(lookup_name(&node, &env, "other", "^1").unwrap().is_none());
}

#[test]
fn registering_same_key_overwrites_last_writer_wins() {
    let mut node = Node::new(Vec::new());
    let env = Environment::new(&mut node, EnvConfig::default());
    env.register_name(&mut node, "svc", "1.0.0", Process::from_id(1)).unwrap();
    env.register_name(&mut node, "svc", "1.0.0", Process::from_id(2)).unwrap();
    let found = lookup_name(&node, &env, "svc", "=1.0.0").unwrap();
    assert_eq!(found.unwrap().id(), 2);
}

#[test]
fn registration_rejects_inexact_versions() {
    let mut node = Node::new(Vec::new());
    let env = Environment::new(&mut node, EnvConfig::default());
    assert_eq!(
        env.register_name(&mut node, "svc", "^1.0.0", Process::from_id(1)),
        Err(RegistryError::IncorrectSemver)
    );
    assert_eq!(
        env.register_name(&mut node, "svc", "1.0", Process::from_id(1)),
        Err(RegistryError::IncorrectSemver)
    );
}

#[test]
fn unregister_removes_exactly_the_named_version() {
    let mut node = Node::new(Vec::new());
    let env = Environment::new(&mut node, EnvConfig::default());
    env.register_name(&mut node, "svc", "1.0.0", Process::from_id(1)).unwrap();
    env.register_name(&mut node, "svc", "1.1.0", Process::from_id(2)).unwrap();
    env.unregister_name(&mut node, "svc", "1.1.0").unwrap();
    let found = lookup_name(&node, &env, "svc", "^1").unwrap();
    assert_eq!(found.unwrap().id(), 1);
    assert_eq!(
        env.unregister_name(&mut node, "svc", "1.1.0"),
        Err(RegistryError::NotFound)
    );
    assert_eq!(
        env.unregister_name(&mut node, "svc", "nonsense"),
        Err(RegistryError::IncorrectSemver)
    );
}

#[test]
fn bad_lookup_query_is_rejected() {
    let mut node = Node::new(Vec::new());
    let env = Environment::new(&mut node, EnvConfig::default());
    env.register_name(&mut node, "svc", "1.0.0", Process::from_id(1)).unwrap();
    assert_eq!(
        lookup_name(&node, &env, "svc", "not a query"),
        Err(RegistryError::IncorrectSemver)
    );
}

#[test]
fn type_qualified_names_are_invisible_to_plain_lookup() {
    let mut node = Node::new(Vec::new());
    let env = Environment::new(&mut node, EnvConfig::default());
    env.register_type::<Process>(&mut node, "svc", "1.0.0", Process::from_id(7)).unwrap();
    // the plain name was never registered
    assert!(lookup_name(&node, &env, "svc", "^1").unwrap().is_none());
    let found = lookup_type::<Process>(&node, &env, "svc", "^1").unwrap();
    assert_eq!(found.unwrap().id(), 7);
}

#[test]
fn registries_are_scoped_per_environment() {
    let mut node = Node::new(Vec::new());
    let env1 = Environment::new(&mut node, EnvConfig::default());
    let env2 = Environment::new(&mut node, EnvConfig::default());
    env1.register_name(&mut node, "svc", "1.0.0", Process::from_id(1)).unwrap();
    assert!(lookup_name(&node, &env2, "svc", "^1").unwrap().is_none());
    assert!(lookup_name(&node, &env1, "svc", "^1").unwrap().is_some());
}

#[test]
fn namespace_tokens_match_by_prefix_and_empty_matches_all() {
    let all: Vec<String> = vec![String::new()];
    assert!(namespace_allowed(&all, "lunatic::networking::connect"));
    let msg: Vec<String> = vec!["lunatic::message::".to_owned()];
    assert!(namespace_allowed(&msg, "lunatic::message::send"));
    assert!(!namespace_allowed(&msg, "lunatic::networking::connect"));
    let exact: Vec<String> = vec!["lunatic::error::string_size".to_owned()];
    assert!(namespace_allowed(&exact, "lunatic::error::string_size"));
    assert!(!namespace_allowed(&exact, "lunatic::error::drop"));
    let none: Vec<String> = Vec::new();
    assert!(!namespace_allowed(&none, "lunatic::message::send"));
}

#[test]
fn env_config_collects_grants_and_quotas() {
    let mut cfg = EnvConfig::new(1_200_000, Some(1));
    assert_eq!(cfg.memory_limit, 1_200_000);
    assert_eq!(cfg.compute_budget, 1);
    cfg.allow_wasi();
    cfg.allow_networking();
    cfg.allow_processes();
    cfg.allow_messaging();
    cfg.allow_namespace("lunatic::error::");
    assert_eq!(cfg.namespaces.len(), 5);
    assert!(cfg.preopen_dir("/tmp").is_ok());
    assert_eq!(cfg.preopened_dirs.len(), 1);
    assert!(cfg.add_plugin(&[0, 1, 2]).is_ok());
    assert_eq!(cfg.plugins.len(), 1);
    let default_cfg = EnvConfig::default();
    assert_eq!(default_cfg.memory_limit, 0x1_0000_0000);
    assert_eq!(default_cfg.compute_budget, 0);
    assert_eq!(default_cfg.namespaces.len(), 1);
    assert_eq!(default_cfg.namespaces[0], "");
}

#[test]
fn spawn_with_mismatched_parameter_kind_fails_before_any_process_exists() {
    let mut node = Node::new(Vec::new());
    let mut env = Environment::new(&mut node, EnvConfig::default());
    let module = env.add_module(
        &mut node,
        vec![lunatic::node::Export {
            name: "entry".to_owned(),
            param_kinds: vec![ParamKind::V128],
        }],
    );
    let before = node.processes.len();
    let r = module.spawn(&mut node, "entry", &[Param::I32(5)]);
    assert!(matches!(r, Err(SpawnError::ParamMismatch)));
    assert_eq!(node.processes.len(), before);
    // with the matching kind the spawn goes through
    let ok = module.spawn(&mut node, "entry", &[Param::V128(5)]);
    assert!(ok.is_ok());
    assert_eq!(node.processes.len(), before + 1);
}
