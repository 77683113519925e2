use secret_config::groups::classify;
use secret_config::kv::KvMap;
use secret_config::merge::merge;
use secret_config::resolve::{
    extract_json_value, param_request_names, plan_secret_fetches, resolve_remote,
    strip_quote_pair, ResolveError, SecretOutcome,
};

fn pairs(v: &[(&str, &str)]) -> Vec<(String, String)> {
    v.iter().map(|(a, b)| (a.to_string(), b.to_string())).collect()
}

fn get(m: &KvMap, k: &str) -> Option<String> {
    m.get(k).cloned()
}

#[test]
fn classify_groups_marked_entries() {
    let env = pairs(&[
        ("SSM_server.host", "/env/host"),
        ("SECRET_db.user", "dummy:username::"),
        ("port", "8080"),
    ]);
    let (params, secrets) = classify(&env);
    assert_eq!(params.entries.len(), 1);
    assert_eq!(params.entries[0].0, "/env/host".to_string());
    assert_eq!(params.entries[0].1, vec!["server.host".to_string()]);
    assert_eq!(secrets.entries.len(), 1);
    assert_eq!(secrets.entries[0].0, "dummy:username::".to_string());
    assert_eq!(secrets.entries[0].1, vec!["db.user".to_string()]);
}

#[test]
fn classify_is_idempotent() {
    let env = pairs(&[
        ("SSM_a", "id1"),
        ("SSM_b", "id1"),
        ("SECRET_c", "id2"),
        ("plain", "v"),
    ]);
    let (p1, s1) = classify(&env);
    let (p2, s2) = classify(&env);
    assert_eq!(p1.entries, p2.entries);
    assert_eq!(s1.entries, s2.entries);
}

#[test]
fn classify_without_markers_yields_no_groups() {
    let env = pairs(&[("port", "8080"), ("host", "foo.bar")]);
    let (params, secrets) = classify(&env);
    assert!(params.is_empty());
    assert!(secrets.is_empty());
    // No remote work at all follows: nothing to request, nothing to fetch.
    assert!(param_request_names(&params).is_empty());
    assert!(plan_secret_fetches(&secrets).unwrap().is_empty());
    let resolved = resolve_remote(&params, &secrets, &Vec::new(), &Vec::new()).unwrap();
    assert_eq!(resolved.len(), 0);
}

#[test]
fn parameter_fan_out_shares_one_value() {
    let env = pairs(&[("SSM_a.x", "/shared"), ("SSM_b.y", "/shared")]);
    let (params, secrets) = classify(&env);
    assert_eq!(param_request_names(&params), vec!["/shared".to_string()]);
    let response = pairs(&[("/shared", "value-1")]);
    let resolved = resolve_remote(&params, &secrets, &response, &Vec::new()).unwrap();
    assert_eq!(get(&resolved, "a.x"), Some("value-1".to_string()));
    assert_eq!(get(&resolved, "b.y"), Some("value-1".to_string()));
}

#[test]
fn secret_fan_out_shares_one_value() {
    let env = pairs(&[
        ("SECRET_db.user", "dummy:username::"),
        ("SECRET_audit.user", "dummy:username::"),
    ]);
    let (params, secrets) = classify(&env);
    let plan = plan_secret_fetches(&secrets).unwrap();
    assert_eq!(plan.len(), 1);
    assert_eq!(plan[0].name, "dummy".to_string());
    let outcomes = vec![SecretOutcome::Fetched(Some(
        "{\"username\": \"dummy\", \"password\": \"pw\"}".to_string(),
    ))];
    let resolved = resolve_remote(&params, &secrets, &Vec::new(), &outcomes).unwrap();
    assert_eq!(get(&resolved, "db.user"), Some("dummy".to_string()));
    assert_eq!(get(&resolved, "audit.user"), Some("dummy".to_string()));
}

#[test]
fn unrequested_parameter_in_response_is_ignored() {
    let env = pairs(&[("SSM_a", "/asked")]);
    let (params, secrets) = classify(&env);
    let response = pairs(&[("/unasked", "x"), ("/asked", "y")]);
    let resolved = resolve_remote(&params, &secrets, &response, &Vec::new()).unwrap();
    assert_eq!(resolved.len(), 1);
    assert_eq!(get(&resolved, "a"), Some("y".to_string()));
}

#[test]
fn missing_parameter_degrades_to_absent_key() {
    let env = pairs(&[("SSM_a", "/asked")]);
    let (params, secrets) = classify(&env);
    let resolved = resolve_remote(&params, &secrets, &Vec::new(), &Vec::new()).unwrap();
    assert_eq!(resolved.len(), 0);
    assert_eq!(get(&resolved, "a"), None);
}

#[test]
fn transport_failure_aborts_whole_resolution() {
    let env = pairs(&[
        ("SSM_a", "/p"),
        ("SECRET_ok.key", "good"),
        ("SECRET_bad.key", "broken"),
    ]);
    let (params, secrets) = classify(&env);
    let response = pairs(&[("/p", "pv")]);
    let outcomes: Vec<SecretOutcome> = secrets
        .entries
        .iter()
        .map(|(id, _)| {
            if id == "broken" {
                SecretOutcome::TransportFailed("connection refused".to_string())
            } else {
                SecretOutcome::Fetched(Some("payload".to_string()))
            }
        })
        .collect();
    let r = resolve_remote(&params, &secrets, &response, &outcomes);
    match r {
        Err(ResolveError::Transport(msg)) => assert_eq!(msg, "connection refused".to_string()),
        _ => panic!("expected a transport error"),
    }
}

#[test]
fn missing_secret_string_aborts_whole_resolution() {
    let env = pairs(&[("SECRET_db.user", "dummy")]);
    let (params, secrets) = classify(&env);
    let outcomes = vec![SecretOutcome::Fetched(None)];
    let r = resolve_remote(&params, &secrets, &Vec::new(), &outcomes);
    assert!(matches!(r, Err(ResolveError::MissingSecretString)));
}

#[test]
fn unparsable_payload_under_pointer_aborts() {
    let env = pairs(&[("SECRET_db.user", "dummy:username::")]);
    let (params, secrets) = classify(&env);
    let outcomes = vec![SecretOutcome::Fetched(Some("not json".to_string()))];
    let r = resolve_remote(&params, &secrets, &Vec::new(), &outcomes);
    assert!(matches!(r, Err(ResolveError::QueryFailed)));
}

#[test]
fn secret_without_pointer_passes_payload_through() {
    let env = pairs(&[("SECRET_db.user", "dummy")]);
    let (params, secrets) = classify(&env);
    let outcomes = vec![SecretOutcome::Fetched(Some("dummy-secret-value".to_string()))];
    let resolved = resolve_remote(&params, &secrets, &Vec::new(), &outcomes).unwrap();
    assert_eq!(get(&resolved, "db.user"), Some("dummy-secret-value".to_string()));
}

#[test]
fn json_pointer_extraction_unquotes() {
    assert_eq!(
        extract_json_value("username", "{\"username\": \"dummy\"}"),
        Some("dummy".to_string())
    );
    assert_eq!(extract_json_value("missing", "{\"username\": \"dummy\"}"),
        Some("null".to_string()));
    assert_eq!(extract_json_value("username", "not json"), None);
    assert_eq!(extract_json_value("bad[expr", "{}"), None);
}

#[test]
fn oversized_pointer_is_rejected_not_evaluated() {
    // At the bound the query runs; one character over, it is refused.
    let at_limit = "a".repeat(256);
    assert_eq!(
        extract_json_value(&at_limit, "{}"),
        Some("null".to_string())
    );
    let over_limit = "a".repeat(257);
    assert_eq!(extract_json_value(&over_limit, "{}"), None);
    let nested = "(".repeat(300);
    assert_eq!(extract_json_value(&nested, "{}"), None);
}

#[test]
fn oversized_pointer_aborts_resolution_as_query_failure() {
    let long_pointer = "x".repeat(400);
    let identifier = format!("dummy:{}::", long_pointer);
    let env = pairs(&[("SECRET_db.user", identifier.as_str())]);
    let (params, secrets) = classify(&env);
    let outcomes = vec![SecretOutcome::Fetched(Some("{}".to_string()))];
    let r = resolve_remote(&params, &secrets, &Vec::new(), &outcomes);
    assert!(matches!(r, Err(ResolveError::QueryFailed)));
}

#[test]
fn strip_quote_pair_removes_one_pair() {
    assert_eq!(strip_quote_pair("\"dummy\""), "dummy".to_string());
    assert_eq!(strip_quote_pair("dummy"), "dummy".to_string());
    assert_eq!(strip_quote_pair("\"\""), "".to_string());
    assert_eq!(strip_quote_pair("\""), "\"".to_string());
    assert_eq!(strip_quote_pair("\"\"a\"\""), "\"a\"".to_string());
}

#[test]
fn merged_environment_wins_over_file() {
    let env_layer = KvMap::from_pairs(&pairs(&[("port", "8080")]));
    let file_layer = KvMap::from_pairs(&pairs(&[("port", "9090"), ("host", "foo.bar")]));
    let remote_layer = KvMap::new();
    let merged = merge(&env_layer, &file_layer, &remote_layer);
    assert_eq!(get(&merged, "port"), Some("8080".to_string()));
    assert_eq!(get(&merged, "host"), Some("foo.bar".to_string()));
}

#[test]
fn merged_file_wins_over_remote() {
    let env_layer = KvMap::new();
    let file_layer = KvMap::from_pairs(&pairs(&[("db.user", "from-file")]));
    let remote_layer = KvMap::from_pairs(&pairs(&[("db.user", "from-remote"), ("db.pw", "pw")]));
    let merged = merge(&env_layer, &file_layer, &remote_layer);
    assert_eq!(get(&merged, "db.user"), Some("from-file".to_string()));
    assert_eq!(get(&merged, "db.pw"), Some("pw".to_string()));
    assert_eq!(get(&merged, "absent"), None);
}

#[test]
fn parameter_scenario_end_to_end() {
    let env = pairs(&[("SSM_server.host", "/env/host")]);
    let (params, secrets) = classify(&env);
    assert_eq!(param_request_names(&params), vec!["/env/host".to_string()]);
    let response = pairs(&[("/env/host", "aws.local")]);
    let remote_layer = resolve_remote(&params, &secrets, &response, &Vec::new()).unwrap();
    let merged = merge(&KvMap::new(), &KvMap::new(), &remote_layer);
    assert_eq!(get(&merged, "server.host"), Some("aws.local".to_string()));
}

#[test]
fn aws() {
    // The full flow over a simulated transport: one direct value, one
    // parameter indirection and two secret indirections through one secret.
    let env = pairs(&[
        ("server.port", "8080"),
        ("SSM_server.host", "/env/host"),
        ("SECRET_db.user", "dummy:username::"),
        ("SECRET_db.password", "dummy:password::"),
    ]);
    let (params, secrets) = classify(&env);
    assert_eq!(param_request_names(&params), vec!["/env/host".to_string()]);
    let plan = plan_secret_fetches(&secrets).unwrap();
    assert_eq!(plan.len(), 2);
    assert_eq!(plan[0].name, "dummy".to_string());
    assert_eq!(plan[1].name, "dummy".to_string());
    let response = pairs(&[("/env/host", "aws.local")]);
    let payload = "{\"username\": \"dummy\", \"password\": \"dummy-pw\"}";
    let outcomes = vec![
        SecretOutcome::Fetched(Some(payload.to_string())),
        SecretOutcome::Fetched(Some(payload.to_string())),
    ];
    let remote_layer = resolve_remote(&params, &secrets, &response, &outcomes).unwrap();
    let env_layer = KvMap::from_pairs(&pairs(&[("server.port", "8080")]));
    let merged = merge(&env_layer, &KvMap::new(), &remote_layer);
    assert_eq!(get(&merged, "server.port"), Some("8080".to_string()));
    assert_eq!(get(&merged, "server.host"), Some("aws.local".to_string()));
    assert_eq!(get(&merged, "db.user"), Some("dummy".to_string()));
    assert_eq!(get(&merged, "db.password"), Some("dummy-pw".to_string()));
}
