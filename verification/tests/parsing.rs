use secret_config::ident::parse_secret_identifier;

fn s(x: &str) -> String {
    x.to_string()
}

#[test]
fn short_form_full() {
    let id = parse_secret_identifier("dummy:username::").unwrap();
    assert_eq!(id.name, s("dummy"));
    assert_eq!(id.json_pointer, Some(s("username")));
    assert_eq!(id.version_stage, Some(s("")));
    assert_eq!(id.version_id, Some(s("")));
}

#[test]
fn short_form_name_only() {
    let id = parse_secret_identifier("dummy").unwrap();
    assert_eq!(id.name, s("dummy"));
    assert_eq!(id.json_pointer, None);
    assert_eq!(id.version_stage, None);
    assert_eq!(id.version_id, None);
}

#[test]
fn short_form_all_fields() {
    let id = parse_secret_identifier("name:jp:stage:ver").unwrap();
    assert_eq!(id.name, s("name"));
    assert_eq!(id.json_pointer, Some(s("jp")));
    assert_eq!(id.version_stage, Some(s("stage")));
    assert_eq!(id.version_id, Some(s("ver")));
}

#[test]
fn short_form_empty_name() {
    let id = parse_secret_identifier(":jp").unwrap();
    assert_eq!(id.name, s(""));
    assert_eq!(id.json_pointer, Some(s("jp")));
    assert_eq!(id.version_stage, None);
    assert_eq!(id.version_id, None);
}

#[test]
fn arn_form_seven_components() {
    let id = parse_secret_identifier("arn:aws:secretsmanager:us-east-1:123456789012:secret:mykey")
        .unwrap();
    assert_eq!(id.name, s("arn:aws:secretsmanager:us-east-1:123456789012:secret:mykey"));
    assert_eq!(id.json_pointer, None);
    assert_eq!(id.version_stage, None);
    assert_eq!(id.version_id, None);
}

#[test]
fn arn_form_with_pointer() {
    let id = parse_secret_identifier(
        "arn:aws:secretsmanager:us-east-1:123456789012:secret:mykey:username",
    )
    .unwrap();
    assert_eq!(id.name, s("arn:aws:secretsmanager:us-east-1:123456789012:secret:mykey"));
    assert_eq!(id.json_pointer, Some(s("username")));
    assert_eq!(id.version_stage, None);
    assert_eq!(id.version_id, None);
}

#[test]
fn arn_form_nine_components() {
    let id = parse_secret_identifier(
        "arn:aws:secretsmanager:us-east-1:123456789012:secret:mykey:username:AWSCURRENT",
    )
    .unwrap();
    assert_eq!(id.name, s("arn:aws:secretsmanager:us-east-1:123456789012:secret:mykey"));
    assert_eq!(id.json_pointer, Some(s("username")));
    assert_eq!(id.version_stage, Some(s("AWSCURRENT")));
    assert_eq!(id.version_id, None);
}

#[test]
fn arn_form_ten_components() {
    let id = parse_secret_identifier(
        "arn:aws:secretsmanager:us-east-1:123456789012:secret:mykey:username:AWSCURRENT:v1",
    )
    .unwrap();
    assert_eq!(id.name, s("arn:aws:secretsmanager:us-east-1:123456789012:secret:mykey"));
    assert_eq!(id.json_pointer, Some(s("username")));
    assert_eq!(id.version_stage, Some(s("AWSCURRENT")));
    assert_eq!(id.version_id, Some(s("v1")));
}

#[test]
fn colons_without_arn_prefix_stay_short_form() {
    // Seven or more colons, but not the ARN prefix: short form applies.
    let id = parse_secret_identifier("a:b:c:d:e:f:g:h").unwrap();
    assert_eq!(id.name, s("a"));
    assert_eq!(id.json_pointer, Some(s("b")));
    assert_eq!(id.version_stage, Some(s("c")));
    assert_eq!(id.version_id, Some(s("d")));
}
