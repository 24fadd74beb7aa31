//! What the administrator sees and changes.

use kiro_rs::admin::app_config::{get_app_config, normalized_aliases, update_app_config};
use kiro_rs::admin::model_table::{build_model_stats, can_build_model_stats};
use kiro_rs::admin::service::{
    add_credential, classify_add_error, classify_balance_error, classify_delete_error,
    classify_error, credential_added, get_all_credentials, get_metrics, is_admin,
    query_timeseries, set_disabled, set_load_balancing_mode, AdminServiceError,
    AfterAdd, BalanceCache, Bucket, CredentialEntry,
};
use kiro_rs::admin::types::{
    default_auth_method, AddCredentialRequest, AdminErrorResponse, SetLoadBalancingModeRequest,
    SuccessResponse, TimeseriesQuery, UpdateAppConfigRequest,
};
use kiro_rs::metrics::Metrics;
use kiro_rs::model::config::{default_models, ChunkedWritePolicy, Config, ModelLine};
use kiro_rs::model_stats::ModelStatSnapshot;

fn line() -> ModelLine {
    ModelLine {
        id: "acme".to_string(),
        title: "Acme".to_string(),
    }
}

fn update() -> UpdateAppConfigRequest {
    UpdateAppConfigRequest {
        api_key: " key ".to_string(),
        admin_api_key: None,
        credential_rpm: 8,
        credential_rpm_opus: Some(2),
        credential_rpm_sonnet: None,
        credential_rpm_haiku: None,
        credential_rpm_max_wait_ms: None,
        kiro_version: " 1.0 ".to_string(),
        machine_id: None,
        system_version: "s".to_string(),
        node_version: "n".to_string(),
        streaming_sdk_version: "x".to_string(),
        models: default_models(&line()),
        default_model: Some(" opus ".to_string()),
        model_aliases: vec![(" GPT ".to_string(), " a ".to_string())],
        chunked_write_policy: None,
        codex_truncation_correction: None,
        proxy_url: Some(" http://p ".to_string()),
        proxy_username: Some("  ".to_string()),
        proxy_password: Some(String::new()),
    }
}

fn base() -> Config {
    let mut c = Config::default();
    c.host = "0.0.0.0".to_string();
    c.admin_api_key = Some("admin".to_string());
    c.machine_id = Some("id".to_string());
    c.credential_rpm_max_wait_ms = 7;
    c.proxy_username = Some("u".to_string());
    c.proxy_password = Some("p".to_string());
    c
}

fn fault(req: UpdateAppConfigRequest) -> String {
    match update_app_config(req, Ok(base()), None) {
        Err(AdminServiceError::InvalidCredential(s)) => s,
        other => panic!("{other:?}"),
    }
}

#[test]
fn an_edit() {
    let c = update_app_config(update(), Ok(base()), None).unwrap();
    assert_eq!(c.host, "0.0.0.0");
    assert_eq!(c.api_key.as_deref(), Some("key"));
    assert_eq!(c.admin_api_key.as_deref(), Some("admin"));
    assert_eq!(c.machine_id.as_deref(), Some("id"));
    assert_eq!(c.kiro_version, "1.0");
    assert_eq!(c.credential_rpm, 8);
    assert_eq!(c.credential_rpm_opus, Some(2));
    assert_eq!(c.credential_rpm_max_wait_ms, 7);
    assert_eq!(c.default_model.as_deref(), Some("opus"));
    assert_eq!(
        c.model_aliases,
        vec![("gpt".to_string(), "a".to_string())]
    );
    assert_eq!(c.proxy_url.as_deref(), Some("http://p"));
    assert_eq!(c.proxy_username, None);
    assert_eq!(c.proxy_password, None);
    assert_eq!(c.models.as_ref().unwrap().len(), 9);
    let shown = get_app_config(&c, "key", "admin", &line());
    assert_eq!(shown.kiro_version, "1.0");
    assert_eq!(shown.models.len(), 9);
    assert!(!shown.proxy_password_set);
}

#[test]
fn the_id_of_the_machine() {
    let mut req = update();
    req.machine_id = Some(" abc ".to_string());
    let c = update_app_config(req, Ok(base()), Some("abcabc".to_string())).unwrap();
    assert_eq!(c.machine_id.as_deref(), Some("abcabc"));

    let mut req = update();
    req.machine_id = Some("abc".to_string());
    assert_eq!(fault(req), "machineId 格式无效（需 64 位十六进制或 UUID）");

    let mut req = update();
    req.machine_id = Some(" ".to_string());
    let c = update_app_config(req, Ok(base()), None).unwrap();
    assert_eq!(c.machine_id, None);
}

#[test]
fn edits_that_are_refused() {
    let mut r = update();
    r.api_key = " ".to_string();
    assert_eq!(fault(r), "apiKey 不能为空");
    let mut r = update();
    r.admin_api_key = Some("\t".to_string());
    assert_eq!(fault(r), "adminApiKey 不能为空");
    let mut r = update();
    r.node_version = String::new();
    assert_eq!(
        fault(r),
        "kiroVersion / systemVersion / nodeVersion / streamingSdkVersion 均不能为空"
    );
    let mut r = update();
    r.models.clear();
    assert_eq!(fault(r), "models 至少需要一个模型定义");
    let mut r = update();
    r.models[1].family = " ".to_string();
    assert_eq!(
        fault(r),
        "第 2 个模型的 family / kiroId / displayId / displayName 均不能为空"
    );
    let mut r = update();
    r.models[2].max_tokens = 0;
    assert_eq!(
        fault(r),
        "第 3 个模型的 maxTokens / contextWindow 必须为正数"
    );
    let mut r = update();
    r.model_aliases.push(("a".to_string(), " ".to_string()));
    assert_eq!(fault(r), "modelAliases 的键和值均不能为空");
    let mut r = update();
    r.default_model = Some(" ".to_string());
    assert_eq!(fault(r), "defaultModel 不能为空字符串");
    let mut r = update();
    r.chunked_write_policy = Some(ChunkedWritePolicy {
        enabled: true,
        trigger_lines: 5,
        chunk_lines: 0,
    });
    assert_eq!(fault(r), "chunkedWritePolicy 的 chunkLines 必须为正数");
    let mut r = update();
    r.chunked_write_policy = Some(ChunkedWritePolicy {
        enabled: true,
        trigger_lines: 5,
        chunk_lines: 6,
    });
    assert_eq!(
        fault(r),
        "chunkedWritePolicy 的 triggerLines 不能小于 chunkLines"
    );
    let mut r = update();
    r.chunked_write_policy = Some(ChunkedWritePolicy {
        enabled: false,
        trigger_lines: 5,
        chunk_lines: 0,
    });
    assert!(update_app_config(r, Ok(base()), None).is_ok());
    match update_app_config(update(), Err("io".to_string()), None) {
        Err(AdminServiceError::InternalError(s)) => assert_eq!(s, "重新加载配置失败: io"),
        other => panic!("{other:?}"),
    }
}

#[test]
fn aliases_that_become_the_same() {
    let aliases = vec![
        (" A ".to_string(), "1".to_string()),
        ("a".to_string(), " 2 ".to_string()),
    ];
    assert_eq!(
        normalized_aliases(&aliases),
        vec![("a".to_string(), "2".to_string())]
    );
}

fn entry(id: u64, priority: u32, endpoint: Option<&str>) -> CredentialEntry<(u32, u32)> {
    CredentialEntry {
        id,
        priority,
        disabled: false,
        failure_count: 0,
        expires_at: None,
        auth_method: None,
        has_profile_arn: false,
        refresh_token_hash: None,
        api_key_hash: None,
        masked_api_key: None,
        email: None,
        success_count: 0,
        last_used_at: None,
        has_proxy: false,
        proxy_url: None,
        refresh_failure_count: 0,
        disabled_reason: None,
        endpoint: endpoint.map(|s| s.to_string()),
        rpm: (id as u32 * 10, 60),
        kind: None,
        base_url: None,
    }
}

#[test]
fn credentials_in_the_order_of_their_priorities() {
    let entries = vec![
        entry(1, 5, None),
        entry(2, 0, Some("cli")),
        entry(3, 5, None),
        entry(4, 0, None),
    ];
    let r = get_all_credentials(entries, 4, 3, 3, "ide");
    assert_eq!((r.total, r.available, r.current_id), (4, 3, 3));
    let ids: Vec<u64> = r.credentials.iter().map(|c| c.id).collect();
    assert_eq!(ids, [2, 4, 1, 3]);
    let rpms: Vec<(u32, u32)> = r.credentials.iter().map(|c| c.rpm).collect();
    assert_eq!(rpms, [(20, 60), (40, 60), (10, 60), (30, 60)]);
    assert_eq!(r.credentials[0].endpoint, "cli");
    assert_eq!(r.credentials[1].endpoint, "ide");
    assert!(r.credentials[3].is_current);
    assert!(!r.credentials[2].is_current);
}

#[test]
fn a_time_that_is_asked_for() {
    let q = TimeseriesQuery {
        from: None,
        to: None,
        bucket: None,
    };
    let r = query_timeseries(&q, 100_000);
    assert_eq!((r.from, r.to, r.bucket), (13_600, 100_000, Bucket::Hour));
    assert_eq!(r.bucket.name(), "hour");
    let q = TimeseriesQuery {
        from: Some(1),
        to: Some(2),
        bucket: Some("day".to_string()),
    };
    let r = query_timeseries(&q, 100_000);
    assert_eq!((r.from, r.to, r.bucket), (1, 2, Bucket::Day));
}

#[test]
fn failures_are_told_apart() {
    let s = |s: &str| s.to_string();
    assert!(matches!(
        classify_error(s("凭据不存在: 5"), 5),
        AdminServiceError::NotFound { id: 5 }
    ));
    assert!(matches!(
        classify_error(s("other"), 5),
        AdminServiceError::InternalError(_)
    ));
    assert!(matches!(
        classify_balance_error(s("API Key 凭据不支持刷新"), 5),
        AdminServiceError::InvalidCredential(_)
    ));
    assert!(matches!(
        classify_balance_error(s("request timed out"), 5),
        AdminServiceError::UpstreamError(_)
    ));
    assert!(matches!(
        classify_balance_error(s("缺少 refreshToken"), 5),
        AdminServiceError::InternalError(_)
    ));
    assert!(matches!(
        classify_balance_error(s("凭据不存在"), 6),
        AdminServiceError::NotFound { id: 6 }
    ));
    assert!(matches!(
        classify_add_error(s("缺少 refreshToken")),
        AdminServiceError::InvalidCredential(_)
    ));
    assert!(matches!(
        classify_add_error(s("connection refused")),
        AdminServiceError::UpstreamError(_)
    ));
    assert!(matches!(
        classify_add_error(s("disk")),
        AdminServiceError::InternalError(_)
    ));
    assert!(matches!(
        classify_delete_error(s("请先禁用凭据"), 5),
        AdminServiceError::InvalidCredential(_)
    ));
    assert!(matches!(
        classify_delete_error(s("不存在"), 5),
        AdminServiceError::NotFound { id: 5 }
    ));
    assert!(matches!(
        classify_delete_error(s("disk"), 5),
        AdminServiceError::InternalError(_)
    ));
}

fn addition() -> AddCredentialRequest {
    AddCredentialRequest {
        refresh_token: Some("t".to_string()),
        auth_method: default_auth_method(),
        client_id: None,
        client_secret: None,
        priority: 3,
        region: None,
        auth_region: None,
        api_region: None,
        machine_id: None,
        email: Some("e".to_string()),
        proxy_url: None,
        proxy_username: None,
        proxy_password: None,
        kiro_api_key: None,
        endpoint: None,
        kind: None,
        base_url: None,
        upstream_api_key: None,
    }
}

#[test]
fn a_credential_is_added() {
    let known = vec!["ide".to_string(), "cli".to_string()];
    let c = add_credential(addition(), &known).unwrap();
    assert_eq!(c.auth_method.as_deref(), Some("social"));
    assert_eq!(c.priority, 3);
    assert!(!c.disabled);
    assert_eq!(c.after_add(), AfterAdd::UsageLimits);

    let mut r = addition();
    r.auth_method = "builder-id".to_string();
    let c = add_credential(r, &known).unwrap();
    assert_eq!(c.auth_method.as_deref(), Some("idc"));
    assert_eq!(c.after_add(), AfterAdd::ProfileArn);

    let mut r = addition();
    r.kind = Some("openai".to_string());
    r.base_url = Some("u".to_string());
    match add_credential(r, &known) {
        Err(AdminServiceError::InvalidCredential(s)) => assert_eq!(
            s,
            "透传凭据（kind=anthropic/openai）必须提供 baseUrl 和 upstreamApiKey"
        ),
        other => panic!("{other:?}"),
    }

    let mut r = addition();
    r.kind = Some("anthropic".to_string());
    r.base_url = Some("u".to_string());
    r.upstream_api_key = Some("k".to_string());
    let c = add_credential(r, &known).unwrap();
    assert_eq!(c.auth_method, None);
    assert_eq!(c.after_add(), AfterAdd::Nothing);

    let added = credential_added(17, Some("e".to_string()));
    assert_eq!(added.message, "凭据添加成功，ID: 17");
}

#[test]
fn an_endpoint_that_is_not_known() {
    let known = vec!["ide".to_string(), "c\"li".to_string(), "ide".to_string()];
    let mut r = addition();
    r.endpoint = Some("web".to_string());
    match add_credential(r, &known) {
        Err(AdminServiceError::InvalidCredential(s)) => assert_eq!(
            s,
            "未知端点 \"web\"，已注册端点: [\"c\\\"li\", \"ide\"]"
        ),
        other => panic!("{other:?}"),
    }
}

#[test]
fn how_credentials_are_picked() {
    let req = |m: &str| SetLoadBalancingModeRequest {
        mode: m.to_string(),
    };
    assert_eq!(
        set_load_balancing_mode(req("round-robin")).unwrap().mode,
        "round-robin"
    );
    match set_load_balancing_mode(req("random")) {
        Err(AdminServiceError::InvalidCredential(s)) => {
            assert_eq!(s, "mode 必须是 'priority'、'balanced' 或 'round-robin'")
        }
        other => panic!("{other:?}"),
    }
    assert!(set_disabled(3, true, 3));
    assert!(!set_disabled(3, false, 3));
    assert!(!set_disabled(2, true, 3));
}

#[test]
fn balances_are_kept_for_a_while() {
    let mut cache = BalanceCache::new();
    assert!(!cache.has_fresh(1, 1000));
    cache.insert(1, 1000);
    assert!(cache.has_fresh(1, 1299));
    assert!(!cache.has_fresh(1, 1300));
    cache.remove(1);
    assert!(!cache.has_fresh(1, 1000));

    let saved = vec![
        ("1".to_string(), 1000),
        ("x".to_string(), 1000),
        ("2".to_string(), 10),
    ];
    let cache = BalanceCache::restore(&saved, 1100);
    assert!(cache.has_fresh(1, 1100));
    assert!(!cache.has_fresh(2, 1100));
    assert!(BalanceCache::restore(&vec![("1".to_string(), i64::MIN)], i64::MAX)
        .times
        .is_empty());
}

fn counts(requests: u64, input: u64, output: u64) -> ModelStatSnapshot {
    ModelStatSnapshot {
        model: "raw".to_string(),
        requests,
        input_tokens: input,
        output_tokens: output,
        total_tokens: input + output,
        today_requests: requests,
        today_input_tokens: input,
        today_output_tokens: output,
        today_total_tokens: input + output,
    }
}

#[test]
fn the_table_of_models() {
    let rows = vec![
        ("b".to_string(), counts(1, 10, 1)),
        ("a".to_string(), counts(2, 20, 2)),
        ("b".to_string(), counts(1, 30, 3)),
    ];
    let rpms = vec![
        ("b".to_string(), 4),
        ("c".to_string(), 1),
        ("b".to_string(), 1),
    ];
    assert!(can_build_model_stats(&rows, &rpms));
    let table = build_model_stats(&rows, &rpms);
    assert_eq!(table.len(), 3);
    assert_eq!((table[0].model.as_str(), table[0].rpm), ("b", 5));
    assert_eq!(table[0].requests, 2);
    assert_eq!(table[0].input_tokens, 40);
    assert_eq!(table[0].total_tokens, 44);
    assert_eq!(table[1].model, "a");
    assert_eq!((table[2].model.as_str(), table[2].requests), ("c", 0));

    let rows = vec![
        ("a".to_string(), counts(u64::MAX, 0, 0)),
        ("a".to_string(), counts(1, 0, 0)),
    ];
    assert!(!can_build_model_stats(&rows, &Vec::new()));
}

#[test]
fn answers_to_the_administrator() {
    assert!(SuccessResponse::new("done".to_string()).success);
    assert_eq!(
        AdminErrorResponse::authentication_error().error.message,
        "Invalid or missing admin API key"
    );
    assert_eq!(
        AdminErrorResponse::invalid_request("m").error.error_type,
        "invalid_request"
    );
    assert_eq!(
        AdminErrorResponse::not_found("m").error.error_type,
        "not_found"
    );
    assert_eq!(
        AdminErrorResponse::api_error("m").error.error_type,
        "api_error"
    );
    assert_eq!(
        AdminErrorResponse::internal_error("m").error.error_type,
        "internal_error"
    );
    assert!(is_admin(Some("k"), "k"));
    assert!(!is_admin(Some("x"), "k"));
    assert!(!is_admin(None, "k"));
    let m = get_metrics(&Metrics::new().snapshot(9), 1, 2, 3);
    assert_eq!(
        (m.uptime_seconds, m.credentials_total, m.current_id),
        (9, 2, 3)
    );
}
