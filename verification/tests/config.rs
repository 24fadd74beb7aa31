//! The configuration and the models in it.

use kiro_rs::kiro::request::{ConversationState, KiroRequest};
use kiro_rs::model::config::{
    default_models, ChunkedWriteFields, ChunkedWritePolicy, Config, ModelDef, ModelLine,
    TlsBackend,
};

fn lines(value: &serde_json::Value, name: &str) -> Option<u32> {
    value.get(name).and_then(|v| v.as_u64()).map(|n| n as u32)
}

fn line() -> ModelLine {
    ModelLine {
        id: "acme".to_string(),
        title: "Acme".to_string(),
    }
}

/// A policy from its JSON: a switch, or an object.
fn policy(json: &str) -> ChunkedWritePolicy {
    let value: serde_json::Value = serde_json::from_str(json).unwrap();
    if let Some(enabled) = value.as_bool() {
        return ChunkedWritePolicy::from_switch(enabled);
    }
    ChunkedWritePolicy::from_fields(&ChunkedWriteFields {
        enabled: value["enabled"].as_bool().unwrap_or(false),
        trigger_lines: lines(&value, "triggerLines"),
        chunk_lines: lines(&value, "chunkLines"),
        write_limit_lines: lines(&value, "writeLimitLines"),
        trigger_bytes: lines(&value, "triggerBytes"),
        chunk_bytes: lines(&value, "chunkBytes"),
    })
}

fn model(value: &serde_json::Value) -> ModelDef {
    let text = |name: &str| value[name].as_str().unwrap().to_string();
    ModelDef {
        family: text("family"),
        version: value["version"].as_str().map(|s| s.to_string()),
        kiro_id: text("kiroId"),
        display_id: text("displayId"),
        display_name: text("displayName"),
        created: value["created"].as_i64().unwrap(),
        max_tokens: value["maxTokens"].as_i64().unwrap() as i32,
        context_window: value["contextWindow"].as_i64().unwrap() as i32,
    }
}

/// chunkedWritePolicy 缺省时关闭，默认 150 触发 / 50 每块
#[test]
fn test_chunked_write_policy_default_disabled() {
    let cfg = Config::default();
    assert!(!cfg.chunked_write_policy.enabled);
    assert_eq!(cfg.chunked_write_policy.trigger_lines, 150);
    assert_eq!(cfg.chunked_write_policy.chunk_lines, 50);
}

/// 推荐写法应逐字段生效
#[test]
fn test_chunked_write_policy_object_form() {
    let p = policy(r#"{"enabled": true, "triggerLines": 300, "chunkLines": 120}"#);
    assert!(p.enabled);
    assert_eq!(p.trigger_lines, 300);
    assert_eq!(p.chunk_lines, 120);
}

/// 兼容旧配置的裸布尔写法：启用并回退默认值
#[test]
fn test_chunked_write_policy_bool_form_compat() {
    let p = policy("true");
    assert!(p.enabled);
    assert_eq!(p.trigger_lines, 150);
    assert_eq!(p.chunk_lines, 50);

    let p = policy("false");
    assert!(!p.enabled);
}

/// 兼容单值 writeLimitLines：同时作为阈值与块大小
#[test]
fn test_chunked_write_policy_single_value_compat() {
    let p = policy(r#"{"enabled": true, "writeLimitLines": 50}"#);
    assert_eq!(p.trigger_lines, 50);
    assert_eq!(p.chunk_lines, 50);
}

/// 显式的双字段优先于单值写法
#[test]
fn test_explicit_fields_take_precedence_over_single_value() {
    let p = policy(
        r#"{"enabled": true, "writeLimitLines": 50,
                 "triggerLines": 150, "chunkLines": 60}"#,
    );
    assert_eq!(p.trigger_lines, 150);
    assert_eq!(p.chunk_lines, 60);
}

/// 兼容旧的字节字段：按 35 字节/行折回行数
#[test]
fn test_chunked_write_policy_legacy_bytes_folded_to_lines() {
    let p = policy(r#"{"enabled": true, "triggerBytes": 5250, "chunkBytes": 1750}"#);
    assert_eq!(p.trigger_lines, 150);
    assert_eq!(p.chunk_lines, 50);

    // 极小字节值不应折算成 0 行
    let p = policy(r#"{"enabled": true, "chunkBytes": 10}"#);
    assert_eq!(p.chunk_lines, 1);
}

/// 阈值小于块大小时抬到块大小（否则等于每次都分块）
#[test]
fn test_trigger_lines_raised_to_chunk_lines() {
    let p = policy(r#"{"enabled": true, "triggerLines": 10, "chunkLines": 50}"#);
    assert_eq!(p.trigger_lines, 50);
    assert_eq!(p.chunk_lines, 50);
}

/// 对象写法省略行数字段时回退默认值
#[test]
fn test_chunked_write_policy_partial_object() {
    let p = policy(r#"{"enabled": true}"#);
    assert!(p.enabled);
    assert_eq!(p.trigger_lines, 150);
    assert_eq!(p.chunk_lines, 50);
}

#[test]
fn bytes_are_rounded_up_to_lines() {
    let p = policy(r#"{"enabled": true, "chunkBytes": 0}"#);
    assert_eq!(p.chunk_lines, 1);
    let p = policy(r#"{"enabled": true, "chunkBytes": 36}"#);
    assert_eq!(p.chunk_lines, 2);
    let p = policy(r#"{"enabled": true, "chunkBytes": 4294967295}"#);
    assert_eq!(p.chunk_lines, 122713352);
}

/// 缺省 models 时回退内置默认表
#[test]
fn test_effective_models_defaults_when_absent() {
    let cfg = Config::default();
    assert!(cfg.models.is_none());
    let models = cfg.effective_models(&line());
    assert_eq!(models.len(), default_models(&line()).len());
    assert!(models.iter().any(|m| m.kiro_id == "acme-opus-4.8"));
}

/// 解析自定义 models（同步守护 README 完整配置示例的字段结构）
#[test]
fn test_parse_custom_models() {
    let json = r#"{
            "apiKey": "k",
            "models": [
                { "family": "opus", "version": "4.8", "kiroId": "acme-opus-4.8", "displayId": "acme-opus-4-8", "displayName": "Acme Opus 4.8", "created": 1779897600, "maxTokens": 128000, "contextWindow": 1000000 },
                { "family": "haiku", "kiroId": "acme-haiku-4.5", "displayId": "acme-haiku-4-5-20251001", "displayName": "Acme Haiku 4.5", "created": 1760486400, "maxTokens": 64000, "contextWindow": 200000 }
            ]
        }"#;
    let value: serde_json::Value = serde_json::from_str(json).expect("自定义 models 应能解析");
    let mut cfg = Config::default();
    cfg.models = Some(value["models"].as_array().unwrap().iter().map(model).collect());
    let models = cfg.effective_models(&line());
    assert_eq!(models.len(), 2);
    assert_eq!(models[0].kiro_id, "acme-opus-4.8");
    assert_eq!(models[0].context_window, 1_000_000);
    assert!(models[1].version.is_none(), "haiku 省略 version 应为 None");
}

#[test]
fn the_default_configuration() {
    let cfg = Config::default();
    assert_eq!(cfg.host, "127.0.0.1");
    assert_eq!(cfg.port, 8080);
    assert_eq!(cfg.region, "us-east-1");
    assert_eq!(cfg.tls_backend, TlsBackend::NativeTls);
    assert_eq!(cfg.load_balancing_mode, "priority");
    assert_eq!(cfg.default_endpoint, "ide");
    assert!(cfg.extract_thinking);
    assert!(cfg.codex_truncation_correction);
    assert!(cfg.system_version == "darwin#24.6.0" || cfg.system_version == "win32#10.0.22631");
    assert_eq!(Config::default_config_path(), "config.json");
}

#[test]
fn effective_values_fall_back() {
    let mut cfg = Config::default();
    assert_eq!(cfg.effective_auth_region(), "us-east-1");
    cfg.auth_region = Some("eu-west-1".to_string());
    cfg.api_region = Some("".to_string());
    assert_eq!(cfg.effective_auth_region(), "eu-west-1");
    assert_eq!(cfg.effective_api_region(), "");
    assert_eq!(cfg.effective_sso_oidc_sdk_version(), "3.980.0");
    cfg.sso_oidc_sdk_version = Some(String::new());
    assert_eq!(cfg.effective_sso_oidc_sdk_version(), "3.980.0");
    cfg.runtime_sdk_version = Some("2.0.0".to_string());
    assert_eq!(cfg.effective_runtime_sdk_version(), "2.0.0");
}

#[test]
fn aliases_do_not_depend_on_case() {
    let mut cfg = Config::default();
    cfg.model_aliases = vec![
        ("GPT-5".to_string(), "a".to_string()),
        ("gpt-5".to_string(), "b".to_string()),
        ("O3".to_string(), "c".to_string()),
    ];
    let aliases = cfg.effective_model_aliases();
    assert_eq!(
        aliases,
        vec![
            ("gpt-5".to_string(), "b".to_string()),
            ("o3".to_string(), "c".to_string())
        ]
    );
}

#[test]
fn a_configuration_without_a_file_cannot_be_saved() {
    let mut cfg = Config::default();
    assert_eq!(cfg.save_path(), Err("配置文件路径未知，无法保存配置"));
    cfg.config_path = Some("/tmp/config.json".to_string());
    assert_eq!(cfg.save_path(), Ok("/tmp/config.json"));
    assert_eq!(cfg.config_path(), Some("/tmp/config.json"));
}

#[test]
fn test_kiro_request_serializes_agent_mode() {
    let state = ConversationState {
        json: r#"{"conversationId":"conv-1"}"#.to_string(),
    };
    let request = KiroRequest::from_conversation_state(state);
    let json = request.to_json();
    assert!(json.contains("\"agentMode\":\"vibe\""));
}

#[test]
fn a_request_names_its_profile_only_where_it_has_one() {
    let state = ConversationState {
        json: "{}".to_string(),
    };
    let mut request = KiroRequest::from_conversation_state(state);
    assert_eq!(
        request.to_json(),
        r#"{"conversationState":{},"agentMode":"vibe"}"#
    );
    request.profile_arn = Some("arn:\"x\"".to_string());
    assert_eq!(
        request.to_json(),
        r#"{"conversationState":{},"profileArn":"arn:\"x\"","agentMode":"vibe"}"#
    );
}
