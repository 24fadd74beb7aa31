//! How the service starts.

use kiro_rs::app::host_info::{
    kiro_version, macos_plist_paths, printed, system_version, version_in, windows_os_build,
    windows_product_paths, Platform,
};
use kiro_rs::app::paths::{
    bootstrap_desktop_files, build_default_config, config_with_tokens, random_token,
    resolved_paths, PathStyle, RunOptions, RuntimeMode,
};
use kiro_rs::app::sso_scan::{
    assemble_candidate, client_file, is_token_file, sso_cache_dir, ClientRegistration,
    KiroAuthToken,
};
use kiro_rs::app::startup::{
    bind_addresses, desktop_configured_port, desktop_import_config, desktop_set_configured_port,
    is_port_available, plan_startup, CredentialEndpoint, Server, StartupError,
};
use kiro_rs::kiro::usage_limits::{
    Bonus, FreeTrialInfo, SubscriptionInfo, UsageBreakdown, UsageLimitsResponse, UsagePart,
};
use kiro_rs::model::config::Config;

fn options(mode: RuntimeMode, config: Option<&str>) -> RunOptions {
    RunOptions {
        mode,
        config_path: config.map(|s| s.to_string()),
        credentials_path: None,
    }
}

#[test]
fn files_and_their_places() {
    let p = resolved_paths(&options(RuntimeMode::Server, None), PathStyle::Unix, "/data");
    assert_eq!(p.config_path, "config.json");
    assert_eq!(p.credentials_path, "credentials.json");
    let o = options(RuntimeMode::Desktop, Some("/x.json"));
    let p = resolved_paths(&o, PathStyle::Unix, "/data/");
    assert_eq!(p.config_path, "/x.json");
    assert_eq!(p.credentials_path, "/data/credentials.json");
    let o = options(RuntimeMode::Desktop, None);
    for (style, dir, path) in [
        (PathStyle::Unix, "/data", "/data/config.json"),
        (PathStyle::Unix, "d\\", "d\\/config.json"),
        (PathStyle::Unix, "", "config.json"),
        (PathStyle::Windows, "C:\\data", "C:\\data\\config.json"),
        (PathStyle::Windows, "C:\\data\\", "C:\\data\\config.json"),
        (PathStyle::Windows, "C:/data/", "C:/data/config.json"),
    ] {
        assert_eq!(resolved_paths(&o, style, dir).config_path, path);
    }
    let plan = bootstrap_desktop_files(true, true, false);
    assert!(!plan.write_config);
    assert!(plan.write_credentials);
    let plan = bootstrap_desktop_files(false, false, false);
    assert!(!plan.write_config && !plan.write_credentials);
}

#[test]
fn keys_are_random() {
    let a = random_token();
    assert_eq!(a.len(), 32);
    assert!(a.chars().all(|c| c.is_ascii_hexdigit() && !c.is_ascii_uppercase()));
    assert_ne!(a, random_token());
}

#[test]
fn the_first_configuration() {
    let s = config_with_tokens(r#"{"port":1}"#, "aa", "bb", Some("linux#6"), None).unwrap();
    assert_eq!(
        s,
        "{\n  \"adminApiKey\": \"bb\",\n  \"apiKey\": \"sk-aa\",\n  \"port\": 1,\n  \"systemVersion\": \"linux#6\"\n}\n"
    );
    assert_eq!(
        config_with_tokens("[]", "a", "b", None, None),
        Err("内置配置模板根节点不是对象".to_string())
    );
    assert!(config_with_tokens("{", "a", "b", None, None)
        .unwrap_err()
        .starts_with("解析内置配置模板失败: "));
    let s = build_default_config("{}", None, Some("1.2")).unwrap();
    let value: serde_json::Value = serde_json::from_str(&s).unwrap();
    assert_eq!(value["kiroVersion"], "1.2");
    assert_eq!(value["apiKey"].as_str().unwrap().len(), 35);
}

fn config() -> Config {
    let mut c = Config::default();
    c.api_key = Some("k".to_string());
    c
}

#[test]
fn a_service_that_starts() {
    let mut c = config();
    c.admin_api_key = Some("a".to_string());
    c.proxy_url = Some("http://p".to_string());
    c.proxy_username = Some("u".to_string());
    let known = vec!["ide".to_string()];
    let plan = plan_startup(&c, &Vec::new(), Some("env".to_string()), &known).unwrap();
    assert_eq!(plan.api_key, "k");
    assert_eq!(plan.admin_api_key.as_deref(), Some("a"));
    let credential = plan.env_credential.unwrap();
    assert_eq!(credential.kiro_api_key, "env");
    assert_eq!(credential.auth_method, "api_key");
    assert_eq!(credential.priority, 0);
    let proxy = plan.proxy.unwrap();
    assert_eq!(proxy.url, "http://p");
    assert!(proxy.auth.is_none());

    c.admin_api_key = Some("  ".to_string());
    let plan = plan_startup(&c, &Vec::new(), Some(String::new()), &known).unwrap();
    assert!(plan.admin_api_key.is_none());
    assert!(plan.env_credential.is_none());
}

#[test]
fn services_that_do_not_start() {
    let known = vec!["ide".to_string()];
    let e = plan_startup(&Config::default(), &Vec::new(), None, &known).unwrap_err();
    assert_eq!(e.to_string(), "配置文件中未设置 apiKey");
    let mut c = config();
    c.default_endpoint = "web".to_string();
    let e = plan_startup(&c, &Vec::new(), None, &known).unwrap_err();
    assert_eq!(e.to_string(), "默认端点 \"web\" 未注册");
    let credentials = vec![
        CredentialEndpoint {
            id: None,
            endpoint: None,
        },
        CredentialEndpoint {
            id: Some(5),
            endpoint: Some("cli".to_string()),
        },
    ];
    let e = plan_startup(&config(), &credentials, None, &known).unwrap_err();
    assert_eq!(e.to_string(), "凭据 id=Some(5) 指定了未知端点 \"cli\"");
    let none = StartupError::UnknownCredentialEndpoint {
        id: None,
        endpoint: "x".to_string(),
    };
    assert_eq!(none.to_string(), "凭据 id=None 指定了未知端点 \"x\"");
    assert_eq!(
        StartupError::Config("c".to_string()).to_string(),
        "加载配置失败: c"
    );
    assert_eq!(
        StartupError::Credentials("c".to_string()).to_string(),
        "加载凭证失败: c"
    );
    assert_eq!(
        StartupError::TokenManager("c".to_string()).to_string(),
        "创建 Token 管理器失败: c"
    );
    assert_eq!(
        StartupError::Bind("c".to_string()).to_string(),
        "绑定监听地址失败: c"
    );
}

#[test]
fn addresses_to_try() {
    assert_eq!(
        bind_addresses(RuntimeMode::Server, "0.0.0.0", 80, false),
        ["0.0.0.0:80"]
    );
    assert_eq!(
        bind_addresses(RuntimeMode::Desktop, "0.0.0.0", 80, true),
        ["127.0.0.1:80", "127.0.0.1:0"]
    );
    assert_eq!(
        bind_addresses(RuntimeMode::Desktop, "0.0.0.0", 80, false),
        ["127.0.0.1:0"]
    );
    assert!(!is_port_available(0, true));
    assert!(is_port_available(1, true));
    assert!(!is_port_available(1, false));
    let server = Server {
        port: 5,
        wanted_port: 6,
        admin_key: Some("a".to_string()),
    };
    assert_eq!((server.local_port(), server.requested_port()), (5, 6));
    assert!(server.port_conflicted());
    assert_eq!(server.admin_api_key(), Some("a"));
}

#[test]
fn ports_in_a_configuration() {
    assert_eq!(desktop_configured_port(Some(r#"{"port":99}"#)), 99);
    assert_eq!(desktop_configured_port(Some(r#"{"port":70000}"#)), 8080);
    assert_eq!(desktop_configured_port(Some(r#"{"port":-1}"#)), 8080);
    assert_eq!(desktop_configured_port(Some("{")), 8080);
    assert_eq!(desktop_configured_port(None), 8080);
    assert_eq!(
        desktop_set_configured_port(99, r#"{"b":1,"port":3}"#),
        Ok("{\n  \"b\": 1,\n  \"port\": 99\n}\n".to_string())
    );
    assert_eq!(
        desktop_set_configured_port(0, "{}"),
        Err("端口不能为 0".to_string())
    );
    assert_eq!(
        desktop_set_configured_port(1, "1"),
        Err("配置文件根节点不是对象".to_string())
    );
    assert!(desktop_set_configured_port(1, "{")
        .unwrap_err()
        .starts_with("解析配置失败: "));
}

#[test]
fn a_configuration_that_is_imported() {
    let keys = |a: &str, b: &str| Ok((Some(a.to_string()), Some(b.to_string())));
    assert_eq!(
        desktop_import_config(r#"{"port":7}"#, keys("a", "b")),
        Ok(("{\n  \"port\": 7\n}\n".to_string(), 7))
    );
    assert_eq!(
        desktop_import_config("{}", keys(" ", "b")),
        Err("导入的配置缺少 apiKey，桌面版无法启动".to_string())
    );
    assert_eq!(
        desktop_import_config("{}", Ok((Some("a".to_string()), None))),
        Err("导入的配置缺少 adminApiKey，将导致管理界面无法访问".to_string())
    );
    assert_eq!(
        desktop_import_config("{}", Err("bad".to_string())),
        Err("配置格式非法，无法解析: bad".to_string())
    );
}

#[test]
fn credentials_that_are_found() {
    assert!(is_token_file("kiro-auth-token-2.json"));
    assert!(!is_token_file("kiro-auth-token.txt"));
    assert!(!is_token_file("token.json"));
    assert_eq!(
        sso_cache_dir(PathStyle::Unix, Some("/home/u")).as_deref(),
        Some("/home/u/.aws/sso/cache")
    );
    assert_eq!(
        sso_cache_dir(PathStyle::Windows, Some("C:\\u")).as_deref(),
        Some("C:\\u\\.aws\\sso\\cache")
    );
    assert_eq!(sso_cache_dir(PathStyle::Unix, None), None);
    let mut token = KiroAuthToken {
        refresh_token: Some(" r ".to_string()),
        client_id_hash: Some(" h ".to_string()),
        region: Some(" ".to_string()),
    };
    assert_eq!(client_file(&token).as_deref(), Some("h.json"));
    let client = ClientRegistration {
        client_id: Some("i".to_string()),
        client_secret: Some(" s".to_string()),
    };
    let c = assemble_candidate(&token, &client, "f").unwrap();
    assert_eq!(c.refresh_token, "r");
    assert_eq!(c.client_secret, "s");
    assert_eq!(c.region, None);
    assert_eq!(c.source_file, "f");
    let none = ClientRegistration {
        client_id: None,
        client_secret: Some("s".to_string()),
    };
    assert!(assemble_candidate(&token, &none, "f").is_none());
    token.refresh_token = None;
    assert!(client_file(&token).is_none());
}

#[test]
fn what_is_known_of_the_machine() {
    assert_eq!(
        system_version(Platform::Linux, Some("6.1")).as_deref(),
        Some("linux#6.1")
    );
    assert_eq!(system_version(Platform::Other, Some("6.1")), None);
    assert_eq!(system_version(Platform::Macos, None), None);
    assert_eq!(printed(true, b" 6.1\n").as_deref(), Some("6.1"));
    assert_eq!(printed(true, b"\n"), None);
    assert_eq!(printed(false, b"6.1"), None);
    assert_eq!(
        windows_os_build("Microsoft Windows [Version 10.0.22631.4460]").as_deref(),
        Some("10.0.22631")
    );
    assert_eq!(windows_os_build("[Version 10.0]").as_deref(), Some("10.0"));
    assert_eq!(windows_os_build("[Version ]"), None);
    assert_eq!(windows_os_build("Version 10"), None);
    assert_eq!(version_in(r#"{"version":"1.2"}"#).as_deref(), Some("1.2"));
    assert_eq!(version_in(r#"{"version":""}"#), None);
    let found = vec![None, Some("1".to_string()), Some("2".to_string())];
    assert_eq!(kiro_version(Platform::Macos, &found).as_deref(), Some("1"));
    assert_eq!(kiro_version(Platform::Linux, &found), None);
    assert_eq!(
        macos_plist_paths("/Users/u")[1],
        "/Users/u/Applications/Kiro.app/Contents/Info.plist"
    );
    assert_eq!(
        windows_product_paths(Some("L"), None)[0],
        "L\\Programs\\kiro\\resources\\app\\product.json"
    );
    assert_eq!(
        windows_product_paths(None, Some("P"))[1],
        "P\\Kiro\\resources\\app\\product.json"
    );
}

#[test]
fn amounts_that_count() {
    let status = |s: &str| Some(s.to_string());
    let limits = UsageLimitsResponse {
        subscription_info: Some(SubscriptionInfo {
            subscription_title: status("KIRO PRO+"),
        }),
        usage_breakdown_list: vec![UsageBreakdown {
            current_usage: 3,
            usage_limit: 50,
            bonuses: vec![
                Bonus {
                    status: status("EXPIRED"),
                },
                Bonus {
                    status: status("ACTIVE"),
                },
                Bonus { status: None },
            ],
            free_trial_info: Some(FreeTrialInfo {
                current_usage: 1,
                usage_limit: 10,
                free_trial_status: status("ACTIVE"),
            }),
        }],
    };
    assert_eq!(limits.subscription_title(), Some("KIRO PRO+"));
    assert_eq!(
        limits.counted_parts(),
        [UsagePart::Base, UsagePart::FreeTrial, UsagePart::Bonus(1)]
    );
    let none = UsageLimitsResponse {
        subscription_info: None,
        usage_breakdown_list: Vec::new(),
    };
    assert!(none.counted_parts().is_empty());
    assert!(none.subscription_title().is_none());
}
