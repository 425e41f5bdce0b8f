use azcp::auth::az_cli::{get_account_key, get_storage_token, key_command, token_command, CliReply};
use azcp::auth::imds::{
    get_storage_token_imds, get_storage_token_workload, imds_url, workload_form,
    workload_token_file, workload_url, TokenReply, WorkloadEnv,
};
use azcp::auth::sas::{append_sas_token, extract_sas_token, token_query};
use azcp::auth::{kept_after, Answer, Environment, Probe, Step};
use azcp::storage::blob::client::BlobClient;
use azcp::{parse_location, AzcpError, Credential, Location};

fn env(account: Option<&str>, key: Option<&str>, sas: Option<&str>) -> Environment {
    Environment {
        account: account.map(String::from),
        key: key.map(String::from),
        sas_token: sas.map(String::from),
    }
}

fn none() -> Environment {
    env(None, None, None)
}

fn found(s: &str) -> Answer {
    Answer::Found(s.to_string())
}

fn shown(step: Step) -> String {
    match step {
        Step::Use(Credential::SharedKey { account, key }) => format!("key {account} {key}"),
        Step::Use(Credential::Sas { token }) => format!("sas {token}"),
        Step::Use(Credential::Bearer { token }) => format!("bearer {token}"),
        Step::Use(Credential::Anonymous) => "anonymous".to_string(),
        Step::Nothing => "nothing".to_string(),
        Step::Ask(Probe::Workload) => "ask workload".to_string(),
        Step::Ask(Probe::ManagedIdentity) => "ask managed identity".to_string(),
        Step::Ask(Probe::CliToken) => "ask for a token".to_string(),
        Step::Ask(Probe::CliKey) => "ask for a key".to_string(),
        Step::Fail(e) => e.message(),
    }
}

fn step(e: &Environment, sas: Option<&str>, answers: Vec<Answer>) -> String {
    shown(Credential::resolve_or_anonymous(e, &None, "acct", sas, &answers))
}

#[test]
fn environment_has_a_key_or_a_token() {
    assert!(Credential::from_env(&none()).is_none());
    assert!(Credential::from_env(&env(Some("a"), None, None)).is_none());
    assert!(matches!(
        Credential::from_env(&env(Some("a"), Some("k"), Some("s"))),
        Some(Credential::SharedKey { .. })
    ));
    assert!(matches!(
        Credential::from_env(&env(None, Some("k"), Some("s"))),
        Some(Credential::Sas { .. })
    ));
}

#[test]
fn sources_are_tried_in_order() {
    assert_eq!(
        step(&env(Some("a"), Some("k"), None), Some("t"), vec![]),
        "sas t"
    );
    assert_eq!(
        step(&env(Some("a"), Some("k"), Some("s")), None, vec![]),
        "key a k"
    );
    assert_eq!(step(&env(None, None, Some("s")), None, vec![]), "sas s");
    assert_eq!(step(&none(), None, vec![]), "ask workload");
    assert_eq!(step(&none(), None, vec![found("w")]), "bearer w");
    assert_eq!(
        step(&none(), None, vec![Answer::Absent]),
        "ask managed identity"
    );
    assert_eq!(
        step(&none(), None, vec![Answer::Absent, found("m")]),
        "bearer m"
    );
    assert_eq!(
        step(&none(), None, vec![Answer::Absent, Answer::Absent]),
        "ask for a token"
    );
    assert_eq!(
        step(&none(), None, vec![Answer::Absent, Answer::Absent, found("c")]),
        "bearer c"
    );
    let failed = || Answer::Failed("no az".to_string());
    assert_eq!(
        step(&none(), None, vec![Answer::Absent, Answer::Absent, failed()]),
        "ask for a key"
    );
    assert_eq!(
        step(
            &none(),
            None,
            vec![Answer::Absent, Answer::Absent, failed(), found("k")]
        ),
        "key acct k"
    );
    assert_eq!(
        step(
            &none(),
            None,
            vec![Answer::Absent, Answer::Absent, failed(), failed()]
        ),
        "anonymous"
    );
    assert_eq!(
        shown(Credential::from_env_or_cli(
            &none(),
            &None,
            "acct",
            &vec![Answer::Absent, Answer::Absent, failed(), failed()]
        )),
        "nothing"
    );
}

#[test]
fn earlier_search_is_used_again() {
    let cached = Some(Credential::Bearer {
        token: "old".to_string(),
    });
    let s = Credential::resolve_or_anonymous(&none(), &cached, "acct", None, &vec![]);
    assert_eq!(shown(s), "bearer old");
}

#[test]
fn failing_identity_is_reported() {
    let failed = || Answer::Failed("IMDS HTTP 500".to_string());
    assert_eq!(
        step(&none(), None, vec![failed()]),
        "Authentication failed: IMDS HTTP 500"
    );
    assert_eq!(
        step(&none(), None, vec![Answer::Absent, failed()]),
        "Authentication failed: IMDS HTTP 500"
    );
}

fn workload(c: Option<&str>, t: Option<&str>, f: Option<&str>) -> WorkloadEnv {
    WorkloadEnv {
        client_id: c.map(String::from),
        tenant_id: t.map(String::from),
        token_file: f.map(String::from),
        authority: None,
    }
}

#[test]
fn workload_identity_needs_all_variables() {
    let all = workload(Some("c"), Some("t"), Some("/f"));
    assert_eq!(workload_token_file(&all).as_deref(), Some("/f"));
    assert!(workload_token_file(&workload(None, Some("t"), Some("/f"))).is_none());
    assert!(workload_token_file(&workload(Some("c"), None, Some("/f"))).is_none());
    assert!(workload_token_file(&workload(Some("c"), Some("t"), None)).is_none());
    assert_eq!(
        workload_url(&None, "tenant"),
        "https://login.microsoftonline.com/tenant/oauth2/v2.0/token"
    );
    assert_eq!(
        workload_url(&Some("https://login.example//".to_string()), "t"),
        "https://login.example/t/oauth2/v2.0/token"
    );
    let form = workload_form("cid", "  jwt\n");
    assert_eq!(form.len(), 5);
    assert_eq!(form[0], ("client_id".to_string(), "cid".to_string()));
    assert_eq!(form[4], ("client_assertion".to_string(), "jwt".to_string()));
}

fn reply(success: bool, token: Result<&str, &str>) -> TokenReply {
    TokenReply {
        success,
        status: "429 Too Many Requests".to_string(),
        body: "{}".to_string(),
        token: token.map(String::from).map_err(String::from),
    }
}

#[test]
fn token_replies_are_read() {
    assert!(matches!(
        get_storage_token_workload(&reply(true, Ok("tok"))),
        Answer::Found(t) if t == "tok"
    ));
    assert!(matches!(
        get_storage_token_workload(&reply(false, Ok("tok"))),
        Answer::Failed(e) if e == "workload token HTTP 429 Too Many Requests: {}"
    ));
    assert!(matches!(
        get_storage_token_workload(&reply(true, Err("eof"))),
        Answer::Failed(e) if e == "parse workload token: eof body={}"
    ));
    assert!(matches!(get_storage_token_imds(&None), Answer::Absent));
    assert!(matches!(
        get_storage_token_imds(&Some(reply(false, Ok("t")))),
        Answer::Failed(e) if e == "IMDS HTTP 429 Too Many Requests: {}"
    ));
    assert!(matches!(
        get_storage_token_imds(&Some(reply(true, Err("x")))),
        Answer::Failed(e) if e == "parse IMDS token: x body={}"
    ));
    assert_eq!(
        imds_url(&Some("id".to_string())),
        "http://169.254.169.254/metadata/identity/oauth2/token?api-version=2018-02-01&resource=https://storage.azure.com/&client_id=id"
    );
}

#[test]
fn command_line_replies_are_read() {
    let ok = CliReply {
        success: true,
        stderr: String::new(),
        secret: Ok("s".to_string()),
    };
    let bad = CliReply {
        success: false,
        stderr: "boom".to_string(),
        secret: Err(String::new()),
    };
    let odd = CliReply {
        success: true,
        stderr: String::new(),
        secret: Err("eof".to_string()),
    };
    assert!(matches!(get_storage_token(&ok), Answer::Found(t) if t == "s"));
    assert!(
        matches!(get_storage_token(&bad), Answer::Failed(e) if e == "az CLI token error: boom")
    );
    assert!(
        matches!(get_storage_token(&odd), Answer::Failed(e) if e == "failed to parse az token: eof")
    );
    assert!(matches!(get_account_key(&ok), Answer::Found(t) if t == "s"));
    assert!(
        matches!(get_account_key(&bad), Answer::Failed(e) if e == "az storage account keys list failed: boom")
    );
    assert!(
        matches!(get_account_key(&odd), Answer::Failed(e) if e == "failed to parse az key response: eof")
    );
    assert_eq!(token_command()[1], "get-access-token");
    assert_eq!(key_command("acct")[5], "acct");
}

#[test]
fn tokens_go_behind_the_query() {
    assert_eq!(token_query(&None, "?sv=1&sig=x"), "sv=1&sig=x");
    assert_eq!(token_query(&Some(String::new()), "sig=x"), "sig=x");
    assert_eq!(
        token_query(&Some("comp=list".to_string()), "?sig=x"),
        "comp=list&sig=x"
    );
    let mut r = BlobClient::create_container("acct", "ctr").unwrap();
    append_sas_token(&mut r.url, "?sig=a%2Fb");
    assert_eq!(
        r.url.text,
        "https://acct.blob.core.windows.net/ctr?restype=container&sig=a%2Fb"
    );
    assert_eq!(
        extract_sas_token(&r.url).as_deref(),
        Some("restype=container&sig=a%2Fb")
    );
}

#[test]
fn addresses_name_their_parts() {
    let l = parse_location("https://acct.blob.core.windows.net/ctr/a/b.bin?sv=1&sig=x").unwrap();
    match l {
        Location::AzureBlob(b) => {
            assert_eq!(b.account, "acct");
            assert_eq!(b.container, "ctr");
            assert_eq!(b.path, "a/b.bin");
            assert_eq!(b.sas_token.as_deref(), Some("sv=1&sig=x"));
            assert_eq!(b.service_url(), "https://acct.blob.core.windows.net");
            assert_eq!(b.container_url(), "https://acct.blob.core.windows.net/ctr");
        }
        Location::Local(_) => panic!("not local"),
    }
    assert!(matches!(
        parse_location("https://acct.blob.core.windows.net/?sv=1").unwrap(),
        Location::AzureBlob(b) if b.container.is_empty() && b.path.is_empty() && b.sas_token.is_none()
    ));
    assert!(matches!(parse_location("./data").unwrap(), Location::Local(p) if p == "./data"));
}

#[test]
fn wrong_addresses_are_refused() {
    let error = |s: &str| parse_location(s).unwrap_err().message();
    assert_eq!(
        error("https://example.com/c"),
        "Invalid URL: expected *.blob.core.windows.net, got example.com"
    );
    assert_eq!(error("https://"), "Invalid URL: empty host");
    assert!(matches!(
        parse_location("http://[bad/"),
        Err(AzcpError::InvalidUrl(_))
    ));
}

#[test]
fn what_was_found_is_kept() {
    let bare = env(None, None, None);
    let found = vec![Answer::Found("t".to_string())];
    let kept = kept_after(&bare, &None, "a1", None, &found);
    assert!(matches!(&kept, Some(Credential::Bearer { token }) if token == "t"));
    let step = Credential::from_env_or_cli(&bare, &kept, "a2", &Vec::new());
    assert!(matches!(step, Step::Use(Credential::Bearer { token }) if token == "t"));
    let failed = vec![Answer::Failed("no".to_string())];
    assert!(kept_after(&bare, &None, "a1", None, &failed).is_none());
    let nothing = vec![Answer::Absent, Answer::Absent, Answer::Absent, Answer::Absent];
    let none = kept_after(&bare, &None, "a1", None, &nothing);
    assert!(none.is_none());
    let step = Credential::from_env_or_cli(&bare, &none, "a1", &Vec::new());
    assert!(matches!(step, Step::Ask(Probe::Workload)));
    let keyed = env(Some("a"), Some("k"), None);
    assert!(kept_after(&keyed, &None, "a1", None, &found).is_none());
    assert!(kept_after(&bare, &None, "a1", Some("sig"), &found).is_none());
    assert!(kept_after(&bare, &kept, "a1", None, &failed).is_some());
}
