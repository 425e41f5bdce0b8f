//! Tokens from the workload identity of a pod and from the managed identity of a machine.
use crate::auth::Answer;
use crate::text;
use crate::text::{chars_of, owned, string_of, trim, trim_end_of};
use vstd::prelude::*;

verus! {

pub const IMDS_ENDPOINT: &'static str =
    "http://169.254.169.254/metadata/identity/oauth2/token";

pub const IMDS_API_VERSION: &'static str = "2018-02-01";

pub const STORAGE_RESOURCE: &'static str = "https://storage.azure.com/";

pub const DEFAULT_AUTHORITY: &'static str = "https://login.microsoftonline.com/";

/// What the environment of a pod says: `AZURE_CLIENT_ID`, `AZURE_TENANT_ID`,
/// `AZURE_FEDERATED_TOKEN_FILE` and `AZURE_AUTHORITY_HOST`.
pub struct WorkloadEnv {
    pub client_id: Option<String>,
    pub tenant_id: Option<String>,
    pub token_file: Option<String>,
    pub authority: Option<String>,
}

/// The file whose token is exchanged; nothing where the pod has no workload identity.
pub fn workload_token_file(env: &WorkloadEnv) -> (out: Option<String>)
    ensures
        text::opt_view(out) == if env.client_id is Some && env.tenant_id is Some {
            text::opt_view(env.token_file)
        } else {
            None
        },
{
    if env.client_id.is_some() && env.tenant_id.is_some() {
        text::clone_opt(&env.token_file)
    } else {
        None
    }
}

/// The address at which a token is exchanged.
pub open spec fn exchange_address(authority: Seq<char>, tenant: Seq<char>) -> Seq<char> {
    text::trimmed_end_of(authority, '/') + "/"@ + tenant + "/oauth2/v2.0/token"@
}

/// The address at which a token is exchanged.
pub fn workload_url(authority: &Option<String>, tenant_id: &str) -> (out: String)
    ensures
        out@ == exchange_address(
            match *authority {
                Some(a) => a@,
                None => DEFAULT_AUTHORITY@,
            },
            tenant_id@,
        ),
{
    let base = match authority {
        Some(a) => chars_of(a.as_str()),
        None => chars_of(DEFAULT_AUTHORITY),
    };
    let mut out = string_of(trim_end_of(base.as_slice(), '/').as_slice());
    out.append("/");
    out.append(tenant_id);
    out.append("/oauth2/v2.0/token");
    out
}

/// The fields of the form that exchanges a token.
pub fn workload_form(client_id: &str, file_content: &str) -> (out: Vec<(String, String)>)
    ensures
        out@.map_values(|p: (String, String)| (p.0@, p.1@)) == seq![
            ("client_id"@, client_id@),
            ("scope"@, "https://storage.azure.com/.default"@),
            ("grant_type"@, "client_credentials"@),
            (
                "client_assertion_type"@,
                "urn:ietf:params:oauth:client-assertion-type:jwt-bearer"@,
            ),
            ("client_assertion"@, text::trimmed(file_content@)),
        ],
{
    let chars = chars_of(file_content);
    let assertion = string_of(trim(chars.as_slice()).as_slice());
    let mut out: Vec<(String, String)> = Vec::new();
    out.push((owned("client_id"), owned(client_id)));
    out.push((owned("scope"), owned("https://storage.azure.com/.default")));
    out.push((owned("grant_type"), owned("client_credentials")));
    out.push(
        (
            owned("client_assertion_type"),
            owned("urn:ietf:params:oauth:client-assertion-type:jwt-bearer"),
        ),
    );
    out.push((owned("client_assertion"), assertion));
    assert(out@.map_values(|p: (String, String)| (p.0@, p.1@)) =~= seq![
        ("client_id"@, client_id@),
        ("scope"@, "https://storage.azure.com/.default"@),
        ("grant_type"@, "client_credentials"@),
        ("client_assertion_type"@, "urn:ietf:params:oauth:client-assertion-type:jwt-bearer"@),
        ("client_assertion"@, text::trimmed(file_content@)),
    ]);
    out
}

/// A reply of a token service: whether it is a success, its status as text, its body, and the
/// token in the body or why there is none.
pub struct TokenReply {
    pub success: bool,
    pub status: String,
    pub body: String,
    pub token: std::result::Result<String, String>,
}

/// What a reply says. `reply_name` and `token_name` name the service in messages.
pub open spec fn reply_meaning(
    r: TokenReply,
    reply_name: Seq<char>,
    token_name: Seq<char>,
) -> std::result::Result<Seq<char>, Seq<char>> {
    if !r.success {
        Err(reply_name + " HTTP "@ + r.status@ + ": "@ + r.body@)
    } else {
        match r.token {
            Ok(t) => Ok(t@),
            Err(e) => Err("parse "@ + token_name + " token: "@ + e@ + " body="@ + r.body@),
        }
    }
}

/// Whether an answer is what a reply means.
pub open spec fn answers(a: Answer, m: std::result::Result<Seq<char>, Seq<char>>) -> bool {
    match (a, m) {
        (Answer::Found(t), Ok(u)) => t@ == u,
        (Answer::Failed(e), Err(f)) => e@ == f,
        _ => false,
    }
}

fn read_reply(reply: &TokenReply, reply_name: &str, token_name: &str) -> (out: Answer)
    ensures
        answers(out, reply_meaning(*reply, reply_name@, token_name@)),
{
    if !reply.success {
        let mut e = owned(reply_name);
        e.append(" HTTP ");
        e.append(reply.status.as_str());
        e.append(": ");
        e.append(reply.body.as_str());
        return Answer::Failed(e);
    }
    match &reply.token {
        Ok(t) => Answer::Found(t.clone()),
        Err(m) => {
            let mut e = owned("parse ");
            e.append(token_name);
            e.append(" token: ");
            e.append(m.as_str());
            e.append(" body=");
            e.append(reply.body.as_str());
            Answer::Failed(e)
        },
    }
}

/// What the reply to an exchange says.
pub fn get_storage_token_workload(reply: &TokenReply) -> (out: Answer)
    ensures
        answers(out, reply_meaning(*reply, "workload token"@, "workload"@)),
{
    read_reply(reply, "workload token", "workload")
}

/// The address of the metadata service.
pub open spec fn metadata_address(client_id: Option<Seq<char>>) -> Seq<char> {
    let base = IMDS_ENDPOINT@ + "?api-version="@ + IMDS_API_VERSION@ + "&resource="@
        + STORAGE_RESOURCE@;
    match client_id {
        Some(id) => base + "&client_id="@ + id,
        None => base,
    }
}

/// The address of the metadata service, for the identity that `AZURE_CLIENT_ID` selects.
pub fn imds_url(client_id: &Option<String>) -> (out: String)
    ensures
        out@ == metadata_address(text::opt_view(*client_id)),
{
    let mut out = owned(IMDS_ENDPOINT);
    out.append("?api-version=");
    out.append(IMDS_API_VERSION);
    out.append("&resource=");
    out.append(STORAGE_RESOURCE);
    match client_id {
        Some(id) => {
            out.append("&client_id=");
            out.append(id.as_str());
        },
        None => {},
    }
    out
}

/// What the metadata service said. Where it cannot be reached the machine has no such identity.
pub fn get_storage_token_imds(reply: &Option<TokenReply>) -> (out: Answer)
    ensures
        match *reply {
            Some(r) => answers(out, reply_meaning(r, "IMDS"@, "IMDS"@)),
            None => out is Absent,
        },
{
    match reply {
        Some(r) => read_reply(r, "IMDS", "IMDS"),
        None => Answer::Absent,
    }
}

/// A token is exchanged at the tenant of the authority, with one `/` behind the authority.
pub proof fn law_exchange_address(authority: Seq<char>, tenant: Seq<char>)
    requires
        authority.len() > 0,
        authority.last() != '/',
    ensures
        exchange_address(authority, tenant) == authority + "/"@ + tenant + "/oauth2/v2.0/token"@,
        exchange_address(authority + seq!['/'], tenant) == exchange_address(authority, tenant),
{
    text::law_trimming_takes_the_character(seq!['/'], authority, '/');
    text::law_trimming_takes_the_character(Seq::empty(), authority, '/');
    assert(authority + Seq::<char>::empty() =~= authority);
}

/// A reply is a token exactly where the request succeeded and the body could be read; any other
/// is a failure that says what came back.
pub proof fn law_replies(r: TokenReply, reply_name: Seq<char>, token_name: Seq<char>)
    ensures
        reply_meaning(r, reply_name, token_name) is Ok <==> r.success && r.token is Ok,
        r.success && r.token is Ok ==> reply_meaning(r, reply_name, token_name)->Ok_0
            == r.token->Ok_0@,
        !r.success ==> reply_meaning(r, reply_name, token_name)->Err_0 == reply_name + " HTTP "@
            + r.status@ + ": "@ + r.body@,
        r.success && r.token is Err ==> reply_meaning(r, reply_name, token_name)->Err_0
            == "parse "@ + token_name + " token: "@ + r.token->Err_0@ + " body="@ + r.body@,
{
}

/// The metadata service is asked for a token for storage, and for that of a certain identity
/// exactly where one is named.
pub proof fn law_metadata_address(id: Seq<char>)
    ensures
        metadata_address(None)
            == "http://169.254.169.254/metadata/identity/oauth2/token"@ + "?api-version="@
            + "2018-02-01"@ + "&resource="@ + "https://storage.azure.com/"@,
        metadata_address(Some(id)) == metadata_address(None) + "&client_id="@ + id,
{
}

/// An answer is what the reply means: found where it is a token, and failed as was said where it
/// is none.
pub proof fn law_answers_say_what_the_reply_means(
    a: Answer,
    m: std::result::Result<Seq<char>, Seq<char>>,
)
    requires
        answers(a, m),
    ensures
        m matches Ok(t) ==> a is Found && a->Found_0@ == t,
        m matches Err(e) ==> a is Failed && a->Failed_0@ == e,
{
}

} // verus!
