//! Tokens and keys from the Azure command line.
use crate::auth::Answer;
use crate::text;
use crate::text::owned;
use vstd::prelude::*;

verus! {

/// What a run of the command line gave: whether it succeeded, what it wrote to standard error,
/// and the secret in its output or why there is none.
pub struct CliReply {
    pub success: bool,
    pub stderr: String,
    pub secret: std::result::Result<String, String>,
}

/// What a reply says.
pub open spec fn reply_meaning(
    r: CliReply,
    failed: Seq<char>,
    unreadable: Seq<char>,
) -> std::result::Result<Seq<char>, Seq<char>> {
    if !r.success {
        Err(failed + r.stderr@)
    } else {
        match r.secret {
            Ok(t) => Ok(t@),
            Err(e) => Err(unreadable + e@),
        }
    }
}

fn read_reply(reply: &CliReply, failed: &str, unreadable: &str) -> (out: Answer)
    ensures
        crate::auth::imds::answers(out, reply_meaning(*reply, failed@, unreadable@)),
{
    if !reply.success {
        let mut e = owned(failed);
        e.append(reply.stderr.as_str());
        return Answer::Failed(e);
    }
    match &reply.secret {
        Ok(t) => Answer::Found(t.clone()),
        Err(m) => {
            let mut e = owned(unreadable);
            e.append(m.as_str());
            Answer::Failed(e)
        },
    }
}

/// The arguments that ask for a token.
pub fn token_command() -> (out: Vec<String>)
    ensures
        text::views(out@) == seq![
            "account"@,
            "get-access-token"@,
            "--resource"@,
            "https://storage.azure.com/"@,
            "--query"@,
            "{accessToken: accessToken}"@,
            "-o"@,
            "json"@,
        ],
{
    let mut out: Vec<String> = Vec::new();
    out.push(owned("account"));
    out.push(owned("get-access-token"));
    out.push(owned("--resource"));
    out.push(owned("https://storage.azure.com/"));
    out.push(owned("--query"));
    out.push(owned("{accessToken: accessToken}"));
    out.push(owned("-o"));
    out.push(owned("json"));
    assert(text::views(out@) =~= seq![
        "account"@,
        "get-access-token"@,
        "--resource"@,
        "https://storage.azure.com/"@,
        "--query"@,
        "{accessToken: accessToken}"@,
        "-o"@,
        "json"@,
    ]);
    out
}

/// What the command line said when asked for a token.
pub fn get_storage_token(reply: &CliReply) -> (out: Answer)
    ensures
        crate::auth::imds::answers(
            out,
            reply_meaning(*reply, "az CLI token error: "@, "failed to parse az token: "@),
        ),
{
    read_reply(reply, "az CLI token error: ", "failed to parse az token: ")
}

/// The arguments that ask for the key of an account.
pub fn key_command(account_name: &str) -> (out: Vec<String>)
    ensures
        text::views(out@) == seq![
            "storage"@,
            "account"@,
            "keys"@,
            "list"@,
            "--account-name"@,
            account_name@,
            "--query"@,
            "[0]"@,
            "-o"@,
            "json"@,
        ],
{
    let mut out: Vec<String> = Vec::new();
    out.push(owned("storage"));
    out.push(owned("account"));
    out.push(owned("keys"));
    out.push(owned("list"));
    out.push(owned("--account-name"));
    out.push(owned(account_name));
    out.push(owned("--query"));
    out.push(owned("[0]"));
    out.push(owned("-o"));
    out.push(owned("json"));
    assert(text::views(out@) =~= seq![
        "storage"@,
        "account"@,
        "keys"@,
        "list"@,
        "--account-name"@,
        account_name@,
        "--query"@,
        "[0]"@,
        "-o"@,
        "json"@,
    ]);
    out
}

/// What the command line said when asked for a key.
pub fn get_account_key(reply: &CliReply) -> (out: Answer)
    ensures
        crate::auth::imds::answers(
            out,
            reply_meaning(
                *reply,
                "az storage account keys list failed: "@,
                "failed to parse az key response: "@,
            ),
        ),
{
    read_reply(
        reply,
        "az storage account keys list failed: ",
        "failed to parse az key response: ",
    )
}

/// A reply is a secret exactly where the command succeeded and its output could be read; any
/// other is a failure that says what went wrong.
pub proof fn law_replies(r: CliReply, failed: Seq<char>, unreadable: Seq<char>)
    ensures
        reply_meaning(r, failed, unreadable) is Ok <==> r.success && r.secret is Ok,
        r.success && r.secret is Ok ==> reply_meaning(r, failed, unreadable)->Ok_0
            == r.secret->Ok_0@,
        !r.success ==> reply_meaning(r, failed, unreadable)->Err_0 == failed + r.stderr@,
        r.success && r.secret is Err ==> reply_meaning(r, failed, unreadable)->Err_0 == unreadable
            + r.secret->Err_0@,
{
}

} // verus!
