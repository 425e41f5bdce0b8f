//! Which credential a request is made with.
//!
//! The sources are tried in a fixed order: a token in the address, a shared key in the
//! environment, a token in the environment, the workload identity of a pod, the managed
//! identity of a machine, the token and last the key of the Azure command line. Without any of
//! them access is anonymous.
pub mod az_cli;
pub mod imds;
pub mod sas;

use crate::error::AzcpError;
use crate::text;
use crate::text::owned;
use vstd::prelude::*;

verus! {

pub enum Credential {
    SharedKey { account: String, key: String },
    Sas { token: String },
    Bearer { token: String },
    Anonymous,
}

impl Clone for Credential {
    fn clone(&self) -> (out: Self)
        ensures
            out == *self,
    {
        match self {
            Credential::SharedKey { account, key } => Credential::SharedKey {
                account: account.clone(),
                key: key.clone(),
            },
            Credential::Sas { token } => Credential::Sas { token: token.clone() },
            Credential::Bearer { token } => Credential::Bearer { token: token.clone() },
            Credential::Anonymous => Credential::Anonymous,
        }
    }
}

/// A credential over plain text.
pub enum Secret {
    SharedKey { account: Seq<char>, key: Seq<char> },
    Sas { token: Seq<char> },
    Bearer { token: Seq<char> },
    Anonymous,
}

impl View for Credential {
    type V = Secret;

    open spec fn view(&self) -> Secret {
        match *self {
            Credential::SharedKey { account, key } => Secret::SharedKey {
                account: account@,
                key: key@,
            },
            Credential::Sas { token } => Secret::Sas { token: token@ },
            Credential::Bearer { token } => Secret::Bearer { token: token@ },
            Credential::Anonymous => Secret::Anonymous,
        }
    }
}

pub open spec fn opt_secret(c: Option<Credential>) -> Option<Secret> {
    match c {
        Some(c) => Some(c@),
        None => None,
    }
}

/// What the environment says: `AZURE_STORAGE_ACCOUNT`, `AZURE_STORAGE_KEY` and
/// `AZURE_STORAGE_SAS_TOKEN`.
pub struct Environment {
    pub account: Option<String>,
    pub key: Option<String>,
    pub sas_token: Option<String>,
}

/// The credential in the environment.
pub open spec fn env_secret(env: Environment) -> Option<Secret> {
    match (env.account, env.key) {
        (Some(account), Some(key)) => Some(Secret::SharedKey { account: account@, key: key@ }),
        _ => match env.sas_token {
            Some(token) => Some(Secret::Sas { token: token@ }),
            None => None,
        },
    }
}

/// A source outside the process that may be asked for a credential, in the order of asking.
#[derive(Debug, Clone, Copy, PartialEq, Eq)]
pub enum Probe {
    Workload,
    ManagedIdentity,
    CliToken,
    CliKey,
}

/// What such a source answered.
pub enum Answer {
    /// The source does not apply here.
    Absent,
    /// The token, or for the last source the key.
    Found(String),
    /// The source applies and failed.
    Failed(String),
}

/// What to do next to find a credential.
pub enum Step {
    /// This is the credential.
    Use(Credential),
    /// No source has one.
    Nothing,
    /// Ask this source.
    Ask(Probe),
    /// A source that applies has failed.
    Fail(AzcpError),
}

/// A step over plain text.
pub enum Choice {
    Use(Secret),
    Nothing,
    Ask(Probe),
    Fail(Seq<char>),
}

/// Whether a step is what the choice says.
pub open spec fn is_choice(s: Step, c: Choice) -> bool {
    match (s, c) {
        (Step::Use(a), Choice::Use(b)) => a@ == b,
        (Step::Nothing, Choice::Nothing) => true,
        (Step::Ask(a), Choice::Ask(b)) => a == b,
        (Step::Fail(AzcpError::Auth(m)), Choice::Fail(n)) => m@ == n,
        _ => false,
    }
}

/// What follows from the answers so far, in the order of asking. A failure of an identity that
/// applies is final, so that it is seen as what it is; a failure of the command line only means
/// that the next source is asked.
pub open spec fn ambient_choice(account: Seq<char>, answers: Seq<Answer>) -> Choice {
    if answers.len() == 0 {
        Choice::Ask(Probe::Workload)
    } else if answers[0] is Found {
        Choice::Use(Secret::Bearer { token: answers[0]->Found_0@ })
    } else if answers[0] is Failed {
        Choice::Fail(answers[0]->Failed_0@)
    } else if answers.len() == 1 {
        Choice::Ask(Probe::ManagedIdentity)
    } else if answers[1] is Found {
        Choice::Use(Secret::Bearer { token: answers[1]->Found_0@ })
    } else if answers[1] is Failed {
        Choice::Fail(answers[1]->Failed_0@)
    } else if answers.len() == 2 {
        Choice::Ask(Probe::CliToken)
    } else if answers[2] is Found {
        Choice::Use(Secret::Bearer { token: answers[2]->Found_0@ })
    } else if answers.len() == 3 {
        Choice::Ask(Probe::CliKey)
    } else if answers[3] is Found {
        Choice::Use(Secret::SharedKey { account, key: answers[3]->Found_0@ })
    } else {
        Choice::Nothing
    }
}

/// What follows from the environment, what an earlier search of this process found, and the
/// answers so far.
pub open spec fn env_or_cli_choice(
    env: Environment,
    cached: Option<Secret>,
    account: Seq<char>,
    answers: Seq<Answer>,
) -> Choice {
    match env_secret(env) {
        Some(s) => Choice::Use(s),
        None => match cached {
            Some(s) => Choice::Use(s),
            None => ambient_choice(account, answers),
        },
    }
}

/// What follows from all sources, anonymous access being the last.
pub open spec fn final_choice(
    env: Environment,
    cached: Option<Secret>,
    account: Seq<char>,
    url_token: Option<Seq<char>>,
    answers: Seq<Answer>,
) -> Choice {
    match url_token {
        Some(token) => Choice::Use(Secret::Sas { token }),
        None => match env_or_cli_choice(env, cached, account, answers) {
            Choice::Nothing => Choice::Use(Secret::Anonymous),
            other => other,
        },
    }
}

/// What the process keeps for later searches once a search has these answers: what this one
/// found outside the process. Nothing found and a failure are not kept, and neither are tokens in
/// the address and credentials in the environment, which are not searched for.
pub open spec fn kept_secret(
    env: Environment,
    cached: Option<Secret>,
    account: Seq<char>,
    url_token: Option<Seq<char>>,
    answers: Seq<Answer>,
) -> Option<Secret> {
    if url_token is Some || env_secret(env) is Some || cached is Some {
        cached
    } else {
        match ambient_choice(account, answers) {
            Choice::Use(s) => Some(s),
            _ => None,
        }
    }
}

impl Credential {
    /// The credential in the environment: a shared key, else a token.
    pub fn from_env(env: &Environment) -> (out: Option<Credential>)
        ensures
            opt_secret(out) == env_secret(*env),
    {
        match (&env.account, &env.key) {
            (Some(account), Some(key)) => {
                return Some(Credential::SharedKey { account: account.clone(), key: key.clone() });
            },
            _ => {},
        }
        match &env.sas_token {
            Some(token) => Some(Credential::Sas { token: token.clone() }),
            None => None,
        }
    }

    /// The next step of the search outside the process.
    fn resolve_ambient(account_name: &str, answers: &Vec<Answer>) -> (out: Step)
        ensures
            is_choice(out, ambient_choice(account_name@, answers@)),
    {
        if answers.len() == 0 {
            return Step::Ask(Probe::Workload);
        }
        match &answers[0] {
            Answer::Found(token) => return Step::Use(Credential::Bearer { token: token.clone() }),
            Answer::Failed(e) => return Step::Fail(AzcpError::Auth(e.clone())),
            Answer::Absent => {},
        }
        if answers.len() == 1 {
            return Step::Ask(Probe::ManagedIdentity);
        }
        match &answers[1] {
            Answer::Found(token) => return Step::Use(Credential::Bearer { token: token.clone() }),
            Answer::Failed(e) => return Step::Fail(AzcpError::Auth(e.clone())),
            Answer::Absent => {},
        }
        if answers.len() == 2 {
            return Step::Ask(Probe::CliToken);
        }
        match &answers[2] {
            Answer::Found(token) => return Step::Use(Credential::Bearer { token: token.clone() }),
            _ => {},
        }
        if answers.len() == 3 {
            return Step::Ask(Probe::CliKey);
        }
        match &answers[3] {
            Answer::Found(key) => Step::Use(
                Credential::SharedKey { account: owned(account_name), key: key.clone() },
            ),
            _ => Step::Nothing,
        }
    }

    /// The next step of the search without a token in the address. `cached` is what an earlier
    /// search outside the process found.
    pub fn from_env_or_cli(
        env: &Environment,
        cached: &Option<Credential>,
        account_name: &str,
        answers: &Vec<Answer>,
    ) -> (out: Step)
        ensures
            is_choice(
                out,
                env_or_cli_choice(*env, opt_secret(*cached), account_name@, answers@),
            ),
    {
        match Credential::from_env(env) {
            Some(c) => return Step::Use(c),
            None => {},
        }
        match cached {
            Some(c) => return Step::Use(c.clone()),
            None => {},
        }
        Credential::resolve_ambient(account_name, answers)
    }

    /// The next step of the whole search. It ends in a credential, anonymous access being the
    /// last, or in the failure of a source that applies.
    pub fn resolve_or_anonymous(
        env: &Environment,
        cached: &Option<Credential>,
        account_name: &str,
        sas_token: Option<&str>,
        answers: &Vec<Answer>,
    ) -> (out: Step)
        ensures
            is_choice(
                out,
                final_choice(
                    *env,
                    opt_secret(*cached),
                    account_name@,
                    text::opt_str_view(sas_token),
                    answers@,
                ),
            ),
            !(out is Nothing),
    {
        match sas_token {
            Some(token) => return Step::Use(Credential::Sas { token: owned(token) }),
            None => {},
        }
        match Credential::from_env_or_cli(env, cached, account_name, answers) {
            Step::Nothing => Step::Use(Credential::Anonymous),
            other => other,
        }
    }
}

/// What the process keeps for later searches once a search has these answers.
pub fn kept_after(
    env: &Environment,
    cached: &Option<Credential>,
    account_name: &str,
    sas_token: Option<&str>,
    answers: &Vec<Answer>,
) -> (out: Option<Credential>)
    ensures
        opt_secret(out) == kept_secret(
            *env,
            opt_secret(*cached),
            account_name@,
            text::opt_str_view(sas_token),
            answers@,
        ),
{
    match cached {
        Some(c) => return Some(c.clone()),
        None => {},
    }
    if sas_token.is_some() || Credential::from_env(env).is_some() {
        return None;
    }
    match Credential::resolve_ambient(account_name, answers) {
        Step::Use(c) => Some(c),
        _ => None,
    }
}

/// Of two searches in one process, for the same account or for two: a credential in the
/// environment is used both times, asks no source and leaves what is kept alone; what the first
/// search finds outside the process is used by the second, which asks no source; and where the
/// first finds nothing or fails, nothing is kept and the second asks again.
pub proof fn law_found_credential_is_reused(
    env: Environment,
    first_account: Seq<char>,
    first_answers: Seq<Answer>,
    second_account: Seq<char>,
    second_answers: Seq<Answer>,
)
    ensures
        ({
            let first = env_or_cli_choice(env, None, first_account, first_answers);
            let kept = kept_secret(env, None, first_account, None, first_answers);
            let second = env_or_cli_choice(env, kept, second_account, second_answers);
            &&& env_secret(env) matches Some(e) ==> first == Choice::Use(e) && kept is None
                && second == Choice::Use(e)
            &&& env_secret(env) is None && first is Use ==> kept == Some(first->Use_0) && second
                == first
            &&& first is Nothing || first is Fail ==> kept is None && second == ambient_choice(
                second_account,
                second_answers,
            ) && (second_answers.len() == 0 ==> second == Choice::Ask(Probe::Workload))
        }),
{
}

/// What the sources have to offer, in the order in which they are preferred.
pub open spec fn offers(
    env: Environment,
    account: Seq<char>,
    url_token: Option<Seq<char>>,
    answers: Seq<Answer>,
) -> Seq<Option<Secret>> {
    seq![
        match url_token {
            Some(token) => Some(Secret::Sas { token }),
            None => None,
        },
        match (env.account, env.key) {
            (Some(a), Some(k)) => Some(Secret::SharedKey { account: a@, key: k@ }),
            _ => None,
        },
        match env.sas_token {
            Some(token) => Some(Secret::Sas { token: token@ }),
            None => None,
        },
        bearer_offer(answers[0]),
        bearer_offer(answers[1]),
        bearer_offer(answers[2]),
        match answers[3] {
            Answer::Found(k) => Some(Secret::SharedKey { account, key: k@ }),
            _ => None,
        },
    ]
}

pub open spec fn bearer_offer(a: Answer) -> Option<Secret> {
    match a {
        Answer::Found(t) => Some(Secret::Bearer { token: t@ }),
        _ => None,
    }
}

/// The first offer, anonymous access where there is none.
pub open spec fn first_offer(offers: Seq<Option<Secret>>) -> Secret
    decreases offers.len(),
{
    if offers.len() == 0 {
        Secret::Anonymous
    } else {
        match offers[0] {
            Some(s) => s,
            None => first_offer(offers.drop_first()),
        }
    }
}

/// The search takes the first source that has something to offer, in the documented order, and
/// access is anonymous only where none has.
pub proof fn law_first_source_wins(
    env: Environment,
    account: Seq<char>,
    url_token: Option<Seq<char>>,
    answers: Seq<Answer>,
)
    requires
        answers.len() == 4,
        !(answers[0] is Failed),
        !(answers[1] is Failed),
    ensures
        final_choice(env, None, account, url_token, answers) == Choice::Use(
            first_offer(offers(env, account, url_token, answers)),
        ),
{
    reveal_with_fuel(first_offer, 8);
    let o = offers(env, account, url_token, answers);
    let o1 = o.drop_first();
    let o2 = o1.drop_first();
    let o3 = o2.drop_first();
    let o4 = o3.drop_first();
    let o5 = o4.drop_first();
    let o6 = o5.drop_first();
    assert(o6.drop_first().len() == 0);
    assert(o[1] == o1[0] && o[2] == o2[0] && o[3] == o3[0] && o[4] == o4[0] && o[5] == o5[0]
        && o[6] == o6[0]);
}

/// A failure of an identity that applies is reported: it never turns into anonymous access.
pub proof fn law_failure_is_not_anonymous(
    env: Environment,
    account: Seq<char>,
    answers: Seq<Answer>,
)
    requires
        env_secret(env) is None,
        answers.len() > 0,
        answers[0] is Failed || answers.len() > 1 && answers[0] is Absent && answers[1] is Failed,
    ensures
        final_choice(env, None, account, None, answers) is Fail,
{
}

/// The sources outside the process are asked one after the other, and after the fourth answer
/// none is asked again.
pub proof fn law_search_ends(account: Seq<char>, answers: Seq<Answer>)
    ensures
        answers.len() >= 4 ==> !(ambient_choice(account, answers) is Ask),
        ambient_choice(account, answers) is Ask ==> ambient_choice(account, answers) == Choice::Ask(
            seq![Probe::Workload, Probe::ManagedIdentity, Probe::CliToken, Probe::CliKey][
                answers.len() as int
            ],
        ),
{
}

/// A key in the environment counts only together with the account, and comes before a token.
pub proof fn law_environment_secrets(env: Environment)
    ensures
        env.account is Some && env.key is Some ==> env_secret(env) == Some(
            Secret::SharedKey { account: env.account->0@, key: env.key->0@ },
        ),
        !(env.account is Some && env.key is Some) && env.sas_token is Some ==> env_secret(env)
            == Some(Secret::Sas { token: env.sas_token->0@ }),
        !(env.account is Some && env.key is Some) && env.sas_token is None ==> env_secret(env)
            is None,
{
}

/// The failure of an identity that applies is reported as it was said; that of the command line
/// is not, the next source is asked instead.
pub proof fn law_failures_are_reported_as_they_were_said(
    account: Seq<char>,
    answers: Seq<Answer>,
)
    ensures
        answers.len() > 0 && answers[0] is Failed ==> ambient_choice(account, answers)
            == Choice::Fail(answers[0]->Failed_0@),
        answers.len() > 1 && answers[0] is Absent && answers[1] is Failed ==> ambient_choice(
            account,
            answers,
        ) == Choice::Fail(answers[1]->Failed_0@),
        answers.len() == 3 && answers[0] is Absent && answers[1] is Absent && !(answers[2]
            is Found) ==> ambient_choice(account, answers) == Choice::Ask(Probe::CliKey),
        answers.len() == 4 && answers[0] is Absent && answers[1] is Absent && !(answers[2]
            is Found) && !(answers[3] is Found) ==> ambient_choice(account, answers)
            == Choice::Nothing,
{
}

/// A token in the address comes before everything else and is not kept; what was found before is
/// used again and stays.
pub proof fn law_address_token_comes_first(
    env: Environment,
    cached: Option<Secret>,
    account: Seq<char>,
    token: Seq<char>,
    answers: Seq<Answer>,
)
    ensures
        final_choice(env, cached, account, Some(token), answers) == Choice::Use(
            Secret::Sas { token },
        ),
        kept_secret(env, cached, account, Some(token), answers) == cached,
        cached matches Some(s) ==> kept_secret(env, cached, account, None, answers) == Some(s),
        env_secret(env) is None && cached is Some ==> final_choice(
            env,
            cached,
            account,
            None,
            answers,
        ) == Choice::Use(cached->0),
{
}

/// A step uses the secret that was chosen, asks the source that was chosen, or fails as was said.
pub proof fn law_steps_follow_the_choice(s: Step, c: Choice)
    requires
        is_choice(s, c),
    ensures
        s matches Step::Use(a) ==> c == Choice::Use(a@),
        s matches Step::Ask(p) ==> c == Choice::Ask(p),
        s is Nothing ==> c is Nothing,
        s matches Step::Fail(e) ==> e is Auth && c == Choice::Fail(e->Auth_0@),
{
}

/// A credential says what it holds.
pub proof fn law_credentials_say_what_they_hold(account: String, key: String, token: String)
    ensures
        (Credential::SharedKey { account, key })@ == (Secret::SharedKey {
            account: account@,
            key: key@,
        }),
        (Credential::Sas { token })@ == (Secret::Sas { token: token@ }),
        (Credential::Bearer { token })@ == (Secret::Bearer { token: token@ }),
        Credential::Anonymous@ == Secret::Anonymous,
        opt_secret(None) is None,
        opt_secret(Some(Credential::Bearer { token })) == Some(Secret::Bearer { token: token@ }),
{
}

} // verus!
