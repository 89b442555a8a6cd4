use vstd::prelude::*;

verus! {

/// Errors of the library. Variants whose cause is an outside error keep that
/// cause's message.
#[derive(Debug, Clone)]
pub enum CreditError {
    RepoOpen { path: String },
    Git { message: String },
    InvalidDate { input: String },
    InvalidRevRange { range: String },
    GitHubRequest { message: String },
    GitHubApi { status: u16, body: String },
    NoGitHubRemote,
    InvalidGlob { pattern: String, reason: String },
    Serialize { message: String },
    MailmapRead { path: String },
    MailmapParse { path: String },
}

} // verus!
