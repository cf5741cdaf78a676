//! The plain request and response shapes the command surface exchanges,
//! and the pure parts of handling them: notification text defaults, the
//! directory override rule, and the prompt-part assembly.

use vstd::prelude::*;

use crate::enhancer::trim_ws;

verus! {

/// A requested notification; both fields may be absent.
pub struct NotificationPayload {
    pub title: Option<String>,
    pub body: Option<String>,
}

/// The title and body actually shown: the given text, or the standing
/// defaults where a field is absent.
pub fn notification_text(payload: &Option<NotificationPayload>) -> (r: (String, String))
    ensures
        r.0@ == match *payload {
            Some(NotificationPayload { title: Some(t), .. }) => t@,
            _ => "OpenCode Agent"@,
        },
        r.1@ == match *payload {
            Some(NotificationPayload { body: Some(b), .. }) => b@,
            _ => "Task completed"@,
        },
{
    let title = match payload {
        Some(p) => match &p.title {
            Some(t) => t.clone(),
            None => String::from_str("OpenCode Agent"),
        },
        None => String::from_str("OpenCode Agent"),
    };
    let body = match payload {
        Some(p) => match &p.body {
            Some(b) => b.clone(),
            None => String::from_str("Task completed"),
        },
        None => String::from_str("Task completed"),
    };
    (title, body)
}

/// A message to send into a session.
pub struct SendMessagePayload {
    pub id: String,
    pub provider_id: String,
    pub model_id: String,
    pub text: String,
    pub agent: Option<String>,
    pub files: Option<Vec<FilePartPayload>>,
    pub message_id: Option<String>,
    pub directory: Option<String>,
}

/// One attached file.
pub struct FilePartPayload {
    pub kind: String,
    pub mime: String,
    pub filename: Option<String>,
    pub url: String,
}

/// A request to create a session.
pub struct SessionCreatePayload {
    pub title: Option<String>,
    pub parent_id: Option<String>,
    pub directory: Option<String>,
}

/// A request to retitle a session.
pub struct SessionUpdatePayload {
    pub id: String,
    pub title: Option<String>,
    pub directory: Option<String>,
}

/// A request to open a terminal.
pub struct CreateTerminalPayload {
    pub cols: u16,
    pub rows: u16,
    pub cwd: Option<String>,
}

/// The handle handed back for a new terminal.
pub struct CreateTerminalResponse {
    pub session_id: String,
}

/// The directory a request should act in: a non-blank override wins,
/// trimmed; otherwise whatever the client was configured with.
pub fn current_directory(configured: &Option<String>, override_dir: &Option<String>) -> (r:
    Option<String>)
    ensures
        match *override_dir {
            Some(d) => {
                if trim_ws(d@).len() > 0 {
                    match r {
                        Some(out) => out@ == trim_ws(d@),
                        None => false,
                    }
                } else {
                    match (r, configured) {
                        (Some(out), Some(c)) => out@ == c@,
                        (None, None) => true,
                        _ => false,
                    }
                }
            },
            None => match (r, configured) {
                (Some(out), Some(c)) => out@ == c@,
                (None, None) => true,
                _ => false,
            },
        },
{
    if let Some(d) = override_dir {
        let trimmed = crate::enhancer::trim_ws_str(d.as_str());
        if trimmed.as_str().unicode_len() != 0 {
            proof {
                assert(trimmed@.len() != 0);
            }
            return Some(trimmed);
        }
        proof {
            assert(trimmed@.len() == 0);
        }
    }
    match configured {
        Some(c) => Some(c.clone()),
        None => None,
    }
}

/// One part of a prompt: a block of text, or an attached file.
pub struct PromptPart {
    pub is_file: bool,
    pub text: String,
    pub mime: String,
    pub filename: Option<String>,
    pub url: String,
    pub name: String,
    pub prompt: String,
    pub agent: String,
}

/// The agent a part runs as: the requested one, else `user`.
pub open spec fn agent_text(agent: Option<Seq<char>>) -> Seq<char> {
    match agent {
        Some(a) => a,
        None => "user"@,
    }
}

/// Assemble the parts of a prompt request: one text part when the text is
/// not blank, then one part per attached file, all running as the
/// requested agent.
#[verifier::loop_isolation(false)]
pub fn build_prompt_parts(
    text: &String,
    agent: &Option<String>,
    files: Vec<FilePartPayload>,
) -> (parts: Vec<PromptPart>)
    ensures
        ({
            let has_text: int = if trim_ws(text@).len() > 0 {
                1
            } else {
                0
            };
            let ag = agent_text(crate::detect::opt_str_view(*agent));
            &&& parts@.len() == has_text + files@.len()
            &&& (trim_ws(text@).len() > 0 ==> {
                &&& parts@[0].is_file == false
                &&& parts@[0].text@ == text@
                &&& parts@[0].mime@ == "text/plain"@
                &&& parts@[0].filename is None
                &&& parts@[0].url@ == ""@
                &&& parts@[0].name@ == "user"@
                &&& parts@[0].prompt@ == text@
                &&& parts@[0].agent@ == ag
            })
            &&& forall|k: int|
                0 <= k < files@.len() ==> {
                    &&& (#[trigger] parts@[has_text + k]).is_file == true
                    &&& parts@[has_text + k].text@ == ""@
                    &&& parts@[has_text + k].mime@ == files@[k].mime@
                    &&& crate::detect::opt_str_view(parts@[has_text + k].filename)
                        == crate::detect::opt_str_view(files@[k].filename)
                    &&& parts@[has_text + k].url@ == files@[k].url@
                    &&& parts@[has_text + k].agent@ == ag
                }
        }),
{
    let mut parts: Vec<PromptPart> = Vec::new();
    let trimmed = crate::enhancer::trim_ws_str(text.as_str());
    let ghost has_text: int = if trim_ws(text@).len() > 0 {
        1int
    } else {
        0int
    };
    if trimmed.as_str().unicode_len() != 0 {
        let ag = match agent {
            Some(a) => a.clone(),
            None => String::from_str("user"),
        };
        parts.push(
            PromptPart {
                is_file: false,
                text: text.clone(),
                mime: String::from_str("text/plain"),
                filename: None,
                url: String::from_str(""),
                name: String::from_str("user"),
                prompt: text.clone(),
                agent: ag,
            },
        );
    }
    let n = files.len();
    let mut i: usize = 0;
    while i < n
        invariant
            0 <= i <= n,
            n == files@.len(),
            parts@.len() == has_text + i,
            trim_ws(text@).len() > 0 ==> {
                &&& parts@[0].is_file == false
                &&& parts@[0].text@ == text@
                &&& parts@[0].mime@ == "text/plain"@
                &&& parts@[0].filename is None
                &&& parts@[0].url@ == ""@
                &&& parts@[0].name@ == "user"@
                &&& parts@[0].prompt@ == text@
                &&& parts@[0].agent@ == agent_text(crate::detect::opt_str_view(*agent))
            },
            forall|k: int|
                0 <= k < i ==> {
                    &&& (#[trigger] parts@[has_text + k]).is_file == true
                    &&& parts@[has_text + k].text@ == ""@
                    &&& parts@[has_text + k].mime@ == files@[k].mime@
                    &&& crate::detect::opt_str_view(parts@[has_text + k].filename)
                        == crate::detect::opt_str_view(files@[k].filename)
                    &&& parts@[has_text + k].url@ == files@[k].url@
                    &&& parts@[has_text + k].agent@ == agent_text(
                        crate::detect::opt_str_view(*agent),
                    )
                },
        decreases n - i,
    {
        let f = &files[i];
        let ag = match agent {
            Some(a) => a.clone(),
            None => String::from_str("user"),
        };
        let filename = match &f.filename {
            Some(x) => Some(x.clone()),
            None => None,
        };
        parts.push(
            PromptPart {
                is_file: true,
                text: String::from_str(""),
                mime: f.mime.clone(),
                filename,
                url: f.url.clone(),
                name: String::from_str(""),
                prompt: String::from_str(""),
                agent: ag,
            },
        );
        i = i + 1;
    }
    parts
}

/// The directory remembered in a settings document: the trimmed
/// `lastDirectory` string, when it is there and not blank.
pub fn last_directory(settings: &crate::json::JsonValue) -> (r: Option<String>)
    ensures
        match r {
            Some(d) => ({
                match crate::json::json_get_str(settings@, "lastDirectory"@) {
                    Some(s) => trim_ws(s).len() > 0 && d@ == trim_ws(s),
                    None => false,
                }
            }),
            None => ({
                match crate::json::json_get_str(settings@, "lastDirectory"@) {
                    Some(s) => trim_ws(s).len() == 0,
                    None => true,
                }
            }),
        },
{
    match settings.get_str("lastDirectory") {
        Some(s) => {
            let trimmed = crate::enhancer::trim_ws_str(s.as_str());
            if trimmed.as_str().unicode_len() == 0 {
                None
            } else {
                Some(trimmed)
            }
        },
        None => None,
    }
}

} // verus!
