//! Messages exchanged with chat models, token accounting, and the parts of a
//! chat-completion reply that the library reads.
use vstd::prelude::*;

use crate::error::{CrewError, CrewErrorView};
use crate::text::{is_blank, owned, push_char, push_str, str_is_blank};

verus! {

/// Who speaks in a message.
#[derive(Debug, Clone, Copy, PartialEq, Eq, Structural)]
pub enum MessageRole {
    System,
    User,
    Assistant,
    Tool,
}

/// The name of a role as chat-completion requests spell it.
pub open spec fn role_name(r: MessageRole) -> Seq<char> {
    match r {
        MessageRole::System => "system"@,
        MessageRole::User => "user"@,
        MessageRole::Assistant => "assistant"@,
        MessageRole::Tool => "tool"@,
    }
}

impl MessageRole {
    pub fn as_str(&self) -> (r: &'static str)
        ensures
            r@ == role_name(*self),
    {
        match self {
            MessageRole::System => "system",
            MessageRole::User => "user",
            MessageRole::Assistant => "assistant",
            MessageRole::Tool => "tool",
        }
    }
}

/// One message of a conversation with a model.
#[derive(Debug, Clone)]
pub struct ModelMessage {
    pub role: MessageRole,
    pub content: String,
}

/// The mathematical view of a [`ModelMessage`].
pub struct ModelMessageView {
    pub role: MessageRole,
    pub content: Seq<char>,
}

impl View for ModelMessage {
    type V = ModelMessageView;

    open spec fn view(&self) -> ModelMessageView {
        ModelMessageView { role: self.role, content: self.content@ }
    }
}

/// The views of a sequence of messages.
pub open spec fn messages_view(m: Seq<ModelMessage>) -> Seq<ModelMessageView> {
    m.map_values(|x: ModelMessage| x@)
}

impl ModelMessage {
    pub fn system(content: &str) -> (m: ModelMessage)
        ensures
            m@ == (ModelMessageView { role: MessageRole::System, content: content@ }),
    {
        ModelMessage { role: MessageRole::System, content: owned(content) }
    }

    pub fn user(content: &str) -> (m: ModelMessage)
        ensures
            m@ == (ModelMessageView { role: MessageRole::User, content: content@ }),
    {
        ModelMessage { role: MessageRole::User, content: owned(content) }
    }

    pub fn assistant(content: &str) -> (m: ModelMessage)
        ensures
            m@ == (ModelMessageView { role: MessageRole::Assistant, content: content@ }),
    {
        ModelMessage { role: MessageRole::Assistant, content: owned(content) }
    }

    pub fn tool(content: &str) -> (m: ModelMessage)
        ensures
            m@ == (ModelMessageView { role: MessageRole::Tool, content: content@ }),
    {
        ModelMessage { role: MessageRole::Tool, content: owned(content) }
    }

    /// A duplicate of this message.
    pub fn duplicate(&self) -> (m: ModelMessage)
        ensures
            m@ == self@,
    {
        ModelMessage { role: self.role, content: self.content.clone() }
    }
}

/// A duplicate of a list of messages.
pub fn clone_messages(v: &Vec<ModelMessage>) -> (r: Vec<ModelMessage>)
    ensures
        messages_view(r@) == messages_view(v@),
{
    let mut r: Vec<ModelMessage> = Vec::new();
    let mut i: usize = 0;
    while i < v.len()
        invariant
            i <= v.len(),
            r@.len() == i,
            forall|k: int| 0 <= k < i ==> #[trigger] r@[k]@ == v@[k]@,
        decreases v.len() - i,
    {
        r.push(v[i].duplicate());
        i = i + 1;
    }
    assert(messages_view(r@) =~= messages_view(v@));
    r
}

/// Tokens that a model reports having used.
#[derive(Debug, Clone, Copy, PartialEq, Eq, Structural)]
pub struct TokenUsage {
    pub prompt_tokens: u32,
    pub completion_tokens: u32,
    pub total_tokens: u32,
}

impl Default for TokenUsage {
    fn default() -> (r: TokenUsage)
        ensures
            r == (TokenUsage { prompt_tokens: 0, completion_tokens: 0, total_tokens: 0 }),
    {
        TokenUsage { prompt_tokens: 0, completion_tokens: 0, total_tokens: 0 }
    }
}

/// Adding `b` to `a` overflows no counter.
pub open spec fn usage_fits(a: TokenUsage, b: TokenUsage) -> bool {
    &&& a.prompt_tokens + b.prompt_tokens <= u32::MAX
    &&& a.completion_tokens + b.completion_tokens <= u32::MAX
    &&& a.total_tokens + b.total_tokens <= u32::MAX
}

/// The counters of `a` and `b` added.
pub open spec fn usage_sum(a: TokenUsage, b: TokenUsage) -> TokenUsage {
    TokenUsage {
        prompt_tokens: (a.prompt_tokens + b.prompt_tokens) as u32,
        completion_tokens: (a.completion_tokens + b.completion_tokens) as u32,
        total_tokens: (a.total_tokens + b.total_tokens) as u32,
    }
}

/// No usage.
pub open spec fn usage_zero() -> TokenUsage {
    TokenUsage { prompt_tokens: 0, completion_tokens: 0, total_tokens: 0 }
}

impl TokenUsage {
    /// Adds `rhs` to each counter (`+=`, which panics on overflow).
    pub fn add_assign(&mut self, rhs: TokenUsage)
        requires
            usage_fits(*old(self), rhs),
        ensures
            *final(self) == usage_sum(*old(self), rhs),
    {
        self.prompt_tokens = self.prompt_tokens + rhs.prompt_tokens;
        self.completion_tokens = self.completion_tokens + rhs.completion_tokens;
        self.total_tokens = self.total_tokens + rhs.total_tokens;
    }

    /// Whether adding `rhs` would overflow a counter.
    pub fn would_overflow(&self, rhs: &TokenUsage) -> (r: bool)
        ensures
            r == !usage_fits(*self, *rhs),
    {
        self.prompt_tokens.checked_add(rhs.prompt_tokens).is_none()
            || self.completion_tokens.checked_add(rhs.completion_tokens).is_none()
            || self.total_tokens.checked_add(rhs.total_tokens).is_none()
    }
}

/// What a model answered, and the tokens it reports.
#[derive(Debug, Clone)]
pub struct ModelResponse {
    pub content: String,
    pub usage: Option<TokenUsage>,
}

impl ModelResponse {
    /// A response with the given text and no usage.
    pub fn text(content: &str) -> (r: ModelResponse)
        ensures
            r.content@ == content@,
            r.usage is None,
    {
        ModelResponse { content: owned(content), usage: None }
    }
}

/// The usage that a response reports, zero where it reports none.
pub open spec fn reported_usage(u: Option<TokenUsage>) -> TokenUsage {
    match u {
        Some(x) => x,
        None => usage_zero(),
    }
}

/// The usage of a response, zero where it reports none (`unwrap_or_default`).
pub fn usage_or_zero(u: Option<TokenUsage>) -> (r: TokenUsage)
    ensures
        r == reported_usage(u),
{
    match u {
        Some(x) => x,
        None => TokenUsage { prompt_tokens: 0, completion_tokens: 0, total_tokens: 0 },
    }
}

/// The `usage` of a chat-completion reply, from its three counters: `None`
/// unless all three are present; each is cut to 32 bits as `as u32` does.
pub fn usage_from_counts(prompt: Option<u64>, completion: Option<u64>, total: Option<u64>) -> (r:
    Option<TokenUsage>)
    ensures
        r is Some <==> (prompt is Some && completion is Some && total is Some),
        r matches Some(u) ==> u.prompt_tokens == prompt->0 as u32 && u.completion_tokens
            == completion->0 as u32 && u.total_tokens == total->0 as u32,
{
    match (prompt, completion, total) {
        (Some(p), Some(c), Some(t)) => Some(
            TokenUsage { prompt_tokens: p as u32, completion_tokens: c as u32, total_tokens: t as u32 },
        ),
        _ => None,
    }
}

/// The `content` of the first choice of a chat-completion reply, as far as the
/// library reads it.
#[derive(Debug, Clone)]
pub enum ChatContent {
    /// A string.
    Text(String),
    /// An array of parts, each with its `text` where it has a string one.
    Parts(Vec<Option<String>>),
    /// Anything else.
    Other,
}

/// The texts of `parts`, each after a newline unless nothing precedes it.
pub open spec fn combine_parts(parts: Seq<Option<Seq<char>>>) -> Seq<char>
    decreases parts.len(),
{
    if parts.len() == 0 {
        Seq::empty()
    } else {
        let acc = combine_parts(parts.drop_last());
        match parts.last() {
            Some(t) => if acc.len() > 0 {
                acc + "\n"@ + t
            } else {
                acc + t
            },
            None => acc,
        }
    }
}

/// The views of a sequence of optional strings.
pub open spec fn opt_strings_view(v: Seq<Option<String>>) -> Seq<Option<Seq<char>>> {
    v.map_values(|o: Option<String>| crate::text::opt_view(o))
}

/// The assistant text of a reply's content: a string as it is; the texts of an
/// array of parts combined, unless that is empty; nothing otherwise.
pub open spec fn content_text(c: ChatContent) -> Option<Seq<char>> {
    match c {
        ChatContent::Text(t) => Some(t@),
        ChatContent::Parts(p) => {
            let combined = combine_parts(opt_strings_view(p@));
            if combined.len() > 0 {
                Some(combined)
            } else {
                None
            }
        },
        ChatContent::Other => None,
    }
}

/// The assistant text of a reply's content.
pub fn extract_content(c: &ChatContent) -> (r: Option<String>)
    ensures
        crate::text::opt_view(r) == content_text(*c),
{
    match c {
        ChatContent::Text(t) => Some(t.clone()),
        ChatContent::Parts(parts) => {
            let ghost pv = opt_strings_view(parts@);
            let mut combined = String::new();
            let mut i: usize = 0;
            while i < parts.len()
                invariant
                    i <= parts@.len(),
                    pv == opt_strings_view(parts@),
                    combined@ == combine_parts(pv.take(i as int)),
                decreases parts.len() - i,
            {
                assert(pv.take(i + 1).drop_last() =~= pv.take(i as int));
                match &parts[i] {
                    Some(text) => {
                        if !combined.as_str().is_empty() {
                            push_char(&mut combined, '\n');
                            assert(seq!['\n'] =~= "\n"@) by {
                                reveal_strlit("\n");
                            }
                        } else {
                            assert(combined@.len() == 0);
                        }
                        push_str(&mut combined, text.as_str());
                    },
                    None => {},
                }
                i = i + 1;
            }
            assert(pv.take(pv.len() as int) =~= pv);
            if combined.as_str().is_empty() {
                None
            } else {
                Some(combined)
            }
        },
        ChatContent::Other => None,
    }
}

/// `s` with every trailing `/` removed (`trim_end_matches('/')`).
pub open spec fn trim_trailing_slashes(s: Seq<char>) -> Seq<char>
    decreases s.len(),
{
    if s.len() > 0 && s.last() == '/' {
        trim_trailing_slashes(s.drop_last())
    } else {
        s
    }
}

/// What checking the settings of a chat-completion client gives: an error for
/// a blank model name, then for a blank key; otherwise the base URL without
/// trailing slashes.
pub open spec fn openai_settings_result(model: Seq<char>, api_key: Seq<char>, base_url: Seq<char>) -> Result<
    Seq<char>,
    CrewErrorView,
> {
    if is_blank(model) {
        Err(CrewErrorView::InvalidConfig("openai model name cannot be empty"@))
    } else if is_blank(api_key) {
        Err(CrewErrorView::InvalidConfig("openai api key cannot be empty"@))
    } else {
        Ok(trim_trailing_slashes(base_url))
    }
}

/// Checks the settings of a chat-completion client.
pub fn check_openai_settings(model: &str, api_key: &str, base_url: &str) -> (r: Result<
    String,
    CrewError,
>)
    ensures
        match r {
            Ok(u) => openai_settings_result(model@, api_key@, base_url@) == Ok::<
                Seq<char>,
                CrewErrorView,
            >(u@),
            Err(e) => openai_settings_result(model@, api_key@, base_url@) == Err::<
                Seq<char>,
                CrewErrorView,
            >(e@),
        },
{
    if str_is_blank(model) {
        return Err(CrewError::InvalidConfig(owned("openai model name cannot be empty")));
    }
    if str_is_blank(api_key) {
        return Err(CrewError::InvalidConfig(owned("openai api key cannot be empty")));
    }
    let v = crate::text::chars_of(base_url);
    let mut hi: usize = v.len();
    assert(v@.subrange(0, hi as int) =~= v@);
    while hi > 0 && v[hi - 1] == '/'
        invariant
            hi <= v@.len(),
            trim_trailing_slashes(v@) == trim_trailing_slashes(v@.subrange(0, hi as int)),
        decreases hi,
    {
        assert(v@.subrange(0, hi as int).drop_last() =~= v@.subrange(0, hi - 1));
        hi = hi - 1;
    }
    Ok(crate::text::string_from_range(&v, 0, hi))
}

} // verus!
