//! Chat prompt formatting.
//!
//! Formats a conversation into a single prompt string in one of the
//! supported template dialects. The exact output strings are specified
//! character-for-character by the spec functions below.

use vstd::prelude::*;
use vstd::string::StringExecFns;
use crate::{messages_model, Message, MessageModel, Role};

verus! {

/// Chat message formatting dialect.
#[derive(Debug, Clone, Copy)]
pub enum ChatTemplate {
    Llama3,
    ChatML,
    Phi3,
    Gemma,
    Raw,
}

impl Default for ChatTemplate {
    /// The default dialect.
    fn default() -> (t: Self)
        ensures
            t == ChatTemplate::Llama3,
    {
        ChatTemplate::Llama3
    }
}

/// The lowercase name of a role.
pub open spec fn role_name(r: Role) -> Seq<char> {
    match r {
        Role::System => "system"@,
        Role::User => "user"@,
        Role::Assistant => "assistant"@,
        Role::Tool => "tool"@,
    }
}

/// The lowercase name of a role, as a string slice.
fn role_label(r: &Role) -> (s: &'static str)
    ensures
        s@ == role_name(*r),
{
    match r {
        Role::System => "system",
        Role::User => "user",
        Role::Assistant => "assistant",
        Role::Tool => "tool",
    }
}

/// One message in the Llama 3 dialect.
pub open spec fn llama3_item(m: MessageModel) -> Seq<char> {
    "<|start_header_id|>"@ + role_name(m.role) + "<|end_header_id|>\n\n"@ + m.content
        + "<|eot_id|>"@
}

/// All messages in the Llama 3 dialect.
pub open spec fn llama3_body(ms: Seq<MessageModel>) -> Seq<char>
    decreases ms.len(),
{
    if ms.len() == 0 {
        Seq::empty()
    } else {
        llama3_body(ms.drop_last()) + llama3_item(ms.last())
    }
}

/// A full Llama 3 prompt.
pub open spec fn spec_llama3(ms: Seq<MessageModel>) -> Seq<char> {
    "<|begin_of_text|>"@ + llama3_body(ms) + "<|start_header_id|>assistant<|end_header_id|>\n\n"@
}

/// One message in the ChatML dialect.
pub open spec fn chatml_item(m: MessageModel) -> Seq<char> {
    "<|im_start|>"@ + role_name(m.role) + "\n"@ + m.content + "<|im_end|>\n"@
}

/// All messages in the ChatML dialect.
pub open spec fn chatml_body(ms: Seq<MessageModel>) -> Seq<char>
    decreases ms.len(),
{
    if ms.len() == 0 {
        Seq::empty()
    } else {
        chatml_body(ms.drop_last()) + chatml_item(ms.last())
    }
}

/// A full ChatML prompt.
pub open spec fn spec_chatml(ms: Seq<MessageModel>) -> Seq<char> {
    chatml_body(ms) + "<|im_start|>assistant\n"@
}

/// One message in the Phi-3 dialect.
pub open spec fn phi3_item(m: MessageModel) -> Seq<char> {
    let tag = match m.role {
        Role::System => "<|system|>\n"@,
        Role::User => "<|user|>\n"@,
        Role::Assistant => "<|assistant|>\n"@,
        Role::Tool => "<|tool|>\n"@,
    };
    tag + m.content + "<|end|>\n"@
}

/// All messages in the Phi-3 dialect.
pub open spec fn phi3_body(ms: Seq<MessageModel>) -> Seq<char>
    decreases ms.len(),
{
    if ms.len() == 0 {
        Seq::empty()
    } else {
        phi3_body(ms.drop_last()) + phi3_item(ms.last())
    }
}

/// A full Phi-3 prompt.
pub open spec fn spec_phi3(ms: Seq<MessageModel>) -> Seq<char> {
    phi3_body(ms) + "<|assistant|>\n"@
}

/// One message in the Gemma dialect: assistant turns are "model", every
/// other role is folded into "user".
pub open spec fn gemma_item(m: MessageModel) -> Seq<char> {
    match m.role {
        Role::Assistant => "<start_of_turn>model\n"@ + m.content + "<end_of_turn>\n"@,
        _ => "<start_of_turn>user\n"@ + m.content + "<end_of_turn>\n"@,
    }
}

/// All messages in the Gemma dialect.
pub open spec fn gemma_body(ms: Seq<MessageModel>) -> Seq<char>
    decreases ms.len(),
{
    if ms.len() == 0 {
        Seq::empty()
    } else {
        gemma_body(ms.drop_last()) + gemma_item(ms.last())
    }
}

/// A full Gemma prompt.
pub open spec fn spec_gemma(ms: Seq<MessageModel>) -> Seq<char> {
    gemma_body(ms) + "<start_of_turn>model\n"@
}

/// Raw dialect: the message contents joined with newlines.
pub open spec fn spec_raw(ms: Seq<MessageModel>) -> Seq<char>
    decreases ms.len(),
{
    if ms.len() == 0 {
        Seq::empty()
    } else if ms.len() == 1 {
        ms.last().content
    } else {
        spec_raw(ms.drop_last()) + "\n"@ + ms.last().content
    }
}

/// The prompt for a conversation under a given template.
pub open spec fn spec_chat_prompt(ms: Seq<MessageModel>, template: ChatTemplate) -> Seq<char> {
    match template {
        ChatTemplate::Llama3 => spec_llama3(ms),
        ChatTemplate::ChatML => spec_chatml(ms),
        ChatTemplate::Phi3 => spec_phi3(ms),
        ChatTemplate::Gemma => spec_gemma(ms),
        ChatTemplate::Raw => spec_raw(ms),
    }
}

/// Format a conversation into a prompt string.
pub fn format_chat_prompt(messages: &[Message], template: ChatTemplate) -> (r: String)
    ensures
        r@ == spec_chat_prompt(messages_model(messages@), template),
{
    match template {
        ChatTemplate::Llama3 => format_llama3(messages),
        ChatTemplate::ChatML => format_chatml(messages),
        ChatTemplate::Phi3 => format_phi3(messages),
        ChatTemplate::Gemma => format_gemma(messages),
        ChatTemplate::Raw => format_raw(messages),
    }
}

/// Format in the Llama 3 dialect.
pub fn format_llama3(messages: &[Message]) -> (r: String)
    ensures
        r@ == spec_llama3(messages_model(messages@)),
{
    let ghost ms = messages_model(messages@);
    let mut prompt: String = "<|begin_of_text|>".to_owned();
    let n = messages.len();
    let mut i: usize = 0;
    while i < n
        invariant
            n == messages@.len(),
            ms == messages_model(messages@),
            0 <= i <= n,
            prompt@ == "<|begin_of_text|>"@ + llama3_body(ms.take(i as int)),
        decreases n - i,
    {
        let m = &messages[i];
        prompt.append("<|start_header_id|>");
        prompt.append(role_label(&m.role));
        prompt.append("<|end_header_id|>\n\n");
        prompt.append(m.content.as_str());
        prompt.append("<|eot_id|>");
        proof {
            let t = ms.take(i + 1);
            assert(t.drop_last() =~= ms.take(i as int));
            assert(t.last() == m@);
            assert(prompt@ =~= "<|begin_of_text|>"@ + llama3_body(t));
        }
        i = i + 1;
    }
    proof {
        assert(ms.take(n as int) =~= ms);
    }
    prompt.append("<|start_header_id|>assistant<|end_header_id|>\n\n");
    proof {
        assert(prompt@ =~= spec_llama3(ms));
    }
    prompt
}

/// Format in the ChatML dialect.
pub fn format_chatml(messages: &[Message]) -> (r: String)
    ensures
        r@ == spec_chatml(messages_model(messages@)),
{
    let ghost ms = messages_model(messages@);
    let mut prompt = String::new();
    let n = messages.len();
    let mut i: usize = 0;
    while i < n
        invariant
            n == messages@.len(),
            ms == messages_model(messages@),
            0 <= i <= n,
            prompt@ == chatml_body(ms.take(i as int)),
        decreases n - i,
    {
        let m = &messages[i];
        prompt.append("<|im_start|>");
        prompt.append(role_label(&m.role));
        prompt.append("\n");
        prompt.append(m.content.as_str());
        prompt.append("<|im_end|>\n");
        proof {
            let t = ms.take(i + 1);
            assert(t.drop_last() =~= ms.take(i as int));
            assert(t.last() == m@);
            assert(prompt@ =~= chatml_body(t));
        }
        i = i + 1;
    }
    proof {
        assert(ms.take(n as int) =~= ms);
    }
    prompt.append("<|im_start|>assistant\n");
    proof {
        assert(prompt@ =~= spec_chatml(ms));
    }
    prompt
}

/// Format in the Phi-3 dialect.
pub fn format_phi3(messages: &[Message]) -> (r: String)
    ensures
        r@ == spec_phi3(messages_model(messages@)),
{
    let ghost ms = messages_model(messages@);
    let mut prompt = String::new();
    let n = messages.len();
    let mut i: usize = 0;
    while i < n
        invariant
            n == messages@.len(),
            ms == messages_model(messages@),
            0 <= i <= n,
            prompt@ == phi3_body(ms.take(i as int)),
        decreases n - i,
    {
        let m = &messages[i];
        match m.role {
            Role::System => prompt.append("<|system|>\n"),
            Role::User => prompt.append("<|user|>\n"),
            Role::Assistant => prompt.append("<|assistant|>\n"),
            Role::Tool => prompt.append("<|tool|>\n"),
        }
        prompt.append(m.content.as_str());
        prompt.append("<|end|>\n");
        proof {
            let t = ms.take(i + 1);
            assert(t.drop_last() =~= ms.take(i as int));
            assert(t.last() == m@);
            assert(prompt@ =~= phi3_body(t));
        }
        i = i + 1;
    }
    proof {
        assert(ms.take(n as int) =~= ms);
    }
    prompt.append("<|assistant|>\n");
    proof {
        assert(prompt@ =~= spec_phi3(ms));
    }
    prompt
}

/// Format in the Gemma dialect.
pub fn format_gemma(messages: &[Message]) -> (r: String)
    ensures
        r@ == spec_gemma(messages_model(messages@)),
{
    let ghost ms = messages_model(messages@);
    let mut prompt = String::new();
    let n = messages.len();
    let mut i: usize = 0;
    while i < n
        invariant
            n == messages@.len(),
            ms == messages_model(messages@),
            0 <= i <= n,
            prompt@ == gemma_body(ms.take(i as int)),
        decreases n - i,
    {
        let m = &messages[i];
        match m.role {
            Role::Assistant => prompt.append("<start_of_turn>model\n"),
            _ => prompt.append("<start_of_turn>user\n"),
        }
        prompt.append(m.content.as_str());
        prompt.append("<end_of_turn>\n");
        proof {
            let t = ms.take(i + 1);
            assert(t.drop_last() =~= ms.take(i as int));
            assert(t.last() == m@);
            assert(prompt@ =~= gemma_body(t));
        }
        i = i + 1;
    }
    proof {
        assert(ms.take(n as int) =~= ms);
    }
    prompt.append("<start_of_turn>model\n");
    proof {
        assert(prompt@ =~= spec_gemma(ms));
    }
    prompt
}

/// Format in the raw dialect: contents joined with newlines.
pub fn format_raw(messages: &[Message]) -> (r: String)
    ensures
        r@ == spec_raw(messages_model(messages@)),
{
    let ghost ms = messages_model(messages@);
    let mut prompt = String::new();
    let n = messages.len();
    let mut i: usize = 0;
    while i < n
        invariant
            n == messages@.len(),
            ms == messages_model(messages@),
            0 <= i <= n,
            prompt@ == spec_raw(ms.take(i as int)),
        decreases n - i,
    {
        let m = &messages[i];
        if i > 0 {
            prompt.append("\n");
        }
        prompt.append(m.content.as_str());
        proof {
            let t = ms.take(i + 1);
            assert(t.drop_last() =~= ms.take(i as int));
            assert(t.last() == m@);
            if i == 0 {
                assert(prompt@ =~= spec_raw(t));
            } else {
                assert(prompt@ =~= spec_raw(t));
            }
        }
        i = i + 1;
    }
    proof {
        assert(ms.take(n as int) =~= ms);
    }
    prompt
}

} // verus!
