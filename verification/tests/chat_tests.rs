//! Tests for chat prompt formatting: exact expected strings per dialect.

use cortex::chat::{
    format_chat_prompt, format_chatml, format_gemma, format_llama3, format_phi3, format_raw,
    ChatTemplate,
};
use cortex::Message;

fn sample() -> Vec<Message> {
    vec![Message::system("be brief"), Message::user("hello")]
}

#[test]
fn test_format_llama3() {
    let prompt = format_llama3(&sample());
    assert_eq!(
        prompt,
        "<|begin_of_text|>\
         <|start_header_id|>system<|end_header_id|>\n\nbe brief<|eot_id|>\
         <|start_header_id|>user<|end_header_id|>\n\nhello<|eot_id|>\
         <|start_header_id|>assistant<|end_header_id|>\n\n"
    );
}

#[test]
fn test_format_chatml() {
    let prompt = format_chatml(&sample());
    assert_eq!(
        prompt,
        "<|im_start|>system\nbe brief<|im_end|>\n\
         <|im_start|>user\nhello<|im_end|>\n\
         <|im_start|>assistant\n"
    );
}

#[test]
fn test_format_phi3() {
    let prompt = format_phi3(&sample());
    assert_eq!(
        prompt,
        "<|system|>\nbe brief<|end|>\n<|user|>\nhello<|end|>\n<|assistant|>\n"
    );
}

#[test]
fn test_format_gemma() {
    // system messages fold into user turns; assistant turns are "model"
    let messages = vec![
        Message::system("be brief"),
        Message::user("hello"),
        Message::assistant("hi"),
    ];
    let prompt = format_gemma(&messages);
    assert_eq!(
        prompt,
        "<start_of_turn>user\nbe brief<end_of_turn>\n\
         <start_of_turn>user\nhello<end_of_turn>\n\
         <start_of_turn>model\nhi<end_of_turn>\n\
         <start_of_turn>model\n"
    );
}

#[test]
fn test_format_raw() {
    let prompt = format_raw(&sample());
    assert_eq!(prompt, "be brief\nhello");
    assert_eq!(format_raw(&[]), "");
    assert_eq!(format_raw(&[Message::user("only")]), "only");
}

#[test]
fn test_format_dispatch() {
    let messages = sample();
    assert_eq!(
        format_chat_prompt(&messages, ChatTemplate::Llama3),
        format_llama3(&messages)
    );
    assert_eq!(format_chat_prompt(&messages, ChatTemplate::Raw), format_raw(&messages));
    assert_eq!(
        format_chat_prompt(&messages, ChatTemplate::ChatML),
        format_chatml(&messages)
    );
    assert_eq!(format_chat_prompt(&messages, ChatTemplate::Phi3), format_phi3(&messages));
    assert_eq!(
        format_chat_prompt(&messages, ChatTemplate::Gemma),
        format_gemma(&messages)
    );
}

#[test]
fn test_tool_role_label() {
    let messages = vec![Message::tool("result", "lookup")];
    let prompt = format_chatml(&messages);
    assert_eq!(prompt, "<|im_start|>tool\nresult<|im_end|>\n<|im_start|>assistant\n");
}
