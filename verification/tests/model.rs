use crewai_rs::model::{check_openai_settings, extract_content, usage_from_counts, usage_or_zero};
use crewai_rs::{ChatContent, CrewError, MessageRole, ModelMessage, ModelResponse, TokenUsage};

#[test]
fn openai_settings_are_checked_and_the_base_url_trimmed() {
    assert_eq!(
        check_openai_settings("gpt-test", "secret", "http://localhost:8080///").unwrap(),
        "http://localhost:8080"
    );
    assert_eq!(check_openai_settings("gpt-test", "secret", "https://api.openai.com").unwrap(), "https://api.openai.com");
    assert!(matches!(
        check_openai_settings(" ", "secret", "x"),
        Err(CrewError::InvalidConfig(m)) if m == "openai model name cannot be empty"
    ));
    assert!(matches!(
        check_openai_settings("gpt-test", "\t", "x"),
        Err(CrewError::InvalidConfig(m)) if m == "openai api key cannot be empty"
    ));
}

#[test]
fn reply_content_is_read_from_text_or_parts() {
    let text = ChatContent::Text("<final_answer>Hello from the mock API.</final_answer>".to_string());
    assert_eq!(
        extract_content(&text),
        Some("<final_answer>Hello from the mock API.</final_answer>".to_string())
    );
    let parts = ChatContent::Parts(vec![Some("first".to_string()), None, Some("second".to_string())]);
    assert_eq!(extract_content(&parts), Some("first\nsecond".to_string()));
    let leading_empty = ChatContent::Parts(vec![Some(String::new()), Some("x".to_string())]);
    assert_eq!(extract_content(&leading_empty), Some("x".to_string()));
    assert_eq!(extract_content(&ChatContent::Parts(vec![None])), None);
    assert_eq!(extract_content(&ChatContent::Other), None);
}

#[test]
fn reply_usage_needs_all_three_counters() {
    assert_eq!(
        usage_from_counts(Some(10), Some(5), Some(15)),
        Some(TokenUsage { prompt_tokens: 10, completion_tokens: 5, total_tokens: 15 })
    );
    assert_eq!(usage_from_counts(Some(10), None, Some(15)), None);
    assert_eq!(
        usage_from_counts(Some(4_294_967_297), Some(0), Some(1)),
        Some(TokenUsage { prompt_tokens: 1, completion_tokens: 0, total_tokens: 1 })
    );
    assert_eq!(usage_or_zero(None), TokenUsage::default());
    let response = ModelResponse::text("hi");
    assert_eq!(response.content, "hi");
    assert_eq!(response.usage, None);
}

#[test]
fn messages_carry_their_roles() {
    assert_eq!(MessageRole::System.as_str(), "system");
    assert_eq!(MessageRole::User.as_str(), "user");
    assert_eq!(MessageRole::Assistant.as_str(), "assistant");
    assert_eq!(MessageRole::Tool.as_str(), "tool");
    let m = ModelMessage::system("You are helpful.");
    assert_eq!(m.role, MessageRole::System);
    assert_eq!(m.content, "You are helpful.");
    assert_eq!(ModelMessage::user("Say hello.").role, MessageRole::User);
    assert_eq!(ModelMessage::assistant("a").role, MessageRole::Assistant);
    assert_eq!(ModelMessage::tool("t").role, MessageRole::Tool);
}
