use codexlotus::chat::{
    ChatMessage, Message, add_mentioned_file, build_chat_messages, build_edit_prompt,
    clean_edit_output, extract_mentioned_file, last_user_index, looks_like_filename,
    EXACT_MATCH_SCORE_BITS,
};
use codexlotus::search::ScoredChunk;

#[test]
fn filename_shapes_are_recognised() {
    assert!(looks_like_filename("README.md"));
    assert!(looks_like_filename("config.toml"));
    assert!(looks_like_filename("a.md"));
    assert!(!looks_like_filename(".md"));
    assert!(!looks_like_filename("has space.md"));
    assert!(!looks_like_filename("notes.doc"));
}

#[test]
fn backtick_quoted_file_wins() {
    assert_eq!(
        extract_mentioned_file("please open `notes.md` for me"),
        Some("notes.md".to_string())
    );
}

#[test]
fn non_filename_backticks_fall_through_to_words() {
    assert_eq!(
        extract_mentioned_file("run `cargo` then read readme.md please"),
        Some("readme.md".to_string())
    );
}

#[test]
fn word_scan_trims_punctuation() {
    assert_eq!(
        extract_mentioned_file("see (rules/combat.yaml), thanks"),
        Some("rules/combat.yaml".to_string())
    );
}

#[test]
fn word_scan_folds_case() {
    assert_eq!(
        extract_mentioned_file("check NOTES.MD now"),
        Some("NOTES.MD".to_string())
    );
}

#[test]
fn prompt_without_files_yields_nothing() {
    assert_eq!(extract_mentioned_file("hello there, nothing here"), None);
    assert_eq!(extract_mentioned_file(""), None);
}

#[test]
fn mentioned_file_is_inserted_in_front() {
    let mut chunks = vec![ScoredChunk {
        relative_path: "other.md".to_string(),
        content: "other text".to_string(),
        score_bits: 0.5f32.to_bits(),
    }];
    add_mentioned_file(&mut chunks, "new.md".to_string(), "new text".to_string());
    assert_eq!(chunks.len(), 2);
    assert_eq!(chunks[0].relative_path, "new.md");
    assert_eq!(chunks[0].score_bits, EXACT_MATCH_SCORE_BITS);
    assert_eq!(chunks[0].score_bits, 1.0f32.to_bits());
    assert_eq!(chunks[1].relative_path, "other.md");
}

#[test]
fn mentioned_file_already_present_is_not_duplicated() {
    let mut chunks = vec![ScoredChunk {
        relative_path: "Guide.MD".to_string(),
        content: "text".to_string(),
        score_bits: 0.5f32.to_bits(),
    }];
    add_mentioned_file(&mut chunks, "guide.md".to_string(), "again".to_string());
    assert_eq!(chunks.len(), 1);
    assert_eq!(chunks[0].relative_path, "Guide.MD");
}

#[test]
fn chat_messages_wrap_context_and_skip_system_roles() {
    let msg = |role: &str, content: &str| ChatMessage {
        role: role.to_string(),
        content: content.to_string(),
    };
    let conversation = Some(vec![
        msg("system", "internal"),
        msg("user", "earlier question"),
        msg("assistant", "earlier answer"),
    ]);
    let messages = build_chat_messages("the context", &conversation, "new question");
    assert_eq!(messages.len(), 5);
    assert_eq!(messages[0].role, "user");
    assert_eq!(
        messages[0].content,
        "[CONTEXT]\nthe context\n[/CONTEXT]\n\nPlease use the above context to help answer my questions. Acknowledge this context briefly."
    );
    assert_eq!(messages[1].role, "assistant");
    assert_eq!(messages[2].content, "earlier question");
    assert_eq!(messages[3].content, "earlier answer");
    assert_eq!(messages[4].role, "user");
    assert_eq!(messages[4].content, "new question");
}

#[test]
fn chat_messages_do_not_repeat_the_current_prompt() {
    let conversation = Some(vec![ChatMessage {
        role: "user".to_string(),
        content: "same question".to_string(),
    }]);
    let messages = build_chat_messages("", &conversation, "same question");
    assert_eq!(messages.len(), 1);
    assert_eq!(messages[0].content, "same question");
}

#[test]
fn chat_messages_without_history_hold_just_the_prompt() {
    let messages = build_chat_messages("", &None, "only question");
    assert_eq!(messages.len(), 1);
    assert_eq!(messages[0].role, "user");
    assert_eq!(messages[0].content, "only question");
}

#[test]
fn last_user_message_is_found_from_the_end() {
    let msg = |role: &str, content: &str| Message {
        role: role.to_string(),
        content: content.to_string(),
    };
    let messages = vec![
        msg("user", "first"),
        msg("assistant", "reply"),
        msg("user", "second"),
        msg("assistant", "reply two"),
    ];
    assert_eq!(last_user_index(&messages), Some(2));
    let none = vec![msg("assistant", "alone")];
    assert_eq!(last_user_index(&none), None);
}

#[test]
fn edit_prompt_embeds_instruction_and_contents() {
    let p = build_edit_prompt("fix the title", "# Old Title\nbody");
    assert_eq!(
        p,
        "You are an expert editor.\nUser Instruction: fix the title\n\nHere is the file content:\n```markdown\n# Old Title\nbody\n```\n\nReturn ONLY the full updated file content. Do not add markdown code fences around the output unless the file itself contains them. Do not add conversational text."
    );
}

#[test]
fn edit_output_loses_fences_and_whitespace() {
    assert_eq!(clean_edit_output("  \n# Doc\n  "), "# Doc");
    assert_eq!(clean_edit_output("```markdown\n# Doc\n```"), "\n# Doc\n");
    assert_eq!(clean_edit_output("```\n# Doc\n```"), "\n# Doc\n");
    assert_eq!(clean_edit_output("plain text"), "plain text");
    assert_eq!(clean_edit_output("``````"), "");
}
