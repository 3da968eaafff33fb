use segmenter::chars::{find_last_pos_of_first, str_to_chars};
use segmenter::relay::{
    create_thread_message, decide_run, format_attachments, get_user_name, should_reply,
    should_store, str_eq, thread_row_json, AttachmentText, RunDecision,
};

#[test]
fn user_name_prefers_global_name() {
    let global = Some(String::from("Display"));
    assert_eq!(get_user_name(&global, "account"), "Display");
    assert_eq!(get_user_name(&None, "account"), "account");
}

#[test]
fn stores_only_foreign_non_empty_human_messages() {
    assert!(should_store(7, 9, "hello", false));
    assert!(!should_store(9, 9, "hello", false));
    assert!(!should_store(7, 9, "", false));
    assert!(!should_store(7, 9, "hello", true));
}

#[test]
fn replies_when_named_ignoring_case() {
    assert!(should_reply(false, "hey ChatBot, hi", "chatbot", 9, false, &None, false));
    assert!(!should_reply(false, "hey there", "chatbot", 9, false, &None, false));
}

#[test]
fn replies_on_mention_reply_or_dm_but_never_to_bots() {
    assert!(should_reply(false, "hi", "chatbot", 9, true, &None, false));
    assert!(should_reply(false, "hi", "chatbot", 9, false, &Some(9), false));
    assert!(!should_reply(false, "hi", "chatbot", 9, false, &Some(4), false));
    assert!(should_reply(false, "hi", "chatbot", 9, false, &None, true));
    assert!(!should_reply(true, "hey chatbot", "chatbot", 9, true, &Some(9), true));
}

#[test]
fn run_decisions_cover_every_status() {
    assert_eq!(decide_run("completed"), RunDecision::FetchResult);
    assert_eq!(decide_run("expired"), RunDecision::Abort);
    assert_eq!(decide_run("failed"), RunDecision::Abort);
    assert_eq!(decide_run("cancelled"), RunDecision::Abort);
    assert_eq!(decide_run("incomplete"), RunDecision::Abort);
    assert_eq!(decide_run("in_progress"), RunDecision::Wait);
    assert_eq!(decide_run("queued"), RunDecision::Wait);
}

#[test]
fn string_equality_by_characters() {
    assert!(str_eq("same", "same"));
    assert!(!str_eq("same", "sane"));
    assert!(!str_eq("short", "shorter"));
    assert!(str_eq("", ""));
}

#[test]
fn thread_message_frames_sender_and_body() {
    let text = create_thread_message("Ann", "42", "hello there", "");
    assert_eq!(text, "Ann (42): \"\"\"\nhello there\n\"\"\"");
}

#[test]
fn thread_message_appends_attachments() {
    let items = vec![
        AttachmentText { filename: String::from("notes.txt"), data: Some(String::from("first")) },
        AttachmentText { filename: String::from("broken.bin"), data: None },
        AttachmentText { filename: String::from("more.txt"), data: Some(String::from("second")) },
    ];
    let formatted = format_attachments(&items);
    assert_eq!(
        formatted,
        "\nAttachment \"notes.txt\": \"\"\"\nfirst\n\"\"\"\nAttachment \"more.txt\": \"\"\"\nsecond\n\"\"\""
    );
    let text = create_thread_message("Ann", "42", "see files", &formatted);
    assert!(text.starts_with("Ann (42): \"\"\"\nsee files\n\"\"\"\nAttachment"));
}

#[test]
fn no_attachments_formats_to_nothing() {
    let items: Vec<AttachmentText> = Vec::new();
    assert_eq!(format_attachments(&items), "");
}

#[test]
fn thread_row_is_the_expected_json_object() {
    let row = thread_row_json("thread_abc", "chan_9");
    assert_eq!(row, "{ \"thread_id\": \"thread_abc\", \"channel_id\": \"chan_9\" }");
}

#[test]
fn break_search_prefers_earlier_elements() {
    // a newline beats a space even when the space stands later
    let hay = str_to_chars("one\ntwo three");
    let elements = vec![str_to_chars("\n"), str_to_chars(";"), str_to_chars(" "), str_to_chars(",")];
    assert_eq!(find_last_pos_of_first(&hay, &elements), Some((3, 0)));

    // no newline or semicolon: the last space wins
    let hay = str_to_chars("one two three");
    assert_eq!(find_last_pos_of_first(&hay, &elements), Some((7, 2)));

    // nothing matches
    let hay = str_to_chars("onetwothree");
    assert_eq!(find_last_pos_of_first(&hay, &elements), None);
}
