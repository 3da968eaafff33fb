use segmenter::segment::split_message;

#[test]
fn test_split_message() {
    let mut message = "This message is shorter than the max length";
    let mut max_length = 50;
    let mut expected = vec!["This message is shorter than the max length"];
    assert_eq!(split_message(message, max_length), expected);

    message = "This test message is longer than the previous one";
    max_length = 15;
    expected = vec![
        "This test",
        "message is",
        "longer than",
        "the previous",
        "one",
    ];
    assert_eq!(split_message(message, max_length), expected);

    message = "This message has a `code block` in it";
    max_length = 15;
    expected = vec!["This message", "has a", "`code block`", "in it"];
    assert_eq!(split_message(message, max_length), expected);

    message = "This message has a ```multiline\ncode block``` in it";
    max_length = 30;
    expected = vec!["This message has a", "```multiline\ncode block```", "in it"];
    assert_eq!(split_message(message, max_length), expected);

    message = "This code block is too long:\n```javascript\nfunction helloWorld() {\n\tconsole.log('Hello, world!');\n}\n```";
    max_length = 30;
    expected = vec![
        "This code block is too long:",
        "```javascript",
        "function helloWorld() {",
        "console.log('Hello, world!');",
        "}\n```",
    ];
    assert_eq!(split_message(message, max_length), expected);

    message = "2 code blocks: ```js\nconsole.log('Hello, world!');\n```\n```js\nconsole.log('Goodbye, world!');\n```";
    max_length = 50;
    expected = vec![
        "2 code blocks:",
        "```js\nconsole.log('Hello, world!');\n```",
        "```js\nconsole.log('Goodbye, world!');\n```",
    ];
    assert_eq!(split_message(message, max_length), expected);

    message = "1st code block fits in 1st chunk:\n```js\nconsole.log('Hello!');\n```\n```js\nconsole.log('Goodbye!');\n```";
    max_length = 70;
    expected = vec![
        "1st code block fits in 1st chunk:\n```js\nconsole.log('Hello!');\n```",
        "```js\nconsole.log('Goodbye!');\n```",
    ];
    assert_eq!(split_message(message, max_length), expected);

    message = "Both of these code blocks can fit in one chunk: ```js\nconsole.log('Hello!');\n```\n```js\nconsole.log('Goodbye!');\n```";
    max_length = 70;
    expected = vec![
        "Both of these code blocks can fit in one chunk:",
        "```js\nconsole.log('Hello!');\n```\n```js\nconsole.log('Goodbye!');\n```",
    ];
    assert_eq!(split_message(message, max_length), expected);
}

#[test]
fn short_text_returned_untouched() {
    // the short-circuit keeps even edge whitespace as it is
    let chunks = split_message("  padded  ", 20);
    assert_eq!(chunks, vec!["  padded  "]);
}

#[test]
fn empty_text_gives_one_empty_chunk() {
    let chunks = split_message("", 10);
    assert_eq!(chunks, vec![""]);
}

#[test]
fn every_chunk_respects_the_cap() {
    let message = "One two three four five six seven eight nine ten eleven twelve, and \
                   a `span` plus ```fenced\ncode``` to cross a few windows.";
    let max_length = 17;
    let chunks = split_message(message, max_length);
    assert!(chunks.len() > 1);
    for chunk in &chunks {
        assert!(chunk.chars().count() <= max_length);
    }
}

#[test]
fn chunks_preserve_text_in_order() {
    let message = "Alpha beta gamma delta epsilon zeta eta theta iota kappa";
    let chunks = split_message(message, 12);
    // concatenating the chunks with single separators restores the text,
    // since this message breaks at spaces only
    let rebuilt = chunks.join(" ");
    assert_eq!(rebuilt, message);
}

#[test]
fn unbreakable_run_is_cut_at_window_ends() {
    let message = "abcdefghijklmnopqrstuvwxyz0123456789";
    let chunks = split_message(message, 10);
    assert_eq!(chunks, vec!["abcdefghij", "klmnopqrst", "uvwxyz0123", "456789"]);
}

#[test]
fn inline_span_longer_than_cap_is_cut_after_opening_tick() {
    let message = "word `aaaaaaaaaaaaaaaaaaaaaaaaaaaaaa` tail";
    let chunks = split_message(message, 10);
    // the opening tick stands at the end of its chunk, and the span body
    // is then cut at raw window ends
    assert!(chunks[0].ends_with('`'));
    for chunk in &chunks {
        assert!(chunk.chars().count() <= 10);
    }
    let rebuilt: String = chunks.join(" ");
    assert!(rebuilt.contains("aaaaaaaaaa"));
}

#[test]
fn chunk_count_stays_within_the_progress_bound() {
    let message = "a b c d e f g h i j k l m n o p q r s t u v w x y z";
    let chunks = split_message(message, 3);
    assert!(chunks.len() >= 2);
    assert!(chunks.len() <= message.chars().count());

    let short = split_message("tiny", 100);
    assert_eq!(short.len(), 1);
}

#[test]
fn sentence_boundary_preferred_over_word_gap() {
    let message = "First sentence. Second part of the text goes on";
    let chunks = split_message(message, 20);
    assert_eq!(chunks[0], "First sentence.");
}
