use rusteams::domain::rich::RichSegment;
use rusteams::infra::graph::client::{chats_url, classify_status, messages_url, RetryHint};
use rusteams::infra::graph::html::{render_at_tags, render_html_body};

fn flatten(segs: &[RichSegment]) -> String {
    segs.iter()
        .map(|s| match s {
            RichSegment::Text(t) => t.clone(),
            RichSegment::Link { text, .. } => text.clone(),
            RichSegment::CodeBlock { lines } => lines.join("\n"),
        })
        .collect::<Vec<_>>()
        .join("")
}

#[test]
fn rate_limit_maps_to_retry_with_header() {
    assert_eq!(classify_status(429, Some(30)), RetryHint::RetryAfter(30));
    assert_eq!(classify_status(429, None), RetryHint::RetryAfter(5));
}

#[test]
fn unauthorized_never_blind_retries() {
    assert_eq!(classify_status(401, None), RetryHint::NoRetry);
}

#[test]
fn not_found_never_retries() {
    assert_eq!(classify_status(404, None), RetryHint::NoRetry);
}

#[test]
fn url_builders_respect_custom_base() {
    assert_eq!(
        chats_url("https://graph.microsoft.com/v1.0"),
        "https://graph.microsoft.com/v1.0/me/chats?$expand=lastMessagePreview"
    );
    assert!(messages_url("https://x/", "c1").ends_with("/me/chats/c1/messages"));
}

#[test]
fn server_errors_and_timeouts_retry_after_two_seconds() {
    for status in [408u16, 500, 502, 504, 599] {
        assert_eq!(classify_status(status, Some(99)), RetryHint::RetryAfter(2));
    }
    assert_eq!(classify_status(503, Some(0)), RetryHint::RetryAfter(1));
    assert_eq!(classify_status(503, None), RetryHint::RetryAfter(5));
    assert_eq!(classify_status(200, None), RetryHint::NoRetry);
}

#[test]
fn url_builders_drop_every_trailing_slash() {
    assert_eq!(messages_url("https://x///", "c1"), "https://x/me/chats/c1/messages");
    assert_eq!(chats_url("/"), "/me/chats?$expand=lastMessagePreview");
}

#[test]
fn link_renders_text_with_url() {
    let segs = render_html_body(r#"see <a href="https://example.com/x">docs</a> now"#);
    assert_eq!(
        segs,
        vec![
            RichSegment::Text("see ".into()),
            RichSegment::Link { text: "docs".into(), url: "https://example.com/x".into() },
            RichSegment::Text(" now".into()),
        ]
    );
}

#[test]
fn code_block_preserves_lines() {
    let segs = render_html_body("<pre><code>fn main() {\n    println!();\n}</code></pre>");
    assert_eq!(
        segs,
        vec![RichSegment::CodeBlock {
            lines: vec!["fn main() {".into(), "    println!();".into(), "}".into()]
        }]
    );
}

#[test]
fn lists_break_lines_and_nesting_degrades() {
    let segs = render_html_body("<div><ul><li>one</li><li>two</li></ul></div>");
    let text = flatten(&segs);
    assert!(text.contains("one"), "first item kept: {text:?}");
    assert!(text.contains("two"), "second item kept: {text:?}");
}

#[test]
fn emoji_and_plain_text_pass_through() {
    let segs = render_html_body("hi 💘 done");
    assert_eq!(segs, vec![RichSegment::Text("hi 💘 done".into())]);
}

#[test]
fn malformed_markup_falls_back_to_text() {
    let segs = render_html_body("a <b broken <at>oops");
    let text = flatten(&segs);
    assert!(text.contains('a'), "leading text kept: {text:?}");
    assert!(text.contains("oops"), "trailing text kept: {text:?}");
}

#[test]
fn block_tags_become_newlines_and_unknown_tags_stay() {
    let segs = render_html_body("<p>one</p><b>two</b><br/>x < y");
    assert_eq!(segs, vec![RichSegment::Text("\none\n<b>two</b>\nx < y".into())]);
}

#[test]
fn single_quoted_links_and_unclosed_links() {
    let segs = render_html_body("<a href='u'>t</a>");
    assert_eq!(segs, vec![RichSegment::Link { text: "t".into(), url: "u".into() }]);
    let broken = render_html_body("<a href=\"u\">t");
    assert_eq!(broken, vec![RichSegment::Text("<a href=\"u\">t".into())]);
}

#[test]
fn bare_pre_and_crlf_lines() {
    let segs = render_html_body("<pre>a\r\nb\n</pre>tail");
    assert_eq!(
        segs,
        vec![
            RichSegment::CodeBlock { lines: vec!["a".into(), "b".into()] },
            RichSegment::Text("tail".into()),
        ]
    );
}

#[test]
fn empty_body_renders_nothing() {
    assert!(render_html_body("").is_empty());
}

#[test]
fn at_tags_become_mentions() {
    assert_eq!(render_at_tags("hi <at id=\"0\">Alice</at>!"), "hi @Alice!");
    assert_eq!(
        render_at_tags("<at id=\"0\">A</at> and <at id=\"1\">B</at>"),
        "@A and @B"
    );
    assert_eq!(render_at_tags("<at id=\"0\">unclosed"), "<at id=\"0\">unclosed");
    assert_eq!(render_at_tags("plain <b>text</b>"), "plain <b>text</b>");
}
