use cki::tools::web::{
    ddg_search_text, fetch_scheme_allowed, fetch_text, format_searxng_results, html_unescape,
    parse_ddg_results, replace_text, result_limit, search_query, strip_html, strip_tags,
    truncate_chars, SearchHit,
};

#[test]
fn strip_html_removes_tags() {
    let html = "<html><body><h1>Title</h1><p>Hello <b>world</b>.</p></body></html>";
    assert_eq!(strip_html(html), "Title Hello world .");
}

#[test]
fn truncate_keeps_utf8_boundaries() {
    let text = "açãodólar".repeat(1000);
    let capped = truncate_chars(&text, 10);
    assert!(capped.len() <= 10 + "[truncated]".len() + 8);
    assert!(String::from_utf8(capped.into_bytes()).is_ok());
}

#[test]
fn ddg_parser_extracts_results() {
    let html = r#"
            <a class="result__a" href="//example.com/1">First <b>Result</b></a>
            <a class="result__snippet" href="//example.com/1">A snippet.</a>
            <a class="result__a" href="//example.com/2">Second</a>
            <a class="result__snippet" href="//example.com/2">More text.</a>
        "#;
    let results = parse_ddg_results(html, 2);
    assert_eq!(results.len(), 2);
    assert!(results[0].contains("First Result"));
    assert!(results[0].contains("//example.com/1"));
    assert!(results[0].contains("A snippet."));
}

#[test]
fn strip_html_drops_script_and_style() {
    let html = "<p>a</p><SCRIPT type=x>var x = 1;</script><style>p{}</style>\n\t b";
    assert_eq!(strip_html(html), "a b");
}

#[test]
fn strip_html_unclosed_tag_becomes_space() {
    assert_eq!(strip_html("x <b"), "x");
}

#[test]
fn truncate_exact_cut_and_untouched() {
    assert_eq!(truncate_chars("hello", 5), "hello");
    assert_eq!(truncate_chars("hello", 3), "hel…[truncated]");
    // "ã" is two bytes: a cap inside it cuts before it.
    assert_eq!(truncate_chars("aãb", 2), "a…[truncated]");
}

#[test]
fn ddg_parser_exact_item_and_limit() {
    let html = r#"<a class="result__a" href="//x.org/?a=1&amp;b=2">T &lt;1&gt;</a>
<a class="result__snippet" href="u">S <b>1</b></a>
<a class="result__a" href="//y.org">U</a>"#;
    let results = parse_ddg_results(html, 1);
    // The decoded `<1>` reads as a tag and is stripped from the title.
    assert_eq!(results, vec!["T\n//x.org/?a=1&b=2\nS 1".to_string()]);
    let all = parse_ddg_results(html, 5);
    assert_eq!(all.len(), 2);
    assert_eq!(all[1], "U\n//y.org\n");
    // A limit of zero still yields the first result.
    assert_eq!(parse_ddg_results(html, 0).len(), 1);
}

#[test]
fn html_unescape_and_replace() {
    assert_eq!(html_unescape("&amp;lt; &quot;q&quot; &#x27;s&#x27; &nbsp;"), "< \"q\" 's'  ");
    assert_eq!(replace_text("aaa", "aa", "b"), "ba");
    assert_eq!(strip_tags("  <i>x</i> y "), "x y");
}

#[test]
fn fetch_rules() {
    assert!(fetch_scheme_allowed("http"));
    assert!(fetch_scheme_allowed("https"));
    assert!(!fetch_scheme_allowed("ftp"));
    assert_eq!(fetch_text("text/html; charset=utf-8", b"<p>Hi</p>", 100), "Hi");
    assert_eq!(fetch_text("text/plain", b"<p>Hi</p>", 100), "<p>Hi</p>");
    assert_eq!(fetch_text("text/plain", b"abcdef", 2), "ab…[truncated]");
    assert_eq!(fetch_text("text/plain", &[0x61, 0xff], 100), "a\u{fffd}");
}

#[test]
fn search_queries_and_limits() {
    assert_eq!(search_query("  rust  "), Ok("rust".to_string()));
    assert_eq!(search_query(" \t "), Err("query must not be empty".to_string()));
    assert_eq!(result_limit(0), 1);
    assert_eq!(result_limit(7), 7);
    assert_eq!(result_limit(99), 20);
}

#[test]
fn searxng_results_format_and_errors() {
    let hits = vec![
        SearchHit { title: Some("A".into()), url: Some("u1".into()), content: None },
        SearchHit { title: None, url: None, content: Some("c".into()) },
        SearchHit { title: Some("C".into()), url: None, content: None },
    ];
    assert_eq!(format_searxng_results(&hits, 2), Ok("A\nu1\n\n\n(untitled)\n\nc".to_string()));
    assert_eq!(format_searxng_results(&Vec::new(), 3), Err("no results for query".to_string()));
}

#[test]
fn ddg_search_text_joins_or_errors() {
    let html = r#"<a class="result__a" href="a">A</a><a class="result__a" href="b">B</a>"#;
    assert_eq!(ddg_search_text(html, 5), Ok("A\na\n\n\nB\nb\n".to_string()));
    assert_eq!(ddg_search_text("nothing", 5), Err("no results for query".to_string()));
}
