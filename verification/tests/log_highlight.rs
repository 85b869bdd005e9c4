use fresh_gui_app::log_highlight::{tokens, LogHighlighter};

#[test]
fn highlights_requested_log_forms_without_overlap() {
    let line = "2026-09-24 12:34:56 ERROR myfile.txt:110 value=1.2e-3 'warn 123' DEBUG";
    let found = tokens(line);
    let values: Vec<_> = found.iter().map(|token| (&line[token.range.clone()], token.style)).collect();
    assert!(values.contains(&("2026-09-24 12:34:56", "constant")));
    assert!(values.contains(&("ERROR", "keyword")));
    assert!(values.contains(&("myfile.txt:110", "label")));
    assert!(values.contains(&("1.2e-3", "number")));
    assert!(values.contains(&("'warn 123'", "string")));
    assert!(values.contains(&("DEBUG", "comment")));
    assert!(found.windows(2).all(|pair| pair[0].range.end <= pair[1].range.start));
}

#[test]
fn quoted_text_hides_keywords_inside_it() {
    let line = "\"error here\" warning 3";
    let found = tokens(line);
    let values: Vec<_> = found.iter().map(|t| (&line[t.range.clone()], t.style)).collect();
    assert_eq!(values, vec![("\"error here\"", "string"), ("warning", "constant"), ("3", "number")]);
    assert!(tokens("").is_empty());
}

#[test]
fn style_runs_fill_gaps_and_clip_to_the_text() {
    let mut h = LogHighlighter::new();
    h.update("\"error here\" warning 3");
    assert_eq!(h.text_len, 22);
    let runs = h.styles(0..100);
    let shown: Vec<_> = runs.iter().map(|(r, s)| (r.start, r.end, *s)).collect();
    assert_eq!(
        shown,
        vec![
            (0, 12, Some("string")),
            (12, 13, None),
            (13, 20, Some("constant")),
            (20, 21, None),
            (21, 22, Some("number")),
        ]
    );
    // A range inside a token is cut from it; one past the text is empty.
    let inner: Vec<_> = h.styles(2..5).iter().map(|(r, s)| (r.start, r.end, *s)).collect();
    assert_eq!(inner, vec![(2, 5, Some("string"))]);
    assert!(h.styles(30..40).is_empty());
    let plain: Vec<_> = h.styles(12..14).iter().map(|(r, s)| (r.start, r.end, *s)).collect();
    assert_eq!(plain, vec![(12, 13, None), (13, 14, Some("constant"))]);
}
