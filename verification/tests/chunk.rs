use ragamuffin::chunk::{chunk_for_path, chunk_json, chunk_markdown, chunk_text, chunker_of, is_record_chunk, Chunk, Chunker};
use ragamuffin::json::{Field, Json};

fn num(s: &str) -> Json {
    Json::Number(s.to_string())
}

fn obj(fields: Vec<(&str, Json)>) -> Json {
    Json::Object(
        fields
            .into_iter()
            .map(|(k, v)| Field { key: k.to_string(), value: v })
            .collect(),
    )
}

fn get<'a>(j: &'a Json, key: &str) -> Option<&'a Json> {
    match j {
        Json::Object(fs) => fs.iter().find(|f| f.key == key).map(|f| &f.value),
        _ => None,
    }
}

#[test]
fn chunk_text_overlaps_long_input() {
    let text = (0..100)
        .map(|i| i.to_string())
        .collect::<Vec<_>>()
        .join(" ");
    let chunks = chunk_text(&text, 30, 10); // step = 20
    assert!(chunks.len() > 1);
    // Overlap: chunk 0 ends with "29", chunk 1 starts at word index 20.
    assert!(chunks[0].split(' ').next_back().unwrap() == "29");
    assert!(chunks[1].split(' ').next().unwrap() == "20");
}

#[test]
fn chunk_text_short_input_is_one_chunk() {
    assert_eq!(chunk_text("a b c", 30, 10), vec!["a b c".to_string()]);
    assert!(chunk_text("   ", 30, 10).is_empty());
}

#[test]
fn chunk_text_zero_width_is_clamped() {
    // chunk_words = 0 must not produce empty or infinite chunks.
    let chunks = chunk_text("a b c d e", 0, 0);
    assert!(!chunks.is_empty());
    assert!(chunks.iter().all(|c| !c.is_empty()));
}

#[test]
fn chunk_text_windows_are_exact() {
    let text = (0..100).map(|i| i.to_string()).collect::<Vec<_>>().join("  \n\t");
    let chunks = chunk_text(&text, 30, 10);
    // Windows start at 0, 20, 40, 60, 80; the one starting at 80 reaches the end.
    assert_eq!(chunks.len(), 5);
    for (j, c) in chunks.iter().enumerate() {
        let start = j * 20;
        let end = (start + 30).min(100);
        let expected = (start..end).map(|i| i.to_string()).collect::<Vec<_>>().join(" ");
        assert_eq!(c, &expected);
    }
    // Overlap equal to the width still advances one word at a time.
    assert_eq!(chunk_text("a b c", 2, 5), vec!["a b".to_string(), "b c".to_string()]);
}

#[test]
fn chunk_text_matches_std_whitespace_splitting() {
    let samples = [
        "alpha\u{a0}beta\u{2003}gamma\u{3000}delta",
        "  lead and trail  ",
        "tab\tsep\u{85}next\u{200b}zero-width-is-not-space",
        "",
        "one",
    ];
    for s in samples {
        let words: Vec<&str> = s.split_whitespace().collect();
        let chunks = chunk_text(s, 1000, 0);
        if words.is_empty() {
            assert!(chunks.is_empty());
        } else {
            assert_eq!(chunks, vec![words.join(" ")]);
        }
    }
}

#[test]
fn whitespace_agrees_with_std_for_every_char() {
    for u in 0..=0x10ffffu32 {
        if let Some(c) = char::from_u32(u) {
            assert_eq!(ragamuffin::text::is_whitespace(c), c.is_whitespace(), "U+{u:04X}");
        }
    }
}

#[test]
fn chunk_markdown_splits_on_headings_keeps_sections_whole() {
    let md = "# A\nalpha\n# B\nbeta gamma";
    let chunks = chunk_markdown(md, 100, 10);
    assert_eq!(chunks.len(), 2);
    assert!(chunks[0].contains("# A") && chunks[0].contains("alpha"));
    assert!(chunks[1].contains("# B") && chunks[1].contains("beta gamma"));
}

#[test]
fn chunk_markdown_preamble_is_its_own_chunk() {
    let md = "intro line\n# Section\nbody";
    let chunks = chunk_markdown(md, 100, 10);
    assert_eq!(chunks.len(), 2);
    assert!(chunks[0].contains("intro line"));
    assert!(!chunks[0].contains("# Section"));
}

#[test]
fn chunk_markdown_subsplits_oversized_section() {
    let big_body = (0..50).map(|i| i.to_string()).collect::<Vec<_>>().join(" ");
    let md = format!("# Big\n{big_body}"); // ~51 words in one section
    let chunks = chunk_markdown(&md, 20, 5); // exceeds 20 -> sub-split
    assert!(chunks.len() > 1);
}

#[test]
fn chunk_markdown_empty_input_no_chunks() {
    assert!(chunk_markdown("   \n  ", 50, 10).is_empty());
}

#[test]
fn chunk_markdown_exact_sections() {
    let md = "\n\n  # Title\r\nline one\n\n## Sub\n  text  \n";
    let chunks = chunk_markdown(md, 100, 10);
    assert_eq!(chunks, vec!["# Title\nline one".to_string(), "## Sub\n  text".to_string()]);
    // A heading right after blank lines does not split off the blank lines.
    assert_eq!(chunk_markdown("\n\n# A\nx", 100, 0), vec!["# A\nx".to_string()]);
    // A heading-less document whose words fit is kept as trimmed text.
    assert_eq!(chunk_markdown("a  b\nc", 100, 0), vec!["a  b\nc".to_string()]);
    // An oversized heading-less document behaves like chunk_text.
    assert_eq!(chunk_markdown("a b\nc d", 2, 0), chunk_text("a b\nc d", 2, 0));
}

#[test]
fn chunk_for_path_routes_by_extension() {
    let md = chunk_for_path("notes.md", "# H\nbody here", 100, 10);
    assert_eq!(md.len(), 1);
    assert!(md[0].text.contains("# H"));
    assert_eq!(md[0].metadata, obj(vec![("chunk", num("0"))]));
    // A non-markdown extension uses the fixed-window chunker.
    let txt = chunk_for_path("notes.txt", "a b c", 100, 10);
    assert_eq!(txt.len(), 1);
    assert_eq!(txt[0].text, "a b c");
    assert_eq!(txt[0].metadata, obj(vec![("chunk", num("0"))]));
}

#[test]
fn chunk_for_path_extension_is_case_insensitive_and_routes_json() {
    let md = chunk_for_path("dir/NOTES.MarkDown", "# H\nx\n# I\ny", 100, 10);
    assert_eq!(md.len(), 2);
    assert_eq!(md[1].metadata, obj(vec![("chunk", num("1"))]));
    let json = chunk_for_path("data.JSONL", "{\"title\":\"hello\"}", 100, 10);
    assert_eq!(json.len(), 1);
    assert_eq!(json[0].text, "title: hello");
    assert_eq!(get(&json[0].metadata, "source_kind"), Some(&Json::Str("json".to_string())));
    // No extension, or a dotfile without one: plain text.
    let plain = chunk_for_path(".md", "# H\nx\n# I\ny", 100, 10);
    assert_eq!(plain.len(), 1);
    assert_eq!(plain[0].text, "# H x # I y");
}

#[test]
fn chunk_json_one_chunk_per_record_with_metadata() {
    let text = r#"[{"title":"Quarterly Report","year":2024,"published":true,"author":{"name":"Jane Doe","team_size":5},"tags":["finance","q3"]},{"n":1}]"#;
    let chunks: Vec<Chunk> = chunk_json(text, 180, 40);
    assert_eq!(chunks.len(), 2);
    assert_eq!(chunks[0].text, "author.name: Jane Doe\ntags: finance, q3\ntitle: Quarterly Report");
    let m = &chunks[0].metadata;
    assert_eq!(get(m, "record"), Some(&num("0")));
    assert_eq!(get(m, "source_kind"), Some(&Json::Str("json".to_string())));
    assert_eq!(get(m, "year"), Some(&num("2024")));
    assert_eq!(get(m, "published"), Some(&Json::Bool(true)));
    assert_eq!(get(m, "author.team_size"), Some(&num("5")));
    assert!(get(m, "title").is_none());
    assert!(matches!(get(m, "raw"), Some(Json::Object(_))));
    // A record without strings embeds its compact JSON.
    assert_eq!(chunks[1].text, "{\"n\":1}");
    assert_eq!(get(&chunks[1].metadata, "record"), Some(&num("1")));
    assert_eq!(get(&chunks[1].metadata, "n"), Some(&num("1")));
}

#[test]
fn chunk_json_empty_array_and_fallback() {
    assert!(chunk_json("[]", 180, 40).is_empty());
    assert!(chunk_json("   ", 180, 40).is_empty());
    let fallback = chunk_json("not json at all", 180, 40);
    assert_eq!(fallback.len(), 1);
    assert_eq!(fallback[0].text, "not json at all");
    assert_eq!(fallback[0].metadata, obj(vec![("chunk", num("0"))]));
}

#[test]
fn chunk_json_oversized_record_is_split_into_parts() {
    let body = (0..10).map(|i| format!("w{i}")).collect::<Vec<_>>().join(" ");
    let text = format!("{{\"t\":\"{body}\"}}");
    let chunks = chunk_json(&text, 4, 1);
    // "t: w0 ... w9" has 11 words; windows of 4 with step 3 start at 0, 3, 6 and 9.
    assert_eq!(chunks.len(), 4);
    for (p, c) in chunks.iter().enumerate() {
        assert_eq!(get(&c.metadata, "part"), Some(&num(&p.to_string())));
        assert!(get(&c.metadata, "raw").is_some());
    }
    assert_eq!(chunks[0].text, "t: w0 w1 w2");
}

#[test]
fn chunk_markdown_without_headings_matches_chunk_text() {
    let text = "alpha beta\r\ngamma   delta\n\nepsilon zeta eta\n";
    assert_eq!(chunk_markdown(text, 3, 1), chunk_text(text, 3, 1));
    assert_eq!(chunk_markdown(text, 3, 1).len(), 3);
    // Within one window the section is kept as written, not re-spaced.
    assert_eq!(chunk_markdown("a  b", 10, 0), vec!["a  b".to_string()]);
    assert_eq!(chunk_text("a  b", 10, 0), vec!["a b".to_string()]);
}

#[test]
fn chunker_of_routes_by_extension() {
    assert!(matches!(chunker_of("notes/A.MarkDown"), Chunker::Markdown));
    assert!(matches!(chunker_of("data.NDJSON"), Chunker::Json));
    assert!(matches!(chunker_of("data.jsonl"), Chunker::Json));
    assert!(matches!(chunker_of("README"), Chunker::Text));
    assert!(matches!(chunker_of(".json"), Chunker::Text));
}

#[test]
fn record_chunks_are_told_from_fallback_chunks() {
    let records = chunk_json(r#"[{"a":"x"},{"b":1}]"#, 180, 40);
    assert!(records.iter().all(is_record_chunk));
    let fallback = chunk_json("not json at all", 180, 40);
    assert_eq!(fallback.len(), 1);
    assert!(!is_record_chunk(&fallback[0]));
}
