use ragamuffin::json::Json;
use ragamuffin::mcp::{default_k, default_source, format_hits, SaveArgs, SearchArgs};
use ragamuffin::store::Hit;

fn hit(score: f32, id: &str, text: &str, source: &str) -> Hit {
    Hit {
        score_bits: score.to_bits(),
        id: id.into(),
        text: text.into(),
        source: source.into(),
        metadata: Json::Null,
    }
}

fn scores(hits: &[Hit]) -> Vec<String> {
    hits.iter().map(|h| format!("{:.3}", f32::from_bits(h.score_bits))).collect()
}

#[test]
fn format_hits_numbers_and_cites() {
    let hits = vec![hit(0.9, "abc", "rust note", "chat")];
    let out = format_hits(&hits, &scores(&hits));
    assert!(out.contains("1. [chat | score 0.900] rust note"));
}

#[test]
fn format_hits_lists_and_empty() {
    assert_eq!(format_hits(&[], &[]), "No matching memories.");
    let hits = vec![hit(0.5, "a", "one", "x"), hit(0.25, "b", "two", "y")];
    assert_eq!(
        format_hits(&hits, &scores(&hits)),
        "1. [x | score 0.500] one\n2. [y | score 0.250] two"
    );
}

#[test]
fn tool_defaults() {
    assert_eq!(default_k(), 4);
    assert_eq!(default_source(), "chat");
    let a = SearchArgs { query: "q".into(), k: default_k() };
    let b = SaveArgs { text: "t".into(), source: default_source() };
    assert_eq!((a.k, b.source.as_str()), (4, "chat"));
}
