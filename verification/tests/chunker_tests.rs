use local_rag_app::chunker::{carry_over, chunk_text, hard_split};

fn lens(chunks: &[String]) -> Vec<usize> {
    chunks.iter().map(|c| c.chars().count()).collect()
}

#[test]
fn empty_text_has_no_chunks() {
    assert!(chunk_text("").is_empty());
}

#[test]
fn whitespace_only_text_has_no_chunks() {
    assert!(chunk_text("   \n\n \t \n\n\n  ").is_empty());
}

#[test]
fn single_paragraph_is_trimmed() {
    assert_eq!(chunk_text("  hello world \n"), vec!["hello world".to_string()]);
}

#[test]
fn short_paragraphs_share_one_chunk() {
    assert_eq!(chunk_text("first\n\nsecond\n\n  third  "), vec!["first\n\nsecond\n\nthird".to_string()]);
}

#[test]
fn triple_newline_splits_once() {
    // "a\n\n\nb" splits into "a" and "\nb"; trimming gives "a" and "b".
    assert_eq!(chunk_text("a\n\n\nb"), vec!["a\n\nb".to_string()]);
}

#[test]
fn single_newlines_stay_inside_a_paragraph() {
    assert_eq!(chunk_text("line one\nline two"), vec!["line one\nline two".to_string()]);
}

#[test]
fn overflow_closes_chunk_and_carries_tail() {
    let a = "a".repeat(500);
    let b = "b".repeat(500);
    let text = format!("{a}\n\n{b}");
    let chunks = chunk_text(&text);
    assert_eq!(chunks.len(), 2);
    assert_eq!(chunks[0], a);
    assert_eq!(chunks[1], format!("{}\n\n{}", "a".repeat(150), b));
}

#[test]
fn paragraph_of_exactly_chunk_size_is_one_chunk() {
    let p = "x".repeat(800);
    assert_eq!(chunk_text(&p), vec![p.clone()]);
}

#[test]
fn long_paragraph_is_hard_split_with_overlap() {
    let text: String = (0..2000).map(|i| char::from(b'a' + (i % 26) as u8)).collect();
    let chunks = chunk_text(&text);
    let chars: Vec<char> = text.chars().collect();
    assert_eq!(lens(&chunks), vec![800, 800, 700]);
    assert_eq!(chunks[0], chars[0..800].iter().collect::<String>());
    assert_eq!(chunks[1], chars[650..1450].iter().collect::<String>());
    assert_eq!(chunks[2], chars[1300..2000].iter().collect::<String>());
}

#[test]
fn chinese_text_counts_characters_not_bytes() {
    let text = "中".repeat(801);
    let chunks = chunk_text(&text);
    assert_eq!(lens(&chunks), vec![800, 151]);
}

#[test]
fn pending_chunk_is_flushed_before_a_long_paragraph() {
    let short = "s".repeat(100);
    let long = "L".repeat(900);
    let chunks = chunk_text(&format!("{short}\n\n{long}"));
    assert_eq!(chunks.len(), 3);
    assert_eq!(chunks[0], short);
    assert_eq!(lens(&chunks[1..]), vec![800, 250]);
}

#[test]
fn carried_tail_becomes_its_own_chunk_before_a_long_paragraph() {
    let first = "f".repeat(700);
    let long = "L".repeat(900);
    let chunks = chunk_text(&format!("{first}\n\n{long}"));
    assert_eq!(chunks[0], first);
    assert_eq!(chunks[1], "f".repeat(150));
    assert_eq!(lens(&chunks[2..]), vec![800, 250]);
}

#[test]
fn chunks_stay_within_the_proved_bound() {
    let mut text = String::new();
    for i in 0..40 {
        text.push_str(&"p".repeat(100 + (i * 37) % 760));
        text.push_str("\n\n");
    }
    let chunks = chunk_text(&text);
    assert!(!chunks.is_empty());
    for c in &chunks {
        let n = c.chars().count();
        assert!(n >= 1 && n <= 800 + 150 + 2, "chunk of {n} chars");
    }
}

#[test]
fn every_short_paragraph_occurs_in_some_chunk() {
    let paras: Vec<String> = (0..12).map(|i| format!("paragraph {i} {}x", "w".repeat(90 * (i % 7)))).collect();
    let text = paras.join("\n\n");
    let chunks = chunk_text(&text);
    for p in &paras {
        assert!(chunks.iter().any(|c| c.contains(p.as_str())), "lost: {p}");
    }
}

#[test]
fn hard_split_keeps_a_short_text_whole() {
    assert!(hard_split("").is_empty());
    assert_eq!(hard_split("abc"), vec!["abc".to_string()]);
    let t = "字".repeat(800);
    assert_eq!(hard_split(&t), vec![t.clone()]);
}

#[test]
fn hard_split_counts_and_rejoins() {
    let t: String = (0..1800).map(|i| char::from(b'a' + (i % 26) as u8)).collect();
    let pieces = hard_split(&t);
    assert_eq!(lens(&pieces), vec![800, 800, 500]);
    let mut back = pieces[0].clone();
    for p in &pieces[1..] {
        back.extend(p.chars().skip(150));
    }
    assert_eq!(back, t);
    let t = "x".repeat(801);
    assert_eq!(lens(&hard_split(&t)), vec![800, 151]);
}

#[test]
fn carry_over_keeps_the_last_overlap() {
    assert_eq!(carry_over(&"a".repeat(150)), "");
    let t = format!("{}{}", "a".repeat(10), "b".repeat(150));
    assert_eq!(carry_over(&t), "b".repeat(150));
}

#[test]
fn long_paragraph_windows_are_consecutive_chunks() {
    let long: String = (0..2000).map(|i| char::from(b'a' + (i % 26) as u8)).collect();
    let text = format!("intro\n\n{long}\n\noutro");
    let chunks = chunk_text(&text);
    let windows = hard_split(&long);
    let at = chunks.iter().position(|c| *c == windows[0]).expect("first window");
    assert_eq!(&chunks[at..at + windows.len()], &windows[..]);
}
