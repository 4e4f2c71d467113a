use slideshow::{md_to_html, md_to_slides, Slide, Slides};

fn paragraphs(slide: &Slide) -> Vec<String> {
    (0..slide.paragraph_count()).map(|i| slide.paragraph(i).to_string()).collect()
}

fn titles(text: &str) -> Vec<String> {
    let mut deck = md_to_slides(text.to_string());
    let mut out = Vec::new();
    for _ in 0..deck.len() {
        out.push(deck.next().unwrap().title().to_string());
    }
    out
}

fn next_title(deck: &mut Slides) -> Option<String> {
    deck.next().map(|s| s.title().to_string())
}

fn previous_title(deck: &mut Slides) -> Option<String> {
    deck.previous().map(|s| s.title().to_string())
}

#[test]
fn headingless_text_makes_one_untitled_slide() {
    let mut deck = md_to_slides("Hello world\n\nSecond line\nThird line".to_string());
    assert_eq!(deck.len(), 1);
    let slide = deck.next().unwrap();
    assert_eq!(slide.title(), "");
    assert_eq!(paragraphs(slide), vec!["Hello world", "Second line", "Third line"]);
}

#[test]
fn one_slide_per_heading() {
    assert_eq!(titles("# A\ntext\n## B\nmore\n### C"), vec!["A", "B", "C"]);
}

#[test]
fn leading_text_adds_a_slide() {
    assert_eq!(titles("intro\n# A\nbody"), vec!["", "A"]);
}

#[test]
fn back_to_back_headings_give_empty_slides() {
    let mut deck = md_to_slides("# First\n## Second\nbody".to_string());
    assert_eq!(deck.len(), 2);
    let first = deck.next().unwrap();
    assert_eq!(first.title(), "First");
    assert_eq!(first.paragraph_count(), 0);
    let second = deck.next().unwrap();
    assert_eq!(second.title(), "Second");
    assert_eq!(paragraphs(second), vec!["body"]);
}

#[test]
fn slide_renders_title_as_second_level_heading() {
    let mut deck = md_to_slides("## Title\nBody".to_string());
    assert_eq!(deck.next().unwrap().to_html(), "<h2>Title</h2>\n<p>Body</p>\n");
    let mut deck = md_to_slides("##### Title\n\nBody".to_string());
    assert_eq!(deck.next().unwrap().to_html(), "<h2>Title</h2>\n<p>Body</p>\n");
}

#[test]
fn untitled_slide_renders_empty_heading() {
    let mut deck = md_to_slides("just text\nand more".to_string());
    assert_eq!(
        deck.next().unwrap().to_html(),
        "<h2></h2>\n<p>just text</p>\n<p>and more</p>\n"
    );
}

#[test]
fn navigation_over_three_slides() {
    let mut deck = md_to_slides("# S0\n# S1\n# S2".to_string());
    assert_eq!(deck.len(), 3);
    assert_eq!(next_title(&mut deck).as_deref(), Some("S0"));
    assert_eq!(next_title(&mut deck).as_deref(), Some("S1"));
    assert_eq!(next_title(&mut deck).as_deref(), Some("S2"));
    assert_eq!(next_title(&mut deck).as_deref(), Some("S2"));
    assert_eq!(previous_title(&mut deck).as_deref(), Some("S1"));
    assert_eq!(previous_title(&mut deck).as_deref(), Some("S0"));
    assert_eq!(previous_title(&mut deck).as_deref(), Some("S0"));
}

#[test]
fn previous_before_next_shows_nothing() {
    let mut deck = md_to_slides("# S0\n# S1\n# S2".to_string());
    assert!(deck.previous().is_none());
    assert_eq!(next_title(&mut deck).as_deref(), Some("S0"));
}

#[test]
fn empty_deck_shows_nothing() {
    let mut deck = Slides::new();
    assert_eq!(deck.len(), 0);
    for _ in 0..3 {
        assert!(deck.next().is_none());
        assert!(deck.previous().is_none());
    }
    let mut deck = md_to_slides("\n\n\n".to_string());
    assert_eq!(deck.len(), 0);
    assert!(deck.next().is_none());
    assert!(deck.previous().is_none());
    assert_eq!(md_to_slides(String::new()).len(), 0);
}

#[test]
fn seven_markers_are_a_paragraph() {
    assert_eq!(md_to_html("####### x".to_string()), "<p>####### x</p>\n");
    assert_eq!(md_to_html("###### x".to_string()), "<h6>x</h6>\n");
}

#[test]
fn bare_markers_are_not_a_heading() {
    assert_eq!(md_to_html("###".to_string()), "<p>###</p>\n");
    assert_eq!(md_to_html("###\nabc".to_string()), "<p>###</p>\n<p>abc</p>\n");
    assert_eq!(md_to_html("##  \n".to_string()), "<p>##  </p>\n");
}

#[test]
fn blank_lines_give_no_nodes() {
    assert_eq!(md_to_html("a\n\n\n\nb\n".to_string()), "<p>a</p>\n<p>b</p>\n");
    assert_eq!(md_to_html("\n\n# T\n\n\n".to_string()), "<h1>T</h1>\n");
    assert_eq!(md_to_html(String::new()), "");
}

#[test]
fn every_heading_level_renders() {
    assert_eq!(
        md_to_html("# a\n## b\n### c\n#### d\n##### e\n###### f".to_string()),
        "<h1>a</h1>\n<h2>b</h2>\n<h3>c</h3>\n<h4>d</h4>\n<h5>e</h5>\n<h6>f</h6>\n"
    );
}

#[test]
fn title_may_follow_markers_directly() {
    assert_eq!(md_to_html("##abc".to_string()), "<h2>abc</h2>\n");
    assert_eq!(md_to_html("##   spaced out".to_string()), "<h2>spaced out</h2>\n");
}

#[test]
fn text_is_not_escaped() {
    assert_eq!(md_to_html("<b>x</b> & y".to_string()), "<p><b>x</b> & y</p>\n");
}

#[test]
fn non_ascii_text_is_kept() {
    assert_eq!(md_to_html("# Ünïcödé ✓\nñandú".to_string()), "<h1>Ünïcödé ✓</h1>\n<p>ñandú</p>\n");
    let mut deck = md_to_slides("# Größe\n日本語".to_string());
    let slide = deck.next().unwrap();
    assert_eq!(slide.title(), "Größe");
    assert_eq!(paragraphs(slide), vec!["日本語"]);
}

#[test]
fn sample_deck() {
    let text = "# Example slideshow\n\nHello world\n\n## Second slide\n\nA paragraph\n\nAnother paragraph\n\n## Third slide\n\nThis is great.";
    let mut deck = md_to_slides(text.to_string());
    assert_eq!(deck.len(), 3);
    assert_eq!(deck.next().unwrap().to_html(), "<h2>Example slideshow</h2>\n<p>Hello world</p>\n");
    assert_eq!(
        deck.next().unwrap().to_html(),
        "<h2>Second slide</h2>\n<p>A paragraph</p>\n<p>Another paragraph</p>\n"
    );
    assert_eq!(deck.next().unwrap().to_html(), "<h2>Third slide</h2>\n<p>This is great.</p>\n");
}
