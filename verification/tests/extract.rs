use html5ever::tendril::StrTendril;
use html5ever::tokenizer::{BufferQueue, Token, TokenSink, TokenSinkResult, Tokenizer, TokenizerOpts};
use legend_of_link::extract::{extract_links, href_of, names_match, Attribute, Tag};

struct TagSink {
    tags: Vec<Tag>,
}

impl TokenSink for TagSink {
    type Handle = ();

    fn process_token(&mut self, token: Token, _line_number: u64) -> TokenSinkResult<()> {
        if let Token::TagToken(tag) = token {
            self.tags.push(Tag {
                name: tag.name.to_string(),
                attrs: tag
                    .attrs
                    .iter()
                    .map(|a| Attribute { name: a.name.local.to_string(), value: a.value.to_string() })
                    .collect(),
            });
        }
        TokenSinkResult::Continue
    }
}

fn tokenize(document: &str) -> Vec<Tag> {
    let mut input = BufferQueue::new();
    input.push_back(StrTendril::from_slice(document));
    let mut tokenizer = Tokenizer::new(TagSink { tags: Vec::new() }, TokenizerOpts::default());
    let _ = tokenizer.feed(&mut input);
    tokenizer.end();
    tokenizer.sink.tags
}

fn attr(name: &str, value: &str) -> Attribute {
    Attribute { name: name.to_string(), value: value.to_string() }
}

fn tag(name: &str, attrs: Vec<Attribute>) -> Tag {
    Tag { name: name.to_string(), attrs }
}

#[test]
fn extract_extract_links_test() {
    let contents = "
    <body>
    <a href=\"test\">hi</a>
    <a href=\"othertest\">hi</a>
    <A HREF=\"capstest\">hi</a>
    </body>"
        .to_string();

    let mut links = Vec::new();
    extract_links(&tokenize(&contents), &mut links);
    assert_eq!(links, vec!["test", "othertest", "capstest"]);
}

#[test]
fn extractor_extract_links_test() {
    let contents = "
    <body>
    <a href=\"test\">hi</a>
    <a href=\"othertest\">hi</a>
    <A HREF=\"capstest\">hi</a>
    </body>"
        .to_string();

    let tags = tokenize(&contents);
    let mut links = Vec::new();
    extract_links(&tags, &mut links);
    assert_eq!(links, vec!["test", "othertest", "capstest"]);
}

#[test]
fn names_match_ignores_ascii_case_only() {
    assert!(names_match("HREF", "href"));
    assert!(names_match("hReF", "href"));
    assert!(names_match("A", "a"));
    assert!(names_match("", ""));
    assert!(!names_match("hre", "href"));
    assert!(!names_match("href ", "href"));
    assert!(!names_match("b", "a"));
    assert!(!names_match("\u{e0}", "\u{c0}"));
    assert!(!names_match("@", "`"));
    assert!(!names_match("[", "{"));
}

#[test]
fn href_of_takes_the_first_href_of_an_anchor() {
    let t = tag("a", vec![attr("class", "x"), attr("href", "one"), attr("href", "two")]);
    assert_eq!(href_of(&t), Some("one".to_string()));
    let upper = tag("A", vec![attr("HREF", "Up")]);
    assert_eq!(href_of(&upper), Some("Up".to_string()));
}

#[test]
fn href_of_is_none_without_an_anchor_or_an_href() {
    assert_eq!(href_of(&tag("a", vec![])), None);
    assert_eq!(href_of(&tag("a", vec![attr("name", "top")])), None);
    assert_eq!(href_of(&tag("link", vec![attr("href", "style.css")])), None);
    assert_eq!(href_of(&tag("area", vec![attr("href", "x")])), None);
}

#[test]
fn extract_links_keeps_order_and_duplicates_and_appends() {
    let tags = vec![
        tag("a", vec![attr("href", "x")]),
        tag("p", vec![]),
        tag("a", vec![]),
        tag("a", vec![attr("href", "y")]),
        tag("a", vec![attr("href", "x")]),
    ];
    let mut links = vec!["before".to_string()];
    extract_links(&tags, &mut links);
    assert_eq!(links, vec!["before", "x", "y", "x"]);
    let mut none: Vec<String> = Vec::new();
    extract_links(&Vec::new(), &mut none);
    assert!(none.is_empty());
}
