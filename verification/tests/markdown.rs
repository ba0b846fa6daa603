//! The blocks and spans of Markdown texts.
use codeatlas::markdown::{
    parse_inline, parse_inline_into, parse_markdown_blocks, InlineKind, InlineSpan, InlineStyle, MarkdownBlock,
};

#[test]
fn markdown_parses_headings_lists_and_fenced_code_as_blocks() {
    assert_eq!(
        parse_markdown_blocks(
            "# 标题 Heading\n\n- 第一项\n* second\n1. ordered\n2) 第二项\n\n```rust\nfn main() {}\n```"
        ),
        vec![
            MarkdownBlock::Heading {
                level: 1,
                text: "标题 Heading".to_owned(),
            },
            MarkdownBlock::UnorderedItem("第一项".to_owned()),
            MarkdownBlock::UnorderedItem("second".to_owned()),
            MarkdownBlock::OrderedItem {
                number: "1".to_owned(),
                text: "ordered".to_owned(),
            },
            MarkdownBlock::OrderedItem {
                number: "2".to_owned(),
                text: "第二项".to_owned(),
            },
            MarkdownBlock::Code("fn main() {}".to_owned()),
        ]
    );
}

#[test]
fn markdown_inline_markers_become_styles_without_damaging_unicode() {
    let spans = parse_inline(
        "中文 **bold 强调** and `foo::bar` with [链接](https://example.com)",
        InlineStyle::default(),
    );
    let visible_text = spans
        .iter()
        .map(|span| span.text.as_str())
        .collect::<String>();

    assert_eq!(visible_text, "中文 bold 强调 and foo::bar with 链接");
    assert!(
        spans
            .iter()
            .any(|span| span.text == "bold 强调" && span.style.strong)
    );
    assert!(
        spans
            .iter()
            .any(|span| span.text == "foo::bar" && span.style.kind == InlineKind::Code)
    );
    assert!(
        spans
            .iter()
            .any(|span| span.text == "链接" && span.style.kind == InlineKind::Link)
    );
    assert_eq!(
        parse_inline("unmatched **marker", InlineStyle::default()),
        vec![InlineSpan {
            text: "unmatched **marker".to_owned(),
            style: InlineStyle::default(),
        }]
    );
    assert_eq!(
        parse_inline("provider_call_ids", InlineStyle::default()),
        vec![InlineSpan {
            text: "provider_call_ids".to_owned(),
            style: InlineStyle::default(),
        }]
    );
}

#[test]
fn fenced_code_is_kept_as_it_is_and_an_open_fence_runs_to_the_end() {
    assert_eq!(
        parse_markdown_blocks("~~~~\n# no heading\n```\n- no item\n~~~~\nafter"),
        vec![
            MarkdownBlock::Code("# no heading\n```\n- no item".to_owned()),
            MarkdownBlock::Paragraph("after".to_owned()),
        ]
    );
    assert_eq!(
        parse_markdown_blocks("```\nopen"),
        vec![MarkdownBlock::Code("open".to_owned())]
    );
}

#[test]
fn text_without_markers_stays_one_span() {
    let plain = "A plain sentence, with 标点。";
    assert_eq!(
        parse_inline(plain, InlineStyle::default()),
        vec![InlineSpan {
            text: plain.to_owned(),
            style: InlineStyle::default(),
        }]
    );
    assert!(parse_inline("", InlineStyle::default()).is_empty());
}

#[test]
fn neighbouring_spans_differ_in_style() {
    let spans = parse_inline("a **b** `c` *d* e", InlineStyle::default());
    for pair in spans.windows(2) {
        assert_ne!(pair[0].style, pair[1].style);
    }
    let visible: String = spans.iter().map(|span| span.text.as_str()).collect();
    assert_eq!(visible, "a b c d e");
    assert!(spans.iter().any(|span| span.text == "d" && span.style.emphasis));
}

#[test]
fn text_behind_a_span_of_the_same_style_is_added_to_it() {
    let plain = InlineStyle::default();
    let spans = parse_inline("a \\* b **c** d", plain);
    assert_eq!(spans.len(), 3);
    assert_eq!(spans[0].text, "a * b ");
    assert_eq!(spans[0].style, plain);
    assert_eq!(spans[1].text, "c");
    assert!(spans[1].style.strong);
    assert_eq!(spans[2].text, " d");
    assert_eq!(spans[2].style, plain);
}

#[test]
fn spans_are_appended_to_those_that_are_there() {
    let plain = InlineStyle::default();
    let span = |text: &str, style: InlineStyle| InlineSpan {
        text: text.to_owned(),
        style,
    };
    let strong = InlineStyle {
        strong: true,
        ..plain
    };
    let mut spans = vec![span("one", strong), span("two", plain)];
    parse_inline_into(" three", plain, &mut spans);
    assert_eq!(spans, vec![span("one", strong), span("two three", plain)]);
    parse_inline_into("**four** 五", plain, &mut spans);
    assert_eq!(
        spans,
        vec![
            span("one", strong),
            span("two three", plain),
            span("four", strong),
            span(" 五", plain),
        ]
    );
}
