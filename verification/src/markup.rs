//! A rendered document holds no markup but the renderer's own.
use crate::diagram;
use crate::digest;
use crate::evidence::Diagram;
use crate::layout::{EdgeLayout, Layout, NodeLayout};
use crate::svg;
use crate::text;
use crate::wrap;
use vstd::prelude::*;

verus! {

/// A character that may follow the name of a tag.
pub open spec fn ends_name(c: char) -> bool {
    c == ' ' || c == '>'
}

/// Whether the name of one of the renderer's tags stands at `at`, and no longer name.
pub open spec fn name_at(s: Seq<char>, at: int) -> bool {
    ||| at + 1 < s.len() && s[at] == 'g' && ends_name(s[at + 1])
    ||| at + 3 < s.len() && s[at] == 's' && s[at + 1] == 'v' && s[at + 2] == 'g' && ends_name(
        s[at + 3],
    )
    ||| at + 4 < s.len() && s[at] == 'd' && s[at + 1] == 'e' && s[at + 2] == 's' && s[at + 3] == 'c'
        && ends_name(s[at + 4])
    ||| at + 4 < s.len() && s[at] == 'd' && s[at + 1] == 'e' && s[at + 2] == 'f' && s[at + 3] == 's'
        && ends_name(s[at + 4])
    ||| at + 4 < s.len() && s[at] == 'p' && s[at + 1] == 'a' && s[at + 2] == 't' && s[at + 3] == 'h'
        && ends_name(s[at + 4])
    ||| at + 4 < s.len() && s[at] == 'r' && s[at + 1] == 'e' && s[at + 2] == 'c' && s[at + 3] == 't'
        && ends_name(s[at + 4])
    ||| at + 4 < s.len() && s[at] == 't' && s[at + 1] == 'e' && s[at + 2] == 'x' && s[at + 3] == 't'
        && ends_name(s[at + 4])
    ||| at + 4 < s.len() && s[at] == '?' && s[at + 1] == 'x' && s[at + 2] == 'm' && s[at + 3] == 'l'
        && ends_name(s[at + 4])
    ||| at + 5 < s.len() && s[at] == 't' && s[at + 1] == 'i' && s[at + 2] == 't' && s[at + 3] == 'l'
        && s[at + 4] == 'e' && ends_name(s[at + 5])
    ||| at + 5 < s.len() && s[at] == 't' && s[at + 1] == 's' && s[at + 2] == 'p' && s[at + 3] == 'a'
        && s[at + 4] == 'n' && ends_name(s[at + 5])
    ||| at + 6 < s.len() && s[at] == 'm' && s[at + 1] == 'a' && s[at + 2] == 'r' && s[at + 3] == 'k'
        && s[at + 4] == 'e' && s[at + 5] == 'r' && ends_name(s[at + 6])
}

/// Whether the character at `i` can stand in XML and, where it opens markup, opens
/// one of the renderer's own tags or closes it.
pub open spec fn in_place(s: Seq<char>, i: int) -> bool {
    &&& wrap::is_xml(s[i])
    &&& s[i] == '<' ==> name_at(s, i + 1) || (i + 1 < s.len() && s[i + 1] == '/' && name_at(
        s,
        i + 2,
    ))
}

/// A text in which every character is in place.
pub open spec fn own_markup(s: Seq<char>) -> bool {
    forall|i: int| 0 <= i < s.len() ==> #[trigger] in_place(s, i)
}

spec fn in_place_to(s: Seq<char>, count: int) -> bool
    decreases count,
{
    count <= 0 || (in_place(s, count - 1) && in_place_to(s, count - 1))
}

proof fn lemma_in_place_to(s: Seq<char>, count: int)
    requires
        in_place_to(s, count),
    ensures
        forall|i: int| 0 <= i < count ==> #[trigger] in_place(s, i),
    decreases count,
{
    if count > 0 {
        lemma_in_place_to(s, count - 1);
    }
}

broadcast proof fn lemma_joined(left: Seq<char>, right: Seq<char>)
    requires
        own_markup(left),
        own_markup(right),
    ensures
        #[trigger] own_markup(left + right),
{
    let whole = left + right;
    assert forall|i: int| 0 <= i < whole.len() implies #[trigger] in_place(whole, i) by {
        if i < left.len() {
            assert(in_place(left, i));
            assert(whole.take(left.len() as int) =~= left);
        } else {
            assert(in_place(right, i - left.len()));
            assert(whole.skip(left.len() as int) =~= right);
        }
    }
}

proof fn lemma_plain(s: Seq<char>)
    requires
        forall|i: int| 0 <= i < s.len() ==> wrap::is_xml(#[trigger] s[i]) && s[i] != '<',
    ensures
        own_markup(s),
{
}

broadcast proof fn lemma_decimal_pieces(value: nat)
    ensures
        #[trigger] own_markup(text::decimal(value)),
    decreases value,
{
    if value < 10 {
        lemma_plain(text::decimal(value));
    } else {
        lemma_decimal_pieces(value / 10);
        let last = seq![text::digit((value % 10) as int)];
        lemma_plain(last);
        lemma_joined(text::decimal(value / 10), last);
        assert(text::decimal(value / 10) + last =~= text::decimal(value));
    }
}

broadcast proof fn lemma_signed_pieces(value: int)
    ensures
        #[trigger] own_markup(text::signed(value)),
{
    lemma_plain(seq!['-']);
    lemma_decimal_pieces(value as nat);
    lemma_decimal_pieces((-value) as nat);
    lemma_joined(seq!['-'], text::decimal((-value) as nat));
}

broadcast proof fn lemma_escaped_pieces(s: Seq<char>)
    ensures
        #[trigger] own_markup(svg::escaped(s)),
{
    svg::law_escaped_text_is_harmless(s);
    assert forall|i: int| 0 <= i < svg::escaped(s).len() implies wrap::is_xml(
        #[trigger] svg::escaped(s)[i],
    ) && svg::escaped(s)[i] != '<' by {
        assert(svg::harmless(svg::escaped(s)[i]));
    }
    lemma_plain(svg::escaped(s));
}

proof fn lemma_hex_pieces(value: nat, width: nat)
    ensures
        own_markup(digest::hex_text(value, width)),
    decreases width,
{
    if width > 0 {
        lemma_hex_pieces(value / 16, (width - 1) as nat);
        let last = seq![digest::hex_digit((value % 16) as int)];
        lemma_plain(last);
        lemma_joined(digest::hex_text(value / 16, (width - 1) as nat), last);
        assert(digest::hex_text(value / 16, (width - 1) as nat) + last =~= digest::hex_text(
            value,
            width,
        ));
    }
}

proof fn lemma_opening_pieces()
    ensures
        own_markup("<?xml version=\"1.0\" encoding=\"UTF-8\"?>\n"@),
        own_markup("<svg xmlns=\"http://www.w3.org/2000/svg\" width=\""@),
        own_markup("\" height=\""@),
        own_markup("\" viewBox=\"0 0 "@),
        own_markup(" "@),
        own_markup("\" role=\"img\" aria-labelledby=\"diagram-title-0 diagram-description-0\" data-kind=\""@),
        own_markup("\">\n"@),
        own_markup("  <title id=\"diagram-title-0\">"@),
        own_markup("</title>\n  <desc id=\"diagram-description-0\">CodeAtlas "@),
        own_markup(" diagram. Title: "@),
        own_markup("</desc>\n"@),
        own_markup("  <defs>\n    <marker id=\"arrowhead-0\" markerWidth=\"10\" markerHeight=\"10\" refX=\"9\" refY=\"5\" orient=\"auto\" markerUnits=\"strokeWidth\">\n      <path d=\"M 0 0 L 10 5 L 0 10 Z\" fill=\"#7dd3fc\"/>\n    </marker>\n  </defs>\n"@),
        own_markup("  <rect x=\"0\" y=\"0\" width=\""@),
        own_markup("\" fill=\"#080d18\"/>\n"@),
        own_markup("architecture"@),
        own_markup("flow"@),
        own_markup("relationship"@),
        own_markup("Architecture"@),
        own_markup("Flow"@),
        own_markup("Relationship"@),
{
    assert(own_markup("<?xml version=\"1.0\" encoding=\"UTF-8\"?>\n"@)) by {
        let piece = "<?xml version=\"1.0\" encoding=\"UTF-8\"?>\n"@;
        reveal_strlit("<?xml version=\"1.0\" encoding=\"UTF-8\"?>\n");
        reveal_with_fuel(in_place_to, 26);
        assert(in_place_to(piece, 25));
        lemma_in_place_to(piece, 39);
    }
    assert(own_markup("<svg xmlns=\"http://www.w3.org/2000/svg\" width=\""@)) by {
        let piece = "<svg xmlns=\"http://www.w3.org/2000/svg\" width=\""@;
        reveal_strlit("<svg xmlns=\"http://www.w3.org/2000/svg\" width=\"");
        reveal_with_fuel(in_place_to, 26);
        assert(in_place_to(piece, 25));
        lemma_in_place_to(piece, 47);
    }
    assert(own_markup("\" height=\""@)) by {
        let piece = "\" height=\""@;
        reveal_strlit("\" height=\"");
        reveal_with_fuel(in_place_to, 11);
        lemma_in_place_to(piece, 10);
    }
    assert(own_markup("\" viewBox=\"0 0 "@)) by {
        let piece = "\" viewBox=\"0 0 "@;
        reveal_strlit("\" viewBox=\"0 0 ");
        reveal_with_fuel(in_place_to, 16);
        lemma_in_place_to(piece, 15);
    }
    assert(own_markup(" "@)) by {
        let piece = " "@;
        reveal_strlit(" ");
        reveal_with_fuel(in_place_to, 2);
        lemma_in_place_to(piece, 1);
    }
    assert(own_markup("\" role=\"img\" aria-labelledby=\"diagram-title-0 diagram-description-0\" data-kind=\""@)) by {
        let piece = "\" role=\"img\" aria-labelledby=\"diagram-title-0 diagram-description-0\" data-kind=\""@;
        reveal_strlit("\" role=\"img\" aria-labelledby=\"diagram-title-0 diagram-description-0\" data-kind=\"");
        reveal_with_fuel(in_place_to, 26);
        assert(in_place_to(piece, 25));
        assert(in_place_to(piece, 50));
        assert(in_place_to(piece, 75));
        lemma_in_place_to(piece, 80);
    }
    assert(own_markup("\">\n"@)) by {
        let piece = "\">\n"@;
        reveal_strlit("\">\n");
        reveal_with_fuel(in_place_to, 4);
        lemma_in_place_to(piece, 3);
    }
    assert(own_markup("  <title id=\"diagram-title-0\">"@)) by {
        let piece = "  <title id=\"diagram-title-0\">"@;
        reveal_strlit("  <title id=\"diagram-title-0\">");
        reveal_with_fuel(in_place_to, 26);
        assert(in_place_to(piece, 25));
        lemma_in_place_to(piece, 30);
    }
    assert(own_markup("</title>\n  <desc id=\"diagram-description-0\">CodeAtlas "@)) by {
        let piece = "</title>\n  <desc id=\"diagram-description-0\">CodeAtlas "@;
        reveal_strlit("</title>\n  <desc id=\"diagram-description-0\">CodeAtlas ");
        reveal_with_fuel(in_place_to, 26);
        assert(in_place_to(piece, 25));
        assert(in_place_to(piece, 50));
        lemma_in_place_to(piece, 54);
    }
    assert(own_markup(" diagram. Title: "@)) by {
        let piece = " diagram. Title: "@;
        reveal_strlit(" diagram. Title: ");
        reveal_with_fuel(in_place_to, 18);
        lemma_in_place_to(piece, 17);
    }
    assert(own_markup("</desc>\n"@)) by {
        let piece = "</desc>\n"@;
        reveal_strlit("</desc>\n");
        reveal_with_fuel(in_place_to, 9);
        lemma_in_place_to(piece, 8);
    }
    assert(own_markup("  <defs>\n    <marker id=\"arrowhead-0\" markerWidth=\"10\" markerHeight=\"10\" refX=\"9\" refY=\"5\" orient=\"auto\" markerUnits=\"strokeWidth\">\n      <path d=\"M 0 0 L 10 5 L 0 10 Z\" fill=\"#7dd3fc\"/>\n    </marker>\n  </defs>\n"@)) by {
        let piece = "  <defs>\n    <marker id=\"arrowhead-0\" markerWidth=\"10\" markerHeight=\"10\" refX=\"9\" refY=\"5\" orient=\"auto\" markerUnits=\"strokeWidth\">\n      <path d=\"M 0 0 L 10 5 L 0 10 Z\" fill=\"#7dd3fc\"/>\n    </marker>\n  </defs>\n"@;
        reveal_strlit("  <defs>\n    <marker id=\"arrowhead-0\" markerWidth=\"10\" markerHeight=\"10\" refX=\"9\" refY=\"5\" orient=\"auto\" markerUnits=\"strokeWidth\">\n      <path d=\"M 0 0 L 10 5 L 0 10 Z\" fill=\"#7dd3fc\"/>\n    </marker>\n  </defs>\n");
        reveal_with_fuel(in_place_to, 26);
        assert(in_place_to(piece, 25));
        assert(in_place_to(piece, 50));
        assert(in_place_to(piece, 75));
        assert(in_place_to(piece, 100));
        assert(in_place_to(piece, 125));
        assert(in_place_to(piece, 150));
        assert(in_place_to(piece, 175));
        assert(in_place_to(piece, 200));
        lemma_in_place_to(piece, 211);
    }
    assert(own_markup("  <rect x=\"0\" y=\"0\" width=\""@)) by {
        let piece = "  <rect x=\"0\" y=\"0\" width=\""@;
        reveal_strlit("  <rect x=\"0\" y=\"0\" width=\"");
        reveal_with_fuel(in_place_to, 26);
        assert(in_place_to(piece, 25));
        lemma_in_place_to(piece, 27);
    }
    assert(own_markup("\" fill=\"#080d18\"/>\n"@)) by {
        let piece = "\" fill=\"#080d18\"/>\n"@;
        reveal_strlit("\" fill=\"#080d18\"/>\n");
        reveal_with_fuel(in_place_to, 20);
        lemma_in_place_to(piece, 19);
    }
    assert(own_markup("architecture"@)) by {
        let piece = "architecture"@;
        reveal_strlit("architecture");
        reveal_with_fuel(in_place_to, 13);
        lemma_in_place_to(piece, 12);
    }
    assert(own_markup("flow"@)) by {
        let piece = "flow"@;
        reveal_strlit("flow");
        reveal_with_fuel(in_place_to, 5);
        lemma_in_place_to(piece, 4);
    }
    assert(own_markup("relationship"@)) by {
        let piece = "relationship"@;
        reveal_strlit("relationship");
        reveal_with_fuel(in_place_to, 13);
        lemma_in_place_to(piece, 12);
    }
    assert(own_markup("Architecture"@)) by {
        let piece = "Architecture"@;
        reveal_strlit("Architecture");
        reveal_with_fuel(in_place_to, 13);
        lemma_in_place_to(piece, 12);
    }
    assert(own_markup("Flow"@)) by {
        let piece = "Flow"@;
        reveal_strlit("Flow");
        reveal_with_fuel(in_place_to, 5);
        lemma_in_place_to(piece, 4);
    }
    assert(own_markup("Relationship"@)) by {
        let piece = "Relationship"@;
        reveal_strlit("Relationship");
        reveal_with_fuel(in_place_to, 13);
        lemma_in_place_to(piece, 12);
    }
}

proof fn lemma_header_pieces()
    ensures
        own_markup("  <text x=\""@),
        own_markup("\" y=\""@),
        own_markup("\" fill=\"#f8fafc\" font-family=\"ui-monospace, monospace\" font-size=\"18\" font-weight=\"700\">"@),
        own_markup("</text>\n"@),
        own_markup("\" fill=\"#7dd3fc\" font-family=\"ui-monospace, monospace\" font-size=\"12\" font-weight=\"700\">"@),
        own_markup("  <path d=\"M "@),
        own_markup(" 76 L "@),
        own_markup(" 76\" fill=\"none\" stroke=\"#263248\" stroke-width=\"1\"/>\n"@),
        own_markup("ARCHITECTURE"@),
        own_markup("FLOW"@),
        own_markup("RELATIONSHIP"@),
{
    assert(own_markup("  <text x=\""@)) by {
        let piece = "  <text x=\""@;
        reveal_strlit("  <text x=\"");
        reveal_with_fuel(in_place_to, 12);
        lemma_in_place_to(piece, 11);
    }
    assert(own_markup("\" y=\""@)) by {
        let piece = "\" y=\""@;
        reveal_strlit("\" y=\"");
        reveal_with_fuel(in_place_to, 6);
        lemma_in_place_to(piece, 5);
    }
    assert(own_markup("\" fill=\"#f8fafc\" font-family=\"ui-monospace, monospace\" font-size=\"18\" font-weight=\"700\">"@)) by {
        let piece = "\" fill=\"#f8fafc\" font-family=\"ui-monospace, monospace\" font-size=\"18\" font-weight=\"700\">"@;
        reveal_strlit("\" fill=\"#f8fafc\" font-family=\"ui-monospace, monospace\" font-size=\"18\" font-weight=\"700\">");
        reveal_with_fuel(in_place_to, 26);
        assert(in_place_to(piece, 25));
        assert(in_place_to(piece, 50));
        assert(in_place_to(piece, 75));
        lemma_in_place_to(piece, 88);
    }
    assert(own_markup("</text>\n"@)) by {
        let piece = "</text>\n"@;
        reveal_strlit("</text>\n");
        reveal_with_fuel(in_place_to, 9);
        lemma_in_place_to(piece, 8);
    }
    assert(own_markup("\" fill=\"#7dd3fc\" font-family=\"ui-monospace, monospace\" font-size=\"12\" font-weight=\"700\">"@)) by {
        let piece = "\" fill=\"#7dd3fc\" font-family=\"ui-monospace, monospace\" font-size=\"12\" font-weight=\"700\">"@;
        reveal_strlit("\" fill=\"#7dd3fc\" font-family=\"ui-monospace, monospace\" font-size=\"12\" font-weight=\"700\">");
        reveal_with_fuel(in_place_to, 26);
        assert(in_place_to(piece, 25));
        assert(in_place_to(piece, 50));
        assert(in_place_to(piece, 75));
        lemma_in_place_to(piece, 88);
    }
    assert(own_markup("  <path d=\"M "@)) by {
        let piece = "  <path d=\"M "@;
        reveal_strlit("  <path d=\"M ");
        reveal_with_fuel(in_place_to, 14);
        lemma_in_place_to(piece, 13);
    }
    assert(own_markup(" 76 L "@)) by {
        let piece = " 76 L "@;
        reveal_strlit(" 76 L ");
        reveal_with_fuel(in_place_to, 7);
        lemma_in_place_to(piece, 6);
    }
    assert(own_markup(" 76\" fill=\"none\" stroke=\"#263248\" stroke-width=\"1\"/>\n"@)) by {
        let piece = " 76\" fill=\"none\" stroke=\"#263248\" stroke-width=\"1\"/>\n"@;
        reveal_strlit(" 76\" fill=\"none\" stroke=\"#263248\" stroke-width=\"1\"/>\n");
        reveal_with_fuel(in_place_to, 26);
        assert(in_place_to(piece, 25));
        assert(in_place_to(piece, 50));
        lemma_in_place_to(piece, 53);
    }
    assert(own_markup("ARCHITECTURE"@)) by {
        let piece = "ARCHITECTURE"@;
        reveal_strlit("ARCHITECTURE");
        reveal_with_fuel(in_place_to, 13);
        lemma_in_place_to(piece, 12);
    }
    assert(own_markup("FLOW"@)) by {
        let piece = "FLOW"@;
        reveal_strlit("FLOW");
        reveal_with_fuel(in_place_to, 5);
        lemma_in_place_to(piece, 4);
    }
    assert(own_markup("RELATIONSHIP"@)) by {
        let piece = "RELATIONSHIP"@;
        reveal_strlit("RELATIONSHIP");
        reveal_with_fuel(in_place_to, 13);
        lemma_in_place_to(piece, 12);
    }
}

proof fn lemma_lines_pieces()
    ensures
        own_markup("      <tspan x=\""@),
        own_markup("\" y=\""@),
        own_markup("\">"@),
        own_markup("</tspan>\n"@),
{
    assert(own_markup("      <tspan x=\""@)) by {
        let piece = "      <tspan x=\""@;
        reveal_strlit("      <tspan x=\"");
        reveal_with_fuel(in_place_to, 17);
        lemma_in_place_to(piece, 16);
    }
    assert(own_markup("\" y=\""@)) by {
        let piece = "\" y=\""@;
        reveal_strlit("\" y=\"");
        reveal_with_fuel(in_place_to, 6);
        lemma_in_place_to(piece, 5);
    }
    assert(own_markup("\">"@)) by {
        let piece = "\">"@;
        reveal_strlit("\">");
        reveal_with_fuel(in_place_to, 3);
        lemma_in_place_to(piece, 2);
    }
    assert(own_markup("</tspan>\n"@)) by {
        let piece = "</tspan>\n"@;
        reveal_strlit("</tspan>\n");
        reveal_with_fuel(in_place_to, 10);
        lemma_in_place_to(piece, 9);
    }
}

proof fn lemma_edge_label_pieces()
    ensures
        own_markup("    <rect x=\""@),
        own_markup("\" y=\""@),
        own_markup("\" width=\""@),
        own_markup("\" height=\""@),
        own_markup("\" rx=\"5\" fill=\"#111a2b\" stroke=\"#334155\" stroke-width=\"1\"/>\n"@),
        own_markup("    <text x=\""@),
        own_markup("\" text-anchor=\"middle\" fill=\"#bae6fd\" font-family=\"ui-monospace, monospace\" font-size=\""@),
        own_markup("\" font-weight=\"600\">\n"@),
        own_markup("    </text>\n"@),
{
    assert(own_markup("    <rect x=\""@)) by {
        let piece = "    <rect x=\""@;
        reveal_strlit("    <rect x=\"");
        reveal_with_fuel(in_place_to, 14);
        lemma_in_place_to(piece, 13);
    }
    assert(own_markup("\" y=\""@)) by {
        let piece = "\" y=\""@;
        reveal_strlit("\" y=\"");
        reveal_with_fuel(in_place_to, 6);
        lemma_in_place_to(piece, 5);
    }
    assert(own_markup("\" width=\""@)) by {
        let piece = "\" width=\""@;
        reveal_strlit("\" width=\"");
        reveal_with_fuel(in_place_to, 10);
        lemma_in_place_to(piece, 9);
    }
    assert(own_markup("\" height=\""@)) by {
        let piece = "\" height=\""@;
        reveal_strlit("\" height=\"");
        reveal_with_fuel(in_place_to, 11);
        lemma_in_place_to(piece, 10);
    }
    assert(own_markup("\" rx=\"5\" fill=\"#111a2b\" stroke=\"#334155\" stroke-width=\"1\"/>\n"@)) by {
        let piece = "\" rx=\"5\" fill=\"#111a2b\" stroke=\"#334155\" stroke-width=\"1\"/>\n"@;
        reveal_strlit("\" rx=\"5\" fill=\"#111a2b\" stroke=\"#334155\" stroke-width=\"1\"/>\n");
        reveal_with_fuel(in_place_to, 26);
        assert(in_place_to(piece, 25));
        assert(in_place_to(piece, 50));
        lemma_in_place_to(piece, 60);
    }
    assert(own_markup("    <text x=\""@)) by {
        let piece = "    <text x=\""@;
        reveal_strlit("    <text x=\"");
        reveal_with_fuel(in_place_to, 14);
        lemma_in_place_to(piece, 13);
    }
    assert(own_markup("\" text-anchor=\"middle\" fill=\"#bae6fd\" font-family=\"ui-monospace, monospace\" font-size=\""@)) by {
        let piece = "\" text-anchor=\"middle\" fill=\"#bae6fd\" font-family=\"ui-monospace, monospace\" font-size=\""@;
        reveal_strlit("\" text-anchor=\"middle\" fill=\"#bae6fd\" font-family=\"ui-monospace, monospace\" font-size=\"");
        reveal_with_fuel(in_place_to, 26);
        assert(in_place_to(piece, 25));
        assert(in_place_to(piece, 50));
        assert(in_place_to(piece, 75));
        lemma_in_place_to(piece, 87);
    }
    assert(own_markup("\" font-weight=\"600\">\n"@)) by {
        let piece = "\" font-weight=\"600\">\n"@;
        reveal_strlit("\" font-weight=\"600\">\n");
        reveal_with_fuel(in_place_to, 22);
        lemma_in_place_to(piece, 21);
    }
    assert(own_markup("    </text>\n"@)) by {
        let piece = "    </text>\n"@;
        reveal_strlit("    </text>\n");
        reveal_with_fuel(in_place_to, 13);
        lemma_in_place_to(piece, 12);
    }
}

proof fn lemma_edge_pieces()
    ensures
        own_markup("edge cycle-edge"@),
        own_markup("edge"@),
        own_markup("  <g id=\"edge-"@),
        own_markup("\" class=\""@),
        own_markup("\" data-claim-ids=\""@),
        own_markup("\" data-evidence-ids=\""@),
        own_markup("\">\n    <title>"@),
        own_markup(" -&gt; "@),
        own_markup(": "@),
        own_markup("</title>\n"@),
        own_markup("    <path d=\"M "@),
        own_markup(" "@),
        own_markup(" C "@),
        own_markup("\" fill=\"none\" stroke=\"#7dd3fc\" stroke-width=\"2\" stroke-linecap=\"round\" stroke-linejoin=\"round\" marker-end=\"url(#arrowhead-0)\""@),
        own_markup(" stroke-dasharray=\"8 7\""@),
        own_markup("/>\n"@),
        own_markup("  </g>\n"@),
{
    assert(own_markup("edge cycle-edge"@)) by {
        let piece = "edge cycle-edge"@;
        reveal_strlit("edge cycle-edge");
        reveal_with_fuel(in_place_to, 16);
        lemma_in_place_to(piece, 15);
    }
    assert(own_markup("edge"@)) by {
        let piece = "edge"@;
        reveal_strlit("edge");
        reveal_with_fuel(in_place_to, 5);
        lemma_in_place_to(piece, 4);
    }
    assert(own_markup("  <g id=\"edge-"@)) by {
        let piece = "  <g id=\"edge-"@;
        reveal_strlit("  <g id=\"edge-");
        reveal_with_fuel(in_place_to, 15);
        lemma_in_place_to(piece, 14);
    }
    assert(own_markup("\" class=\""@)) by {
        let piece = "\" class=\""@;
        reveal_strlit("\" class=\"");
        reveal_with_fuel(in_place_to, 10);
        lemma_in_place_to(piece, 9);
    }
    assert(own_markup("\" data-claim-ids=\""@)) by {
        let piece = "\" data-claim-ids=\""@;
        reveal_strlit("\" data-claim-ids=\"");
        reveal_with_fuel(in_place_to, 19);
        lemma_in_place_to(piece, 18);
    }
    assert(own_markup("\" data-evidence-ids=\""@)) by {
        let piece = "\" data-evidence-ids=\""@;
        reveal_strlit("\" data-evidence-ids=\"");
        reveal_with_fuel(in_place_to, 22);
        lemma_in_place_to(piece, 21);
    }
    assert(own_markup("\">\n    <title>"@)) by {
        let piece = "\">\n    <title>"@;
        reveal_strlit("\">\n    <title>");
        reveal_with_fuel(in_place_to, 15);
        lemma_in_place_to(piece, 14);
    }
    assert(own_markup(" -&gt; "@)) by {
        let piece = " -&gt; "@;
        reveal_strlit(" -&gt; ");
        reveal_with_fuel(in_place_to, 8);
        lemma_in_place_to(piece, 7);
    }
    assert(own_markup(": "@)) by {
        let piece = ": "@;
        reveal_strlit(": ");
        reveal_with_fuel(in_place_to, 3);
        lemma_in_place_to(piece, 2);
    }
    assert(own_markup("</title>\n"@)) by {
        let piece = "</title>\n"@;
        reveal_strlit("</title>\n");
        reveal_with_fuel(in_place_to, 10);
        lemma_in_place_to(piece, 9);
    }
    assert(own_markup("    <path d=\"M "@)) by {
        let piece = "    <path d=\"M "@;
        reveal_strlit("    <path d=\"M ");
        reveal_with_fuel(in_place_to, 16);
        lemma_in_place_to(piece, 15);
    }
    assert(own_markup(" "@)) by {
        let piece = " "@;
        reveal_strlit(" ");
        reveal_with_fuel(in_place_to, 2);
        lemma_in_place_to(piece, 1);
    }
    assert(own_markup(" C "@)) by {
        let piece = " C "@;
        reveal_strlit(" C ");
        reveal_with_fuel(in_place_to, 4);
        lemma_in_place_to(piece, 3);
    }
    assert(own_markup("\" fill=\"none\" stroke=\"#7dd3fc\" stroke-width=\"2\" stroke-linecap=\"round\" stroke-linejoin=\"round\" marker-end=\"url(#arrowhead-0)\""@)) by {
        let piece = "\" fill=\"none\" stroke=\"#7dd3fc\" stroke-width=\"2\" stroke-linecap=\"round\" stroke-linejoin=\"round\" marker-end=\"url(#arrowhead-0)\""@;
        reveal_strlit("\" fill=\"none\" stroke=\"#7dd3fc\" stroke-width=\"2\" stroke-linecap=\"round\" stroke-linejoin=\"round\" marker-end=\"url(#arrowhead-0)\"");
        reveal_with_fuel(in_place_to, 26);
        assert(in_place_to(piece, 25));
        assert(in_place_to(piece, 50));
        assert(in_place_to(piece, 75));
        assert(in_place_to(piece, 100));
        lemma_in_place_to(piece, 125);
    }
    assert(own_markup(" stroke-dasharray=\"8 7\""@)) by {
        let piece = " stroke-dasharray=\"8 7\""@;
        reveal_strlit(" stroke-dasharray=\"8 7\"");
        reveal_with_fuel(in_place_to, 24);
        lemma_in_place_to(piece, 23);
    }
    assert(own_markup("/>\n"@)) by {
        let piece = "/>\n"@;
        reveal_strlit("/>\n");
        reveal_with_fuel(in_place_to, 4);
        lemma_in_place_to(piece, 3);
    }
    assert(own_markup("  </g>\n"@)) by {
        let piece = "  </g>\n"@;
        reveal_strlit("  </g>\n");
        reveal_with_fuel(in_place_to, 8);
        lemma_in_place_to(piece, 7);
    }
}

proof fn lemma_node_pieces()
    ensures
        own_markup("node focus-node"@),
        own_markup("node"@),
        own_markup("#16243a"@),
        own_markup("#111a2b"@),
        own_markup("#fbbf24"@),
        own_markup("#52647f"@),
        own_markup("  <g id=\"node-"@),
        own_markup("\" class=\""@),
        own_markup("\" data-claim-ids=\""@),
        own_markup("\" data-evidence-ids=\""@),
        own_markup("\">\n    <title>"@),
        own_markup("</title>\n"@),
        own_markup("    <rect x=\""@),
        own_markup("\" y=\""@),
        own_markup("\" width=\""@),
        own_markup("\" height=\""@),
        own_markup("\" rx=\"12\" fill=\""@),
        own_markup("\" stroke=\""@),
        own_markup("\" stroke-width=\"2\"/>\n"@),
        own_markup("    <text x=\""@),
        own_markup("\" text-anchor=\"middle\" fill=\"#e2e8f0\" font-family=\"ui-monospace, monospace\" font-size=\""@),
        own_markup("\" font-weight=\"650\">\n"@),
        own_markup("    </text>\n  </g>\n"@),
{
    assert(own_markup("node focus-node"@)) by {
        let piece = "node focus-node"@;
        reveal_strlit("node focus-node");
        reveal_with_fuel(in_place_to, 16);
        lemma_in_place_to(piece, 15);
    }
    assert(own_markup("node"@)) by {
        let piece = "node"@;
        reveal_strlit("node");
        reveal_with_fuel(in_place_to, 5);
        lemma_in_place_to(piece, 4);
    }
    assert(own_markup("#16243a"@)) by {
        let piece = "#16243a"@;
        reveal_strlit("#16243a");
        reveal_with_fuel(in_place_to, 8);
        lemma_in_place_to(piece, 7);
    }
    assert(own_markup("#111a2b"@)) by {
        let piece = "#111a2b"@;
        reveal_strlit("#111a2b");
        reveal_with_fuel(in_place_to, 8);
        lemma_in_place_to(piece, 7);
    }
    assert(own_markup("#fbbf24"@)) by {
        let piece = "#fbbf24"@;
        reveal_strlit("#fbbf24");
        reveal_with_fuel(in_place_to, 8);
        lemma_in_place_to(piece, 7);
    }
    assert(own_markup("#52647f"@)) by {
        let piece = "#52647f"@;
        reveal_strlit("#52647f");
        reveal_with_fuel(in_place_to, 8);
        lemma_in_place_to(piece, 7);
    }
    assert(own_markup("  <g id=\"node-"@)) by {
        let piece = "  <g id=\"node-"@;
        reveal_strlit("  <g id=\"node-");
        reveal_with_fuel(in_place_to, 15);
        lemma_in_place_to(piece, 14);
    }
    assert(own_markup("\" class=\""@)) by {
        let piece = "\" class=\""@;
        reveal_strlit("\" class=\"");
        reveal_with_fuel(in_place_to, 10);
        lemma_in_place_to(piece, 9);
    }
    assert(own_markup("\" data-claim-ids=\""@)) by {
        let piece = "\" data-claim-ids=\""@;
        reveal_strlit("\" data-claim-ids=\"");
        reveal_with_fuel(in_place_to, 19);
        lemma_in_place_to(piece, 18);
    }
    assert(own_markup("\" data-evidence-ids=\""@)) by {
        let piece = "\" data-evidence-ids=\""@;
        reveal_strlit("\" data-evidence-ids=\"");
        reveal_with_fuel(in_place_to, 22);
        lemma_in_place_to(piece, 21);
    }
    assert(own_markup("\">\n    <title>"@)) by {
        let piece = "\">\n    <title>"@;
        reveal_strlit("\">\n    <title>");
        reveal_with_fuel(in_place_to, 15);
        lemma_in_place_to(piece, 14);
    }
    assert(own_markup("</title>\n"@)) by {
        let piece = "</title>\n"@;
        reveal_strlit("</title>\n");
        reveal_with_fuel(in_place_to, 10);
        lemma_in_place_to(piece, 9);
    }
    assert(own_markup("    <rect x=\""@)) by {
        let piece = "    <rect x=\""@;
        reveal_strlit("    <rect x=\"");
        reveal_with_fuel(in_place_to, 14);
        lemma_in_place_to(piece, 13);
    }
    assert(own_markup("\" y=\""@)) by {
        let piece = "\" y=\""@;
        reveal_strlit("\" y=\"");
        reveal_with_fuel(in_place_to, 6);
        lemma_in_place_to(piece, 5);
    }
    assert(own_markup("\" width=\""@)) by {
        let piece = "\" width=\""@;
        reveal_strlit("\" width=\"");
        reveal_with_fuel(in_place_to, 10);
        lemma_in_place_to(piece, 9);
    }
    assert(own_markup("\" height=\""@)) by {
        let piece = "\" height=\""@;
        reveal_strlit("\" height=\"");
        reveal_with_fuel(in_place_to, 11);
        lemma_in_place_to(piece, 10);
    }
    assert(own_markup("\" rx=\"12\" fill=\""@)) by {
        let piece = "\" rx=\"12\" fill=\""@;
        reveal_strlit("\" rx=\"12\" fill=\"");
        reveal_with_fuel(in_place_to, 17);
        lemma_in_place_to(piece, 16);
    }
    assert(own_markup("\" stroke=\""@)) by {
        let piece = "\" stroke=\""@;
        reveal_strlit("\" stroke=\"");
        reveal_with_fuel(in_place_to, 11);
        lemma_in_place_to(piece, 10);
    }
    assert(own_markup("\" stroke-width=\"2\"/>\n"@)) by {
        let piece = "\" stroke-width=\"2\"/>\n"@;
        reveal_strlit("\" stroke-width=\"2\"/>\n");
        reveal_with_fuel(in_place_to, 22);
        lemma_in_place_to(piece, 21);
    }
    assert(own_markup("    <text x=\""@)) by {
        let piece = "    <text x=\""@;
        reveal_strlit("    <text x=\"");
        reveal_with_fuel(in_place_to, 14);
        lemma_in_place_to(piece, 13);
    }
    assert(own_markup("\" text-anchor=\"middle\" fill=\"#e2e8f0\" font-family=\"ui-monospace, monospace\" font-size=\""@)) by {
        let piece = "\" text-anchor=\"middle\" fill=\"#e2e8f0\" font-family=\"ui-monospace, monospace\" font-size=\""@;
        reveal_strlit("\" text-anchor=\"middle\" fill=\"#e2e8f0\" font-family=\"ui-monospace, monospace\" font-size=\"");
        reveal_with_fuel(in_place_to, 26);
        assert(in_place_to(piece, 25));
        assert(in_place_to(piece, 50));
        assert(in_place_to(piece, 75));
        lemma_in_place_to(piece, 87);
    }
    assert(own_markup("\" font-weight=\"650\">\n"@)) by {
        let piece = "\" font-weight=\"650\">\n"@;
        reveal_strlit("\" font-weight=\"650\">\n");
        reveal_with_fuel(in_place_to, 22);
        lemma_in_place_to(piece, 21);
    }
    assert(own_markup("    </text>\n  </g>\n"@)) by {
        let piece = "    </text>\n  </g>\n"@;
        reveal_strlit("    </text>\n  </g>\n");
        reveal_with_fuel(in_place_to, 20);
        lemma_in_place_to(piece, 19);
    }
}

proof fn lemma_opening(drawn: Diagram, width: int, height: int)
    ensures
        own_markup(svg::opening(drawn, width, height)),
{
    broadcast use {lemma_joined, lemma_signed_pieces, lemma_escaped_pieces};

    reveal(svg::opening);
    lemma_opening_pieces();
    lemma_plain(Seq::<char>::empty());
}

proof fn lemma_header(shown: Seq<char>, drawn: Diagram, width: int)
    requires
        own_markup(shown),
    ensures
        own_markup(svg::with_header(shown, drawn, width)),
{
    broadcast use {lemma_joined, lemma_signed_pieces, lemma_escaped_pieces};

    reveal(svg::with_header);
    lemma_header_pieces();
}

broadcast proof fn lemma_lines(
    shown: Seq<char>,
    lines: Seq<Seq<char>>,
    x: int,
    first_y: int,
    line_height: int,
)
    requires
        own_markup(shown),
    ensures
        #[trigger] own_markup(svg::with_tspans(shown, lines, x, first_y, line_height)),
    decreases lines.len(),
{
    broadcast use {lemma_joined, lemma_signed_pieces, lemma_escaped_pieces};

    if lines.len() > 0 {
        lemma_lines(shown, lines.drop_last(), x, first_y, line_height);
        lemma_lines_pieces();
    }
}

broadcast proof fn lemma_ids(shown: Seq<char>, values: Seq<u128>)
    requires
        own_markup(shown),
    ensures
        #[trigger] own_markup(svg::with_ids(shown, values)),
    decreases values.len(),
{
    broadcast use lemma_joined;

    if values.len() > 0 {
        lemma_ids(shown, values.drop_last());
        lemma_hex_pieces(values.last() as nat, 32);
        lemma_plain(seq![' ']);
        let earlier = svg::with_ids(shown, values.drop_last());
        assert(earlier + seq![' '] =~= earlier.push(' '));
        assert(own_markup(earlier + seq![' ']));
    }
}

proof fn lemma_edge(shown: Seq<char>, whole: Diagram, drawn: EdgeLayout, sequence: int)
    requires
        own_markup(shown),
    ensures
        own_markup(svg::with_edge(shown, whole, drawn, sequence)),
{
    broadcast use {
        lemma_joined,
        lemma_signed_pieces,
        lemma_escaped_pieces,
        lemma_ids,
        lemma_lines,
    };

    reveal(svg::with_edge);
    lemma_edge_pieces();
    let head = svg::with_edge_head(shown, whole, drawn, sequence);
    assert(own_markup(head)) by {
        reveal(svg::with_edge_head);
    }
    let line = svg::with_edge_path(head, drawn);
    assert(own_markup(line)) by {
        reveal(svg::with_edge_path);
    }
    assert(own_markup(svg::with_edge_label(line, drawn))) by {
        reveal(svg::with_edge_label);
        lemma_edge_label_pieces();
    }
}

proof fn lemma_node(shown: Seq<char>, whole: Diagram, drawn: NodeLayout, sequence: int)
    requires
        own_markup(shown),
    ensures
        own_markup(svg::with_node(shown, whole, drawn, sequence)),
{
    broadcast use {
        lemma_joined,
        lemma_signed_pieces,
        lemma_escaped_pieces,
        lemma_ids,
        lemma_lines,
    };

    reveal(svg::with_node);
    lemma_node_pieces();
}

proof fn lemma_edges(shown: Seq<char>, whole: Diagram, edges: Seq<EdgeLayout>)
    requires
        own_markup(shown),
    ensures
        own_markup(svg::with_edges(shown, whole, edges)),
    decreases edges.len(),
{
    if edges.len() > 0 {
        lemma_edges(shown, whole, edges.drop_last());
        lemma_edge(
            svg::with_edges(shown, whole, edges.drop_last()),
            whole,
            edges.last(),
            edges.len() - 1,
        );
    }
}

proof fn lemma_nodes(shown: Seq<char>, whole: Diagram, nodes: Seq<NodeLayout>)
    requires
        own_markup(shown),
    ensures
        own_markup(svg::with_nodes(shown, whole, nodes)),
    decreases nodes.len(),
{
    if nodes.len() > 0 {
        lemma_nodes(shown, whole, nodes.drop_last());
        lemma_node(
            svg::with_nodes(shown, whole, nodes.drop_last()),
            whole,
            nodes.last(),
            nodes.len() - 1,
        );
    }
}

proof fn lemma_document(whole: Diagram, drawn: Layout)
    ensures
        own_markup(svg::document_text(whole, drawn)),
{
    let start = svg::opening(whole, drawn.width as int, drawn.height as int);
    lemma_opening(whole, drawn.width as int, drawn.height as int);
    let head = svg::with_header(start, whole, drawn.width as int);
    lemma_header(start, whole, drawn.width as int);
    let lines = svg::with_edges(head, whole, drawn.edges@);
    lemma_edges(head, whole, drawn.edges@);
    let boxes = svg::with_nodes(lines, whole, drawn.nodes@);
    lemma_nodes(lines, whole, drawn.nodes@);
    assert(own_markup("</svg>\n"@)) by {
        reveal_strlit("</svg>\n");
        reveal_with_fuel(in_place_to, 8);
        lemma_in_place_to("</svg>\n"@, 7);
    }
    lemma_joined(boxes, "</svg>\n"@);
}

/// No label, title or ID of a diagram can put markup of its own into the document, or
/// a character that XML does not know: the document is the UTF-8 of a text in which
/// every character can stand in XML, and every `<` opens or closes one of the tags
/// that the renderer writes.
pub proof fn law_document_holds_own_markup_only(whole: Diagram, bytes: Seq<u8>)
    requires
        diagram::renders_as(whole, bytes),
    ensures
        exists|shown: Seq<char>|
            bytes == vstd::utf8::encode_utf8(shown) && #[trigger] own_markup(shown),
{
    let (endpoints, drawn) = choose|endpoints: Seq<(usize, usize)>, drawn: Layout|
        {
            &&& #[trigger] diagram::arranged(whole, endpoints, drawn)
            &&& drawn.width <= diagram::MAX_DIMENSION
            &&& drawn.height <= diagram::MAX_DIMENSION
            &&& bytes.len() <= diagram::MAX_SVG_BYTES
            &&& bytes == vstd::utf8::encode_utf8(svg::document_text(whole, drawn))
        };
    lemma_document(whole, drawn);
}

} // verus!
