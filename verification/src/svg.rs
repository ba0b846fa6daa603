//! SVG documents.
//!
//! The text that a step appends is stated by a function from the text before it
//! to the text behind it.
use crate::evidence::{Diagram, DiagramKind};
use crate::id;
use crate::id::{ClaimId, EvidenceId};
use crate::layout;
use crate::layout::{
    to_i32, EdgeLayout, Layout, NodeLayout, EDGE_LINE_HEIGHT, HEADER_KIND_Y, HEADER_TITLE_Y,
    NODE_LINE_HEIGHT, OUTER_MARGIN,
};
use crate::text;
use crate::wrap;
use vstd::prelude::*;

verus! {

pub const NODE_FONT_SIZE: i32 = 14;

pub const EDGE_FONT_SIZE: i32 = 12;

pub const EDGE_LABEL_UNIT_WIDTH: i32 = 8;

/// A rendered document, and the number of bytes it takes. The document is empty
/// when it would be larger than what was allowed.
#[derive(Debug)]
pub struct RenderedSvg {
    pub document: String,
    pub byte_len: usize,
}

/// Text that is collected up to a number of bytes, and counted beyond that.
pub struct SvgOutput {
    document: String,
    byte_len: usize,
    maximum: usize,
    overflowed: bool,
    shown: Ghost<Seq<char>>,
}

/// The number of bytes of a text, as far as it can be counted.
pub open spec fn counted_bytes(shown: Seq<char>) -> int {
    let bytes = vstd::utf8::encode_utf8(shown).len();
    if bytes <= usize::MAX {
        bytes as int
    } else {
        usize::MAX as int
    }
}

impl SvgOutput {
    /// Everything that was appended.
    pub closed spec fn shown(self) -> Seq<char> {
        self.shown@
    }

    pub closed spec fn maximum(self) -> usize {
        self.maximum
    }

    pub closed spec fn well_formed(self) -> bool {
        &&& self.maximum < usize::MAX
        &&& self.byte_len == counted_bytes(self.shown@)
        &&& self.overflowed == (self.byte_len > self.maximum)
        &&& self.document@ == if self.overflowed {
            Seq::<char>::empty()
        } else {
            self.shown@
        }
    }

    pub fn new(maximum: usize) -> (output: SvgOutput)
        requires
            maximum < usize::MAX,
        ensures
            output.well_formed(),
            output.shown() == Seq::<char>::empty(),
            output.maximum() == maximum,
    {
        assert(vstd::utf8::encode_utf8(Seq::empty()).len() == 0);
        SvgOutput {
            document: String::new(),
            byte_len: 0,
            maximum,
            overflowed: false,
            shown: Ghost(Seq::empty()),
        }
    }

    pub fn push_str(&mut self, value: &str)
        requires
            old(self).well_formed(),
        ensures
            final(self).well_formed(),
            final(self).shown() == old(self).shown() + value@,
            final(self).maximum() == old(self).maximum(),
    {
        proof {
            text::lemma_encode_concat(self.shown@, value@);
        }
        self.byte_len = self.byte_len.saturating_add(value.as_bytes().len());
        self.shown = Ghost(self.shown@ + value@);
        if self.overflowed {
            return;
        }
        if self.byte_len <= self.maximum {
            self.document.push_str(value);
        } else {
            self.document = String::new();
            self.overflowed = true;
        }
    }

    pub fn push(&mut self, character: char)
        requires
            old(self).well_formed(),
        ensures
            final(self).well_formed(),
            final(self).shown() == old(self).shown().push(character),
            final(self).maximum() == old(self).maximum(),
    {
        let mut single = String::new();
        single.push(character);
        self.push_str(single.as_str());
        assert(self.shown@ =~= old(self).shown@.push(character));
    }

    /// Appends a signed decimal number.
    pub fn push_number(&mut self, value: i32)
        requires
            old(self).well_formed(),
        ensures
            final(self).well_formed(),
            final(self).shown() == old(self).shown() + text::signed(value as int),
            final(self).maximum() == old(self).maximum(),
    {
        let numeral = text::signed_text(value as i64);
        self.push_str(numeral.as_str());
    }

    pub fn finish(self) -> (rendered: RenderedSvg)
        requires
            self.well_formed(),
        ensures
            rendered.byte_len == counted_bytes(self.shown()),
            rendered.document@ == if counted_bytes(self.shown()) > self.maximum() {
                Seq::<char>::empty()
            } else {
                self.shown()
            },
    {
        RenderedSvg { document: self.document, byte_len: self.byte_len }
    }
}

/// How a character is written in XML text.
pub open spec fn escape(c: char) -> Seq<char> {
    if !wrap::is_xml(c) {
        Seq::empty()
    } else if c == '&' {
        "&amp;"@
    } else if c == '<' {
        "&lt;"@
    } else if c == '>' {
        "&gt;"@
    } else if c == '"' {
        "&quot;"@
    } else if c == '\'' {
        "&apos;"@
    } else {
        seq![c]
    }
}

/// A text as XML text: what XML cannot hold is dropped, markup is escaped.
pub open spec fn escaped(s: Seq<char>) -> Seq<char>
    decreases s.len(),
{
    if s.len() == 0 {
        Seq::empty()
    } else {
        escaped(s.drop_last()) + escape(s.last())
    }
}

fn write_escaped(output: &mut SvgOutput, value: &str)
    requires
        old(output).well_formed(),
    ensures
        final(output).well_formed(),
        final(output).shown() == old(output).shown() + escaped(value@),
        final(output).maximum() == old(output).maximum(),
{
    let chars = text::chars_of(value);
    let mut index: usize = 0;
    assert(output.shown() + escaped(value@.take(0)) =~= output.shown());
    while index < chars.len()
        invariant
            index <= chars@.len(),
            chars@ == value@,
            output.well_formed(),
            output.shown() == old(output).shown() + escaped(value@.take(index as int)),
            output.maximum() == old(output).maximum(),
        decreases chars@.len() - index,
    {
        let character = chars[index];
        let ghost before = output.shown();
        assert(value@.take(index as int + 1).drop_last() =~= value@.take(index as int));
        if wrap::is_xml_character(character) {
            if character == '&' {
                output.push_str("&amp;");
            } else if character == '<' {
                output.push_str("&lt;");
            } else if character == '>' {
                output.push_str("&gt;");
            } else if character == '"' {
                output.push_str("&quot;");
            } else if character == '\'' {
                output.push_str("&apos;");
            } else {
                output.push(character);
            }
        }
        assert(output.shown() =~= before + escape(character));
        index = index + 1;
        assert(output.shown() =~= old(output).shown() + escaped(value@.take(index as int)));
    }
    assert(value@.take(value@.len() as int) =~= value@);
}

/// IDs in hexadecimal, separated by spaces.
pub open spec fn with_ids(shown: Seq<char>, values: Seq<u128>) -> Seq<char>
    decreases values.len(),
{
    if values.len() == 0 {
        shown
    } else {
        let earlier = with_ids(shown, values.drop_last());
        (if values.len() == 1 {
            earlier
        } else {
            earlier.push(' ')
        }) + id::id_text(values.last())
    }
}

fn write_claim_ids(output: &mut SvgOutput, ids: &Vec<ClaimId>)
    requires
        old(output).well_formed(),
    ensures
        final(output).well_formed(),
        final(output).shown() == with_ids(old(output).shown(), layout::claim_values(ids@)),
        final(output).maximum() == old(output).maximum(),
{
    let ghost values = layout::claim_values(ids@);
    let mut index: usize = 0;
    while index < ids.len()
        invariant
            index <= ids@.len(),
            values == layout::claim_values(ids@),
            output.well_formed(),
            output.shown() == with_ids(old(output).shown(), values.take(index as int)),
            output.maximum() == old(output).maximum(),
        decreases ids@.len() - index,
    {
        assert(values.take(index as int + 1).drop_last() =~= values.take(index as int));
        if index != 0 {
            output.push(' ');
        }
        let hex = ids[index].to_string();
        output.push_str(hex.as_str());
        index = index + 1;
    }
    assert(values.take(values.len() as int) =~= values);
}

fn write_evidence_ids(output: &mut SvgOutput, ids: &Vec<EvidenceId>)
    requires
        old(output).well_formed(),
    ensures
        final(output).well_formed(),
        final(output).shown() == with_ids(old(output).shown(), layout::evidence_values(ids@)),
        final(output).maximum() == old(output).maximum(),
{
    let ghost values = layout::evidence_values(ids@);
    let mut index: usize = 0;
    while index < ids.len()
        invariant
            index <= ids@.len(),
            values == layout::evidence_values(ids@),
            output.well_formed(),
            output.shown() == with_ids(old(output).shown(), values.take(index as int)),
            output.maximum() == old(output).maximum(),
        decreases ids@.len() - index,
    {
        assert(values.take(index as int + 1).drop_last() =~= values.take(index as int));
        if index != 0 {
            output.push(' ');
        }
        let hex = ids[index].to_string();
        output.push_str(hex.as_str());
        index = index + 1;
    }
    assert(values.take(values.len() as int) =~= values);
}

pub open spec fn kind_text(kind: DiagramKind) -> Seq<char> {
    match kind {
        DiagramKind::Architecture => "architecture"@,
        DiagramKind::Flow => "flow"@,
        DiagramKind::Relationship => "relationship"@,
    }
}

fn kind_name(kind: DiagramKind) -> (name: &'static str)
    ensures
        name@ == kind_text(kind),
{
    match kind {
        DiagramKind::Architecture => "architecture",
        DiagramKind::Flow => "flow",
        DiagramKind::Relationship => "relationship",
    }
}

pub open spec fn kind_title_text(kind: DiagramKind) -> Seq<char> {
    match kind {
        DiagramKind::Architecture => "Architecture"@,
        DiagramKind::Flow => "Flow"@,
        DiagramKind::Relationship => "Relationship"@,
    }
}

fn kind_title(kind: DiagramKind) -> (name: &'static str)
    ensures
        name@ == kind_title_text(kind),
{
    match kind {
        DiagramKind::Architecture => "Architecture",
        DiagramKind::Flow => "Flow",
        DiagramKind::Relationship => "Relationship",
    }
}

pub open spec fn kind_caption_text(kind: DiagramKind) -> Seq<char> {
    match kind {
        DiagramKind::Architecture => "ARCHITECTURE"@,
        DiagramKind::Flow => "FLOW"@,
        DiagramKind::Relationship => "RELATIONSHIP"@,
    }
}

fn kind_caption(kind: DiagramKind) -> (name: &'static str)
    ensures
        name@ == kind_caption_text(kind),
{
    match kind {
        DiagramKind::Architecture => "ARCHITECTURE",
        DiagramKind::Flow => "FLOW",
        DiagramKind::Relationship => "RELATIONSHIP",
    }
}

/// The title, the kind and the divider above the body.
#[verifier::opaque]
pub open spec fn with_header(shown: Seq<char>, diagram: Diagram, width: int) -> Seq<char> {
    shown + "  <text x=\""@ + text::signed(OUTER_MARGIN as int) + "\" y=\""@ + text::signed(
        HEADER_TITLE_Y as int,
    )
        + "\" fill=\"#f8fafc\" font-family=\"ui-monospace, monospace\" font-size=\"18\" font-weight=\"700\">"@
        + escaped(diagram.title@) + "</text>\n"@ + "  <text x=\""@ + text::signed(
        OUTER_MARGIN as int,
    ) + "\" y=\""@ + text::signed(HEADER_KIND_Y as int)
        + "\" fill=\"#7dd3fc\" font-family=\"ui-monospace, monospace\" font-size=\"12\" font-weight=\"700\">"@
        + kind_caption_text(diagram.kind) + "</text>\n"@ + "  <path d=\"M "@ + text::signed(
        OUTER_MARGIN as int,
    ) + " 76 L "@ + text::signed(width - OUTER_MARGIN)
        + " 76\" fill=\"none\" stroke=\"#263248\" stroke-width=\"1\"/>\n"@
}

fn write_header(output: &mut SvgOutput, diagram: &Diagram, width: i32)
    requires
        old(output).well_formed(),
        0 <= width,
    ensures
        final(output).well_formed(),
        final(output).shown() == with_header(old(output).shown(), *diagram, width as int),
        final(output).maximum() == old(output).maximum(),
{
    reveal(with_header);
    output.push_str("  <text x=\"");
    output.push_number(OUTER_MARGIN);
    output.push_str("\" y=\"");
    output.push_number(HEADER_TITLE_Y);
    output.push_str(
        "\" fill=\"#f8fafc\" font-family=\"ui-monospace, monospace\" font-size=\"18\" font-weight=\"700\">",
    );
    write_escaped(output, diagram.title.as_str());
    output.push_str("</text>\n");
    output.push_str("  <text x=\"");
    output.push_number(OUTER_MARGIN);
    output.push_str("\" y=\"");
    output.push_number(HEADER_KIND_Y);
    output.push_str(
        "\" fill=\"#7dd3fc\" font-family=\"ui-monospace, monospace\" font-size=\"12\" font-weight=\"700\">",
    );
    output.push_str(kind_caption(diagram.kind));
    output.push_str("</text>\n");
    output.push_str("  <path d=\"M ");
    output.push_number(OUTER_MARGIN);
    output.push_str(" 76 L ");
    output.push_number(width - OUTER_MARGIN);
    output.push_str(" 76\" fill=\"none\" stroke=\"#263248\" stroke-width=\"1\"/>\n");
}

/// Lines of text below each other.
pub open spec fn with_tspans(
    shown: Seq<char>,
    lines: Seq<Seq<char>>,
    x: int,
    first_y: int,
    line_height: int,
) -> Seq<char>
    decreases lines.len(),
{
    if lines.len() == 0 {
        shown
    } else {
        let y = first_y + (lines.len() - 1) * line_height;
        with_tspans(shown, lines.drop_last(), x, first_y, line_height) + "      <tspan x=\""@
            + text::signed(x) + "\" y=\""@ + text::signed(y) + "\">"@ + escaped(lines.last())
            + "</tspan>\n"@
    }
}

fn write_tspans(
    output: &mut SvgOutput,
    lines: &Vec<String>,
    x: i32,
    first_y: i32,
    line_height: i32,
)
    requires
        old(output).well_formed(),
        lines@.len() <= 1_000,
        -100_000 <= first_y <= 5_000_000,
        0 <= line_height <= 100,
    ensures
        final(output).well_formed(),
        final(output).shown() == with_tspans(
            old(output).shown(),
            wrap::string_views(lines@),
            x as int,
            first_y as int,
            line_height as int,
        ),
        final(output).maximum() == old(output).maximum(),
{
    let ghost views = wrap::string_views(lines@);
    let mut index: usize = 0;
    while index < lines.len()
        invariant
            index <= lines@.len() <= 1_000,
            -100_000 <= first_y <= 5_000_000,
            0 <= line_height <= 100,
            views == wrap::string_views(lines@),
            output.well_formed(),
            output.shown() == with_tspans(
                old(output).shown(),
                views.take(index as int),
                x as int,
                first_y as int,
                line_height as int,
            ),
            output.maximum() == old(output).maximum(),
        decreases lines@.len() - index,
    {
        assert(views.take(index as int + 1).drop_last() =~= views.take(index as int));
        let number: i32 = to_i32(index);
        assert(0 <= number * line_height <= 100_000) by (nonlinear_arith)
            requires
                0 <= number <= 1_000,
                0 <= line_height <= 100,
        ;
        let y: i32 = first_y + number * line_height;
        output.push_str("      <tspan x=\"");
        output.push_number(x);
        output.push_str("\" y=\"");
        output.push_number(y);
        output.push_str("\">");
        write_escaped(output, lines[index].as_str());
        output.push_str("</tspan>\n");
        index = index + 1;
    }
    assert(views.take(views.len() as int) =~= views);
}

/// Whether a label shows anything.
pub open spec fn visible(label: Seq<char>) -> bool {
    exists|i: int|
        0 <= i < label.len() && wrap::is_xml(#[trigger] label[i]) && !text::is_blank(label[i])
}

fn is_visible(label: &str) -> (shows: bool)
    ensures
        shows == visible(label@),
{
    let chars = text::chars_of(label);
    let mut index: usize = 0;
    while index < chars.len()
        invariant
            index <= chars@.len(),
            chars@ == label@,
            forall|i: int|
                0 <= i < index ==> !(wrap::is_xml(#[trigger] label@[i]) && !text::is_blank(
                    label@[i],
                )),
        decreases chars@.len() - index,
    {
        if wrap::is_xml_character(chars[index]) && !text::is_blank_char(chars[index]) {
            assert(wrap::is_xml(label@[index as int]));
            return true;
        }
        index = index + 1;
    }
    false
}

/// The display width of the widest of the first `count` lines.
pub open spec fn widest(lines: Seq<Seq<char>>, count: nat) -> int
    decreases count,
{
    if count == 0 {
        0
    } else {
        layout::larger(
            widest(lines, (count - 1) as nat),
            wrap::units(wrap::xml_only(lines[count - 1])) as int,
        )
    }
}

/// An edge whose label can be drawn.
pub open spec fn label_fits(edge: EdgeLayout) -> bool {
    &&& edge.label_lines@.len() <= 1_000
    &&& forall|i: int|
        0 <= i < edge.label_lines@.len() ==> (#[trigger] edge.label_lines@[i])@.len() <= 1_000
    &&& 0 <= edge.label_position.x <= 4_000_000
    &&& 0 <= edge.label_position.y <= 4_000_000
}

fn widest_line(lines: &Vec<String>) -> (width: usize)
    requires
        forall|i: int| 0 <= i < lines@.len() ==> (#[trigger] lines@[i])@.len() <= 1_000,
    ensures
        width == widest(wrap::string_views(lines@), lines@.len()),
        width <= 2_000,
{
    let mut width: usize = 0;
    let mut index: usize = 0;
    while index < lines.len()
        invariant
            index <= lines@.len(),
            forall|i: int| 0 <= i < lines@.len() ==> (#[trigger] lines@[i])@.len() <= 1_000,
            width == widest(wrap::string_views(lines@), index as nat),
            width <= 2_000,
        decreases lines@.len() - index,
    {
        assert(lines@[index as int]@.len() <= 1_000);
        proof {
            wrap::lemma_xml_units(lines@[index as int]@);
            assert(wrap::string_views(lines@)[index as int] == lines@[index as int]@);
        }
        let units = wrap::display_units(lines[index].as_str());
        if units > width {
            width = units;
        }
        index = index + 1;
    }
    width
}

/// The label of an edge in its box.
#[verifier::opaque]
pub open spec fn with_edge_label(shown: Seq<char>, edge: EdgeLayout) -> Seq<char> {
    let lines = wrap::string_views(edge.label_lines@);
    let count = lines.len() as int;
    let box_width = widest(lines, lines.len()) * EDGE_LABEL_UNIT_WIDTH + 16;
    let box_height = count * EDGE_LINE_HEIGHT + 10;
    let above = if count == 0 {
        0
    } else {
        count - 1
    };
    let baseline = edge.label_position.y - (above * EDGE_LINE_HEIGHT) / 2 + 4;
    with_tspans(
        shown + "    <rect x=\""@ + text::signed(edge.label_position.x - box_width / 2)
            + "\" y=\""@ + text::signed(edge.label_position.y - box_height / 2) + "\" width=\""@
            + text::signed(box_width) + "\" height=\""@ + text::signed(box_height)
            + "\" rx=\"5\" fill=\"#111a2b\" stroke=\"#334155\" stroke-width=\"1\"/>\n"@
            + "    <text x=\""@ + text::signed(edge.label_position.x as int) + "\" y=\""@
            + text::signed(baseline)
            + "\" text-anchor=\"middle\" fill=\"#bae6fd\" font-family=\"ui-monospace, monospace\" font-size=\""@
            + text::signed(EDGE_FONT_SIZE as int) + "\" font-weight=\"600\">\n"@,
        lines,
        edge.label_position.x as int,
        baseline,
        EDGE_LINE_HEIGHT as int,
    ) + "    </text>\n"@
}

fn write_edge_label(output: &mut SvgOutput, edge: &EdgeLayout)
    requires
        old(output).well_formed(),
        label_fits(*edge),
    ensures
        final(output).well_formed(),
        final(output).shown() == with_edge_label(old(output).shown(), *edge),
        final(output).maximum() == old(output).maximum(),
{
    reveal(with_edge_label);
    let box_width: i32 = to_i32(widest_line(&edge.label_lines)) * EDGE_LABEL_UNIT_WIDTH + 16;
    let count: i32 = to_i32(edge.label_lines.len());
    let box_height: i32 = count * EDGE_LINE_HEIGHT + 10;
    let box_x: i32 = edge.label_position.x - box_width / 2;
    let box_y: i32 = edge.label_position.y - box_height / 2;
    output.push_str("    <rect x=\"");
    output.push_number(box_x);
    output.push_str("\" y=\"");
    output.push_number(box_y);
    output.push_str("\" width=\"");
    output.push_number(box_width);
    output.push_str("\" height=\"");
    output.push_number(box_height);
    output.push_str("\" rx=\"5\" fill=\"#111a2b\" stroke=\"#334155\" stroke-width=\"1\"/>\n");
    let above: i32 = if count == 0 {
        0
    } else {
        count - 1
    };
    let first_baseline: i32 = edge.label_position.y - (above * EDGE_LINE_HEIGHT) / 2 + 4;
    output.push_str("    <text x=\"");
    output.push_number(edge.label_position.x);
    output.push_str("\" y=\"");
    output.push_number(first_baseline);
    output.push_str(
        "\" text-anchor=\"middle\" fill=\"#bae6fd\" font-family=\"ui-monospace, monospace\" font-size=\"",
    );
    output.push_number(EDGE_FONT_SIZE);
    output.push_str("\" font-weight=\"600\">\n");
    write_tspans(
        output,
        &edge.label_lines,
        edge.label_position.x,
        first_baseline,
        EDGE_LINE_HEIGHT,
    );
    output.push_str("    </text>\n");
}

/// The group of an edge up to its title.
#[verifier::opaque]
pub open spec fn with_edge_head(
    shown: Seq<char>,
    diagram: Diagram,
    drawn: EdgeLayout,
    sequence: int,
) -> Seq<char> {
    let edge = diagram.edges@[drawn.diagram_index as int];
    let source = diagram.nodes@[drawn.source_index as int];
    let target = diagram.nodes@[drawn.target_index as int];
    let class = if drawn.dashed {
        "edge cycle-edge"@
    } else {
        "edge"@
    };
    let bound = with_ids(
        with_ids(
            shown + "  <g id=\"edge-"@ + text::signed(sequence) + "\" class=\""@ + class
                + "\" data-claim-ids=\""@,
            layout::claim_values(edge.claim_ids@),
        ) + "\" data-evidence-ids=\""@,
        layout::evidence_values(edge.evidence_ids@),
    ) + "\">\n    <title>"@ + escaped(source.label@) + " -&gt; "@ + escaped(target.label@);
    (if visible(edge.label@) {
        bound + ": "@ + escaped(edge.label@)
    } else {
        bound
    }) + "</title>\n"@
}

/// The path of an edge.
#[verifier::opaque]
pub open spec fn with_edge_path(shown: Seq<char>, drawn: EdgeLayout) -> Seq<char> {
    let path = drawn.path;
    let line = shown + "    <path d=\"M "@ + text::signed(path.start.x as int) + " "@ + text::signed(
        path.start.y as int,
    ) + " C "@ + text::signed(path.control_1.x as int) + " "@ + text::signed(
        path.control_1.y as int,
    ) + " "@ + text::signed(path.control_2.x as int) + " "@ + text::signed(
        path.control_2.y as int,
    ) + " "@ + text::signed(path.end.x as int) + " "@ + text::signed(path.end.y as int)
        + "\" fill=\"none\" stroke=\"#7dd3fc\" stroke-width=\"2\" stroke-linecap=\"round\" stroke-linejoin=\"round\" marker-end=\"url(#arrowhead-0)\""@;
    (if drawn.dashed {
        line + " stroke-dasharray=\"8 7\""@
    } else {
        line
    }) + "/>\n"@
}

/// An edge with its bindings, its title, its path and its label.
#[verifier::opaque]
pub open spec fn with_edge(
    shown: Seq<char>,
    diagram: Diagram,
    drawn: EdgeLayout,
    sequence: int,
) -> Seq<char> {
    let drawn_path = with_edge_path(with_edge_head(shown, diagram, drawn, sequence), drawn);
    (if visible(diagram.edges@[drawn.diagram_index as int].label@) {
        with_edge_label(drawn_path, drawn)
    } else {
        drawn_path
    }) + "  </g>\n"@
}

fn write_edge_head(
    output: &mut SvgOutput,
    diagram: &Diagram,
    drawn: &EdgeLayout,
    sequence: usize,
)
    requires
        old(output).well_formed(),
        drawn.diagram_index < diagram.edges@.len(),
        drawn.source_index < diagram.nodes@.len(),
        drawn.target_index < diagram.nodes@.len(),
    ensures
        final(output).well_formed(),
        final(output).shown() == with_edge_head(
            old(output).shown(),
            *diagram,
            *drawn,
            sequence as int,
        ),
        final(output).maximum() == old(output).maximum(),
{
    reveal(with_edge_head);
    let edge = &diagram.edges[drawn.diagram_index];
    let source = &diagram.nodes[drawn.source_index];
    let target = &diagram.nodes[drawn.target_index];
    output.push_str("  <g id=\"edge-");
    let number = text::decimal_text(sequence as u64);
    output.push_str(number.as_str());
    output.push_str("\" class=\"");
    if drawn.dashed {
        output.push_str("edge cycle-edge");
    } else {
        output.push_str("edge");
    }
    output.push_str("\" data-claim-ids=\"");
    write_claim_ids(output, &edge.claim_ids);
    output.push_str("\" data-evidence-ids=\"");
    write_evidence_ids(output, &edge.evidence_ids);
    output.push_str("\">\n    <title>");
    write_escaped(output, source.label.as_str());
    output.push_str(" -&gt; ");
    write_escaped(output, target.label.as_str());
    if is_visible(edge.label.as_str()) {
        output.push_str(": ");
        write_escaped(output, edge.label.as_str());
    }
    output.push_str("</title>\n");
}

fn write_edge_path(output: &mut SvgOutput, drawn: &EdgeLayout)
    requires
        old(output).well_formed(),
    ensures
        final(output).well_formed(),
        final(output).shown() == with_edge_path(old(output).shown(), *drawn),
        final(output).maximum() == old(output).maximum(),
{
    reveal(with_edge_path);
    let path = drawn.path;
    output.push_str("    <path d=\"M ");
    output.push_number(path.start.x);
    output.push_str(" ");
    output.push_number(path.start.y);
    output.push_str(" C ");
    output.push_number(path.control_1.x);
    output.push_str(" ");
    output.push_number(path.control_1.y);
    output.push_str(" ");
    output.push_number(path.control_2.x);
    output.push_str(" ");
    output.push_number(path.control_2.y);
    output.push_str(" ");
    output.push_number(path.end.x);
    output.push_str(" ");
    output.push_number(path.end.y);
    output.push_str(
        "\" fill=\"none\" stroke=\"#7dd3fc\" stroke-width=\"2\" stroke-linecap=\"round\" stroke-linejoin=\"round\" marker-end=\"url(#arrowhead-0)\"",
    );
    if drawn.dashed {
        output.push_str(" stroke-dasharray=\"8 7\"");
    }
    output.push_str("/>\n");
}

fn write_edge(output: &mut SvgOutput, diagram: &Diagram, drawn: &EdgeLayout, sequence: usize)
    requires
        old(output).well_formed(),
        drawn.diagram_index < diagram.edges@.len(),
        drawn.source_index < diagram.nodes@.len(),
        drawn.target_index < diagram.nodes@.len(),
        label_fits(*drawn),
    ensures
        final(output).well_formed(),
        final(output).shown() == with_edge(old(output).shown(), *diagram, *drawn, sequence as int),
        final(output).maximum() == old(output).maximum(),
{
    reveal(with_edge);
    write_edge_head(output, diagram, drawn, sequence);
    write_edge_path(output, drawn);
    if is_visible(diagram.edges[drawn.diagram_index].label.as_str()) {
        write_edge_label(output, drawn);
    }
    output.push_str("  </g>\n");
}

/// A node whose label can be drawn.
pub open spec fn node_fits(drawn: NodeLayout) -> bool {
    &&& layout::placed(drawn.rect)
    &&& drawn.lines@.len() <= 1_000
}

/// A node with its bindings, its title, its box and its label.
#[verifier::opaque]
pub open spec fn with_node(
    shown: Seq<char>,
    diagram: Diagram,
    drawn: NodeLayout,
    sequence: int,
) -> Seq<char> {
    let node = diagram.nodes@[drawn.diagram_index as int];
    let class = if drawn.focused {
        "node focus-node"@
    } else {
        "node"@
    };
    let fill = if drawn.focused {
        "#16243a"@
    } else {
        "#111a2b"@
    };
    let stroke = if drawn.focused {
        "#fbbf24"@
    } else {
        "#52647f"@
    };
    let rect = drawn.rect;
    let lines = wrap::string_views(drawn.lines@);
    let above = if lines.len() == 0 {
        0
    } else {
        lines.len() - 1
    };
    let baseline = layout::mid_y(rect) - (above * NODE_LINE_HEIGHT) / 2 + 5;
    let bound = with_ids(
        with_ids(
            shown + "  <g id=\"node-"@ + text::signed(sequence) + "\" class=\""@ + class
                + "\" data-claim-ids=\""@,
            layout::claim_values(node.claim_ids@),
        ) + "\" data-evidence-ids=\""@,
        layout::evidence_values(node.evidence_ids@),
    ) + "\">\n    <title>"@ + escaped(node.label@) + "</title>\n"@;
    let boxed = bound + "    <rect x=\""@ + text::signed(rect.x as int) + "\" y=\""@
        + text::signed(rect.y as int) + "\" width=\""@ + text::signed(rect.width as int)
        + "\" height=\""@ + text::signed(rect.height as int) + "\" rx=\"12\" fill=\""@ + fill
        + "\" stroke=\""@ + stroke + "\" stroke-width=\"2\"/>\n"@;
    with_tspans(
        boxed + "    <text x=\""@ + text::signed(layout::mid_x(rect)) + "\" y=\""@ + text::signed(
            baseline,
        )
            + "\" text-anchor=\"middle\" fill=\"#e2e8f0\" font-family=\"ui-monospace, monospace\" font-size=\""@
            + text::signed(NODE_FONT_SIZE as int) + "\" font-weight=\"650\">\n"@,
        lines,
        layout::mid_x(rect),
        baseline,
        NODE_LINE_HEIGHT as int,
    ) + "    </text>\n  </g>\n"@
}

fn write_node(output: &mut SvgOutput, diagram: &Diagram, drawn: &NodeLayout, sequence: usize)
    requires
        old(output).well_formed(),
        drawn.diagram_index < diagram.nodes@.len(),
        node_fits(*drawn),
    ensures
        final(output).well_formed(),
        final(output).shown() == with_node(old(output).shown(), *diagram, *drawn, sequence as int),
        final(output).maximum() == old(output).maximum(),
{
    reveal(with_node);
    let node = &diagram.nodes[drawn.diagram_index];
    output.push_str("  <g id=\"node-");
    let number = text::decimal_text(sequence as u64);
    output.push_str(number.as_str());
    output.push_str("\" class=\"");
    if drawn.focused {
        output.push_str("node focus-node");
    } else {
        output.push_str("node");
    }
    output.push_str("\" data-claim-ids=\"");
    write_claim_ids(output, &node.claim_ids);
    output.push_str("\" data-evidence-ids=\"");
    write_evidence_ids(output, &node.evidence_ids);
    output.push_str("\">\n    <title>");
    write_escaped(output, node.label.as_str());
    output.push_str("</title>\n");
    let rect = drawn.rect;
    output.push_str("    <rect x=\"");
    output.push_number(rect.x);
    output.push_str("\" y=\"");
    output.push_number(rect.y);
    output.push_str("\" width=\"");
    output.push_number(rect.width);
    output.push_str("\" height=\"");
    output.push_number(rect.height);
    output.push_str("\" rx=\"12\" fill=\"");
    if drawn.focused {
        output.push_str("#16243a");
    } else {
        output.push_str("#111a2b");
    }
    output.push_str("\" stroke=\"");
    if drawn.focused {
        output.push_str("#fbbf24");
    } else {
        output.push_str("#52647f");
    }
    output.push_str("\" stroke-width=\"2\"/>\n");
    let count: i32 = to_i32(drawn.lines.len());
    let above: i32 = if count == 0 {
        0
    } else {
        count - 1
    };
    let first_baseline: i32 = rect.center_y() - (above * NODE_LINE_HEIGHT) / 2 + 5;
    output.push_str("    <text x=\"");
    output.push_number(rect.center_x());
    output.push_str("\" y=\"");
    output.push_number(first_baseline);
    output.push_str(
        "\" text-anchor=\"middle\" fill=\"#e2e8f0\" font-family=\"ui-monospace, monospace\" font-size=\"",
    );
    output.push_number(NODE_FONT_SIZE);
    output.push_str("\" font-weight=\"650\">\n");
    write_tspans(output, &drawn.lines, rect.center_x(), first_baseline, NODE_LINE_HEIGHT);
    output.push_str("    </text>\n  </g>\n");
}

/// The start of a document, up to the header.
#[verifier::opaque]
pub open spec fn opening(diagram: Diagram, width: int, height: int) -> Seq<char> {
    let kind = kind_text(diagram.kind);
    Seq::<char>::empty() + "<?xml version=\"1.0\" encoding=\"UTF-8\"?>\n"@
        + "<svg xmlns=\"http://www.w3.org/2000/svg\" width=\""@ + text::signed(width)
        + "\" height=\""@ + text::signed(height) + "\" viewBox=\"0 0 "@ + text::signed(width)
        + " "@ + text::signed(height)
        + "\" role=\"img\" aria-labelledby=\"diagram-title-0 diagram-description-0\" data-kind=\""@
        + kind + "\">\n"@ + "  <title id=\"diagram-title-0\">"@ + escaped(diagram.title@)
        + "</title>\n  <desc id=\"diagram-description-0\">CodeAtlas "@ + kind_title_text(
        diagram.kind,
    ) + " diagram. Title: "@ + escaped(diagram.title@) + "</desc>\n"@
        + "  <defs>\n    <marker id=\"arrowhead-0\" markerWidth=\"10\" markerHeight=\"10\" refX=\"9\" refY=\"5\" orient=\"auto\" markerUnits=\"strokeWidth\">\n      <path d=\"M 0 0 L 10 5 L 0 10 Z\" fill=\"#7dd3fc\"/>\n    </marker>\n  </defs>\n"@
        + "  <rect x=\"0\" y=\"0\" width=\""@ + text::signed(width) + "\" height=\""@
        + text::signed(height) + "\" fill=\"#080d18\"/>\n"@
}

fn write_opening(output: &mut SvgOutput, diagram: &Diagram, width: i32, height: i32)
    requires
        old(output).well_formed(),
        old(output).shown() == Seq::<char>::empty(),
    ensures
        final(output).well_formed(),
        final(output).shown() == opening(*diagram, width as int, height as int),
        final(output).maximum() == old(output).maximum(),
{
    reveal(opening);
    output.push_str("<?xml version=\"1.0\" encoding=\"UTF-8\"?>\n");
    output.push_str("<svg xmlns=\"http://www.w3.org/2000/svg\" width=\"");
    output.push_number(width);
    output.push_str("\" height=\"");
    output.push_number(height);
    output.push_str("\" viewBox=\"0 0 ");
    output.push_number(width);
    output.push_str(" ");
    output.push_number(height);
    output.push_str(
        "\" role=\"img\" aria-labelledby=\"diagram-title-0 diagram-description-0\" data-kind=\"",
    );
    output.push_str(kind_name(diagram.kind));
    output.push_str("\">\n");
    output.push_str("  <title id=\"diagram-title-0\">");
    write_escaped(output, diagram.title.as_str());
    output.push_str("</title>\n  <desc id=\"diagram-description-0\">CodeAtlas ");
    output.push_str(kind_title(diagram.kind));
    output.push_str(" diagram. Title: ");
    write_escaped(output, diagram.title.as_str());
    output.push_str("</desc>\n");
    output.push_str(
        "  <defs>\n    <marker id=\"arrowhead-0\" markerWidth=\"10\" markerHeight=\"10\" refX=\"9\" refY=\"5\" orient=\"auto\" markerUnits=\"strokeWidth\">\n      <path d=\"M 0 0 L 10 5 L 0 10 Z\" fill=\"#7dd3fc\"/>\n    </marker>\n  </defs>\n",
    );
    output.push_str("  <rect x=\"0\" y=\"0\" width=\"");
    output.push_number(width);
    output.push_str("\" height=\"");
    output.push_number(height);
    output.push_str("\" fill=\"#080d18\"/>\n");
}

pub open spec fn with_edges(
    shown: Seq<char>,
    diagram: Diagram,
    edges: Seq<EdgeLayout>,
) -> Seq<char>
    decreases edges.len(),
{
    if edges.len() == 0 {
        shown
    } else {
        with_edge(
            with_edges(shown, diagram, edges.drop_last()),
            diagram,
            edges.last(),
            edges.len() - 1,
        )
    }
}

pub open spec fn with_nodes(
    shown: Seq<char>,
    diagram: Diagram,
    nodes: Seq<NodeLayout>,
) -> Seq<char>
    decreases nodes.len(),
{
    if nodes.len() == 0 {
        shown
    } else {
        with_node(
            with_nodes(shown, diagram, nodes.drop_last()),
            diagram,
            nodes.last(),
            nodes.len() - 1,
        )
    }
}

/// The whole document: the header, then the edges, then the nodes above them.
pub open spec fn document_text(diagram: Diagram, layout: Layout) -> Seq<char> {
    with_nodes(
        with_edges(
            with_header(
                opening(diagram, layout.width as int, layout.height as int),
                diagram,
                layout.width as int,
            ),
            diagram,
            layout.edges@,
        ),
        diagram,
        layout.nodes@,
    ) + "</svg>\n"@
}

/// A layout that can be drawn.
pub open spec fn drawable(diagram: Diagram, layout: Layout) -> bool {
    &&& 0 <= layout.width
    &&& 0 <= layout.height
    &&& forall|i: int|
        0 <= i < layout.nodes@.len() ==> node_fits(#[trigger] layout.nodes@[i])
            && layout.nodes@[i].diagram_index < diagram.nodes@.len()
    &&& forall|i: int|
        0 <= i < layout.edges@.len() ==> label_fits(#[trigger] layout.edges@[i])
            && layout.edges@[i].diagram_index < diagram.edges@.len()
            && layout.edges@[i].source_index < diagram.nodes@.len()
            && layout.edges@[i].target_index < diagram.nodes@.len()
}

/// Renders a diagram that has been laid out, as far as it takes at most
/// `maximum` bytes.
pub fn render(diagram: &Diagram, layout: &Layout, maximum: usize) -> (rendered: RenderedSvg)
    requires
        drawable(*diagram, *layout),
        maximum < usize::MAX,
    ensures
        rendered.byte_len == counted_bytes(document_text(*diagram, *layout)),
        rendered.document@ == if rendered.byte_len > maximum {
            Seq::<char>::empty()
        } else {
            document_text(*diagram, *layout)
        },
{
    let mut output = SvgOutput::new(maximum);
    write_opening(&mut output, diagram, layout.width, layout.height);
    write_header(&mut output, diagram, layout.width);
    let ghost head = output.shown();
    let mut index: usize = 0;
    while index < layout.edges.len()
        invariant
            index <= layout.edges@.len(),
            drawable(*diagram, *layout),
            output.well_formed(),
            output.maximum() == maximum,
            output.shown() == with_edges(head, *diagram, layout.edges@.take(index as int)),
        decreases layout.edges@.len() - index,
    {
        assert(layout.edges@.take(index as int + 1).drop_last() =~= layout.edges@.take(
            index as int,
        ));
        assert(label_fits(layout.edges@[index as int]));
        write_edge(&mut output, diagram, &layout.edges[index], index);
        index = index + 1;
    }
    assert(layout.edges@.take(layout.edges@.len() as int) =~= layout.edges@);
    let ghost lines = output.shown();
    let mut position: usize = 0;
    while position < layout.nodes.len()
        invariant
            position <= layout.nodes@.len(),
            drawable(*diagram, *layout),
            output.well_formed(),
            output.maximum() == maximum,
            output.shown() == with_nodes(lines, *diagram, layout.nodes@.take(position as int)),
        decreases layout.nodes@.len() - position,
    {
        assert(layout.nodes@.take(position as int + 1).drop_last() =~= layout.nodes@.take(
            position as int,
        ));
        assert(node_fits(layout.nodes@[position as int]));
        write_node(&mut output, diagram, &layout.nodes[position], position);
        position = position + 1;
    }
    assert(layout.nodes@.take(layout.nodes@.len() as int) =~= layout.nodes@);
    output.push_str("</svg>\n");
    output.finish()
}

/// A character that cannot end text or open markup.
pub open spec fn harmless(c: char) -> bool {
    wrap::is_xml(c) && c != '<' && c != '>' && c != '"' && c != '\''
}

/// Escaped text holds nothing that XML cannot hold and no character that could
/// open or close markup or an attribute.
pub proof fn law_escaped_text_is_harmless(s: Seq<char>)
    ensures
        forall|i: int| 0 <= i < escaped(s).len() ==> harmless(#[trigger] escaped(s)[i]),
    decreases s.len(),
{
    if s.len() > 0 {
        law_escaped_text_is_harmless(s.drop_last());
        reveal_strlit("&amp;");
        reveal_strlit("&lt;");
        reveal_strlit("&gt;");
        reveal_strlit("&quot;");
        reveal_strlit("&apos;");
        let piece = escape(s.last());
        assert forall|i: int| 0 <= i < piece.len() implies harmless(#[trigger] piece[i]) by {}
        let earlier = escaped(s.drop_last());
        assert forall|i: int| 0 <= i < escaped(s).len() implies harmless(
            #[trigger] escaped(s)[i],
        ) by {
            if i < earlier.len() {
                assert(escaped(s)[i] == earlier[i]);
            } else {
                assert(escaped(s)[i] == piece[i - earlier.len()]);
            }
        }
    }
}

/// Whether two drawn nodes, each of its own diagram, show the same.
pub open spec fn same_node(
    first: Diagram,
    left: NodeLayout,
    second: Diagram,
    right: NodeLayout,
) -> bool {
    let ours = first.nodes@[left.diagram_index as int];
    let theirs = second.nodes@[right.diagram_index as int];
    &&& ours.label@ == theirs.label@
    &&& layout::claim_values(ours.claim_ids@) == layout::claim_values(theirs.claim_ids@)
    &&& layout::evidence_values(ours.evidence_ids@) == layout::evidence_values(
        theirs.evidence_ids@,
    )
    &&& left.rect == right.rect
    &&& left.focused == right.focused
    &&& wrap::string_views(left.lines@) == wrap::string_views(right.lines@)
}

/// Whether two drawn edges, each of its own diagram, show the same.
pub open spec fn same_edge(
    first: Diagram,
    left: EdgeLayout,
    second: Diagram,
    right: EdgeLayout,
) -> bool {
    let ours = first.edges@[left.diagram_index as int];
    let theirs = second.edges@[right.diagram_index as int];
    &&& ours.label@ == theirs.label@
    &&& layout::claim_values(ours.claim_ids@) == layout::claim_values(theirs.claim_ids@)
    &&& layout::evidence_values(ours.evidence_ids@) == layout::evidence_values(
        theirs.evidence_ids@,
    )
    &&& first.nodes@[left.source_index as int].label@
        == second.nodes@[right.source_index as int].label@
    &&& first.nodes@[left.target_index as int].label@
        == second.nodes@[right.target_index as int].label@
    &&& left.path == right.path
    &&& left.label_position == right.label_position
    &&& left.dashed == right.dashed
    &&& wrap::string_views(left.label_lines@) == wrap::string_views(right.label_lines@)
}

proof fn lemma_same_nodes(
    shown: Seq<char>,
    first: Diagram,
    left: Seq<NodeLayout>,
    second: Diagram,
    right: Seq<NodeLayout>,
)
    requires
        left.len() == right.len(),
        forall|i: int|
            0 <= i < left.len() ==> same_node(first, #[trigger] left[i], second, right[i]),
    ensures
        with_nodes(shown, first, left) == with_nodes(shown, second, right),
    decreases left.len(),
{
    if left.len() > 0 {
        assert forall|i: int| 0 <= i < left.drop_last().len() implies same_node(
            first,
            #[trigger] left.drop_last()[i],
            second,
            right.drop_last()[i],
        ) by {
            assert(same_node(first, left[i], second, right[i]));
        }
        lemma_same_nodes(shown, first, left.drop_last(), second, right.drop_last());
        assert(same_node(first, left[left.len() - 1], second, right[left.len() - 1]));
        reveal(with_node);
    }
}

proof fn lemma_same_edges(
    shown: Seq<char>,
    first: Diagram,
    left: Seq<EdgeLayout>,
    second: Diagram,
    right: Seq<EdgeLayout>,
)
    requires
        left.len() == right.len(),
        forall|i: int|
            0 <= i < left.len() ==> same_edge(first, #[trigger] left[i], second, right[i]),
    ensures
        with_edges(shown, first, left) == with_edges(shown, second, right),
    decreases left.len(),
{
    if left.len() > 0 {
        assert forall|i: int| 0 <= i < left.drop_last().len() implies same_edge(
            first,
            #[trigger] left.drop_last()[i],
            second,
            right.drop_last()[i],
        ) by {
            assert(same_edge(first, left[i], second, right[i]));
        }
        lemma_same_edges(shown, first, left.drop_last(), second, right.drop_last());
        assert(same_edge(first, left[left.len() - 1], second, right[left.len() - 1]));
        reveal(with_edge);
        reveal(with_edge_head);
        reveal(with_edge_path);
        reveal(with_edge_label);
    }
}

/// The document depends on what is drawn alone.
pub proof fn lemma_same_document(first: Diagram, left: Layout, second: Diagram, right: Layout)
    requires
        first.kind == second.kind,
        first.title@ == second.title@,
        left.width == right.width,
        left.height == right.height,
        left.nodes@.len() == right.nodes@.len(),
        left.edges@.len() == right.edges@.len(),
        forall|i: int|
            0 <= i < left.nodes@.len() ==> same_node(
                first,
                #[trigger] left.nodes@[i],
                second,
                right.nodes@[i],
            ),
        forall|i: int|
            0 <= i < left.edges@.len() ==> same_edge(
                first,
                #[trigger] left.edges@[i],
                second,
                right.edges@[i],
            ),
    ensures
        document_text(first, left) == document_text(second, right),
{
    let head = with_header(
        opening(first, left.width as int, left.height as int),
        first,
        left.width as int,
    );
    assert(head == with_header(
        opening(second, right.width as int, right.height as int),
        second,
        right.width as int,
    )) by {
        reveal(with_header);
        reveal(opening);
    }
    lemma_same_edges(head, first, left.edges@, second, right.edges@);
    lemma_same_nodes(
        with_edges(head, first, left.edges@),
        first,
        left.nodes@,
        second,
        right.nodes@,
    );
}

/// No two characters that XML can hold are written alike, and one that is no markup is
/// written as it is.
pub proof fn law_characters_are_written_apart(left: char, right: char)
    requires
        wrap::is_xml(left),
        wrap::is_xml(right),
    ensures
        escape(left) == escape(right) ==> left == right,
        escape(left).len() > 0,
        left != '&' && left != '<' && left != '>' && left != '"' && left != '\'' ==> escape(left)
            == seq![left],
{
    reveal_strlit("&amp;");
    reveal_strlit("&lt;");
    reveal_strlit("&gt;");
    reveal_strlit("&quot;");
    reveal_strlit("&apos;");
    assert("&amp;"@.len() == 5 && "&amp;"@[1] == 'a' && "&amp;"@[2] == 'm');
    assert("&lt;"@.len() == 4 && "&lt;"@[1] == 'l');
    assert("&gt;"@.len() == 4 && "&gt;"@[1] == 'g');
    assert("&quot;"@.len() == 6 && "&quot;"@[1] == 'q');
    assert("&apos;"@.len() == 6 && "&apos;"@[1] == 'a');
    assert(seq![left][0] == left);
    assert(seq![right][0] == right);
}

} // verus!
