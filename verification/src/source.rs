//! Positions and ranges in source text.
use crate::text;
use vstd::prelude::*;

verus! {

/// A source position with a 1-based line and 0-based UTF-8 byte column.
#[derive(Debug, Clone, Copy, PartialEq, Eq, PartialOrd, Ord, Hash, Structural)]
pub struct SourcePosition {
    line: u32,
    column: u32,
}

/// Whether `left` comes before `right`: by line, within a line by column.
pub open spec fn position_before(left: (u32, u32), right: (u32, u32)) -> bool {
    left.0 < right.0 || (left.0 == right.0 && left.1 < right.1)
}

impl View for SourcePosition {
    type V = (u32, u32);

    closed spec fn view(&self) -> (u32, u32) {
        (self.line, self.column)
    }
}

impl SourcePosition {
    #[verifier::type_invariant]
    spec fn line_is_one_based(self) -> bool {
        self.line > 0
    }

    /// Creates a source position.
    pub fn new(line: u32, column: u32) -> (position: Result<SourcePosition, SourceSpanError>)
        ensures
            match position {
                Ok(position) => line > 0 && position@ == (line, column),
                Err(error) => line == 0 && error == SourceSpanError::ZeroLine,
            },
    {
        if line == 0 {
            return Err(SourceSpanError::ZeroLine);
        }
        Ok(SourcePosition { line, column })
    }

    pub fn line(self) -> (line: u32)
        ensures
            line == self@.0,
            line > 0,
    {
        proof {
            use_type_invariant(self);
        }
        self.line
    }

    pub fn column(self) -> (column: u32)
        ensures
            column == self@.1,
    {
        self.column
    }
}

/// A validated half-open source range: `[start, end)`.
///
/// Lines are 1-based for direct user display. Columns are 0-based UTF-8 byte
/// offsets within their lines, matching common parser APIs.
#[derive(Debug, Clone, Copy, PartialEq, Eq, Hash, Structural)]
pub struct SourceSpan {
    start: SourcePosition,
    end: SourcePosition,
}

impl View for SourceSpan {
    type V = ((u32, u32), (u32, u32));

    closed spec fn view(&self) -> ((u32, u32), (u32, u32)) {
        (self.start@, self.end@)
    }
}

/// A range that does not end before it starts, on 1-based lines.
pub open spec fn span_in_order(span: ((u32, u32), (u32, u32))) -> bool {
    span.0.0 > 0 && span.1.0 > 0 && !position_before(span.1, span.0)
}

impl SourceSpan {
    #[verifier::type_invariant]
    spec fn ends_behind_start(self) -> bool {
        span_in_order(self@)
    }

    /// Creates a span from line and column components.
    pub fn new(start_line: u32, start_column: u32, end_line: u32, end_column: u32) -> (span: Result<
        SourceSpan,
        SourceSpanError,
    >)
        ensures
            match span {
                Ok(span) => {
                    &&& span@ == ((start_line, start_column), (end_line, end_column))
                    &&& span_in_order(span@)
                },
                Err(SourceSpanError::ZeroLine) => start_line == 0 || end_line == 0,
                Err(SourceSpanError::EndBeforeStart { start, end }) => {
                    &&& start_line > 0
                    &&& end_line > 0
                    &&& position_before((end_line, end_column), (start_line, start_column))
                    &&& start@ == (start_line, start_column)
                    &&& end@ == (end_line, end_column)
                },
            },
    {
        let start = match SourcePosition::new(start_line, start_column) {
            Ok(position) => position,
            Err(error) => return Err(error),
        };
        let end = match SourcePosition::new(end_line, end_column) {
            Ok(position) => position,
            Err(error) => return Err(error),
        };
        SourceSpan::from_positions(start, end)
    }

    /// Creates a span from validated positions.
    pub fn from_positions(start: SourcePosition, end: SourcePosition) -> (span: Result<
        SourceSpan,
        SourceSpanError,
    >)
        ensures
            match span {
                Ok(span) => !position_before(end@, start@) && span@ == (start@, end@)
                    && span_in_order(span@),
                Err(error) => {
                    &&& position_before(end@, start@)
                    &&& error == (SourceSpanError::EndBeforeStart { start, end })
                },
            },
    {
        proof {
            use_type_invariant(start);
            use_type_invariant(end);
        }
        if end.line < start.line || (end.line == start.line && end.column < start.column) {
            return Err(SourceSpanError::EndBeforeStart { start, end });
        }
        Ok(SourceSpan { start, end })
    }

    pub fn start(self) -> (position: SourcePosition)
        ensures
            position@ == self@.0,
            span_in_order(self@),
    {
        proof {
            use_type_invariant(self);
        }
        self.start
    }

    pub fn end(self) -> (position: SourcePosition)
        ensures
            position@ == self@.1,
            span_in_order(self@),
    {
        proof {
            use_type_invariant(self);
        }
        self.end
    }

    pub fn is_empty(self) -> (empty: bool)
        ensures
            empty == (self@.0 == self@.1),
    {
        self.start.line == self.end.line && self.start.column == self.end.column
    }

    /// A span is determined by its bounds.
    pub broadcast proof fn lemma_determined_by_bounds(left: SourceSpan, right: SourceSpan)
        requires
            #[trigger] left@ == #[trigger] right@,
        ensures
            left == right,
    {
    }
}

#[derive(Debug, Clone, Copy, PartialEq, Eq, Structural)]
pub enum SourceSpanError {
    ZeroLine,
    EndBeforeStart { start: SourcePosition, end: SourcePosition },
}

/// How a position is shown to a developer.
pub open spec fn position_text(position: (u32, u32)) -> Seq<char> {
    "SourcePosition { line: "@ + text::decimal(position.0 as nat) + ", column: "@ + text::decimal(
        position.1 as nat,
    ) + " }"@
}

impl SourceSpanError {
    /// What the error tells a reader.
    pub open spec fn message_text(self) -> Seq<char> {
        match self {
            SourceSpanError::ZeroLine => "source line numbers are 1-based and must not be zero"@,
            SourceSpanError::EndBeforeStart { start, end } => reversed_text(start@, end@),
        }
    }

    pub fn to_string(&self) -> (message: String)
        ensures
            message@ == self.message_text(),
    {
        match self {
            SourceSpanError::ZeroLine => {
                "source line numbers are 1-based and must not be zero".to_owned()
            },
            SourceSpanError::EndBeforeStart { start, end } => {
                let mut message = "source span end ".to_owned();
                push_position(&mut message, *end);
                message.push_str(" is before start ");
                push_position(&mut message, *start);
                message
            },
        }
    }
}

/// What is said of a span that ends before it starts.
pub open spec fn reversed_text(start: (u32, u32), end: (u32, u32)) -> Seq<char> {
    "source span end "@ + position_text(end) + " is before start "@ + position_text(start)
}

fn push_position(message: &mut String, position: SourcePosition)
    ensures
        final(message)@ == old(message)@ + position_text(position@),
{
    message.push_str("SourcePosition { line: ");
    text::push_decimal(message, position.line() as u64);
    message.push_str(", column: ");
    text::push_decimal(message, position.column() as u64);
    message.push_str(" }");
    assert(message@ =~= old(message)@ + position_text(position@));
}

} // verus!
