//! Byte-backed document model shared by the parser, editor, and renderer.
use vstd::prelude::*;

verus! {

/// Quote form used to represent a binding value in source text.
#[derive(Clone, Copy, Debug, PartialEq, Eq, Structural)]
pub enum QuoteType {
    /// Unquoted value.
    Unquoted,
    /// Single-quoted value.
    Single,
    /// Double-quoted value with supported escape decoding.
    Double,
}

/// Process exit codes used by the CLI compatibility contract.
#[derive(Clone, Copy, Debug, PartialEq, Eq, Structural)]
pub enum ExitCode {
    /// Command completed successfully.
    Success,
    /// Usage, I/O, or other general failure.
    GeneralError,
    /// Requested key was absent.
    KeyNotFound,
    /// Input failed validation before file I/O.
    ValidationError,
    /// `--check` found that a mutation would change output.
    WouldChange,
}

/// The numeric status that the compatibility contract assigns to each exit code.
pub open spec fn exit_code_number(code: ExitCode) -> i32 {
    match code {
        ExitCode::Success => 0,
        ExitCode::GeneralError => 1,
        ExitCode::KeyNotFound => 2,
        ExitCode::ValidationError => 3,
        ExitCode::WouldChange => 4,
    }
}

impl ExitCode {
    /// Numeric process status code.
    pub fn code(self) -> (r: i32)
        ensures
            r == exit_code_number(self),
    {
        match self {
            ExitCode::Success => 0,
            ExitCode::GeneralError => 1,
            ExitCode::KeyNotFound => 2,
            ExitCode::ValidationError => 3,
            ExitCode::WouldChange => 4,
        }
    }
}

/// A blank physical line, preserving original bytes and line terminator.
#[derive(Clone, Debug, PartialEq, Eq)]
pub struct BlankLine {
    /// Line body without the terminator.
    pub text: Vec<u8>,
    /// Original line terminator, if any.
    pub newline: Vec<u8>,
}

/// A full-line comment, preserving original bytes and line terminator.
#[derive(Clone, Debug, PartialEq, Eq)]
pub struct CommentLine {
    /// Line body without the terminator.
    pub text: Vec<u8>,
    /// Original line terminator, if any.
    pub newline: Vec<u8>,
}

/// Unsupported or malformed syntax preserved byte-for-byte.
#[derive(Clone, Debug, PartialEq, Eq)]
pub struct InvalidLine {
    /// Line body without the terminator.
    pub text: Vec<u8>,
    /// Original line terminator, if any.
    pub newline: Vec<u8>,
}

/// A supported key/value binding with enough raw pieces to render losslessly.
#[derive(Clone, Debug, PartialEq, Eq)]
pub struct BindingLine {
    /// Whether the original binding used the supported `export KEY=...` prefix.
    pub export: bool,
    /// ASCII key name.
    pub key: String,
    /// Resolved value bytes after quote handling.
    pub value: Vec<u8>,
    /// Original or newly encoded value token, including quotes when present.
    pub raw_value: Vec<u8>,
    /// Quote form used by `raw_value`.
    pub quote_type: QuoteType,
    /// Bytes from the start of the line through the spacing after `=`.
    pub prefix: Vec<u8>,
    /// Bytes after the value token, including any inline comment.
    pub suffix: Vec<u8>,
    /// Inline comment bytes when the parser can identify them unambiguously.
    pub inline_comment: Option<Vec<u8>>,
    /// Original physical line body without the line terminator.
    pub original_text: Vec<u8>,
    /// Original line terminator, if any.
    pub newline: Vec<u8>,
}

/// Parsed physical line classification.
#[derive(Clone, Debug, PartialEq, Eq)]
pub enum Line {
    /// Whitespace-only line.
    Blank(BlankLine),
    /// Full-line comment.
    Comment(CommentLine),
    /// Supported key/value binding.
    Binding(BindingLine),
    /// Unsupported syntax preserved without interpretation.
    Invalid(InvalidLine),
}

/// Parsed `.env` document plus the newline style to use for new lines.
#[derive(Clone, Debug, PartialEq, Eq)]
pub struct Document {
    /// Physical lines in source order.
    pub lines: Vec<Line>,
    /// First observed line terminator, or the platform default for empty files.
    pub preferred_newline: Vec<u8>,
}

/// Mathematical view of a binding line.
pub struct BindingSpec {
    pub export: bool,
    pub key: Seq<char>,
    pub value: Seq<u8>,
    pub raw_value: Seq<u8>,
    pub quote_type: QuoteType,
    pub prefix: Seq<u8>,
    pub suffix: Seq<u8>,
    pub inline_comment: Option<Seq<u8>>,
    pub original_text: Seq<u8>,
    pub newline: Seq<u8>,
}

/// Mathematical view of a physical line: its class and its byte pieces.
pub enum LineSpec {
    Blank { text: Seq<u8>, newline: Seq<u8> },
    Comment { text: Seq<u8>, newline: Seq<u8> },
    Binding(BindingSpec),
    Invalid { text: Seq<u8>, newline: Seq<u8> },
}

/// Mathematical view of a document.
pub struct DocumentSpec {
    pub lines: Seq<LineSpec>,
    pub preferred_newline: Seq<u8>,
}

pub open spec fn option_bytes_view(o: Option<Vec<u8>>) -> Option<Seq<u8>> {
    match o {
        Some(v) => Some(v@),
        None => None,
    }
}

impl View for BindingLine {
    type V = BindingSpec;

    open spec fn view(&self) -> BindingSpec {
        BindingSpec {
            export: self.export,
            key: self.key@,
            value: self.value@,
            raw_value: self.raw_value@,
            quote_type: self.quote_type,
            prefix: self.prefix@,
            suffix: self.suffix@,
            inline_comment: option_bytes_view(self.inline_comment),
            original_text: self.original_text@,
            newline: self.newline@,
        }
    }
}

impl View for Line {
    type V = LineSpec;

    open spec fn view(&self) -> LineSpec {
        match self {
            Line::Blank(l) => LineSpec::Blank { text: l.text@, newline: l.newline@ },
            Line::Comment(l) => LineSpec::Comment { text: l.text@, newline: l.newline@ },
            Line::Binding(l) => LineSpec::Binding(l@),
            Line::Invalid(l) => LineSpec::Invalid { text: l.text@, newline: l.newline@ },
        }
    }
}

pub open spec fn lines_view(lines: Seq<Line>) -> Seq<LineSpec> {
    lines.map_values(|l: Line| l@)
}

impl View for Document {
    type V = DocumentSpec;

    open spec fn view(&self) -> DocumentSpec {
        DocumentSpec { lines: lines_view(self.lines@), preferred_newline: self.preferred_newline@ }
    }
}

impl LineSpec {
    /// The line terminator of a line.
    pub open spec fn newline(self) -> Seq<u8> {
        match self {
            LineSpec::Blank { newline, .. } => newline,
            LineSpec::Comment { newline, .. } => newline,
            LineSpec::Binding(b) => b.newline,
            LineSpec::Invalid { newline, .. } => newline,
        }
    }

    /// The same line with another terminator.
    pub open spec fn with_newline(self, newline: Seq<u8>) -> LineSpec {
        match self {
            LineSpec::Blank { text, .. } => LineSpec::Blank { text, newline },
            LineSpec::Comment { text, .. } => LineSpec::Comment { text, newline },
            LineSpec::Binding(b) => LineSpec::Binding(BindingSpec { newline, ..b }),
            LineSpec::Invalid { text, .. } => LineSpec::Invalid { text, newline },
        }
    }

    /// The bytes that a line renders to: its body followed by its terminator.
    pub open spec fn rendered(self) -> Seq<u8> {
        match self {
            LineSpec::Binding(b) => b.prefix + b.raw_value + b.suffix + b.newline,
            LineSpec::Blank { text, newline } => text + newline,
            LineSpec::Comment { text, newline } => text + newline,
            LineSpec::Invalid { text, newline } => text + newline,
        }
    }

    /// The stable lowercase name of a line's class.
    pub open spec fn kind_name(self) -> Seq<char> {
        match self {
            LineSpec::Blank { .. } => "blank"@,
            LineSpec::Comment { .. } => "comment"@,
            LineSpec::Binding(_) => "binding"@,
            LineSpec::Invalid { .. } => "invalid"@,
        }
    }
}

/// Bytes of a whole document: the rendering of each line in order.
pub open spec fn render_lines(lines: Seq<LineSpec>) -> Seq<u8>
    decreases lines.len(),
{
    if lines.len() == 0 {
        Seq::empty()
    } else {
        render_lines(lines.drop_last()) + lines.last().rendered()
    }
}

/// Copies a byte vector; the copy has the same contents.
pub fn copy_bytes(v: &Vec<u8>) -> (r: Vec<u8>)
    ensures
        r@ == v@,
{
    let mut r: Vec<u8> = Vec::with_capacity(v.len());
    let mut i: usize = 0;
    while i < v.len()
        invariant
            i <= v.len(),
            r@ == v@.subrange(0, i as int),
        decreases v.len() - i,
    {
        r.push(v[i]);
        i = i + 1;
    }
    r
}

fn copy_string(s: &String) -> (r: String)
    ensures
        r@ == s@,
{
    s.clone()
}

fn copy_option_bytes(o: &Option<Vec<u8>>) -> (r: Option<Vec<u8>>)
    ensures
        option_bytes_view(r) == option_bytes_view(*o),
{
    match o {
        Some(v) => Some(copy_bytes(v)),
        None => None,
    }
}

impl BindingLine {
    /// A field-by-field copy of a binding line.
    pub fn duplicate(&self) -> (r: BindingLine)
        ensures
            r@ == self@,
    {
        BindingLine {
            export: self.export,
            key: copy_string(&self.key),
            value: copy_bytes(&self.value),
            raw_value: copy_bytes(&self.raw_value),
            quote_type: self.quote_type,
            prefix: copy_bytes(&self.prefix),
            suffix: copy_bytes(&self.suffix),
            inline_comment: copy_option_bytes(&self.inline_comment),
            original_text: copy_bytes(&self.original_text),
            newline: copy_bytes(&self.newline),
        }
    }
}

impl Line {
    /// Stable lowercase kind name used by tests and fixtures.
    pub fn kind(&self) -> (r: &'static str)
        ensures
            r@ == self@.kind_name(),
    {
        match self {
            Line::Blank(_) => "blank",
            Line::Comment(_) => "comment",
            Line::Binding(_) => "binding",
            Line::Invalid(_) => "invalid",
        }
    }

    /// Returns this line's original or assigned line terminator.
    pub fn newline(&self) -> (r: &[u8])
        ensures
            r@ == self@.newline(),
    {
        match self {
            Line::Blank(line) => line.newline.as_slice(),
            Line::Comment(line) => line.newline.as_slice(),
            Line::Binding(line) => line.newline.as_slice(),
            Line::Invalid(line) => line.newline.as_slice(),
        }
    }

    /// A copy of this line.
    pub fn duplicate(&self) -> (r: Line)
        ensures
            r@ == self@,
    {
        match self {
            Line::Blank(l) => Line::Blank(BlankLine { text: copy_bytes(&l.text), newline: copy_bytes(&l.newline) }),
            Line::Comment(l) => Line::Comment(CommentLine { text: copy_bytes(&l.text), newline: copy_bytes(&l.newline) }),
            Line::Binding(l) => Line::Binding(l.duplicate()),
            Line::Invalid(l) => Line::Invalid(InvalidLine { text: copy_bytes(&l.text), newline: copy_bytes(&l.newline) }),
        }
    }

    /// Returns a clone of this line with a different line terminator.
    pub fn with_newline(&self, newline: Vec<u8>) -> (r: Line)
        ensures
            r@ == self@.with_newline(newline@),
    {
        match self {
            Line::Blank(line) => Line::Blank(BlankLine { text: copy_bytes(&line.text), newline }),
            Line::Comment(line) => Line::Comment(CommentLine { text: copy_bytes(&line.text), newline }),
            Line::Binding(line) => Line::Binding(
                BindingLine {
                    export: line.export,
                    key: copy_string(&line.key),
                    value: copy_bytes(&line.value),
                    raw_value: copy_bytes(&line.raw_value),
                    quote_type: line.quote_type,
                    prefix: copy_bytes(&line.prefix),
                    suffix: copy_bytes(&line.suffix),
                    inline_comment: copy_option_bytes(&line.inline_comment),
                    original_text: copy_bytes(&line.original_text),
                    newline,
                },
            ),
            Line::Invalid(line) => Line::Invalid(InvalidLine { text: copy_bytes(&line.text), newline }),
        }
    }
}

impl Document {
    /// A copy of this document.
    pub fn duplicate(&self) -> (r: Document)
        ensures
            r@ == self@,
    {
        let mut lines: Vec<Line> = Vec::with_capacity(self.lines.len());
        let mut i: usize = 0;
        while i < self.lines.len()
            invariant
                i <= self.lines.len(),
                lines_view(lines@) == lines_view(self.lines@.subrange(0, i as int)),
            decreases self.lines.len() - i,
        {
            let l = self.lines[i].duplicate();
            lines.push(l);
            proof {
                assert(lines_view(self.lines@.subrange(0, i + 1)) =~= lines_view(
                    self.lines@.subrange(0, i as int),
                ).push(self.lines@[i as int]@));
                assert(lines_view(lines@) =~= lines_view(lines@.drop_last()).push(l@));
            }
            i = i + 1;
        }
        proof {
            assert(self.lines@.subrange(0, i as int) =~= self.lines@);
        }
        Document { lines, preferred_newline: copy_bytes(&self.preferred_newline) }
    }
}

} // verus!
