//! Spans and diagnostics shared by every stage of the compiler.

use vstd::prelude::*;

use crate::text::{
    byte_offset, lemma_byte_offset_mono, lemma_byte_offset_step, nat_decimal, push_char, push_str,
    push_usize_decimal, str_chars, utf8_len,
};

verus! {

/// A byte range `[start, end)` in a source file.
#[derive(Clone, Copy, Debug, PartialEq, Eq, Hash, Structural)]
pub struct Span {
    pub start: u32,
    pub end: u32,
}

impl Span {
    pub fn new(start: u32, end: u32) -> (s: Span)
        ensures
            s == (Span { start, end }),
    {
        Span { start, end }
    }

    /// An empty span at `pos`.
    pub fn point(pos: u32) -> (s: Span)
        ensures
            s == (Span { start: pos, end: pos }),
    {
        Span { start: pos, end: pos }
    }

    /// The smallest span that contains both `a` and `b`.
    pub fn cover(a: Span, b: Span) -> (s: Span)
        ensures
            s == span_cover(a, b),
    {
        Span {
            start: if a.start <= b.start { a.start } else { b.start },
            end: if a.end >= b.end { a.end } else { b.end },
        }
    }
}

/// The span from the lower start to the higher end of `a` and `b`.
pub open spec fn span_cover(a: Span, b: Span) -> Span {
    Span {
        start: if a.start <= b.start { a.start } else { b.start },
        end: if a.end >= b.end { a.end } else { b.end },
    }
}

/// `span_cover` holds both of its arguments, in either order, and is the least such span.
pub proof fn lemma_cover_laws(a: Span, b: Span, c: Span)
    ensures
        span_cover(a, b) == span_cover(b, a),
        span_cover(span_cover(a, b), c) == span_cover(a, span_cover(b, c)),
        span_cover(a, a) == a,
        span_cover(a, b).start <= a.start && span_cover(a, b).start <= b.start,
        span_cover(a, b).end >= a.end && span_cover(a, b).end >= b.end,
        (c.start <= a.start && c.start <= b.start && c.end >= a.end && c.end >= b.end) ==> (
        c.start <= span_cover(a, b).start && c.end >= span_cover(a, b).end),
{
}

/// An error message, optionally tied to a span of the source.
#[derive(Clone, Debug)]
pub struct Diagnostic {
    pub message: String,
    pub span: Option<Span>,
}

/// The mathematical content of a [`Diagnostic`].
pub struct DiagnosticView {
    pub message: Seq<char>,
    pub span: Option<Span>,
}

impl View for Diagnostic {
    type V = DiagnosticView;

    open spec fn view(&self) -> DiagnosticView {
        DiagnosticView { message: self.message@, span: self.span }
    }
}

/// A diagnostic with no span.
pub open spec fn diag(message: Seq<char>) -> DiagnosticView {
    DiagnosticView { message, span: None }
}

/// A diagnostic at `span`.
pub open spec fn diag_at(message: Seq<char>, span: Span) -> DiagnosticView {
    DiagnosticView { message, span: Some(span) }
}

impl Diagnostic {
    pub fn new(message: String) -> (d: Diagnostic)
        ensures
            d@ == diag(message@),
    {
        Diagnostic { message, span: None }
    }

    pub fn spanned(message: String, span: Span) -> (d: Diagnostic)
        ensures
            d@ == diag_at(message@, span),
    {
        Diagnostic { message, span: Some(span) }
    }
}

/// An ordered collection of diagnostics; it only ever grows at the end.
#[derive(Clone, Debug)]
pub struct Diagnostics {
    items: Vec<Diagnostic>,
}

impl View for Diagnostics {
    type V = Seq<DiagnosticView>;

    closed spec fn view(&self) -> Seq<DiagnosticView> {
        self.items@.map_values(|d: Diagnostic| d@)
    }
}

impl Default for Diagnostics {
    fn default() -> (r: Diagnostics)
        ensures
            r@ == Seq::<DiagnosticView>::empty(),
    {
        let r = Diagnostics { items: Vec::new() };
        assert(r@ =~= Seq::<DiagnosticView>::empty());
        r
    }
}

impl Diagnostics {
    /// Appends `d`.
    pub fn push(&mut self, d: Diagnostic)
        ensures
            final(self)@ == old(self)@.push(d@),
    {
        self.items.push(d);
        assert(self@ =~= old(self)@.push(d@));
    }

    /// Appends a diagnostic with no span.
    pub fn error(&mut self, message: String)
        ensures
            final(self)@ == old(self)@.push(diag(message@)),
    {
        self.push(Diagnostic::new(message));
    }

    /// Appends a diagnostic at `span`.
    pub fn error_at(&mut self, span: Span, message: String)
        ensures
            final(self)@ == old(self)@.push(diag_at(message@, span)),
    {
        self.push(Diagnostic::spanned(message, span));
    }

    pub fn is_empty(&self) -> (b: bool)
        ensures
            b == (self@.len() == 0),
    {
        self.items.len() == 0
    }

    /// The diagnostics, in the order they were pushed.
    pub fn iter(&self) -> (r: &[Diagnostic])
        ensures
            r@.map_values(|d: Diagnostic| d@) == self@,
    {
        self.items.as_slice()
    }

    /// Every message followed by a newline, in order.
    pub fn to_display_string(&self) -> (r: String)
        ensures
            r@ == messages_text(self@),
    {
        let mut out = String::new();
        let mut i: usize = 0;
        while i < self.items.len()
            invariant
                0 <= i <= self.items@.len(),
                out@ == messages_text(self@.take(i as int)),
            decreases self.items@.len() - i,
        {
            push_str(&mut out, self.items[i].message.as_str());
            push_char(&mut out, '\n');
            assert(self@.take(i + 1).drop_last() =~= self@.take(i as int));
            i = i + 1;
        }
        assert(self@.take(i as int) =~= self@);
        out
    }
}

/// Each message of `ds` followed by a newline.
pub open spec fn messages_text(ds: Seq<DiagnosticView>) -> Seq<char>
    decreases ds.len(),
{
    if ds.len() == 0 {
        Seq::empty()
    } else {
        messages_text(ds.drop_last()) + ds.last().message + seq!['\n']
    }
}

/// Number of newline characters in `cs`.
pub open spec fn count_newlines(cs: Seq<char>) -> nat
    decreases cs.len(),
{
    if cs.len() == 0 {
        0
    } else {
        count_newlines(cs.drop_last()) + if cs.last() == '\n' { 1nat } else { 0nat }
    }
}

/// The character index just after the last newline before index `i`, or 0.
pub open spec fn line_start(cs: Seq<char>, i: int) -> int
    decreases i,
{
    if i <= 0 {
        0
    } else if cs[i - 1] == '\n' {
        i
    } else {
        line_start(cs, i - 1)
    }
}

/// The index of the first newline at or after index `i`, or the length of `cs`.
pub open spec fn line_end(cs: Seq<char>, i: int) -> int
    decreases cs.len() - i,
{
    if i >= cs.len() {
        cs.len() as int
    } else if cs[i] == '\n' {
        i
    } else {
        line_end(cs, i + 1)
    }
}

/// `b` is the byte offset of some character index of `cs`.
pub open spec fn is_char_boundary(cs: Seq<char>, b: nat) -> bool {
    exists|k: int| 0 <= k <= cs.len() && byte_offset(cs, k) == b
}

/// `n` copies of `c`.
pub open spec fn repeat_char(c: char, n: nat) -> Seq<char> {
    Seq::new(n, |i: int| c)
}

/// The rendering of `d` for a file shown as `path` with contents `src`.
pub open spec fn diagnostic_text(path: Seq<char>, src: Seq<char>, d: DiagnosticView) -> Seq<char> {
    match d.span {
        Some(span) if (span.start as nat) <= utf8_len(src) => {
            let k = choose|k: int| 0 <= k <= src.len() && byte_offset(src, k) == span.start as nat;
            let ls = line_start(src, k);
            let le = line_end(src, ls);
            let line = count_newlines(src.take(k)) + 1;
            let pad = (span.start - byte_offset(src, ls)) as nat;
            let col = pad + 1;
            let text_bytes = (byte_offset(src, le) - byte_offset(src, ls)) as nat;
            let width: nat = if span.end > span.start { (span.end - span.start) as nat } else { 1 };
            let room: nat = if text_bytes > pad { (text_bytes - pad) as nat } else { 0 };
            let carets: nat = if width < room { width } else { room };
            path + ":"@ + nat_decimal(line) + ":"@ + nat_decimal(col) + ": error: "@ + d.message
                + seq!['\n'] + src.subrange(ls, le) + seq!['\n'] + repeat_char(' ', pad)
                + repeat_char('^', carets) + seq!['\n']
        },
        _ => path + ": error: "@ + d.message + seq!['\n'],
    }
}

proof fn lemma_byte_offset_strict(cs: Seq<char>, i: int, j: int)
    requires
        0 <= i < j <= cs.len(),
    ensures
        byte_offset(cs, i) < byte_offset(cs, j),
{
    lemma_byte_offset_step(cs, i);
    lemma_byte_offset_mono(cs, i + 1, j);
}

proof fn lemma_line_start_bounds(cs: Seq<char>, i: int)
    requires
        0 <= i <= cs.len(),
    ensures
        0 <= line_start(cs, i) <= i,
        forall|j: int| line_start(cs, i) <= j < i ==> cs[j] != '\n',
    decreases i,
{
    if i > 0 && cs[i - 1] != '\n' {
        lemma_line_start_bounds(cs, i - 1);
    }
}

proof fn lemma_line_end_bounds(cs: Seq<char>, i: int)
    requires
        0 <= i <= cs.len(),
    ensures
        i <= line_end(cs, i) <= cs.len(),
    decreases cs.len() - i,
{
    if i < cs.len() && cs[i] != '\n' {
        lemma_line_end_bounds(cs, i + 1);
    }
}

/// The line around a character index: `line_start` goes back to just after the previous
/// newline (or to the start), `line_end` forward to the next newline (or to the end), with no
/// newline in between; the line number counts the newlines before the index, one per newline.
pub proof fn lemma_lines(cs: Seq<char>, i: int, a: Seq<char>, b: Seq<char>, c: char)
    requires
        0 <= i <= cs.len(),
    ensures
        0 <= line_start(cs, i) <= i,
        line_start(cs, i) == 0 || cs[line_start(cs, i) - 1] == '\n',
        forall|j: int| line_start(cs, i) <= j < i ==> cs[j] != '\n',
        i <= line_end(cs, i) <= cs.len(),
        line_end(cs, i) == cs.len() || cs[line_end(cs, i)] == '\n',
        forall|j: int| i <= j < line_end(cs, i) ==> cs[j] != '\n',
        count_newlines(seq![c]) == if c == '\n' { 1nat } else { 0nat },
        count_newlines(a + b) == count_newlines(a) + count_newlines(b),
    decreases cs.len() - i,
{
    lemma_line_start_bounds(cs, i);
    lemma_line_start_prev(cs, i);
    lemma_line_end_bounds(cs, i);
    lemma_count_newlines_concat(a, b);
    assert(seq![c].drop_last() =~= Seq::<char>::empty());
    assert(count_newlines(Seq::<char>::empty()) == 0);
    assert(seq![c].last() == c);
    if i < cs.len() && cs[i] != '\n' {
        lemma_lines(cs, i + 1, a, b, c);
    }
}

proof fn lemma_line_start_prev(cs: Seq<char>, i: int)
    requires
        0 <= i <= cs.len(),
    ensures
        line_start(cs, i) == 0 || cs[line_start(cs, i) - 1] == '\n',
    decreases i,
{
    if i > 0 && cs[i - 1] != '\n' {
        lemma_line_start_prev(cs, i - 1);
    }
}

proof fn lemma_count_newlines_concat(a: Seq<char>, b: Seq<char>)
    ensures
        count_newlines(a + b) == count_newlines(a) + count_newlines(b),
    decreases b.len(),
{
    if b.len() == 0 {
        assert(a + b =~= a);
    } else {
        assert((a + b).drop_last() =~= a + b.drop_last());
        lemma_count_newlines_concat(a, b.drop_last());
    }
}

/// The display text of diagnostics is the text of each one in turn: its message and a newline.
pub proof fn lemma_messages_text(a: Seq<DiagnosticView>, b: Seq<DiagnosticView>, d: DiagnosticView)
    ensures
        messages_text(seq![d]) == d.message + seq!['\n'],
        messages_text(a + b) == messages_text(a) + messages_text(b),
    decreases b.len(),
{
    assert(seq![d].drop_last() =~= Seq::<DiagnosticView>::empty());
    assert(messages_text(Seq::<DiagnosticView>::empty()) == Seq::<char>::empty());
    assert(Seq::<char>::empty() + d.message =~= d.message);
    if b.len() == 0 {
        assert(a + b =~= a);
        assert(messages_text(a) + Seq::<char>::empty() =~= messages_text(a));
    } else {
        assert((a + b).drop_last() =~= a + b.drop_last());
        assert((a + b).last() == b.last());
        lemma_messages_text(a, b.drop_last(), d);
        assert(messages_text(a) + messages_text(b.drop_last()) + b.last().message + seq!['\n'] =~= messages_text(a) + (
        messages_text(b.drop_last()) + b.last().message + seq!['\n']));
    }
}

/// Line number, column, and the character range of the line holding byte `start`.
struct LineInfo {
    line: usize,
    col: usize,
    ls: usize,
    le: usize,
    ls_byte: usize,
    le_byte: usize,
}

/// Locates byte offset `span.start` in `cs`; `None` when it lies past the end.
fn span_to_line_col(cs: &Vec<char>, total: usize, span: Span) -> (r: Option<LineInfo>)
    requires
        total == utf8_len(cs@),
        total < usize::MAX,
        (span.start as nat) <= utf8_len(cs@) ==> is_char_boundary(cs@, span.start as nat),
    ensures
        (span.start as nat) > utf8_len(cs@) ==> r is None,
        (span.start as nat) <= utf8_len(cs@) ==> (r matches Some(info) && {
            let k = choose|k: int| 0 <= k <= cs@.len() && byte_offset(cs@, k) == span.start as nat;
            &&& info.ls == line_start(cs@, k)
            &&& info.le == line_end(cs@, info.ls as int)
            &&& info.ls <= info.le <= cs@.len()
            &&& info.line == count_newlines(cs@.take(k)) + 1
            &&& info.ls_byte == byte_offset(cs@, info.ls as int)
            &&& info.le_byte == byte_offset(cs@, info.le as int)
            &&& info.col == span.start - info.ls_byte + 1
            &&& info.ls_byte <= span.start
            &&& info.ls_byte <= info.le_byte
        }),
{
    let start = span.start as usize;
    if start > total {
        return None;
    }
    let ghost k = choose|k: int| 0 <= k <= cs@.len() && byte_offset(cs@, k) == span.start as nat;
    let mut i: usize = 0;
    let mut byte: usize = 0;
    let mut line: usize = 1;
    let mut ls: usize = 0;
    let mut ls_byte: usize = 0;
    proof {
        assert(cs@.take(0) =~= Seq::<char>::empty());
        lemma_byte_offset_mono(cs@, 0, cs@.len() as int);
        assert(cs@.take(cs@.len() as int) =~= cs@);
    }
    while byte < start
        invariant
            0 <= i <= k <= cs@.len(),
            byte == byte_offset(cs@, i as int),
            start == byte_offset(cs@, k),
            total == utf8_len(cs@),
            total < usize::MAX,
            start <= total,
            line == count_newlines(cs@.take(i as int)) + 1,
            line <= i + 1,
            ls == line_start(cs@, i as int),
            ls_byte == byte_offset(cs@, ls as int),
            i <= byte,
        decreases k - i,
    {
        proof {
            if i >= k {
                lemma_byte_offset_mono(cs@, k, i as int);
            }
        }
        assert(i < k);
        let c = cs[i];
        proof {
            lemma_byte_offset_step(cs@, i as int);
            assert(cs@.take(i + 1).drop_last() =~= cs@.take(i as int));
            lemma_byte_offset_mono(cs@, i + 1, cs@.len() as int);
            assert(cs@.take(cs@.len() as int) =~= cs@);
        }
        let w: usize = if (c as u32) < 0x80 { 1 } else if (c as u32) < 0x800 { 2 } else if (c as u32) < 0x10000 { 3 } else { 4 };
        byte = byte + w;
        i = i + 1;
        if c == '\n' {
            line = line + 1;
            ls = i;
            ls_byte = byte;
        }
    }
    proof {
        if i < k {
            lemma_byte_offset_strict(cs@, i as int, k);
        }
    }
    let mut le: usize = ls;
    let mut le_byte: usize = ls_byte;
    proof {
        lemma_line_start_bounds(cs@, i as int);
    }
    while le < cs.len() && cs[le] != '\n'
        invariant
            ls <= le <= cs@.len(),
            le_byte == byte_offset(cs@, le as int),
            line_end(cs@, le as int) == line_end(cs@, ls as int),
            total == utf8_len(cs@),
        decreases cs@.len() - le,
    {
        proof {
            lemma_byte_offset_step(cs@, le as int);
            lemma_byte_offset_mono(cs@, le + 1, cs@.len() as int);
            assert(cs@.take(cs@.len() as int) =~= cs@);
        }
        let c = cs[le];
        let w: usize = if (c as u32) < 0x80 { 1 } else if (c as u32) < 0x800 { 2 } else if (c as u32) < 0x10000 { 3 } else { 4 };
        le_byte = le_byte + w;
        le = le + 1;
    }
    proof {
        lemma_byte_offset_mono(cs@, ls as int, i as int);
        lemma_byte_offset_mono(cs@, ls as int, le as int);
    }
    Some(LineInfo { line, col: start - ls_byte + 1, ls, le, ls_byte, le_byte })
}

/// Formats `d` for a file shown as `path` with contents `source`: the location, the
/// message, and, when the span lies inside the source, the line and a caret marker.
pub fn format_diagnostic(path: &str, source: &str, d: &Diagnostic) -> (r: String)
    requires
        utf8_len(source@) < usize::MAX,
        d.span is Some && (d.span->0.start as nat) <= utf8_len(source@) ==> is_char_boundary(
            source@,
            d.span->0.start as nat,
        ),
    ensures
        r@ == diagnostic_text(path@, source@, d@),
{
    let (cs, total) = str_chars(source);
    let mut out = String::new();
    if let Some(span) = d.span {
        if let Some(info) = span_to_line_col(&cs, total, span) {
            push_str(&mut out, path);
            push_char(&mut out, ':');
            push_usize_decimal(&mut out, info.line);
            push_char(&mut out, ':');
            push_usize_decimal(&mut out, info.col);
            push_str(&mut out, ": error: ");
            push_str(&mut out, d.message.as_str());
            push_char(&mut out, '\n');
            let ghost before_line = out@;
            let mut j: usize = info.ls;
            while j < info.le
                invariant
                    info.ls <= j <= info.le <= cs@.len(),
                    out@ == before_line + cs@.subrange(info.ls as int, j as int),
                decreases info.le - j,
            {
                push_char(&mut out, cs[j]);
                assert(cs@.subrange(info.ls as int, j + 1) =~= cs@.subrange(info.ls as int, j as int).push(cs@[j as int]));
                j = j + 1;
            }
            push_char(&mut out, '\n');
            let pad = info.col - 1;
            let ghost before_pad = out@;
            let mut p: usize = 0;
            while p < pad
                invariant
                    p <= pad,
                    out@ == before_pad + repeat_char(' ', p as nat),
                decreases pad - p,
            {
                push_char(&mut out, ' ');
                assert(repeat_char(' ', (p + 1) as nat) =~= repeat_char(' ', p as nat).push(' '));
                p = p + 1;
            }
            let width: usize = if span.end > span.start { (span.end - span.start) as usize } else { 1 };
            let text_bytes = info.le_byte - info.ls_byte;
            let room: usize = if text_bytes > pad { text_bytes - pad } else { 0 };
            let carets: usize = if width < room { width } else { room };
            let ghost before_carets = out@;
            let mut q: usize = 0;
            while q < carets
                invariant
                    q <= carets,
                    out@ == before_carets + repeat_char('^', q as nat),
                decreases carets - q,
            {
                push_char(&mut out, '^');
                assert(repeat_char('^', (q + 1) as nat) =~= repeat_char('^', q as nat).push('^'));
                q = q + 1;
            }
            push_char(&mut out, '\n');
            proof {
                reveal_strlit(":");
                reveal_strlit(": error: ");
                assert(out@ =~= diagnostic_text(path@, source@, d@));
            }
            return out;
        }
    }
    push_str(&mut out, path);
    push_str(&mut out, ": error: ");
    push_str(&mut out, d.message.as_str());
    push_char(&mut out, '\n');
    proof {
        assert(out@ =~= diagnostic_text(path@, source@, d@));
    }
    out
}

} // verus!
