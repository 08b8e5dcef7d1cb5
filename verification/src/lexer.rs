//! A line-oriented reader for Wavefront OBJ text: it joins the physical
//! lines that a backslash continues into logical lines and hands out their
//! characters, runs of digits and identifiers.

use vstd::prelude::*;

verus! {

/// `String::push` of std: appends one character to the end of the string.
pub assume_specification[ String::push ](string: &mut String, ch: char)
    ensures
        final(string)@ == old(string)@.push(ch),
;

/// The end of the physical line that starts at `at`, its line feed
/// included where it has one.
pub open spec fn line_end(text: Seq<u8>, at: int) -> int
    decreases text.len() - at,
{
    if at < 0 || at >= text.len() {
        at
    } else if text[at] == 10 {
        at + 1
    } else {
        line_end(text, at + 1)
    }
}

/// Where the line `start .. end` ends once the line feeds and carriage
/// returns at its end are cut.
pub open spec fn line_cut(text: Seq<u8>, start: int, end: int) -> int
    decreases end - start,
{
    if start < end <= text.len() && (text[end - 1] == 10 || text[end - 1] == 13) {
        line_cut(text, start, end - 1)
    } else {
        end
    }
}

/// The characters that the bytes stand for, one for one.
pub open spec fn as_chars(bytes: Seq<u8>) -> Seq<char> {
    Seq::new(bytes.len(), |i: int| bytes[i] as char)
}

/// What reading one logical line gives.
pub struct LogicalLine {
    /// The line, without line ends and without the backslashes that
    /// continued it.
    pub content: Seq<u8>,
    /// The place up to which the text was read.
    pub end: int,
    /// The number of physical lines that were read.
    pub lines: int,
    /// Whether the text ended before a line without a backslash at its end
    /// was read.
    pub ended: bool,
}

/// Reads physical lines from `at` on for as long as they end in a
/// backslash, and one more.
pub open spec fn logical_line(text: Seq<u8>, at: int) -> LogicalLine
    decreases text.len() - at,
{
    if at < 0 || at >= text.len() {
        LogicalLine { content: Seq::empty(), end: at, lines: 0, ended: true }
    } else {
        let end = line_end(text, at);
        let cut = line_cut(text, at, end);
        if at < cut && text[cut - 1] == 92 {
            proof {
                lemma_line_end(text, at);
            }
            let rest = logical_line(text, end);
            LogicalLine {
                content: text.subrange(at, cut - 1) + rest.content,
                end: rest.end,
                lines: 1 + rest.lines,
                ended: rest.ended,
            }
        } else {
            LogicalLine { content: text.subrange(at, cut), end, lines: 1, ended: false }
        }
    }
}

/// A physical line that starts inside the text has at least one byte and
/// ends inside the text.
pub proof fn lemma_line_end(text: Seq<u8>, at: int)
    requires
        0 <= at < text.len(),
    ensures
        at < line_end(text, at) <= text.len(),
    decreases text.len() - at,
{
    if text[at] != 10 {
        if at + 1 < text.len() {
            lemma_line_end(text, at + 1);
        } else {
            assert(line_end(text, at + 1) == at + 1);
        }
    }
}

/// A decimal digit.
pub open spec fn is_ascii_digit(c: char) -> bool {
    '0' <= c && c <= '9'
}

/// A character of a name: an ASCII letter or digit, `_`, `.` or `-`.
pub open spec fn is_identifier_char(c: char) -> bool {
    ('a' <= c && c <= 'z') || ('A' <= c && c <= 'Z') || is_ascii_digit(c) || c == '_' || c == '.' || c
        == '-'
}

/// The end of the run of digits that starts at `at`.
pub open spec fn digit_run_end(line: Seq<char>, at: int) -> int
    decreases line.len() - at,
{
    if 0 <= at < line.len() && is_ascii_digit(line[at]) {
        digit_run_end(line, at + 1)
    } else {
        at
    }
}

/// The end of the run of name characters that starts at `at`.
pub open spec fn identifier_run_end(line: Seq<char>, at: int) -> int
    decreases line.len() - at,
{
    if 0 <= at < line.len() && is_identifier_char(line[at]) {
        identifier_run_end(line, at + 1)
    } else {
        at
    }
}

/// A reader of OBJ text.
pub struct Lexer {
    reader: Vec<u8>,
    read: usize,
    current_line: Vec<char>,
    line_idx: usize,
    physical_line_number: usize,
    column_number: usize,
    is_eof: bool,
}

/// A `Lexer` as mathematics.
pub struct LexerView {
    /// The whole text.
    pub text: Seq<u8>,
    /// The number of bytes that have been read.
    pub read: int,
    /// The logical line that was read last.
    pub current_line: Seq<char>,
    /// The number of characters that have been taken.
    pub line_idx: int,
    /// The number of physical lines that have been read.
    pub physical_line_number: int,
    /// The number of characters that have been taken.
    pub column_number: int,
    /// Whether a read has met the end of the text.
    pub is_eof: bool,
}

impl View for Lexer {
    type V = LexerView;

    closed spec fn view(&self) -> LexerView {
        LexerView {
            text: self.reader@,
            read: self.read as int,
            current_line: self.current_line@,
            line_idx: self.line_idx as int,
            physical_line_number: self.physical_line_number as int,
            column_number: self.column_number as int,
            is_eof: self.is_eof,
        }
    }
}

impl LexerView {
    /// The reader has read no more than there is, counts no more lines than
    /// it has read bytes, and counts columns as it counts characters.
    pub open spec fn well_formed(self) -> bool {
        &&& 0 <= self.physical_line_number <= self.read <= self.text.len()
        &&& 0 <= self.line_idx == self.column_number
    }

    /// The character that stands next, if the end of the text has not been
    /// met and the current line reaches that far.
    pub open spec fn peek(self) -> Option<char> {
        if !self.is_eof && 0 <= self.line_idx < self.current_line.len() {
            Some(self.current_line[self.line_idx])
        } else {
            None
        }
    }

    /// The run of digits that stands next.
    pub open spec fn digits(self) -> Seq<char> {
        if self.peek() is Some {
            self.current_line.subrange(self.line_idx, digit_run_end(self.current_line, self.line_idx))
        } else {
            Seq::empty()
        }
    }

    /// The run of name characters that stands next.
    pub open spec fn identifier(self) -> Seq<char> {
        if self.peek() is Some {
            self.current_line.subrange(self.line_idx, identifier_run_end(self.current_line, self.line_idx))
        } else {
            Seq::empty()
        }
    }

    /// This reader after `count` characters have been taken.
    pub open spec fn advanced(self, count: int) -> LexerView {
        LexerView { line_idx: self.line_idx + count, column_number: self.column_number + count, ..self }
    }

    /// This reader after one logical line has been read. The count of taken
    /// characters stays as it is.
    pub open spec fn after_line(self) -> LexerView {
        let line = logical_line(self.text, self.read);
        LexerView {
            read: line.end,
            current_line: as_chars(line.content),
            physical_line_number: self.physical_line_number + line.lines,
            is_eof: self.is_eof || line.ended,
            ..self
        }
    }
}

impl Lexer {
    /// A reader that stands before the first byte of `reader`.
    pub fn new(reader: &[u8]) -> (lexer: Lexer)
        ensures
            lexer@.well_formed(),
            lexer@ == (LexerView {
                text: reader@,
                read: 0,
                current_line: Seq::<char>::empty(),
                line_idx: 0,
                physical_line_number: 0,
                column_number: 0,
                is_eof: false,
            }),
    {
        Lexer {
            reader: vstd::slice::slice_to_vec(reader),
            read: 0,
            current_line: Vec::new(),
            line_idx: 0,
            physical_line_number: 0,
            column_number: 0,
            is_eof: false,
        }
    }

    /// Reads the next logical line into the current line: physical lines
    /// for as long as they end in a backslash, and one more, joined without
    /// their line ends and backslashes. Returns whether any line was read.
    pub fn read_next_logical_line(&mut self) -> (read_any_line: bool)
        requires
            old(self)@.well_formed(),
        ensures
            final(self)@.well_formed(),
            final(self)@ == old(self)@.after_line(),
            read_any_line == (logical_line(old(self)@.text, old(self)@.read).lines > 0),
    {
        self.current_line.clear();
        let mut read_any_line = false;
        let ghost text = self.reader@;
        let ghost whole = logical_line(text, self.read as int);
        let ghost mut content: Seq<u8> = Seq::empty();
        let ghost mut lines: int = 0;
        loop
            invariant
                text == self.reader@,
                text == old(self).reader@,
                whole == logical_line(text, old(self).read as int),
                self.read <= self.reader.len(),
                self.line_idx == old(self).line_idx,
                self.column_number == old(self).column_number,
                self.column_number == self.line_idx,
                self.is_eof == old(self).is_eof,
                old(self).physical_line_number <= old(self).read,
                self.physical_line_number == old(self).physical_line_number + lines,
                0 <= lines <= self.read - old(self).read,
                read_any_line == (lines > 0),
                self.current_line@ == as_chars(content),
                whole == (LogicalLine {
                    content: content + logical_line(text, self.read as int).content,
                    end: logical_line(text, self.read as int).end,
                    lines: lines + logical_line(text, self.read as int).lines,
                    ended: logical_line(text, self.read as int).ended,
                }),
            decreases self.reader.len() - self.read,
        {
            if self.read >= self.reader.len() {
                self.is_eof = true;
                proof {
                    assert(content + Seq::<u8>::empty() =~= content);
                }
                return read_any_line;
            }
            let start = self.read;
            let mut end = start;
            while end < self.reader.len() && self.reader[end] != 10
                invariant
                    text == self.reader@,
                    start <= end <= self.reader.len(),
                    line_end(text, end as int) == line_end(text, start as int),
                decreases self.reader.len() - end,
            {
                end = end + 1;
            }
            if end < self.reader.len() {
                end = end + 1;
            }
            proof {
                lemma_line_end(text, start as int);
            }
            let mut cut = end;
            while start < cut && (self.reader[cut - 1] == 10 || self.reader[cut - 1] == 13)
                invariant
                    text == self.reader@,
                    start <= cut <= end <= self.reader.len(),
                    line_cut(text, start as int, cut as int) == line_cut(text, start as int, end as int),
                decreases cut - start,
            {
                cut = cut - 1;
            }
            self.read = end;
            self.physical_line_number = self.physical_line_number + 1;
            read_any_line = true;
            let continued = start < cut && self.reader[cut - 1] == 92;
            let stop = if continued {
                cut - 1
            } else {
                cut
            };
            let ghost before = content;
            let mut i = start;
            while i < stop
                invariant
                    text == self.reader@,
                    start <= i <= stop <= self.reader.len(),
                    content == before + text.subrange(start as int, i as int),
                    self.current_line@ == as_chars(content),
                    self.read == end,
                    self.line_idx == old(self).line_idx,
                    self.column_number == old(self).column_number,
                    self.is_eof == old(self).is_eof,
                    self.physical_line_number == old(self).physical_line_number + lines + 1,
                decreases stop - i,
            {
                self.current_line.push(self.reader[i] as char);
                proof {
                    let longer = content.push(text[i as int]);
                    assert(longer =~= before + text.subrange(start as int, i + 1));
                    assert(self.current_line@ =~= as_chars(longer));
                    content = longer;
                }
                i = i + 1;
            }
            proof {
                lines = lines + 1;
                if continued {
                    let rest = logical_line(text, end as int);
                    assert((before + text.subrange(start as int, stop as int)) + rest.content =~= before + (
                    text.subrange(start as int, stop as int) + rest.content));
                }
            }
            if !continued {
                return true;
            }
        }
    }

    /// The character that stands next, if there is one.
    pub fn peek_char(&self) -> (c: Option<char>)
        requires
            self@.well_formed(),
        ensures
            c == self@.peek(),
    {
        if self.is_eof {
            return None;
        }
        if self.line_idx < self.current_line.len() {
            Some(self.current_line[self.line_idx])
        } else {
            None
        }
    }

    /// Takes the character that stands next, if there is one.
    pub fn consume_char(&mut self) -> (c: Option<char>)
        requires
            old(self)@.well_formed(),
        ensures
            final(self)@.well_formed(),
            c == old(self)@.peek(),
            final(self)@ == (if c is Some {
                old(self)@.advanced(1)
            } else {
                old(self)@
            }),
    {
        if self.is_eof {
            return None;
        }
        if self.line_idx < self.current_line.len() {
            let c = self.current_line[self.line_idx];
            self.line_idx = self.line_idx + 1;
            self.column_number = self.column_number + 1;
            Some(c)
        } else {
            None
        }
    }

    /// Takes the run of digits that stands next; it may be empty.
    pub fn read_digits(&mut self) -> (digits: String)
        requires
            old(self)@.well_formed(),
        ensures
            final(self)@.well_formed(),
            digits@ == old(self)@.digits(),
            final(self)@ == old(self)@.advanced(digits@.len() as int),
    {
        let mut s = String::new();
        let ghost line = self@.current_line;
        let ghost start = self@.line_idx;
        let mut done = false;
        while !done
            invariant
                self@.well_formed(),
                line == old(self)@.current_line,
                start == old(self)@.line_idx,
                self@ == old(self)@.advanced(s@.len() as int),
                old(self)@.peek() is None ==> s@.len() == 0,
                old(self)@.peek() is Some ==> start + s@.len() <= line.len() && s@ == line.subrange(
                    start,
                    start + s@.len(),
                ),
                digit_run_end(line, start + s@.len()) == digit_run_end(line, start),
                done && old(self)@.peek() is Some ==> digit_run_end(line, start + s@.len()) == start + s@.len(),
            decreases line.len() - self@.line_idx, (if done { 0int } else { 1int }),
        {
            match self.peek_char() {
                Some(c) => {
                    if '0' <= c && c <= '9' {
                        let ghost before = s@;
                        s.push(c);
                        self.consume_char();
                        proof {
                            assert(s@ =~= line.subrange(start, start + s@.len()));
                        }
                    } else {
                        done = true;
                    }
                },
                None => {
                    done = true;
                },
            }
        }
        s
    }

    /// Takes the run of name characters that stands next; it may be empty.
    pub fn read_identifier(&mut self) -> (identifier: String)
        requires
            old(self)@.well_formed(),
        ensures
            final(self)@.well_formed(),
            identifier@ == old(self)@.identifier(),
            final(self)@ == old(self)@.advanced(identifier@.len() as int),
    {
        let mut s = String::new();
        let ghost line = self@.current_line;
        let ghost start = self@.line_idx;
        let mut done = false;
        while !done
            invariant
                self@.well_formed(),
                line == old(self)@.current_line,
                start == old(self)@.line_idx,
                self@ == old(self)@.advanced(s@.len() as int),
                old(self)@.peek() is None ==> s@.len() == 0,
                old(self)@.peek() is Some ==> start + s@.len() <= line.len() && s@ == line.subrange(
                    start,
                    start + s@.len(),
                ),
                identifier_run_end(line, start + s@.len()) == identifier_run_end(line, start),
                done && old(self)@.peek() is Some ==> identifier_run_end(line, start + s@.len()) == start + s@.len(),
            decreases line.len() - self@.line_idx, (if done { 0int } else { 1int }),
        {
            match self.peek_char() {
                Some(c) => {
                    if ('a' <= c && c <= 'z') || ('A' <= c && c <= 'Z') || ('0' <= c && c <= '9') || c == '_'
                        || c == '.' || c == '-' {
                        let ghost before = s@;
                        s.push(c);
                        self.consume_char();
                        proof {
                            assert(s@ =~= line.subrange(start, start + s@.len()));
                        }
                    } else {
                        done = true;
                    }
                },
                None => {
                    done = true;
                },
            }
        }
        s
    }
}

} // verus!
