//! Characters of a definition and the scanning steps over them.

use vstd::prelude::*;
use vstd::string::StrSliceExecFns;

verus! {

/// Blanks between the tokens of a definition.
pub open spec fn is_space(c: char) -> bool {
    c == ' ' || c == '\t' || c == '\n' || c == '\r'
}

/// The characters that words are made of: ASCII letters, digits and the
/// underscore.
pub open spec fn is_word_char(c: char) -> bool {
    ('a' <= c && c <= 'z') || ('A' <= c && c <= 'Z') || is_digit(c) || c == '_'
}

/// A decimal digit.
pub open spec fn is_digit(c: char) -> bool {
    '0' <= c && c <= '9'
}

/// The first place at or after `at` that holds no blank.
pub open spec fn skip_spaces(text: Seq<char>, at: int) -> int
    decreases text.len() - at,
{
    if 0 <= at < text.len() && is_space(text[at]) {
        skip_spaces(text, at + 1)
    } else {
        at
    }
}

/// The end of the word that starts at `at`.
pub open spec fn word_end(text: Seq<char>, at: int) -> int
    decreases text.len() - at,
{
    if 0 <= at < text.len() && is_word_char(text[at]) {
        word_end(text, at + 1)
    } else {
        at
    }
}

/// The end of the run of digits that starts at `at`.
pub open spec fn digits_end(text: Seq<char>, at: int) -> int
    decreases text.len() - at,
{
    if 0 <= at < text.len() && is_digit(text[at]) {
        digits_end(text, at + 1)
    } else {
        at
    }
}

/// Where the text `start .. end` ends once the blanks at its end are cut.
pub open spec fn trimmed_end(text: Seq<char>, start: int, end: int) -> int
    decreases end - start,
{
    if start < end <= text.len() && is_space(text[end - 1]) {
        trimmed_end(text, start, end - 1)
    } else {
        end
    }
}

/// A bracket that opens a group.
pub open spec fn is_opener(c: char) -> bool {
    c == '(' || c == '[' || c == '{'
}

/// A bracket that closes a group.
pub open spec fn is_closer(c: char) -> bool {
    c == ')' || c == ']' || c == '}'
}

/// The end of the value that is being read at `at`, `depth` brackets deep
/// and, if `quoted`, inside a string: the first comma, semicolon or closing
/// bracket that stands outside all brackets and strings, or the end of the
/// text. `None` where the text ends inside a bracket or a string. Strings
/// stand in double quotes, and a backslash inside one hides the character
/// after it.
pub open spec fn value_end(text: Seq<char>, at: int, depth: nat, quoted: bool) -> Option<int>
    decreases text.len() - at,
{
    if at < 0 || at >= text.len() {
        if depth == 0 && !quoted {
            Some(text.len() as int)
        } else {
            None
        }
    } else if quoted {
        if text[at] == '\\' && at + 1 < text.len() {
            value_end(text, at + 2, depth, true)
        } else if text[at] == '"' {
            value_end(text, at + 1, depth, false)
        } else {
            value_end(text, at + 1, depth, true)
        }
    } else if text[at] == '"' {
        value_end(text, at + 1, depth, true)
    } else if is_opener(text[at]) {
        value_end(text, at + 1, depth + 1, false)
    } else if is_closer(text[at]) {
        if depth == 0 {
            Some(at)
        } else {
            value_end(text, at + 1, (depth - 1) as nat, false)
        }
    } else if (text[at] == ',' || text[at] == ';') && depth == 0 {
        Some(at)
    } else {
        value_end(text, at + 1, depth, false)
    }
}

/// `skip_spaces` moves forward only, stays inside the text, and stops at a
/// character that is no blank.
pub proof fn lemma_skip_spaces(text: Seq<char>, at: int)
    requires
        0 <= at <= text.len(),
    ensures
        at <= skip_spaces(text, at) <= text.len(),
        skip_spaces(text, at) < text.len() ==> !is_space(text[skip_spaces(text, at)]),
    decreases text.len() - at,
{
    if at < text.len() && is_space(text[at]) {
        lemma_skip_spaces(text, at + 1);
    }
}

/// `word_end` moves forward only and stays inside the text; what it passes
/// over are word characters.
pub proof fn lemma_word_end(text: Seq<char>, at: int)
    requires
        0 <= at <= text.len(),
    ensures
        at <= word_end(text, at) <= text.len(),
        forall|i: int| at <= i < word_end(text, at) ==> is_word_char(#[trigger] text[i]),
    decreases text.len() - at,
{
    if at < text.len() && is_word_char(text[at]) {
        lemma_word_end(text, at + 1);
    }
}

/// `digits_end` moves forward only and stays inside the text; what it passes
/// over are digits.
pub proof fn lemma_digits_end(text: Seq<char>, at: int)
    requires
        0 <= at <= text.len(),
    ensures
        at <= digits_end(text, at) <= text.len(),
        forall|i: int| at <= i < digits_end(text, at) ==> is_digit(#[trigger] text[i]),
    decreases text.len() - at,
{
    if at < text.len() && is_digit(text[at]) {
        lemma_digits_end(text, at + 1);
    }
}

/// A value ends at or after the place where its reading stands, inside the
/// text.
pub proof fn lemma_value_end(text: Seq<char>, at: int, depth: nat, quoted: bool)
    requires
        0 <= at <= text.len(),
    ensures
        value_end(text, at, depth, quoted) matches Some(end) ==> at <= end <= text.len(),
    decreases text.len() - at,
{
    if at >= text.len() {
    } else if quoted {
        if text[at] == '\\' && at + 1 < text.len() {
            lemma_value_end(text, at + 2, depth, true);
        } else if text[at] == '"' {
            lemma_value_end(text, at + 1, depth, false);
        } else {
            lemma_value_end(text, at + 1, depth, true);
        }
    } else if text[at] == '"' {
        lemma_value_end(text, at + 1, depth, true);
    } else if is_opener(text[at]) {
        lemma_value_end(text, at + 1, depth + 1, false);
    } else if is_closer(text[at]) {
        if depth != 0 {
            lemma_value_end(text, at + 1, (depth - 1) as nat, false);
        }
    } else if (text[at] == ',' || text[at] == ';') && depth == 0 {
    } else {
        lemma_value_end(text, at + 1, depth, false);
    }
}

/// The number of line feeds before the place `at`: the line in which it
/// lies, counted from zero.
pub open spec fn line_of(text: Seq<char>, at: int) -> int
    decreases at,
{
    if at <= 0 || at > text.len() {
        0
    } else if text[at - 1] == '\n' {
        line_of(text, at - 1) + 1
    } else {
        line_of(text, at - 1)
    }
}

/// The number of characters between the place `at` and the line feed before
/// it: the column at which it lies, counted from zero.
pub open spec fn column_of(text: Seq<char>, at: int) -> int
    decreases at,
{
    if at <= 0 || at > text.len() || text[at - 1] == '\n' {
        0
    } else {
        column_of(text, at - 1) + 1
    }
}

/// The line and the column of the place `at`, both counted from zero; a
/// place beyond the end of the text counts as the end.
pub open spec fn line_column_of(text: Seq<char>, at: int) -> (int, int) {
    let place = if at <= text.len() {
        at
    } else {
        text.len() as int
    };
    (line_of(text, place), column_of(text, place))
}

/// The line and the column of the place `at` in `text`, both counted from
/// zero; a place beyond the end of the text counts as the end.
pub fn line_column(text: &str, at: usize) -> (place: (usize, usize))
    ensures
        (place.0 as int, place.1 as int) == line_column_of(text@, at as int),
{
    let chars = characters(text);
    let end = if at <= chars.len() {
        at
    } else {
        chars.len()
    };
    let mut line: usize = 0;
    let mut column: usize = 0;
    let mut i: usize = 0;
    while i < end
        invariant
            chars@ == text@,
            0 <= i <= end <= chars.len(),
            line == line_of(text@, i as int),
            column == column_of(text@, i as int),
            line <= i,
            column <= i,
        decreases end - i,
    {
        if chars[i] == '\n' {
            line = line + 1;
            column = 0;
        } else {
            column = column + 1;
        }
        i = i + 1;
    }
    (line, column)
}

/// The characters of `text`, in order.
pub fn characters(text: &str) -> (chars: Vec<char>)
    ensures
        chars@ == text@,
{
    let mut chars: Vec<char> = Vec::new();
    for c in iter: text.chars()
        invariant
            chars@ == iter.seq().take(iter.index() as int),
            iter.seq() == text@,
    {
        chars.push(c);
    }
    chars
}

/// Whether `c` is a blank.
pub fn space(c: char) -> (yes: bool)
    ensures
        yes == is_space(c),
{
    c == ' ' || c == '\t' || c == '\n' || c == '\r'
}

/// Whether `c` is a decimal digit.
pub fn digit(c: char) -> (yes: bool)
    ensures
        yes == is_digit(c),
{
    '0' <= c && c <= '9'
}

/// Whether `c` may stand in a word.
pub fn word_char(c: char) -> (yes: bool)
    ensures
        yes == is_word_char(c),
{
    ('a' <= c && c <= 'z') || ('A' <= c && c <= 'Z') || digit(c) || c == '_'
}

/// A definition that is being read, and how far the reading has come.
pub struct ParseStream<'a> {
    source: &'a str,
    chars: Vec<char>,
    position: usize,
}

impl<'a> ParseStream<'a> {
    /// The whole text.
    pub closed spec fn text(&self) -> Seq<char> {
        self.chars@
    }

    /// The place of the next character to be read.
    pub open spec fn position(&self) -> int {
        self.cursor() as int
    }

    /// The place of the next character to be read, as the machine counts it.
    pub closed spec fn cursor(&self) -> usize {
        self.position
    }

    /// The reading has not run past the end of the text.
    pub closed spec fn well_formed(&self) -> bool {
        &&& self.chars@ == self.source@
        &&& self.position <= self.chars.len()
    }

    /// A reading of `source` that stands at its start.
    pub fn new(source: &'a str) -> (stream: Self)
        ensures
            stream.well_formed(),
            stream.text() == source@,
            stream.position() == 0,
    {
        ParseStream { source, chars: characters(source), position: 0 }
    }

    /// The place of the next character to be read.
    pub fn offset(&self) -> (at: usize)
        requires
            self.well_formed(),
        ensures
            at == self.position(),
            at <= self.text().len(),
    {
        self.position
    }

    /// The number of characters of the text.
    pub fn len(&self) -> (len: usize)
        ensures
            len == self.text().len(),
    {
        self.chars.len()
    }

    /// Whether the whole text has been read.
    pub fn is_empty(&self) -> (done: bool)
        requires
            self.well_formed(),
        ensures
            done == (self.position() >= self.text().len()),
            self.position() <= self.text().len(),
    {
        self.position >= self.chars.len()
    }

    /// Whether the character `ahead` places after the next one is `c`.
    pub fn ahead_is(&self, ahead: usize, c: char) -> (yes: bool)
        requires
            self.well_formed(),
        ensures
            yes == (self.position() + ahead < self.text().len() && self.text()[self.position() + ahead]
                == c),
    {
        ahead < self.chars.len() - self.position && self.chars[self.position + ahead] == c
    }

    /// Whether the next character is `c`.
    pub fn next_is(&self, c: char) -> (yes: bool)
        requires
            self.well_formed(),
        ensures
            yes == (self.position() < self.text().len() && self.text()[self.position()] == c),
    {
        self.position < self.chars.len() && self.chars[self.position] == c
    }

    /// Moves over the next `count` characters.
    pub fn advance(&mut self, count: usize)
        requires
            old(self).well_formed(),
            old(self).position() + count <= old(self).text().len(),
        ensures
            final(self).well_formed(),
            final(self).text() == old(self).text(),
            final(self).position() == old(self).position() + count,
    {
        self.position = self.position + count;
    }

    /// Moves back or forth to `at`.
    pub fn seek(&mut self, at: usize)
        requires
            old(self).well_formed(),
            at <= old(self).text().len(),
        ensures
            final(self).well_formed(),
            final(self).text() == old(self).text(),
            final(self).position() == at,
    {
        self.position = at;
    }

    /// Moves over the blanks that come next.
    pub fn skip_spaces(&mut self)
        requires
            old(self).well_formed(),
        ensures
            final(self).well_formed(),
            final(self).text() == old(self).text(),
            final(self).position() == skip_spaces(old(self).text(), old(self).position()),
            old(self).position() <= final(self).position() <= final(self).text().len(),
    {
        while self.position < self.chars.len() && space(self.chars[self.position])
            invariant
                self.well_formed(),
                self.text() == old(self).text(),
                old(self).position() <= self.position() <= self.text().len(),
                skip_spaces(self.text(), self.position()) == skip_spaces(
                    old(self).text(),
                    old(self).position(),
                ),
            decreases self.chars.len() - self.position,
        {
            self.position = self.position + 1;
        }
    }

    /// Reads the word that comes next; it is empty where the next character
    /// is no word character.
    pub fn word(&mut self) -> (word: &'a str)
        requires
            old(self).well_formed(),
        ensures
            final(self).well_formed(),
            final(self).text() == old(self).text(),
            final(self).position() == word_end(old(self).text(), old(self).position()),
            old(self).position() <= final(self).position() <= final(self).text().len(),
            word@ == old(self).text().subrange(old(self).position(), final(self).position()),
            forall|i: int| 0 <= i < word@.len() ==> is_word_char(#[trigger] word@[i]),
    {
        let start = self.position;
        while self.position < self.chars.len() && word_char(self.chars[self.position])
            invariant
                self.well_formed(),
                self.text() == old(self).text(),
                start == old(self).position(),
                start <= self.position() <= self.text().len(),
                word_end(self.text(), self.position()) == word_end(old(self).text(), start as int),
                forall|i: int| start <= i < self.position() ==> is_word_char(#[trigger] self.text()[i]),
            decreases self.chars.len() - self.position,
        {
            self.position = self.position + 1;
        }
        self.source.substring_char(start, self.position)
    }

    /// The text from `start` to `end`.
    pub fn slice(&self, start: usize, end: usize) -> (part: &'a str)
        requires
            self.well_formed(),
            start <= end <= self.text().len(),
        ensures
            part@ == self.text().subrange(start as int, end as int),
    {
        self.source.substring_char(start, end)
    }

    /// The end of the run of digits that comes next; the reading stays where
    /// it is.
    pub fn digits_end(&self, from: usize) -> (end: usize)
        requires
            self.well_formed(),
            from <= self.text().len(),
        ensures
            end == digits_end(self.text(), from as int),
            from <= end <= self.text().len(),
    {
        let mut end = from;
        while end < self.chars.len() && digit(self.chars[end])
            invariant
                from <= end <= self.chars.len(),
                digits_end(self.chars@, end as int) == digits_end(self.chars@, from as int),
            decreases self.chars.len() - end,
        {
            end = end + 1;
        }
        end
    }

    /// Whether the text from `start` to `end` is made of exactly `letters`.
    pub fn spells(&self, start: usize, end: usize, letters: &Vec<char>) -> (yes: bool)
        requires
            self.well_formed(),
            start <= end <= self.text().len(),
        ensures
            yes == (self.text().subrange(start as int, end as int) == letters@),
    {
        if end - start != letters.len() {
            return false;
        }
        let mut i: usize = 0;
        while i < letters.len()
            invariant
                start <= end <= self.chars.len(),
                end - start == letters.len(),
                0 <= i <= letters.len(),
                forall|j: int| 0 <= j < i ==> self.chars@[start + j] == letters@[j],
            decreases letters.len() - i,
        {
            if self.chars[start + i] != letters[i] {
                assert(self.text().subrange(start as int, end as int)[i as int] != letters@[i as int]);
                return false;
            }
            i = i + 1;
        }
        assert(self.text().subrange(start as int, end as int) =~= letters@);
        true
    }

    /// The character at `at`.
    pub fn char_at(&self, at: usize) -> (c: char)
        requires
            at < self.text().len(),
        ensures
            c == self.text()[at as int],
    {
        self.chars[at]
    }

    /// Reads the value that comes next, up to the comma, semicolon or closing
    /// bracket that ends it, and returns where it ends once the blanks at its
    /// end are cut. `None` where the text ends inside a bracket or a string;
    /// the reading then stays where it was.
    pub fn value(&mut self) -> (trimmed: Option<usize>)
        requires
            old(self).well_formed(),
        ensures
            final(self).well_formed(),
            final(self).text() == old(self).text(),
            match trimmed {
                Some(cut) => {
                    &&& value_end(old(self).text(), old(self).position(), 0, false) == Some(
                        final(self).position(),
                    )
                    &&& cut == trimmed_end(old(self).text(), old(self).position(), final(self).position())
                    &&& old(self).position() <= cut <= final(self).position() <= final(self).text().len()
                },
                None => {
                    &&& value_end(old(self).text(), old(self).position(), 0, false) is None
                    &&& final(self).position() == old(self).position()
                },
            },
    {
        let start = self.position;
        let mut at = start;
        let mut depth: usize = 0;
        let mut quoted = false;
        let mut found = false;
        while !found && at < self.chars.len()
            invariant
                self.well_formed(),
                self.text() == old(self).text(),
                self.position == start,
                start <= at <= self.chars.len(),
                depth <= at,
                found ==> at < self.chars.len(),
                value_end(self.chars@, start as int, 0, false) == (if found {
                    Some(at as int)
                } else {
                    value_end(self.chars@, at as int, depth as nat, quoted)
                }),
            decreases self.chars.len() - at, (if found { 0int } else { 1int }),
        {
            let c = self.chars[at];
            if quoted {
                if c == '\\' && at + 1 < self.chars.len() {
                    at = at + 2;
                } else if c == '"' {
                    quoted = false;
                    at = at + 1;
                } else {
                    at = at + 1;
                }
            } else if c == '"' {
                quoted = true;
                at = at + 1;
            } else if c == '(' || c == '[' || c == '{' {
                depth = depth + 1;
                at = at + 1;
            } else if c == ')' || c == ']' || c == '}' {
                if depth == 0 {
                    found = true;
                } else {
                    depth = depth - 1;
                    at = at + 1;
                }
            } else if (c == ',' || c == ';') && depth == 0 {
                found = true;
            } else {
                at = at + 1;
            }
        }
        if !found && (depth != 0 || quoted) {
            return None;
        }
        let mut cut = at;
        while start < cut && space(self.chars[cut - 1])
            invariant
                start <= cut <= at <= self.chars.len(),
                trimmed_end(self.chars@, start as int, cut as int) == trimmed_end(
                    self.chars@,
                    start as int,
                    at as int,
                ),
            decreases cut - start,
        {
            cut = cut - 1;
        }
        self.position = at;
        Some(cut)
    }
}

} // verus!
