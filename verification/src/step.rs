//! The text layer of STEP (ISO 10303-21) files: numbering entities as
//! they are written, reference lists, string escapes, and the cursor
//! that reads tokens.

use crate::text::{decimal, push_char, push_decimal, push_str, text};
use vstd::prelude::*;

verus! {

// ------------------------------------------------------------------ writing

/// Collects numbered entity instances.
pub struct Writer {
    data: String,
    next: usize,
}

impl Writer {
    /// The text written so far.
    pub closed spec fn written(&self) -> Seq<char> {
        self.data@
    }

    /// The number of the last entity written (0 before the first).
    pub closed spec fn count(&self) -> nat {
        self.next as nat
    }

    /// An empty writer.
    pub fn new() -> (w: Writer)
        ensures
            w.written() == Seq::<char>::empty(),
            w.count() == 0,
    {
        Writer { data: String::new(), next: 0 }
    }

    /// Appends an entity and returns its number.
    pub fn entity(&mut self, text: &str) -> (n: usize)
        requires
            old(self).count() < usize::MAX,
        ensures
            n == old(self).count() + 1,
            final(self).count() == n,
            final(self).written() == old(self).written() + "#"@ + decimal(n as nat) + "="@ + text@
                + ";\n"@,
    {
        self.next = self.next + 1;
        push_str(&mut self.data, "#");
        push_decimal(&mut self.data, self.next as u64);
        push_str(&mut self.data, "=");
        push_str(&mut self.data, text);
        push_str(&mut self.data, ";\n");
        self.next
    }

    /// The text written so far.
    pub fn data(&self) -> (s: &String)
        ensures
            s@ == self.written(),
    {
        &self.data
    }
}

impl Default for Writer {
    fn default() -> (w: Writer)
        ensures
            w.written() == Seq::<char>::empty(),
            w.count() == 0,
    {
        Writer::new()
    }
}

/// A list of entity references: `#a,#b,...`.
pub open spec fn refs_text(ids: Seq<usize>) -> Seq<char>
    decreases ids.len(),
{
    if ids.len() == 0 {
        Seq::empty()
    } else if ids.len() == 1 {
        "#"@ + decimal(ids[0] as nat)
    } else {
        refs_text(ids.drop_last()) + ",#"@ + decimal(ids.last() as nat)
    }
}

/// Entity references, comma-separated.
pub fn refs(ids: &[usize]) -> (s: String)
    ensures
        s@ == refs_text(ids@),
{
    let mut s = String::new();
    let mut i: usize = 0;
    while i < ids.len()
        invariant
            i <= ids@.len(),
            s@ == refs_text(ids@.take(i as int)),
        decreases ids@.len() - i,
    {
        let ghost before = s@;
        if i > 0 {
            push_str(&mut s, ",");
        }
        push_str(&mut s, "#");
        push_decimal(&mut s, ids[i] as u64);
        proof {
            assert(ids@.take(i + 1).drop_last() =~= ids@.take(i as int));
            if i == 0 {
                assert(ids@.take(1)[0] == ids@[0]);
                assert(s@ =~= "#"@ + decimal(ids@[0] as nat));
            } else {
                assert(s@ =~= before + ",#"@ + decimal(ids@[i as int] as nat)) by {
                    reveal_strlit(",");
                    reveal_strlit("#");
                    reveal_strlit(",#");
                }
            }
        }
        i = i + 1;
    }
    assert(ids@.take(i as int) =~= ids@);
    s
}

/// An upper-case hexadecimal digit.
pub open spec fn upper_digit(d: nat) -> char {
    if d < 10 {
        ((d + 48) as u8) as char
    } else {
        ((d + 55) as u8) as char
    }
}

/// `n` in upper-case hexadecimal, without leading zeros.
pub open spec fn upper_hex(n: nat) -> Seq<char>
    decreases n,
{
    if n < 16 {
        seq![upper_digit(n)]
    } else {
        upper_hex(n / 16).push(upper_digit(n % 16))
    }
}

/// `n` in upper-case hexadecimal, at least four digits.
pub open spec fn hex4(n: nat) -> Seq<char> {
    let h = upper_hex(n);
    if h.len() < 4 {
        Seq::new((4 - h.len()) as nat, |i: int| '0') + h
    } else {
        h
    }
}

fn upper(d: u32) -> (c: char)
    requires
        d < 16,
    ensures
        c == upper_digit(d as nat),
{
    if d < 10 {
        if d == 0 {
            '0'
        } else if d == 1 {
            '1'
        } else if d == 2 {
            '2'
        } else if d == 3 {
            '3'
        } else if d == 4 {
            '4'
        } else if d == 5 {
            '5'
        } else if d == 6 {
            '6'
        } else if d == 7 {
            '7'
        } else if d == 8 {
            '8'
        } else {
            '9'
        }
    } else if d == 10 {
        'A'
    } else if d == 11 {
        'B'
    } else if d == 12 {
        'C'
    } else if d == 13 {
        'D'
    } else if d == 14 {
        'E'
    } else {
        'F'
    }
}

fn push_upper_hex(s: &mut String, n: u32)
    ensures
        final(s)@ == old(s)@ + upper_hex(n as nat),
    decreases n,
{
    if n >= 16 {
        push_upper_hex(s, n / 16);
    }
    push_char(s, upper(n % 16));
    assert(final(s)@ =~= old(s)@ + upper_hex(n as nat));
}

proof fn lemma_upper_hex_len(n: nat)
    ensures
        n < 16 ==> upper_hex(n).len() == 1,
        16 <= n < 256 ==> upper_hex(n).len() == 2,
        256 <= n < 4096 ==> upper_hex(n).len() == 3,
        4096 <= n ==> upper_hex(n).len() >= 4,
    decreases n,
{
    if n >= 16 {
        lemma_upper_hex_len(n / 16);
    }
}

/// How a STEP string writes one character: apostrophes and backslashes
/// doubled, printable ASCII as it is, anything else as a `\X2\` escape of
/// its code point in (at least four) upper-case hexadecimal digits.
pub open spec fn step_char(c: char) -> Seq<char> {
    if c == '\'' {
        seq!['\'', '\'']
    } else if c == '\\' {
        seq!['\\', '\\']
    } else if 32 <= (c as u32) < 127 {
        seq![c]
    } else {
        seq!['\\', 'X', '2', '\\'] + hex4(c as u32 as nat) + seq!['\\', 'X', '0', '\\']
    }
}

/// A whole string as a STEP string's contents.
pub open spec fn step_text(s: Seq<char>) -> Seq<char>
    decreases s.len(),
{
    if s.len() == 0 {
        Seq::empty()
    } else {
        step_text(s.drop_last()) + step_char(s.last())
    }
}

/// Escapes text for a STEP string.
pub fn escape(s: &str) -> (out: String)
    ensures
        out@ == step_text(s@),
{
    let mut out = String::new();
    for c in it: s.chars()
        invariant
            it.seq() == s@,
            out@ == step_text(s@.take(it.index() as int)),
    {
        let ghost before = out@;
        if c == '\'' {
            push_char(&mut out, '\'');
            push_char(&mut out, '\'');
        } else if c == '\\' {
            push_char(&mut out, '\\');
            push_char(&mut out, '\\');
        } else if 32 <= (c as u32) && (c as u32) < 127 {
            push_char(&mut out, c);
        } else {
            let n = c as u32;
            push_char(&mut out, '\\');
            push_char(&mut out, 'X');
            push_char(&mut out, '2');
            push_char(&mut out, '\\');
            let ghost mid = out@;
            proof {
                lemma_upper_hex_len(n as nat);
            }
            let pad: usize = if n < 16 {
                3
            } else if n < 256 {
                2
            } else if n < 4096 {
                1
            } else {
                0
            };
            let mut k: usize = 0;
            while k < pad
                invariant
                    k <= pad,
                    out@ == mid + Seq::new(k as nat, |i: int| '0'),
                decreases pad - k,
            {
                push_char(&mut out, '0');
                k = k + 1;
                assert(out@ =~= mid + Seq::new(k as nat, |i: int| '0'));
            }
            push_upper_hex(&mut out, n);
            assert(out@ =~= mid + hex4(n as nat));
            push_char(&mut out, '\\');
            push_char(&mut out, 'X');
            push_char(&mut out, '0');
            push_char(&mut out, '\\');
        }
        assert(out@ =~= before + step_char(c));
        assert(s@.take(it.index() + 1).drop_last() =~= s@.take(it.index() as int));
    }
    assert(s@.take(s@.len() as int) =~= s@);
    out
}

/// A whole STEP file for the document named `document`, around the
/// entity instances `data`: the header (description, file name, schema)
/// and the DATA section.
pub open spec fn step_file_text(document: Seq<char>, data: Seq<char>) -> Seq<char> {
    let d = step_text(document);
    "ISO-10303-21;\nHEADER;\n"@ + "FILE_DESCRIPTION(('"@ + d + "'),'2;1');\n"@ + "FILE_NAME('"@ + d
        + ".step','',(''),(''),'offkilter','offkilter','');\n"@
        + "FILE_SCHEMA(('AUTOMOTIVE_DESIGN { 1 0 10303 214 1 1 1 1 }'));\nENDSEC;\nDATA;\n"@ + data
        + "ENDSEC;\nEND-ISO-10303-21;\n"@
}

/// The STEP file for the document named `document` whose entity
/// instances the writer `w` holds.
pub fn step_file(document: &str, w: &Writer) -> (out: String)
    ensures
        out@ == step_file_text(document@, w.written()),
{
    let d = escape(document);
    let mut out = text("ISO-10303-21;\nHEADER;\n");
    push_str(&mut out, "FILE_DESCRIPTION(('");
    push_str(&mut out, d.as_str());
    push_str(&mut out, "'),'2;1');\n");
    push_str(&mut out, "FILE_NAME('");
    push_str(&mut out, d.as_str());
    push_str(&mut out, ".step','',(''),(''),'offkilter','offkilter','');\n");
    push_str(&mut out, "FILE_SCHEMA(('AUTOMOTIVE_DESIGN { 1 0 10303 214 1 1 1 1 }'));\nENDSEC;\nDATA;\n");
    push_str(&mut out, w.data().as_str());
    push_str(&mut out, "ENDSEC;\nEND-ISO-10303-21;\n");
    assert(out@ =~= step_file_text(document@, w.written()));
    out
}

// ------------------------------------------------------------------ reading

/// Space between tokens: ASCII space, tab, line feed, form feed or
/// carriage return.
pub open spec fn space_byte(b: u8) -> bool {
    b == 0x20 || b == 0x09 || b == 0x0a || b == 0x0c || b == 0x0d
}

/// Where the next token starts, reading from `at`: past white space and
/// past `/* ... */` comments (an unclosed comment runs to the end).
pub open spec fn after_space(s: Seq<u8>, at: int) -> int
    decreases s.len() - at, 1int,
{
    if 0 <= at < s.len() && space_byte(s[at]) {
        after_space(s, at + 1)
    } else if 0 <= at && at + 2 <= s.len() && s[at] == 0x2f && s[at + 1] == 0x2a {
        after_comment(s, at + 2)
    } else {
        at
    }
}

/// Where reading resumes inside a comment, searching from `from` for its
/// end.
pub open spec fn after_comment(s: Seq<u8>, from: int) -> int
    decreases s.len() - from, 0int,
{
    if from < 0 || from + 2 > s.len() {
        s.len() as int
    } else if s[from] == 0x2a && s[from + 1] == 0x2f {
        after_space(s, from + 2)
    } else {
        after_comment(s, from + 1)
    }
}

/// A byte of an identifier: an ASCII letter or digit, or `_`.
pub open spec fn ident_byte(b: u8) -> bool {
    (0x30 <= b <= 0x39) || (0x41 <= b <= 0x5a) || (0x61 <= b <= 0x7a) || b == 0x5f
}

/// Where the identifier that starts at `from` ends.
pub open spec fn ident_end(s: Seq<u8>, from: int) -> int
    decreases s.len() - from,
{
    if 0 <= from < s.len() && ident_byte(s[from]) {
        ident_end(s, from + 1)
    } else {
        from
    }
}

/// Bytes read as the characters of the same codes.
pub open spec fn latin1(b: Seq<u8>) -> Seq<char> {
    b.map_values(|x: u8| x as char)
}

/// A reading position in the bytes of a STEP file.
pub struct Cursor<'a> {
    pub s: &'a [u8],
    pub at: usize,
}

pub proof fn lemma_after_space_bounds(s: Seq<u8>, at: int)
    requires
        0 <= at <= s.len(),
    ensures
        at <= after_space(s, at) <= s.len(),
    decreases s.len() - at, 1int,
{
    if 0 <= at < s.len() && space_byte(s[at]) {
        lemma_after_space_bounds(s, at + 1);
    } else if 0 <= at && at + 2 <= s.len() && s[at] == 0x2f && s[at + 1] == 0x2a {
        lemma_after_comment_bounds(s, at + 2);
    }
}

pub proof fn lemma_after_comment_bounds(s: Seq<u8>, from: int)
    requires
        0 <= from <= s.len(),
    ensures
        from <= after_comment(s, from) <= s.len(),
    decreases s.len() - from, 0int,
{
    if from + 2 > s.len() {
    } else if s[from] == 0x2a && s[from + 1] == 0x2f {
        lemma_after_space_bounds(s, from + 2);
    } else {
        lemma_after_comment_bounds(s, from + 1);
    }
}

pub proof fn lemma_ident_end_bounds(s: Seq<u8>, from: int)
    requires
        0 <= from <= s.len(),
    ensures
        from <= ident_end(s, from) <= s.len(),
    decreases s.len() - from,
{
    if from < s.len() && ident_byte(s[from]) {
        lemma_ident_end_bounds(s, from + 1);
    }
}

/// Reading stops at `r`: no space and no comment starts there.
pub open spec fn stops_at(s: Seq<u8>, r: int) -> bool {
    &&& !(0 <= r < s.len() && space_byte(s[r]))
    &&& !(0 <= r && r + 2 <= s.len() && s[r] == 0x2f && s[r + 1] == 0x2a)
}

proof fn lemma_space_stops(s: Seq<u8>, at: int)
    requires
        0 <= at <= s.len(),
    ensures
        stops_at(s, after_space(s, at)),
    decreases s.len() - at, 1int,
{
    if 0 <= at < s.len() && space_byte(s[at]) {
        lemma_space_stops(s, at + 1);
    } else if 0 <= at && at + 2 <= s.len() && s[at] == 0x2f && s[at + 1] == 0x2a {
        lemma_comment_stops(s, at + 2);
    }
}

proof fn lemma_comment_stops(s: Seq<u8>, from: int)
    requires
        0 <= from <= s.len(),
    ensures
        stops_at(s, after_comment(s, from)),
    decreases s.len() - from, 0int,
{
    if from + 2 > s.len() {
    } else if s[from] == 0x2a && s[from + 1] == 0x2f {
        lemma_space_stops(s, from + 2);
    } else {
        lemma_comment_stops(s, from + 1);
    }
}

/// Skipping space twice is skipping it once.
pub proof fn lemma_after_space_idem(s: Seq<u8>, at: int)
    requires
        0 <= at <= s.len(),
    ensures
        after_space(s, after_space(s, at)) == after_space(s, at),
{
    lemma_space_stops(s, at);
    lemma_after_space_bounds(s, at);
}

fn is_space_byte(b: u8) -> (r: bool)
    ensures
        r == space_byte(b),
{
    b == 0x20 || b == 0x09 || b == 0x0a || b == 0x0c || b == 0x0d
}

fn is_ident_byte(b: u8) -> (r: bool)
    ensures
        r == ident_byte(b),
{
    (0x30 <= b && b <= 0x39) || (0x41 <= b && b <= 0x5a) || (0x61 <= b && b <= 0x7a) || b == 0x5f
}

impl<'a> Cursor<'a> {
    /// Moves past white space and comments.
    pub fn skip_space(&mut self)
        requires
            old(self).at <= old(self).s@.len(),
        ensures
            final(self).s == old(self).s,
            final(self).at == after_space(old(self).s@, old(self).at as int),
    {
        let ghost target = after_space(self.s@, self.at as int);
        let n = self.s.len();
        loop
            invariant_except_break
                self.s == old(self).s,
                n == self.s@.len(),
                self.at <= n,
                target == after_space(self.s@, self.at as int),
            ensures
                self.s == old(self).s,
                self.at == target,
            decreases n - self.at,
        {
            if self.at < n && is_space_byte(self.s[self.at]) {
                self.at = self.at + 1;
            } else if n - self.at >= 2 && self.s[self.at] == 0x2f && self.s[self.at + 1] == 0x2a {
                let start = self.at;
                let mut j: usize = start + 2;
                loop
                    invariant_except_break
                        self.s == old(self).s,
                        n == self.s@.len(),
                        start + 2 <= j <= n,
                        target == after_comment(self.s@, j as int),
                    ensures
                        self.s == old(self).s,
                        start + 2 <= j <= n,
                        target == after_space(self.s@, j as int),
                    decreases n - j,
                {
                    if n - j < 2 {
                        j = n;
                        break;
                    }
                    if self.s[j] == 0x2a && self.s[j + 1] == 0x2f {
                        j = j + 2;
                        break;
                    }
                    j = j + 1;
                }
                self.at = j;
            } else {
                break;
            }
        }
    }

    /// The byte at the reading position, if there is one.
    pub fn peek(&self) -> (b: Option<u8>)
        ensures
            b == if self.at < self.s@.len() {
                Some(self.s@[self.at as int])
            } else {
                None::<u8>
            },
    {
        if self.at < self.s.len() {
            Some(self.s[self.at])
        } else {
            None
        }
    }

    /// Moves past space and then the byte `c`, or says where `c` was
    /// expected.
    pub fn expect(&mut self, c: u8) -> (r: Result<(), String>)
        requires
            old(self).at <= old(self).s@.len(),
        ensures
            final(self).s == old(self).s,
            ({
                let a = after_space(old(self).s@, old(self).at as int);
                if a < old(self).s@.len() && old(self).s@[a] == c {
                    r is Ok && final(self).at == a + 1
                } else {
                    &&& final(self).at == a
                    &&& (r matches Err(e) && e@ == "expected '"@ + seq![c as char] + "' at byte "@
                        + decimal(a as nat) + " of the STEP file"@)
                }
            }),
    {
        self.skip_space();
        proof {
            lemma_after_space_bounds(self.s@, old(self).at as int);
        }
        if self.at < self.s.len() && self.s[self.at] == c {
            self.at = self.at + 1;
            Ok(())
        } else {
            let mut e = text("expected '");
            push_char(&mut e, c as char);
            push_str(&mut e, "' at byte ");
            push_decimal(&mut e, self.at as u64);
            push_str(&mut e, " of the STEP file");
            Err(e)
        }
    }

    /// Moves past space and reads an identifier (possibly empty).
    pub fn ident(&mut self) -> (id: String)
        requires
            old(self).at <= old(self).s@.len(),
        ensures
            final(self).s == old(self).s,
            ({
                let a = after_space(old(self).s@, old(self).at as int);
                let e = ident_end(old(self).s@, a);
                &&& final(self).at == e
                &&& id@ == latin1(old(self).s@.subrange(a, e))
            }),
    {
        self.skip_space();
        proof {
            lemma_after_space_bounds(self.s@, old(self).at as int);
        }
        let start = self.at;
        let mut id = String::new();
        let n = self.s.len();
        while self.at < n && is_ident_byte(self.s[self.at])
            invariant
                self.s == old(self).s,
                n == self.s@.len(),
                start <= self.at <= n,
                ident_end(self.s@, start as int) == ident_end(self.s@, self.at as int),
                id@ == latin1(self.s@.subrange(start as int, self.at as int)),
            decreases n - self.at,
        {
            push_char(&mut id, self.s[self.at] as char);
            self.at = self.at + 1;
            assert(id@ =~= latin1(self.s@.subrange(start as int, self.at as int)));
        }
        id
    }
}

} // verus!
