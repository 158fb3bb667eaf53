//! Reading the DATA section of a STEP (ISO 10303-21) file: entity
//! instances, their (possibly complex) parts and argument values.
//!
//! Numbers are checked against the grammar of Rust's float syntax and
//! kept as their text; what they are worth is the reader's business.

use crate::step::{after_space, ident_end, latin1, step_char, step_text, Cursor};
use crate::text::{decimal, push_char, push_str, text};
use vstd::prelude::*;
use vstd::string::StringSliceAdditionalSpecFns;
use vstd::utf8::{decode_utf8, valid_utf8};

verus! {

// ------------------------------------------------------------------ values

/// A value as the grammar reads it.
pub enum Term {
    Str(Seq<char>),
    /// A number, by its text.
    Num(Seq<char>),
    Ref(nat),
    Enum(Seq<char>),
    List(Seq<Term>),
    Typed(Seq<char>, Seq<Term>),
    Null,
}

/// An argument value of an entity instance.
#[derive(Debug, PartialEq)]
pub enum Val {
    Str(String),
    /// A number, by its text (it follows Rust's float syntax).
    Num(String),
    Ref(usize),
    Enum(String),
    List(Vec<Val>),
    Typed(String, Vec<Val>),
    Null,
}

/// What a value says.
pub open spec fn term_of(v: Val) -> Term
    decreases v,
{
    match v {
        Val::Str(s) => Term::Str(s@),
        Val::Num(s) => Term::Num(s@),
        Val::Ref(r) => Term::Ref(r as nat),
        Val::Enum(s) => Term::Enum(s@),
        Val::List(items) => Term::List(terms_of(items@)),
        Val::Typed(k, items) => Term::Typed(k@, terms_of(items@)),
        Val::Null => Term::Null,
    }
}

/// What a list of values says.
pub open spec fn terms_of(items: Seq<Val>) -> Seq<Term>
    decreases items,
{
    if items.len() == 0 {
        Seq::empty()
    } else {
        terms_of(items.drop_last()).push(term_of(items.last()))
    }
}

/// One part of an entity instance: its type and arguments.
pub type Part = (String, Vec<Val>);

/// What a part says.
pub open spec fn part_of(p: Part) -> (Seq<char>, Seq<Term>) {
    (p.0@, terms_of(p.1@))
}

/// What a list of parts says.
pub open spec fn parts_of(ps: Seq<Part>) -> Seq<(Seq<char>, Seq<Term>)> {
    ps.map_values(|p: Part| part_of(p))
}

/// What the entities of a file say, in file order.
pub open spec fn entities_of(es: Seq<(usize, Vec<Part>)>) -> Seq<(nat, Seq<(Seq<char>, Seq<Term>)>)> {
    es.map_values(|e: (usize, Vec<Part>)| (e.0 as nat, parts_of(e.1@)))
}

/// A result of reading from a position: what was read and where reading
/// stopped, or why it failed.
pub enum Parsed<T> {
    Done(T, int),
    Failed(Seq<char>),
}

// ------------------------------------------------------------------ tokens

/// An ASCII digit.
pub open spec fn digit_byte(b: u8) -> bool {
    0x30 <= b <= 0x39
}

/// Where the run of digits from `from` ends.
pub open spec fn digits_end(s: Seq<u8>, from: int) -> int
    decreases s.len() - from,
{
    if 0 <= from < s.len() && digit_byte(s[from]) {
        digits_end(s, from + 1)
    } else {
        from
    }
}

/// The number the digits `s[from..to]` write in decimal.
pub open spec fn digits_value(s: Seq<u8>, from: int, to: int) -> nat
    decreases to - from,
{
    if to <= from {
        0
    } else {
        digits_value(s, from, to - 1) * 10 + (s[to - 1] - 0x30) as nat
    }
}

/// A byte that can continue a number: a digit, `.`, `E`, `e`, `-`, `+`.
pub open spec fn num_byte(b: u8) -> bool {
    digit_byte(b) || b == 0x2e || b == 0x45 || b == 0x65 || b == 0x2d || b == 0x2b
}

/// Where the number whose first byte is before `from` ends.
pub open spec fn num_end(s: Seq<u8>, from: int) -> int
    decreases s.len() - from,
{
    if 0 <= from < s.len() && num_byte(s[from]) {
        num_end(s, from + 1)
    } else {
        from
    }
}

/// A sign.
pub open spec fn sign_byte(b: u8) -> bool {
    b == 0x2b || b == 0x2d
}

/// An exponent marker.
pub open spec fn exp_byte(b: u8) -> bool {
    b == 0x45 || b == 0x65
}

/// `t[j..]` is the digits of an exponent, with an optional sign.
pub open spec fn exponent_text(t: Seq<u8>, j: int) -> bool {
    let j1 = if j < t.len() && sign_byte(t[j]) {
        j + 1
    } else {
        j
    };
    let j2 = digits_end(t, j1);
    j2 > j1 && j2 == t.len()
}

/// `t` follows Rust's float syntax without `inf` and `nan`: an optional
/// sign, digits with at most one point and at least one digit, and an
/// optional exponent (`e` or `E`, an optional sign, digits).
pub open spec fn float_text(t: Seq<u8>) -> bool {
    let i0 = if t.len() > 0 && sign_byte(t[0]) {
        1int
    } else {
        0
    };
    let i1 = digits_end(t, i0);
    let dot = i1 < t.len() && t[i1] == 0x2e;
    let i2 = if dot {
        digits_end(t, i1 + 1)
    } else {
        i1
    };
    let fraction = if dot {
        i2 - i1 - 1
    } else {
        0
    };
    &&& (i1 - i0) + fraction > 0
    &&& (i2 == t.len() || (exp_byte(t[i2]) && exponent_text(t, i2 + 1)))
}

/// The first `.` at or after `from`, or the end.
pub open spec fn dot_end(s: Seq<u8>, from: int) -> int
    decreases s.len() - from,
{
    if 0 <= from < s.len() && s[from] != 0x2e {
        dot_end(s, from + 1)
    } else {
        from
    }
}

/// What `String::from_utf8_lossy` makes of `b`: its UTF-8 decoding, with
/// U+FFFD for what is not UTF-8.
pub uninterp spec fn utf8_lossy(b: Seq<u8>) -> Seq<char>;

/// `String::from_utf8_lossy`. Trusted: the result is `utf8_lossy(b)`,
/// and the decoding of `b` when `b` is UTF-8.
#[verifier::external_body]
fn lossy(b: &[u8]) -> (r: String)
    ensures
        r@ == utf8_lossy(b@),
        valid_utf8(b@) ==> r@ == decode_utf8(b@),
{
    String::from_utf8_lossy(b).to_string()
}

// ---------------------------------------------------------------- messages

/// What `expect` says when `c` is not at `at`.
pub open spec fn expected_msg(c: u8, at: int) -> Seq<char> {
    "expected '"@ + seq![c as char] + "' at byte "@ + decimal(at as nat) + " of the STEP file"@
}

/// Said when a value was due and the file ended.
pub open spec fn end_msg() -> Seq<char> {
    "unexpected end of STEP file"@
}

/// Said of a string without its closing quote.
pub open spec fn unterminated_msg() -> Seq<char> {
    "unterminated string in STEP file"@
}

/// Said of an enumeration without its closing point.
pub open spec fn open_enum_msg() -> Seq<char> {
    "unterminated enumeration in STEP file"@
}

/// Said of `#` without a usable number after it.
pub open spec fn bad_ref_msg() -> Seq<char> {
    "bad entity reference"@
}

/// Said of an instance whose number is unusable.
pub open spec fn bad_id_msg() -> Seq<char> {
    "bad entity number"@
}

/// Said of a number that is not one.
pub open spec fn bad_number_msg(t: Seq<u8>) -> Seq<char> {
    "bad number \""@ + latin1(t) + "\" in STEP file"@
}

/// Said of a byte that starts no value.
pub open spec fn unexpected_msg(c: u8) -> Seq<char> {
    "unexpected '"@ + seq![c as char] + "' in STEP file"@
}

/// Said when reading would not move on; reading always moves on, so this
/// is never said.
pub open spec fn stuck_msg() -> Seq<char> {
    "STEP reader made no progress"@
}

/// Said of text without a DATA section.
pub open spec fn no_data_msg() -> Seq<char> {
    "not a STEP file: no DATA section"@
}

// ----------------------------------------------------------------- grammar

/// The body of a string from `p` (after its opening quote): `''` is one
/// quote, a lone quote ends it.
pub open spec fn str_body(s: Seq<u8>, p: int) -> Parsed<Seq<char>>
    decreases s.len() - p,
{
    if p < 0 || p >= s.len() {
        Parsed::Failed(unterminated_msg())
    } else if s[p] == 0x27 {
        if p + 1 < s.len() && s[p + 1] == 0x27 {
            match str_body(s, p + 2) {
                Parsed::Done(t, e) => Parsed::Done(seq!['\''] + t, e),
                Parsed::Failed(m) => Parsed::Failed(m),
            }
        } else {
            Parsed::Done(Seq::empty(), p + 1)
        }
    } else {
        match str_body(s, p + 1) {
            Parsed::Done(t, e) => Parsed::Done(seq![s[p] as char] + t, e),
            Parsed::Failed(m) => Parsed::Failed(m),
        }
    }
}

/// The value at `at` (after space and comments).
pub open spec fn value_at(s: Seq<u8>, at: int) -> Parsed<Term>
    decreases s.len() - at, 0int,
{
    if at < 0 || at > s.len() {
        Parsed::Failed(stuck_msg())
    } else {
        let a = after_space(s, at);
        proof {
            crate::step::lemma_after_space_bounds(s, at);
        }
        if a >= s.len() {
            Parsed::Failed(end_msg())
        } else if s[a] == 0x27 {
            match str_body(s, a + 1) {
                Parsed::Done(t, e) => Parsed::Done(Term::Str(t), e),
                Parsed::Failed(m) => Parsed::Failed(m),
            }
        } else if s[a] == 0x23 {
            let q = digits_end(s, a + 1);
            if q == a + 1 || digits_value(s, a + 1, q) > usize::MAX {
                Parsed::Failed(bad_ref_msg())
            } else {
                Parsed::Done(Term::Ref(digits_value(s, a + 1, q)), q)
            }
        } else if s[a] == 0x2e {
            let q = dot_end(s, a + 1);
            if q >= s.len() {
                Parsed::Failed(open_enum_msg())
            } else {
                Parsed::Done(Term::Enum(utf8_lossy(s.subrange(a + 1, q))), q + 1)
            }
        } else if s[a] == 0x28 {
            match args_at(s, a + 1) {
                Parsed::Done(vs, e) => Parsed::Done(Term::List(vs), e),
                Parsed::Failed(m) => Parsed::Failed(m),
            }
        } else if s[a] == 0x2a || s[a] == 0x24 {
            Parsed::Done(Term::Null, a + 1)
        } else if sign_byte(s[a]) || digit_byte(s[a]) {
            let e = num_end(s, a + 1);
            let t = s.subrange(a, e);
            if float_text(t) {
                Parsed::Done(Term::Num(latin1(t)), e)
            } else {
                Parsed::Failed(bad_number_msg(t))
            }
        } else {
            let a2 = after_space(s, a);
            let e = ident_end(s, a2);
            let b = after_space(s, e);
            proof {
                crate::step::lemma_after_space_bounds(s, a);
                crate::step::lemma_ident_end_bounds(s, a2);
                crate::step::lemma_after_space_bounds(s, e);
            }
            if e == a2 {
                Parsed::Failed(unexpected_msg(s[a]))
            } else if b < s.len() && s[b] == 0x28 {
                match args_at(s, b + 1) {
                    Parsed::Done(vs, f) => Parsed::Done(Term::Typed(latin1(s.subrange(a2, e)), vs), f),
                    Parsed::Failed(m) => Parsed::Failed(m),
                }
            } else {
                Parsed::Failed(expected_msg(0x28, b))
            }
        }
    }
}

/// Arguments from `at` up to and including the closing parenthesis,
/// each followed by an optional comma.
pub open spec fn args_at(s: Seq<u8>, at: int) -> Parsed<Seq<Term>>
    decreases s.len() - at, 1int,
{
    if at < 0 || at > s.len() {
        Parsed::Failed(stuck_msg())
    } else {
        let a = after_space(s, at);
        proof {
            crate::step::lemma_after_space_bounds(s, at);
        }
        if a < s.len() && s[a] == 0x29 {
            Parsed::Done(Seq::empty(), a + 1)
        } else {
            match value_at(s, a) {
                Parsed::Failed(m) => Parsed::Failed(m),
                Parsed::Done(v, q) => {
                    if q <= at || q > s.len() {
                        Parsed::Failed(stuck_msg())
                    } else {
                        let b = after_space(s, q);
                        proof {
                            crate::step::lemma_after_space_bounds(s, q);
                        }
                        let r = if b < s.len() && s[b] == 0x2c {
                            b + 1
                        } else {
                            b
                        };
                        match args_at(s, r) {
                            Parsed::Done(vs, e) => Parsed::Done(seq![v] + vs, e),
                            Parsed::Failed(m) => Parsed::Failed(m),
                        }
                    }
                },
            }
        }
    }
}


/// `g` with `pre` in front of what it read.
pub open spec fn prefixed<T>(pre: Seq<T>, g: Parsed<Seq<T>>) -> Parsed<Seq<T>> {
    match g {
        Parsed::Done(t, e) => Parsed::Done(pre + t, e),
        Parsed::Failed(m) => Parsed::Failed(m),
    }
}

/// The parts of a complex instance from `at` (after its opening
/// parenthesis) up to and including the closing one: each a type name
/// and its arguments in parentheses.
pub open spec fn parts_at(s: Seq<u8>, at: int) -> Parsed<Seq<(Seq<char>, Seq<Term>)>>
    decreases s.len() - at,
{
    if at < 0 || at > s.len() {
        Parsed::Failed(stuck_msg())
    } else {
        let a = after_space(s, at);
        if a < s.len() && s[a] == 0x29 {
            Parsed::Done(Seq::empty(), a + 1)
        } else {
            let a2 = after_space(s, a);
            let e = ident_end(s, a2);
            let b = after_space(s, e);
            if !(b < s.len() && s[b] == 0x28) {
                Parsed::Failed(expected_msg(0x28, b))
            } else {
                match args_at(s, b + 1) {
                    Parsed::Failed(m) => Parsed::Failed(m),
                    Parsed::Done(vs, f) => if f <= at || f > s.len() {
                        Parsed::Failed(stuck_msg())
                    } else {
                        prefixed(seq![(latin1(s.subrange(a2, e)), vs)], parts_at(s, f))
                    },
                }
            }
        }
    }
}

/// A simple instance from `at`: a type name and its arguments.
pub open spec fn single_at(s: Seq<u8>, at: int) -> Parsed<Seq<(Seq<char>, Seq<Term>)>> {
    let a2 = after_space(s, at);
    let e = ident_end(s, a2);
    let b = after_space(s, e);
    if !(b < s.len() && s[b] == 0x28) {
        Parsed::Failed(expected_msg(0x28, b))
    } else {
        match args_at(s, b + 1) {
            Parsed::Done(vs, f) => Parsed::Done(seq![(latin1(s.subrange(a2, e)), vs)], f),
            Parsed::Failed(m) => Parsed::Failed(m),
        }
    }
}

/// `ENDSEC` starts at `a`.
pub open spec fn endsec_at(s: Seq<u8>, a: int) -> bool {
    &&& 0 <= a
    &&& a + 6 <= s.len()
    &&& s[a] == 0x45 && s[a + 1] == 0x4e && s[a + 2] == 0x44
    &&& s[a + 3] == 0x53 && s[a + 4] == 0x45 && s[a + 5] == 0x43
}

/// One entity instance from `at`: `#n = ...;`, its number and parts.
pub open spec fn entity_at(s: Seq<u8>, at: int) -> Parsed<(nat, Seq<(Seq<char>, Seq<Term>)>)> {
    let h = after_space(s, at);
    if !(h < s.len() && s[h] == 0x23) {
        Parsed::Failed(expected_msg(0x23, h))
    } else {
        let q = digits_end(s, h + 1);
        if q == h + 1 || digits_value(s, h + 1, q) > usize::MAX {
            Parsed::Failed(bad_id_msg())
        } else {
            let b = after_space(s, q);
            if !(b < s.len() && s[b] == 0x3d) {
                Parsed::Failed(expected_msg(0x3d, b))
            } else {
                let c = after_space(s, b + 1);
                let got = if c < s.len() && s[c] == 0x28 {
                    parts_at(s, c + 1)
                } else {
                    single_at(s, c)
                };
                match got {
                    Parsed::Failed(m) => Parsed::Failed(m),
                    Parsed::Done(ps, f) => {
                        let g = after_space(s, f);
                        if !(g < s.len() && s[g] == 0x3b) {
                            Parsed::Failed(expected_msg(0x3b, g))
                        } else {
                            Parsed::Done((digits_value(s, h + 1, q), ps), g + 1)
                        }
                    },
                }
            }
        }
    }
}

/// The entity instances from `at` to the end of the section (`ENDSEC`)
/// or of the file.
pub open spec fn file_at(s: Seq<u8>, at: int) -> Parsed<Seq<(nat, Seq<(Seq<char>, Seq<Term>)>)>>
    decreases s.len() - at,
{
    if at < 0 || at > s.len() {
        Parsed::Failed(stuck_msg())
    } else {
        let a = after_space(s, at);
        if a >= s.len() || endsec_at(s, a) {
            Parsed::Done(Seq::empty(), a)
        } else {
            match entity_at(s, a) {
                Parsed::Failed(m) => Parsed::Failed(m),
                Parsed::Done(ev, g1) => if g1 <= at || g1 > s.len() {
                    Parsed::Failed(stuck_msg())
                } else {
                    prefixed(seq![ev], file_at(s, g1))
                },
            }
        }
    }
}

/// The first `DATA;` at or after `i`, or -1.
pub open spec fn data_from(s: Seq<u8>, i: int) -> int
    decreases s.len() - i,
{
    if i < 0 || i + 5 > s.len() {
        -1
    } else if s[i] == 0x44 && s[i + 1] == 0x41 && s[i + 2] == 0x54 && s[i + 3] == 0x41 && s[i
        + 4] == 0x3b {
        i
    } else {
        data_from(s, i + 1)
    }
}

/// The entity instances of a STEP file's DATA section, in file order, or
/// why they cannot be read.
pub open spec fn step_entities(s: Seq<u8>) -> Result<Seq<(nat, Seq<(Seq<char>, Seq<Term>)>)>, Seq<char>> {
    let d = data_from(s, 0);
    if d < 0 {
        Err(no_data_msg())
    } else {
        match file_at(s, d + 5) {
            Parsed::Done(es, _) => Ok(es),
            Parsed::Failed(m) => Err(m),
        }
    }
}


// ------------------------------------------------------------------ lemmas

proof fn lemma_digits_end(s: Seq<u8>, from: int)
    requires
        0 <= from <= s.len(),
    ensures
        from <= digits_end(s, from) <= s.len(),
    decreases s.len() - from,
{
    if from < s.len() && digit_byte(s[from]) {
        lemma_digits_end(s, from + 1);
    }
}

proof fn lemma_num_end(s: Seq<u8>, from: int)
    requires
        0 <= from <= s.len(),
    ensures
        from <= num_end(s, from) <= s.len(),
    decreases s.len() - from,
{
    if from < s.len() && num_byte(s[from]) {
        lemma_num_end(s, from + 1);
    }
}

proof fn lemma_dot_end(s: Seq<u8>, from: int)
    requires
        0 <= from <= s.len(),
    ensures
        from <= dot_end(s, from) <= s.len(),
        dot_end(s, from) < s.len() ==> s[dot_end(s, from)] == 0x2e,
    decreases s.len() - from,
{
    if from < s.len() && s[from] != 0x2e {
        lemma_dot_end(s, from + 1);
    }
}

proof fn lemma_str_progress(s: Seq<u8>, p: int)
    requires
        0 <= p,
    ensures
        str_body(s, p) matches Parsed::Done(_, e) ==> p < e <= s.len(),
    decreases s.len() - p,
{
    if 0 <= p < s.len() {
        if s[p] == 0x27 {
            if p + 1 < s.len() && s[p + 1] == 0x27 {
                lemma_str_progress(s, p + 2);
            }
        } else {
            lemma_str_progress(s, p + 1);
        }
    }
}

/// Reading a value moves past at least one byte and stays in the file.
proof fn lemma_value_progress(s: Seq<u8>, at: int)
    requires
        0 <= at <= s.len(),
    ensures
        value_at(s, at) matches Parsed::Done(_, e) ==> at < e <= s.len(),
    decreases s.len() - at, 0int,
{
    let a = after_space(s, at);
    crate::step::lemma_after_space_bounds(s, at);
    if a < s.len() {
        if s[a] == 0x27 {
            lemma_str_progress(s, a + 1);
        } else if s[a] == 0x23 {
            lemma_digits_end(s, a + 1);
        } else if s[a] == 0x2e {
            lemma_dot_end(s, a + 1);
        } else if s[a] == 0x28 {
            lemma_args_progress(s, a + 1);
        } else if s[a] == 0x2a || s[a] == 0x24 {
        } else if sign_byte(s[a]) || digit_byte(s[a]) {
            lemma_num_end(s, a + 1);
        } else {
            let a2 = after_space(s, a);
            crate::step::lemma_after_space_bounds(s, a);
            crate::step::lemma_ident_end_bounds(s, a2);
            let e = ident_end(s, a2);
            crate::step::lemma_after_space_bounds(s, e);
            let b = after_space(s, e);
            if e != a2 && b < s.len() && s[b] == 0x28 {
                lemma_args_progress(s, b + 1);
            }
        }
    }
}

/// Reading arguments moves past at least the closing parenthesis and
/// stays in the file.
proof fn lemma_args_progress(s: Seq<u8>, at: int)
    requires
        0 <= at <= s.len(),
    ensures
        args_at(s, at) matches Parsed::Done(_, e) ==> at < e <= s.len(),
    decreases s.len() - at, 1int,
{
    let a = after_space(s, at);
    crate::step::lemma_after_space_bounds(s, at);
    if !(a < s.len() && s[a] == 0x29) {
        lemma_value_progress(s, a);
        match value_at(s, a) {
            Parsed::Done(v, q) => {
                if !(q <= at || q > s.len()) {
                    crate::step::lemma_after_space_bounds(s, q);
                    let b = after_space(s, q);
                    let r = if b < s.len() && s[b] == 0x2c {
                        b + 1
                    } else {
                        b
                    };
                    lemma_args_progress(s, r);
                }
            },
            _ => {},
        }
    }
}

proof fn lemma_parts_progress(s: Seq<u8>, at: int)
    requires
        0 <= at <= s.len(),
    ensures
        parts_at(s, at) matches Parsed::Done(_, e) ==> at < e <= s.len(),
    decreases s.len() - at,
{
    let a = after_space(s, at);
    crate::step::lemma_after_space_bounds(s, at);
    if !(a < s.len() && s[a] == 0x29) {
        let a2 = after_space(s, a);
        crate::step::lemma_after_space_bounds(s, a);
        crate::step::lemma_ident_end_bounds(s, a2);
        let e = ident_end(s, a2);
        crate::step::lemma_after_space_bounds(s, e);
        let b = after_space(s, e);
        if b < s.len() && s[b] == 0x28 {
            lemma_args_progress(s, b + 1);
            match args_at(s, b + 1) {
                Parsed::Done(vs, f) => {
                    if !(f <= at || f > s.len()) {
                        lemma_parts_progress(s, f);
                    }
                },
                _ => {},
            }
        }
    }
}


proof fn lemma_entity_progress(s: Seq<u8>, at: int)
    requires
        0 <= at <= s.len(),
    ensures
        entity_at(s, at) matches Parsed::Done(_, e) ==> at < e <= s.len(),
{
    crate::step::lemma_after_space_bounds(s, at);
    let h = after_space(s, at);
    if h < s.len() && s[h] == 0x23 {
        lemma_digits_end(s, h + 1);
        let q = digits_end(s, h + 1);
        crate::step::lemma_after_space_bounds(s, q);
        let b = after_space(s, q);
        if b < s.len() && s[b] == 0x3d {
            crate::step::lemma_after_space_bounds(s, b + 1);
            let c = after_space(s, b + 1);
            if c < s.len() && s[c] == 0x28 {
                lemma_parts_progress(s, c + 1);
                match parts_at(s, c + 1) {
                    Parsed::Done(ps, f) => {
                        crate::step::lemma_after_space_bounds(s, f);
                    },
                    _ => {},
                }
            } else {
                crate::step::lemma_after_space_bounds(s, c);
                let a2 = after_space(s, c);
                crate::step::lemma_ident_end_bounds(s, a2);
                let e = ident_end(s, a2);
                crate::step::lemma_after_space_bounds(s, e);
                let b2 = after_space(s, e);
                if b2 < s.len() && s[b2] == 0x28 {
                    lemma_args_progress(s, b2 + 1);
                    match args_at(s, b2 + 1) {
                        Parsed::Done(vs, f) => {
                            crate::step::lemma_after_space_bounds(s, f);
                        },
                        _ => {},
                    }
                }
            }
        }
    }
}

/// Characters as the bytes of the same codes (their ASCII encoding).
pub open spec fn ascii_bytes(cs: Seq<char>) -> Seq<u8> {
    cs.map_values(|c: char| (c as u32) as u8)
}

/// A character a STEP string carries as it is, and reads back: printable
/// ASCII other than the backslash.
pub open spec fn plain_char(c: char) -> bool {
    32 <= (c as u32) < 127 && c != '\\'
}

proof fn lemma_step_text_front(t: Seq<char>)
    requires
        t.len() > 0,
    ensures
        step_text(t) == step_char(t[0]) + step_text(t.drop_first()),
    decreases t.len(),
{
    if t.len() == 1 {
        assert(t.drop_last() =~= Seq::<char>::empty());
        assert(t.drop_first() =~= Seq::<char>::empty());
        assert(step_text(t) =~= step_char(t[0]) + step_text(t.drop_first()));
    } else {
        lemma_step_text_front(t.drop_last());
        assert(t.drop_last().drop_first() =~= t.drop_first().drop_last());
        assert(t.drop_first().last() == t.last());
        assert(step_text(t) =~= step_char(t[0]) + step_text(t.drop_first()));
    }
}

proof fn lemma_plain_text_reads(s: Seq<u8>, p: int, t: Seq<char>)
    requires
        0 <= p,
        forall|i: int| 0 <= i < t.len() ==> plain_char(#[trigger] t[i]),
        p + ascii_bytes(step_text(t)).len() < s.len(),
        s.subrange(p, p + ascii_bytes(step_text(t)).len()) == ascii_bytes(step_text(t)),
        s[p + ascii_bytes(step_text(t)).len()] == 0x27,
        p + ascii_bytes(step_text(t)).len() + 1 >= s.len() || s[p + ascii_bytes(step_text(t)).len()
            + 1] != 0x27,
    ensures
        str_body(s, p) == Parsed::Done(t, p + ascii_bytes(step_text(t)).len() + 1),
    decreases t.len(),
{
    if t.len() == 0 {
        assert(step_text(t) =~= Seq::<char>::empty());
        assert(t =~= Seq::<char>::empty());
    } else {
        let c = t[0];
        let r = t.drop_first();
        lemma_step_text_front(t);
        assert forall|i: int| 0 <= i < r.len() implies plain_char(#[trigger] r[i]) by {
            assert(r[i] == t[i + 1]);
        }
        let a = ascii_bytes(step_char(c));
        let b = ascii_bytes(step_text(r));
        assert(ascii_bytes(step_text(t)) =~= a + b);
        let whole = ascii_bytes(step_text(t));
        if c == '\'' {
            assert(a =~= seq![0x27u8, 0x27u8]);
            assert(s[p] == whole[0]);
            assert(s[p + 1] == whole[1]);
            assert(s.subrange(p + 2, p + 2 + b.len()) =~= whole.subrange(2, whole.len() as int));
            assert(whole.subrange(2, whole.len() as int) =~= b);
            lemma_plain_text_reads(s, p + 2, r);
            assert(seq!['\''] + r =~= t);
        } else {
            assert(step_char(c) =~= seq![c]);
            assert(a =~= seq![(c as u32) as u8]);
            assert(s[p] == whole[0]);
            assert(s.subrange(p + 1, p + 1 + b.len()) =~= whole.subrange(1, whole.len() as int));
            assert(whole.subrange(1, whole.len() as int) =~= b);
            lemma_plain_text_reads(s, p + 1, r);
            let v = c as u32;
            assert(v < 127);
            assert((v as u8) as u32 == v);
            let d = (v as u8) as char;
            assert(d as u32 == v);
            vstd::utf8::char_u32_cast(c, v);
            vstd::utf8::char_u32_cast(d, v);
            assert(d == c);
            assert(s[p] == v as u8);
            assert(s[p] != 0x27);
            assert(s[p] as char == c);
            assert(seq![c] + r =~= t);
        }
    }
}

/// A value given as `*` (left to be derived) or `$` (unset) reads as
/// null and takes that one byte, wherever it stands in any file and
/// whatever comes after it.
pub proof fn law_derived_and_unset_values_read_as_null(s: Seq<u8>, at: int)
    requires
        0 <= at <= s.len(),
        after_space(s, at) < s.len(),
        s[after_space(s, at)] == 0x2a || s[after_space(s, at)] == 0x24,
    ensures
        value_at(s, at) == Parsed::Done(Term::Null, after_space(s, at) + 1),
{
}

/// Text of printable ASCII without backslashes, written as a STEP string
/// (escaped, in quotes) and followed by anything but another quote,
/// reads back as itself.
pub proof fn law_step_strings_read_back(t: Seq<char>, rest: Seq<u8>)
    requires
        forall|i: int| 0 <= i < t.len() ==> plain_char(#[trigger] t[i]),
        rest.len() == 0 || rest[0] != 0x27,
    ensures
        ({
            let written = ascii_bytes(step_text(t));
            let s = seq![0x27u8] + written + seq![0x27u8] + rest;
            value_at(s, 0) == Parsed::Done(Term::Str(t), written.len() + 2int)
        }),
{
    let written = ascii_bytes(step_text(t));
    let s = seq![0x27u8] + written + seq![0x27u8] + rest;
    assert(s.subrange(1, 1 + written.len() as int) =~= written);
    assert(s[1 + written.len() as int] == 0x27);
    if rest.len() > 0 {
        assert(s[2 + written.len() as int] == rest[0]);
    }
    lemma_plain_text_reads(s, 1, t);
    assert(after_space(s, 0) == 0);
}

proof fn lemma_prefixed_assoc<T>(a: Seq<T>, b: Seq<T>, g: Parsed<Seq<T>>)
    ensures
        prefixed(a, prefixed(b, g)) == prefixed(a + b, g),
{
    match g {
        Parsed::Done(t, e) => {
            assert(a + (b + t) =~= (a + b) + t);
        },
        Parsed::Failed(m) => {},
    }
}

proof fn lemma_prefixed_empty<T>(g: Parsed<Seq<T>>)
    ensures
        prefixed(Seq::<T>::empty(), g) == g,
{
    match g {
        Parsed::Done(t, e) => {
            assert(Seq::<T>::empty() + t =~= t);
        },
        Parsed::Failed(m) => {},
    }
}

// ------------------------------------------------------------------ reading

/// A copy of `s[from..to]`.
fn bytes_between(s: &[u8], from: usize, to: usize) -> (v: Vec<u8>)
    requires
        from <= to <= s@.len(),
    ensures
        v@ == s@.subrange(from as int, to as int),
{
    let mut v: Vec<u8> = Vec::new();
    let mut i = from;
    while i < to
        invariant
            from <= i <= to,
            to <= s@.len(),
            v@ == s@.subrange(from as int, i as int),
        decreases to - i,
    {
        v.push(s[i]);
        i = i + 1;
        assert(v@ =~= s@.subrange(from as int, i as int));
    }
    v
}

/// Appends the bytes of `t` as the characters of the same codes.
fn push_latin1(out: &mut String, t: &Vec<u8>)
    ensures
        final(out)@ == old(out)@ + latin1(t@),
{
    let ghost start = out@;
    let mut i: usize = 0;
    while i < t.len()
        invariant
            i <= t@.len(),
            out@ == start + latin1(t@.take(i as int)),
        decreases t@.len() - i,
    {
        push_char(out, t[i] as char);
        i = i + 1;
        assert(out@ =~= start + latin1(t@.take(i as int)));
    }
    assert(t@.take(i as int) =~= t@);
}

fn digits_end_in(t: &Vec<u8>, from: usize) -> (e: usize)
    requires
        from <= t@.len(),
    ensures
        e == digits_end(t@, from as int),
{
    let mut e = from;
    while e < t.len() && 0x30 <= t[e] && t[e] <= 0x39
        invariant
            from <= e <= t@.len(),
            digits_end(t@, from as int) == digits_end(t@, e as int),
        decreases t@.len() - e,
    {
        e = e + 1;
    }
    e
}

/// Whether `t` follows Rust's float syntax (see `float_text`).
fn is_float_text(t: &Vec<u8>) -> (b: bool)
    ensures
        b == float_text(t@),
{
    let n = t.len();
    let i0: usize = if n > 0 && (t[0] == 0x2b || t[0] == 0x2d) {
        1
    } else {
        0
    };
    let i1 = digits_end_in(t, i0);
    proof {
        lemma_digits_end(t@, i0 as int);
    }
    let dot = i1 < n && t[i1] == 0x2e;
    let i2 = if dot {
        digits_end_in(t, i1 + 1)
    } else {
        i1
    };
    proof {
        if dot {
            lemma_digits_end(t@, i1 + 1);
        }
    }
    let fraction = if dot {
        i2 - i1 - 1
    } else {
        0
    };
    if (i1 - i0) + fraction == 0 {
        return false;
    }
    if i2 == n {
        return true;
    }
    if !(t[i2] == 0x45 || t[i2] == 0x65) {
        return false;
    }
    let j = i2 + 1;
    let j1 = if j < n && (t[j] == 0x2b || t[j] == 0x2d) {
        j + 1
    } else {
        j
    };
    let j2 = digits_end_in(t, j1);
    j2 > j1 && j2 == n
}

fn is_num_byte(b: u8) -> (r: bool)
    ensures
        r == num_byte(b),
{
    (0x30 <= b && b <= 0x39) || b == 0x2e || b == 0x45 || b == 0x65 || b == 0x2d || b == 0x2b
}

impl<'a> Cursor<'a> {
    /// Reads a string's body, from just after its opening quote.
    fn string_body(&mut self) -> (r: Result<String, String>)
        requires
            old(self).at <= old(self).s@.len(),
        ensures
            final(self).s == old(self).s,
            match str_body(old(self).s@, old(self).at as int) {
                Parsed::Done(t, e) => r matches Ok(x) && x@ == t && final(self).at == e,
                Parsed::Failed(m) => r matches Err(x) && x@ == m,
            },
    {
        let ghost s = self.s@;
        let ghost p0 = self.at as int;
        let n = self.s.len();
        let mut out = String::new();
        proof {
            lemma_prefixed_empty(str_body(s, p0));
        }
        loop
            invariant_except_break
                self.s == old(self).s,
                s == self.s@,
                n == s.len(),
                self.at <= n,
                p0 == old(self).at,
                str_body(s, p0) == prefixed(out@, str_body(s, self.at as int)),
            ensures
                self.s == old(self).s,
                str_body(s, p0) == Parsed::Done(out@, self.at as int),
            decreases n - self.at,
        {
            if self.at >= n {
                return Err(text("unterminated string in STEP file"));
            }
            let ghost here = self.at as int;
            let ghost before = out@;
            let ch = self.s[self.at];
            if ch == 0x27 {
                if self.at + 1 < n && self.s[self.at + 1] == 0x27 {
                    self.at = self.at + 2;
                    push_char(&mut out, '\'');
                    proof {
                        lemma_prefixed_assoc(before, seq!['\''], str_body(s, self.at as int));
                        assert(before + seq!['\''] =~= out@);
                    }
                } else {
                    self.at = self.at + 1;
                    assert(out@ + Seq::<char>::empty() =~= out@);
                    break;
                }
            } else {
                self.at = self.at + 1;
                push_char(&mut out, ch as char);
                proof {
                    lemma_prefixed_assoc(before, seq![ch as char], str_body(s, self.at as int));
                    assert(before + seq![ch as char] =~= out@);
                }
            }
        }
        Ok(out)
    }

    /// Reads the run of digits at the reading position: its number, when
    /// there are digits and the number fits in a `usize`.
    fn read_number(&mut self) -> (r: Option<usize>)
        requires
            old(self).at <= old(self).s@.len(),
        ensures
            final(self).s == old(self).s,
            final(self).at == digits_end(old(self).s@, old(self).at as int),
            match r {
                Some(v) => final(self).at > old(self).at && v == digits_value(
                    old(self).s@,
                    old(self).at as int,
                    final(self).at as int,
                ),
                None => final(self).at == old(self).at || digits_value(
                    old(self).s@,
                    old(self).at as int,
                    final(self).at as int,
                ) > usize::MAX,
            },
    {
        let ghost s = self.s@;
        let start = self.at;
        let n = self.s.len();
        let mut v: usize = 0;
        let mut over = false;
        while self.at < n && 0x30 <= self.s[self.at] && self.s[self.at] <= 0x39
            invariant
                self.s == old(self).s,
                s == self.s@,
                n == s.len(),
                start == old(self).at,
                start <= self.at <= n,
                digits_end(s, start as int) == digits_end(s, self.at as int),
                !over ==> v == digits_value(s, start as int, self.at as int),
                over ==> digits_value(s, start as int, self.at as int) > usize::MAX,
            decreases n - self.at,
        {
            let d = (self.s[self.at] - 0x30) as usize;
            if !over {
                match v.checked_mul(10) {
                    Some(m) => match m.checked_add(d) {
                        Some(w) => {
                            v = w;
                        },
                        None => {
                            over = true;
                        },
                    },
                    None => {
                        over = true;
                    },
                }
            }
            self.at = self.at + 1;
        }
        if self.at == start || over {
            None
        } else {
            Some(v)
        }
    }

    /// Reads a value (after space and comments).
    pub fn value(&mut self) -> (r: Result<Val, String>)
        requires
            old(self).at <= old(self).s@.len(),
        ensures
            final(self).s == old(self).s,
            match value_at(old(self).s@, old(self).at as int) {
                Parsed::Done(t, e) => r matches Ok(v) && term_of(v) == t && final(self).at == e,
                Parsed::Failed(m) => r matches Err(x) && x@ == m,
            },
        decreases old(self).s@.len() - old(self).at, 0int,
    {
        let ghost s = self.s@;
        let ghost at0 = self.at as int;
        proof {
            crate::step::lemma_after_space_bounds(s, at0);
        }
        self.skip_space();
        let n = self.s.len();
        if self.at >= n {
            return Err(text("unexpected end of STEP file"));
        }
        let a = self.at;
        let c = self.s[a];
        if c == 0x27 {
            self.at = a + 1;
            match self.string_body() {
                Ok(t) => Ok(Val::Str(t)),
                Err(e) => Err(e),
            }
        } else if c == 0x23 {
            self.at = a + 1;
            match self.read_number() {
                Some(v) => Ok(Val::Ref(v)),
                None => Err(text("bad entity reference")),
            }
        } else if c == 0x2e {
            let mut j = a + 1;
            while j < n && self.s[j] != 0x2e
                invariant
                    self.s@ == s,
                    n == s.len(),
                    a + 1 <= j <= n,
                    dot_end(s, a + 1) == dot_end(s, j as int),
                decreases n - j,
            {
                j = j + 1;
            }
            if j >= n {
                return Err(text("unterminated enumeration in STEP file"));
            }
            let inner = bytes_between(self.s, a + 1, j);
            let e = lossy(inner.as_slice());
            self.at = j + 1;
            Ok(Val::Enum(e))
        } else if c == 0x28 {
            self.at = a + 1;
            match self.args() {
                Ok(vs) => Ok(Val::List(vs)),
                Err(e) => Err(e),
            }
        } else if c == 0x2a || c == 0x24 {
            self.at = a + 1;
            Ok(Val::Null)
        } else if c == 0x2b || c == 0x2d || (0x30 <= c && c <= 0x39) {
            let mut j = a + 1;
            while j < n && is_num_byte(self.s[j])
                invariant
                    self.s@ == s,
                    n == s.len(),
                    a + 1 <= j <= n,
                    num_end(s, a + 1) == num_end(s, j as int),
                decreases n - j,
            {
                j = j + 1;
            }
            let t = bytes_between(self.s, a, j);
            if is_float_text(&t) {
                self.at = j;
                let mut num = String::new();
                push_latin1(&mut num, &t);
                assert(num@ =~= latin1(t@));
                Ok(Val::Num(num))
            } else {
                let mut m = text("bad number \"");
                push_latin1(&mut m, &t);
                push_str(&mut m, "\" in STEP file");
                Err(m)
            }
        } else {
            proof {
                crate::step::lemma_after_space_idem(s, at0);
                crate::step::lemma_ident_end_bounds(s, a as int);
            }
            let kind = self.ident();
            if self.at == a {
                let mut m = text("unexpected '");
                push_char(&mut m, c as char);
                push_str(&mut m, "' in STEP file");
                return Err(m);
            }
            let ghost e = self.at as int;
            proof {
                crate::step::lemma_after_space_bounds(s, e);
            }
            match self.expect(0x28) {
                Ok(()) => {},
                Err(m) => {
                    return Err(m);
                },
            }
            match self.args() {
                Ok(vs) => Ok(Val::Typed(kind, vs)),
                Err(m) => Err(m),
            }
        }
    }

    /// Reads arguments up to and including the closing parenthesis.
    pub fn args(&mut self) -> (r: Result<Vec<Val>, String>)
        requires
            old(self).at <= old(self).s@.len(),
        ensures
            final(self).s == old(self).s,
            match args_at(old(self).s@, old(self).at as int) {
                Parsed::Done(ts, e) => r matches Ok(vs) && terms_of(vs@) == ts && final(self).at == e,
                Parsed::Failed(m) => r matches Err(x) && x@ == m,
            },
        decreases old(self).s@.len() - old(self).at, 1int,
    {
        let ghost s = self.s@;
        let ghost start = self.at as int;
        let n = self.s.len();
        let mut items: Vec<Val> = Vec::new();
        assert(terms_of(items@) == Seq::<Term>::empty());
        proof {
            lemma_prefixed_empty(args_at(s, start));
        }
        loop
            invariant_except_break
                self.s == old(self).s,
                s == self.s@,
                n == s.len(),
                start == old(self).at,
                start <= self.at <= n,
                args_at(s, start) == prefixed(terms_of(items@), args_at(s, self.at as int)),
            ensures
                self.s == old(self).s,
                args_at(s, start) == Parsed::Done(terms_of(items@), self.at as int),
            decreases n - self.at,
        {
            let ghost here = self.at as int;
            proof {
                crate::step::lemma_after_space_bounds(s, here);
            }
            self.skip_space();
            if self.at < n && self.s[self.at] == 0x29 {
                self.at = self.at + 1;
                assert(terms_of(items@) + Seq::<Term>::empty() =~= terms_of(items@));
                break;
            }
            let ghost a = self.at as int;
            let v = match self.value() {
                Ok(v) => v,
                Err(e) => {
                    return Err(e);
                },
            };
            proof {
                lemma_value_progress(s, a);
            }
            let ghost q = self.at as int;
            proof {
                crate::step::lemma_after_space_bounds(s, q);
            }
            self.skip_space();
            if self.at < n && self.s[self.at] == 0x2c {
                self.at = self.at + 1;
            }
            let ghost before = items@;
            let ghost tv = term_of(v);
            items.push(v);
            proof {
                assert(items@.drop_last() =~= before);
                assert(terms_of(items@) == terms_of(before).push(tv));
                lemma_prefixed_assoc(terms_of(before), seq![tv], args_at(s, self.at as int));
                assert(terms_of(before) + seq![tv] =~= terms_of(items@));
            }
        }
        Ok(items)
    }

    /// Reads the parts of a complex instance, from just after its opening
    /// parenthesis up to and including the closing one.
    fn complex_parts(&mut self) -> (r: Result<Vec<Part>, String>)
        requires
            old(self).at <= old(self).s@.len(),
        ensures
            final(self).s == old(self).s,
            match parts_at(old(self).s@, old(self).at as int) {
                Parsed::Done(ps, e) => r matches Ok(v) && parts_of(v@) == ps && final(self).at == e,
                Parsed::Failed(m) => r matches Err(x) && x@ == m,
            },
    {
        let ghost s = self.s@;
        let ghost start = self.at as int;
        let n = self.s.len();
        let mut parts: Vec<Part> = Vec::new();
        proof {
            lemma_prefixed_empty(parts_at(s, start));
            assert(parts_of(parts@) =~= Seq::<(Seq<char>, Seq<Term>)>::empty());
        }
        loop
            invariant_except_break
                self.s == old(self).s,
                s == self.s@,
                n == s.len(),
                start == old(self).at,
                start <= self.at <= n,
                parts_at(s, start) == prefixed(parts_of(parts@), parts_at(s, self.at as int)),
            ensures
                self.s == old(self).s,
                parts_at(s, start) == Parsed::Done(parts_of(parts@), self.at as int),
            decreases n - self.at,
        {
            let ghost here = self.at as int;
            proof {
                crate::step::lemma_after_space_bounds(s, here);
            }
            self.skip_space();
            if self.at < n && self.s[self.at] == 0x29 {
                self.at = self.at + 1;
                assert(parts_of(parts@) + Seq::<(Seq<char>, Seq<Term>)>::empty() =~= parts_of(parts@));
                break;
            }
            let ghost a = self.at as int;
            proof {
                crate::step::lemma_after_space_bounds(s, a);
                crate::step::lemma_ident_end_bounds(s, crate::step::after_space(s, a));
            }
            let kind = self.ident();
            let ghost e = self.at as int;
            proof {
                crate::step::lemma_after_space_bounds(s, e);
            }
            match self.expect(0x28) {
                Ok(()) => {},
                Err(m) => {
                    return Err(m);
                },
            }
            let ghost b1 = self.at as int;
            let args = match self.args() {
                Ok(v) => v,
                Err(m) => {
                    return Err(m);
                },
            };
            proof {
                lemma_args_progress(s, b1);
            }
            let ghost before = parts@;
            let ghost pv = (kind@, terms_of(args@));
            parts.push((kind, args));
            proof {
                assert(parts_of(parts@) =~= parts_of(before).push(pv));
                lemma_prefixed_assoc(parts_of(before), seq![pv], parts_at(s, self.at as int));
                assert(parts_of(before) + seq![pv] =~= parts_of(parts@));
            }
        }
        Ok(parts)
    }

    /// Reads one entity instance: `#n = ...;`.
    fn entity(&mut self) -> (r: Result<(usize, Vec<Part>), String>)
        requires
            old(self).at <= old(self).s@.len(),
        ensures
            final(self).s == old(self).s,
            match entity_at(old(self).s@, old(self).at as int) {
                Parsed::Done(ev, e) => r matches Ok((id, ps)) && ev == (id as nat, parts_of(ps@))
                    && final(self).at == e,
                Parsed::Failed(m) => r matches Err(x) && x@ == m,
            },
    {
        let ghost s = self.s@;
        let n = self.s.len();
        match self.expect(0x23) {
            Ok(()) => {},
            Err(m) => {
                return Err(m);
            },
        }
        let ghost h1 = self.at as int;
        proof {
            lemma_digits_end(s, h1);
        }
        let id = match self.read_number() {
            Some(v) => v,
            None => {
                return Err(text("bad entity number"));
            },
        };
        let ghost q = self.at as int;
        proof {
            crate::step::lemma_after_space_bounds(s, q);
        }
        match self.expect(0x3d) {
            Ok(()) => {},
            Err(m) => {
                return Err(m);
            },
        }
        let ghost b1 = self.at as int;
        proof {
            crate::step::lemma_after_space_bounds(s, b1);
        }
        self.skip_space();
        let c = self.at;
        let parts = if c < n && self.s[c] == 0x28 {
            self.at = c + 1;
            proof {
                lemma_parts_progress(s, (c + 1) as int);
            }
            match self.complex_parts() {
                Ok(p) => p,
                Err(m) => {
                    return Err(m);
                },
            }
        } else {
            proof {
                crate::step::lemma_after_space_bounds(s, c as int);
                let a2 = crate::step::after_space(s, c as int);
                crate::step::lemma_ident_end_bounds(s, a2);
                let e = ident_end(s, a2);
                crate::step::lemma_after_space_bounds(s, e);
                if crate::step::after_space(s, e) < s.len() {
                    lemma_args_progress(s, crate::step::after_space(s, e) + 1);
                }
            }
            match self.single_part() {
                Ok(p) => p,
                Err(m) => {
                    return Err(m);
                },
            }
        };
        let ghost f = self.at as int;
        proof {
            crate::step::lemma_after_space_bounds(s, f);
        }
        match self.expect(0x3b) {
            Ok(()) => {},
            Err(m) => {
                return Err(m);
            },
        }
        Ok((id, parts))
    }

    /// Reads a simple instance: a type name and its arguments.
    fn single_part(&mut self) -> (r: Result<Vec<Part>, String>)
        requires
            old(self).at <= old(self).s@.len(),
        ensures
            final(self).s == old(self).s,
            match single_at(old(self).s@, old(self).at as int) {
                Parsed::Done(ps, e) => r matches Ok(v) && parts_of(v@) == ps && final(self).at == e,
                Parsed::Failed(m) => r matches Err(x) && x@ == m,
            },
    {
        let ghost s = self.s@;
        let ghost at0 = self.at as int;
        proof {
            crate::step::lemma_after_space_bounds(s, at0);
            crate::step::lemma_ident_end_bounds(s, crate::step::after_space(s, at0));
        }
        let kind = self.ident();
        let ghost e = self.at as int;
        proof {
            crate::step::lemma_after_space_bounds(s, e);
        }
        match self.expect(0x28) {
            Ok(()) => {},
            Err(m) => {
                return Err(m);
            },
        }
        let args = match self.args() {
            Ok(v) => v,
            Err(m) => {
                return Err(m);
            },
        };
        let ghost pv = (kind@, terms_of(args@));
        let mut parts: Vec<Part> = Vec::new();
        parts.push((kind, args));
        assert(parts_of(parts@) =~= seq![pv]);
        Ok(parts)
    }
}

impl Val {
    /// The entity a reference names.
    pub fn reference(&self) -> (r: Option<usize>)
        ensures
            r == match *self {
                Val::Ref(n) => Some(n),
                _ => None::<usize>,
            },
    {
        match self {
            Val::Ref(r) => Some(*r),
            _ => None,
        }
    }

    /// The items of a list (none for anything else).
    pub fn list(&self) -> (r: &[Val])
        ensures
            r@ == match *self {
                Val::List(v) => v@,
                _ => Seq::<Val>::empty(),
            },
    {
        match self {
            Val::List(v) => v.as_slice(),
            _ => &[],
        }
    }

    /// The text of a string (empty for anything else).
    pub fn text(&self) -> (r: &str)
        ensures
            r@ == match *self {
                Val::Str(s) => s@,
                _ => Seq::<char>::empty(),
            },
    {
        match self {
            Val::Str(s) => {
                let t = s.as_str();
                assert(t@ == s@);
                t
            },
            _ => {
                proof {
                    reveal_strlit("");
                }
                ""
            },
        }
    }

    /// The truth of a logical: `.T.` or `.F.`.
    pub fn flag(&self) -> (r: Option<bool>)
        ensures
            r == match *self {
                Val::Enum(e) => if e@ == "T"@ {
                    Some(true)
                } else if e@ == "F"@ {
                    Some(false)
                } else {
                    None::<bool>
                },
                _ => None::<bool>,
            },
    {
        match self {
            Val::Enum(e) => if crate::text::str_eq(e.as_str(), "T") {
                Some(true)
            } else if crate::text::str_eq(e.as_str(), "F") {
                Some(false)
            } else {
                None
            },
            _ => None,
        }
    }
}

/// The entity instances of a STEP file, in file order (an id that occurs
/// twice has both).
#[derive(Debug)]
pub struct StepFile {
    pub entities: Vec<(usize, Vec<Part>)>,
}

/// The parts of the last instance numbered `id`, if there is one.
pub open spec fn parts_of_id(es: Seq<(nat, Seq<(Seq<char>, Seq<Term>)>)>, id: nat) -> Option<
    Seq<(Seq<char>, Seq<Term>)>,
>
    decreases es.len(),
{
    if es.len() == 0 {
        None
    } else if es.last().0 == id {
        Some(es.last().1)
    } else {
        parts_of_id(es.drop_last(), id)
    }
}

impl StepFile {
    /// The parts of entity `id` (of its last instance, when it occurs
    /// twice).
    pub fn parts(&self, id: usize) -> (r: Option<&Vec<Part>>)
        ensures
            match r {
                Some(p) => parts_of_id(entities_of(self.entities@), id as nat) == Some(parts_of(p@)),
                None => parts_of_id(entities_of(self.entities@), id as nat) is None,
            },
    {
        let ghost es = entities_of(self.entities@);
        let mut i = self.entities.len();
        assert(es.take(i as int) =~= es);
        while i > 0
            invariant
                i <= self.entities@.len(),
                es == entities_of(self.entities@),
                parts_of_id(es, id as nat) == parts_of_id(es.take(i as int), id as nat),
            decreases i,
        {
            assert(es.take(i as int).drop_last() =~= es.take(i - 1));
            if self.entities[i - 1].0 == id {
                return Some(&self.entities[i - 1].1);
            }
            i = i - 1;
        }
        None
    }
}

/// Part `i` is the first of `ps` of type `kind`.
pub open spec fn first_part_at(ps: Seq<(Seq<char>, Seq<Term>)>, kind: Seq<char>, i: int) -> bool {
    &&& 0 <= i < ps.len()
    &&& ps[i].0 == kind
    &&& forall|j: int| 0 <= j < i ==> (#[trigger] ps[j]).0 != kind
}

/// The entity has parts, and `args` are the arguments of the first of
/// them whose type is `kind`.
pub open spec fn found_part(
    parts: Option<Seq<(Seq<char>, Seq<Term>)>>,
    kind: Seq<char>,
    args: Seq<Term>,
) -> bool {
    &&& parts is Some
    &&& exists|i: int| #[trigger] first_part_at(parts->0, kind, i) && parts->0[i].1 == args
}

impl StepFile {
    /// The arguments of the first part of entity `id` whose type is
    /// `kind`.
    pub fn part(&self, id: usize, kind: &str) -> (r: Option<&Vec<Val>>)
        ensures
            match r {
                Some(args) => found_part(
                    parts_of_id(entities_of(self.entities@), id as nat),
                    kind@,
                    terms_of(args@),
                ),
                None => match parts_of_id(entities_of(self.entities@), id as nat) {
                    Some(ps) => forall|j: int| 0 <= j < ps.len() ==> (#[trigger] ps[j]).0 != kind@,
                    None => true,
                },
            },
    {
        let parts = match self.parts(id) {
            Some(p) => p,
            None => {
                return None;
            },
        };
        let ghost ps = parts_of(parts@);
        let mut i: usize = 0;
        while i < parts.len()
            invariant
                i <= parts@.len(),
                ps == parts_of(parts@),
                parts_of_id(entities_of(self.entities@), id as nat) == Some(ps),
                forall|j: int| 0 <= j < i ==> (#[trigger] ps[j]).0 != kind@,
            decreases parts@.len() - i,
        {
            if crate::text::str_eq(parts[i].0.as_str(), kind) {
                let args = &parts[i].1;
                assert(ps[i as int] == part_of(parts@[i as int]));
                assert(parts_of_id(entities_of(self.entities@), id as nat)->0 == ps);
                assert(first_part_at(ps, kind@, i as int));
                return Some(args);
            }
            i = i + 1;
        }
        None
    }
}

/// Reads the entity instances of a STEP file's DATA section.
pub fn parse(source: &str) -> (r: Result<StepFile, String>)
    ensures
        match step_entities(source.spec_bytes()) {
            Ok(es) => r matches Ok(f) && entities_of(f.entities@) == es,
            Err(m) => r matches Err(x) && x@ == m,
        },
{
    let bytes = source.as_bytes();
    let ghost s = bytes@;
    let n = bytes.len();
    let mut d: usize = 0;
    let mut found = false;
    while n - d >= 5
        invariant_except_break
            s == bytes@,
            n == s.len(),
            d <= n,
            data_from(s, 0) == data_from(s, d as int),
            !found,
        ensures
            found ==> d + 5 <= n && data_from(s, 0) == d,
            d <= n,
            !found ==> data_from(s, 0) == -1,
        decreases n - d,
    {
        if bytes[d] == 0x44 && bytes[d + 1] == 0x41 && bytes[d + 2] == 0x54 && bytes[d + 3] == 0x41
            && bytes[d + 4] == 0x3b {
            found = true;
            break;
        }
        d = d + 1;
    }
    if !found {
        return Err(text("not a STEP file: no DATA section"));
    }
    let mut cur = Cursor { s: bytes, at: d + 5 };
    let ghost start = (d + 5) as int;
    let mut entities: Vec<(usize, Vec<Part>)> = Vec::new();
    proof {
        lemma_prefixed_empty(file_at(s, start));
        assert(entities_of(entities@) =~= Seq::<(nat, Seq<(Seq<char>, Seq<Term>)>)>::empty());
    }
    loop
        invariant_except_break
            cur.s@ == s,
            s == bytes@,
            n == s.len(),
            start <= cur.at <= n,
            source.spec_bytes() == s,
            data_from(s, 0) >= 0,
            data_from(s, 0) + 5 == start,
            file_at(s, start) == prefixed(entities_of(entities@), file_at(s, cur.at as int)),
        ensures
            file_at(s, start) matches Parsed::Done(es, _) && es == entities_of(entities@),
        decreases n - cur.at,
    {
        let ghost here = cur.at as int;
        proof {
            crate::step::lemma_after_space_bounds(s, here);
        }
        cur.skip_space();
        let a = cur.at;
        if a >= n || (n - a >= 6 && bytes[a] == 0x45 && bytes[a + 1] == 0x4e && bytes[a + 2] == 0x44
            && bytes[a + 3] == 0x53 && bytes[a + 4] == 0x45 && bytes[a + 5] == 0x43) {
            assert(entities_of(entities@) + Seq::<(nat, Seq<(Seq<char>, Seq<Term>)>)>::empty()
                =~= entities_of(entities@));
            break;
        }
        proof {
            crate::step::lemma_after_space_bounds(s, a as int);
            lemma_entity_progress(s, a as int);
        }
        let (id, parts) = match cur.entity() {
            Ok(e) => e,
            Err(m) => {
                return Err(m);
            },
        };
        let ghost before = entities@;
        let ghost ev = (id as nat, parts_of(parts@));
        entities.push((id, parts));
        proof {
            assert(entities_of(entities@) =~= entities_of(before).push(ev));
            lemma_prefixed_assoc(entities_of(before), seq![ev], file_at(s, cur.at as int));
            assert(entities_of(before) + seq![ev] =~= entities_of(entities@));
        }
    }
    Ok(StepFile { entities })
}

} // verus!
