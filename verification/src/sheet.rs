//! Drawing sheets: the paper sizes a sheet can be laid out on, and the
//! text escaping of the PDF pages.

use crate::text::{push_char, push_str, str_eq, text, trim, trimmed};
use vstd::prelude::*;

verus! {

/// The paper sizes of a drawing sheet (landscape).
#[derive(Debug, Clone, Copy, PartialEq, Eq, Structural)]
pub enum SheetSize {
    A4,
    A3,
    A2,
    Letter,
}

/// Where text sits relative to its anchor point.
#[derive(Debug, Clone, Copy, PartialEq, Eq, Structural)]
pub enum Anchor {
    Left,
    Middle,
    Right,
}

/// What `str::to_lowercase` makes of `s` (Unicode's lowercase mapping).
pub uninterp spec fn lowercase(s: Seq<char>) -> Seq<char>;

/// Every character of `s` is ASCII.
pub open spec fn all_ascii(s: Seq<char>) -> bool {
    forall|i: int| 0 <= i < s.len() ==> (#[trigger] s[i] as u32) < 128
}

/// An ASCII character lower-cased: `A` to `Z` become `a` to `z`.
pub open spec fn ascii_lower_char(c: char) -> char {
    if 'A' <= c <= 'Z' {
        ((c as u32) + 32) as char
    } else {
        c
    }
}

/// `s` with its ASCII capitals lower-cased.
pub open spec fn ascii_lowered(s: Seq<char>) -> Seq<char> {
    s.map_values(|c: char| ascii_lower_char(c))
}

/// Calls `str::to_lowercase`. Trusted: the result is `lowercase(s)`; on
/// ASCII text, which Unicode's lowercase mapping takes character by
/// character with `A` to `Z` going to `a` to `z` and every other ASCII
/// character left as it is, that is `ascii_lowered(s)`.
#[verifier::external_body]
pub(crate) fn to_lowercase(s: &str) -> (r: String)
    ensures
        r@ == lowercase(s@),
        all_ascii(s@) ==> r@ == ascii_lowered(s@),
{
    s.to_lowercase()
}

/// What the `Debug` formatting of a string writes: the string quoted,
/// with its special characters escaped.
pub uninterp spec fn debug_quoted(s: Seq<char>) -> Seq<char>;

/// Formats `s` with `{:?}`. Trusted: the result is `debug_quoted(s)`.
#[verifier::external_body]
pub(crate) fn quoted(s: &str) -> (r: String)
    ensures
        r@ == debug_quoted(s@),
{
    format!("{s:?}")
}

/// The sheet size a lower-cased, trimmed name stands for.
pub open spec fn size_named(lower: Seq<char>) -> Option<SheetSize> {
    if lower == ""@ || lower == "a4"@ {
        Some(SheetSize::A4)
    } else if lower == "a3"@ {
        Some(SheetSize::A3)
    } else if lower == "a2"@ {
        Some(SheetSize::A2)
    } else if lower == "letter"@ {
        Some(SheetSize::Letter)
    } else {
        None
    }
}

/// The name each sheet size goes by.
pub open spec fn size_name(s: SheetSize) -> Seq<char> {
    match s {
        SheetSize::A4 => "A4"@,
        SheetSize::A3 => "A3"@,
        SheetSize::A2 => "A2"@,
        SheetSize::Letter => "Letter"@,
    }
}

impl SheetSize {
    /// Reads a sheet size by name, ignoring case and surrounding white
    /// space; an empty name is A4.
    pub fn parse(name: &str) -> (r: Result<SheetSize, String>)
        ensures
            ({
                let lower = lowercase(trimmed(name@));
                match size_named(lower) {
                    Some(s) => r == Ok::<SheetSize, String>(s),
                    None => r matches Err(e) && e@ == "unknown sheet size "@ + debug_quoted(lower)
                        + ": use A4, A3, A2 or Letter"@,
                }
            }),
            all_ascii(trimmed(name@)) ==> lowercase(trimmed(name@)) == ascii_lowered(trimmed(name@)),
    {
        let t = trim(name);
        let lower = to_lowercase(t.as_str());
        let l = lower.as_str();
        if str_eq(l, "") || str_eq(l, "a4") {
            Ok(SheetSize::A4)
        } else if str_eq(l, "a3") {
            Ok(SheetSize::A3)
        } else if str_eq(l, "a2") {
            Ok(SheetSize::A2)
        } else if str_eq(l, "letter") {
            Ok(SheetSize::Letter)
        } else {
            let mut e = text("unknown sheet size ");
            let q = quoted(l);
            push_str(&mut e, q.as_str());
            push_str(&mut e, ": use A4, A3, A2 or Letter");
            Err(e)
        }
    }

    /// The size's name.
    pub fn name(self) -> (n: &'static str)
        ensures
            n@ == size_name(self),
    {
        match self {
            SheetSize::A4 => "A4",
            SheetSize::A3 => "A3",
            SheetSize::A2 => "A2",
            SheetSize::Letter => "Letter",
        }
    }
}

/// What a drawing sheet shows.
#[derive(Debug, Clone)]
pub struct Options {
    /// View names in `front`, `top`, `right`, `iso`; the layout places
    /// the first three third-angle and the rest to the right.
    pub views: Vec<String>,
    pub sheet: SheetSize,
    /// The title block's first line.
    pub title: String,
    /// A second line for the title block's right half (a date, an
    /// author), supplied by the caller.
    pub note: String,
    /// Balloons and a parts list.
    pub parts: bool,
}

/// The views a sheet shows unless told otherwise.
pub open spec fn default_views() -> Seq<Seq<char>> {
    seq!["front"@, "top"@, "right"@, "iso"@]
}

impl Default for Options {
    /// The four standard views on A4, untitled, with a parts list.
    fn default() -> (o: Options)
        ensures
            o.views@.map_values(|v: String| v@) == default_views(),
            o.sheet == SheetSize::A4,
            o.title@ == Seq::<char>::empty(),
            o.note@ == Seq::<char>::empty(),
            o.parts,
    {
        let mut views: Vec<String> = Vec::new();
        views.push(text("front"));
        views.push(text("top"));
        views.push(text("right"));
        views.push(text("iso"));
        assert(views@.map_values(|v: String| v@) =~= default_views());
        Options { views, sheet: SheetSize::A4, title: String::new(), note: String::new(), parts: true }
    }
}

/// Every sheet size reads back from its own name, and the empty name
/// reads as A4: these names are ASCII without surrounding space, so
/// `parse` sees them lower-cased letter by letter.
pub proof fn law_sheet_sizes_read_back_by_name(s: SheetSize)
    ensures
        all_ascii(trimmed(size_name(s))),
        size_named(ascii_lowered(trimmed(size_name(s)))) == Some(s),
        all_ascii(trimmed(""@)),
        size_named(ascii_lowered(trimmed(""@))) == Some(SheetSize::A4),
{
    reveal_strlit("A4");
    reveal_strlit("A3");
    reveal_strlit("A2");
    reveal_strlit("Letter");
    reveal_strlit("a4");
    reveal_strlit("a3");
    reveal_strlit("a2");
    reveal_strlit("letter");
    reveal_strlit("");
    let n = size_name(s);
    assert(trimmed(n) == n) by {
        reveal_with_fuel(crate::text::trim_front, 2);
        reveal_with_fuel(crate::text::trim_back, 2);
        assert(!crate::text::is_space(n[0]));
        assert(!crate::text::is_space(n.last()));
    }
    assert(trimmed(""@) == ""@);
    assert(ascii_lowered(""@) =~= ""@);
    let l = ascii_lowered(n);
    match s {
        SheetSize::A4 => {
            assert(l =~= "a4"@);
        },
        SheetSize::A3 => {
            assert(l =~= "a3"@);
            assert(l[1] != "a4"@[1]);
            assert(l != ""@ && l != "a4"@);
        },
        SheetSize::A2 => {
            assert(l =~= "a2"@);
            assert(l[1] != "a4"@[1] && l[1] != "a3"@[1]);
            assert(l != ""@ && l != "a4"@ && l != "a3"@);
        },
        SheetSize::Letter => {
            assert(l =~= "letter"@);
            assert(l.len() == 6);
        },
    }
    assert(size_named(l) == Some(s));
}

// ----------------------------------------------------------------- PDF text

/// A number below 8 as an octal digit.
pub open spec fn octal_digit(d: nat) -> char {
    ((d % 8 + 48) as u8) as char
}

/// How a PDF string in WinAnsi writes one character: `(`, `)` and `\`
/// behind a backslash, ASCII as it is, the rest of Latin-1 as a
/// three-digit octal escape, anything else as `?`.
pub open spec fn pdf_char(c: char) -> Seq<char> {
    if c == '(' || c == ')' || c == '\\' {
        seq!['\\', c]
    } else if (c as u32) < 128 {
        seq![c]
    } else if (c as u32) < 256 {
        seq![
            '\\',
            octal_digit((c as u32 / 64) as nat),
            octal_digit((c as u32 / 8) as nat),
            octal_digit(c as u32 as nat),
        ]
    } else {
        seq!['?']
    }
}

/// A whole string as a PDF string's contents.
pub open spec fn pdf_text(s: Seq<char>) -> Seq<char>
    decreases s.len(),
{
    if s.len() == 0 {
        Seq::empty()
    } else {
        pdf_text(s.drop_last()) + pdf_char(s.last())
    }
}

fn octal(d: u32) -> (c: char)
    ensures
        c == octal_digit(d as nat),
{
    let m = d % 8;
    if m == 0 {
        '0'
    } else if m == 1 {
        '1'
    } else if m == 2 {
        '2'
    } else if m == 3 {
        '3'
    } else if m == 4 {
        '4'
    } else if m == 5 {
        '5'
    } else if m == 6 {
        '6'
    } else {
        '7'
    }
}

/// Escapes text for a PDF string (Ø, ×, · and ° come out as their
/// WinAnsi octal codes 330, 327, 267 and 260, like the rest of Latin-1).
pub fn escape(text: &str) -> (out: String)
    ensures
        out@ == pdf_text(text@),
{
    let mut out = String::new();
    for c in it: text.chars()
        invariant
            it.seq() == text@,
            out@ == pdf_text(text@.take(it.index() as int)),
    {
        let ghost before = out@;
        if c == '(' || c == ')' || c == '\\' {
            push_char(&mut out, '\\');
            push_char(&mut out, c);
        } else if (c as u32) < 128 {
            push_char(&mut out, c);
        } else if (c as u32) < 256 {
            let n = c as u32;
            push_char(&mut out, '\\');
            push_char(&mut out, octal(n / 64));
            push_char(&mut out, octal(n / 8));
            push_char(&mut out, octal(n));
        } else {
            push_char(&mut out, '?');
        }
        assert(out@ =~= before + pdf_char(c));
        assert(text@.take(it.index() + 1).drop_last() =~= text@.take(it.index() as int));
    }
    assert(text@.take(text@.len() as int) =~= text@);
    out
}


// -------------------------------------------------------------- parts list

/// A row of a drawing's parts list: its item number, how many bodies it
/// stands for, and the first of them.
#[derive(Debug, Clone, Copy, PartialEq, Eq, Structural)]
pub struct PartsRow {
    pub item: usize,
    pub qty: usize,
    pub body: usize,
}

/// How many of `keys` are `k`.
pub open spec fn count_of(keys: Seq<(u32, usize)>, k: (u32, usize)) -> nat
    decreases keys.len(),
{
    if keys.len() == 0 {
        0
    } else {
        count_of(keys.drop_last(), k) + if keys.last() == k {
            1nat
        } else {
            0nat
        }
    }
}

/// Body `i` is the first with its key.
pub open spec fn first_of_kind(keys: Seq<(u32, usize)>, i: int) -> bool {
    &&& 0 <= i < keys.len()
    &&& forall|j: int| 0 <= j < i ==> keys[j] != keys[i]
}

/// `rows` is the parts list of the bodies with keys `keys`: a row for
/// each distinct key in order of first appearance, numbered from 1,
/// pointing at the first body with that key and counting all of them.
pub open spec fn parts_rows(keys: Seq<(u32, usize)>, rows: Seq<PartsRow>) -> bool {
    &&& forall|j: int| 0 <= j < rows.len() ==> (#[trigger] rows[j]).item == j + 1
    &&& forall|j: int| 0 <= j < rows.len() ==> first_of_kind(keys, (#[trigger] rows[j]).body as int)
    &&& forall|j: int| 0 <= j < rows.len() ==> (#[trigger] rows[j]).qty == count_of(keys, keys[rows[j].body as int])
    &&& forall|a: int, b: int| 0 <= a < b < rows.len() ==> (#[trigger] rows[a]).body < (#[trigger] rows[b]).body
    &&& forall|i: int| #[trigger] first_of_kind(keys, i) ==> exists|j: int| 0 <= j < rows.len() && (#[trigger] rows[j]).body == i
}

/// The quantities of the rows, added up.
pub open spec fn qty_sum(rows: Seq<PartsRow>) -> nat
    decreases rows.len(),
{
    if rows.len() == 0 {
        0
    } else {
        qty_sum(rows.drop_last()) + rows.last().qty as nat
    }
}

proof fn lemma_qty_sum_update(rows: Seq<PartsRow>, j: int, r: PartsRow)
    requires
        0 <= j < rows.len(),
    ensures
        qty_sum(rows.update(j, r)) + rows[j].qty == qty_sum(rows) + r.qty,
    decreases rows.len(),
{
    if j < rows.len() - 1 {
        assert(rows.update(j, r).drop_last() =~= rows.drop_last().update(j, r));
        lemma_qty_sum_update(rows.drop_last(), j, r);
    } else {
        assert(rows.update(j, r).drop_last() =~= rows.drop_last());
    }
}

proof fn lemma_count_step(keys: Seq<(u32, usize)>, i: int, k: (u32, usize))
    requires
        0 <= i < keys.len(),
    ensures
        count_of(keys.take(i + 1), k) == count_of(keys.take(i), k) + if keys[i] == k {
            1nat
        } else {
            0nat
        },
{
    assert(keys.take(i + 1).drop_last() =~= keys.take(i));
}

/// The parts list of a drawing whose bodies have the keys `keys` (bodies
/// with one key are one part): none when it is not wanted or there is only
/// one body.
pub fn parts_list(keys: &Vec<(u32, usize)>, wanted: bool) -> (rows: Vec<PartsRow>)
    ensures
        wanted && keys@.len() > 1 ==> parts_rows(keys@, rows@),
        wanted && keys@.len() > 1 ==> qty_sum(rows@) == keys@.len(),
        !(wanted && keys@.len() > 1) ==> rows@.len() == 0,
{
    let mut rows: Vec<PartsRow> = Vec::new();
    if !(wanted && keys.len() > 1) {
        return rows;
    }
    let n = keys.len();
    let mut i: usize = 0;
    while i < n
        invariant
            n == keys@.len(),
            i <= n,
            rows@.len() <= i,
            parts_rows(keys@.take(i as int), rows@),
            qty_sum(rows@) == i,
        decreases n - i,
    {
        let ghost pre = keys@.take(i as int);
        let ghost next = keys@.take(i + 1);
        let key = keys[i];
        let mut j: usize = 0;
        while j < rows.len() && !(keys[rows[j].body].0 == key.0 && keys[rows[j].body].1 == key.1)
            invariant
                n == keys@.len(),
                i < n,
                j <= rows@.len(),
                rows@.len() <= i,
                parts_rows(pre, rows@),
                pre == keys@.take(i as int),
                forall|r: int| 0 <= r < j ==> keys@[(#[trigger] rows@[r]).body as int] != key,
            decreases rows@.len() - j,
        {
            assert(first_of_kind(pre, rows@[j as int].body as int));
            j = j + 1;
        }
        let ghost before = rows@;
        proof {
            assert forall|r: int| 0 <= r < before.len() implies pre[(#[trigger] before[r]).body as int]
                == keys@[before[r].body as int] by {
                assert(first_of_kind(pre, before[r].body as int));
            }
            assert forall|k: (u32, usize)| true implies #[trigger] count_of(next, k) == count_of(pre, k)
                + if key == k { 1nat } else { 0nat } by {
                lemma_count_step(keys@, i as int, k);
            }
        }
        if j < rows.len() {
            let old_row = rows[j];
            assert(old_row.qty == count_of(pre, key));
            assert(count_of(pre, key) <= i) by {
                lemma_count_bound(pre, key);
            }
            rows.set(j, PartsRow { item: old_row.item, qty: old_row.qty + 1, body: old_row.body });
            proof {
                lemma_qty_sum_update(before, j as int, rows@[j as int]);
                assert forall|t: int| #[trigger] first_of_kind(next, t) implies exists|r: int|
                    0 <= r < rows@.len() && (#[trigger] rows@[r]).body == t by {
                    if t < i {
                        assert(first_of_kind(pre, t));
                        let r = choose|r: int| 0 <= r < before.len() && (#[trigger] before[r]).body == t;
                        assert(rows@[r].body == t);
                    } else {
                        assert(next[j as int] == next[t]) by {
                            assert(first_of_kind(pre, before[j as int].body as int));
                        }
                    }
                }
                assert forall|r: int| 0 <= r < rows@.len() implies first_of_kind(next, (#[trigger] rows@[r]).body as int) by {
                    assert(first_of_kind(pre, before[r].body as int));
                }
            }
        } else {
            proof {
                assert forall|t: int| 0 <= t < i implies pre[t] != key by {
                    if pre[t] == key {
                        let f = first_index(pre, t);
                        let r = choose|r: int| 0 <= r < before.len() && (#[trigger] before[r]).body == f;
                        assert(keys@[before[r].body as int] != key);
                    }
                }
            }
            let item = rows.len() + 1;
            rows.push(PartsRow { item, qty: 1, body: i });
            proof {
                assert(rows@.drop_last() =~= before);
                assert(count_of(pre, key) == 0) by {
                    lemma_count_absent(pre, key);
                }
                assert forall|t: int| #[trigger] first_of_kind(next, t) implies exists|r: int|
                    0 <= r < rows@.len() && (#[trigger] rows@[r]).body == t by {
                    if t < i {
                        assert(first_of_kind(pre, t));
                        let r = choose|r: int| 0 <= r < before.len() && (#[trigger] before[r]).body == t;
                        assert(rows@[r].body == t);
                    } else {
                        assert(rows@[before.len() as int].body == t);
                    }
                }
                assert forall|r: int| 0 <= r < rows@.len() implies first_of_kind(next, (#[trigger] rows@[r]).body as int) by {
                    if r < before.len() {
                        assert(first_of_kind(pre, before[r].body as int));
                    }
                }
            }
        }
        i = i + 1;
    }
    assert(keys@.take(n as int) =~= keys@);
    rows
}

proof fn lemma_count_bound(keys: Seq<(u32, usize)>, k: (u32, usize))
    ensures
        count_of(keys, k) <= keys.len(),
    decreases keys.len(),
{
    if keys.len() > 0 {
        lemma_count_bound(keys.drop_last(), k);
    }
}

proof fn lemma_count_absent(keys: Seq<(u32, usize)>, k: (u32, usize))
    requires
        forall|t: int| 0 <= t < keys.len() ==> keys[t] != k,
    ensures
        count_of(keys, k) == 0,
    decreases keys.len(),
{
    if keys.len() > 0 {
        lemma_count_absent(keys.drop_last(), k);
    }
}

/// The first body with the key of body `t`.
proof fn first_index(keys: Seq<(u32, usize)>, t: int) -> (f: int)
    requires
        0 <= t < keys.len(),
    ensures
        first_of_kind(keys, f),
        f <= t,
        keys[f] == keys[t],
    decreases t,
{
    if exists|j: int| 0 <= j < t && keys[j] == keys[t] {
        let j = choose|j: int| 0 <= j < t && keys[j] == keys[t];
        first_index(keys, j)
    } else {
        t
    }
}

} // verus!
