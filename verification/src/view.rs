//! The views and section planes a rendering can be asked for, read from
//! the names and `axis:offset[:flip]` texts the client sends. The numbers
//! in them (an eye direction, a plane's offset) are handed back as text.

use crate::sheet::{all_ascii, ascii_lowered, debug_quoted, lowercase, quoted, to_lowercase};
use crate::text::{pieces, push_str, split_trimmed, str_eq, text, trim, trimmed};
use vstd::prelude::*;

verus! {

/// The views that go by a name.
#[derive(Debug, Clone, Copy, PartialEq, Eq, Structural)]
pub enum NamedView {
    /// Looking down the Z axis, Y up the page.
    Top,
    /// Looking along +Y, Z up the page.
    Front,
    /// Looking along -X, Z up the page.
    Right,
    /// The isometric-style view from +X, -Y, +Z.
    Iso,
}

/// What a view name asks for: a named view, or an eye direction given as
/// the comma-separated (trimmed) texts of its numbers.
#[derive(Debug, PartialEq)]
pub enum ViewRequest {
    Named(NamedView),
    Direction(Vec<String>),
}

/// The view a lower-cased, trimmed name stands for; an empty name is the
/// isometric view.
pub open spec fn view_named(lower: Seq<char>) -> Option<NamedView> {
    if lower == ""@ || lower == "iso"@ || lower == "isometric"@ {
        Some(NamedView::Iso)
    } else if lower == "top"@ {
        Some(NamedView::Top)
    } else if lower == "front"@ {
        Some(NamedView::Front)
    } else if lower == "right"@ {
        Some(NamedView::Right)
    } else {
        None
    }
}

/// The views of a list of strings.
pub open spec fn texts(v: Seq<String>) -> Seq<Seq<char>> {
    v.map_values(|s: String| s@)
}

/// Each piece of `s` between separators, trimmed.
pub open spec fn trimmed_pieces(s: Seq<char>, sep: char) -> Seq<Seq<char>> {
    pieces(s, sep).map_values(|p: Seq<char>| trimmed(p))
}

proof fn lemma_split_texts(out: Seq<String>, s: Seq<char>, sep: char)
    requires
        out.len() == pieces(s, sep).len(),
        forall|j: int| 0 <= j < out.len() ==> (#[trigger] out[j])@ == trimmed(pieces(s, sep)[j]),
    ensures
        texts(out) == trimmed_pieces(s, sep),
{
    assert(texts(out) =~= trimmed_pieces(s, sep));
}

/// Reads a view name, ignoring case and surrounding white space: one of
/// the named views, or else the pieces of an `x,y,z` eye direction.
pub fn view_request(name: &str) -> (r: ViewRequest)
    ensures
        ({
            let lower = lowercase(trimmed(name@));
            match view_named(lower) {
                Some(v) => r == ViewRequest::Named(v),
                None => r matches ViewRequest::Direction(parts) && texts(parts@)
                    == trimmed_pieces(lower, ','),
            }
        }),
{
    let t = trim(name);
    let lower = to_lowercase(t.as_str());
    let l = lower.as_str();
    if str_eq(l, "") || str_eq(l, "iso") || str_eq(l, "isometric") {
        ViewRequest::Named(NamedView::Iso)
    } else if str_eq(l, "top") {
        ViewRequest::Named(NamedView::Top)
    } else if str_eq(l, "front") {
        ViewRequest::Named(NamedView::Front)
    } else if str_eq(l, "right") {
        ViewRequest::Named(NamedView::Right)
    } else {
        let parts = split_trimmed(l, ',');
        proof {
            lemma_split_texts(parts@, l@, ',');
        }
        ViewRequest::Direction(parts)
    }
}

/// The axis a section plane is square to.
#[derive(Debug, Clone, Copy, PartialEq, Eq, Structural)]
pub enum Axis {
    X,
    Y,
    Z,
}

/// The axis a lower-cased name stands for.
pub open spec fn axis_named(lower: Seq<char>) -> Option<Axis> {
    if lower == "x"@ {
        Some(Axis::X)
    } else if lower == "y"@ {
        Some(Axis::Y)
    } else if lower == "z"@ {
        Some(Axis::Z)
    } else {
        None
    }
}

/// The fields of a section text `axis:offset[:flag]`, each trimmed: the
/// axis read, the offset's text and the flag's text, if there is one.
pub struct SectionFields {
    pub axis: Axis,
    pub offset: String,
    pub flag: Option<String>,
}

/// What reading a section text's fields gives: the wrong number of fields
/// or an unknown axis is an error; else the axis, the offset's text and
/// the flag's text.
pub open spec fn section_outcome(t: Seq<char>) -> Result<(Axis, Seq<char>, Option<Seq<char>>), Seq<char>> {
    let parts = trimmed_pieces(t, ':');
    if parts.len() < 2 || parts.len() > 3 {
        Err("section "@ + debug_quoted(t) + ": use axis:offset[:flip], e.g. z:10"@)
    } else {
        let a = lowercase(parts[0]);
        match axis_named(a) {
            None => Err("section axis "@ + debug_quoted(a) + ": use x, y or z"@),
            Some(axis) => Ok(
                (axis, parts[1], if parts.len() == 3 {
                    Some(parts[2])
                } else {
                    None
                }),
            ),
        }
    }
}

/// The fields of a section text.
pub open spec fn fields_view(f: SectionFields) -> (Axis, Seq<char>, Option<Seq<char>>) {
    (f.axis, f.offset@, match f.flag {
        Some(s) => Some(s@),
        None => None,
    })
}

/// Reads the fields of a section text `axis:offset[:flip]`, as in
/// `z:10` or `x:-5:flip`; the axis may be in either case.
pub fn section_fields(t: &str) -> (r: Result<SectionFields, String>)
    ensures
        match section_outcome(t@) {
            Ok(f) => r matches Ok(g) && fields_view(g) == f,
            Err(m) => r matches Err(e) && e@ == m,
        },
        ({
            let parts = trimmed_pieces(t@, ':');
            2 <= parts.len() <= 3 && all_ascii(parts[0]) ==> lowercase(parts[0]) == ascii_lowered(
                parts[0],
            )
        }),
{
    let parts = split_trimmed(t, ':');
    proof {
        lemma_split_texts(parts@, t@, ':');
    }
    let n = parts.len();
    if n < 2 || n > 3 {
        let mut e = text("section ");
        let q = quoted(t);
        push_str(&mut e, q.as_str());
        push_str(&mut e, ": use axis:offset[:flip], e.g. z:10");
        return Err(e);
    }
    assert(parts@[0]@ == trimmed_pieces(t@, ':')[0]);
    let lower = to_lowercase(parts[0].as_str());
    let l = lower.as_str();
    let axis = if str_eq(l, "x") {
        Axis::X
    } else if str_eq(l, "y") {
        Axis::Y
    } else if str_eq(l, "z") {
        Axis::Z
    } else {
        let mut e = text("section axis ");
        let q = quoted(l);
        push_str(&mut e, q.as_str());
        push_str(&mut e, ": use x, y or z");
        return Err(e);
    };
    assert(parts@[1]@ == trimmed_pieces(t@, ':')[1]);
    let offset = text(parts[1].as_str());
    let flag = if n == 3 {
        assert(parts@[2]@ == trimmed_pieces(t@, ':')[2]);
        Some(text(parts[2].as_str()))
    } else {
        None
    };
    Ok(SectionFields { axis, offset, flag })
}

/// The axis a one-letter name gives: `x`, `y` and `z` in either case.
pub open spec fn letter_axis(c: char) -> Option<Axis> {
    if c == 'x' || c == 'X' {
        Some(Axis::X)
    } else if c == 'y' || c == 'Y' {
        Some(Axis::Y)
    } else if c == 'z' || c == 'Z' {
        Some(Axis::Z)
    } else {
        None
    }
}

/// Each axis letter names its own axis: a section text of two or three
/// fields whose first field is `x`, `y` or `z`, in either case, is read
/// as a plane square to the X, Y or Z axis, with the second field as its
/// offset. (`section_fields` gives the lower-casing of an ASCII first
/// field that the law needs.)
pub proof fn law_axis_letters_name_their_axes(t: Seq<char>)
    requires
        2 <= trimmed_pieces(t, ':').len() <= 3,
        trimmed_pieces(t, ':')[0].len() == 1,
        letter_axis(trimmed_pieces(t, ':')[0][0]) is Some,
        lowercase(trimmed_pieces(t, ':')[0]) == ascii_lowered(trimmed_pieces(t, ':')[0]),
    ensures
        section_outcome(t) matches Ok((axis, offset, _)) && axis == letter_axis(
            trimmed_pieces(t, ':')[0][0],
        )->0 && offset == trimmed_pieces(t, ':')[1],
{
    let p = trimmed_pieces(t, ':')[0];
    let l = ascii_lowered(p);
    assert(l.len() == 1);
    reveal_strlit("x");
    reveal_strlit("y");
    reveal_strlit("z");
    if p[0] == 'x' || p[0] == 'X' {
        assert(l =~= "x"@);
    } else if p[0] == 'y' || p[0] == 'Y' {
        assert(l =~= "y"@);
        assert(l[0] != "x"@[0]);
    } else {
        assert(l =~= "z"@);
        assert(l[0] != "x"@[0] && l[0] != "y"@[0]);
    }
}

/// What a section's flag says: no flag, `false`, and `flip` or `true`
/// (in any case) are the two sides; anything else is an error.
pub open spec fn flip_outcome(flag: Option<Seq<char>>) -> Result<bool, Seq<char>> {
    match flag {
        None => Ok(false),
        Some(f) => {
            let l = lowercase(f);
            if l == "flip"@ || l == "true"@ {
                Ok(true)
            } else if l == "false"@ {
                Ok(false)
            } else {
                Err("section flag "@ + debug_quoted(l) + ": use flip"@)
            }
        },
    }
}

/// Reads a section's flag: whether the plane keeps the other side.
pub fn section_flip(flag: Option<&str>) -> (r: Result<bool, String>)
    ensures
        match flip_outcome(match flag {
            Some(f) => Some(f@),
            None => None,
        }) {
            Ok(b) => r == Ok::<bool, String>(b),
            Err(m) => r matches Err(e) && e@ == m,
        },
{
    match flag {
        None => Ok(false),
        Some(f) => {
            let lower = to_lowercase(f);
            let l = lower.as_str();
            if str_eq(l, "flip") || str_eq(l, "true") {
                Ok(true)
            } else if str_eq(l, "false") {
                Ok(false)
            } else {
                let mut e = text("section flag ");
                let q = quoted(l);
                push_str(&mut e, q.as_str());
                push_str(&mut e, ": use flip");
                Err(e)
            }
        },
    }
}

} // verus!
