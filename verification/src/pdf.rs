//! The file structure of the one-page PDF drawing sheets: numbered
//! objects, the cross-reference table that says where each starts, and
//! the trailer that says where the table is.

use vstd::prelude::*;
use vstd::string::StringSliceAdditionalSpecFns;

verus! {

/// `n` in decimal, as ASCII bytes.
pub open spec fn dec_bytes(n: nat) -> Seq<u8>
    decreases n,
{
    if n < 10 {
        seq![(n + 0x30) as u8]
    } else {
        dec_bytes(n / 10).push((n % 10 + 0x30) as u8)
    }
}

/// `n` in decimal, zero-padded to ten digits (`{:010}`).
pub open spec fn pad10(n: nat) -> Seq<u8> {
    let d = dec_bytes(n);
    if d.len() < 10 {
        Seq::new((10 - d.len()) as nat, |i: int| 0x30u8) + d
    } else {
        d
    }
}

/// The file header: the version, and a comment of four high bytes (the
/// UTF-8 encoding of `âãÏÓ`) that marks the file as binary.
pub open spec fn pdf_header() -> Seq<u8> {
    "%PDF-1.4\n%\u{e2}\u{e3}\u{cf}\u{d3}\n".spec_bytes()
}

/// How object `i` (from 0; numbered from 1) starts.
pub open spec fn obj_head(i: nat) -> Seq<u8> {
    dec_bytes(i + 1) + " 0 obj\n".spec_bytes()
}

/// Object `i` with the body `body`.
pub open spec fn obj_bytes(i: nat, body: Seq<u8>) -> Seq<u8> {
    obj_head(i) + body + "\nendobj\n".spec_bytes()
}

/// The objects with the bodies `bodies`, numbered from 1.
pub open spec fn objs_bytes(bodies: Seq<Seq<u8>>) -> Seq<u8>
    decreases bodies.len(),
{
    if bodies.len() == 0 {
        Seq::empty()
    } else {
        objs_bytes(bodies.drop_last()) + obj_bytes((bodies.len() - 1) as nat, bodies.last())
    }
}

/// Where object `k` starts in the file.
pub open spec fn offset_of(bodies: Seq<Seq<u8>>, k: int) -> nat {
    pdf_header().len() + objs_bytes(bodies.take(k)).len()
}

/// The cross-reference row of an object starting at `offset`.
pub open spec fn xref_row(offset: nat) -> Seq<u8> {
    pad10(offset) + " 00000 n \n".spec_bytes()
}

/// The cross-reference rows of the first `k` objects.
pub open spec fn xref_rows(bodies: Seq<Seq<u8>>, k: int) -> Seq<u8>
    decreases k,
{
    if k <= 0 {
        Seq::empty()
    } else {
        xref_rows(bodies, k - 1) + xref_row(offset_of(bodies, k - 1))
    }
}

/// Where the cross-reference table starts.
pub open spec fn xref_at(bodies: Seq<Seq<u8>>) -> nat {
    pdf_header().len() + objs_bytes(bodies).len()
}

/// The table's first lines: its header, the object count with the free
/// entry 0.
pub open spec fn xref_head(n: nat) -> Seq<u8> {
    "xref\n0 ".spec_bytes() + dec_bytes(n + 1) + "\n0000000000 65535 f \n".spec_bytes()
}

/// The trailer: the object count, the root, and where the table starts.
pub open spec fn trailer(n: nat, x: nat) -> Seq<u8> {
    "trailer\n<< /Size ".spec_bytes() + dec_bytes(n + 1) + " /Root 1 0 R >>\nstartxref\n".spec_bytes()
        + dec_bytes(x) + "\n%%EOF\n".spec_bytes()
}

/// The whole file for the object bodies `bodies`.
pub open spec fn pdf_bytes(bodies: Seq<Seq<u8>>) -> Seq<u8> {
    let n = bodies.len();
    pdf_header() + objs_bytes(bodies) + xref_head(n) + xref_rows(bodies, n as int) + trailer(
        n,
        xref_at(bodies),
    )
}

/// The views of the bodies.
pub open spec fn bodies_view(bodies: Seq<Vec<u8>>) -> Seq<Seq<u8>> {
    bodies.map_values(|b: Vec<u8>| b@)
}

fn push_text(out: &mut Vec<u8>, s: &str)
    ensures
        final(out)@ == old(out)@ + s.spec_bytes(),
{
    let b = s.as_bytes();
    let ghost start = out@;
    let mut i: usize = 0;
    while i < b.len()
        invariant
            i <= b@.len(),
            b@ == s.spec_bytes(),
            out@ == start + b@.take(i as int),
        decreases b@.len() - i,
    {
        out.push(b[i]);
        i = i + 1;
        assert(out@ =~= start + b@.take(i as int));
    }
    assert(b@.take(i as int) =~= b@);
}

fn push_bytes(out: &mut Vec<u8>, b: &Vec<u8>)
    ensures
        final(out)@ == old(out)@ + b@,
{
    let ghost start = out@;
    let mut i: usize = 0;
    while i < b.len()
        invariant
            i <= b@.len(),
            out@ == start + b@.take(i as int),
        decreases b@.len() - i,
    {
        out.push(b[i]);
        i = i + 1;
        assert(out@ =~= start + b@.take(i as int));
    }
    assert(b@.take(i as int) =~= b@);
}

fn push_dec(out: &mut Vec<u8>, n: u64)
    ensures
        final(out)@ == old(out)@ + dec_bytes(n as nat),
    decreases n,
{
    if n >= 10 {
        push_dec(out, n / 10);
    }
    out.push((n % 10) as u8 + 0x30);
    assert(final(out)@ =~= old(out)@ + dec_bytes(n as nat));
}

fn push_pad10(out: &mut Vec<u8>, n: u64)
    ensures
        final(out)@ == old(out)@ + pad10(n as nat),
{
    let mut digits: Vec<u8> = Vec::new();
    push_dec(&mut digits, n);
    assert(digits@ =~= dec_bytes(n as nat));
    let ghost start = out@;
    if digits.len() < 10 {
        let zeros = 10 - digits.len();
        let mut k: usize = 0;
        while k < zeros
            invariant
                k <= zeros,
                out@ == start + Seq::new(k as nat, |i: int| 0x30u8),
            decreases zeros - k,
        {
            out.push(0x30);
            k = k + 1;
            assert(out@ =~= start + Seq::new(k as nat, |i: int| 0x30u8));
        }
        push_bytes(out, &digits);
        assert(out@ =~= start + pad10(n as nat));
    } else {
        push_bytes(out, &digits);
    }
}

/// The PDF file holding the objects with the bodies `bodies` (numbered
/// from 1; the first is the catalog), a cross-reference table with the
/// byte offset of each, and the trailer.
pub fn pdf_file(bodies: &Vec<Vec<u8>>) -> (out: Vec<u8>)
    requires
        bodies@.len() < usize::MAX,
    ensures
        out@ == pdf_bytes(bodies_view(bodies@)),
{
    let ghost bs = bodies_view(bodies@);
    let n = bodies.len();
    let mut out: Vec<u8> = Vec::new();
    push_text(&mut out, "%PDF-1.4\n%\u{e2}\u{e3}\u{cf}\u{d3}\n");
    assert(out@ =~= pdf_header());
    let mut offsets: Vec<usize> = Vec::new();
    let mut i: usize = 0;
    while i < n
        invariant
            n == bodies@.len(),
            bs == bodies_view(bodies@),
            i <= n,
            out@ == pdf_header() + objs_bytes(bs.take(i as int)),
            offsets@.len() == i,
            forall|j: int| 0 <= j < i ==> #[trigger] offsets@[j] == offset_of(bs, j),
        decreases n - i,
    {
        let ghost before = out@;
        proof {
            assert(bs.take(i as int) =~= bs.take(i + 1).drop_last());
        }
        offsets.push(out.len());
        push_dec(&mut out, (i + 1) as u64);
        push_text(&mut out, " 0 obj\n");
        push_bytes(&mut out, &bodies[i]);
        push_text(&mut out, "\nendobj\n");
        i = i + 1;
        proof {
            assert(bs.take(i as int).last() == bodies@[i - 1]@);
            assert(out@ =~= pdf_header() + objs_bytes(bs.take(i as int)));
        }
    }
    assert(bs.take(n as int) =~= bs);
    let x = out.len();
    let ghost table = out@;
    push_text(&mut out, "xref\n0 ");
    push_dec(&mut out, (n + 1) as u64);
    push_text(&mut out, "\n0000000000 65535 f \n");
    assert(out@ =~= table + xref_head(n as nat));
    let ghost rows_at = out@;
    let mut k: usize = 0;
    while k < n
        invariant
            n == bodies@.len(),
            n < usize::MAX,
            bs == bodies_view(bodies@),
            k <= n,
            offsets@.len() == n,
            forall|j: int| 0 <= j < n ==> #[trigger] offsets@[j] == offset_of(bs, j),
            out@ == rows_at + xref_rows(bs, k as int),
        decreases n - k,
    {
        push_pad10(&mut out, offsets[k] as u64);
        push_text(&mut out, " 00000 n \n");
        k = k + 1;
        assert(out@ =~= rows_at + xref_rows(bs, k as int));
    }
    push_text(&mut out, "trailer\n<< /Size ");
    push_dec(&mut out, (n + 1) as u64);
    push_text(&mut out, " /Root 1 0 R >>\nstartxref\n");
    push_dec(&mut out, x as u64);
    push_text(&mut out, "\n%%EOF\n");
    assert(out@ =~= pdf_bytes(bs));
    out
}

proof fn lemma_objs_prefix(bodies: Seq<Seq<u8>>, i: int)
    requires
        0 <= i < bodies.len(),
    ensures
        objs_bytes(bodies).len() >= objs_bytes(bodies.take(i)).len() + obj_head(i as nat).len(),
        objs_bytes(bodies).subrange(
            objs_bytes(bodies.take(i)).len() as int,
            (objs_bytes(bodies.take(i)).len() + obj_head(i as nat).len()) as int,
        ) == obj_head(i as nat),
    decreases bodies.len(),
{
    let n = bodies.len() as int;
    let d = bodies.drop_last();
    if i == n - 1 {
        assert(bodies.take(i) =~= d);
        let p = objs_bytes(d);
        let o = obj_bytes(i as nat, bodies.last());
        assert(objs_bytes(bodies) == p + o);
        assert((p + o).subrange(p.len() as int, (p.len() + obj_head(i as nat).len()) as int) =~= obj_head(
            i as nat,
        ));
    } else {
        lemma_objs_prefix(d, i);
        assert(d.take(i) =~= bodies.take(i));
        let p = objs_bytes(d);
        let o = obj_bytes((n - 1) as nat, bodies.last());
        assert(objs_bytes(bodies) == p + o);
        let a = objs_bytes(bodies.take(i)).len() as int;
        let b = a + obj_head(i as nat).len();
        assert((p + o).subrange(a, b) =~= p.subrange(a, b));
    }
}

proof fn lemma_rows_prefix(bodies: Seq<Seq<u8>>, k: int, i: int)
    requires
        0 <= i < k,
    ensures
        xref_rows(bodies, k).len() >= xref_rows(bodies, i).len() + xref_row(offset_of(bodies, i)).len(),
        xref_rows(bodies, k).subrange(
            xref_rows(bodies, i).len() as int,
            (xref_rows(bodies, i).len() + xref_row(offset_of(bodies, i)).len()) as int,
        ) == xref_row(offset_of(bodies, i)),
    decreases k,
{
    let p = xref_rows(bodies, k - 1);
    let r = xref_row(offset_of(bodies, k - 1));
    assert(xref_rows(bodies, k) == p + r);
    if i == k - 1 {
        assert((p + r).subrange(p.len() as int, (p.len() + r.len()) as int) =~= r);
    } else {
        lemma_rows_prefix(bodies, k - 1, i);
        let a = xref_rows(bodies, i).len() as int;
        let b = a + xref_row(offset_of(bodies, i)).len();
        assert((p + r).subrange(a, b) =~= p.subrange(a, b));
    }
}

/// The cross-reference table tells the truth: at the offset of its row
/// for object `i` the file has that object's `i 0 obj` line, the row
/// holds that offset, and the trailer's `startxref` names where the
/// table starts.
pub proof fn law_objects_are_where_the_xref_says(bodies: Seq<Seq<u8>>, i: int)
    requires
        0 <= i < bodies.len(),
    ensures
        ({
            let f = pdf_bytes(bodies);
            let o = offset_of(bodies, i);
            let x = xref_at(bodies);
            let row = x + xref_head(bodies.len()).len() + xref_rows(bodies, i).len();
            &&& f.subrange(o as int, (o + obj_head(i as nat).len()) as int) == obj_head(i as nat)
            &&& f.subrange(row as int, (row + xref_row(o).len()) as int) == xref_row(o)
            &&& f.subrange(x as int, (x + xref_head(bodies.len()).len()) as int) == xref_head(bodies.len())
            &&& f.subrange(f.len() - trailer(bodies.len(), x).len(), f.len() as int) == trailer(
                bodies.len(),
                x,
            )
        }),
{
    let n = bodies.len();
    let h = pdf_header();
    let ob = objs_bytes(bodies);
    let xh = xref_head(n);
    let rows = xref_rows(bodies, n as int);
    let t = trailer(n, xref_at(bodies));
    let f = pdf_bytes(bodies);
    assert(f == h + ob + xh + rows + t);
    lemma_objs_prefix(bodies, i);
    lemma_rows_prefix(bodies, n as int, i);
    let o = offset_of(bodies, i);
    let a = objs_bytes(bodies.take(i)).len() as int;
    assert(f.subrange(o as int, (o + obj_head(i as nat).len()) as int) =~= ob.subrange(
        a,
        a + obj_head(i as nat).len(),
    ));
    let x = xref_at(bodies);
    let ri = xref_rows(bodies, i).len() as int;
    let row = x + xh.len() + ri;
    assert(f.subrange(row as int, (row + xref_row(o).len()) as int) =~= rows.subrange(
        ri,
        ri + xref_row(o).len(),
    ));
    assert(f.subrange(x as int, (x + xh.len()) as int) =~= xh);
    assert(f.subrange(f.len() - t.len(), f.len() as int) =~= t);
}

} // verus!
