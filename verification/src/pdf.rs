//! The paginated form of the report: text escaping, decimal numbers, and
//! the assembly of the document from the content of its pages.

use vstd::prelude::*;
use vstd::string::StringSliceAdditionalSpecFns;

verus! {

/// The character for a decimal digit.
pub open spec fn digit(d: int) -> u8 {
    ('0' as u8 + d) as u8
}

/// The decimal digits of a number, without leading zeros.
pub open spec fn decimal(n: nat) -> Seq<u8>
    decreases n,
{
    if n < 10 {
        seq![digit(n as int)]
    } else {
        decimal(n / 10).push(digit((n % 10) as int))
    }
}

/// The decimal digits of a number, with zeros in front up to `width`
/// digits.
pub open spec fn zero_padded(n: nat, width: nat) -> Seq<u8> {
    let digits = decimal(n);
    if digits.len() >= width {
        digits
    } else {
        Seq::new((width - digits.len()) as nat, |i: int| '0' as u8) + digits
    }
}

/// The byte must be escaped inside a text of the document.
pub open spec fn needs_escape(c: u8) -> bool {
    c == '\\' as u8 || c == '(' as u8 || c == ')' as u8
}

/// A text with a backslash put before every backslash and every
/// parenthesis.
pub open spec fn escaped(text: Seq<u8>) -> Seq<u8>
    decreases text.len(),
{
    if text.len() == 0 {
        Seq::empty()
    } else if needs_escape(text.last()) {
        escaped(text.drop_last()).push('\\' as u8).push(text.last())
    } else {
        escaped(text.drop_last()).push(text.last())
    }
}

/// Escapes a text for the document.
pub fn pdf_escape(text: &[u8]) -> (out: Vec<u8>)
    ensures
        out@ == escaped(text@),
{
    let mut out: Vec<u8> = Vec::new();
    let mut i: usize = 0;
    while i < text.len()
        invariant
            i <= text.len(),
            out@ == escaped(text@.take(i as int)),
        decreases text.len() - i,
    {
        proof {
            assert(text@.take(i as int + 1).drop_last() == text@.take(i as int));
            assert(text@.take(i as int + 1).last() == text@[i as int]);
        }
        let c = text[i];
        if c == '\\' as u8 || c == '(' as u8 || c == ')' as u8 {
            out.push('\\' as u8);
        }
        out.push(c);
        i = i + 1;
    }
    assert(text@.take(text.len() as int) == text@);
    out
}

fn append(buf: &mut Vec<u8>, bytes: &[u8])
    ensures
        final(buf)@ == old(buf)@ + bytes@,
{
    buf.extend_from_slice(bytes);
    assert(buf@ =~= old(buf)@ + bytes@);
}

fn append_str(buf: &mut Vec<u8>, s: &str)
    ensures
        final(buf)@ == old(buf)@ + s.spec_bytes(),
{
    append(buf, s.as_bytes());
}

/// Appends the decimal digits of a number.
pub fn append_decimal(buf: &mut Vec<u8>, n: u128)
    ensures
        final(buf)@ == old(buf)@ + decimal(n as nat),
{
    let mut low: Vec<u8> = Vec::new();
    let mut m = n;
    while m >= 10
        invariant
            decimal(n as nat) == decimal(m as nat) + low@.reverse(),
        decreases m,
    {
        let d = '0' as u8 + (m % 10) as u8;
        proof {
            let grown = low@.push(d);
            assert(grown.reverse() =~= seq![d] + low@.reverse());
            assert(decimal(m as nat) == decimal((m / 10) as nat).push(d));
            assert(decimal((m / 10) as nat).push(d) + low@.reverse() =~= decimal((m / 10) as nat)
                + (seq![d] + low@.reverse()));
        }
        low.push(d);
        m = m / 10;
    }
    let ghost start = buf@;
    buf.push('0' as u8 + m as u8);
    let mut k = low.len();
    while k > 0
        invariant
            k <= low.len(),
            buf@ == start + decimal(m as nat) + low@.reverse().take(low.len() - k),
        decreases k,
    {
        k = k - 1;
        buf.push(low[k]);
        assert(low@.reverse().take(low.len() - k) =~= low@.reverse().take(low.len() - k - 1).push(
            low@[k as int],
        ));
    }
    assert(low@.reverse().take(low.len() as int) == low@.reverse());
    assert(buf@ =~= start + (decimal(m as nat) + low@.reverse()));
}

/// Appends the decimal digits of a number, with zeros in front up to
/// `width` digits.
pub fn append_zero_padded(buf: &mut Vec<u8>, n: u128, width: usize)
    ensures
        final(buf)@ == old(buf)@ + zero_padded(n as nat, width as nat),
{
    let mut digits: Vec<u8> = Vec::new();
    append_decimal(&mut digits, n);
    assert(digits@ =~= decimal(n as nat));
    let ghost start = buf@;
    let mut k = digits.len();
    while k < width
        invariant
            digits.len() <= k,
            k <= width || k == digits.len(),
            digits@ == decimal(n as nat),
            buf@ == start + Seq::new((k - digits.len()) as nat, |i: int| '0' as u8),
        decreases width - k,
    {
        buf.push('0' as u8);
        k = k + 1;
        assert(buf@ =~= start + Seq::new((k - digits.len()) as nat, |i: int| '0' as u8));
    }
    append(buf, digits.as_slice());
    assert(buf@ =~= start + zero_padded(n as nat, width as nat));
}

/// What every document begins with.
pub open spec fn header() -> Seq<u8> {
    "%PDF-1.4\n%????\n".spec_bytes()
}

/// The references to the first `n` pages, as the page tree lists them.
/// The pages are the objects from the fourth on.
pub open spec fn kids(n: nat) -> Seq<u8>
    decreases n,
{
    if n == 0 {
        Seq::empty()
    } else {
        kids((n - 1) as nat) + decimal(3 + n) + " 0 R ".spec_bytes()
    }
}

/// The object that describes page `i` of `n`: its number is `4 + i`, and
/// its content is the object with the number `4 + n + i`.
pub open spec fn page_object(n: nat, i: nat) -> Seq<u8> {
    decimal(4 + i)
        + " 0 obj\n<< /Type /Page /Parent 2 0 R /MediaBox [0 0 612 792] /Resources << /Font << /F1 3 0 R >> >> /Contents ".spec_bytes()
        + decimal(4 + n + i) + " 0 R >>\nendobj\n".spec_bytes()
}

/// The object that holds the content of page `i` of `n`: a stream of the
/// content and a line feed, with its length in front.
pub open spec fn content_object(n: nat, i: nat, content: Seq<u8>) -> Seq<u8> {
    decimal(4 + n + i) + " 0 obj\n".spec_bytes() + "<< /Length ".spec_bytes() + decimal(
        content.len() + 1,
    ) + " >>\nstream\n".spec_bytes() + content + "\nendstream".spec_bytes()
        + "\nendobj\n".spec_bytes()
}

/// Number of objects of a document with the given pages: the catalog,
/// the page tree and the font, and two for every page.
pub open spec fn object_total(pages: Seq<Seq<u8>>) -> nat {
    3 + 2 * pages.len()
}

/// The object with the number `j + 1`.
pub open spec fn object(pages: Seq<Seq<u8>>, j: int) -> Seq<u8> {
    let n = pages.len();
    if j == 0 {
        "1 0 obj\n<< /Type /Catalog /Pages 2 0 R >>\nendobj\n".spec_bytes()
    } else if j == 1 {
        "2 0 obj\n<< /Type /Pages /Kids [".spec_bytes() + kids(n) + "] /Count ".spec_bytes()
            + decimal(n) + " >>\nendobj\n".spec_bytes()
    } else if j == 2 {
        "3 0 obj\n<< /Type /Font /Subtype /Type1 /BaseFont /Helvetica >>\nendobj\n".spec_bytes()
    } else if j < 3 + n {
        page_object(n, (j - 3) as nat)
    } else {
        content_object(n, (j - 3 - n) as nat, pages[j - 3 - n])
    }
}

/// The document up to, not including, the object with the number
/// `upto + 1`.
pub open spec fn body(pages: Seq<Seq<u8>>, upto: int) -> Seq<u8>
    decreases upto,
{
    if upto <= 0 {
        header()
    } else {
        body(pages, upto - 1) + object(pages, upto - 1)
    }
}

/// The entries of the cross-reference table for the first `upto`
/// objects: for each the number of bytes that stand before it in the
/// document, in ten digits.
pub open spec fn xref_entries(pages: Seq<Seq<u8>>, upto: int) -> Seq<u8>
    decreases upto,
{
    if upto <= 0 {
        Seq::empty()
    } else {
        xref_entries(pages, upto - 1) + zero_padded(body(pages, upto - 1).len(), 10)
            + " 00000 n \n".spec_bytes()
    }
}

/// The document for the given pages: the header; the objects in the
/// order of their numbers; the cross-reference table, which begins with
/// the entry for the free object zero; and the trailer, which names the
/// catalog and says where the table begins.
pub open spec fn document(pages: Seq<Seq<u8>>) -> Seq<u8> {
    let total = object_total(pages);
    let objects = body(pages, total as int);
    objects + "xref\n0 ".spec_bytes() + decimal(total + 1) + "\n".spec_bytes()
        + "0000000000 65535 f \n".spec_bytes() + xref_entries(pages, total as int)
        + "trailer\n<< /Size ".spec_bytes() + decimal(total + 1)
        + " /Root 1 0 R >>\nstartxref\n".spec_bytes() + decimal(objects.len())
        + "\n%%EOF\n".spec_bytes()
}

fn append_kids(buf: &mut Vec<u8>, n: usize)
    ensures
        final(buf)@ == old(buf)@ + kids(n as nat),
{
    let ghost start = buf@;
    let mut i: usize = 0;
    while i < n
        invariant
            i <= n,
            buf@ == start + kids(i as nat),
        decreases n - i,
    {
        let ghost before = buf@;
        append_decimal(buf, 4 + i as u128);
        append_str(buf, " 0 R ");
        i = i + 1;
        assert(buf@ =~= start + kids(i as nat));
    }
}

fn append_page_object(buf: &mut Vec<u8>, n: usize, i: usize)
    ensures
        final(buf)@ == old(buf)@ + page_object(n as nat, i as nat),
{
    append_decimal(buf, 4 + i as u128);
    append_str(
        buf,
        " 0 obj\n<< /Type /Page /Parent 2 0 R /MediaBox [0 0 612 792] /Resources << /Font << /F1 3 0 R >> >> /Contents ",
    );
    append_decimal(buf, 4 + n as u128 + i as u128);
    append_str(buf, " 0 R >>\nendobj\n");
    assert(buf@ =~= old(buf)@ + page_object(n as nat, i as nat));
}

fn append_content_object(buf: &mut Vec<u8>, n: usize, i: usize, content: &Vec<u8>)
    ensures
        final(buf)@ == old(buf)@ + content_object(n as nat, i as nat, content@),
{
    append_decimal(buf, 4 + n as u128 + i as u128);
    append_str(buf, " 0 obj\n");
    append_str(buf, "<< /Length ");
    append_decimal(buf, content.len() as u128 + 1);
    append_str(buf, " >>\nstream\n");
    append(buf, content.as_slice());
    append_str(buf, "\nendstream");
    append_str(buf, "\nendobj\n");
    assert(buf@ =~= old(buf)@ + content_object(n as nat, i as nat, content@));
}

/// Assembles the document from the content of its pages.
pub fn build_pdf_document(pages: &Vec<Vec<u8>>) -> (doc: Vec<u8>)
    ensures
        doc@ == document(pages.deep_view()),
{
    let n = pages.len();
    let ghost views = pages.deep_view();
    assert(views.len() == n);
    assert(forall|i: int| 0 <= i < n ==> views[i] == pages@[i]@);
    let mut buf: Vec<u8> = Vec::new();
    let mut offsets: Vec<usize> = Vec::new();
    append_str(&mut buf, "%PDF-1.4\n%????\n");
    assert(buf@ =~= body(views, 0));

    offsets.push(buf.len());
    append_str(&mut buf, "1 0 obj\n<< /Type /Catalog /Pages 2 0 R >>\nendobj\n");
    assert(buf@ =~= body(views, 1));

    offsets.push(buf.len());
    let ghost before = buf@;
    append_str(&mut buf, "2 0 obj\n<< /Type /Pages /Kids [");
    append_kids(&mut buf, n);
    append_str(&mut buf, "] /Count ");
    append_decimal(&mut buf, n as u128);
    append_str(&mut buf, " >>\nendobj\n");
    assert(buf@ =~= before + object(views, 1));
    assert(buf@ == body(views, 2));

    offsets.push(buf.len());
    append_str(
        &mut buf,
        "3 0 obj\n<< /Type /Font /Subtype /Type1 /BaseFont /Helvetica >>\nendobj\n",
    );
    assert(buf@ =~= body(views, 3));

    let mut i: usize = 0;
    while i < n
        invariant
            i <= n,
            n == views.len(),
            buf@ == body(views, 3 + i),
            offsets.len() == 3 + i,
            forall|k: int| 0 <= k < offsets.len() ==> offsets@[k] == body(views, k).len(),
        decreases n - i,
    {
        offsets.push(buf.len());
        append_page_object(&mut buf, n, i);
        assert(object(views, 3 + i) == page_object(n as nat, i as nat));
        i = i + 1;
    }
    let mut i: usize = 0;
    while i < n
        invariant
            i <= n,
            n == views.len(),
            n == pages.len(),
            forall|i: int| 0 <= i < n ==> views[i] == pages@[i]@,
            buf@ == body(views, 3 + n + i),
            offsets.len() == 3 + n + i,
            forall|k: int| 0 <= k < offsets.len() ==> offsets@[k] == body(views, k).len(),
        decreases n - i,
    {
        offsets.push(buf.len());
        append_content_object(&mut buf, n, i, &pages[i]);
        assert(object(views, 3 + n + i) == content_object(n as nat, i as nat, views[i as int]));
        i = i + 1;
    }
    let ghost objects = buf@;
    let total = offsets.len();
    assert(total == object_total(views));
    let xref_start = buf.len();
    append_str(&mut buf, "xref\n0 ");
    append_decimal(&mut buf, total as u128 + 1);
    append_str(&mut buf, "\n");
    append_str(&mut buf, "0000000000 65535 f \n");
    let ghost table = buf@;
    let mut k: usize = 0;
    while k < total
        invariant
            k <= total,
            total == offsets.len(),
            forall|k: int| 0 <= k < offsets.len() ==> offsets@[k] == body(views, k).len(),
            buf@ == table + xref_entries(views, k as int),
        decreases total - k,
    {
        append_zero_padded(&mut buf, offsets[k] as u128, 10);
        append_str(&mut buf, " 00000 n \n");
        k = k + 1;
        assert(buf@ =~= table + xref_entries(views, k as int));
    }
    append_str(&mut buf, "trailer\n<< /Size ");
    append_decimal(&mut buf, total as u128 + 1);
    append_str(&mut buf, " /Root 1 0 R >>\nstartxref\n");
    append_decimal(&mut buf, xref_start as u128);
    append_str(&mut buf, "\n%%EOF\n");
    assert(buf@ =~= document(views));
    buf
}

} // verus!
