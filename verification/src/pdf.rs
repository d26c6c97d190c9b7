//! Hand-written PDF writer: one image XObject, one content stream and one
//! page object per page, then the page tree, the catalog, the
//! cross-reference table and the trailer.
//!
//! Page sizes are `pixels * 72 / dpi` points, the quotient rounded to the
//! nearest IEEE double (ties to even) and printed with four fraction
//! digits (ties to even), computed exactly in integers.

use vstd::prelude::*;
use vstd::arithmetic::power2::{pow2, lemma2_to64, lemma2_to64_rest, lemma_pow2_unfold, lemma_pow2_adds};
use crate::bitstream::lemma_pow2_mono;
use vstd::string::StringSliceAdditionalSpecFns;
use crate::text::{dec_bytes, digit_byte, push_decimal_bytes};
use crate::decoder::{Page, Preview};

verus! {

/// `a / b` rounded to the nearest integer, ties to even.
pub open spec fn div_round_even(a: nat, b: nat) -> nat {
    let q = a / b;
    let r = a % b;
    if 2 * r > b || (2 * r == b && q % 2 == 1) {
        q + 1
    } else {
        q
    }
}

/// The least `k` from `k0` on (at most 128) with `n * 2^k >= 2^52 * d`:
/// the scale that brings `n / d` into the significand range of a double.
pub open spec fn f64_shift(n: nat, d: nat, k0: nat) -> nat
    decreases 128 - k0,
{
    if k0 >= 128 || n * pow2(k0) >= pow2(52) * d {
        k0
    } else {
        f64_shift(n, d, k0 + 1)
    }
}

/// The four decimal digits of `f` (below 10000), zero-padded.
pub open spec fn four_digits(f: nat) -> Seq<u8> {
    seq![
        digit_byte(f / 1000),
        digit_byte(f / 100 % 10),
        digit_byte(f / 10 % 10),
        digit_byte(f % 10),
    ]
}

/// The text of the double nearest to `n / d` with four fraction digits,
/// rounded half to even: `inf` or `NaN` when `d` is zero.
#[verifier::opaque]
pub open spec fn fixed4_text(n: nat, d: nat) -> Seq<u8> {
    if d == 0 {
        if n == 0 {
            "NaN".spec_bytes()
        } else {
            "inf".spec_bytes()
        }
    } else if n == 0 {
        "0.0000".spec_bytes()
    } else {
        let k = f64_shift(n, d, 0);
        let m = div_round_even(n * pow2(k), d);
        let r = div_round_even(m * 10000, pow2(k));
        dec_bytes(r / 10000) + ".".spec_bytes() + four_digits(r % 10000)
    }
}

/// Append the ASCII bytes of `s`.
pub fn push_str(buf: &mut Vec<u8>, s: &str)
    ensures
        final(buf)@ == old(buf)@ + s.spec_bytes(),
{
    let bytes = s.as_bytes();
    let ghost b0 = buf@;
    let mut i: usize = 0;
    while i < bytes.len()
        invariant
            i <= bytes@.len(),
            bytes@ == s.spec_bytes(),
            buf@ == b0 + bytes@.take(i as int),
        decreases bytes@.len() - i,
    {
        buf.push(bytes[i]);
        i += 1;
        proof {
            assert(bytes@.take(i as int) =~= bytes@.take(i - 1).push(bytes@[i - 1]));
        }
    }
    proof {
        assert(bytes@.take(i as int) =~= bytes@);
    }
}

fn div_round_even_exec(a: u128, b: u128) -> (r: u128)
    requires
        b > 0,
        a < 0x1_0000_0000_0000_0000_0000_0000_0000,
    ensures
        r == div_round_even(a as nat, b as nat),
        r <= a / b + 1,
{
    let q = a / b;
    let rem = a % b;
    if rem > b - rem || (rem == b - rem && q % 2 == 1) {
        q + 1
    } else {
        q
    }
}

/// Append the text of the double nearest to `n / d` with four fraction
/// digits (see `fixed4_text`).
pub fn push_fixed4(buf: &mut Vec<u8>, n: u64, d: u64)
    requires
        n < 0x100_0000_0000,
        d <= u32::MAX,
    ensures
        final(buf)@ == old(buf)@ + fixed4_text(n as nat, d as nat),
{
    reveal(fixed4_text);
    if d == 0 {
        if n == 0 {
            push_str(buf, "NaN");
        } else {
            push_str(buf, "inf");
        }
        return ;
    }
    if n == 0 {
        push_str(buf, "0.0000");
        return ;
    }
    proof {
        lemma2_to64();
        lemma2_to64_rest();
    }
    let limit: u128 = 4503599627370496u128 * d as u128;
    let mut scaled: u128 = n as u128;
    let mut pk: u128 = 1;
    let mut k: u32 = 0;
    while scaled < limit
        invariant
            0 < n < 0x100_0000_0000,
            0 < d <= u32::MAX,
            limit == pow2(52) * d,
            pow2(52) == 4503599627370496,
            pk == pow2(k as nat),
            scaled == n * pk,
            pk <= scaled,
            scaled < 2 * limit + 0x100_0000_0000,
            k <= 100,
            f64_shift(n as nat, d as nat, 0) == f64_shift(n as nat, d as nat, k as nat),
        decreases 100 - k,
    {
        proof {
            lemma_pow2_unfold((k + 1) as nat);
            assert(pk <= scaled);
            assert(pow2(52) * d <= 4503599627370496 * 0xFFFF_FFFF) by (nonlinear_arith)
                requires
                    d <= 0xFFFF_FFFF,
                    pow2(52) == 4503599627370496,
            ;
            if k >= 90 {
                lemma_pow2_mono(90, k as nat);
                lemma_pow2_adds(64, 26);
                lemma2_to64();
                lemma2_to64_rest();
                assert(false);
            }
        }
        scaled = scaled * 2;
        pk = pk * 2;
        k = k + 1;
        proof {
            assert(scaled == n * pk) by (nonlinear_arith)
                requires
                    scaled == 2 * (n * (pk / 2)),
                    pk % 2 == 0,
            ;
        }
    }
    let m = div_round_even_exec(scaled, d as u128);
    proof {
        assert(m <= scaled + 1) by (nonlinear_arith)
            requires
                m <= (scaled as int) / (d as int) + 1,
                d >= 1,
        ;
    }
    let r = div_round_even_exec(m * 10000, pk);
    proof {
        assert(r <= n * 10000 + 10001) by (nonlinear_arith)
            requires
                r <= (m * 10000) / (pk as int) + 1,
                m <= n * pk + 1,
                pk >= 1,
        ;
    }
    push_decimal_bytes(buf, (r / 10000) as u64);
    push_str(buf, ".");
    let f = r % 10000;
    buf.push(48u8 + (f / 1000) as u8);
    buf.push(48u8 + (f / 100 % 10) as u8);
    buf.push(48u8 + (f / 10 % 10) as u8);
    buf.push(48u8 + (f % 10) as u8);
}


/// The zlib stream (RFC 1950) that flate2's `ZlibEncoder` writes for
/// `data` at `Compression::default()`.
pub uninterp spec fn zlib_of(data: Seq<u8>) -> Seq<u8>;

/// Compress `data` with `flate2::write::ZlibEncoder` at
/// `Compression::default()` into a `Vec`. Not proved here: the contract
/// names the result `zlib_of(data)`, the encoder's output for the input;
/// writing into a `Vec` does not fail, so the unwraps do not panic.
#[verifier::external_body]
fn zlib_compress(data: &[u8]) -> (r: Vec<u8>)
    ensures
        r@ == zlib_of(data@),
{
    let mut e = flate2::write::ZlibEncoder::new(Vec::new(), flate2::Compression::default());
    std::io::Write::write_all(&mut e, data).unwrap();
    e.finish().unwrap()
}

/// Options of the PDF writer.
#[derive(Debug, Clone)]
pub struct PdfOptions {
    /// Add each page's preview thumbnail, when it has one, as a page of
    /// its own right after the page.
    pub include_previews: bool,
}

impl Default for PdfOptions {
    fn default() -> (r: Self)
        ensures
            r.include_previews,
    {
        PdfOptions { include_previews: true }
    }
}

/// One image page of the PDF.
pub struct PdfImage {
    /// Packed 1-bit rows, 1 is black.
    pub bitmap: Seq<u8>,
    /// Width in pixels.
    pub width: u32,
    /// Height in pixels.
    pub height: u32,
    /// Horizontal resolution.
    pub dpi_x: u32,
    /// Vertical resolution.
    pub dpi_y: u32,
    /// Bytes per row.
    pub row_bytes: u32,
}

/// The image pages of one decoded page: its main image, then its
/// preview when previews are wanted and it has one.
pub open spec fn page_images(p: Page, include_previews: bool) -> Seq<PdfImage> {
    let main = PdfImage {
        bitmap: p.bitmap@,
        width: p.width,
        height: p.height,
        dpi_x: p.dpi_x,
        dpi_y: p.dpi_y,
        row_bytes: p.row_bytes,
    };
    match p.preview {
        Some(pv) if include_previews => seq![
            main,
            PdfImage {
                bitmap: pv.bitmap@,
                width: pv.width,
                height: pv.height,
                dpi_x: p.dpi_x,
                dpi_y: p.dpi_y,
                row_bytes: pv.row_bytes,
            },
        ],
        _ => seq![main],
    }
}

/// The image pages of all decoded pages, in order.
pub open spec fn all_images(pages: Seq<Page>, include_previews: bool) -> Seq<PdfImage>
    decreases pages.len(),
{
    if pages.len() == 0 {
        Seq::empty()
    } else {
        all_images(pages.drop_last(), include_previews) + page_images(pages.last(), include_previews)
    }
}

/// The image XObject of an image page: `row_bytes * 8` pixels wide, the
/// bitmap zlib-compressed, palette white/black.
#[verifier::opaque]
pub open spec fn image_object(img: PdfImage) -> Seq<u8> {
    let z = zlib_of(img.bitmap);
    "<< /Type /XObject /Subtype /Image /Width ".spec_bytes() + dec_bytes((img.row_bytes * 8) as nat)
        + " /Height ".spec_bytes() + dec_bytes(img.height as nat)
        + " /BitsPerComponent 1 /ColorSpace [/Indexed /DeviceGray 1 <FF00>] /Filter /FlateDecode /Length ".spec_bytes()
        + dec_bytes(z.len()) + " >>\nstream\n".spec_bytes() + z + "\nendstream".spec_bytes()
}

/// The content stream that scales the image to the page.
#[verifier::opaque]
pub open spec fn content_text(img: PdfImage) -> Seq<u8> {
    "q\n".spec_bytes() + fixed4_text((img.row_bytes * 8 * 72) as nat, img.dpi_x as nat)
        + " 0 0 ".spec_bytes() + fixed4_text((img.height * 72) as nat, img.dpi_y as nat)
        + " 0 0 cm\n/Im0 Do\nQ\n".spec_bytes()
}

/// The content stream object of an image page.
#[verifier::opaque]
pub open spec fn content_object(img: PdfImage) -> Seq<u8> {
    "<< /Length ".spec_bytes() + dec_bytes(content_text(img).len()) + " >>\nstream\n".spec_bytes()
        + content_text(img) + "endstream".spec_bytes()
}

/// The page object of an image page whose image object has id `img_id`
/// (its content stream follows it), under the page tree `parent`.
#[verifier::opaque]
pub open spec fn page_object(img: PdfImage, img_id: nat, parent: nat) -> Seq<u8> {
    "<< /Type /Page /Parent ".spec_bytes() + dec_bytes(parent) + " 0 R /MediaBox [0 0 ".spec_bytes()
        + fixed4_text((img.width * 72) as nat, img.dpi_x as nat) + " ".spec_bytes() + fixed4_text(
        (img.height * 72) as nat,
        img.dpi_y as nat,
    ) + "] /Contents ".spec_bytes() + dec_bytes(img_id + 1)
        + " 0 R /Resources << /XObject << /Im0 ".spec_bytes() + dec_bytes(img_id)
        + " 0 R >> /ProcSet [/PDF /ImageB] >> >>".spec_bytes()
}

/// The three objects of each image page, from object id 1 on.
pub open spec fn image_objects(imgs: Seq<PdfImage>, parent: nat) -> Seq<Seq<u8>>
    decreases imgs.len(),
{
    if imgs.len() == 0 {
        Seq::empty()
    } else {
        let j = imgs.len() - 1;
        image_objects(imgs.drop_last(), parent) + seq![
            image_object(imgs.last()),
            content_object(imgs.last()),
            page_object(imgs.last(), (3 * j + 1) as nat, parent),
        ]
    }
}

/// The kids of the page tree: `3 0 R 6 0 R ...` for `count` pages.
pub open spec fn kids(count: nat) -> Seq<u8>
    decreases count,
{
    if count == 0 {
        Seq::empty()
    } else if count == 1 {
        dec_bytes(3) + " 0 R".spec_bytes()
    } else {
        kids((count - 1) as nat) + " ".spec_bytes() + dec_bytes(3 * count) + " 0 R".spec_bytes()
    }
}

/// The page tree object.
pub open spec fn pages_object(count: nat) -> Seq<u8> {
    "<< /Type /Pages /Count ".spec_bytes() + dec_bytes(count) + " /Kids [".spec_bytes() + kids(count)
        + "] >>".spec_bytes()
}

/// The catalog object.
pub open spec fn catalog_object(pages_id: nat) -> Seq<u8> {
    "<< /Type /Catalog /Pages ".spec_bytes() + dec_bytes(pages_id) + " 0 R >>".spec_bytes()
}

/// All objects of the PDF, indexed by object id (id 0 is unused).
pub open spec fn pdf_objects(imgs: Seq<PdfImage>) -> Seq<Seq<u8>> {
    let n = imgs.len();
    seq![Seq::<u8>::empty()] + image_objects(imgs, (3 * n + 1) as nat) + seq![
        pages_object(n),
        catalog_object((3 * n + 1) as nat),
    ]
}

/// The file header (with a binary comment line).
pub open spec fn pdf_header() -> Seq<u8> {
    "%PDF-1.4\n%".spec_bytes() + seq![0xe2u8, 0xe3u8, 0xcfu8, 0xd3u8, 0x0au8]
}

/// Object `i` as it stands in the file.
pub open spec fn object_block(i: nat, obj: Seq<u8>) -> Seq<u8> {
    dec_bytes(i) + " 0 obj\n".spec_bytes() + obj + "\nendobj\n".spec_bytes()
}

/// Objects `1..i` as they stand in the file.
pub open spec fn body(objs: Seq<Seq<u8>>, i: int) -> Seq<u8>
    decreases i,
{
    if i <= 1 {
        Seq::empty()
    } else {
        body(objs, i - 1) + object_block((i - 1) as nat, objs[i - 1])
    }
}

/// `v` in decimal, left-padded with zeros to at least ten digits.
pub open spec fn pad10(v: nat) -> Seq<u8> {
    let d = dec_bytes(v);
    if d.len() < 10 {
        Seq::new((10 - d.len()) as nat, |i: int| 0x30u8) + d
    } else {
        d
    }
}

/// The cross-reference entries of objects `1..i`.
pub open spec fn xref_lines(objs: Seq<Seq<u8>>, i: int) -> Seq<u8>
    decreases i,
{
    if i <= 1 {
        Seq::empty()
    } else {
        xref_lines(objs, i - 1) + pad10((pdf_header().len() + body(objs, i - 1).len()) as nat)
            + " 00000 n \n".spec_bytes()
    }
}

/// The PDF file of `objs`; the last object is the catalog.
pub open spec fn pdf_file(objs: Seq<Seq<u8>>) -> Seq<u8> {
    let n = objs.len();
    let b = pdf_header() + body(objs, n as int);
    b + "xref\n0 ".spec_bytes() + dec_bytes(n) + "\n0000000000 65535 f \n".spec_bytes() + xref_lines(
        objs,
        n as int,
    ) + "trailer\n<< /Size ".spec_bytes() + dec_bytes(n) + " /Root ".spec_bytes() + dec_bytes(
        (n - 1) as nat,
    ) + " 0 R >>\nstartxref\n".spec_bytes() + dec_bytes(b.len()) + "\n%%EOF\n".spec_bytes()
}

proof fn lemma_body_prefix(objs: Seq<Seq<u8>>, i: int, j: int)
    requires
        1 <= i <= j,
    ensures
        body(objs, i).len() <= body(objs, j).len(),
        body(objs, j).take(body(objs, i).len() as int) == body(objs, i),
    decreases j - i,
{
    if i < j {
        lemma_body_prefix(objs, i, j - 1);
        let a = body(objs, i);
        let b = body(objs, j - 1);
        assert(body(objs, j) == b + object_block((j - 1) as nat, objs[j - 1]));
        assert(body(objs, j).take(a.len() as int) =~= b.take(a.len() as int));
    } else {
        assert(body(objs, j).take(body(objs, i).len() as int) =~= body(objs, i));
    }
}

/// The cross-reference table points at the objects: object `i` begins,
/// with its `i 0 obj` line, at the byte offset its entry records.
pub proof fn lemma_xref_offsets(objs: Seq<Seq<u8>>, i: int)
    requires
        1 <= i < objs.len(),
    ensures
        ({
            let off = pdf_header().len() + body(objs, i).len();
            let blk = object_block(i as nat, objs[i]);
            pdf_file(objs).subrange(off as int, (off + blk.len()) as int) == blk
        }),
{
    let n = objs.len() as int;
    let off = pdf_header().len() + body(objs, i).len();
    let blk = object_block(i as nat, objs[i]);
    lemma_body_prefix(objs, i + 1, n);
    let bn = body(objs, n);
    let bi1 = body(objs, i + 1);
    assert(bi1 == body(objs, i) + blk);
    let file = pdf_file(objs);
    let b = pdf_header() + bn;
    assert(file.subrange(0, b.len() as int) =~= b);
    assert(b.subrange(off as int, (off + blk.len()) as int) =~= bn.subrange(
        body(objs, i).len() as int,
        bi1.len() as int,
    ));
    assert(bn.subrange(body(objs, i).len() as int, bi1.len() as int) =~= bi1.subrange(
        body(objs, i).len() as int,
        bi1.len() as int,
    ));
    assert(bi1.subrange(body(objs, i).len() as int, bi1.len() as int) =~= blk);
    assert(file.subrange(off as int, (off + blk.len()) as int) =~= b.subrange(off as int, (off + blk.len()) as int));
}

proof fn lemma_image_objects_index(imgs: Seq<PdfImage>, parent: nat, j: int)
    requires
        0 <= j < imgs.len(),
    ensures
        image_objects(imgs, parent).len() == 3 * imgs.len(),
        image_objects(imgs, parent)[3 * j] == image_object(imgs[j]),
        image_objects(imgs, parent)[3 * j + 1] == content_object(imgs[j]),
        image_objects(imgs, parent)[3 * j + 2] == page_object(imgs[j], (3 * j + 1) as nat, parent),
    decreases imgs.len(),
{
    let k = imgs.len() - 1;
    lemma_image_objects_len(imgs.drop_last(), parent);
    lemma_image_objects_len(imgs, parent);
    if j < k {
        lemma_image_objects_index(imgs.drop_last(), parent, j);
        assert(imgs.drop_last()[j] == imgs[j]);
    }
}

/// The number of decoded pages that carry a preview.
pub open spec fn preview_count(pages: Seq<Page>) -> nat
    decreases pages.len(),
{
    if pages.len() == 0 {
        0
    } else {
        preview_count(pages.drop_last()) + if pages.last().preview is Some { 1nat } else { 0nat }
    }
}

/// One image page per decoded page, and one more per preview when
/// previews are wanted.
pub proof fn lemma_all_images_count(pages: Seq<Page>, include_previews: bool)
    ensures
        all_images(pages, include_previews).len() == pages.len() + if include_previews {
            preview_count(pages)
        } else {
            0
        },
    decreases pages.len(),
{
    if pages.len() > 0 {
        lemma_all_images_count(pages.drop_last(), include_previews);
    }
}

/// The layout of the object list: for `n` image pages, object `3j + 1` is
/// the `j`-th image, `3j + 2` its content stream and `3j + 3` its page,
/// whose parent is the page tree `3n + 1`; the page tree lists the `n`
/// pages (`/Count n`, kids `3 6 ... 3n`); the last object, which the
/// trailer names as `/Root`, is the catalog pointing at the page tree.
pub proof fn lemma_pdf_objects_layout(imgs: Seq<PdfImage>)
    ensures
        ({
            let n = imgs.len();
            let o = pdf_objects(imgs);
            &&& o.len() == 3 * n + 3
            &&& o[(3 * n + 1) as int] == pages_object(n)
            &&& o[(3 * n + 2) as int] == catalog_object((3 * n + 1) as nat)
            &&& forall|j: int|
                0 <= j < n ==> {
                    &&& #[trigger] o[3 * j + 1] == image_object(imgs[j])
                    &&& o[3 * j + 2] == content_object(imgs[j])
                    &&& o[3 * j + 3] == page_object(imgs[j], (3 * j + 1) as nat, (3 * n + 1) as nat)
                }
        }),
{
    let n = imgs.len();
    let parent = (3 * n + 1) as nat;
    let io = image_objects(imgs, parent);
    lemma_image_objects_len(imgs, parent);
    let o = pdf_objects(imgs);
    assert(o == seq![Seq::<u8>::empty()] + io + seq![pages_object(n), catalog_object(parent)]);
    assert forall|j: int| 0 <= j < n implies {
        &&& #[trigger] o[3 * j + 1] == image_object(imgs[j])
        &&& o[3 * j + 2] == content_object(imgs[j])
        &&& o[3 * j + 3] == page_object(imgs[j], (3 * j + 1) as nat, parent)
    } by {
        lemma_image_objects_index(imgs, parent, j);
    }
}

/// The colour space of a page image: a two-entry gray palette in which
/// index 0 (a 0 bit) is gray `FF`, white, and index 1 (a 1 bit) is gray
/// `00`, black, matching the bitmaps' convention that a 1 bit is black.
pub open spec fn black_on_white_palette() -> Seq<u8> {
    "/ColorSpace [/Indexed /DeviceGray 1 <FF00>]".spec_bytes()
}

/// Every image object of the PDF declares the black-on-white palette: its
/// bytes contain `/ColorSpace [/Indexed /DeviceGray 1 <FF00>]`.
pub proof fn lemma_image_object_palette(img: PdfImage)
    ensures
        exists|k: int|
            0 <= k && k + black_on_white_palette().len() <= image_object(img).len()
                && #[trigger] image_object(img).subrange(k, k + black_on_white_palette().len())
                == black_on_white_palette(),
{
    reveal(image_object);
    let z = zlib_of(img.bitmap);
    let a = "<< /Type /XObject /Subtype /Image /Width ".spec_bytes() + dec_bytes((img.row_bytes * 8) as nat)
        + " /Height ".spec_bytes() + dec_bytes(img.height as nat);
    let l_str = " /BitsPerComponent 1 /ColorSpace [/Indexed /DeviceGray 1 <FF00>] /Filter /FlateDecode /Length ";
    let p_str = "/ColorSpace [/Indexed /DeviceGray 1 <FF00>]";
    let l = l_str.spec_bytes();
    let rest = dec_bytes(z.len()) + " >>\nstream\n".spec_bytes() + z + "\nendstream".spec_bytes();
    reveal_strlit(" /BitsPerComponent 1 /ColorSpace [/Indexed /DeviceGray 1 <FF00>] /Filter /FlateDecode /Length ");
    reveal_strlit("/ColorSpace [/Indexed /DeviceGray 1 <FF00>]");
    vstd::string::is_ascii_spec_bytes(l_str);
    vstd::string::is_ascii_spec_bytes(p_str);
    let p = black_on_white_palette();
    assert(l.subrange(21, 64) =~= p);
    let obj = image_object(img);
    assert(obj == a + l + rest);
    let k = a.len() as int + 21;
    assert(obj.subrange(k, k + 43) =~= l.subrange(21, 64));
    assert(obj.subrange(k, k + p.len()) == p);
}

/// The byte views of `objs`.
pub open spec fn views(objs: Seq<Vec<u8>>) -> Seq<Seq<u8>> {
    objs.map_values(|o: Vec<u8>| o@)
}

/// An image page whose sizes the writer can print.
pub open spec fn image_fits(img: PdfImage) -> bool {
    img.row_bytes * 8 <= u32::MAX
}


/// Append `src` to `buf`.
fn push_bytes(buf: &mut Vec<u8>, src: &[u8])
    ensures
        final(buf)@ == old(buf)@ + src@,
{
    let ghost b0 = buf@;
    let mut i: usize = 0;
    while i < src.len()
        invariant
            i <= src@.len(),
            buf@ == b0 + src@.take(i as int),
        decreases src@.len() - i,
    {
        buf.push(src[i]);
        i += 1;
        proof {
            assert(src@.take(i as int) =~= src@.take(i - 1).push(src@[i - 1]));
        }
    }
    proof {
        assert(src@.take(i as int) =~= src@);
    }
}

/// Append `v` in decimal, left-padded with zeros to ten digits.
fn push_pad10(buf: &mut Vec<u8>, v: u64)
    ensures
        final(buf)@ == old(buf)@ + pad10(v as nat),
{
    let mut digits: Vec<u8> = Vec::new();
    push_decimal_bytes(&mut digits, v);
    proof {
        assert(digits@ =~= dec_bytes(v as nat));
    }
    let ghost b0 = buf@;
    if digits.len() < 10 {
        let pad = 10 - digits.len();
        let mut i: usize = 0;
        while i < pad
            invariant
                i <= pad,
                buf@ == b0 + Seq::new(i as nat, |k: int| 0x30u8),
            decreases pad - i,
        {
            buf.push(0x30u8);
            i += 1;
            proof {
                assert(buf@ =~= b0 + Seq::new(i as nat, |k: int| 0x30u8));
            }
        }
    }
    push_bytes(buf, digits.as_slice());
    proof {
        assert(buf@ =~= b0 + pad10(v as nat));
    }
}

/// Append `obj` as the next object; its id is the old object count.
fn emit(obj: Vec<u8>, objects: &mut Vec<Vec<u8>>) -> (id: usize)
    ensures
        views(final(objects)@) == views(old(objects)@).push(obj@),
        final(objects)@.len() == old(objects)@.len() + 1,
        id == old(objects)@.len(),
{
    let id = objects.len();
    let ghost o = obj@;
    objects.push(obj);
    proof {
        assert(views(objects@) =~= views(old(objects)@).push(o));
    }
    id
}

fn image_object_bytes(raw: &[u8], height: u32, row_bytes: u32) -> (r: Vec<u8>)
    requires
        row_bytes * 8 <= u32::MAX,
    ensures
        forall|width: u32, dpi_x: u32, dpi_y: u32|
            r@ == #[trigger] image_object(
                PdfImage { bitmap: raw@, width, height, dpi_x, dpi_y, row_bytes },
            ),
{
    reveal(image_object);
    let compressed = zlib_compress(raw);
    let mut img_dict: Vec<u8> = Vec::new();
    push_str(&mut img_dict, "<< /Type /XObject /Subtype /Image /Width ");
    push_decimal_bytes(&mut img_dict, (row_bytes * 8) as u64);
    push_str(&mut img_dict, " /Height ");
    push_decimal_bytes(&mut img_dict, height as u64);
    push_str(
        &mut img_dict,
        " /BitsPerComponent 1 /ColorSpace [/Indexed /DeviceGray 1 <FF00>] /Filter /FlateDecode /Length ",
    );
    push_decimal_bytes(&mut img_dict, compressed.len() as u64);
    push_str(&mut img_dict, " >>\nstream\n");
    push_bytes(&mut img_dict, compressed.as_slice());
    push_str(&mut img_dict, "\nendstream");
    proof {
        assert forall|width: u32, dpi_x: u32, dpi_y: u32|
            img_dict@ == #[trigger] image_object(
                PdfImage { bitmap: raw@, width, height, dpi_x, dpi_y, row_bytes },
            ) by {
            assert(img_dict@ =~= image_object(
                PdfImage { bitmap: raw@, width, height, dpi_x, dpi_y, row_bytes },
            ));
        }
    }
    img_dict
}

fn content_object_bytes(img: Ghost<PdfImage>, height: u32, dpi_x: u32, dpi_y: u32, row_bytes: u32) -> (r: Vec<u8>)
    requires
        row_bytes * 8 <= u32::MAX,
        img@.height == height,
        img@.dpi_x == dpi_x,
        img@.dpi_y == dpi_y,
        img@.row_bytes == row_bytes,
    ensures
        r@ == content_object(img@),
{
    reveal(content_object);
    reveal(content_text);
    let mut content_str: Vec<u8> = Vec::new();
    push_str(&mut content_str, "q\n");
    push_fixed4(&mut content_str, (row_bytes * 8) as u64 * 72, dpi_x as u64);
    push_str(&mut content_str, " 0 0 ");
    push_fixed4(&mut content_str, height as u64 * 72, dpi_y as u64);
    push_str(&mut content_str, " 0 0 cm\n/Im0 Do\nQ\n");
    proof {
        assert(content_str@ =~= content_text(img@));
    }
    let mut content: Vec<u8> = Vec::new();
    push_str(&mut content, "<< /Length ");
    push_decimal_bytes(&mut content, content_str.len() as u64);
    push_str(&mut content, " >>\nstream\n");
    push_bytes(&mut content, content_str.as_slice());
    push_str(&mut content, "endstream");
    proof {
        assert(content@ =~= content_object(img@));
    }
    content
}

fn page_object_bytes(
    img: Ghost<PdfImage>,
    width: u32,
    height: u32,
    dpi_x: u32,
    dpi_y: u32,
    img_id: usize,
    parent: u64,
) -> (r: Vec<u8>)
    requires
        img@.width == width,
        img@.height == height,
        img@.dpi_x == dpi_x,
        img@.dpi_y == dpi_y,
        img_id + 1 <= usize::MAX,
    ensures
        r@ == page_object(img@, img_id as nat, parent as nat),
{
    reveal(page_object);
    let mut page_obj: Vec<u8> = Vec::new();
    push_str(&mut page_obj, "<< /Type /Page /Parent ");
    push_decimal_bytes(&mut page_obj, parent);
    push_str(&mut page_obj, " 0 R /MediaBox [0 0 ");
    push_fixed4(&mut page_obj, width as u64 * 72, dpi_x as u64);
    push_str(&mut page_obj, " ");
    push_fixed4(&mut page_obj, height as u64 * 72, dpi_y as u64);
    push_str(&mut page_obj, "] /Contents ");
    push_decimal_bytes(&mut page_obj, (img_id + 1) as u64);
    push_str(&mut page_obj, " 0 R /Resources << /XObject << /Im0 ");
    push_decimal_bytes(&mut page_obj, img_id as u64);
    push_str(&mut page_obj, " 0 R >> /ProcSet [/PDF /ImageB] >> >>");
    proof {
        assert(page_obj@ =~= page_object(img@, img_id as nat, parent as nat));
    }
    page_obj
}

/// Append the image, content and page objects of one image page; the
/// page object's parent is the page tree `parent`. Returns the page
/// object's id.
fn emit_page_for_bitmap(
    raw: &[u8],
    width: u32,
    height: u32,
    dpi_x: u32,
    dpi_y: u32,
    row_bytes: u32,
    parent: u64,
    objects: &mut Vec<Vec<u8>>,
) -> (id: usize)
    requires
        row_bytes * 8 <= u32::MAX,
        old(objects)@.len() + 3 <= usize::MAX,
    ensures
        ({
            let img = PdfImage { bitmap: raw@, width, height, dpi_x, dpi_y, row_bytes };
            views(final(objects)@) == views(old(objects)@) + seq![
                image_object(img),
                content_object(img),
                page_object(img, old(objects)@.len() as nat, parent as nat),
            ]
        }),
        id == old(objects)@.len() + 2,
        final(objects)@.len() == old(objects)@.len() + 3,
{
    let ghost img = PdfImage { bitmap: raw@, width, height, dpi_x, dpi_y, row_bytes };
    let ghost v0 = views(objects@);
    let img_dict = image_object_bytes(raw, height, row_bytes);
    proof {
        assert(img_dict@ == image_object(img));
    }
    let img_id = emit(img_dict, objects);
    let content = content_object_bytes(Ghost(img), height, dpi_x, dpi_y, row_bytes);
    emit(content, objects);
    let page_obj = page_object_bytes(Ghost(img), width, height, dpi_x, dpi_y, img_id, parent);
    let id = emit(page_obj, objects);
    proof {
        assert(views(objects@) =~= v0 + seq![
            image_object(img),
            content_object(img),
            page_object(img, img_id as nat, parent as nat),
        ]);
    }
    id
}

/// Append the objects of a preview page, at the resolution of its page.
fn emit_page_for_preview(prev: &Preview, dpi_x: u32, dpi_y: u32, parent: u64, objects: &mut Vec<Vec<u8>>) -> (id: usize)
    requires
        prev.row_bytes * 8 <= u32::MAX,
        old(objects)@.len() + 3 <= usize::MAX,
    ensures
        ({
            let img = PdfImage {
                bitmap: prev.bitmap@,
                width: prev.width,
                height: prev.height,
                dpi_x,
                dpi_y,
                row_bytes: prev.row_bytes,
            };
            views(final(objects)@) == views(old(objects)@) + seq![
                image_object(img),
                content_object(img),
                page_object(img, old(objects)@.len() as nat, parent as nat),
            ]
        }),
        id == old(objects)@.len() + 2,
        final(objects)@.len() == old(objects)@.len() + 3,
{
    emit_page_for_bitmap(
        prev.bitmap.as_slice(),
        prev.width,
        prev.height,
        dpi_x,
        dpi_y,
        prev.row_bytes,
        parent,
        objects,
    )
}


proof fn lemma_all_images_step(pages: Seq<Page>, i: int, include_previews: bool)
    requires
        0 <= i < pages.len(),
    ensures
        all_images(pages.take(i + 1), include_previews) == all_images(pages.take(i), include_previews)
            + page_images(pages[i], include_previews),
{
    assert(pages.take(i + 1).drop_last() =~= pages.take(i));
}

proof fn lemma_image_objects_push(imgs: Seq<PdfImage>, img: PdfImage, parent: nat)
    ensures
        image_objects(imgs.push(img), parent) == image_objects(imgs, parent) + seq![
            image_object(img),
            content_object(img),
            page_object(img, (3 * imgs.len() + 1) as nat, parent),
        ],
{
    assert(imgs.push(img).drop_last() =~= imgs);
}

proof fn lemma_image_objects_len(imgs: Seq<PdfImage>, parent: nat)
    ensures
        image_objects(imgs, parent).len() == 3 * imgs.len(),
    decreases imgs.len(),
{
    if imgs.len() > 0 {
        lemma_image_objects_len(imgs.drop_last(), parent);
    }
}

/// Whether the writer can print every page of `pages`: row widths in
/// bits fit in a `u32`.
pub open spec fn pages_fit(pages: Seq<Page>) -> bool {
    forall|i: int|
        0 <= i < pages.len() ==> #[trigger] pages[i].row_bytes * 8 <= u32::MAX && (
        pages[i].preview matches Some(pv) ==> pv.row_bytes * 8 <= u32::MAX)
}

fn pages_object_bytes(count: usize) -> (r: Vec<u8>)
    requires
        count <= u64::MAX / 4,
    ensures
        r@ == pages_object(count as nat),
{
    let mut po: Vec<u8> = Vec::new();
    push_str(&mut po, "<< /Type /Pages /Count ");
    push_decimal_bytes(&mut po, count as u64);
    push_str(&mut po, " /Kids [");
    let ghost prefix = po@;
    let mut j: usize = 0;
    while j < count
        invariant
            count <= u64::MAX / 4,
            j <= count,
            po@ == prefix + kids(j as nat),
        decreases count - j,
    {
        if j > 0 {
            push_str(&mut po, " ");
        }
        push_decimal_bytes(&mut po, 3 * (j as u64) + 3);
        push_str(&mut po, " 0 R");
        j += 1;
        proof {
            assert(po@ =~= prefix + kids(j as nat));
        }
    }
    push_str(&mut po, "] >>");
    proof {
        assert(po@ =~= pages_object(count as nat));
    }
    po
}

/// Lay out the objects as a PDF file: header, numbered objects,
/// cross-reference table and trailer; the last object is the catalog.
fn assemble(objects: &Vec<Vec<u8>>) -> (r: Vec<u8>)
    requires
        1 <= objects@.len(),
    ensures
        r@ == pdf_file(views(objects@)),
{
    let ghost objs = views(objects@);
    let mut buf: Vec<u8> = Vec::new();
    push_str(&mut buf, "%PDF-1.4\n%");
    buf.push(0xe2u8);
    buf.push(0xe3u8);
    buf.push(0xcfu8);
    buf.push(0xd3u8);
    buf.push(0x0au8);
    proof {
        assert(buf@ =~= pdf_header());
    }
    let mut offsets: Vec<usize> = Vec::new();
    let n = objects.len();
    let mut i: usize = 1;
    while i < n
        invariant
            n == objects@.len(),
            objs == views(objects@),
            1 <= i <= n,
            buf@ == pdf_header() + body(objs, i as int),
            offsets@.len() == i - 1,
            forall|k: int|
                0 <= k < offsets@.len() ==> #[trigger] offsets@[k] == pdf_header().len() + body(
                    objs,
                    k + 1,
                ).len(),
        decreases n - i,
    {
        offsets.push(buf.len());
        push_decimal_bytes(&mut buf, i as u64);
        push_str(&mut buf, " 0 obj\n");
        push_bytes(&mut buf, objects[i].as_slice());
        push_str(&mut buf, "\nendobj\n");
        proof {
            assert(objs[i as int] == objects@[i as int]@);
            assert(buf@ =~= pdf_header() + body(objs, i + 1));
        }
        i += 1;
    }
    let xref_pos = buf.len();
    let ghost b = buf@;
    push_str(&mut buf, "xref\n0 ");
    push_decimal_bytes(&mut buf, n as u64);
    push_str(&mut buf, "\n0000000000 65535 f \n");
    let ghost x0 = buf@;
    let mut k: usize = 0;
    while k < offsets.len()
        invariant
            n == objects@.len(),
            objs == views(objects@),
            offsets@.len() == n - 1,
            forall|q: int|
                0 <= q < offsets@.len() ==> #[trigger] offsets@[q] == pdf_header().len() + body(
                    objs,
                    q + 1,
                ).len(),
            k <= offsets@.len(),
            buf@ == x0 + xref_lines(objs, k + 1),
        decreases offsets@.len() - k,
    {
        push_pad10(&mut buf, offsets[k] as u64);
        push_str(&mut buf, " 00000 n \n");
        k += 1;
        proof {
            assert(buf@ =~= x0 + xref_lines(objs, k + 1));
        }
    }
    push_str(&mut buf, "trailer\n<< /Size ");
    push_decimal_bytes(&mut buf, n as u64);
    push_str(&mut buf, " /Root ");
    push_decimal_bytes(&mut buf, (n - 1) as u64);
    push_str(&mut buf, " 0 R >>\nstartxref\n");
    push_decimal_bytes(&mut buf, xref_pos as u64);
    push_str(&mut buf, "\n%%EOF\n");
    proof {
        assert(objs.len() == n);
        assert(buf@ =~= pdf_file(objs));
    }
    buf
}

/// Append the objects of the image pages of one decoded page.
fn emit_page(p: &Page, with_previews: bool, parent: u64, objects: &mut Vec<Vec<u8>>, Ghost(done): Ghost<Seq<PdfImage>>)
    requires
        p.row_bytes * 8 <= u32::MAX,
        p.preview matches Some(pv) ==> pv.row_bytes * 8 <= u32::MAX,
        views(old(objects)@) == seq![Seq::<u8>::empty()] + image_objects(done, parent as nat),
        old(objects)@.len() + 6 <= usize::MAX,
    ensures
        views(final(objects)@) == seq![Seq::<u8>::empty()] + image_objects(
            done + page_images(*p, with_previews),
            parent as nat,
        ),
        final(objects)@.len() == old(objects)@.len() + 3 * page_images(*p, with_previews).len(),
{
    proof {
        lemma_image_objects_len(done, parent as nat);
    }
    emit_page_for_bitmap(
        p.bitmap.as_slice(),
        p.width,
        p.height,
        p.dpi_x,
        p.dpi_y,
        p.row_bytes,
        parent,
        objects,
    );
    let ghost main = PdfImage {
        bitmap: p.bitmap@,
        width: p.width,
        height: p.height,
        dpi_x: p.dpi_x,
        dpi_y: p.dpi_y,
        row_bytes: p.row_bytes,
    };
    proof {
        lemma_image_objects_push(done, main, parent as nat);
    }
    if with_previews {
        match &p.preview {
            Some(prev) => {
                emit_page_for_preview(prev, p.dpi_x, p.dpi_y, parent, objects);
                proof {
                    let pimg = PdfImage {
                        bitmap: prev.bitmap@,
                        width: prev.width,
                        height: prev.height,
                        dpi_x: p.dpi_x,
                        dpi_y: p.dpi_y,
                        row_bytes: prev.row_bytes,
                    };
                    lemma_image_objects_push(done.push(main), pimg, parent as nat);
                    assert(page_images(*p, with_previews) =~= seq![main, pimg]);
                    assert(done + seq![main, pimg] =~= done.push(main).push(pimg));
                }
            },
            None => {
                proof {
                    assert(done + seq![main] =~= done.push(main));
                }
            },
        }
    } else {
        proof {
            assert(done + seq![main] =~= done.push(main));
        }
    }
}

/// Build the PDF of `pages`: for each page its main image, then its
/// preview when `options.include_previews` and it has one.
pub fn write_pdf_bytes(pages: &[Page], options: &PdfOptions) -> (r: Vec<u8>)
    requires
        pages_fit(pages@),
        pages@.len() <= usize::MAX / 8,
    ensures
        r@ == pdf_file(pdf_objects(all_images(pages@, options.include_previews))),
{
    let with_previews = options.include_previews;
    let ghost imgs = all_images(pages@, with_previews);
    let mut count: usize = 0;
    let mut i: usize = 0;
    while i < pages.len()
        invariant
            pages@.len() <= usize::MAX / 8,
            i <= pages@.len(),
            count == all_images(pages@.take(i as int), with_previews).len(),
            count <= 2 * i,
        decreases pages@.len() - i,
    {
        proof {
            lemma_all_images_step(pages@, i as int, with_previews);
        }
        count += 1;
        if with_previews && pages[i].preview.is_some() {
            count += 1;
        }
        i += 1;
    }
    proof {
        assert(pages@.take(pages@.len() as int) =~= pages@);
    }
    let parent = 3 * (count as u64) + 1;
    let mut objects: Vec<Vec<u8>> = Vec::new();
    objects.push(Vec::new());
    proof {
        assert(views(objects@) =~= seq![Seq::<u8>::empty()]);
        assert(all_images(pages@.take(0), with_previews) =~= Seq::<PdfImage>::empty());
        assert(image_objects(Seq::<PdfImage>::empty(), parent as nat) =~= Seq::<Seq<u8>>::empty());
    }
    let mut i: usize = 0;
    while i < pages.len()
        invariant
            pages_fit(pages@),
            pages@.len() <= usize::MAX / 8,
            i <= pages@.len(),
            count == imgs.len(),
            imgs == all_images(pages@, with_previews),
            count <= 2 * pages@.len(),
            parent == 3 * count + 1,
            all_images(pages@.take(i as int), with_previews).len() <= 2 * i,
            objects@.len() == 1 + 3 * all_images(pages@.take(i as int), with_previews).len(),
            views(objects@) == seq![Seq::<u8>::empty()] + image_objects(
                all_images(pages@.take(i as int), with_previews),
                parent as nat,
            ),
        decreases pages@.len() - i,
    {
        let ghost done = all_images(pages@.take(i as int), with_previews);
        proof {
            lemma_all_images_step(pages@, i as int, with_previews);
            lemma_image_objects_len(done, parent as nat);
        }
        emit_page(&pages[i], with_previews, parent, &mut objects, Ghost(done));
        i += 1;
    }
    proof {
        assert(pages@.take(pages@.len() as int) =~= pages@);
    }
    let po = pages_object_bytes(count);
    emit(po, &mut objects);
    let mut catalog: Vec<u8> = Vec::new();
    push_str(&mut catalog, "<< /Type /Catalog /Pages ");
    push_decimal_bytes(&mut catalog, parent);
    push_str(&mut catalog, " 0 R >>");
    emit(catalog, &mut objects);
    proof {
        assert(views(objects@) =~= pdf_objects(imgs));
    }
    assemble(&objects)
}

} // verus!
