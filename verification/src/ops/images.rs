//! Images-inquiry responses, and fetched TIFF drawing pages turned into
//! greyscale PNG: bilevel pages unpacked to one byte per pixel, the page's
//! orientation applied.
use vstd::prelude::*;
use crate::ops::biblio::invalid_xml;
use crate::ops::error::OpsError;
use crate::ops::xml::{
    all_ids, all_node_ids, attr, attribute, nodes_view, parse_xml, tagged, tagged_exec, xml_tree, NodeModel, XmlNode,
};
use crate::text::{chars_of, parse_u32, parse_u32_exec, push_str, str_eq};

verus! {

broadcast use vstd::string::group_string_axioms;

#[derive(Debug, Clone, PartialEq, Eq)]
pub struct DocumentInstance {
    /// `FullDocument`, `Drawing` or `FirstPageClipping`.
    pub desc: String,
    /// The path (relative to the REST base) to fetch pages from.
    pub link: String,
    pub number_of_pages: u32,
}

pub open spec fn instance_view(i: DocumentInstance) -> (Seq<char>, Seq<char>, u32) {
    (i.desc@, i.link@, i.number_of_pages)
}

/// The document instances among `ids` that have a description, a link and
/// a page count.
pub open spec fn image_instances(nodes: Seq<NodeModel>, ids: Seq<int>) -> Seq<(Seq<char>, Seq<char>, u32)>
    decreases ids.len(),
{
    if ids.len() == 0 {
        Seq::empty()
    } else {
        let n = nodes[ids.last()];
        image_instances(nodes, ids.drop_last()) + match (attr(n, "desc"@), attr(n, "link"@), attr(n, "number-of-pages"@)) {
            (Some(d), Some(l), Some(p)) => match parse_u32(p) {
                Some(count) => seq![(d, l, count)],
                None => Seq::empty(),
            },
            _ => Seq::empty(),
        }
    }
}

pub open spec fn images_model(nodes: Seq<NodeModel>) -> Seq<(Seq<char>, Seq<char>, u32)> {
    image_instances(nodes, tagged(nodes, all_ids(nodes.len()), "document-instance"@))
}

/// The document instances of a parsed images-inquiry response.
pub fn instances(nodes: &[XmlNode]) -> (r: Vec<DocumentInstance>)
    ensures
        r@.map_values(|i: DocumentInstance| instance_view(i)) == images_model(nodes_view(nodes@)),
{
    let ghost nv = nodes_view(nodes@);
    let all = all_node_ids(nodes);
    let ids = tagged_exec(nodes, all.as_slice(), "document-instance");
    let ghost iv = ids@.map_values(|x: usize| x as int);
    let mut out: Vec<DocumentInstance> = Vec::new();
    let mut k: usize = 0;
    assert(iv.take(0) =~= Seq::<int>::empty());
    while k < ids.len()
        invariant
            k <= ids@.len(),
            nv == nodes_view(nodes@),
            iv == ids@.map_values(|x: usize| x as int),
            iv == tagged(nv, all_ids(nodes@.len() as nat), "document-instance"@),
            forall|q: int| 0 <= q < ids@.len() ==> #[trigger] ids@[q] < nodes@.len(),
            out@.map_values(|i: DocumentInstance| instance_view(i)) == image_instances(nv, iv.take(k as int)),
        decreases ids.len() - k,
    {
        assert(iv.take(k + 1).drop_last() =~= iv.take(k as int));
        assert(iv.take(k + 1).last() == ids@[k as int] as int);
        let n = &nodes[ids[k]];
        assert(nv[ids@[k as int] as int] == nodes@[ids@[k as int] as int]@);
        let ghost before = out@;
        match (attribute(n, "desc"), attribute(n, "link"), attribute(n, "number-of-pages")) {
            (Some(d), Some(l), Some(p)) => {
                let pc = chars_of(p);
                assert(pc@.subrange(0, pc@.len() as int) =~= pc@);
                match parse_u32_exec(pc.as_slice(), 0, pc.len()) {
                    Some(count) => {
                        out.push(DocumentInstance { desc: d.to_owned(), link: l.to_owned(), number_of_pages: count });
                    },
                    None => {},
                }
            },
            _ => {},
        }
        assert(out@.map_values(|i: DocumentInstance| instance_view(i)) =~= image_instances(nv, iv.take(k + 1))) by {
            assert(before.map_values(|i: DocumentInstance| instance_view(i)) == image_instances(nv, iv.take(k as int)));
        }
        k += 1;
    }
    assert(iv.take(k as int) =~= iv);
    out
}

/// Which images a publication has: full document, drawings, first-page
/// clipping, each with its link and page count.
pub fn parse_images_inquiry(xml: &str) -> (r: Result<Vec<DocumentInstance>, OpsError>)
    ensures
        match xml_tree(xml@) {
            Err(m) => r matches Err(OpsError::Parse(e)) && e@ == "invalid XML: "@ + m,
            Ok(nodes) => r matches Ok(v) && v@.map_values(|i: DocumentInstance| instance_view(i))
                == images_model(nodes),
        },
{
    match parse_xml(xml) {
        Ok(nodes) => Ok(instances(nodes.as_slice())),
        Err(e) => Err(invalid_xml(e)),
    }
}

/// The index of the first instance described as `desc`.
pub open spec fn first_desc(v: Seq<DocumentInstance>, desc: Seq<char>) -> Option<int>
    decreases v.len(),
{
    if v.len() == 0 {
        None
    } else {
        match first_desc(v.drop_last(), desc) {
            Some(i) => Some(i),
            None => if v.last().desc@ == desc {
                Some(v.len() - 1)
            } else {
                None
            },
        }
    }
}

pub proof fn lemma_first_desc_prefix(v: Seq<DocumentInstance>, desc: Seq<char>, k: int)
    requires
        0 <= k <= v.len(),
        first_desc(v.take(k), desc) is Some,
    ensures
        first_desc(v, desc) == first_desc(v.take(k), desc),
    decreases v.len(),
{
    if k == v.len() {
        assert(v.take(k) =~= v);
    } else {
        assert(v.drop_last().take(k) =~= v.take(k));
        lemma_first_desc_prefix(v.drop_last(), desc, k);
    }
}

fn find_desc<'a>(instances: &'a [DocumentInstance], desc: &str) -> (r: Option<&'a DocumentInstance>)
    ensures
        match first_desc(instances@, desc@) {
            Some(i) => r == Some(&instances@[i]),
            None => r is None,
        },
{
    let mut i: usize = 0;
    assert(instances@.take(0) =~= Seq::<DocumentInstance>::empty());
    while i < instances.len()
        invariant
            i <= instances@.len(),
            first_desc(instances@.take(i as int), desc@) is None,
        decreases instances.len() - i,
    {
        assert(instances@.take(i + 1).drop_last() =~= instances@.take(i as int));
        if str_eq(instances[i].desc.as_str(), desc) {
            proof {
                lemma_first_desc_prefix(instances@, desc@, i + 1);
            }
            return Some(&instances[i]);
        }
        i += 1;
    }
    assert(instances@.take(i as int) =~= instances@);
    None
}

/// The first instance holding the drawings.
pub fn find_drawing(instances: &[DocumentInstance]) -> (r: Option<&DocumentInstance>)
    ensures
        match first_desc(instances@, "Drawing"@) {
            Some(i) => r == Some(&instances@[i]),
            None => r is None,
        },
{
    find_desc(instances, "Drawing")
}

/// The first instance holding the first-page clipping.
pub fn find_first_page_clipping(instances: &[DocumentInstance]) -> (r: Option<&DocumentInstance>)
    ensures
        match first_desc(instances@, "FirstPageClipping"@) {
            Some(i) => r == Some(&instances@[i]),
            None => r is None,
        },
{
    find_desc(instances, "FirstPageClipping")
}


// ---------------------------------------------------------------------------
// Pixels
// ---------------------------------------------------------------------------

/// The pixels a TIFF page decoded to: one byte per sample, or another
/// sample format (described).
#[derive(Debug, Clone, PartialEq)]
pub enum TiffPixels {
    U8(Vec<u8>),
    Other(String),
}

impl View for TiffPixels {
    /// The byte samples, or the description of samples of another kind.
    type V = Result<Seq<u8>, Seq<char>>;

    open spec fn view(&self) -> Result<Seq<u8>, Seq<char>> {
        match self {
            TiffPixels::U8(d) => Ok(d@),
            TiffPixels::Other(desc) => Err(desc@),
        }
    }
}

/// Bytes per row of a bilevel image `w` pixels wide.
pub open spec fn row_bytes(w: int) -> int {
    (w + 7) / 8
}

/// Whether pixel `col` of a packed row is set in its byte `b` (the most
/// significant bit first).
pub open spec fn bit_set(b: u8, col: int) -> bool {
    ((b >> ((7 - col % 8) as u8)) & 1u8) == 1u8
}

/// A packed bilevel image, rows padded to whole bytes, as one byte per
/// pixel: 255 for a set bit, 0 for a clear one.
pub open spec fn unpacked(data: Seq<u8>, w: int) -> Seq<u8> {
    let rb = row_bytes(w);
    Seq::new(
        ((data.len() as int / rb) * w) as nat,
        |i: int|
            if bit_set(data[(i / w) * rb + (i % w) / 8], i % w) {
                255u8
            } else {
                0u8
            },
    )
}

/// The greyscale bytes of decoded pixels: as they are when there is one
/// byte per pixel, unpacked from one bit per pixel otherwise.
pub open spec fn grey_model(image: Result<Seq<u8>, Seq<char>>, width: int, height: int) -> Result<Seq<u8>, Seq<char>> {
    match image {
        Ok(d) => if d.len() == width * height {
            Ok(d)
        } else {
            Ok(unpacked(d, width))
        },
        Err(desc) => Err("unsupported TIFF pixel format: "@ + desc),
    }
}

/// Whether `to_grey_bytes` can read the pixels: one byte per pixel, or
/// whole packed rows of a non-empty width.
pub open spec fn readable(image: Result<Seq<u8>, Seq<char>>, width: int, height: int) -> bool {
    image matches Ok(d) ==> (d.len() == width * height || (width > 0 && d.len() as int % row_bytes(width) == 0))
}

fn unpack_bits(data: &[u8], width: u32) -> (r: Vec<u8>)
    requires
        width > 0,
        data@.len() as int % row_bytes(width as int) == 0,
    ensures
        r@ == unpacked(data@, width as int),
{
    let dl = data.len();
    let w = width as usize;
    let rb: usize = ((width / 8) + if width % 8 != 0 {
        1u32
    } else {
        0u32
    }) as usize;
    assert(rb == row_bytes(w as int));
    let rows = data.len() / rb;
    let ghost spec_out = unpacked(data@, width as int);
    proof {
        assert(rb > 0);
        assert(rows * rb == data@.len()) by (nonlinear_arith)
            requires
                rb > 0,
                rows == data@.len() as int / (rb as int),
                data@.len() as int % (rb as int) == 0,
        ;
    }
    let mut out: Vec<u8> = Vec::new();
    let mut r: usize = 0;
    let mut row_start: usize = 0;
    while r < rows
        invariant
            row_start == r * rb,
            dl == data@.len(),
            w == width,
            w > 0,
            rb == row_bytes(w as int),
            rows == data@.len() as int / (rb as int),
            rows * rb == data@.len(),
            r <= rows,
            spec_out == unpacked(data@, width as int),
            out@.len() == r * w,
            forall|i: int| 0 <= i < out@.len() ==> out@[i] == #[trigger] spec_out[i],
        decreases rows - r,
    {
        proof {
            assert(row_start + rb <= data@.len()) by (nonlinear_arith)
                requires
                    row_start == r * rb,
                    r < rows,
                    rows * rb == data@.len(),
            ;
        }
        let mut c: usize = 0;
        while c < w
            invariant
                row_start == r * rb,
                row_start + rb <= data@.len(),
                dl == data@.len(),
                w == width,
                w > 0,
                rb == row_bytes(w as int),
                rows == data@.len() as int / (rb as int),
                rows * rb == data@.len(),
                r < rows,
                c <= w,
                spec_out == unpacked(data@, width as int),
                out@.len() == r * w + c,
                forall|i: int| 0 <= i < out@.len() ==> out@[i] == #[trigger] spec_out[i],
            decreases w - c,
        {
            proof {
                assert(r * rb + c / 8 < data@.len() && r * rb <= data@.len()) by (nonlinear_arith)
                    requires
                        r < rows,
                        rows * rb == data@.len(),
                        c < w,
                        rb == (w + 7) / 8,
                ;
                assert((r * w + c) / (w as int) == r && (r * w + c) % (w as int) == c) by {
                    vstd::arithmetic::div_mod::lemma_fundamental_div_mod_converse(
                        (r * w + c) as int,
                        w as int,
                        r as int,
                        c as int,
                    );
                }
                assert((r + 1) * w <= rows * w) by (nonlinear_arith)
                    requires
                        r < rows,
                ;
                assert(spec_out.len() == rows * w);
            }
            assert(c / 8 < rb);
            let byte = data[row_start + c / 8];
            let bit = (byte >> ((7 - c % 8) as u8)) & 1u8;
            let ghost i = (r * w + c) as int;
            proof {
                assert(i / (w as int) == r && i % (w as int) == c);
                assert((r + 1) * w == r * w + w) by (nonlinear_arith);
                assert(i < spec_out.len());
                assert(data@[(i / (w as int)) * rb + (i % (w as int)) / 8] == byte);
                assert(spec_out[i] == if bit_set(byte, c as int) {
                    255u8
                } else {
                    0u8
                });
            }
            out.push(if bit == 1 { 255u8 } else { 0u8 });
            assert(out@[i] == spec_out[i]);
            c += 1;
        }
        proof {
            assert((r + 1) * w == r * w + w) by (nonlinear_arith);
            assert((r + 1) * rb == r * rb + rb) by (nonlinear_arith);
        }
        row_start = row_start + rb;
        r += 1;
    }
    assert(out@ =~= spec_out);
    out
}

/// One byte per pixel, 0 black and 255 white, from whatever the TIFF
/// decoder gave: bytes already one per pixel, or packed one-bit rows.
pub fn to_grey_bytes(image: TiffPixels, width: u32, height: u32) -> (r: Result<Vec<u8>, OpsError>)
    requires
        readable(image@, width as int, height as int),
    ensures
        match (r, grey_model(image@, width as int, height as int)) {
            (Ok(v), Ok(g)) => v@ == g,
            (Err(OpsError::Parse(m)), Err(e)) => m@ == e,
            _ => false,
        },
{
    match image {
        TiffPixels::U8(data) => {
            assert((width as u64) * (height as u64) <= u64::MAX) by (nonlinear_arith)
                requires
                    width <= u32::MAX,
                    height <= u32::MAX,
            ;
            let pixels: u64 = (width as u64) * (height as u64);
            if data.len() as u64 == pixels {
                Ok(data)
            } else {
                Ok(unpack_bits(data.as_slice(), width))
            }
        },
        TiffPixels::Other(desc) => {
            let mut m = "unsupported TIFF pixel format: ".to_owned();
            push_str(&mut m, desc.as_str());
            Err(OpsError::Parse(m))
        },
    }
}

/// Where pixel `(x, y)` of the result comes from in a `w` by `h` image
/// under a TIFF/EXIF orientation (2 to 8).
pub open spec fn source_xy(o: int, w: int, h: int, x: int, y: int) -> (int, int) {
    if o == 2 {
        (w - 1 - x, y)
    } else if o == 3 {
        (w - 1 - x, h - 1 - y)
    } else if o == 4 {
        (x, h - 1 - y)
    } else if o == 5 {
        (y, x)
    } else if o == 6 {
        (y, h - 1 - x)
    } else if o == 7 {
        (w - 1 - y, h - 1 - x)
    } else {
        (w - 1 - y, x)
    }
}

/// The image after its TIFF/EXIF `Orientation` (1 to 8, any other value
/// left as 1): width, height and pixels, row by row.
pub open spec fn oriented(w: int, h: int, g: Seq<u8>, o: int) -> (int, int, Seq<u8>) {
    if 2 <= o <= 8 {
        let (ow, oh) = if o <= 4 {
            (w, h)
        } else {
            (h, w)
        };
        (
            ow,
            oh,
            Seq::new(
                (ow * oh) as nat,
                |i: int|
                    {
                        let (sx, sy) = source_xy(o, w, h, i % ow, i / ow);
                        g[sy * w + sx]
                    },
            ),
        )
    } else {
        (w, h, g)
    }
}

/// The orientation that undoes `o`: the rotations by a quarter turn (6 and
/// 8) undo each other; every other orientation undoes itself.
pub open spec fn inverse_orientation(o: int) -> int {
    if o == 6 {
        8
    } else if o == 8 {
        6
    } else {
        o
    }
}

proof fn lemma_orientation_undone_at(w: int, h: int, o: int, x: int, y: int)
    requires
        0 < w,
        0 < h,
        2 <= o <= 8,
        0 <= x < w,
        0 <= y < h,
    ensures
        ({
            let (w2, h2) = if o <= 4 {
                (w, h)
            } else {
                (h, w)
            };
            let (sx, sy) = source_xy(inverse_orientation(o), w2, h2, x, y);
            0 <= sx < w2 && 0 <= sy < h2 && source_xy(o, w, h, sx, sy) == (x, y)
        }),
{
}

/// The index in the unoriented image of pixel `i` of the image oriented by
/// `o` (2 to 8).
pub open spec fn orientation_source(w: int, h: int, o: int, i: int) -> int {
    let ow = if o <= 4 {
        w
    } else {
        h
    };
    let (sx, sy) = source_xy(o, w, h, i % ow, i / ow);
    sy * w + sx
}

proof fn lemma_index_coords(i: int, w: int, h: int)
    requires
        0 < w,
        0 <= i < w * h,
    ensures
        0 <= i % w < w,
        0 <= i / w < h,
        i == (i / w) * w + i % w,
{
    vstd::arithmetic::div_mod::lemma_fundamental_div_mod(i, w);
    assert(0 <= i / w < h) by (nonlinear_arith)
        requires
            0 <= i < w * h,
            i == w * (i / w) + i % w,
            0 <= i % w < w,
            w > 0,
    ;
    assert(i == (i / w) * w + i % w) by (nonlinear_arith)
        requires
            i == w * (i / w) + i % w,
    ;
}

proof fn lemma_coords_index(x: int, y: int, w: int, h: int)
    requires
        0 <= x < w,
        0 <= y < h,
    ensures
        0 <= y * w + x < w * h,
        (y * w + x) % w == x,
        (y * w + x) / w == y,
{
    vstd::arithmetic::div_mod::lemma_fundamental_div_mod_converse(y * w + x, w, y, x);
    assert(0 <= y * w + x < w * h) by (nonlinear_arith)
        requires
            0 <= x < w,
            0 <= y < h,
    ;
}

/// The index in the image oriented by `o` (2 to 8) of pixel `k` of the
/// unoriented image: where the inverse orientation takes it from.
pub open spec fn orientation_target(w: int, h: int, o: int, k: int) -> int {
    let (ow, oh) = if o <= 4 {
        (w, h)
    } else {
        (h, w)
    };
    let (sx, sy) = source_xy(inverse_orientation(o), ow, oh, k % w, k / w);
    sy * ow + sx
}

/// Orienting moves pixels and nothing else: each pixel of the result is a
/// pixel of the unoriented image, different pixels come from different places,
/// and every pixel of the unoriented image lands somewhere.
pub proof fn law_orientation_permutes_the_pixels(w: int, h: int, g: Seq<u8>, o: int)
    requires
        0 <= w,
        0 <= h,
        g.len() == w * h,
        2 <= o <= 8,
    ensures
        forall|i: int|
            0 <= i < g.len() ==> 0 <= #[trigger] orientation_source(w, h, o, i) < g.len() && oriented(w, h, g, o).2[i]
                == g[orientation_source(w, h, o, i)],
        forall|i: int, j: int|
            0 <= i < g.len() && 0 <= j < g.len() && i != j ==> #[trigger] orientation_source(w, h, o, i)
                != #[trigger] orientation_source(w, h, o, j),
        forall|k: int|
            0 <= k < g.len() ==> 0 <= #[trigger] orientation_target(w, h, o, k) < g.len() && orientation_source(
                w,
                h,
                o,
                orientation_target(w, h, o, k),
            ) == k,
{
    let (w2, h2) = if o <= 4 {
        (w, h)
    } else {
        (h, w)
    };
    let io = inverse_orientation(o);
    assert(2 <= io <= 8 && (io <= 4) == (o <= 4));
    assert(w2 * h2 == w * h) by (nonlinear_arith)
        requires
            (w2 == w && h2 == h) || (w2 == h && h2 == w),
    ;
    if w > 0 && h > 0 {
        assert forall|i: int| 0 <= i < g.len() implies 0 <= #[trigger] orientation_source(w, h, o, i) < g.len()
            && oriented(w, h, g, o).2[i] == g[orientation_source(w, h, o, i)] by {
            lemma_index_coords(i, w2, h2);
            lemma_orientation_undone_at(w2, h2, io, i % w2, i / w2);
            let (sx, sy) = source_xy(o, w, h, i % w2, i / w2);
            lemma_coords_index(sx, sy, w, h);
        }
        assert forall|i: int, j: int|
            0 <= i < g.len() && 0 <= j < g.len() && i != j implies #[trigger] orientation_source(w, h, o, i)
                != #[trigger] orientation_source(w, h, o, j) by {
            lemma_index_coords(i, w2, h2);
            lemma_index_coords(j, w2, h2);
            lemma_orientation_undone_at(w2, h2, io, i % w2, i / w2);
            lemma_orientation_undone_at(w2, h2, io, j % w2, j / w2);
            let (ax, ay) = source_xy(o, w, h, i % w2, i / w2);
            let (bx, by) = source_xy(o, w, h, j % w2, j / w2);
            lemma_coords_index(ax, ay, w, h);
            lemma_coords_index(bx, by, w, h);
            if ay * w + ax == by * w + bx {
                assert(ax == bx && ay == by);
                assert(i % w2 == j % w2 && i / w2 == j / w2);
            }
        }
        assert forall|k: int| 0 <= k < g.len() implies 0 <= #[trigger] orientation_target(w, h, o, k) < g.len()
            && orientation_source(w, h, o, orientation_target(w, h, o, k)) == k by {
            lemma_index_coords(k, w, h);
            lemma_orientation_undone_at(w, h, o, k % w, k / w);
            let (sx, sy) = source_xy(io, w2, h2, k % w, k / w);
            lemma_coords_index(sx, sy, w2, h2);
            assert(orientation_target(w, h, o, k) == sy * w2 + sx);
        }
    } else {
        assert(w * h == 0) by (nonlinear_arith)
            requires
                w == 0 || h == 0,
        ;
    }
}

/// Orienting an image and then orienting the result by the inverse
/// orientation gives the image back; quarter turns and transpositions swap
/// the width and the height.
pub proof fn law_inverse_orientation_undoes_it(w: int, h: int, g: Seq<u8>, o: int)
    requires
        0 <= w,
        0 <= h,
        g.len() == w * h,
    ensures
        oriented(w, h, g, o).0 == (if 2 <= o <= 8 && o > 4 { h } else { w }),
        oriented(w, h, g, o).1 == (if 2 <= o <= 8 && o > 4 { w } else { h }),
        oriented(w, h, g, o).2.len() == g.len(),
        oriented(oriented(w, h, g, o).0, oriented(w, h, g, o).1, oriented(w, h, g, o).2, inverse_orientation(o))
            == (w, h, g),
{
    if 2 <= o <= 8 {
        let (w2, h2, g2) = oriented(w, h, g, o);
        let io = inverse_orientation(o);
        assert(2 <= io <= 8 && (io <= 4) == (o <= 4));
        assert(w2 * h2 == w * h) by (nonlinear_arith)
            requires
                (w2 == w && h2 == h) || (w2 == h && h2 == w),
        ;
        let (w3, h3, g3) = oriented(w2, h2, g2, io);
        assert(w3 == w && h3 == h);
        assert(g3.len() == g.len());
        if w > 0 && h > 0 {
            assert forall|i: int| 0 <= i < g.len() implies #[trigger] g3[i] == g[i] by {
                let x = i % w;
                let y = i / w;
                vstd::arithmetic::div_mod::lemma_fundamental_div_mod(i, w);
                assert(0 <= x < w);
                assert(0 <= y < h) by (nonlinear_arith)
                    requires
                        0 <= i < w * h,
                        y == i / w,
                        i == w * y + x,
                        0 <= x < w,
                        w > 0,
                ;
                lemma_orientation_undone_at(w, h, o, x, y);
                let (sx, sy) = source_xy(io, w2, h2, x, y);
                let j = sy * w2 + sx;
                vstd::arithmetic::div_mod::lemma_fundamental_div_mod_converse(j, w2, sy, sx);
                assert(0 <= j < w2 * h2) by (nonlinear_arith)
                    requires
                        0 <= sx < w2,
                        0 <= sy < h2,
                        j == sy * w2 + sx,
                ;
                assert(g3[i] == g2[j]);
                assert(g2[j] == g[y * w + x]);
                assert(y * w + x == i) by (nonlinear_arith)
                    requires
                        i == w * y + x,
                ;
            }
        } else {
            assert(w * h == 0) by (nonlinear_arith)
                requires
                    w == 0 || h == 0,
            ;
        }
        assert(g3 =~= g);
    }
}

fn source_index(o: u32, w: usize, h: usize, x: usize, y: usize, ow: usize, oh: usize) -> (r: usize)
    requires
        2 <= o <= 8,
        ow == if o <= 4 {
            w
        } else {
            h
        },
        oh == if o <= 4 {
            h
        } else {
            w
        },
        x < ow,
        y < oh,
        w * h <= usize::MAX,
    ensures
        r == source_xy(o as int, w as int, h as int, x as int, y as int).1 * w + source_xy(
            o as int,
            w as int,
            h as int,
            x as int,
            y as int,
        ).0,
        r < w * h,
{
    let (sx, sy) = if o == 2 {
        (w - 1 - x, y)
    } else if o == 3 {
        (w - 1 - x, h - 1 - y)
    } else if o == 4 {
        (x, h - 1 - y)
    } else if o == 5 {
        (y, x)
    } else if o == 6 {
        (y, h - 1 - x)
    } else if o == 7 {
        (w - 1 - y, h - 1 - x)
    } else {
        (w - 1 - y, x)
    };
    assert(sy * w + sx < w * h) by (nonlinear_arith)
        requires
            sx < w,
            sy < h,
    ;
    sy * w + sx
}

/// Applies the TIFF/EXIF `Orientation` tag (1 to 8; rotations and
/// mirrorings) to a `width` by `height` greyscale image.
pub fn apply_orientation(width: u32, height: u32, grey: Vec<u8>, orientation: u32) -> (r: (u32, u32, Vec<u8>))
    requires
        2 <= orientation <= 8 ==> grey@.len() >= width * height,
    ensures
        (r.0 as int, r.1 as int, r.2@) == oriented(width as int, height as int, grey@, orientation as int),
{
    if orientation < 2 || orientation > 8 {
        return (width, height, grey);
    }
    let w = width as usize;
    let h = height as usize;
    let (ow, oh) = if orientation <= 4 {
        (w, h)
    } else {
        (h, w)
    };
    assert(w * h == width * height);
    assert(w * h <= usize::MAX) by {
        let n = grey.len();
        assert(w * h <= grey@.len());
    }
    let ghost target = oriented(width as int, height as int, grey@, orientation as int).2;
    assert(ow * oh == w * h) by (nonlinear_arith)
        requires
            (ow == w && oh == h) || (ow == h && oh == w),
    ;
    let mut out: Vec<u8> = Vec::new();
    let mut y: usize = 0;
    while y < oh
        invariant
            2 <= orientation <= 8,
            w == width,
            h == height,
            ow == if orientation <= 4 {
                w
            } else {
                h
            },
            oh == if orientation <= 4 {
                h
            } else {
                w
            },
            ow * oh == w * h,
            w * h <= usize::MAX,
            grey@.len() >= w * h,
            y <= oh,
            target == oriented(width as int, height as int, grey@, orientation as int).2,
            target.len() == ow * oh,
            out@.len() == y * ow,
            forall|i: int| 0 <= i < out@.len() ==> out@[i] == #[trigger] target[i],
        decreases oh - y,
    {
        let mut x: usize = 0;
        while x < ow
            invariant
                2 <= orientation <= 8,
                w == width,
                h == height,
                ow == if orientation <= 4 {
                    w
                } else {
                    h
                },
                oh == if orientation <= 4 {
                    h
                } else {
                    w
                },
                ow * oh == w * h,
                w * h <= usize::MAX,
                grey@.len() >= w * h,
                y < oh,
                x <= ow,
                target == oriented(width as int, height as int, grey@, orientation as int).2,
                target.len() == ow * oh,
                out@.len() == y * ow + x,
                forall|i: int| 0 <= i < out@.len() ==> out@[i] == #[trigger] target[i],
            decreases ow - x,
        {
            proof {
                assert((y * ow + x) / (ow as int) == y && (y * ow + x) % (ow as int) == x) by {
                    vstd::arithmetic::div_mod::lemma_fundamental_div_mod_converse(
                        (y * ow + x) as int,
                        ow as int,
                        y as int,
                        x as int,
                    );
                }
                assert(y * ow + x < ow * oh) by (nonlinear_arith)
                    requires
                        y < oh,
                        x < ow,
                ;
            }
            let i = source_index(orientation, w, h, x, y, ow, oh);
            out.push(grey[i]);
            x += 1;
        }
        proof {
            assert((y + 1) * ow == y * ow + ow) by (nonlinear_arith);
        }
        y += 1;
    }
    assert(oh * ow == ow * oh) by (nonlinear_arith);
    assert(out@ =~= target);
    if orientation <= 4 {
        (width, height, out)
    } else {
        (height, width, out)
    }
}


// ---------------------------------------------------------------------------
// TIFF to PNG
// ---------------------------------------------------------------------------

/// Which step of the TIFF decoder failed, with the decoder's message.
#[derive(Debug)]
pub enum TiffFailure {
    Open(String),
    Dimensions(String),
    Decode(String),
}

/// A decoded TIFF page: width, height, the `Orientation` tag when it can
/// be read, and the pixels.
pub struct TiffPage {
    pub width: u32,
    pub height: u32,
    pub orientation: Option<u32>,
    pub pixels: TiffPixels,
}

/// What the tiff crate decodes from the bytes of a TIFF: the first page's
/// width, height, `Orientation` tag (when it can be read) and samples; or
/// the step that failed (0 opening, 1 reading the dimensions, 2 decoding)
/// with the error's text.
pub uninterp spec fn tiff_decoded(bytes: Seq<u8>) -> Result<
    (u32, u32, Option<u32>, Result<Seq<u8>, Seq<char>>),
    (u8, Seq<char>),
>;

pub open spec fn page_view(p: TiffPage) -> (u32, u32, Option<u32>, Result<Seq<u8>, Seq<char>>) {
    (p.width, p.height, p.orientation, p.pixels@)
}

pub open spec fn failure_view(f: TiffFailure) -> (u8, Seq<char>) {
    match f {
        TiffFailure::Open(m) => (0, m@),
        TiffFailure::Dimensions(m) => (1, m@),
        TiffFailure::Decode(m) => (2, m@),
    }
}

/// The tiff crate's decoder on one page: `Decoder::new`, then
/// `dimensions`, `get_tag_u32(Tag::Orientation)` and `read_image`, byte
/// samples kept as they are and any other sample format given by its debug
/// text; a failing step as its message. The result is a function of the
/// bytes alone. (The decoder type itself cannot be declared here, its
/// `Read + Seek` bound being refused.)
#[verifier::external_body]
fn decode_tiff(bytes: &[u8]) -> (r: Result<TiffPage, TiffFailure>)
    ensures
        match r {
            Ok(p) => tiff_decoded(bytes@) == Ok::<_, (u8, Seq<char>)>(page_view(p)),
            Err(f) => tiff_decoded(bytes@) == Err::<(u32, u32, Option<u32>, Result<Seq<u8>, Seq<char>>), _>(
                failure_view(f),
            ),
        },
{
    let mut d = tiff::decoder::Decoder::new(std::io::Cursor::new(bytes)).map_err(|e| TiffFailure::Open(e.to_string()))?;
    let (width, height) = d.dimensions().map_err(|e| TiffFailure::Dimensions(e.to_string()))?;
    let orientation = d.get_tag_u32(tiff::tags::Tag::Orientation).ok();
    let pixels = match d.read_image().map_err(|e| TiffFailure::Decode(e.to_string()))? {
        tiff::decoder::DecodingResult::U8(data) => TiffPixels::U8(data),
        other => TiffPixels::Other(format!("{other:?}")),
    };
    Ok(TiffPage { width, height, orientation, pixels })
}

/// The 8-bit greyscale PNG of a `width` by `height` image with the given
/// pixels, or the step the encoder refused (0 the header, 1 the data) with
/// its message.
pub uninterp spec fn png_grey(width: u32, height: u32, pixels: Seq<u8>) -> Result<Seq<u8>, (u8, Seq<char>)>;

pub open spec fn png_failure_view(f: PngFailure) -> (u8, Seq<char>) {
    match f {
        PngFailure::Header(m) => (0, m@),
        PngFailure::Data(m) => (1, m@),
    }
}

/// The start of the message for a refused encoding step.
pub open spec fn png_stage(stage: u8) -> Seq<char> {
    if stage == 0 {
        "writing PNG header: "@
    } else {
        "writing PNG data: "@
    }
}

/// Which step of the PNG encoder failed, with the encoder's message.
#[derive(Debug)]
pub enum PngFailure {
    Header(String),
    Data(String),
}

/// png `Encoder` set to 8-bit greyscale (`Encoder::new`, `set_color`,
/// `set_depth`), its header written (`write_header`) and then the pixels
/// (`Writer::write_image_data`); the bytes written. The result is a
/// function of the arguments alone.
#[verifier::external_body]
fn encode_grey_png(width: u32, height: u32, pixels: &[u8]) -> (r: Result<Vec<u8>, PngFailure>)
    ensures
        match r {
            Ok(b) => png_grey(width, height, pixels@) == Ok::<Seq<u8>, (u8, Seq<char>)>(b@),
            Err(f) => png_grey(width, height, pixels@) == Err::<Seq<u8>, (u8, Seq<char>)>(png_failure_view(f)),
        },
{
    let mut out = Vec::new();
    let mut encoder = png::Encoder::new(&mut out, width, height);
    encoder.set_color(png::ColorType::Grayscale);
    encoder.set_depth(png::BitDepth::Eight);
    let mut writer = encoder.write_header().map_err(|e| PngFailure::Header(e.to_string()))?;
    writer.write_image_data(pixels).map_err(|e| PngFailure::Data(e.to_string()))?;
    drop(writer);
    Ok(out)
}

/// Whether a decoded page can be converted: `to_grey_bytes` can read its
/// pixels, and a rotated or mirrored page has a pixel for every place.
pub open spec fn page_convertible(image: Result<Seq<u8>, Seq<char>>, width: u32, height: u32, orientation: u32) -> bool {
    &&& readable(image, width as int, height as int)
    &&& (grey_model(image, width as int, height as int) matches Ok(g) ==> (2 <= orientation <= 8 ==> g.len()
        >= width * height))
}

/// The PNG of a decoded page: its pixels as greyscale bytes, oriented,
/// then encoded; the size is the oriented one.
pub open spec fn page_model(image: Result<Seq<u8>, Seq<char>>, width: u32, height: u32, orientation: u32) -> Result<
    (int, int, Seq<u8>),
    Seq<char>,
> {
    match grey_model(image, width as int, height as int) {
        Err(e) => Err(e),
        Ok(g) => {
            let (w, h, p) = oriented(width as int, height as int, g, orientation as int);
            match png_grey(w as u32, h as u32, p) {
                Ok(bytes) => Ok((w, h, bytes)),
                Err((stage, m)) => Err(png_stage(stage) + m),
            }
        },
    }
}

/// Converts a decoded page to PNG: greyscale bytes, the orientation
/// applied, 8-bit greyscale PNG. Returns width, height and the PNG bytes.
pub fn page_png(image: TiffPixels, width: u32, height: u32, orientation: u32) -> (r: Result<(u32, u32, Vec<u8>), OpsError>)
    requires
        page_convertible(image@, width, height, orientation),
    ensures
        match (r, page_model(image@, width, height, orientation)) {
            (Ok((w, h, b)), Ok((mw, mh, mb))) => w == mw && h == mh && b@ == mb,
            (Err(OpsError::Parse(m)), Err(e)) => m@ == e,
            _ => false,
        },
{
    let grey = match to_grey_bytes(image, width, height) {
        Ok(g) => g,
        Err(e) => {
            return Err(e);
        },
    };
    let (w, h, g) = apply_orientation(width, height, grey, orientation);
    match encode_grey_png(w, h, g.as_slice()) {
        Ok(bytes) => Ok((w, h, bytes)),
        Err(PngFailure::Header(m)) => {
            let mut msg = "writing PNG header: ".to_owned();
            push_str(&mut msg, m.as_str());
            Err(OpsError::Parse(msg))
        },
        Err(PngFailure::Data(m)) => {
            let mut msg = "writing PNG data: ".to_owned();
            push_str(&mut msg, m.as_str());
            Err(OpsError::Parse(msg))
        },
    }
}

fn convertible_exec(image: &TiffPixels, width: u32, height: u32, orientation: u32) -> (r: bool)
    ensures
        r == page_convertible(image@, width, height, orientation),
{
    assert((width as u64) * (height as u64) <= u64::MAX) by (nonlinear_arith)
        requires
            width <= u32::MAX,
            height <= u32::MAX,
    ;
    let pixels: u64 = (width as u64) * (height as u64);
    match image {
        TiffPixels::U8(d) => {
            let n = d.len() as u64;
            if n == pixels {
                return true;
            }
            if width == 0 {
                return false;
            }
            let rb: u64 = ((width / 8) + if width % 8 != 0 {
                1u32
            } else {
                0u32
            }) as u64;
            if n % rb != 0 {
                return false;
            }
            // The unpacked image has one byte per pixel of each whole row.
            let q: u128 = (n / rb) as u128;
            let wq: u128 = width as u128;
            assert(q * wq <= 0xffff_ffff_ffff_ffff_u128 * 0xffff_ffff_u128) by (nonlinear_arith)
                requires
                    q <= 0xffff_ffff_ffff_ffff_u128,
                    wq <= 0xffff_ffff_u128,
            ;
            let unpacked_len: u128 = q * wq;
            !(2 <= orientation && orientation <= 8) || unpacked_len >= pixels as u128
        },
        TiffPixels::Other(_) => true,
    }
}

/// The start of the message for a failed decoding step.
pub open spec fn decode_stage(stage: u8) -> Seq<char> {
    if stage == 0 {
        "invalid TIFF: "@
    } else if stage == 1 {
        "reading TIFF dimensions: "@
    } else {
        "decoding TIFF: "@
    }
}

/// Converts one TIFF page to PNG bytes, returning width, height and the
/// PNG. The output is 8-bit greyscale whatever the source bit depth, and
/// the page's stored orientation is applied.
pub fn tiff_page_to_png(tiff_bytes: &[u8]) -> (r: Result<(u32, u32, Vec<u8>), OpsError>)
    ensures
        r matches Err(e) ==> e matches OpsError::Parse(_),
        match tiff_decoded(tiff_bytes@) {
            Err((stage, m)) => r matches Err(OpsError::Parse(msg)) && msg@ == decode_stage(stage) + m,
            Ok((w, h, o, px)) => {
                let orientation = match o {
                    Some(x) => x,
                    None => 1,
                };
                if !page_convertible(px, w, h, orientation) {
                    r matches Err(OpsError::Parse(msg)) && msg@ == "TIFF page data does not fill the page"@
                } else {
                    match (r, page_model(px, w, h, orientation)) {
                        (Ok((rw, rh, b)), Ok((mw, mh, mb))) => rw == mw && rh == mh && b@ == mb,
                        (Err(OpsError::Parse(msg)), Err(e)) => msg@ == e,
                        _ => false,
                    }
                }
            },
        },
{
    let page = match decode_tiff(tiff_bytes) {
        Ok(p) => p,
        Err(failure) => {
            let (stage, m) = match failure {
                TiffFailure::Open(m) => ("invalid TIFF: ", m),
                TiffFailure::Dimensions(m) => ("reading TIFF dimensions: ", m),
                TiffFailure::Decode(m) => ("decoding TIFF: ", m),
            };
            let mut msg = stage.to_owned();
            push_str(&mut msg, m.as_str());
            return Err(OpsError::Parse(msg));
        },
    };
    let TiffPage { width, height, orientation, pixels: image } = page;
    // 1, the normal orientation, when the tag is absent.
    let orientation = match orientation {
        Some(o) => o,
        None => 1,
    };
    if !convertible_exec(&image, width, height, orientation) {
        return Err(OpsError::Parse("TIFF page data does not fill the page".to_owned()));
    }
    match page_png(image, width, height, orientation) {
        Ok(x) => Ok(x),
        Err(OpsError::Parse(m)) => Err(OpsError::Parse(m)),
        Err(_) => Err(OpsError::Parse("converting TIFF page".to_owned())),
    }
}

} // verus!
