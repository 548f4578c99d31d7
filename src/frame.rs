//! Frames and datasets as markup.
use vstd::prelude::*;
use vstd::utf8::encode_utf8;
use crate::codec::{
    objects_text, objects_wf, push_objects, read_decimal_element, read_objects,
};
use crate::fields::{
    color_bytes, color_text, decimal_text, depth_bytes, depth_text, push_decimal, read_color,
    read_depth, DecodeError,
};
use crate::markup::{
    close_tag, close_tag_bytes, element, expect, lemma_element_parts, lemma_open_tags_differ,
    lemma_starts_lt, peek, push_bytes,
    lemma_starts_concat, open_tag, open_tag_bytes, push_element, read_leaf, starts_at, Tag,
};
use crate::model::{Color, Decimal, Depth, Frame, FrameView, ObjectList, Timestamp};
use crate::digits::{digits_of, push_digits};
use crate::codec::read_count_element;
use crate::serde_utc::{lemma_utc_text_utf8, utc_text};
use crate::serde_zero_one_bool::bool_text;
use crate::text::{escaped, lemma_escaped_free, read_text, text_bytes};

verus! {

/// Reads the file element.
pub fn read_file_element(b: &[u8], pos: usize) -> (r: Result<(String, usize), DecodeError>)
    ensures
        r matches Ok((x, n)) ==> pos <= n <= b@.len(),
        forall|s: Seq<char>|
            #[trigger] starts_at(
                b@,
                pos as int,
                element(Tag::File, escaped(encode_utf8(s))),
            ) ==> (r matches Ok((x, n)) && x@ == s && n == pos + element(
                Tag::File,
                escaped(encode_utf8(s)),
            ).len()),
{
    let blen = b.len();
    match read_leaf(b, pos, Tag::File) {
        None => {
            proof {
                assert forall|s: Seq<char>|
                    #[trigger] starts_at(b@, pos as int, element(Tag::File, escaped(encode_utf8(s)))) implies false by {
                    lemma_escaped_free(encode_utf8(s));
                }
            }
            Err(DecodeError::Markup { at: pos })
        },
        Some((lo, hi, next)) => {
            let r = read_text(b, lo, hi, Tag::File);
            proof {
                assert forall|s: Seq<char>|
                    #[trigger] starts_at(
                        b@,
                        pos as int,
                        element(Tag::File, escaped(encode_utf8(s))),
                    ) implies (r matches Ok(x) && x@ == s) && next == pos + element(
                        Tag::File,
                        escaped(encode_utf8(s)),
                    ).len() by {
                    lemma_escaped_free(encode_utf8(s));
                    lemma_element_parts(b@, pos as int, Tag::File, escaped(encode_utf8(s)));
                }
            }
            match r {
                Ok(x) => Ok((x, next)),
                Err(e) => Err(e),
            }
        },
    }
}

/// Reads the timestamp element.
pub fn read_utc_element(b: &[u8], pos: usize) -> (r: Result<(Timestamp, usize), DecodeError>)
    ensures
        r matches Ok((t, n)) ==> t.wf() && pos <= n <= b@.len(),
        forall|t: Timestamp|
            t.wf() && #[trigger] starts_at(b@, pos as int, element(Tag::Utc, utc_text(t))) ==> r
                == Ok::<(Timestamp, usize), DecodeError>(
                (t, (pos + element(Tag::Utc, utc_text(t)).len()) as usize),
            ),
{
    let blen = b.len();
    match read_leaf(b, pos, Tag::Utc) {
        None => {
            proof {
                assert forall|t: Timestamp|
                    t.wf() && #[trigger] starts_at(b@, pos as int, element(Tag::Utc, utc_text(t))) implies false by {
                    lemma_utc_text_utf8(t);
                }
            }
            Err(DecodeError::Markup { at: pos })
        },
        Some((lo, hi, next)) => {
            let piece = vstd::slice::slice_subrange(b, lo, hi);
            let r = crate::serde_utc::deserialize(piece);
            proof {
                assert forall|t: Timestamp|
                    t.wf() && #[trigger] starts_at(b@, pos as int, element(Tag::Utc, utc_text(t))) implies r
                        == Ok::<Timestamp, DecodeError>(t) && next == pos + element(
                        Tag::Utc,
                        utc_text(t),
                    ).len() by {
                    lemma_utc_text_utf8(t);
                    lemma_element_parts(b@, pos as int, Tag::Utc, utc_text(t));
                }
            }
            match r {
                Ok(t) => Ok((t, next)),
                Err(e) => Err(e),
            }
        },
    }
}

/// Reads the sunny element.
pub fn read_sunny_element(b: &[u8], pos: usize) -> (r: Result<(bool, usize), DecodeError>)
    ensures
        r matches Ok((v, n)) ==> pos <= n <= b@.len(),
        forall|v: bool|
            #[trigger] starts_at(b@, pos as int, element(Tag::Sunny, bool_text(v))) ==> r == Ok::<
                (bool, usize),
                DecodeError,
            >((v, (pos + element(Tag::Sunny, bool_text(v)).len()) as usize)),
{
    let blen = b.len();
    match read_leaf(b, pos, Tag::Sunny) {
        None => Err(DecodeError::Markup { at: pos }),
        Some((lo, hi, next)) => {
            let piece = vstd::slice::slice_subrange(b, lo, hi);
            let r = crate::serde_zero_one_bool::deserialize(piece);
            proof {
                assert forall|v: bool|
                    #[trigger] starts_at(b@, pos as int, element(Tag::Sunny, bool_text(v))) implies r
                        == Ok::<bool, DecodeError>(v) && next == pos + element(
                        Tag::Sunny,
                        bool_text(v),
                    ).len() by {
                    lemma_element_parts(b@, pos as int, Tag::Sunny, bool_text(v));
                }
            }
            match r {
                Ok(v) => Ok((v, next)),
                Err(e) => Err(e),
            }
        },
    }
}

pub open spec fn color_part(c: Option<Color>) -> Seq<u8> {
    match c {
        Some(c) => element(Tag::Color, color_text(c)),
        None => Seq::<u8>::empty(),
    }
}

pub open spec fn depth_part(d: Option<Depth>) -> Seq<u8> {
    match d {
        Some(d) => element(Tag::Depth, depth_text(d)),
        None => Seq::<u8>::empty(),
    }
}

pub open spec fn gsd_part(g: Option<Decimal>) -> Seq<u8> {
    match g {
        Some(g) => element(Tag::Gsd, decimal_text(g)),
        None => Seq::<u8>::empty(),
    }
}

/// Reads the color element if one stands at `pos`.
pub fn read_color_part(b: &[u8], pos: usize) -> (r: Result<(Option<Color>, usize), DecodeError>)
    ensures
        r matches Ok((c, n)) ==> pos <= n <= b@.len() || (c is None && n == pos),
        forall|c: Option<Color>|
            #[trigger] starts_at(b@, pos as int, color_part(c)) && (c is None ==> (!starts_at(
                b@,
                pos as int,
                open_tag(Tag::Color),
            ) && pos < b@.len() && b@[pos as int] == 60u8)) ==> r == Ok::<(Option<Color>, usize), DecodeError>(
                (c, (pos + color_part(c).len()) as usize),
            ),
{
    let blen = b.len();
    let o = open_tag_bytes(Tag::Color);
    if !peek(b, pos, &o) {
        proof {
            assert forall|c: Option<Color>|
                #[trigger] starts_at(b@, pos as int, color_part(c)) && c is Some implies false by {
                lemma_element_parts(b@, pos as int, Tag::Color, color_text(c->0));
                lemma_starts_lt(b@, pos as int, open_tag(Tag::Color));
            }
        }
        return Ok((None, pos));
    }
    match read_leaf(b, pos, Tag::Color) {
        None => Err(DecodeError::Markup { at: pos }),
        Some((lo, hi, next)) => {
            let r = read_color(b, lo, hi);
            proof {
                assert forall|c: Option<Color>|
                    #[trigger] starts_at(b@, pos as int, color_part(c)) && c is Some implies r
                        == Ok::<Color, DecodeError>(c->0) && next == pos + color_part(c).len() by {
                    lemma_element_parts(b@, pos as int, Tag::Color, color_text(c->0));
                }
            }
            match r {
                Ok(c) => Ok((Some(c), next)),
                Err(e) => Err(e),
            }
        },
    }
}

/// Reads the depth element if one stands at `pos`.
pub fn read_depth_part(b: &[u8], pos: usize) -> (r: Result<(Option<Depth>, usize), DecodeError>)
    ensures
        r matches Ok((c, n)) ==> pos <= n <= b@.len() || (c is None && n == pos),
        forall|c: Option<Depth>|
            #[trigger] starts_at(b@, pos as int, depth_part(c)) && (c is None ==> (!starts_at(
                b@,
                pos as int,
                open_tag(Tag::Depth),
            ) && pos < b@.len() && b@[pos as int] == 60u8)) ==> r == Ok::<(Option<Depth>, usize), DecodeError>(
                (c, (pos + depth_part(c).len()) as usize),
            ),
{
    let blen = b.len();
    let o = open_tag_bytes(Tag::Depth);
    if !peek(b, pos, &o) {
        proof {
            assert forall|c: Option<Depth>|
                #[trigger] starts_at(b@, pos as int, depth_part(c)) && c is Some implies false by {
                lemma_element_parts(b@, pos as int, Tag::Depth, depth_text(c->0));
                lemma_starts_lt(b@, pos as int, open_tag(Tag::Depth));
            }
        }
        return Ok((None, pos));
    }
    match read_leaf(b, pos, Tag::Depth) {
        None => Err(DecodeError::Markup { at: pos }),
        Some((lo, hi, next)) => {
            let r = read_depth(b, lo, hi);
            proof {
                assert forall|c: Option<Depth>|
                    #[trigger] starts_at(b@, pos as int, depth_part(c)) && c is Some implies r
                        == Ok::<Depth, DecodeError>(c->0) && next == pos + depth_part(c).len() by {
                    lemma_element_parts(b@, pos as int, Tag::Depth, depth_text(c->0));
                }
            }
            match r {
                Ok(c) => Ok((Some(c), next)),
                Err(e) => Err(e),
            }
        },
    }
}

/// Reads the ground sample distance element if one stands at `pos`.
pub fn read_gsd_part(b: &[u8], pos: usize) -> (r: Result<(Option<Decimal>, usize), DecodeError>)
    ensures
        r matches Ok((c, n)) ==> (pos <= n <= b@.len() || (c is None && n == pos)) && (c matches Some(
            g,
        ) ==> g.wf()),
        forall|c: Option<Decimal>|
            #[trigger] starts_at(b@, pos as int, gsd_part(c)) && (c matches Some(g) ==> g.wf()) && (
            c is None ==> (!starts_at(b@, pos as int, open_tag(Tag::Gsd)) && pos < b@.len() && b@[pos as int]
                == 60u8)) ==> r == Ok::<
                (Option<Decimal>, usize),
                DecodeError,
            >((c, (pos + gsd_part(c).len()) as usize)),
{
    let blen = b.len();
    let o = open_tag_bytes(Tag::Gsd);
    if !peek(b, pos, &o) {
        proof {
            assert forall|c: Option<Decimal>|
                #[trigger] starts_at(b@, pos as int, gsd_part(c)) && c is Some implies false by {
                lemma_element_parts(b@, pos as int, Tag::Gsd, decimal_text(c->0));
                lemma_starts_lt(b@, pos as int, open_tag(Tag::Gsd));
            }
        }
        return Ok((None, pos));
    }
    match read_decimal_element(b, pos, Tag::Gsd) {
        Ok((g, n)) => Ok((Some(g), n)),
        Err(e) => Err(e),
    }
}

/// The markup of a frame's number, file, timestamp and optional fields.
#[verifier::opaque]
pub open spec fn header_text(f: FrameView) -> Seq<u8> {
    element(Tag::Number, digits_of(f.number as nat)) + element(Tag::File, escaped(encode_utf8(f.file)))
        + element(Tag::Utc, utc_text(f.utc)) + color_part(f.color) + depth_part(f.depth) + gsd_part(
        f.gsd,
    )
}

pub proof fn lemma_header_parts(b: Seq<u8>, p: int, f: FrameView)
    requires
        starts_at(b, p, header_text(f) + open_tag(Tag::X)),
    ensures
        ({
            let e0 = element(Tag::Number, digits_of(f.number as nat));
            let e1 = element(Tag::File, escaped(encode_utf8(f.file)));
            let e2 = element(Tag::Utc, utc_text(f.utc));
            let e3 = color_part(f.color);
            let e4 = depth_part(f.depth);
            let e5 = gsd_part(f.gsd);
            &&& starts_at(b, p, e0)
            &&& starts_at(b, p + e0.len(), e1)
            &&& starts_at(b, p + e0.len() + e1.len(), e2)
            &&& starts_at(b, p + e0.len() + e1.len() + e2.len(), e3)
            &&& starts_at(b, p + e0.len() + e1.len() + e2.len() + e3.len(), e4)
            &&& starts_at(b, p + e0.len() + e1.len() + e2.len() + e3.len() + e4.len(), e5)
            &&& (f.color is None ==> (!starts_at(
                b,
                p + e0.len() + e1.len() + e2.len(),
                open_tag(Tag::Color),
            ) && p + e0.len() + e1.len() + e2.len() < b.len() && b[p + e0.len() + e1.len() + e2.len()]
                == 60u8))
            &&& (f.depth is None ==> (!starts_at(
                b,
                p + e0.len() + e1.len() + e2.len() + e3.len(),
                open_tag(Tag::Depth),
            ) && p + e0.len() + e1.len() + e2.len() + e3.len() < b.len() && b[p + e0.len() + e1.len()
                + e2.len() + e3.len()] == 60u8))
            &&& (f.gsd is None ==> (!starts_at(
                b,
                p + e0.len() + e1.len() + e2.len() + e3.len() + e4.len(),
                open_tag(Tag::Gsd),
            ) && p + e0.len() + e1.len() + e2.len() + e3.len() + e4.len() < b.len() && b[p + e0.len()
                + e1.len() + e2.len() + e3.len() + e4.len()] == 60u8))
            &&& header_text(f).len() == e0.len() + e1.len() + e2.len() + e3.len() + e4.len()
                + e5.len()
        }),
{
    reveal(header_text);
    let e0 = element(Tag::Number, digits_of(f.number as nat));
    let e1 = element(Tag::File, escaped(encode_utf8(f.file)));
    let e2 = element(Tag::Utc, utc_text(f.utc));
    let e3 = color_part(f.color);
    let e4 = depth_part(f.depth);
    let e5 = gsd_part(f.gsd);
    let ox = open_tag(Tag::X);
    lemma_starts_concat(b, p, e0 + e1 + e2 + e3 + e4 + e5, ox);
    lemma_starts_concat(b, p, e0 + e1 + e2 + e3 + e4, e5);
    lemma_starts_concat(b, p, e0 + e1 + e2 + e3, e4);
    lemma_starts_concat(b, p, e0 + e1 + e2, e3);
    lemma_starts_concat(b, p, e0 + e1, e2);
    lemma_starts_concat(b, p, e0, e1);
    let q3 = p + e0.len() + e1.len() + e2.len();
    let q4 = q3 + e3.len();
    let q5 = q4 + e4.len();
    let q6 = q5 + e5.len();
    if let Some(g) = f.gsd {
        lemma_element_parts(b, q5, Tag::Gsd, decimal_text(g));
    }
    if let Some(d) = f.depth {
        lemma_element_parts(b, q4, Tag::Depth, depth_text(d));
    }
    if f.gsd is None {
        lemma_open_tags_differ(b, q5, Tag::X, Tag::Gsd);
        lemma_starts_lt(b, q5, open_tag(Tag::X));
    }
    if f.depth is None {
        if f.gsd is Some {
            lemma_open_tags_differ(b, q4, Tag::Gsd, Tag::Depth);
            lemma_starts_lt(b, q4, open_tag(Tag::Gsd));
        } else {
            lemma_open_tags_differ(b, q4, Tag::X, Tag::Depth);
            lemma_starts_lt(b, q4, open_tag(Tag::X));
        }
    }
    if f.color is None {
        if f.depth is Some {
            lemma_open_tags_differ(b, q3, Tag::Depth, Tag::Color);
            lemma_starts_lt(b, q3, open_tag(Tag::Depth));
        } else if f.gsd is Some {
            lemma_open_tags_differ(b, q3, Tag::Gsd, Tag::Color);
            lemma_starts_lt(b, q3, open_tag(Tag::Gsd));
        } else {
            lemma_open_tags_differ(b, q3, Tag::X, Tag::Color);
            lemma_starts_lt(b, q3, open_tag(Tag::X));
        }
    }
}

/// What the header of a frame holds.
pub struct Header {
    pub number: usize,
    pub file: String,
    pub utc: Timestamp,
    pub color: Option<Color>,
    pub depth: Option<Depth>,
    pub gsd: Option<Decimal>,
}

impl Header {
    pub open spec fn agrees(&self, f: FrameView) -> bool {
        &&& self.number == f.number
        &&& self.file@ == f.file
        &&& self.utc == f.utc
        &&& self.color == f.color
        &&& self.depth == f.depth
        &&& self.gsd == f.gsd
    }
}

#[verifier::spinoff_prover]
#[verifier::rlimit(100)]
pub fn read_header(b: &[u8], pos: usize) -> (r: Result<(Header, usize), DecodeError>)
    ensures
        r matches Ok((h, n)) ==> {
            &&& h.utc.wf()
            &&& (h.gsd matches Some(g) ==> g.wf())
            &&& pos <= n <= b@.len()
        },
        forall|f: FrameView|
            f.wf() && #[trigger] starts_at(b@, pos as int, header_text(f) + open_tag(Tag::X)) ==> (
            r matches Ok((h, n)) && h.agrees(f) && n == pos + header_text(f).len()),
{
    let blen = b.len();
    let (number, at1) = match read_count_element(b, pos, Tag::Number) {
        Ok(v) => v,
        Err(e) => {
            proof {
                assert forall|f: FrameView|
                    f.wf() && #[trigger] starts_at(b@, pos as int, header_text(f) + open_tag(Tag::X)) implies false by {
                    lemma_header_parts(b@, pos as int, f);
                }
            }
            return Err(e);
        },
    };
    let (file, at2) = match read_file_element(b, at1) {
        Ok(v) => v,
        Err(e) => {
            proof {
                assert forall|f: FrameView|
                    f.wf() && #[trigger] starts_at(b@, pos as int, header_text(f) + open_tag(Tag::X)) implies false by {
                    lemma_header_parts(b@, pos as int, f);
                }
            }
            return Err(e);
        },
    };
    let (utc, at3) = match read_utc_element(b, at2) {
        Ok(v) => v,
        Err(e) => {
            proof {
                assert forall|f: FrameView|
                    f.wf() && #[trigger] starts_at(b@, pos as int, header_text(f) + open_tag(Tag::X)) implies false by {
                    lemma_header_parts(b@, pos as int, f);
                }
            }
            return Err(e);
        },
    };
    let (color, at4) = match read_color_part(b, at3) {
        Ok(v) => v,
        Err(e) => {
            proof {
                assert forall|f: FrameView|
                    f.wf() && #[trigger] starts_at(b@, pos as int, header_text(f) + open_tag(Tag::X)) implies false by {
                    lemma_header_parts(b@, pos as int, f);
                }
            }
            return Err(e);
        },
    };
    let (depth, at5) = match read_depth_part(b, at4) {
        Ok(v) => v,
        Err(e) => {
            proof {
                assert forall|f: FrameView|
                    f.wf() && #[trigger] starts_at(b@, pos as int, header_text(f) + open_tag(Tag::X)) implies false by {
                    lemma_header_parts(b@, pos as int, f);
                }
            }
            return Err(e);
        },
    };
    let (gsd, at6) = match read_gsd_part(b, at5) {
        Ok(v) => v,
        Err(e) => {
            proof {
                assert forall|f: FrameView|
                    f.wf() && #[trigger] starts_at(b@, pos as int, header_text(f) + open_tag(Tag::X)) implies false by {
                    lemma_header_parts(b@, pos as int, f);
                }
            }
            return Err(e);
        },
    };
    let h = Header { number, file, utc, color, depth, gsd };
    proof {
        assert forall|f: FrameView|
            f.wf() && #[trigger] starts_at(b@, pos as int, header_text(f) + open_tag(Tag::X)) implies h.agrees(f)
                && at6 == pos + header_text(f).len() by {
            lemma_header_parts(b@, pos as int, f);
        }
    }
    Ok((h, at6))
}

/// The markup of a frame's position and weather.
#[verifier::opaque]
pub open spec fn geo_text(f: FrameView) -> Seq<u8> {
    element(Tag::X, decimal_text(f.x)) + element(Tag::Y, decimal_text(f.y)) + element(
        Tag::Lat,
        decimal_text(f.lat),
    ) + element(Tag::Lon, decimal_text(f.lon)) + element(Tag::Sunny, bool_text(f.sunny))
}

pub proof fn lemma_geo_parts(b: Seq<u8>, p: int, f: FrameView)
    requires
        starts_at(b, p, geo_text(f)),
    ensures
        ({
            let e0 = element(Tag::X, decimal_text(f.x));
            let e1 = element(Tag::Y, decimal_text(f.y));
            let e2 = element(Tag::Lat, decimal_text(f.lat));
            let e3 = element(Tag::Lon, decimal_text(f.lon));
            let e4 = element(Tag::Sunny, bool_text(f.sunny));
            &&& starts_at(b, p, e0)
            &&& starts_at(b, p + e0.len(), e1)
            &&& starts_at(b, p + e0.len() + e1.len(), e2)
            &&& starts_at(b, p + e0.len() + e1.len() + e2.len(), e3)
            &&& starts_at(b, p + e0.len() + e1.len() + e2.len() + e3.len(), e4)
            &&& geo_text(f).len() == e0.len() + e1.len() + e2.len() + e3.len() + e4.len()
        }),
{
    reveal(geo_text);
    let e0 = element(Tag::X, decimal_text(f.x));
    let e1 = element(Tag::Y, decimal_text(f.y));
    let e2 = element(Tag::Lat, decimal_text(f.lat));
    let e3 = element(Tag::Lon, decimal_text(f.lon));
    let e4 = element(Tag::Sunny, bool_text(f.sunny));
    lemma_starts_concat(b, p, e0 + e1 + e2 + e3, e4);
    lemma_starts_concat(b, p, e0 + e1 + e2, e3);
    lemma_starts_concat(b, p, e0 + e1, e2);
    lemma_starts_concat(b, p, e0, e1);
}

pub proof fn lemma_geo_starts_open(b: Seq<u8>, p: int, f: FrameView)
    requires
        starts_at(b, p, geo_text(f)),
    ensures
        starts_at(b, p, open_tag(Tag::X)),
{
    lemma_geo_parts(b, p, f);
    lemma_element_parts(b, p, Tag::X, decimal_text(f.x));
}

/// What the position part of a frame holds.
pub struct Geo {
    pub x: Decimal,
    pub y: Decimal,
    pub lat: Decimal,
    pub lon: Decimal,
    pub sunny: bool,
}

impl Geo {
    pub open spec fn agrees(&self, f: FrameView) -> bool {
        self.x == f.x && self.y == f.y && self.lat == f.lat && self.lon == f.lon && self.sunny
            == f.sunny
    }
}

#[verifier::spinoff_prover]
#[verifier::rlimit(100)]
pub fn read_geo(b: &[u8], pos: usize) -> (r: Result<(Geo, usize), DecodeError>)
    ensures
        r matches Ok((g, n)) ==> g.x.wf() && g.y.wf() && g.lat.wf() && g.lon.wf() && pos <= n
            <= b@.len(),
        forall|f: FrameView|
            f.wf() && #[trigger] starts_at(b@, pos as int, geo_text(f)) ==> (r matches Ok((g, n))
                && g.agrees(f) && n == pos + geo_text(f).len()),
{
    let blen = b.len();
    let (x, at1) = match read_decimal_element(b, pos, Tag::X) {
        Ok(v) => v,
        Err(e) => {
            proof {
                assert forall|f: FrameView| f.wf() && #[trigger] starts_at(b@, pos as int, geo_text(f)) implies false by {
                    lemma_geo_parts(b@, pos as int, f);
                }
            }
            return Err(e);
        },
    };
    let (y, at2) = match read_decimal_element(b, at1, Tag::Y) {
        Ok(v) => v,
        Err(e) => {
            proof {
                assert forall|f: FrameView| f.wf() && #[trigger] starts_at(b@, pos as int, geo_text(f)) implies false by {
                    lemma_geo_parts(b@, pos as int, f);
                }
            }
            return Err(e);
        },
    };
    let (lat, at3) = match read_decimal_element(b, at2, Tag::Lat) {
        Ok(v) => v,
        Err(e) => {
            proof {
                assert forall|f: FrameView| f.wf() && #[trigger] starts_at(b@, pos as int, geo_text(f)) implies false by {
                    lemma_geo_parts(b@, pos as int, f);
                }
            }
            return Err(e);
        },
    };
    let (lon, at4) = match read_decimal_element(b, at3, Tag::Lon) {
        Ok(v) => v,
        Err(e) => {
            proof {
                assert forall|f: FrameView| f.wf() && #[trigger] starts_at(b@, pos as int, geo_text(f)) implies false by {
                    lemma_geo_parts(b@, pos as int, f);
                }
            }
            return Err(e);
        },
    };
    let (sunny, at5) = match read_sunny_element(b, at4) {
        Ok(v) => v,
        Err(e) => {
            proof {
                assert forall|f: FrameView| f.wf() && #[trigger] starts_at(b@, pos as int, geo_text(f)) implies false by {
                    lemma_geo_parts(b@, pos as int, f);
                }
            }
            return Err(e);
        },
    };
    let g = Geo { x, y, lat, lon, sunny };
    proof {
        assert forall|f: FrameView| f.wf() && #[trigger] starts_at(b@, pos as int, geo_text(f)) implies g.agrees(f)
            && at5 == pos + geo_text(f).len() by {
            lemma_geo_parts(b@, pos as int, f);
        }
    }
    Ok((g, at5))
}

/// The markup of a frame.
#[verifier::opaque]
pub open spec fn frame_text(f: FrameView) -> Seq<u8> {
    element(
        Tag::Frame,
        header_text(f) + geo_text(f) + element(Tag::ObjectList, objects_text(f.objects)),
    )
}

pub proof fn lemma_frame_parts(b: Seq<u8>, p: int, f: FrameView)
    requires
        starts_at(b, p, frame_text(f)),
    ensures
        ({
            let h = header_text(f);
            let g = geo_text(f);
            let ol = element(Tag::ObjectList, objects_text(f.objects));
            let q0 = p + open_tag(Tag::Frame).len();
            let q1 = q0 + h.len() + g.len();
            &&& starts_at(b, p, open_tag(Tag::Frame))
            &&& starts_at(b, q0, h + open_tag(Tag::X))
            &&& starts_at(b, q0 + h.len(), g)
            &&& starts_at(b, q1, open_tag(Tag::ObjectList))
            &&& starts_at(
                b,
                q1 + open_tag(Tag::ObjectList).len(),
                objects_text(f.objects) + close_tag(Tag::ObjectList),
            )
            &&& starts_at(
                b,
                q1 + open_tag(Tag::ObjectList).len() + objects_text(f.objects).len(),
                close_tag(Tag::ObjectList),
            )
            &&& ol.len() == open_tag(Tag::ObjectList).len() + objects_text(f.objects).len()
                + close_tag(Tag::ObjectList).len()
            &&& starts_at(b, q1 + ol.len(), close_tag(Tag::Frame))
            &&& frame_text(f).len() == open_tag(Tag::Frame).len() + h.len() + g.len() + ol.len()
                + close_tag(Tag::Frame).len()
        }),
{
    reveal(frame_text);
    let h = header_text(f);
    let g = geo_text(f);
    let os = objects_text(f.objects);
    let ol = element(Tag::ObjectList, os);
    let q0 = p + open_tag(Tag::Frame).len();
    let q1 = q0 + h.len() + g.len();
    lemma_element_parts(b, p, Tag::Frame, h + g + ol);
    lemma_starts_concat(b, q0, h + g, ol);
    lemma_starts_concat(b, q0, h, g);
    lemma_geo_starts_open(b, q0 + h.len(), f);
    lemma_starts_concat(b, q0, h, open_tag(Tag::X));
    lemma_element_parts(b, q1, Tag::ObjectList, os);
    lemma_starts_concat(b, q1 + open_tag(Tag::ObjectList).len(), os, close_tag(Tag::ObjectList));
}

/// Appends the markup of a frame.
pub fn push_frame(fr: &Frame, out: &mut Vec<u8>)
    requires
        fr.wf(),
    ensures
        final(out)@ == old(out)@ + frame_text(fr@),
{
    let ghost f = fr@;
    let mut hv: Vec<u8> = Vec::new();
    let mut v: Vec<u8> = Vec::new();
    push_digits(fr.number as u64, &mut v);
    push_element(&mut hv, Tag::Number, &v);
    assert(hv@ =~= element(Tag::Number, digits_of(f.number as nat)));
    let v = text_bytes(&fr.file);
    push_element(&mut hv, Tag::File, &v);
    let v = crate::serde_utc::serialize(&fr.utc);
    push_element(&mut hv, Tag::Utc, &v);
    let ghost h2 = hv@;
    if let Some(c) = fr.color {
        let v = color_bytes(c);
        push_element(&mut hv, Tag::Color, &v);
    }
    assert(hv@ =~= h2 + color_part(f.color));
    let ghost h3 = hv@;
    if let Some(d) = fr.depth {
        let v = depth_bytes(d);
        push_element(&mut hv, Tag::Depth, &v);
    }
    assert(hv@ =~= h3 + depth_part(f.depth));
    let ghost h4 = hv@;
    if let Some(g) = fr.gsd {
        let mut v: Vec<u8> = Vec::new();
        push_decimal(g, &mut v);
        push_element(&mut hv, Tag::Gsd, &v);
    }
    assert(hv@ =~= h4 + gsd_part(f.gsd));
    proof {
        reveal(header_text);
    }
    assert(hv@ == header_text(f));
    let mut gv: Vec<u8> = Vec::new();
    let mut v: Vec<u8> = Vec::new();
    push_decimal(fr.x, &mut v);
    push_element(&mut gv, Tag::X, &v);
    assert(gv@ =~= element(Tag::X, decimal_text(f.x)));
    let mut v: Vec<u8> = Vec::new();
    push_decimal(fr.y, &mut v);
    push_element(&mut gv, Tag::Y, &v);
    let mut v: Vec<u8> = Vec::new();
    push_decimal(fr.lat, &mut v);
    push_element(&mut gv, Tag::Lat, &v);
    let mut v: Vec<u8> = Vec::new();
    push_decimal(fr.lon, &mut v);
    push_element(&mut gv, Tag::Lon, &v);
    let v = crate::serde_zero_one_bool::serialize(fr.sunny);
    push_element(&mut gv, Tag::Sunny, &v);
    proof {
        reveal(geo_text);
    }
    assert(gv@ == geo_text(f));
    let mut ov: Vec<u8> = Vec::new();
    assert(objects_wf(fr.object_list.objects@)) by {
        assert(fr.object_list.objects@ == f.objects);
    }
    push_objects(&fr.object_list.objects, 0, &mut ov);
    assert(f.objects.skip(0) =~= f.objects);
    push_bytes(&mut hv, &gv);
    push_element(&mut hv, Tag::ObjectList, &ov);
    push_element(out, Tag::Frame, &hv);
    proof {
        reveal(frame_text);
    }
}

#[verifier::spinoff_prover]
#[verifier::rlimit(100)]
pub fn read_frame(b: &[u8], pos: usize) -> (r: Result<(Frame, usize), DecodeError>)
    ensures
        r matches Ok((fr, n)) ==> fr.wf() && pos < n <= b@.len(),
        forall|f: FrameView|
            f.wf() && #[trigger] starts_at(b@, pos as int, frame_text(f)) ==> (r matches Ok((fr, n))
                && fr@ == f && n == pos + frame_text(f).len()),
{
    let blen = b.len();
    let o = open_tag_bytes(Tag::Frame);
    let at0 = match expect(b, pos, &o) {
        Ok(v) => v,
        Err(e) => {
            proof {
                assert forall|f: FrameView| f.wf() && #[trigger] starts_at(b@, pos as int, frame_text(f)) implies false by {
                    lemma_frame_parts(b@, pos as int, f);
                    assert(objects_wf(f.objects));
                }
            }
            return Err(e);
        },
    };
    let (h, at1) = match read_header(b, at0) {
        Ok(v) => v,
        Err(e) => {
            proof {
                assert forall|f: FrameView| f.wf() && #[trigger] starts_at(b@, pos as int, frame_text(f)) implies false by {
                    lemma_frame_parts(b@, pos as int, f);
                    assert(objects_wf(f.objects));
                }
            }
            return Err(e);
        },
    };
    let (g, at2) = match read_geo(b, at1) {
        Ok(v) => v,
        Err(e) => {
            proof {
                assert forall|f: FrameView| f.wf() && #[trigger] starts_at(b@, pos as int, frame_text(f)) implies false by {
                    lemma_frame_parts(b@, pos as int, f);
                    assert(objects_wf(f.objects));
                }
            }
            return Err(e);
        },
    };
    let ol = open_tag_bytes(Tag::ObjectList);
    let at3 = match expect(b, at2, &ol) {
        Ok(v) => v,
        Err(e) => {
            proof {
                assert forall|f: FrameView| f.wf() && #[trigger] starts_at(b@, pos as int, frame_text(f)) implies false by {
                    lemma_frame_parts(b@, pos as int, f);
                    assert(objects_wf(f.objects));
                }
            }
            return Err(e);
        },
    };
    let (objects, at4) = match read_objects(b, at3) {
        Ok(v) => v,
        Err(e) => {
            proof {
                assert forall|f: FrameView| f.wf() && #[trigger] starts_at(b@, pos as int, frame_text(f)) implies false by {
                    lemma_frame_parts(b@, pos as int, f);
                    assert(objects_wf(f.objects));
                }
            }
            return Err(e);
        },
    };
    let cl = close_tag_bytes(Tag::ObjectList);
    let at5 = match expect(b, at4, &cl) {
        Ok(v) => v,
        Err(e) => {
            proof {
                assert forall|f: FrameView| f.wf() && #[trigger] starts_at(b@, pos as int, frame_text(f)) implies false by {
                    lemma_frame_parts(b@, pos as int, f);
                    assert(objects_wf(f.objects));
                }
            }
            return Err(e);
        },
    };
    let c = close_tag_bytes(Tag::Frame);
    let at6 = match expect(b, at5, &c) {
        Ok(v) => v,
        Err(e) => {
            proof {
                assert forall|f: FrameView| f.wf() && #[trigger] starts_at(b@, pos as int, frame_text(f)) implies false by {
                    lemma_frame_parts(b@, pos as int, f);
                    assert(objects_wf(f.objects));
                }
            }
            return Err(e);
        },
    };
    let fr = Frame {
        number: h.number,
        file: h.file,
        utc: h.utc,
        color: h.color,
        depth: h.depth,
        gsd: h.gsd,
        x: g.x,
        y: g.y,
        lat: g.lat,
        lon: g.lon,
        sunny: g.sunny,
        object_list: ObjectList { objects },
    };
    proof {
        assert forall|f: FrameView| f.wf() && #[trigger] starts_at(b@, pos as int, frame_text(f)) implies fr@ == f
            && at6 == pos + frame_text(f).len() by {
            lemma_frame_parts(b@, pos as int, f);
            assert(objects_wf(f.objects));
        }
    }
    Ok((fr, at6))
}

} // verus!
