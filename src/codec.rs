//! The annotation document: writing records as markup and reading them back.
use vstd::prelude::*;
use crate::digits::{digits_of, lemma_digits_of, push_digits};
use crate::fields::{
    decimal_text, lemma_decimal_shape, push_decimal, read_count, read_decimal,
    read_representation_type, representation_type_bytes, representation_type_text, DecodeError,
};
use crate::markup::{
    close_tag, peek, close_tag_bytes, element, expect, free_of_lt, lemma_element_parts,
    lemma_starts_concat, open_tag, open_tag_bytes, push_element, read_leaf, starts_at,
    Tag,
};
use crate::model::{Box, Decimal, Object, Representation, RepresentationType};

verus! {

pub proof fn lemma_decimal_free(d: Decimal)
    requires
        d.wf(),
    ensures
        free_of_lt(decimal_text(d)),
{
    let t = decimal_text(d);
    let n = t.len() as int;
    assert(t.subrange(0, n) =~= t);
    lemma_decimal_shape(t, 0, n, d);
    let start: int = if d.mantissa < 0 { 1 } else { 0 };
    let k = start + digits_of(d.magnitude() / d.denominator()).len();
    assert forall|j: int| 0 <= j < n implies #[trigger] t[j] != 60u8 by {
        if start <= j < k {
            assert(t.subrange(start, k)[j - start] == t[j]);
        } else if j > k {
            assert(t.subrange(k + 1, n)[j - k - 1] == t[j]);
        }
    }
}

pub proof fn lemma_digits_free(n: nat)
    ensures
        free_of_lt(digits_of(n)),
{
    lemma_digits_of(n);
    let t = digits_of(n);
    assert forall|j: int| 0 <= j < t.len() implies #[trigger] t[j] != 60u8 by {
        assert(crate::digits::is_digit(t[j]));
    }
}

/// Reads a number element named `t`.
pub fn read_decimal_element(b: &[u8], pos: usize, t: Tag) -> (r: Result<(Decimal, usize), DecodeError>)
    ensures
        r matches Ok((d, n)) ==> d.wf() && pos <= n <= b@.len(),
        forall|d: Decimal|
            d.wf() && #[trigger] starts_at(b@, pos as int, element(t, decimal_text(d))) ==> r
                == Ok::<(Decimal, usize), DecodeError>(
                (d, (pos + element(t, decimal_text(d)).len()) as usize),
            ),
{
    match read_leaf(b, pos, t) {
        None => {
            proof {
                assert forall|d: Decimal|
                    d.wf() && #[trigger] starts_at(b@, pos as int, element(t, decimal_text(d))) implies false by {
                    lemma_decimal_free(d);
                }
            }
            Err(DecodeError::Markup { at: pos })
        },
        Some((lo, hi, next)) => {
            let blen = b.len();
            let r = read_decimal(b, lo, hi, t);
            proof {
                assert forall|d: Decimal|
                    d.wf() && #[trigger] starts_at(b@, pos as int, element(t, decimal_text(d))) implies r
                        == Ok::<Decimal, DecodeError>(d) && next == pos + element(
                        t,
                        decimal_text(d),
                    ).len() by {
                    lemma_decimal_free(d);
                    lemma_element_parts(b@, pos as int, t, decimal_text(d));
                }
            }
            match r {
                Ok(d) => Ok((d, next)),
                Err(e) => Err(e),
            }
        },
    }
}

/// Reads a count element named `t`.
pub fn read_count_element(b: &[u8], pos: usize, t: Tag) -> (r: Result<(usize, usize), DecodeError>)
    ensures
        r matches Ok((v, n)) ==> pos <= n <= b@.len(),
        forall|v: usize|
            #[trigger] starts_at(b@, pos as int, element(t, digits_of(v as nat))) ==> r == Ok::<
                (usize, usize),
                DecodeError,
            >((v, (pos + element(t, digits_of(v as nat)).len()) as usize)),
{
    match read_leaf(b, pos, t) {
        None => {
            proof {
                assert forall|v: usize|
                    #[trigger] starts_at(b@, pos as int, element(t, digits_of(v as nat))) implies false by {
                    lemma_digits_free(v as nat);
                }
            }
            Err(DecodeError::Markup { at: pos })
        },
        Some((lo, hi, next)) => {
            let blen = b.len();
            let r = read_count(b, lo, hi, t);
            proof {
                assert forall|v: usize|
                    #[trigger] starts_at(b@, pos as int, element(t, digits_of(v as nat))) implies r
                        == Ok::<usize, DecodeError>(v) && next == pos + element(
                        t,
                        digits_of(v as nat),
                    ).len() by {
                    lemma_digits_free(v as nat);
                    lemma_element_parts(b@, pos as int, t, digits_of(v as nat));
                }
            }
            match r {
                Ok(v) => Ok((v, next)),
                Err(e) => Err(e),
            }
        },
    }
}

/// Reads the representation type element.
pub fn read_type_element(b: &[u8], pos: usize) -> (r: Result<(RepresentationType, usize), DecodeError>)
    ensures
        r matches Ok((k, n)) ==> pos <= n <= b@.len(),
        forall|k: RepresentationType|
            #[trigger] starts_at(b@, pos as int, element(Tag::Type, representation_type_text(k)))
                ==> r == Ok::<(RepresentationType, usize), DecodeError>(
                (k, (pos + element(Tag::Type, representation_type_text(k)).len()) as usize),
            ),
{
    let blen = b.len();
    match read_leaf(b, pos, Tag::Type) {
        None => Err(DecodeError::Markup { at: pos }),
        Some((lo, hi, next)) => {
            let r = read_representation_type(b, lo, hi);
            proof {
                assert forall|k: RepresentationType|
                    #[trigger] starts_at(
                        b@,
                        pos as int,
                        element(Tag::Type, representation_type_text(k)),
                    ) implies r == Ok::<RepresentationType, DecodeError>(k) && next == pos + element(
                        Tag::Type,
                        representation_type_text(k),
                    ).len() by {
                    lemma_element_parts(b@, pos as int, Tag::Type, representation_type_text(k));
                }
            }
            match r {
                Ok(k) => Ok((k, next)),
                Err(e) => Err(e),
            }
        },
    }
}

/// The markup of an axis-aligned box.
#[verifier::opaque]
pub open spec fn box_text(x: Box) -> Seq<u8> {
    element(
        Tag::Box,
        element(Tag::Xc, decimal_text(x.xc))
            + element(Tag::Yc, decimal_text(x.yc))
            + element(Tag::W, decimal_text(x.w))
            + element(Tag::H, decimal_text(x.h)),
    )
}

pub proof fn lemma_box_parts(b: Seq<u8>, p: int, x: Box)
    requires
        starts_at(b, p, box_text(x)),
    ensures
        ({
            let e0 = element(Tag::Xc, decimal_text(x.xc));
            let e1 = element(Tag::Yc, decimal_text(x.yc));
            let e2 = element(Tag::W, decimal_text(x.w));
            let e3 = element(Tag::H, decimal_text(x.h));
            let q0 = p + open_tag(Tag::Box).len();
            &&& starts_at(b, p, open_tag(Tag::Box))
            &&& starts_at(b, q0, e0)
            &&& starts_at(b, q0 + e0.len(), e1)
            &&& starts_at(b, q0 + e0.len() + e1.len(), e2)
            &&& starts_at(b, q0 + e0.len() + e1.len() + e2.len(), e3)
            &&& starts_at(b, q0 + e0.len() + e1.len() + e2.len() + e3.len(), close_tag(Tag::Box))
            &&& box_text(x).len() == open_tag(Tag::Box).len() + e0.len() + e1.len() + e2.len() + e3.len() + close_tag(Tag::Box).len()
        }),
{
    reveal(box_text);
    let e0 = element(Tag::Xc, decimal_text(x.xc));
    let e1 = element(Tag::Yc, decimal_text(x.yc));
    let e2 = element(Tag::W, decimal_text(x.w));
    let e3 = element(Tag::H, decimal_text(x.h));
    let q0 = p + open_tag(Tag::Box).len();
    lemma_element_parts(b, p, Tag::Box, e0 + e1 + e2 + e3);
    lemma_starts_concat(b, q0, e0 + e1 + e2, e3);
    lemma_starts_concat(b, q0, e0 + e1, e2);
    lemma_starts_concat(b, q0, e0, e1);
}

pub fn push_box(x: &Box, out: &mut Vec<u8>)
    requires
        x.wf(),
    ensures
        final(out)@ == old(out)@ + box_text(*x),
{
    let mut body: Vec<u8> = Vec::new();
    let mut v: Vec<u8> = Vec::new();
    push_decimal(x.xc, &mut v);
    push_element(&mut body, Tag::Xc, &v);
    assert(body@ =~= element(Tag::Xc, decimal_text(x.xc)));
    let mut v: Vec<u8> = Vec::new();
    push_decimal(x.yc, &mut v);
    push_element(&mut body, Tag::Yc, &v);
    let mut v: Vec<u8> = Vec::new();
    push_decimal(x.w, &mut v);
    push_element(&mut body, Tag::W, &v);
    let mut v: Vec<u8> = Vec::new();
    push_decimal(x.h, &mut v);
    push_element(&mut body, Tag::H, &v);
    push_element(out, Tag::Box, &body);
    proof {
        reveal(box_text);
    }
}

#[verifier::spinoff_prover]
#[verifier::rlimit(100)]
pub fn read_box(b: &[u8], pos: usize) -> (r: Result<(Box, usize), DecodeError>)
    ensures
        r matches Ok((x, n)) ==> x.wf() && pos < n <= b@.len(),
        forall|x: Box|
            x.wf() && #[trigger] starts_at(b@, pos as int, box_text(x)) ==> r == Ok::<
                (Box, usize),
                DecodeError,
            >((x, (pos + box_text(x).len()) as usize)),
{
    let blen = b.len();
    let o = open_tag_bytes(Tag::Box);
    let at0 = match expect(b, pos, &o) {
        Ok(p) => p,
        Err(e) => {
            proof {
                assert forall|x: Box| x.wf() && #[trigger] starts_at(b@, pos as int, box_text(x)) implies false by {
                    lemma_box_parts(b@, pos as int, x);
                }
            }
            return Err(e);
        },
    };
    let (v_xc, at1) = match read_decimal_element(b, at0, Tag::Xc) {
        Ok(v) => v,
        Err(e) => {
            proof {
                assert forall|x: Box| x.wf() && #[trigger] starts_at(b@, pos as int, box_text(x)) implies false by {
                    lemma_box_parts(b@, pos as int, x);
                }
            }
            return Err(e);
        },
    };
    let (v_yc, at2) = match read_decimal_element(b, at1, Tag::Yc) {
        Ok(v) => v,
        Err(e) => {
            proof {
                assert forall|x: Box| x.wf() && #[trigger] starts_at(b@, pos as int, box_text(x)) implies false by {
                    lemma_box_parts(b@, pos as int, x);
                }
            }
            return Err(e);
        },
    };
    let (v_w, at3) = match read_decimal_element(b, at2, Tag::W) {
        Ok(v) => v,
        Err(e) => {
            proof {
                assert forall|x: Box| x.wf() && #[trigger] starts_at(b@, pos as int, box_text(x)) implies false by {
                    lemma_box_parts(b@, pos as int, x);
                }
            }
            return Err(e);
        },
    };
    let (v_h, at4) = match read_decimal_element(b, at3, Tag::H) {
        Ok(v) => v,
        Err(e) => {
            proof {
                assert forall|x: Box| x.wf() && #[trigger] starts_at(b@, pos as int, box_text(x)) implies false by {
                    lemma_box_parts(b@, pos as int, x);
                }
            }
            return Err(e);
        },
    };
    let c = close_tag_bytes(Tag::Box);
    let end = match expect(b, at4, &c) {
        Ok(p) => p,
        Err(e) => {
            proof {
                assert forall|x: Box| x.wf() && #[trigger] starts_at(b@, pos as int, box_text(x)) implies false by {
                    lemma_box_parts(b@, pos as int, x);
                }
            }
            return Err(e);
        },
    };
    let x = Box { xc: v_xc, yc: v_yc, w: v_w, h: v_h };
    proof {
        assert forall|y: Box| y.wf() && #[trigger] starts_at(b@, pos as int, box_text(y)) implies x == y
            && end == pos + box_text(y).len() by {
            lemma_box_parts(b@, pos as int, y);
        }
    }
    Ok((x, end))
}

/// The markup of an oriented box.
#[verifier::opaque]
pub open spec fn representation_text(x: Representation) -> Seq<u8> {
    element(
        Tag::Representation,
        element(Tag::Type, representation_type_text(x.kind))
            + element(Tag::Xc, decimal_text(x.xc))
            + element(Tag::Yc, decimal_text(x.yc))
            + element(Tag::W, decimal_text(x.w))
            + element(Tag::H, decimal_text(x.h))
            + element(Tag::O, decimal_text(x.o)),
    )
}

pub proof fn lemma_representation_parts(b: Seq<u8>, p: int, x: Representation)
    requires
        starts_at(b, p, representation_text(x)),
    ensures
        ({
            let e0 = element(Tag::Type, representation_type_text(x.kind));
            let e1 = element(Tag::Xc, decimal_text(x.xc));
            let e2 = element(Tag::Yc, decimal_text(x.yc));
            let e3 = element(Tag::W, decimal_text(x.w));
            let e4 = element(Tag::H, decimal_text(x.h));
            let e5 = element(Tag::O, decimal_text(x.o));
            let q0 = p + open_tag(Tag::Representation).len();
            &&& starts_at(b, p, open_tag(Tag::Representation))
            &&& starts_at(b, q0, e0)
            &&& starts_at(b, q0 + e0.len(), e1)
            &&& starts_at(b, q0 + e0.len() + e1.len(), e2)
            &&& starts_at(b, q0 + e0.len() + e1.len() + e2.len(), e3)
            &&& starts_at(b, q0 + e0.len() + e1.len() + e2.len() + e3.len(), e4)
            &&& starts_at(b, q0 + e0.len() + e1.len() + e2.len() + e3.len() + e4.len(), e5)
            &&& starts_at(b, q0 + e0.len() + e1.len() + e2.len() + e3.len() + e4.len() + e5.len(), close_tag(Tag::Representation))
            &&& representation_text(x).len() == open_tag(Tag::Representation).len() + e0.len() + e1.len() + e2.len() + e3.len() + e4.len() + e5.len() + close_tag(Tag::Representation).len()
        }),
{
    reveal(representation_text);
    let e0 = element(Tag::Type, representation_type_text(x.kind));
    let e1 = element(Tag::Xc, decimal_text(x.xc));
    let e2 = element(Tag::Yc, decimal_text(x.yc));
    let e3 = element(Tag::W, decimal_text(x.w));
    let e4 = element(Tag::H, decimal_text(x.h));
    let e5 = element(Tag::O, decimal_text(x.o));
    let q0 = p + open_tag(Tag::Representation).len();
    lemma_element_parts(b, p, Tag::Representation, e0 + e1 + e2 + e3 + e4 + e5);
    lemma_starts_concat(b, q0, e0 + e1 + e2 + e3 + e4, e5);
    lemma_starts_concat(b, q0, e0 + e1 + e2 + e3, e4);
    lemma_starts_concat(b, q0, e0 + e1 + e2, e3);
    lemma_starts_concat(b, q0, e0 + e1, e2);
    lemma_starts_concat(b, q0, e0, e1);
}

pub fn push_representation(x: &Representation, out: &mut Vec<u8>)
    requires
        x.wf(),
    ensures
        final(out)@ == old(out)@ + representation_text(*x),
{
    let mut body: Vec<u8> = Vec::new();
    let v = representation_type_bytes(x.kind);
    push_element(&mut body, Tag::Type, &v);
    assert(body@ =~= element(Tag::Type, representation_type_text(x.kind)));
    let mut v: Vec<u8> = Vec::new();
    push_decimal(x.xc, &mut v);
    push_element(&mut body, Tag::Xc, &v);
    let mut v: Vec<u8> = Vec::new();
    push_decimal(x.yc, &mut v);
    push_element(&mut body, Tag::Yc, &v);
    let mut v: Vec<u8> = Vec::new();
    push_decimal(x.w, &mut v);
    push_element(&mut body, Tag::W, &v);
    let mut v: Vec<u8> = Vec::new();
    push_decimal(x.h, &mut v);
    push_element(&mut body, Tag::H, &v);
    let mut v: Vec<u8> = Vec::new();
    push_decimal(x.o, &mut v);
    push_element(&mut body, Tag::O, &v);
    push_element(out, Tag::Representation, &body);
    proof {
        reveal(representation_text);
    }
}

#[verifier::spinoff_prover]
#[verifier::rlimit(100)]
pub fn read_representation(b: &[u8], pos: usize) -> (r: Result<(Representation, usize), DecodeError>)
    ensures
        r matches Ok((x, n)) ==> x.wf() && pos < n <= b@.len(),
        forall|x: Representation|
            x.wf() && #[trigger] starts_at(b@, pos as int, representation_text(x)) ==> r == Ok::<
                (Representation, usize),
                DecodeError,
            >((x, (pos + representation_text(x).len()) as usize)),
{
    let blen = b.len();
    let o = open_tag_bytes(Tag::Representation);
    let at0 = match expect(b, pos, &o) {
        Ok(p) => p,
        Err(e) => {
            proof {
                assert forall|x: Representation| x.wf() && #[trigger] starts_at(b@, pos as int, representation_text(x)) implies false by {
                    lemma_representation_parts(b@, pos as int, x);
                }
            }
            return Err(e);
        },
    };
    let (v_kind, at1) = match read_type_element(b, at0) {
        Ok(v) => v,
        Err(e) => {
            proof {
                assert forall|x: Representation| x.wf() && #[trigger] starts_at(b@, pos as int, representation_text(x)) implies false by {
                    lemma_representation_parts(b@, pos as int, x);
                }
            }
            return Err(e);
        },
    };
    let (v_xc, at2) = match read_decimal_element(b, at1, Tag::Xc) {
        Ok(v) => v,
        Err(e) => {
            proof {
                assert forall|x: Representation| x.wf() && #[trigger] starts_at(b@, pos as int, representation_text(x)) implies false by {
                    lemma_representation_parts(b@, pos as int, x);
                }
            }
            return Err(e);
        },
    };
    let (v_yc, at3) = match read_decimal_element(b, at2, Tag::Yc) {
        Ok(v) => v,
        Err(e) => {
            proof {
                assert forall|x: Representation| x.wf() && #[trigger] starts_at(b@, pos as int, representation_text(x)) implies false by {
                    lemma_representation_parts(b@, pos as int, x);
                }
            }
            return Err(e);
        },
    };
    let (v_w, at4) = match read_decimal_element(b, at3, Tag::W) {
        Ok(v) => v,
        Err(e) => {
            proof {
                assert forall|x: Representation| x.wf() && #[trigger] starts_at(b@, pos as int, representation_text(x)) implies false by {
                    lemma_representation_parts(b@, pos as int, x);
                }
            }
            return Err(e);
        },
    };
    let (v_h, at5) = match read_decimal_element(b, at4, Tag::H) {
        Ok(v) => v,
        Err(e) => {
            proof {
                assert forall|x: Representation| x.wf() && #[trigger] starts_at(b@, pos as int, representation_text(x)) implies false by {
                    lemma_representation_parts(b@, pos as int, x);
                }
            }
            return Err(e);
        },
    };
    let (v_o, at6) = match read_decimal_element(b, at5, Tag::O) {
        Ok(v) => v,
        Err(e) => {
            proof {
                assert forall|x: Representation| x.wf() && #[trigger] starts_at(b@, pos as int, representation_text(x)) implies false by {
                    lemma_representation_parts(b@, pos as int, x);
                }
            }
            return Err(e);
        },
    };
    let c = close_tag_bytes(Tag::Representation);
    let end = match expect(b, at6, &c) {
        Ok(p) => p,
        Err(e) => {
            proof {
                assert forall|x: Representation| x.wf() && #[trigger] starts_at(b@, pos as int, representation_text(x)) implies false by {
                    lemma_representation_parts(b@, pos as int, x);
                }
            }
            return Err(e);
        },
    };
    let x = Representation { kind: v_kind, xc: v_xc, yc: v_yc, w: v_w, h: v_h, o: v_o };
    proof {
        assert forall|y: Representation| y.wf() && #[trigger] starts_at(b@, pos as int, representation_text(y)) implies x == y
            && end == pos + representation_text(y).len() by {
            lemma_representation_parts(b@, pos as int, y);
        }
    }
    Ok((x, end))
}

/// The markup of a detection.
#[verifier::opaque]
pub open spec fn object_text(x: Object) -> Seq<u8> {
    element(
        Tag::Object,
        element(Tag::Id, digits_of(x.id as nat))
            + box_text(x.bbox)
            + representation_text(x.representation),
    )
}

pub proof fn lemma_object_parts(b: Seq<u8>, p: int, x: Object)
    requires
        starts_at(b, p, object_text(x)),
    ensures
        ({
            let e0 = element(Tag::Id, digits_of(x.id as nat));
            let e1 = box_text(x.bbox);
            let e2 = representation_text(x.representation);
            let q0 = p + open_tag(Tag::Object).len();
            &&& starts_at(b, p, open_tag(Tag::Object))
            &&& starts_at(b, q0, e0)
            &&& starts_at(b, q0 + e0.len(), e1)
            &&& starts_at(b, q0 + e0.len() + e1.len(), e2)
            &&& starts_at(b, q0 + e0.len() + e1.len() + e2.len(), close_tag(Tag::Object))
            &&& object_text(x).len() == open_tag(Tag::Object).len() + e0.len() + e1.len() + e2.len() + close_tag(Tag::Object).len()
        }),
{
    reveal(object_text);
    let e0 = element(Tag::Id, digits_of(x.id as nat));
    let e1 = box_text(x.bbox);
    let e2 = representation_text(x.representation);
    let q0 = p + open_tag(Tag::Object).len();
    lemma_element_parts(b, p, Tag::Object, e0 + e1 + e2);
    lemma_starts_concat(b, q0, e0 + e1, e2);
    lemma_starts_concat(b, q0, e0, e1);
}

pub fn push_object(x: &Object, out: &mut Vec<u8>)
    requires
        x.wf(),
    ensures
        final(out)@ == old(out)@ + object_text(*x),
{
    let mut body: Vec<u8> = Vec::new();
    let mut v: Vec<u8> = Vec::new();
    push_digits(x.id as u64, &mut v);
    push_element(&mut body, Tag::Id, &v);
    assert(body@ =~= element(Tag::Id, digits_of(x.id as nat)));
    push_box(&x.bbox, &mut body);
    push_representation(&x.representation, &mut body);
    push_element(out, Tag::Object, &body);
    proof {
        reveal(object_text);
    }
}

#[verifier::spinoff_prover]
#[verifier::rlimit(100)]
pub fn read_object(b: &[u8], pos: usize) -> (r: Result<(Object, usize), DecodeError>)
    ensures
        r matches Ok((x, n)) ==> x.wf() && pos < n <= b@.len(),
        forall|x: Object|
            x.wf() && #[trigger] starts_at(b@, pos as int, object_text(x)) ==> r == Ok::<
                (Object, usize),
                DecodeError,
            >((x, (pos + object_text(x).len()) as usize)),
{
    let blen = b.len();
    let o = open_tag_bytes(Tag::Object);
    let at0 = match expect(b, pos, &o) {
        Ok(p) => p,
        Err(e) => {
            proof {
                assert forall|x: Object| x.wf() && #[trigger] starts_at(b@, pos as int, object_text(x)) implies false by {
                    lemma_object_parts(b@, pos as int, x);
                }
            }
            return Err(e);
        },
    };
    let (v_id, at1) = match read_count_element(b, at0, Tag::Id) {
        Ok(v) => v,
        Err(e) => {
            proof {
                assert forall|x: Object| x.wf() && #[trigger] starts_at(b@, pos as int, object_text(x)) implies false by {
                    lemma_object_parts(b@, pos as int, x);
                }
            }
            return Err(e);
        },
    };
    let (v_bbox, at2) = match read_box(b, at1) {
        Ok(v) => v,
        Err(e) => {
            proof {
                assert forall|x: Object| x.wf() && #[trigger] starts_at(b@, pos as int, object_text(x)) implies false by {
                    lemma_object_parts(b@, pos as int, x);
                }
            }
            return Err(e);
        },
    };
    let (v_representation, at3) = match read_representation(b, at2) {
        Ok(v) => v,
        Err(e) => {
            proof {
                assert forall|x: Object| x.wf() && #[trigger] starts_at(b@, pos as int, object_text(x)) implies false by {
                    lemma_object_parts(b@, pos as int, x);
                }
            }
            return Err(e);
        },
    };
    let c = close_tag_bytes(Tag::Object);
    let end = match expect(b, at3, &c) {
        Ok(p) => p,
        Err(e) => {
            proof {
                assert forall|x: Object| x.wf() && #[trigger] starts_at(b@, pos as int, object_text(x)) implies false by {
                    lemma_object_parts(b@, pos as int, x);
                }
            }
            return Err(e);
        },
    };
    let x = Object { id: v_id, bbox: v_bbox, representation: v_representation };
    proof {
        assert forall|y: Object| y.wf() && #[trigger] starts_at(b@, pos as int, object_text(y)) implies x == y
            && end == pos + object_text(y).len() by {
            lemma_object_parts(b@, pos as int, y);
        }
    }
    Ok((x, end))
}

/// The markup of a sequence of detections, in order.
pub open spec fn objects_text(s: Seq<Object>) -> Seq<u8>
    decreases s.len(),
{
    if s.len() == 0 {
        Seq::<u8>::empty()
    } else {
        object_text(s[0]) + objects_text(s.drop_first())
    }
}

pub proof fn lemma_objects_step(s: Seq<Object>, i: int)
    requires
        0 <= i < s.len(),
    ensures
        objects_text(s.skip(i)) == object_text(s[i]) + objects_text(s.skip(i + 1)),
{
    assert(s.skip(i).drop_first() =~= s.skip(i + 1));
}

pub proof fn lemma_object_starts_open(b: Seq<u8>, p: int, x: Object)
    requires
        starts_at(b, p, object_text(x)),
    ensures
        starts_at(b, p, open_tag(Tag::Object)),
{
    lemma_object_parts(b, p, x);
}

/// The objects are well formed.
pub open spec fn objects_wf(s: Seq<Object>) -> bool {
    forall|i: int| 0 <= i < s.len() ==> (#[trigger] s[i]).wf()
}

/// Appends the markup of `v[i..]`.
pub fn push_objects(v: &Vec<Object>, i: usize, out: &mut Vec<u8>)
    requires
        i <= v@.len(),
        objects_wf(v@),
    ensures
        final(out)@ == old(out)@ + objects_text(v@.skip(i as int)),
    decreases v@.len() - i,
{
    if i == v.len() {
        assert(v@.skip(i as int) =~= Seq::<Object>::empty());
        assert(final(out)@ =~= old(out)@ + objects_text(v@.skip(i as int)));
    } else {
        let ghost before = out@;
        proof {
            lemma_objects_step(v@, i as int);
        }
        push_object(&v[i], out);
        push_objects(v, i + 1, out);
        proof {
            crate::markup::lemma_add_assoc(
                before,
                object_text(v@[i as int]),
                objects_text(v@.skip(i + 1)),
            );
        }
    }
}

/// Reads detections up to the close tag of the list.
#[verifier::rlimit(100)]
pub fn read_objects(b: &[u8], pos: usize) -> (r: Result<(Vec<Object>, usize), DecodeError>)
    ensures
        r matches Ok((v, n)) ==> objects_wf(v@) && pos <= n <= b@.len(),
        forall|s: Seq<Object>|
            objects_wf(s) && #[trigger] starts_at(
                b@,
                pos as int,
                objects_text(s) + close_tag(Tag::ObjectList),
            ) ==> (r matches Ok((v, n)) && v@ == s && n == pos + objects_text(s).len()),
{
    let blen = b.len();
    if pos > blen {
        return Err(DecodeError::Markup { at: pos });
    }
    let o = open_tag_bytes(Tag::Object);
    let mut v: Vec<Object> = Vec::new();
    let mut p: usize = pos;
    proof {
        assert forall|s: Seq<Object>|
            objects_wf(s) && #[trigger] starts_at(
                b@,
                pos as int,
                objects_text(s) + close_tag(Tag::ObjectList),
            ) implies s.skip(0) == s by {
            assert(s.skip(0) =~= s);
        }
    }
    while peek(b, p, &o)
        invariant
            blen == b@.len(),
            o@ == open_tag(Tag::Object),
            pos <= p <= b@.len(),
            objects_wf(v@),
            forall|s: Seq<Object>|
                objects_wf(s) && #[trigger] starts_at(
                    b@,
                    pos as int,
                    objects_text(s) + close_tag(Tag::ObjectList),
                ) ==> {
                    &&& v@.len() <= s.len()
                    &&& v@ == s.take(v@.len() as int)
                    &&& starts_at(
                        b@,
                        p as int,
                        objects_text(s.skip(v@.len() as int)) + close_tag(Tag::ObjectList),
                    )
                    &&& p + objects_text(s.skip(v@.len() as int)).len() == pos + objects_text(s).len()
                },
        decreases b@.len() - p,
    {
        let ghost i = v@.len() as int;
        proof {
            assert forall|s: Seq<Object>|
                objects_wf(s) && #[trigger] starts_at(
                    b@,
                    pos as int,
                    objects_text(s) + close_tag(Tag::ObjectList),
                ) implies i < s.len() && starts_at(b@, p as int, object_text(s[i])) && starts_at(
                    b@,
                    p + object_text(s[i]).len(),
                    objects_text(s.skip(i + 1)) + close_tag(Tag::ObjectList),
                ) by {
                if i == s.len() {
                    assert(s.skip(i) =~= Seq::<Object>::empty());
                    assert(objects_text(s.skip(i)) + close_tag(Tag::ObjectList) =~= close_tag(Tag::ObjectList));
                    crate::markup::lemma_starts_lt(b@, p as int, close_tag(Tag::ObjectList));
                    crate::markup::lemma_open_not_close(b@, p as int, Tag::Object, Tag::ObjectList);
                } else {
                    lemma_objects_step(s, i);
                    assert(objects_text(s.skip(i)) + close_tag(Tag::ObjectList) =~= object_text(s[i]) + (
                    objects_text(s.skip(i + 1)) + close_tag(Tag::ObjectList)));
                    lemma_starts_concat(
                        b@,
                        p as int,
                        object_text(s[i]),
                        objects_text(s.skip(i + 1)) + close_tag(Tag::ObjectList),
                    );
                }
            }
        }
        let (x, n) = match read_object(b, p) {
            Ok(r) => r,
            Err(e) => {
                return Err(e);
            },
        };
        let ghost p_old = p;
        v.push(x);
        p = n;
        proof {
            assert forall|s: Seq<Object>|
                objects_wf(s) && #[trigger] starts_at(
                    b@,
                    pos as int,
                    objects_text(s) + close_tag(Tag::ObjectList),
                ) implies {
                    &&& v@.len() <= s.len()
                    &&& v@ == s.take(v@.len() as int)
                    &&& starts_at(
                        b@,
                        p as int,
                        objects_text(s.skip(v@.len() as int)) + close_tag(Tag::ObjectList),
                    )
                    &&& p + objects_text(s.skip(v@.len() as int)).len() == pos + objects_text(s).len()
                } by {
                assert(v@ =~= s.take(i + 1));
                lemma_objects_step(s, i);
                assert(x == s[i]);
                assert(p == p_old + object_text(s[i]).len());
            }
        }
    }
    proof {
        assert forall|s: Seq<Object>|
            objects_wf(s) && #[trigger] starts_at(
                b@,
                pos as int,
                objects_text(s) + close_tag(Tag::ObjectList),
            ) implies v@ == s && p == pos + objects_text(s).len() by {
            let i = v@.len() as int;
            if i < s.len() {
                lemma_objects_step(s, i);
                lemma_starts_concat(
                    b@,
                    p as int,
                    object_text(s[i]),
                    objects_text(s.skip(i + 1)) + close_tag(Tag::ObjectList),
                );
                assert(objects_text(s.skip(i)) + close_tag(Tag::ObjectList) =~= object_text(s[i]) + (
                objects_text(s.skip(i + 1)) + close_tag(Tag::ObjectList)));
                lemma_object_starts_open(b@, p as int, s[i]);
                crate::markup::lemma_starts_lt(b@, p as int, open_tag(Tag::Object));
            }
            assert(s.take(i) =~= s);
            assert(s.skip(i) =~= Seq::<Object>::empty());
        }
    }
    Ok((v, p))
}

} // verus!
