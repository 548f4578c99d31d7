//! Whole annotation documents.
use vstd::prelude::*;
use crate::fields::DecodeError;
use crate::frame::{frame_text, lemma_frame_parts, push_frame, read_frame};
use crate::markup::{
    close_tag, is_space, peek, skip_space, close_tag_bytes, element, expect, lemma_add_assoc, lemma_element_parts,
    lemma_open_not_close, lemma_starts_concat, open_tag, open_tag_bytes, push_element, starts_at,
    Tag,
};
use crate::model::{Dataset, Frame, FrameView};

verus! {

/// The markup of a sequence of frames, in order.
pub open spec fn frames_text(s: Seq<FrameView>) -> Seq<u8>
    decreases s.len(),
{
    if s.len() == 0 {
        Seq::<u8>::empty()
    } else {
        frame_text(s[0]) + frames_text(s.drop_first())
    }
}

/// The markup of a whole dataset.
pub open spec fn dataset_text(s: Seq<FrameView>) -> Seq<u8> {
    element(Tag::Dataset, frames_text(s))
}

/// The frames are well formed.
pub open spec fn frames_wf(s: Seq<FrameView>) -> bool {
    forall|i: int| 0 <= i < s.len() ==> (#[trigger] s[i]).wf()
}

pub open spec fn views(v: Seq<Frame>) -> Seq<FrameView> {
    v.map_values(|x: Frame| x@)
}

pub proof fn lemma_frames_step(s: Seq<FrameView>, i: int)
    requires
        0 <= i < s.len(),
    ensures
        frames_text(s.skip(i)) == frame_text(s[i]) + frames_text(s.skip(i + 1)),
{
    assert(s.skip(i).drop_first() =~= s.skip(i + 1));
}

/// Appends the markup of `v[i..]`.
pub fn push_frames(v: &Vec<Frame>, i: usize, out: &mut Vec<u8>)
    requires
        i <= v@.len(),
        frames_wf(views(v@)),
    ensures
        final(out)@ == old(out)@ + frames_text(views(v@).skip(i as int)),
    decreases v@.len() - i,
{
    if i == v.len() {
        assert(views(v@).skip(i as int) =~= Seq::<FrameView>::empty());
        assert(final(out)@ =~= old(out)@ + frames_text(views(v@).skip(i as int)));
    } else {
        let ghost before = out@;
        proof {
            lemma_frames_step(views(v@), i as int);
            assert(views(v@)[i as int].wf());
        }
        push_frame(&v[i], out);
        push_frames(v, i + 1, out);
        proof {
            lemma_add_assoc(
                before,
                frame_text(views(v@)[i as int]),
                frames_text(views(v@).skip(i + 1)),
            );
        }
    }
}

/// Reads frames up to the close tag of the dataset.
#[verifier::rlimit(100)]
pub fn read_frames(b: &[u8], pos: usize) -> (r: Result<(Vec<Frame>, usize), DecodeError>)
    ensures
        r matches Ok((v, n)) ==> frames_wf(views(v@)) && pos <= n <= b@.len(),
        forall|s: Seq<FrameView>|
            frames_wf(s) && #[trigger] starts_at(b@, pos as int, frames_text(s) + close_tag(Tag::Dataset))
                ==> (r matches Ok((v, n)) && views(v@) == s && n == pos + frames_text(s).len()),
{
    let blen = b.len();
    if pos > blen {
        return Err(DecodeError::Markup { at: pos });
    }
    let o = open_tag_bytes(Tag::Frame);
    let mut v: Vec<Frame> = Vec::new();
    let mut p: usize = pos;
    proof {
        assert(views(v@) =~= Seq::<FrameView>::empty());
        assert forall|s: Seq<FrameView>|
            frames_wf(s) && #[trigger] starts_at(b@, pos as int, frames_text(s) + close_tag(Tag::Dataset))
                implies s.skip(0) == s && views(v@) == s.take(0) by {
            assert(s.skip(0) =~= s);
            assert(s.take(0) =~= Seq::<FrameView>::empty());
        }
    }
    while peek(b, p, &o)
        invariant
            blen == b@.len(),
            o@ == open_tag(Tag::Frame),
            pos <= p <= b@.len(),
            frames_wf(views(v@)),
            forall|s: Seq<FrameView>|
                frames_wf(s) && #[trigger] starts_at(
                    b@,
                    pos as int,
                    frames_text(s) + close_tag(Tag::Dataset),
                ) ==> {
                    &&& v@.len() <= s.len()
                    &&& views(v@) == s.take(v@.len() as int)
                    &&& starts_at(
                        b@,
                        p as int,
                        frames_text(s.skip(v@.len() as int)) + close_tag(Tag::Dataset),
                    )
                    &&& p + frames_text(s.skip(v@.len() as int)).len() == pos + frames_text(s).len()
                },
        decreases b@.len() - p,
    {
        let ghost i = v@.len() as int;
        proof {
            assert forall|s: Seq<FrameView>|
                frames_wf(s) && #[trigger] starts_at(
                    b@,
                    pos as int,
                    frames_text(s) + close_tag(Tag::Dataset),
                ) implies i < s.len() && starts_at(b@, p as int, frame_text(s[i])) && starts_at(
                    b@,
                    p + frame_text(s[i]).len(),
                    frames_text(s.skip(i + 1)) + close_tag(Tag::Dataset),
                ) by {
                if i == s.len() {
                    assert(s.skip(i) =~= Seq::<FrameView>::empty());
                    assert(frames_text(s.skip(i)) + close_tag(Tag::Dataset) =~= close_tag(Tag::Dataset));
                    crate::markup::lemma_starts_lt(b@, p as int, close_tag(Tag::Dataset));
                    lemma_open_not_close(b@, p as int, Tag::Frame, Tag::Dataset);
                } else {
                    lemma_frames_step(s, i);
                    lemma_add_assoc(
                        frame_text(s[i]),
                        frames_text(s.skip(i + 1)),
                        close_tag(Tag::Dataset),
                    );
                    lemma_starts_concat(
                        b@,
                        p as int,
                        frame_text(s[i]),
                        frames_text(s.skip(i + 1)) + close_tag(Tag::Dataset),
                    );
                }
            }
        }
        let (x, n) = match read_frame(b, p) {
            Ok(r) => r,
            Err(e) => {
                return Err(e);
            },
        };
        let ghost p_old = p;
        let ghost v_old = v@;
        v.push(x);
        p = n;
        proof {
            assert(views(v@) =~= views(v_old).push(x@));
            assert forall|s: Seq<FrameView>|
                frames_wf(s) && #[trigger] starts_at(
                    b@,
                    pos as int,
                    frames_text(s) + close_tag(Tag::Dataset),
                ) implies {
                    &&& v@.len() <= s.len()
                    &&& views(v@) == s.take(v@.len() as int)
                    &&& starts_at(
                        b@,
                        p as int,
                        frames_text(s.skip(v@.len() as int)) + close_tag(Tag::Dataset),
                    )
                    &&& p + frames_text(s.skip(v@.len() as int)).len() == pos + frames_text(s).len()
                } by {
                assert(views(v@) =~= s.take(i + 1));
                lemma_frames_step(s, i);
                assert(x@ == s[i]);
                assert(p == p_old + frame_text(s[i]).len());
            }
            assert forall|j: int| 0 <= j < views(v@).len() implies (#[trigger] views(v@)[j]).wf() by {
                if j < i {
                    assert(views(v@)[j] == views(v_old)[j]);
                }
            }
        }
    }
    proof {
        assert forall|s: Seq<FrameView>|
            frames_wf(s) && #[trigger] starts_at(b@, pos as int, frames_text(s) + close_tag(Tag::Dataset))
                implies views(v@) == s && p == pos + frames_text(s).len() by {
            let i = v@.len() as int;
            if i < s.len() {
                lemma_frames_step(s, i);
                lemma_add_assoc(
                    frame_text(s[i]),
                    frames_text(s.skip(i + 1)),
                    close_tag(Tag::Dataset),
                );
                lemma_starts_concat(
                    b@,
                    p as int,
                    frame_text(s[i]),
                    frames_text(s.skip(i + 1)) + close_tag(Tag::Dataset),
                );
                lemma_frame_parts(b@, p as int, s[i]);
                crate::markup::lemma_starts_lt(b@, p as int, open_tag(Tag::Frame));
            }
            assert(s.take(i) =~= s);
            assert(s.skip(i) =~= Seq::<FrameView>::empty());
        }
    }
    Ok((v, p))
}

/// Writes a dataset as an annotation document.
pub fn encode(dataset: &Dataset) -> (r: Vec<u8>)
    requires
        dataset.wf(),
    ensures
        r@ == dataset_text(dataset@),
{
    let mut body: Vec<u8> = Vec::new();
    assert(views(dataset.frames@) == dataset@);
    push_frames(&dataset.frames, 0, &mut body);
    assert(views(dataset.frames@).skip(0) =~= dataset@);
    let mut r: Vec<u8> = Vec::new();
    push_element(&mut r, Tag::Dataset, &body);
    assert(r@ =~= dataset_text(dataset@));
    r
}

pub proof fn lemma_dataset_parts(b: Seq<u8>, s: Seq<FrameView>)
    requires
        dataset_text(s) == b,
    ensures
        starts_at(b, 0, open_tag(Tag::Dataset)),
        starts_at(b, open_tag(Tag::Dataset).len() as int, frames_text(s) + close_tag(Tag::Dataset)),
        starts_at(
            b,
            (open_tag(Tag::Dataset).len() + frames_text(s).len()) as int,
            close_tag(Tag::Dataset),
        ),
        b.len() == open_tag(Tag::Dataset).len() + frames_text(s).len() + close_tag(Tag::Dataset).len(),
{
    assert(b.subrange(0, b.len() as int) =~= b);
    assert(starts_at(b, 0, dataset_text(s)));
    lemma_element_parts(b, 0, Tag::Dataset, frames_text(s));
    lemma_starts_concat(
        b,
        open_tag(Tag::Dataset).len() as int,
        frames_text(s),
        close_tag(Tag::Dataset),
    );
}

/// `doc` is `canon` with runs of blanks put before some of its `<` bytes and
/// at its end.
pub open spec fn laid_out(canon: Seq<u8>, doc: Seq<u8>) -> bool
    decreases canon.len() + doc.len(),
{
    if doc.len() == 0 {
        canon.len() == 0
    } else if canon.len() > 0 && doc[0] == canon[0] {
        laid_out(canon.drop_first(), doc.drop_first())
    } else if is_space(doc[0]) && (canon.len() == 0 || canon[0] == 60u8) {
        laid_out(canon, doc.drop_first())
    } else {
        false
    }
}

pub proof fn lemma_laid_out_same(c: Seq<u8>)
    ensures
        laid_out(c, c),
    decreases c.len(),
{
    if c.len() > 0 {
        lemma_laid_out_same(c.drop_first());
    }
}

/// Whether `doc[start..]` is `canon` laid out with blanks.
pub fn fits_layout(canon: &Vec<u8>, doc: &[u8], start: usize) -> (r: bool)
    requires
        start <= doc@.len(),
    ensures
        r == laid_out(canon@, doc@.skip(start as int)),
{
    let m = canon.len();
    let n = doc.len();
    let mut i: usize = 0;
    let mut j: usize = start;
    assert(canon@.skip(0) =~= canon@);
    while j < n
        invariant
            m == canon@.len(),
            n == doc@.len(),
            i <= m,
            start <= j <= n,
            laid_out(canon@.skip(i as int), doc@.skip(j as int)) == laid_out(
                canon@,
                doc@.skip(start as int),
            ),
        decreases (m - i) + (n - j),
    {
        assert(doc@.skip(j as int).drop_first() =~= doc@.skip(j + 1));
        if i < m {
            assert(canon@.skip(i as int).drop_first() =~= canon@.skip(i + 1));
        }
        let c = doc[j];
        if i < m && c == canon[i] {
            i = i + 1;
            j = j + 1;
        } else if (c == 32u8 || c == 9u8 || c == 10u8 || c == 13u8) && (i == m || canon[i] == 60u8) {
            j = j + 1;
        } else {
            return false;
        }
    }
    assert(doc@.skip(j as int).len() == 0);
    i == m
}

/// A leading declaration: blanks, then `<?`, up to a closing `?>`; or nothing.
pub open spec fn prolog(s: Seq<u8>) -> bool {
    s.len() == 0 || exists|p: int|
        #![trigger s[p]]
        0 <= p && p + 4 <= s.len() && (forall|q: int| 0 <= q < p ==> is_space(#[trigger] s[q]))
            && s[p] == 60u8 && s[p + 1] == 63u8 && s[s.len() - 2] == 63u8 && s[s.len() - 1] == 62u8
}

/// Steps over a leading declaration `<?...?>`, if one stands first after blanks.
pub fn skip_declaration(b: &[u8]) -> (q: usize)
    ensures
        q <= b@.len(),
        prolog(b@.take(q as int)),
        b@.len() >= 2 && b@[0] == 60u8 && b@[1] != 63u8 ==> q == 0,
{
    let blen = b.len();
    let p = skip_space(b, 0);
    if blen > 1 && p < blen - 1 && b[p] == 60u8 && b[p + 1] == 63u8 {
        let mut k: usize = p + 2;
        while k < blen - 1 && !(b[k] == 63u8 && b[k + 1] == 62u8)
            invariant
                blen == b@.len(),
                blen > 1,
                p + 2 <= k <= blen,
            decreases blen - k,
        {
            k = k + 1;
        }
        if k < blen - 1 {
            proof {
                let t = b@.take(k + 2);
                assert forall|x: int| 0 <= x < p implies is_space(#[trigger] t[x]) by {
                    assert(is_space(b@[x]));
                }
                assert(t[p as int] == 60u8 && t[p + 1] == 63u8);
            }
            return k + 2;
        }
    }
    assert(b@.take(0).len() == 0);
    0
}

/// Reads a whole annotation document. Every document that `encode` writes is
/// read back to the dataset it was written from; whatever is read is well formed;
/// a field that cannot be read is named in the error with its text. Blanks
/// between elements and a leading declaration `<?...?>` are passed over; besides
/// those, the document must be exactly the text `encode` writes for the result.
pub fn decode(document: &[u8]) -> (r: Result<Dataset, DecodeError>)
    ensures
        r matches Ok(d) ==> d.wf() && exists|k: int|
            0 <= k <= document@.len() && prolog(document@.take(k)) && laid_out(
                dataset_text(d@),
                #[trigger] document@.skip(k),
            ),
        forall|s: Seq<FrameView>|
            frames_wf(s) && #[trigger] dataset_text(s) == document@ ==> (r matches Ok(d) && d@ == s),
{
    let blen = document.len();
    let o = open_tag_bytes(Tag::Dataset);
    let c = close_tag_bytes(Tag::Dataset);
    let start = skip_declaration(document);
    proof {
        assert forall|s: Seq<FrameView>|
            frames_wf(s) && #[trigger] dataset_text(s) == document@ implies start == 0 by {
            lemma_dataset_parts(document@, s);
            assert(document@.subrange(0, open_tag(Tag::Dataset).len() as int)[1] == document@[1]);
            assert(document@.subrange(0, open_tag(Tag::Dataset).len() as int)[0] == document@[0]);
        }
    }
    let at0 = match expect(document, start, &o) {
        Ok(p) => p,
        Err(e) => {
            proof {
                assert forall|s: Seq<FrameView>|
                    frames_wf(s) && #[trigger] dataset_text(s) == document@ implies false by {
                    lemma_dataset_parts(document@, s);
                }
            }
            return Err(e);
        },
    };
    let (frames, at1) = match read_frames(document, at0) {
        Ok(v) => v,
        Err(e) => {
            proof {
                assert forall|s: Seq<FrameView>|
                    frames_wf(s) && #[trigger] dataset_text(s) == document@ implies false by {
                    lemma_dataset_parts(document@, s);
                }
            }
            return Err(e);
        },
    };
    let at2 = match expect(document, at1, &c) {
        Ok(p) => p,
        Err(e) => {
            proof {
                assert forall|s: Seq<FrameView>|
                    frames_wf(s) && #[trigger] dataset_text(s) == document@ implies false by {
                    lemma_dataset_parts(document@, s);
                }
            }
            return Err(e);
        },
    };
    let d = Dataset { frames };
    assert(views(d.frames@) == d@);
    let canon = encode(&d);
    if !fits_layout(&canon, document, start) {
        proof {
            assert forall|s: Seq<FrameView>|
                frames_wf(s) && #[trigger] dataset_text(s) == document@ implies false by {
                lemma_dataset_parts(document@, s);
                lemma_laid_out_same(document@);
                assert(document@.skip(0) =~= document@);
            }
        }
        return Err(DecodeError::Markup { at: start });
    }
    proof {
        assert(views(d.frames@) == d@);
        assert forall|s: Seq<FrameView>|
            frames_wf(s) && #[trigger] dataset_text(s) == document@ implies d@ == s by {
            lemma_dataset_parts(document@, s);
        }
    }
    Ok(d)
}

} // verus!
