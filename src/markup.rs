//! The markup layer: element names, elements of text, and reading them back.
use vstd::prelude::*;
use crate::fields::DecodeError;

verus! {

/// The element names of an annotation document.
#[derive(Clone, Copy, Debug, PartialEq, Eq, Structural, Hash)]
pub enum Tag {
    Dataset,
    Frame,
    Number,
    File,
    Utc,
    Color,
    Depth,
    Gsd,
    X,
    Y,
    Lat,
    Lon,
    Sunny,
    ObjectList,
    Object,
    Id,
    Box,
    Representation,
    Type,
    Xc,
    Yc,
    W,
    H,
    O,
}

pub open spec fn tag_name(t: Tag) -> Seq<u8> {
    match t {
        Tag::Dataset => seq![100u8, 97u8, 116u8, 97u8, 115u8, 101u8, 116u8],
        Tag::Frame => seq![102u8, 114u8, 97u8, 109u8, 101u8],
        Tag::Number => seq![110u8, 117u8, 109u8, 98u8, 101u8, 114u8],
        Tag::File => seq![102u8, 105u8, 108u8, 101u8],
        Tag::Utc => seq![117u8, 116u8, 99u8],
        Tag::Color => seq![99u8, 111u8, 108u8, 111u8, 114u8],
        Tag::Depth => seq![100u8, 101u8, 112u8, 116u8, 104u8],
        Tag::Gsd => seq![103u8, 115u8, 100u8],
        Tag::X => seq![120u8],
        Tag::Y => seq![121u8],
        Tag::Lat => seq![108u8, 97u8, 116u8],
        Tag::Lon => seq![108u8, 111u8, 110u8],
        Tag::Sunny => seq![115u8, 117u8, 110u8, 110u8, 121u8],
        Tag::ObjectList => seq![111u8, 98u8, 106u8, 101u8, 99u8, 116u8, 108u8, 105u8, 115u8, 116u8],
        Tag::Object => seq![111u8, 98u8, 106u8, 101u8, 99u8, 116u8],
        Tag::Id => seq![105u8, 100u8],
        Tag::Box => seq![98u8, 111u8, 120u8],
        Tag::Representation => seq![
            114u8, 101u8, 112u8, 114u8, 101u8, 115u8, 101u8, 110u8, 116u8, 97u8, 116u8, 105u8, 111u8, 110u8,
        ],
        Tag::Type => seq![116u8, 121u8, 112u8, 101u8],
        Tag::Xc => seq![120u8, 99u8],
        Tag::Yc => seq![121u8, 99u8],
        Tag::W => seq![119u8],
        Tag::H => seq![104u8],
        Tag::O => seq![111u8],
    }
}

/// The name of an element as bytes.
pub fn tag_bytes(t: Tag) -> (r: Vec<u8>)
    ensures
        r@ == tag_name(t),
{
    let r = match t {
        Tag::Dataset => vec![100u8, 97u8, 116u8, 97u8, 115u8, 101u8, 116u8],
        Tag::Frame => vec![102u8, 114u8, 97u8, 109u8, 101u8],
        Tag::Number => vec![110u8, 117u8, 109u8, 98u8, 101u8, 114u8],
        Tag::File => vec![102u8, 105u8, 108u8, 101u8],
        Tag::Utc => vec![117u8, 116u8, 99u8],
        Tag::Color => vec![99u8, 111u8, 108u8, 111u8, 114u8],
        Tag::Depth => vec![100u8, 101u8, 112u8, 116u8, 104u8],
        Tag::Gsd => vec![103u8, 115u8, 100u8],
        Tag::X => vec![120u8],
        Tag::Y => vec![121u8],
        Tag::Lat => vec![108u8, 97u8, 116u8],
        Tag::Lon => vec![108u8, 111u8, 110u8],
        Tag::Sunny => vec![115u8, 117u8, 110u8, 110u8, 121u8],
        Tag::ObjectList => vec![111u8, 98u8, 106u8, 101u8, 99u8, 116u8, 108u8, 105u8, 115u8, 116u8],
        Tag::Object => vec![111u8, 98u8, 106u8, 101u8, 99u8, 116u8],
        Tag::Id => vec![105u8, 100u8],
        Tag::Box => vec![98u8, 111u8, 120u8],
        Tag::Representation => vec![
            114u8, 101u8, 112u8, 114u8, 101u8, 115u8, 101u8, 110u8, 116u8, 97u8, 116u8, 105u8, 111u8, 110u8,
        ],
        Tag::Type => vec![116u8, 121u8, 112u8, 101u8],
        Tag::Xc => vec![120u8, 99u8],
        Tag::Yc => vec![121u8, 99u8],
        Tag::W => vec![119u8],
        Tag::H => vec![104u8],
        Tag::O => vec![111u8],
    };
    assert(r@ =~= tag_name(t));
    r
}

pub open spec fn open_tag(t: Tag) -> Seq<u8> {
    seq![60u8] + tag_name(t) + seq![62u8]
}

pub open spec fn close_tag(t: Tag) -> Seq<u8> {
    seq![60u8, 47u8] + tag_name(t) + seq![62u8]
}

/// The element named `t` around the text `c`.
pub open spec fn element(t: Tag, c: Seq<u8>) -> Seq<u8> {
    open_tag(t) + c + close_tag(t)
}

/// Text that holds no `<`, so that it cannot be taken for markup.
pub open spec fn free_of_lt(c: Seq<u8>) -> bool {
    forall|i: int| 0 <= i < c.len() ==> #[trigger] c[i] != 60u8
}

/// `t` stands in `b` from position `pos` on.
pub open spec fn starts_at(b: Seq<u8>, pos: int, t: Seq<u8>) -> bool {
    0 <= pos && pos + t.len() <= b.len() && b.subrange(pos, pos + t.len()) == t
}

pub proof fn lemma_starts_concat(b: Seq<u8>, p: int, x: Seq<u8>, y: Seq<u8>)
    ensures
        starts_at(b, p, x + y) <==> (starts_at(b, p, x) && starts_at(b, p + x.len(), y)),
{
    if starts_at(b, p, x + y) {
        assert(b.subrange(p, p + x.len()) =~= (x + y).subrange(0, x.len() as int));
        assert(b.subrange(p + x.len(), p + x.len() + y.len()) =~= (x + y).subrange(
            x.len() as int,
            (x.len() + y.len()) as int,
        ));
        assert((x + y).subrange(0, x.len() as int) =~= x);
        assert((x + y).subrange(x.len() as int, (x.len() + y.len()) as int) =~= y);
    }
    if starts_at(b, p, x) && starts_at(b, p + x.len(), y) {
        assert forall|i: int| 0 <= i < x.len() + y.len() implies b.subrange(
            p,
            p + x.len() + y.len(),
        )[i] == (x + y)[i] by {
            if i < x.len() {
                assert(b.subrange(p, p + x.len())[i] == x[i]);
            } else {
                assert(b.subrange(p + x.len(), p + x.len() + y.len())[i - x.len()] == y[i
                    - x.len()]);
            }
        }
        assert(b.subrange(p, p + (x + y).len()) =~= x + y);
    }
}

/// Appends all of `s`.
pub fn push_bytes(out: &mut Vec<u8>, s: &Vec<u8>)
    ensures
        final(out)@ == old(out)@ + s@,
{
    let mut i: usize = 0;
    while i < s.len()
        invariant
            i <= s@.len(),
            out@ == old(out)@ + s@.subrange(0, i as int),
        decreases s@.len() - i,
    {
        out.push(s[i]);
        i = i + 1;
        assert(out@ =~= old(out)@ + s@.subrange(0, i as int));
    }
    assert(s@.subrange(0, i as int) =~= s@);
}

pub fn open_tag_bytes(t: Tag) -> (r: Vec<u8>)
    ensures
        r@ == open_tag(t),
{
    let mut r: Vec<u8> = vec![60u8];
    let name = tag_bytes(t);
    push_bytes(&mut r, &name);
    r.push(62u8);
    assert(r@ =~= open_tag(t));
    r
}

pub fn close_tag_bytes(t: Tag) -> (r: Vec<u8>)
    ensures
        r@ == close_tag(t),
{
    let mut r: Vec<u8> = vec![60u8, 47u8];
    let name = tag_bytes(t);
    push_bytes(&mut r, &name);
    r.push(62u8);
    assert(r@ =~= close_tag(t));
    r
}

/// Appends the element named `t` around `c`.
pub fn push_element(out: &mut Vec<u8>, t: Tag, c: &Vec<u8>)
    ensures
        final(out)@ == old(out)@ + element(t, c@),
{
    let o = open_tag_bytes(t);
    let cl = close_tag_bytes(t);
    push_bytes(out, &o);
    push_bytes(out, c);
    push_bytes(out, &cl);
    assert(final(out)@ =~= old(out)@ + element(t, c@));
}

/// Whether `s` stands in `b` from position `pos` on.
pub fn bytes_at(b: &[u8], pos: usize, s: &Vec<u8>) -> (r: bool)
    ensures
        r == starts_at(b@, pos as int, s@),
{
    if pos > b.len() || s.len() > b.len() - pos {
        return false;
    }
    let mut i: usize = 0;
    while i < s.len()
        invariant
            pos + s@.len() <= b@.len(),
            i <= s@.len(),
            forall|j: int| 0 <= j < i ==> b@[pos + j] == s@[j],
        decreases s@.len() - i,
    {
        assert(pos + i < b.len());
        if b[pos + i] != s[i] {
            assert(b@.subrange(pos as int, pos + s@.len())[i as int] != s@[i as int]);
            return false;
        }
        i = i + 1;
    }
    assert(b@.subrange(pos as int, pos + s@.len()) =~= s@);
    true
}

/// Reads the element named `t` at `pos`, whose text holds no `<`: gives the
/// range of the text and the position after the element.
pub fn read_leaf(b: &[u8], pos: usize, t: Tag) -> (r: Option<(usize, usize, usize)>)
    ensures
        r matches Some((lo, hi, next)) ==> {
            &&& pos + open_tag(t).len() <= lo <= hi <= next <= b@.len()
            &&& next == hi + close_tag(t).len()
            &&& free_of_lt(b@.subrange(lo as int, hi as int))
        },
        forall|c: Seq<u8>|
            free_of_lt(c) && #[trigger] starts_at(b@, pos as int, element(t, c)) ==> r == Some(
                (
                    (pos + open_tag(t).len()) as usize,
                    (pos + open_tag(t).len() + c.len()) as usize,
                    (pos + element(t, c).len()) as usize,
                ),
            ),
{
    let start = pos;
    proof {
        assert forall|c: Seq<u8>| #[trigger] starts_at(b@, start as int, element(t, c)) implies start
            < b@.len() && b@[start as int] == 60u8 by {
            lemma_starts_lt(b@, start as int, element(t, c));
        }
    }
    let pos = skip_space(b, start);
    let o = open_tag_bytes(t);
    let cl = close_tag_bytes(t);
    let at_open = bytes_at(b, pos, &o);
    if !at_open {
        proof {
            assert forall|c: Seq<u8>|
                free_of_lt(c) && #[trigger] starts_at(b@, pos as int, element(t, c)) implies false by {
                lemma_starts_concat(b@, pos as int, open_tag(t) + c, close_tag(t));
                lemma_starts_concat(b@, pos as int, open_tag(t), c);
            }
        }
        return None;
    }
    assert(pos + o@.len() <= b.len());
    let lo = pos + o.len();
    let mut i: usize = lo;
    while i < b.len() && b[i] != 60u8
        invariant
            lo <= i <= b@.len(),
            forall|j: int| lo <= j < i ==> b@[j] != 60u8,
        decreases b@.len() - i,
    {
        i = i + 1;
    }
    let hi = i;
    let found = hi < b.len() && bytes_at(b, hi, &cl);
    proof {
        assert forall|c: Seq<u8>|
            free_of_lt(c) && #[trigger] starts_at(b@, pos as int, element(t, c)) implies found && hi
                == lo + c.len() by {
            lemma_starts_concat(b@, pos as int, open_tag(t) + c, close_tag(t));
            lemma_starts_concat(b@, pos as int, open_tag(t), c);
            let e = lo + c.len();
            assert(b@.subrange(e, e + close_tag(t).len())[0] == 60u8);
            if hi < e {
                assert(b@.subrange(lo as int, e)[hi - lo] == c[hi - lo]);
            }
            if hi > e {
                assert(b@[e] == 60u8);
            }
        }
    }
    if !found {
        return None;
    }
    proof {
        assert(free_of_lt(b@.subrange(lo as int, hi as int))) by {
            assert forall|j: int| 0 <= j < hi - lo implies #[trigger] b@.subrange(
                lo as int,
                hi as int,
            )[j] != 60u8 by {
                assert(b@[lo + j] != 60u8);
            }
        }
        let c = b@.subrange(lo as int, hi as int);
        assert(starts_at(b@, lo as int, c));
        lemma_starts_concat(b@, pos as int, open_tag(t), c);
        lemma_starts_concat(b@, pos as int, open_tag(t) + c, close_tag(t));
    }
    Some((lo, hi, hi + cl.len()))
}


pub proof fn lemma_element_parts(b: Seq<u8>, p: int, t: Tag, c: Seq<u8>)
    ensures
        starts_at(b, p, element(t, c)) <==> (starts_at(b, p, open_tag(t)) && starts_at(
            b,
            p + open_tag(t).len(),
            c,
        ) && starts_at(b, p + open_tag(t).len() + c.len(), close_tag(t))),
{
    lemma_starts_concat(b, p, open_tag(t) + c, close_tag(t));
    lemma_starts_concat(b, p, open_tag(t), c);
}

/// Open tags whose names differ in their first letter cannot both stand at one place.
pub proof fn lemma_open_tags_differ(b: Seq<u8>, p: int, t1: Tag, t2: Tag)
    requires
        starts_at(b, p, open_tag(t1)),
        tag_name(t1)[0] != tag_name(t2)[0],
    ensures
        !starts_at(b, p, open_tag(t2)),
{
    if starts_at(b, p, open_tag(t2)) {
        assert(b.subrange(p, p + open_tag(t1).len())[1] == b[p + 1]);
        assert(b.subrange(p, p + open_tag(t2).len())[1] == b[p + 1]);
    }
}

/// An open tag and a close tag cannot both stand at one place.
pub proof fn lemma_open_not_close(b: Seq<u8>, p: int, t1: Tag, t2: Tag)
    requires
        starts_at(b, p, open_tag(t1)),
    ensures
        !starts_at(b, p, close_tag(t2)),
{
    if starts_at(b, p, close_tag(t2)) {
        assert(b.subrange(p, p + open_tag(t1).len())[1] == b[p + 1]);
        assert(b.subrange(p, p + close_tag(t2).len())[1] == b[p + 1]);
        assert(open_tag(t1)[1] == tag_name(t1)[0]);
    }
}

pub proof fn lemma_add_assoc(a: Seq<u8>, b: Seq<u8>, c: Seq<u8>)
    ensures
        (a + b) + c == a + (b + c),
{
    assert((a + b) + c =~= a + (b + c));
}

/// A blank between elements: space, tab, line feed or carriage return.
pub open spec fn is_space(c: u8) -> bool {
    c == 32u8 || c == 9u8 || c == 10u8 || c == 13u8
}

/// Steps over blanks. Where `<` stands at `pos`, nothing is skipped.
pub fn skip_space(b: &[u8], pos: usize) -> (q: usize)
    ensures
        pos <= q,
        pos <= b@.len() ==> q <= b@.len(),
        pos >= b@.len() ==> q == pos,
        pos < b@.len() && b@[pos as int] == 60u8 ==> q == pos,
        forall|j: int| pos <= j < q ==> is_space(#[trigger] b@[j]),
{
    if pos >= b.len() {
        return pos;
    }
    let mut q: usize = pos;
    while q < b.len() && (b[q] == 32u8 || b[q] == 9u8 || b[q] == 10u8 || b[q] == 13u8)
        invariant
            pos <= q <= b@.len(),
            pos < b@.len(),
            b@[pos as int] == 60u8 ==> q == pos,
            forall|j: int| pos <= j < q ==> is_space(#[trigger] b@[j]),
        decreases b@.len() - q,
    {
        q = q + 1;
    }
    q
}

/// A markup text that starts with `<` stands at `pos`: the byte there is `<`.
pub proof fn lemma_starts_lt(b: Seq<u8>, pos: int, t: Seq<u8>)
    requires
        starts_at(b, pos, t),
        t.len() > 0,
        t[0] == 60u8,
    ensures
        pos < b.len(),
        b[pos] == 60u8,
{
    assert(b.subrange(pos, pos + t.len())[0] == b[pos]);
}

/// Whether `s` stands at `pos` once blanks are skipped.
pub fn peek(b: &[u8], pos: usize, s: &Vec<u8>) -> (r: bool)
    ensures
        pos < b@.len() && b@[pos as int] == 60u8 ==> r == starts_at(b@, pos as int, s@),
{
    let q = skip_space(b, pos);
    bytes_at(b, q, s)
}

/// Checks that `s` stands at `pos`, after blanks, and steps over it.
pub fn expect(b: &[u8], pos: usize, s: &Vec<u8>) -> (r: Result<usize, DecodeError>)
    ensures
        r matches Ok(n) ==> pos + s@.len() <= n <= b@.len(),
        r is Err ==> r->Err_0 is Markup,
        starts_at(b@, pos as int, s@) && s@.len() > 0 && s@[0] == 60u8 ==> r == Ok::<
            usize,
            DecodeError,
        >((pos + s@.len()) as usize),
{
    let q = skip_space(b, pos);
    proof {
        if starts_at(b@, pos as int, s@) && s@.len() > 0 && s@[0] == 60u8 {
            lemma_starts_lt(b@, pos as int, s@);
        }
    }
    if bytes_at(b, q, s) {
        assert(q + s@.len() <= b.len());
        Ok(q + s.len())
    } else {
        Err(DecodeError::Markup { at: q })
    }
}

} // verus!
