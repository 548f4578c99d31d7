//! Text fields: a file name is carried as its UTF-8 bytes.
use vstd::prelude::*;
use vstd::utf8::{decode_utf8, encode_utf8, valid_utf8};
use crate::fields::{field_error, DecodeError};
use crate::markup::Tag;

verus! {

/// The entity that stands for one byte in text: `&amp;`, `&lt;` and `&gt;` for
/// the markup characters, the byte itself otherwise.
pub open spec fn escape_byte(c: u8) -> Seq<u8> {
    if c == 38u8 {
        seq![38u8, 97u8, 109u8, 112u8, 59u8]
    } else if c == 60u8 {
        seq![38u8, 108u8, 116u8, 59u8]
    } else if c == 62u8 {
        seq![38u8, 103u8, 116u8, 59u8]
    } else {
        seq![c]
    }
}

/// Text with its markup characters written as entities.
pub open spec fn escaped(s: Seq<u8>) -> Seq<u8>
    decreases s.len(),
{
    if s.len() == 0 {
        Seq::<u8>::empty()
    } else {
        escaped(s.drop_last()) + escape_byte(s.last())
    }
}

pub proof fn lemma_escaped_concat(a: Seq<u8>, b: Seq<u8>)
    ensures
        escaped(a + b) == escaped(a) + escaped(b),
    decreases b.len(),
{
    if b.len() == 0 {
        assert(a + b =~= a);
        assert(escaped(a) + escaped(b) =~= escaped(a));
    } else {
        assert((a + b).drop_last() =~= a + b.drop_last());
        assert((a + b).last() == b.last());
        lemma_escaped_concat(a, b.drop_last());
        assert(escaped(a + b) =~= escaped(a) + escaped(b));
    }
}

pub proof fn lemma_escaped_free(s: Seq<u8>)
    ensures
        forall|i: int| 0 <= i < escaped(s).len() ==> #[trigger] escaped(s)[i] != 60u8,
    decreases s.len(),
{
    if s.len() > 0 {
        lemma_escaped_free(s.drop_last());
        let e = escaped(s);
        let a = escaped(s.drop_last());
        assert forall|i: int| 0 <= i < e.len() implies #[trigger] e[i] != 60u8 by {
            if i >= a.len() {
                assert(e[i] == escape_byte(s.last())[i - a.len()]);
            }
        }
    }
}

/// Writes the markup characters of `b` as entities.
pub fn escape_bytes(b: &[u8]) -> (r: Vec<u8>)
    ensures
        r@ == escaped(b@),
{
    let mut r: Vec<u8> = Vec::new();
    let mut i: usize = 0;
    while i < b.len()
        invariant
            i <= b@.len(),
            r@ == escaped(b@.take(i as int)),
        decreases b@.len() - i,
    {
        let c = b[i];
        if c == 38u8 {
            r.push(38u8);
            r.push(97u8);
            r.push(109u8);
            r.push(112u8);
            r.push(59u8);
        } else if c == 60u8 {
            r.push(38u8);
            r.push(108u8);
            r.push(116u8);
            r.push(59u8);
        } else if c == 62u8 {
            r.push(38u8);
            r.push(103u8);
            r.push(116u8);
            r.push(59u8);
        } else {
            r.push(c);
        }
        assert(b@.take(i + 1).drop_last() =~= b@.take(i as int));
        i = i + 1;
        assert(r@ =~= escaped(b@.take(i as int)));
    }
    assert(b@.take(i as int) =~= b@);
    r
}

/// Reads back what `escape_bytes` writes: `b[lo..hi]` is accepted if and only
/// if it is the escaped form of some bytes, which are returned.
pub fn unescape_bytes(b: &[u8], lo: usize, hi: usize) -> (r: Option<Vec<u8>>)
    requires
        lo <= hi <= b@.len(),
    ensures
        r matches Some(v) ==> escaped(v@) == b@.subrange(lo as int, hi as int),
        forall|u: Seq<u8>|
            #[trigger] escaped(u) == b@.subrange(lo as int, hi as int) ==> (r matches Some(v) && v@
                == u),
{
    let ghost whole = b@.subrange(lo as int, hi as int);
    let mut out: Vec<u8> = Vec::new();
    let mut i: usize = lo;
    while i < hi
        invariant
            lo <= i <= hi <= b@.len(),
            whole == b@.subrange(lo as int, hi as int),
            escaped(out@) == b@.subrange(lo as int, i as int),
            forall|u: Seq<u8>|
                #[trigger] escaped(u) == whole ==> out@.len() <= u.len() && out@ == u.take(
                    out@.len() as int,
                ),
        decreases hi - i,
    {
        let ghost k = out@.len() as int;
        proof {
            assert forall|u: Seq<u8>| #[trigger] escaped(u) == whole implies k < u.len() && b@.subrange(
                i as int,
                i + escape_byte(u[k]).len(),
            ) == escape_byte(u[k]) && i + escape_byte(u[k]).len() <= hi by {
                lemma_escaped_concat(u.take(k), u.skip(k));
                assert(u.take(k) + u.skip(k) =~= u);
                assert(u.take(k) == out@);
                if k == u.len() {
                    assert(u.skip(k) =~= Seq::<u8>::empty());
                    assert(escaped(u) =~= escaped(out@));
                    assert(b@.subrange(lo as int, i as int).len() == i - lo);
                }
                assert(u.skip(k) =~= seq![u[k]] + u.skip(k + 1));
                lemma_escaped_concat(seq![u[k]], u.skip(k + 1));
                assert(seq![u[k]].drop_last() =~= Seq::<u8>::empty());
                assert(escaped(Seq::<u8>::empty()) == Seq::<u8>::empty());
                assert(seq![u[k]].last() == u[k]);
                assert(escaped(seq![u[k]]) =~= escape_byte(u[k]));
                let e = escape_byte(u[k]);
                let rest = escaped(u.skip(k + 1));
                assert(escaped(u) == escaped(out@) + (e + rest));
                assert(escaped(out@).len() == i - lo);
                assert(whole.len() == hi - lo);
                assert(escaped(u).len() == (i - lo) + e.len() + rest.len());
                assert(i - lo + e.len() <= hi - lo);
                assert forall|j: int| 0 <= j < e.len() implies b@.subrange(i as int, i + e.len())[j]
                    == e[j] by {
                    assert(whole[(i - lo) + j] == escaped(u)[(i - lo) + j]);
                    assert((escaped(out@) + (e + rest))[(i - lo) + j] == e[j]);
                }
                assert(b@.subrange(i as int, i + e.len()) =~= e);
            }
        }
        let c = b[i];
        let mut step: usize = 1;
        let mut x: u8 = c;
        if c == 38u8 {
            if hi - i >= 5 && b[i + 1] == 97u8 && b[i + 2] == 109u8 && b[i + 3] == 112u8 && b[i + 4]
                == 59u8 {
                step = 5;
                x = 38u8;
            } else if hi - i >= 4 && b[i + 1] == 108u8 && b[i + 2] == 116u8 && b[i + 3] == 59u8 {
                step = 4;
                x = 60u8;
            } else if hi - i >= 4 && b[i + 1] == 103u8 && b[i + 2] == 116u8 && b[i + 3] == 59u8 {
                step = 4;
                x = 62u8;
            } else {
                proof {
                    assert forall|u: Seq<u8>| #[trigger] escaped(u) == whole implies false by {
                        let e = escape_byte(u[k]);
                        assert(b@.subrange(i as int, i + e.len())[0] == e[0]);
                        assert(b@.subrange(i as int, i + e.len())[1] == e[1]);
                        assert(b@.subrange(i as int, i + e.len())[2] == e[2]);
                        assert(b@.subrange(i as int, i + e.len())[3] == e[3]);
                    }
                }
                return None;
            }
        } else if c == 60u8 || c == 62u8 {
            proof {
                assert forall|u: Seq<u8>| #[trigger] escaped(u) == whole implies false by {
                    let e = escape_byte(u[k]);
                    assert(b@.subrange(i as int, i + e.len())[0] == e[0]);
                }
            }
            return None;
        }
        proof {
            assert forall|u: Seq<u8>| #[trigger] escaped(u) == whole implies u[k] == x && escape_byte(
                u[k],
            ).len() == step by {
                let e = escape_byte(u[k]);
                let s = b@.subrange(i as int, i + e.len());
                assert(s[0] == e[0]);
                if e.len() >= 4 {
                    assert(s[1] == e[1]);
                    assert(s[2] == e[2]);
                    assert(s[3] == e[3]);
                }
            }
        }
        assert(b@.subrange(i as int, i + step as int) =~= escape_byte(x)) by {
            assert(b@[i as int] == c);
        }
        let ghost before = out@;
        out.push(x);
        assert(out@.drop_last() =~= before);
        i = i + step;
        assert(b@.subrange(lo as int, i as int) =~= b@.subrange(lo as int, i - step) + escape_byte(x));
        proof {
            assert forall|u: Seq<u8>| #[trigger] escaped(u) == whole implies out@.len() <= u.len()
                && out@ == u.take(out@.len() as int) by {
                assert(out@ =~= u.take(k + 1));
            }
        }
    }
    proof {
        assert forall|u: Seq<u8>| #[trigger] escaped(u) == whole implies out@ == u by {
            let k = out@.len() as int;
            lemma_escaped_concat(u.take(k), u.skip(k));
            assert(u.take(k) + u.skip(k) =~= u);
            if k < u.len() {
                assert(u.skip(k) =~= seq![u[k]] + u.skip(k + 1));
                lemma_escaped_concat(seq![u[k]], u.skip(k + 1));
                assert(seq![u[k]].drop_last() =~= Seq::<u8>::empty());
                assert(escaped(Seq::<u8>::empty()) == Seq::<u8>::empty());
                assert(seq![u[k]].last() == u[k]);
                assert(escaped(seq![u[k]]) =~= escape_byte(u[k]));
                assert(escaped(u).len() > escaped(out@).len());
            }
            assert(u.take(k) =~= u);
        }
    }
    Some(out)
}

/// Every byte is ASCII and none is `<`.
pub open spec fn plain_ascii(b: Seq<u8>) -> bool {
    forall|i: int| 0 <= i < b.len() ==> #[trigger] b[i] < 128 && b[i] != 60u8
}

pub proof fn lemma_ascii_concat(a: Seq<u8>, b: Seq<u8>)
    requires
        plain_ascii(a),
        plain_ascii(b),
    ensures
        plain_ascii(a + b),
{
    assert forall|i: int| 0 <= i < (a + b).len() implies #[trigger] (a + b)[i] < 128 && (a + b)[i]
        != 60u8 by {
        if i < a.len() {
            assert((a + b)[i] == a[i]);
        } else {
            assert((a + b)[i] == b[i - a.len()]);
        }
    }
}

/// ASCII bytes are valid UTF-8.
pub proof fn lemma_ascii_valid(b: Seq<u8>)
    requires
        plain_ascii(b),
    ensures
        valid_utf8(b),
{
    let cs = Seq::new(b.len(), |i: int| b[i] as char);
    assert(vstd::utf8::is_ascii_chars(cs)) by {
        assert forall|i: int| 0 <= i < cs.len() implies '\0' <= #[trigger] cs[i] <= '\u{7f}' by {
            assert(b[i] < 128);
        }
    }
    vstd::utf8::is_ascii_chars_encode_utf8(cs);
    assert(encode_utf8(cs) =~= b) by {
        assert forall|i: int| 0 <= i < b.len() implies encode_utf8(cs)[i] == b[i] by {
            assert(cs[i] as u8 == encode_utf8(cs)[i]);
        }
    }
    vstd::utf8::encode_utf8_valid_utf8(cs);
}

/// Relies on `std::str::from_utf8`: it accepts exactly the valid UTF-8 byte
/// strings, and the text it gives holds the characters those bytes encode.
#[verifier::external_body]
pub(crate) fn utf8_text(b: &[u8]) -> (r: Option<String>)
    ensures
        r is Some <==> valid_utf8(b@),
        r matches Some(s) ==> s@ == decode_utf8(b@),
{
    match std::str::from_utf8(b) {
        Ok(s) => Some(s.to_string()),
        Err(_) => None,
    }
}

/// Reads `b[lo..hi]` as the text of field `tag`: escaped valid UTF-8. Every
/// text that `text_bytes` writes is read back, and only such texts are read.
pub fn read_text(b: &[u8], lo: usize, hi: usize, tag: Tag) -> (r: Result<String, DecodeError>)
    requires
        lo <= hi <= b@.len(),
    ensures
        r matches Ok(s) ==> escaped(encode_utf8(s@)) == b@.subrange(lo as int, hi as int),
        r matches Err(e) ==> e.is_field(tag, b@.subrange(lo as int, hi as int)),
        forall|s: Seq<char>|
            #[trigger] escaped(encode_utf8(s)) == b@.subrange(lo as int, hi as int) ==> (r matches Ok(
                x,
            ) && x@ == s),
{
    let raw = match unescape_bytes(b, lo, hi) {
        Some(v) => v,
        None => {
            return Err(field_error(b, lo, hi, tag));
        },
    };
    match utf8_text(raw.as_slice()) {
        Some(s) => {
            proof {
                vstd::utf8::decode_utf8_encode_utf8(raw@);
                assert forall|t: Seq<char>|
                    #[trigger] escaped(encode_utf8(t)) == b@.subrange(lo as int, hi as int) implies s@
                        == t by {
                    vstd::utf8::encode_utf8_decode_utf8(t);
                }
            }
            Ok(s)
        },
        None => {
            proof {
                assert forall|t: Seq<char>|
                    #[trigger] escaped(encode_utf8(t)) == b@.subrange(lo as int, hi as int) implies false by {
                    vstd::utf8::encode_utf8_valid_utf8(t);
                }
            }
            Err(field_error(b, lo, hi, tag))
        },
    }
}

/// The bytes of a text field: its UTF-8 with markup characters escaped.
pub fn text_bytes(s: &String) -> (r: Vec<u8>)
    ensures
        r@ == escaped(encode_utf8(s@)),
{
    let t = s.as_str();
    let b = t.as_bytes();
    escape_bytes(b)
}

} // verus!
