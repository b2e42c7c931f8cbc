//! Form-urlencoded query strings: percent-encoding of values, `key=value`
//! pieces joined by `&`, and the decoding direction, with the lemmas that
//! make the encoding reversible.

use vstd::prelude::*;
use crate::text::{find_byte, lemma_find_byte_is, split_on};

verus! {

/// Bytes kept verbatim by the value encoding: ASCII alphanumerics and
/// `*`, `-`, `.`, `_`.
pub open spec fn keeps(b: u8) -> bool {
    (48 <= b <= 57) || (65 <= b <= 90) || (97 <= b <= 122) || b == 42 || b == 45 || b == 46
        || b == 95
}

/// Upper-case hexadecimal digit for a nibble.
pub open spec fn hex_digit(n: u8) -> u8 {
    if n < 10 {
        (48 + n) as u8
    } else {
        (55 + n) as u8
    }
}

pub open spec fn is_hex(b: u8) -> bool {
    (48 <= b <= 57) || (65 <= b <= 70) || (97 <= b <= 102)
}

pub open spec fn hex_val(b: u8) -> u8 {
    if 48 <= b <= 57 {
        (b - 48) as u8
    } else if 65 <= b <= 70 {
        (b - 55) as u8
    } else {
        (b - 87) as u8
    }
}

/// How one byte of a value is written: kept, `+` for space, `%XX` else.
pub open spec fn enc_byte(b: u8) -> Seq<u8> {
    if keeps(b) {
        seq![b]
    } else if b == 32 {
        seq![43u8]
    } else {
        seq![37u8, hex_digit(b / 16), hex_digit(b % 16)]
    }
}

/// Percent-encoding of a whole value.
pub open spec fn enc(s: Seq<u8>) -> Seq<u8>
    decreases s.len(),
{
    if s.len() == 0 {
        Seq::empty()
    } else {
        enc_byte(s[0]) + enc(s.drop_first())
    }
}

/// Percent-decoding; bytes that form no valid escape stand for themselves.
pub open spec fn dec(s: Seq<u8>) -> Seq<u8>
    decreases s.len(),
{
    if s.len() == 0 {
        Seq::empty()
    } else if s[0] == 37 && s.len() >= 3 && is_hex(s[1]) && is_hex(s[2]) {
        seq![(16 * hex_val(s[1]) + hex_val(s[2])) as u8] + dec(s.skip(3))
    } else if s[0] == 43 {
        seq![32u8] + dec(s.skip(1))
    } else {
        seq![s[0]] + dec(s.skip(1))
    }
}

/// Pieces joined with `&` between them.
pub open spec fn join_amp(ps: Seq<Seq<u8>>) -> Seq<u8>
    decreases ps.len(),
{
    if ps.len() == 0 {
        Seq::empty()
    } else if ps.len() == 1 {
        ps[0]
    } else {
        ps[0] + seq![38u8] + join_amp(ps.drop_first())
    }
}

/// One `key=value` piece; only the value is percent-encoded.
pub open spec fn kv_piece(key: Seq<u8>, v: Seq<u8>) -> Seq<u8> {
    key + seq![61u8] + enc(v)
}

/// No byte of an encoded value is `&`, `=`, or `%` without its escape:
/// everything the piece and pair grammar needs.
pub proof fn lemma_enc_clean(s: Seq<u8>)
    ensures
        forall|k: int| 0 <= k < enc(s).len() ==> enc(s)[k] != 38 && enc(s)[k] != 61,
    decreases s.len(),
{
    if s.len() > 0 {
        lemma_enc_clean(s.drop_first());
        assert forall|k: int| 0 <= k < enc(s).len() implies enc(s)[k] != 38 && enc(s)[k] != 61 by {
            let eb = enc_byte(s[0]);
            if k >= eb.len() {
                assert(enc(s)[k] == enc(s.drop_first())[k - eb.len()]);
            }
        }
    }
}

/// Decoding undoes encoding, byte group by byte group.
pub proof fn lemma_dec_enc(s: Seq<u8>)
    ensures
        dec(enc(s)) == s,
    decreases s.len(),
{
    if s.len() == 0 {
        assert(dec(enc(s)) =~= s);
    } else {
        let b = s[0];
        let eb = enc_byte(b);
        let rest = enc(s.drop_first());
        lemma_dec_enc(s.drop_first());
        if keeps(b) {
            assert(enc(s)[0] == b);
            assert(b != 37 && b != 43);
            assert(enc(s).skip(1) =~= rest);
            assert(dec(enc(s)) =~= seq![b] + s.drop_first());
            assert(seq![b] + s.drop_first() =~= s);
        } else if b == 32 {
            assert(enc(s)[0] == 43);
            assert(enc(s).skip(1) =~= rest);
            assert(dec(enc(s)) =~= seq![32u8] + s.drop_first());
            assert(seq![32u8] + s.drop_first() =~= s);
        } else {
            assert(enc(s)[0] == 37);
            assert(enc(s)[1] == hex_digit(b / 16));
            assert(enc(s)[2] == hex_digit(b % 16));
            assert(is_hex(hex_digit(b / 16)));
            assert(is_hex(hex_digit(b % 16)));
            assert(hex_val(hex_digit(b / 16)) == b / 16);
            assert(hex_val(hex_digit(b % 16)) == b % 16);
            assert(16 * (b / 16) + (b % 16) == b);
            assert(enc(s).skip(3) =~= rest);
            assert(dec(enc(s)) =~= seq![b] + s.drop_first());
            assert(seq![b] + s.drop_first() =~= s);
        }
    }
}

/// A byte string without `%` or `+` decodes to itself.
pub proof fn lemma_dec_plain(s: Seq<u8>)
    requires
        forall|k: int| 0 <= k < s.len() ==> s[k] != 37 && s[k] != 43,
    ensures
        dec(s) == s,
    decreases s.len(),
{
    if s.len() > 0 {
        assert(s.skip(1) =~= s.drop_first());
        lemma_dec_plain(s.drop_first());
        assert(dec(s) =~= seq![s[0]] + s.drop_first());
        assert(seq![s[0]] + s.drop_first() =~= s);
    }
}

/// Splitting on `&` undoes joining with `&`, piece for piece.
pub proof fn lemma_split_join(ps: Seq<Seq<u8>>)
    requires
        ps.len() > 0,
        forall|j: int, k: int|
            0 <= j < ps.len() && 0 <= k < ps[j].len() ==> ps[j][k] != 38,
    ensures
        split_on(join_amp(ps), 38) == ps,
    decreases ps.len(),
{
    let s = join_amp(ps);
    if ps.len() == 1 {
        lemma_find_byte_is(s, 38, s.len() as int);
        assert(split_on(s, 38) =~= seq![ps[0]]);
        assert(seq![ps[0]] =~= ps);
    } else {
        let p0 = ps[0];
        let tail = join_amp(ps.drop_first());
        assert(s =~= p0 + seq![38u8] + tail);
        assert forall|k: int| 0 <= k < p0.len() implies s[k] != 38 by {
            assert(s[k] == p0[k]);
        }
        assert(s[p0.len() as int] == 38);
        lemma_find_byte_is(s, 38, p0.len() as int);
        assert(s.subrange(0, p0.len() as int) =~= p0);
        assert(s.subrange(p0.len() as int + 1, s.len() as int) =~= tail);
        assert forall|j: int, k: int|
            0 <= j < ps.drop_first().len() && 0 <= k < ps.drop_first()[j].len() implies ps.drop_first()[j][k]
            != 38 by {
            assert(ps.drop_first()[j] == ps[j + 1]);
        }
        lemma_split_join(ps.drop_first());
        assert(split_on(s, 38) =~= seq![p0] + ps.drop_first());
        assert(seq![p0] + ps.drop_first() =~= ps);
    }
}

/// Append the percent-encoding of `v` to `out`.
pub fn append_encoded(out: &mut Vec<u8>, v: &Vec<u8>)
    ensures
        final(out)@ == old(out)@ + enc(v@),
{
    let mut i: usize = 0;
    proof {
        assert(old(out)@ + enc(v@.subrange(0, 0)) =~= old(out)@);
    }
    while i < v.len()
        invariant
            i <= v.len(),
            out@ == old(out)@ + enc(v@.subrange(0, i as int)),
        decreases v.len() - i,
    {
        let b = v[i];
        if (48 <= b && b <= 57) || (65 <= b && b <= 90) || (97 <= b && b <= 122) || b == 42
            || b == 45 || b == 46 || b == 95 {
            out.push(b);
        } else if b == 32 {
            out.push(43);
        } else {
            out.push(37);
            let hi = b / 16;
            let lo = b % 16;
            out.push(if hi < 10 { 48 + hi } else { 55 + hi });
            out.push(if lo < 10 { 48 + lo } else { 55 + lo });
        }
        proof {
            lemma_enc_snoc(v@.subrange(0, i + 1));
            assert(v@.subrange(0, i + 1).drop_last() =~= v@.subrange(0, i as int));
            assert(out@ =~= old(out)@ + enc(v@.subrange(0, i + 1)));
        }
        i = i + 1;
    }
    proof {
        assert(v@.subrange(0, v@.len() as int) =~= v@);
    }
}

/// Unfolding of `enc` at the back.
pub proof fn lemma_enc_snoc(s: Seq<u8>)
    requires
        s.len() > 0,
    ensures
        enc(s) == enc(s.drop_last()) + enc_byte(s.last()),
    decreases s.len(),
{
    if s.len() == 1 {
        assert(enc(s) =~= enc_byte(s[0]) + enc(s.drop_first()));
        assert(enc(s.drop_last()) =~= Seq::<u8>::empty());
        assert(enc(s) =~= enc(s.drop_last()) + enc_byte(s.last()));
    } else {
        lemma_enc_snoc(s.drop_first());
        assert(s.drop_first().drop_last() =~= s.drop_last().drop_first());
        assert(s.drop_first().last() == s.last());
        assert(s.drop_last().len() > 0);
        assert(s.drop_last()[0] == s[0]);
        assert(enc(s.drop_last()) == enc_byte(s[0]) + enc(s.drop_last().drop_first()));
        assert(enc(s) =~= enc(s.drop_last()) + enc_byte(s.last()));
    }
}

/// Decode `v` in full.
pub fn decode_bytes(v: &Vec<u8>) -> (r: Vec<u8>)
    ensures
        r@ == dec(v@),
{
    let mut out: Vec<u8> = Vec::new();
    let mut pos: usize = 0;
    proof {
        assert(v@.skip(0) =~= v@);
    }
    while pos < v.len()
        invariant
            pos <= v.len(),
            dec(v@) == out@ + dec(v@.skip(pos as int)),
        decreases v.len() - pos,
    {
        let ghost suffix = v@.skip(pos as int);
        let b = v[pos];
        if b == 37 && v.len() - pos >= 3 && is_hex_byte(v[pos + 1]) && is_hex_byte(v[pos + 2]) {
            let x = 16 * hex_val_byte(v[pos + 1]) + hex_val_byte(v[pos + 2]);
            out.push(x);
            proof {
                assert(suffix[1] == v@[pos + 1]);
                assert(suffix[2] == v@[pos + 2]);
                assert(suffix.skip(3) =~= v@.skip(pos + 3));
                assert(dec(suffix) =~= seq![x] + dec(v@.skip(pos + 3)));
                assert(dec(v@) =~= out@ + dec(v@.skip(pos + 3)));
            }
            pos = pos + 3;
        } else {
            let y: u8 = if b == 43 {
                32
            } else {
                b
            };
            out.push(y);
            proof {
                if suffix[0] == 37 && suffix.len() >= 3 && is_hex(suffix[1]) && is_hex(suffix[2]) {
                    assert(suffix[1] == v@[pos + 1]);
                    assert(suffix[2] == v@[pos + 2]);
                    assert(false);
                }
                assert(suffix.skip(1) =~= v@.skip(pos + 1));
                assert(dec(suffix) =~= seq![y] + dec(v@.skip(pos + 1)));
                assert(dec(v@) =~= out@ + dec(v@.skip(pos + 1)));
            }
            pos = pos + 1;
        }
    }
    proof {
        assert(dec(v@.skip(v@.len() as int)) =~= Seq::<u8>::empty());
        assert(dec(v@) =~= out@);
    }
    out
}

pub fn is_hex_byte(b: u8) -> (r: bool)
    ensures
        r == is_hex(b),
{
    (48 <= b && b <= 57) || (65 <= b && b <= 70) || (97 <= b && b <= 102)
}

pub fn hex_val_byte(b: u8) -> (r: u8)
    requires
        is_hex(b),
    ensures
        r == hex_val(b),
        r < 16,
{
    if 48 <= b && b <= 57 {
        b - 48
    } else if 65 <= b && b <= 70 {
        b - 55
    } else {
        b - 87
    }
}

} // verus!
