//! The CSV form of a buffer diff, as the attach front-end reads and writes
//! it: `pos,old_len,"new_str"`, with the text field quoted and
//! backslash-escaped (never doubled quotes), so that commas, quotes,
//! backslashes and line breaks survive the line-based framing.

use vstd::prelude::*;
use vstd::utf8::{decode_utf8, encode_utf8, valid_utf8};

use crate::errors::CollabError;
use crate::messages::{BufferDiff, BufferDiffV};
use crate::wire::{dec_digits, lemma_dec_digits_wf, lemma_parse_uint_enc, parse_uint, read_uint,
    write_u32, bytes_to_string, string_to_bytes};

verus! {

/// How one byte of the text field is written.
pub open spec fn csv_esc_byte(b: u8) -> Seq<u8> {
    if b == 0x22 {
        seq![0x5c, 0x22]
    } else if b == 0x5c {
        seq![0x5c, 0x5c]
    } else if b == 0x0a {
        seq![0x5c, 0x6e]
    } else if b == 0x0d {
        seq![0x5c, 0x72]
    } else {
        seq![b]
    }
}

/// The escaped text field.
pub open spec fn csv_esc(s: Seq<u8>) -> Seq<u8>
    decreases s.len(),
{
    if s.len() == 0 {
        Seq::empty()
    } else {
        csv_esc_byte(s[0]) + csv_esc(s.skip(1))
    }
}

/// The CSV line for a buffer diff, without a trailing line break.
pub open spec fn csv_enc(bd: BufferDiffV) -> Seq<u8> {
    dec_digits(bd.pos as int) + seq![0x2c] + dec_digits(bd.old_len as int) + seq![0x2c, 0x22]
        + csv_esc(encode_utf8(bd.new_str)) + seq![0x22]
}

/// Unescape the text field up to and including its closing quote, yielding
/// the content bytes and the bytes consumed.
pub open spec fn csv_unesc(s: Seq<u8>) -> Option<(Seq<u8>, int)>
    decreases s.len(),
{
    if s.len() == 0 {
        None
    } else if s[0] == 0x22 {
        Some((Seq::empty(), 1))
    } else if s[0] == 0x5c {
        if s.len() < 2 {
            None
        } else {
            let b: Option<u8> = if s[1] == 0x22 {
                Some(0x22)
            } else if s[1] == 0x5c {
                Some(0x5c)
            } else if s[1] == 0x6e {
                Some(0x0a)
            } else if s[1] == 0x72 {
                Some(0x0d)
            } else {
                None
            };
            match b {
                None => None,
                Some(c) => match csv_unesc(s.skip(2)) {
                    None => None,
                    Some(tk) => Some((seq![c] + tk.0, tk.1 + 2)),
                },
            }
        }
    } else {
        match csv_unesc(s.skip(1)) {
            None => None,
            Some(tk) => Some((seq![s[0]] + tk.0, tk.1 + 1)),
        }
    }
}

/// What a CSV line denotes, if anything: both numbers, both commas, a fully
/// quoted and escaped text field reaching the end of the line, and valid
/// UTF-8 content.
pub open spec fn csv_parse(s: Seq<u8>) -> Option<BufferDiffV> {
    match parse_uint(s, 0xFFFFFFFF) {
        None => None,
        Some(p1) => {
            let s1 = s.skip(p1.1);
            if s1.len() == 0 || s1[0] != 0x2c {
                None
            } else {
                match parse_uint(s1.skip(1), 0xFFFFFFFF) {
                    None => None,
                    Some(p2) => {
                        let s2 = s1.skip(1).skip(p2.1);
                        if s2.len() < 2 || s2[0] != 0x2c || s2[1] != 0x22 {
                            None
                        } else {
                            match csv_unesc(s2.skip(2)) {
                                None => None,
                                Some(tk) => {
                                    if tk.1 != s2.len() - 2 || !valid_utf8(tk.0) {
                                        None
                                    } else {
                                        Some(
                                            BufferDiffV {
                                                pos: p1.0 as u32,
                                                old_len: p2.0 as u32,
                                                new_str: decode_utf8(tk.0),
                                            },
                                        )
                                    }
                                },
                            }
                        }
                    },
                }
            }
        },
    }
}

proof fn lemma_csv_esc_snoc(s: Seq<u8>, x: u8)
    ensures
        csv_esc(s.push(x)) == csv_esc(s) + csv_esc_byte(x),
    decreases s.len(),
{
    if s.len() == 0 {
        assert(s.push(x)[0] == x);
        assert(s.push(x).skip(1) =~= Seq::<u8>::empty());
        assert(csv_esc(Seq::<u8>::empty()) =~= Seq::<u8>::empty());
        assert(csv_esc(s.push(x)) == csv_esc_byte(x) + csv_esc(s.push(x).skip(1)));
        assert(csv_esc(s.push(x)) =~= csv_esc(s) + csv_esc_byte(x));
    } else {
        assert(s.push(x)[0] == s[0]);
        assert(s.push(x).skip(1) =~= s.skip(1).push(x));
        lemma_csv_esc_snoc(s.skip(1), x);
        assert(csv_esc(s.push(x)) =~= csv_esc(s) + csv_esc_byte(x));
    }
}

/// Unescaping an escaped field with its closing quote yields the content
/// back and consumes everything.
proof fn lemma_csv_unesc_esc(content: Seq<u8>)
    ensures
        csv_unesc(csv_esc(content) + seq![0x22]) == Some((content, csv_esc(content).len() as int + 1)),
    decreases content.len(),
{
    let s = csv_esc(content) + seq![0x22u8];
    if content.len() == 0 {
        assert(s =~= seq![0x22u8]);
    } else {
        lemma_csv_unesc_esc(content.skip(1));
        let b = content[0];
        assert(csv_esc(content) == csv_esc_byte(b) + csv_esc(content.skip(1)));
        if b == 0x22 || b == 0x5c || b == 0x0a || b == 0x0d {
            assert(s[0] == 0x5c);
            assert(s.skip(2) =~= csv_esc(content.skip(1)) + seq![0x22u8]);
            assert(seq![b] + content.skip(1) =~= content);
        } else {
            assert(s[0] == b);
            assert(b != 0x22 && b != 0x5c);
            assert(s.skip(1) =~= csv_esc(content.skip(1)) + seq![0x22u8]);
            assert(seq![b] + content.skip(1) =~= content);
        }
    }
}

/// The escaped field never contains a bare quote, so the closing quote is
/// unambiguous; together with [`lemma_csv_unesc_esc`] this pins the parse.
/// Encoding a buffer diff and parsing the line yields the same diff.
pub proof fn lemma_csv_roundtrip(bd: BufferDiffV)
    ensures
        csv_parse(csv_enc(bd)) == Some(bd),
{
    let nb = encode_utf8(bd.new_str);
    let e = csv_enc(bd);
    let d1 = dec_digits(bd.pos as int);
    let d2 = dec_digits(bd.old_len as int);
    let tail1 = seq![0x2cu8] + d2 + seq![0x2cu8, 0x22u8] + csv_esc(nb) + seq![0x22u8];
    assert(e =~= d1 + tail1);
    lemma_dec_digits_wf(bd.pos as int);
    lemma_dec_digits_wf(bd.old_len as int);
    lemma_parse_uint_enc(bd.pos as int, tail1, 0xFFFFFFFF);
    assert(parse_uint(e, 0xFFFFFFFF) == Some((bd.pos as int, d1.len() as int)));
    let s1 = e.skip(d1.len() as int);
    assert(s1 =~= tail1);
    let tail2 = seq![0x2cu8, 0x22u8] + csv_esc(nb) + seq![0x22u8];
    assert(s1.skip(1) =~= d2 + tail2);
    lemma_parse_uint_enc(bd.old_len as int, tail2, 0xFFFFFFFF);
    let s2 = s1.skip(1).skip(d2.len() as int);
    assert(s2 =~= tail2);
    assert(s2.skip(2) =~= csv_esc(nb) + seq![0x22u8]);
    lemma_csv_unesc_esc(nb);
    assert(csv_unesc(s2.skip(2)) == Some((nb, csv_esc(nb).len() as int + 1)));
    assert(s2.len() - 2 == csv_esc(nb).len() + 1);
    vstd::utf8::encode_utf8_valid_utf8(bd.new_str);
    vstd::utf8::encode_utf8_decode_utf8(bd.new_str);
    assert(csv_parse(e) == Some(
        BufferDiffV { pos: bd.pos, old_len: bd.old_len, new_str: decode_utf8(nb) },
    ));
}

/// Write a buffer diff as its CSV line.
pub fn unparse_csv(bd: &BufferDiff) -> (r: Vec<u8>)
    ensures
        r@ == csv_enc(bd@),
{
    let mut out: Vec<u8> = Vec::new();
    write_u32(bd.pos, &mut out);
    out.push(0x2c);
    write_u32(bd.old_len, &mut out);
    out.push(0x2c);
    out.push(0x22);
    let nb = string_to_bytes(bd.new_str.as_str());
    let ghost base = out@;
    let mut i: usize = 0;
    while i < nb.len()
        invariant
            i <= nb@.len(),
            out@ == base + csv_esc(nb@.take(i as int)),
        decreases nb@.len() - i,
    {
        let b = nb[i];
        if b == 0x22 {
            out.push(0x5c);
            out.push(0x22);
        } else if b == 0x5c {
            out.push(0x5c);
            out.push(0x5c);
        } else if b == 0x0a {
            out.push(0x5c);
            out.push(0x6e);
        } else if b == 0x0d {
            out.push(0x5c);
            out.push(0x72);
        } else {
            out.push(b);
        }
        proof {
            assert(nb@.take(i + 1 as int) =~= nb@.take(i as int).push(nb@[i as int]));
            lemma_csv_esc_snoc(nb@.take(i as int), nb@[i as int]);
            assert(out@ =~= base + csv_esc(nb@.take(i + 1 as int)));
        }
        i = i + 1;
    }
    out.push(0x22);
    proof {
        assert(nb@.take(nb@.len() as int) =~= nb@);
        assert(out@ =~= csv_enc(bd@));
    }
    out
}

/// Read a buffer diff from its CSV line.  Succeeds exactly on the lines
/// [`csv_parse`] accepts, and returns the diff that line denotes.
#[verifier::rlimit(100)]
#[verifier::loop_isolation(false)]
pub fn parse_csv(s: &Vec<u8>) -> (r: Result<BufferDiff, CollabError>)
    ensures
        match csv_parse(s@) {
            Some(v) => r matches Ok(bd) && bd@.pos == v.pos && bd@.old_len == v.old_len
                && bd@.new_str == v.new_str,
            None => r is Err,
        },
{
    let bad = "malformed csv buffer diff";
    let (pos, i1) = match read_uint(s, 0, 0xFFFFFFFF) {
        Some(x) => x,
        None => {
            proof {
                assert(s@.skip(0) =~= s@);
            }
            return Err(CollabError::new(bad));
        },
    };
    proof {
        assert(s@.skip(0) =~= s@);
    }
    if i1 >= s.len() || s[i1] != 0x2c {
        proof {
            if i1 < s@.len() {
                assert(s@.skip(i1 as int)[0] == s@[i1 as int]);
            } else {
                assert(s@.skip(i1 as int).len() == 0);
            }
        }
        return Err(CollabError::new(bad));
    }
    proof {
        assert(s@.skip(i1 as int)[0] == s@[i1 as int]);
    }
    let (old_len, i2) = match read_uint(s, i1 + 1, 0xFFFFFFFF) {
        Some(x) => x,
        None => {
            proof {
                assert(s@.skip(i1 as int).skip(1) =~= s@.skip(i1 + 1 as int));
            }
            return Err(CollabError::new(bad));
        },
    };
    proof {
        assert(s@.skip(i1 as int).skip(1) =~= s@.skip(i1 + 1 as int));
    }
    let ghost s2 = s@.skip(i2 as int);
    proof {
        assert(s@.skip(i1 + 1 as int).skip((i2 - i1 - 1) as int) =~= s2);
        assert(s@.skip(i1 as int).skip(1).skip((i2 - i1 - 1) as int) =~= s2);
        assert(s2.len() == s@.len() - i2);
        if s2.len() >= 1 {
            assert(s2[0] == s@[i2 as int]);
        }
        if s2.len() >= 2 {
            assert(s2[1] == s@[i2 + 1]);
        }
    }
    if s.len() - i2 < 2 || s[i2] != 0x2c || s[i2 + 1] != 0x22 {
        return Err(CollabError::new(bad));
    }
    // unescape the quoted field
    let ghost body = s2.skip(2);
    let mut content: Vec<u8> = Vec::new();
    let mut j: usize = i2 + 2;
    proof {
        assert(body =~= s@.skip(j as int));
        if csv_unesc(s@.skip(j as int)) is Some {
            let tk = csv_unesc(s@.skip(j as int)).unwrap();
            assert(content@ + tk.0 =~= tk.0);
        }
    }
    loop
        invariant
            i2 + 2 <= j <= s@.len(),
            body == s2.skip(2),
            s2 =~= s@.skip(i2 as int),
            body =~= s@.skip(i2 + 2),
            match csv_unesc(s@.skip(j as int)) {
                Some(tk) => csv_unesc(body) == Some(
                    (content@ + tk.0, (j - i2 - 2) + tk.1),
                ),
                None => csv_unesc(body) is None,
            },
        decreases s@.len() - j,
    {
        if j >= s.len() {
            proof {
                assert(s@.skip(j as int).len() == 0);
            }
            return Err(CollabError::new(bad));
        }
        let b = s[j];
        proof {
            assert(s@.skip(j as int)[0] == s@[j as int]);
        }
        if b == 0x22 {
            // closing quote
            j = j + 1;
            proof {
                assert(csv_unesc(s@.skip(j - 1 as int)) == Some((Seq::<u8>::empty(), 1int)));
                assert(content@ + Seq::<u8>::empty() =~= content@);
            }
            if j != s.len() {
                proof {
                    let tk = csv_unesc(body).unwrap();
                    assert(tk.1 != s2.len() - 2);
                }
                return Err(CollabError::new(bad));
            }
            match bytes_to_string(content) {
                Some(text) => {
                    let bd = BufferDiff { pos, old_len, new_str: text };
                    proof {
                        let tk = csv_unesc(body).unwrap();
                        assert(tk.1 == s2.len() - 2);
                        vstd::utf8::encode_utf8_decode_utf8(bd.new_str@);
                    }
                    return Ok(bd);
                },
                None => {
                    return Err(CollabError::new(bad));
                },
            }
        } else if b == 0x5c {
            if j + 1 >= s.len() {
                proof {
                    assert(s@.skip(j as int).len() < 2);
                }
                return Err(CollabError::new(bad));
            }
            let c = s[j + 1];
            proof {
                assert(s@.skip(j as int)[1] == s@[j + 1]);
                assert(s@.skip(j as int).skip(2) =~= s@.skip(j + 2 as int));
            }
            if c == 0x22 {
                content.push(0x22);
            } else if c == 0x5c {
                content.push(0x5c);
            } else if c == 0x6e {
                content.push(0x0a);
            } else if c == 0x72 {
                content.push(0x0d);
            } else {
                return Err(CollabError::new(bad));
            }
            proof {
                let unescaped: u8 = if c == 0x22 {
                    0x22
                } else if c == 0x5c {
                    0x5c
                } else if c == 0x6e {
                    0x0a
                } else {
                    0x0d
                };
                assert(content@.last() == unescaped);
                if csv_unesc(s@.skip(j + 2 as int)) is Some {
                    let tk = csv_unesc(s@.skip(j + 2 as int)).unwrap();
                    assert(content@.drop_last() + (seq![unescaped] + tk.0) =~= content@ + tk.0);
                }
            }
            j = j + 2;
        } else {
            content.push(b);
            proof {
                assert(s@.skip(j as int).skip(1) =~= s@.skip(j + 1 as int));
                assert(content@.last() == b);
                if csv_unesc(s@.skip(j + 1 as int)) is Some {
                    let tk = csv_unesc(s@.skip(j + 1 as int)).unwrap();
                    assert(content@.drop_last() + (seq![b] + tk.0) =~= content@ + tk.0);
                }
            }
            j = j + 1;
        }
    }
}

} // verus!
