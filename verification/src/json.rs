//! The JSON form of a buffer diff, as the attach front-end reads and writes
//! it: `{"pos":N,"old_len":N,"new_str":"..."}`, with quotes and backslashes
//! escaped and control bytes written as `\u00` plus two hex digits, so the
//! object always fits on one line and never contains a frame delimiter.

use vstd::prelude::*;
use vstd::utf8::{decode_utf8, encode_utf8, valid_utf8};

use crate::errors::CollabError;
use crate::messages::{BufferDiff, BufferDiffV};
use crate::wire::{bytes_to_string, dec_digits, lemma_dec_digits_wf, lemma_parse_uint_enc,
    parse_uint, read_uint, string_to_bytes, write_u32};

verus! {

/// The lowercase hex digit for a nibble.
pub open spec fn hex_digit(n: u8) -> u8 {
    if n < 10 {
        (0x30 + n) as u8
    } else {
        (0x57 + n) as u8
    }
}

pub open spec fn is_hex(b: u8) -> bool {
    (0x30 <= b <= 0x39) || (0x61 <= b <= 0x66)
}

/// The nibble a hex digit denotes.
pub open spec fn hex_val(b: u8) -> u8 {
    if 0x30 <= b <= 0x39 {
        (b - 0x30) as u8
    } else {
        (b - 0x57) as u8
    }
}

/// How one byte of a string field is written.
pub open spec fn jesc_byte(b: u8) -> Seq<u8> {
    if b == 0x22 {
        seq![0x5c, 0x22]
    } else if b == 0x5c {
        seq![0x5c, 0x5c]
    } else if b < 0x20 {
        seq![0x5c, 0x75, 0x30, 0x30, hex_digit(b / 16), hex_digit((b % 16) as u8)]
    } else {
        seq![b]
    }
}

/// The escaped string field.
pub open spec fn jesc(s: Seq<u8>) -> Seq<u8>
    decreases s.len(),
{
    if s.len() == 0 {
        Seq::empty()
    } else {
        jesc_byte(s[0]) + jesc(s.skip(1))
    }
}

/// Unescape a string field up to and including its closing quote, yielding
/// the content bytes and the bytes consumed.  A raw control byte or an
/// unknown escape is rejected.
pub open spec fn j_unesc(s: Seq<u8>) -> Option<(Seq<u8>, int)>
    decreases s.len(),
{
    if s.len() == 0 {
        None
    } else if s[0] == 0x22 {
        Some((Seq::empty(), 1))
    } else if s[0] == 0x5c {
        if s.len() >= 2 && (s[1] == 0x22 || s[1] == 0x5c) {
            match j_unesc(s.skip(2)) {
                None => None,
                Some(tk) => Some((seq![s[1]] + tk.0, tk.1 + 2)),
            }
        } else if s.len() >= 6 && s[1] == 0x75 && s[2] == 0x30 && s[3] == 0x30 && is_hex(s[4])
            && is_hex(s[5]) {
            match j_unesc(s.skip(6)) {
                None => None,
                Some(tk) => Some(
                    (seq![(hex_val(s[4]) * 16 + hex_val(s[5])) as u8] + tk.0, tk.1 + 6),
                ),
            }
        } else {
            None
        }
    } else if s[0] < 0x20 {
        None
    } else {
        match j_unesc(s.skip(1)) {
            None => None,
            Some(tk) => Some((seq![s[0]] + tk.0, tk.1 + 1)),
        }
    }
}

/// The JSON object for a buffer diff.
pub open spec fn json_buffer_enc(bd: BufferDiffV) -> Seq<u8> {
    seq![0x7bu8, 0x22, 0x70, 0x6f, 0x73, 0x22, 0x3a] + dec_digits(bd.pos as int) + seq![
        0x2cu8, 0x22, 0x6f, 0x6c, 0x64, 0x5f, 0x6c, 0x65, 0x6e, 0x22, 0x3a,
    ] + dec_digits(bd.old_len as int) + seq![
        0x2cu8, 0x22, 0x6e, 0x65, 0x77, 0x5f, 0x73, 0x74, 0x72, 0x22, 0x3a, 0x22,
    ] + jesc(encode_utf8(bd.new_str)) + seq![0x22u8, 0x7d]
}

/// What a JSON line denotes, if anything: this exact field layout, an
/// escaped string reaching the closing quote, the closing brace at the end,
/// and valid UTF-8 content.
pub open spec fn json_buffer_parse(s: Seq<u8>) -> Option<BufferDiffV> {
    let head = seq![0x7bu8, 0x22, 0x70, 0x6f, 0x73, 0x22, 0x3a];
    if s.len() < 7 || s.take(7) != head {
        None
    } else {
        match parse_uint(s.skip(7), 0xFFFFFFFF) {
            None => None,
            Some(p1) => {
                let s1 = s.skip(7).skip(p1.1);
                let mid = seq![0x2cu8, 0x22, 0x6f, 0x6c, 0x64, 0x5f, 0x6c, 0x65, 0x6e, 0x22, 0x3a];
                if s1.len() < 11 || s1.take(11) != mid {
                    None
                } else {
                    match parse_uint(s1.skip(11), 0xFFFFFFFF) {
                        None => None,
                        Some(p2) => {
                            let s2 = s1.skip(11).skip(p2.1);
                            let mid2 = seq![
                                0x2cu8, 0x22, 0x6e, 0x65, 0x77, 0x5f, 0x73, 0x74, 0x72, 0x22,
                                0x3a, 0x22,
                            ];
                            if s2.len() < 12 || s2.take(12) != mid2 {
                                None
                            } else {
                                match j_unesc(s2.skip(12)) {
                                    None => None,
                                    Some(tk) => {
                                        if tk.1 + 1 != s2.len() - 12 || s2.last() != 0x7d
                                            || !valid_utf8(tk.0) {
                                            None
                                        } else {
                                            Some(
                                                BufferDiffV {
                                                    pos: p1.0 as u32,
                                                    old_len: p2.0 as u32,
                                                    new_str: decode_utf8(tk.0),
                                                },
                                            )
                                        }
                                    },
                                }
                            }
                        },
                    }
                }
            },
        }
    }
}

proof fn lemma_jesc_snoc(s: Seq<u8>, x: u8)
    ensures
        jesc(s.push(x)) == jesc(s) + jesc_byte(x),
    decreases s.len(),
{
    if s.len() == 0 {
        assert(s.push(x)[0] == x);
        assert(s.push(x).skip(1) =~= Seq::<u8>::empty());
        assert(jesc(Seq::<u8>::empty()) =~= Seq::<u8>::empty());
        assert(jesc(s.push(x)) == jesc_byte(x) + jesc(s.push(x).skip(1)));
        assert(jesc(s.push(x)) =~= jesc(s) + jesc_byte(x));
    } else {
        assert(s.push(x)[0] == s[0]);
        assert(s.push(x).skip(1) =~= s.skip(1).push(x));
        lemma_jesc_snoc(s.skip(1), x);
        assert(jesc(s.push(x)) =~= jesc(s) + jesc_byte(x));
    }
}

/// Unescaping an escaped field with its closing quote yields the content
/// back and consumes everything.
proof fn lemma_j_unesc_esc(content: Seq<u8>)
    ensures
        j_unesc(jesc(content) + seq![0x22]) == Some((content, jesc(content).len() as int + 1)),
    decreases content.len(),
{
    let s = jesc(content) + seq![0x22u8];
    if content.len() == 0 {
        assert(s =~= seq![0x22u8]);
    } else {
        lemma_j_unesc_esc(content.skip(1));
        let b = content[0];
        assert(jesc(content) == jesc_byte(b) + jesc(content.skip(1)));
        if b == 0x22 || b == 0x5c {
            assert(s[0] == 0x5c && s[1] == b);
            assert(s.skip(2) =~= jesc(content.skip(1)) + seq![0x22u8]);
            assert(seq![b] + content.skip(1) =~= content);
        } else if b < 0x20 {
            assert(s[0] == 0x5c && s[1] == 0x75 && s[2] == 0x30 && s[3] == 0x30);
            assert(s[4] == hex_digit(b / 16) && s[5] == hex_digit((b % 16) as u8));
            assert(is_hex(hex_digit(b / 16)) && is_hex(hex_digit((b % 16) as u8)));
            assert(hex_val(hex_digit(b / 16)) == b / 16);
            assert(hex_val(hex_digit((b % 16) as u8)) == b % 16);
            assert((hex_val(s[4]) * 16 + hex_val(s[5])) as u8 == b);
            assert(s.skip(6) =~= jesc(content.skip(1)) + seq![0x22u8]);
            assert(seq![b] + content.skip(1) =~= content);
        } else {
            assert(s[0] == b);
            assert(b != 0x22 && b != 0x5c && !(b < 0x20));
            assert(s.skip(1) =~= jesc(content.skip(1)) + seq![0x22u8]);
            assert(seq![b] + content.skip(1) =~= content);
        }
    }
}

/// JSON encoding a buffer diff and parsing the line yields the same diff.
#[verifier::rlimit(100)]
#[verifier::spinoff_prover]
pub proof fn lemma_json_buffer_roundtrip(bd: BufferDiffV)
    ensures
        json_buffer_parse(json_buffer_enc(bd)) == Some(bd),
{
    let nb = encode_utf8(bd.new_str);
    let e = json_buffer_enc(bd);
    let head = seq![0x7bu8, 0x22, 0x70, 0x6f, 0x73, 0x22, 0x3a];
    let mid = seq![0x2cu8, 0x22, 0x6f, 0x6c, 0x64, 0x5f, 0x6c, 0x65, 0x6e, 0x22, 0x3a];
    let mid2 = seq![0x2cu8, 0x22, 0x6e, 0x65, 0x77, 0x5f, 0x73, 0x74, 0x72, 0x22, 0x3a, 0x22];
    let d1 = dec_digits(bd.pos as int);
    let d2 = dec_digits(bd.old_len as int);
    assert(e.take(7) =~= head);
    let tail1 = mid + d2 + mid2 + jesc(nb) + seq![0x22u8, 0x7d];
    assert(e.skip(7) =~= d1 + tail1);
    lemma_dec_digits_wf(bd.pos as int);
    lemma_dec_digits_wf(bd.old_len as int);
    lemma_parse_uint_enc(bd.pos as int, tail1, 0xFFFFFFFF);
    let s1 = e.skip(7).skip(d1.len() as int);
    assert(s1 =~= tail1);
    assert(s1.take(11) =~= mid);
    let tail2 = mid2 + jesc(nb) + seq![0x22u8, 0x7d];
    assert(s1.skip(11) =~= d2 + tail2);
    lemma_parse_uint_enc(bd.old_len as int, tail2, 0xFFFFFFFF);
    let s2 = s1.skip(11).skip(d2.len() as int);
    assert(s2 =~= tail2);
    assert(s2.take(12) =~= mid2);
    assert(s2.skip(12) =~= jesc(nb) + seq![0x22u8, 0x7d]);
    lemma_j_unesc_esc(nb);
    // the unescape consumed through the quote; only the brace remains
    assert((jesc(nb) + seq![0x22u8]) + seq![0x7du8] =~= jesc(nb) + seq![0x22u8, 0x7d]);
    lemma_j_unesc_append(jesc(nb) + seq![0x22u8], seq![0x7du8], nb);
    assert(j_unesc(s2.skip(12)) == Some((nb, jesc(nb).len() as int + 1)));
    assert(s2.last() == 0x7d);
    vstd::utf8::encode_utf8_valid_utf8(bd.new_str);
    vstd::utf8::encode_utf8_decode_utf8(bd.new_str);
}

/// Unescaping ignores what follows the closing quote.
proof fn lemma_j_unesc_append(s: Seq<u8>, rest: Seq<u8>, content: Seq<u8>)
    requires
        j_unesc(s) == Some((content, s.len() as int)),
    ensures
        j_unesc(s + rest) == Some((content, s.len() as int)),
    decreases s.len(),
{
    assert(s.len() > 0);
    let t = s + rest;
    assert(t[0] == s[0]);
    if s[0] == 0x22 {
        assert(s.len() == 1);
        assert(content =~= Seq::<u8>::empty());
    } else if s[0] == 0x5c {
        if s.len() >= 2 && (s[1] == 0x22 || s[1] == 0x5c) {
            assert(t[1] == s[1]);
            let inner = j_unesc(s.skip(2)).unwrap();
            assert(inner.1 == s.len() - 2);
            lemma_j_unesc_append(s.skip(2), rest, inner.0);
            assert(t.skip(2) =~= s.skip(2) + rest);
        } else {
            assert(s.len() >= 6 && s[1] == 0x75);
            assert(t[1] == s[1] && t[2] == s[2] && t[3] == s[3] && t[4] == s[4] && t[5] == s[5]);
            let inner = j_unesc(s.skip(6)).unwrap();
            assert(inner.1 == s.len() - 6);
            lemma_j_unesc_append(s.skip(6), rest, inner.0);
            assert(t.skip(6) =~= s.skip(6) + rest);
        }
    } else {
        let inner = j_unesc(s.skip(1)).unwrap();
        assert(inner.1 == s.len() - 1);
        lemma_j_unesc_append(s.skip(1), rest, inner.0);
        assert(t.skip(1) =~= s.skip(1) + rest);
    }
}

/// Write a buffer diff as its JSON object.
pub fn encode_buffer_diff_json(bd: &BufferDiff) -> (r: Vec<u8>)
    ensures
        r@ == json_buffer_enc(bd@),
{
    let mut out: Vec<u8> = Vec::new();
    out.push(0x7b);
    out.push(0x22);
    out.push(0x70);
    out.push(0x6f);
    out.push(0x73);
    out.push(0x22);
    out.push(0x3a);
    write_u32(bd.pos, &mut out);
    out.push(0x2c);
    out.push(0x22);
    out.push(0x6f);
    out.push(0x6c);
    out.push(0x64);
    out.push(0x5f);
    out.push(0x6c);
    out.push(0x65);
    out.push(0x6e);
    out.push(0x22);
    out.push(0x3a);
    write_u32(bd.old_len, &mut out);
    out.push(0x2c);
    out.push(0x22);
    out.push(0x6e);
    out.push(0x65);
    out.push(0x77);
    out.push(0x5f);
    out.push(0x73);
    out.push(0x74);
    out.push(0x72);
    out.push(0x22);
    out.push(0x3a);
    out.push(0x22);
    let nb = string_to_bytes(bd.new_str.as_str());
    let ghost base = out@;
    let mut i: usize = 0;
    while i < nb.len()
        invariant
            i <= nb@.len(),
            out@ == base + jesc(nb@.take(i as int)),
        decreases nb@.len() - i,
    {
        let b = nb[i];
        if b == 0x22 {
            out.push(0x5c);
            out.push(0x22);
        } else if b == 0x5c {
            out.push(0x5c);
            out.push(0x5c);
        } else if b < 0x20 {
            out.push(0x5c);
            out.push(0x75);
            out.push(0x30);
            out.push(0x30);
            let hi = b / 16;
            let lo = b % 16;
            out.push(if hi < 10 { 0x30 + hi } else { 0x57 + hi });
            out.push(if lo < 10 { 0x30 + lo } else { 0x57 + lo });
        } else {
            out.push(b);
        }
        proof {
            assert(nb@.take(i + 1 as int) =~= nb@.take(i as int).push(nb@[i as int]));
            lemma_jesc_snoc(nb@.take(i as int), nb@[i as int]);
            assert(out@ =~= base + jesc(nb@.take(i + 1 as int)));
        }
        i = i + 1;
    }
    out.push(0x22);
    out.push(0x7d);
    proof {
        assert(nb@.take(nb@.len() as int) =~= nb@);
        assert(out@ =~= json_buffer_enc(bd@));
    }
    out
}

/// Read a buffer diff from its JSON object.  Succeeds exactly on the lines
/// [`json_buffer_parse`] accepts, and returns the diff that line denotes.
#[verifier::rlimit(100)]
#[verifier::loop_isolation(false)]
pub fn decode_buffer_diff_json(s: &Vec<u8>) -> (r: Result<BufferDiff, CollabError>)
    ensures
        match json_buffer_parse(s@) {
            Some(v) => r matches Ok(bd) && bd@.pos == v.pos && bd@.old_len == v.old_len
                && bd@.new_str == v.new_str,
            None => r is Err,
        },
{
    let bad = "malformed json buffer diff";
    let head: [u8; 7] = [0x7b, 0x22, 0x70, 0x6f, 0x73, 0x22, 0x3a];
    if s.len() < 7 {
        return Err(CollabError::new(bad));
    }
    let mut k: usize = 0;
    while k < 7
        invariant
            k <= 7,
            s@.len() >= 7,
            head@ =~= seq![0x7bu8, 0x22, 0x70, 0x6f, 0x73, 0x22, 0x3a],
            forall|j: int| 0 <= j < k ==> s@[j] == head@[j],
        decreases 7 - k,
    {
        if s[k] != head[k] {
            proof {
                assert(s@.take(7)[k as int] != head@[k as int]);
            }
            return Err(CollabError::new(bad));
        }
        k = k + 1;
    }
    proof {
        assert(s@.take(7) =~= head@);
    }
    let (pos, i1) = match read_uint(s, 7, 0xFFFFFFFF) {
        Some(x) => x,
        None => {
            return Err(CollabError::new(bad));
        },
    };
    proof {
        assert(s@.skip(7).skip((i1 - 7) as int) =~= s@.skip(i1 as int));
    }
    let mid: [u8; 11] = [0x2c, 0x22, 0x6f, 0x6c, 0x64, 0x5f, 0x6c, 0x65, 0x6e, 0x22, 0x3a];
    if s.len() - i1 < 11 {
        proof {
            assert(s@.skip(i1 as int).len() < 11);
        }
        return Err(CollabError::new(bad));
    }
    let mut k: usize = 0;
    while k < 11
        invariant
            k <= 11,
            7 <= i1,
            i1 + 11 <= s@.len(),
            mid@ =~= seq![0x2cu8, 0x22, 0x6f, 0x6c, 0x64, 0x5f, 0x6c, 0x65, 0x6e, 0x22, 0x3a],
            forall|j: int| 0 <= j < k ==> s@[i1 + j] == mid@[j],
        decreases 11 - k,
    {
        if s[i1 + k] != mid[k] {
            proof {
                assert(s@.skip(i1 as int).take(11)[k as int] != mid@[k as int]);
            }
            return Err(CollabError::new(bad));
        }
        k = k + 1;
    }
    proof {
        assert(s@.skip(i1 as int).take(11) =~= mid@);
    }
    let (old_len, i2) = match read_uint(s, i1 + 11, 0xFFFFFFFF) {
        Some(x) => x,
        None => {
            proof {
                assert(s@.skip(i1 as int).skip(11) =~= s@.skip(i1 + 11 as int));
            }
            return Err(CollabError::new(bad));
        },
    };
    proof {
        assert(s@.skip(i1 as int).skip(11) =~= s@.skip(i1 + 11 as int));
        assert(s@.skip(i1 + 11 as int).skip((i2 - i1 - 11) as int) =~= s@.skip(i2 as int));
    }
    let mid2: [u8; 12] = [0x2c, 0x22, 0x6e, 0x65, 0x77, 0x5f, 0x73, 0x74, 0x72, 0x22, 0x3a, 0x22];
    if s.len() - i2 < 12 {
        proof {
            assert(s@.skip(i2 as int).len() < 12);
        }
        return Err(CollabError::new(bad));
    }
    let mut k: usize = 0;
    while k < 12
        invariant
            k <= 12,
            i2 + 12 <= s@.len(),
            i1 + 11 <= i2,
            mid2@ =~= seq![
                0x2cu8, 0x22, 0x6e, 0x65, 0x77, 0x5f, 0x73, 0x74, 0x72, 0x22, 0x3a, 0x22,
            ],
            forall|j: int| 0 <= j < k ==> s@[i2 + j] == mid2@[j],
        decreases 12 - k,
    {
        if s[i2 + k] != mid2[k] {
            proof {
                assert(s@.skip(i2 as int).take(12)[k as int] != mid2@[k as int]);
            }
            return Err(CollabError::new(bad));
        }
        k = k + 1;
    }
    proof {
        assert(s@.skip(i2 as int).take(12) =~= mid2@);
    }
    // unescape the string field
    let ghost s2 = s@.skip(i2 as int);
    match read_json_string(s, i2 + 12) {
        None => {
            proof {
                assert(s2.skip(12) =~= s@.skip(i2 + 12));
            }
            Err(CollabError::new(bad))
        },
        Some((content, jend)) => {
            proof {
                assert(s2.skip(12) =~= s@.skip(i2 + 12));
            }
            if !(jend < s.len() && s.len() - jend == 1 && s[jend] == 0x7d) {
                proof {
                    let tk = j_unesc(s2.skip(12)).unwrap();
                    if jend < s@.len() && s@.len() - jend == 1 {
                        assert(s2.last() == s@[jend as int]);
                    } else {
                        assert(tk.1 + 1 != s2.len() - 12);
                    }
                }
                return Err(CollabError::new(bad));
            }
            proof {
                assert(s2.last() == s@[jend as int]);
                let tk = j_unesc(s2.skip(12)).unwrap();
                assert(tk.1 + 1 == s2.len() - 12);
            }
            match bytes_to_string(content) {
                Some(text) => {
                    let bd = BufferDiff { pos, old_len, new_str: text };
                    proof {
                        vstd::utf8::encode_utf8_decode_utf8(bd.new_str@);
                    }
                    Ok(bd)
                },
                None => Err(CollabError::new(bad)),
            }
        },
    }
}

/// Read an escaped string field starting at `start`, through its closing
/// quote: the content bytes and the position just past the quote, exactly
/// as [`j_unesc`] reads the suffix.
#[verifier::rlimit(100)]
#[verifier::loop_isolation(false)]
fn read_json_string(s: &Vec<u8>, start: usize) -> (r: Option<(Vec<u8>, usize)>)
    requires
        start <= s@.len(),
    ensures
        match j_unesc(s@.skip(start as int)) {
            Some(tk) => r matches Some(x) && x.0@ == tk.0 && x.1 == start + tk.1 && x.1
                <= s@.len(),
            None => r is None,
        },
{
    let ghost body = s@.skip(start as int);
    let mut content: Vec<u8> = Vec::new();
    let mut j: usize = start;
    proof {
        if j_unesc(body) is Some {
            let tk = j_unesc(body).unwrap();
            assert(content@ + tk.0 =~= tk.0);
        }
    }
    loop
        invariant
            start <= j <= s@.len(),
            body == s@.skip(start as int),
            match j_unesc(s@.skip(j as int)) {
                Some(tk) => j_unesc(body) == Some((content@ + tk.0, (j - start) + tk.1)),
                None => j_unesc(body) is None,
            },
        decreases s@.len() - j,
    {
        if j >= s.len() {
            proof {
                assert(s@.skip(j as int).len() == 0);
            }
            return None;
        }
        let b = s[j];
        proof {
            assert(s@.skip(j as int)[0] == s@[j as int]);
        }
        if b == 0x22 {
            j = j + 1;
            proof {
                assert(j_unesc(s@.skip(j - 1 as int)) == Some((Seq::<u8>::empty(), 1int)));
                assert(content@ + Seq::<u8>::empty() =~= content@);
            }
            return Some((content, j));
        } else if b == 0x5c {
            if j + 1 >= s.len() {
                proof {
                    assert(s@.skip(j as int).len() < 2);
                }
                return None;
            }
            let c = s[j + 1];
            proof {
                assert(s@.skip(j as int)[1] == s@[j + 1]);
            }
            if c == 0x22 || c == 0x5c {
                content.push(c);
                proof {
                    assert(s@.skip(j as int).skip(2) =~= s@.skip(j + 2 as int));
                    assert(content@.last() == c);
                    if j_unesc(s@.skip(j + 2 as int)) is Some {
                        let tk = j_unesc(s@.skip(j + 2 as int)).unwrap();
                        assert(content@.drop_last() + (seq![c] + tk.0) =~= content@ + tk.0);
                    }
                }
                j = j + 2;
            } else if c == 0x75 {
                if s.len() - j < 6 {
                    proof {
                        assert(s@.skip(j as int).len() < 6);
                    }
                    return None;
                }
                let h0 = s[j + 2];
                let h1 = s[j + 3];
                let h4 = s[j + 4];
                let h5 = s[j + 5];
                proof {
                    assert(s@.skip(j as int)[2] == s@[j + 2]);
                    assert(s@.skip(j as int)[3] == s@[j + 3]);
                    assert(s@.skip(j as int)[4] == s@[j + 4]);
                    assert(s@.skip(j as int)[5] == s@[j + 5]);
                }
                let hex4 = (0x30 <= h4 && h4 <= 0x39) || (0x61 <= h4 && h4 <= 0x66);
                let hex5 = (0x30 <= h5 && h5 <= 0x39) || (0x61 <= h5 && h5 <= 0x66);
                if h0 != 0x30 || h1 != 0x30 || !hex4 || !hex5 {
                    return None;
                }
                let v4 = if h4 <= 0x39 { h4 - 0x30 } else { h4 - 0x57 };
                let v5 = if h5 <= 0x39 { h5 - 0x30 } else { h5 - 0x57 };
                let decoded = v4 * 16 + v5;
                content.push(decoded);
                proof {
                    assert(s@.skip(j as int).skip(6) =~= s@.skip(j + 6 as int));
                    assert(content@.last() == decoded);
                    assert(decoded == (hex_val(s@[j + 4]) * 16 + hex_val(s@[j + 5])) as u8);
                    if j_unesc(s@.skip(j + 6 as int)) is Some {
                        let tk = j_unesc(s@.skip(j + 6 as int)).unwrap();
                        assert(content@.drop_last() + (seq![decoded] + tk.0) =~= content@ + tk.0);
                    }
                }
                j = j + 6;
            } else {
                return None;
            }
        } else if b < 0x20 {
            return None;
        } else {
            content.push(b);
            proof {
                assert(s@.skip(j as int).skip(1) =~= s@.skip(j + 1 as int));
                assert(content@.last() == b);
                if j_unesc(s@.skip(j + 1 as int)) is Some {
                    let tk = j_unesc(s@.skip(j + 1 as int)).unwrap();
                    assert(content@.drop_last() + (seq![b] + tk.0) =~= content@ + tk.0);
                }
            }
            j = j + 1;
        }
    }
}

} // verus!
