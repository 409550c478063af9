//! Session keys: how editors find a running daemon.
//!
//! A daemon records its IPC port and process id in a temp file whose name is
//! the session root's absolute path with every `/` replaced by `!`.  An
//! editor walks the ancestors of its working directory, looks for a key file
//! for each, and checks that the recorded process is alive.  The walking,
//! the temp-file reads and the liveness probe are I/O and live with the
//! binary; the naming scheme and the decision which ancestor wins live here.

use vstd::prelude::*;

use crate::errors::CollabError;
use crate::messages::{IpcClientInfo, IpcClientResponse};

verus! {

/// The key-file name for a root: `/` becomes `!`.
pub open spec fn key_name_of(s: Seq<char>) -> Seq<char> {
    s.map_values(|c: char| if c == '/' { '!' } else { c })
}

/// The root a key-file name denotes: `!` becomes `/`.
pub open spec fn root_name_of(s: Seq<char>) -> Seq<char> {
    s.map_values(|c: char| if c == '!' { '/' } else { c })
}

/// Relies on str::replace with a one-character pattern and a one-character
/// replacement: every `/` in the input becomes `!`, all else is kept.
#[verifier::external_body]
pub fn session_key_name(root: &str) -> (r: String)
    ensures
        r@ == key_name_of(root@),
{
    root.replace('/', "!")
}

/// Relies on str::replace with a one-character pattern and a one-character
/// replacement: every `!` in the input becomes `/`, all else is kept.
#[verifier::external_body]
pub fn session_root_name(key: &str) -> (r: String)
    ensures
        r@ == root_name_of(key@),
{
    key.replace('!', "/")
}

/// The naming scheme is reversible for roots without a literal `!`: turning
/// the `/`s into `!`s and back yields the original path.  A directory name
/// containing `!` is the scheme's known blind spot.
pub proof fn lemma_key_name_roundtrip(s: Seq<char>)
    requires
        forall|i: int| 0 <= i < s.len() ==> s[i] != '!',
    ensures
        root_name_of(key_name_of(s)) == s,
{
    assert(root_name_of(key_name_of(s)) =~= s);
}

/// The digits of a signed value: a minus sign for a negative one, then the
/// decimal digits of its magnitude.
pub open spec fn int_digits(n: int) -> Seq<u8> {
    if n < 0 {
        seq![0x2du8] + crate::wire::dec_digits(-n)
    } else {
        crate::wire::dec_digits(n)
    }
}

/// The JSON record a session key file holds: the IPC port and process id.
pub open spec fn session_data_enc(d: crate::messages::SessionData) -> Seq<u8> {
    seq![0x7bu8, 0x22, 0x70, 0x6f, 0x72, 0x74, 0x22, 0x3a] + crate::wire::dec_digits(d.port as int)
        + seq![0x2cu8, 0x22, 0x70, 0x69, 0x64, 0x22, 0x3a] + int_digits(d.pid as int)
        + seq![0x7du8]
}

/// What a key file's bytes denote, if anything: both fields in range, in
/// this exact layout, nothing after the closing brace.
pub open spec fn session_data_parse(s: Seq<u8>) -> Option<crate::messages::SessionData> {
    let head = seq![0x7bu8, 0x22, 0x70, 0x6f, 0x72, 0x74, 0x22, 0x3a];
    if s.len() < 8 || s.take(8) != head {
        None
    } else {
        match crate::wire::parse_uint(s.skip(8), 0xFFFF) {
            None => None,
            Some(p1) => {
                let s1 = s.skip(8).skip(p1.1);
                let mid = seq![0x2cu8, 0x22, 0x70, 0x69, 0x64, 0x22, 0x3a];
                if s1.len() < 7 || s1.take(7) != mid {
                    None
                } else {
                    let s2 = s1.skip(7);
                    let neg = s2.len() > 0 && s2[0] == 0x2d;
                    let s3 = if neg {
                        s2.skip(1)
                    } else {
                        s2
                    };
                    let bound: int = if neg {
                        0x80000000
                    } else {
                        0x7FFFFFFF
                    };
                    match crate::wire::parse_uint(s3, bound) {
                        None => None,
                        Some(p2) => {
                            let s4 = s3.skip(p2.1);
                            if s4.len() != 1 || s4[0] != 0x7d {
                                None
                            } else {
                                Some(
                                    crate::messages::SessionData {
                                        port: p1.0 as u16,
                                        pid: (if neg {
                                            -p2.0
                                        } else {
                                            p2.0
                                        }) as i32,
                                    },
                                )
                            }
                        },
                    }
                }
            },
        }
    }
}

/// Encoding a session record and parsing the bytes yields the same record.
pub proof fn lemma_session_data_roundtrip(d: crate::messages::SessionData)
    ensures
        session_data_parse(session_data_enc(d)) == Some(d),
{
    let e = session_data_enc(d);
    let head = seq![0x7bu8, 0x22, 0x70, 0x6f, 0x72, 0x74, 0x22, 0x3a];
    let mid = seq![0x2cu8, 0x22, 0x70, 0x69, 0x64, 0x22, 0x3a];
    let dp = crate::wire::dec_digits(d.port as int);
    let di = int_digits(d.pid as int);
    assert(e.take(8) =~= head);
    let tail1 = mid + di + seq![0x7du8];
    assert(e.skip(8) =~= dp + tail1);
    crate::wire::lemma_parse_uint_enc(d.port as int, tail1, 0xFFFF);
    let s1 = e.skip(8).skip(dp.len() as int);
    assert(s1 =~= tail1);
    assert(s1.take(7) =~= mid);
    let s2 = s1.skip(7);
    assert(s2 =~= di + seq![0x7du8]);
    if d.pid < 0 {
        let mag = -(d.pid as int);
        assert(s2[0] == 0x2d);
        assert(s2.skip(1) =~= crate::wire::dec_digits(mag) + seq![0x7du8]);
        crate::wire::lemma_parse_uint_enc(mag, seq![0x7du8], 0x80000000);
        let s4 = s2.skip(1).skip(crate::wire::dec_digits(mag).len() as int);
        assert(s4 =~= seq![0x7du8]);
    } else {
        crate::wire::lemma_dec_digits_wf(d.pid as int);
        assert(s2[0] != 0x2d);
        assert(s2 =~= crate::wire::dec_digits(d.pid as int) + seq![0x7du8]);
        crate::wire::lemma_parse_uint_enc(d.pid as int, seq![0x7du8], 0x7FFFFFFF);
        let s4 = s2.skip(crate::wire::dec_digits(d.pid as int).len() as int);
        assert(s4 =~= seq![0x7du8]);
    }
}

/// Write a session record as its JSON bytes.
pub fn encode_session_data(d: &crate::messages::SessionData) -> (r: Vec<u8>)
    ensures
        r@ == session_data_enc(*d),
{
    let mut out: Vec<u8> = Vec::new();
    out.push(0x7b);
    out.push(0x22);
    out.push(0x70);
    out.push(0x6f);
    out.push(0x72);
    out.push(0x74);
    out.push(0x22);
    out.push(0x3a);
    crate::wire::write_u32(d.port as u32, &mut out);
    out.push(0x2c);
    out.push(0x22);
    out.push(0x70);
    out.push(0x69);
    out.push(0x64);
    out.push(0x22);
    out.push(0x3a);
    if d.pid < 0 {
        out.push(0x2d);
        let mag64: i64 = -(d.pid as i64);
        let mag: u32 = mag64 as u32;
        crate::wire::write_u32(mag, &mut out);
    } else {
        crate::wire::write_u32(d.pid as u32, &mut out);
    }
    out.push(0x7d);
    proof {
        assert(out@ =~= session_data_enc(*d));
    }
    out
}

/// Read a session record back from its JSON bytes.  Succeeds exactly on the
/// records [`session_data_parse`] accepts, and returns that record.
#[verifier::loop_isolation(false)]
pub fn decode_session_data(s: &Vec<u8>) -> (r: Result<crate::messages::SessionData, CollabError>)
    ensures
        match session_data_parse(s@) {
            Some(d) => r matches Ok(got) && got == d,
            None => r is Err,
        },
{
    let bad = "malformed session key record";
    let head: [u8; 8] = [0x7b, 0x22, 0x70, 0x6f, 0x72, 0x74, 0x22, 0x3a];
    if s.len() < 8 {
        return Err(CollabError::new(bad));
    }
    let mut k: usize = 0;
    while k < 8
        invariant
            k <= 8,
            s@.len() >= 8,
            head@ =~= seq![0x7bu8, 0x22, 0x70, 0x6f, 0x72, 0x74, 0x22, 0x3a],
            forall|j: int| 0 <= j < k ==> s@[j] == head@[j],
        decreases 8 - k,
    {
        if s[k] != head[k] {
            proof {
                assert(s@.take(8)[k as int] != head@[k as int]);
            }
            return Err(CollabError::new(bad));
        }
        k = k + 1;
    }
    proof {
        assert(s@.take(8) =~= head@);
    }
    let (port, i1) = match crate::wire::read_uint(s, 8, 0xFFFF) {
        Some(x) => x,
        None => {
            return Err(CollabError::new(bad));
        },
    };
    proof {
        assert(s@.skip(8).skip((i1 - 8) as int) =~= s@.skip(i1 as int));
    }
    let mid: [u8; 7] = [0x2c, 0x22, 0x70, 0x69, 0x64, 0x22, 0x3a];
    if s.len() - i1 < 7 {
        proof {
            assert(s@.skip(i1 as int).len() < 7);
        }
        return Err(CollabError::new(bad));
    }
    let mut k: usize = 0;
    while k < 7
        invariant
            k <= 7,
            8 <= i1,
            i1 + 7 <= s@.len(),
            mid@ =~= seq![0x2cu8, 0x22, 0x70, 0x69, 0x64, 0x22, 0x3a],
            forall|j: int| 0 <= j < k ==> s@[i1 + j] == mid@[j],
        decreases 7 - k,
    {
        if s[i1 + k] != mid[k] {
            proof {
                assert(s@.skip(i1 as int).take(7)[k as int] != mid@[k as int]);
            }
            return Err(CollabError::new(bad));
        }
        k = k + 1;
    }
    proof {
        assert(s@.skip(i1 as int).take(7) =~= mid@);
    }
    let i2 = i1 + 7;
    proof {
        assert(s@.skip(i1 as int).skip(7) =~= s@.skip(i2 as int));
    }
    let neg = i2 < s.len() && s[i2] == 0x2d;
    proof {
        if i2 < s@.len() {
            assert(s@.skip(i2 as int)[0] == s@[i2 as int]);
        }
    }
    let i3 = if neg {
        i2 + 1
    } else {
        i2
    };
    proof {
        if neg {
            assert(s@.skip(i2 as int).skip(1) =~= s@.skip(i3 as int));
        }
    }
    let bound: u32 = if neg {
        0x80000000
    } else {
        0x7FFFFFFF
    };
    let (mag, i4) = match crate::wire::read_uint(s, i3, bound) {
        Some(x) => x,
        None => {
            return Err(CollabError::new(bad));
        },
    };
    proof {
        assert(s@.skip(i3 as int).skip((i4 - i3) as int) =~= s@.skip(i4 as int));
    }
    if s.len() - i4 != 1 || s[i4] != 0x7d {
        proof {
            if i4 < s@.len() {
                assert(s@.skip(i4 as int)[0] == s@[i4 as int]);
            }
        }
        return Err(CollabError::new(bad));
    }
    proof {
        assert(s@.skip(i4 as int)[0] == s@[i4 as int]);
    }
    let pid: i32 = if neg {
        (-(mag as i64)) as i32
    } else {
        mag as i32
    };
    proof {
        assert(session_data_parse(s@) is Some);
        assert(port <= 0xFFFF);
        assert(session_data_parse(s@).unwrap().port == port as u16);
        if neg {
            assert(0 <= mag <= 0x80000000);
            assert(pid as int == -(mag as int));
        } else {
            assert(0 <= mag <= 0x7FFFFFFF);
            assert(pid as int == mag as int);
        }
        assert(session_data_parse(s@).unwrap().pid == pid);
    }
    Ok(crate::messages::SessionData { port: port as u16, pid })
}

/// What the editor learned about one ancestor directory's key file.
#[derive(Debug, PartialEq, Eq, Structural, Clone, Copy)]
pub struct KeyProbe {
    /// A key file for this ancestor exists.
    pub exists: bool,
    /// The process it records is alive.
    pub alive: bool,
}

/// The first ancestor with a live key, scanning from the innermost out.
pub open spec fn first_live_from(s: Seq<KeyProbe>, i: int) -> Option<int>
    decreases s.len() - i,
{
    if i < 0 || i >= s.len() {
        None
    } else if s[i].exists && s[i].alive {
        Some(i)
    } else {
        first_live_from(s, i + 1)
    }
}

/// Which ancestor's key designates the session, given the probes for the
/// ancestors in inner-to-outer order: the innermost key whose recorded
/// process is alive wins.  A stale key does not end the search — the caller
/// deletes its file and this walk passes over it, outward.
pub fn find_key(probes: &Vec<KeyProbe>) -> (r: Option<usize>)
    ensures
        r == (match first_live_from(probes@, 0) {
            Some(i) => Some(i as usize),
            None => None::<usize>,
        }),
{
    let mut i: usize = 0;
    while i < probes.len()
        invariant
            i <= probes@.len(),
            first_live_from(probes@, 0) == first_live_from(probes@, i as int),
        decreases probes@.len() - i,
    {
        if probes[i].exists && probes[i].alive {
            return Some(i);
        }
        i = i + 1;
    }
    None
}

/// Whether any ancestor holds a live session key.
pub fn has_active_session(probes: &Vec<KeyProbe>) -> (r: bool)
    ensures
        r == (first_live_from(probes@, 0) is Some),
{
    find_key(probes).is_some()
}

/// The stop protocol's last step: after the shutdown request is sent, the
/// daemon's only correct answer is to drop the connection.  Any other reply
/// is an error.
pub fn client_send_stop(resp: &IpcClientResponse) -> (r: Result<(), CollabError>)
    ensures
        r is Ok <==> resp@ is RemoteDisconnect,
{
    match resp {
        IpcClientResponse::RemoteDisconnect => Ok(()),
        _ => Err(CollabError::new("daemon sent bad response")),
    }
}

/// The info protocol's last step: the reply to an info request must be an
/// info snapshot; anything else is an error.
pub fn client_get_info(resp: IpcClientResponse) -> (r: Result<IpcClientInfo, CollabError>)
    ensures
        r matches Ok(info) ==> resp@ matches
            crate::messages::IpcClientResponseV::Info(iv) && info@ == iv,
        r is Ok <==> resp@ is Info,
    {
    match resp {
        IpcClientResponse::Info(info) => Ok(info),
        _ => Err(CollabError::new("daemon sent bad response")),
    }
}

} // verus!
