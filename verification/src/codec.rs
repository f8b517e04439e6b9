//! The wire codec: canonical, byte-exact encodings for the message families
//! of `requests` and for the progress record, together with strict decoders.
//!
//! Every decoder accepts exactly the canonical encodings its encoder
//! produces: `decode(b) == Ok(m)` if and only if `b == encode(m)`. Malformed
//! input of any other shape is a `CodecError`.

use vstd::prelude::*;

use crate::requests::PeerAddr;
use crate::requests::RequestToTracker;
use crate::requests::TrackerResponse;
use crate::requests::LeechRequest;
use crate::requests::SeedResponse;
use crate::bitmap::{bits_of, bv_from_elem, bv_get, bv_len, bv_set};
use crate::requests::TorrentError;

verus! {

/// An ASCII decimal digit.
pub open spec fn is_digit(b: u8) -> bool {
    48 <= b && b <= 57
}

/// The decimal digits of `n`, most significant first, no leading zeros.
pub open spec fn dec_digits(n: nat) -> Seq<u8>
    decreases n,
{
    if n < 10 {
        seq![(48 + n) as u8]
    } else {
        dec_digits(n / 10).push((48 + n % 10) as u8)
    }
}

/// The number a digit string denotes.
pub open spec fn dec_value(s: Seq<u8>) -> int
    decreases s.len(),
{
    if s.len() == 0 {
        0
    } else {
        dec_value(s.drop_last()) * 10 + s.last() - 48
    }
}

/// Shape of `dec_digits(n)`: nonempty, all digits, and it starts with '0'
/// only for `n == 0` (whose digits are exactly "0").
pub proof fn lemma_dec_digits_shape(n: nat)
    ensures
        dec_digits(n).len() >= 1,
        forall|i: int| 0 <= i < dec_digits(n).len() ==> is_digit(#[trigger] dec_digits(n)[i]),
        n < 10 ==> dec_digits(n) == seq![(48 + n) as u8],
        dec_digits(n)[0] == 48 <==> n == 0,
    decreases n,
{
    if n >= 10 {
        lemma_dec_digits_shape(n / 10);
        assert forall|i: int| 0 <= i < dec_digits(n).len() implies is_digit(
            #[trigger] dec_digits(n)[i],
        ) by {
            if i < dec_digits(n / 10).len() {
                assert(dec_digits(n)[i] == dec_digits(n / 10)[i]);
            }
        }
        assert(dec_digits(n)[0] == dec_digits(n / 10)[0]);
    }
}

/// Reading the digits of `n` back yields `n`.
pub proof fn lemma_dec_value_of_digits(n: nat)
    ensures
        dec_value(dec_digits(n)) == n,
    decreases n,
{
    if n < 10 {
        assert(dec_digits(n) == seq![(48 + n) as u8]);
        assert(dec_digits(n).drop_last() =~= Seq::<u8>::empty());
        assert(dec_value(Seq::<u8>::empty()) == 0);
        assert(dec_value(dec_digits(n)) == dec_value(dec_digits(n).drop_last()) * 10 + dec_digits(
            n,
        ).last() - 48);
    } else {
        lemma_dec_value_of_digits(n / 10);
        assert(dec_digits(n).drop_last() =~= dec_digits(n / 10));
        assert(dec_value(dec_digits(n)) == dec_value(dec_digits(n).drop_last()) * 10 + dec_digits(
            n,
        ).last() - 48);
    }
}

/// The value of a digit string is nonnegative; positive when it does not
/// start with '0'.
pub proof fn lemma_dec_value_bounds(s: Seq<u8>)
    requires
        forall|i: int| 0 <= i < s.len() ==> is_digit(#[trigger] s[i]),
    ensures
        dec_value(s) >= 0,
        s.len() >= 1 && s[0] != 48 ==> dec_value(s) >= 1,
    decreases s.len(),
{
    if s.len() >= 1 {
        lemma_dec_value_bounds(s.drop_last());
        if s.len() >= 2 && s[0] != 48 {
            assert(s.drop_last()[0] == s[0]);
        }
    }
}

/// A nonempty digit string without a leading zero (or the single digit "0")
/// is the canonical digit string of its own value.
pub proof fn lemma_digits_of_value(s: Seq<u8>)
    requires
        s.len() >= 1,
        forall|i: int| 0 <= i < s.len() ==> is_digit(#[trigger] s[i]),
        s[0] != 48 || s.len() == 1,
    ensures
        dec_value(s) >= 0,
        dec_digits(dec_value(s) as nat) == s,
    decreases s.len(),
{
    lemma_dec_value_bounds(s);
    if s.len() == 1 {
        assert(s.drop_last() =~= Seq::<u8>::empty());
        assert(dec_value(Seq::<u8>::empty()) == 0);
        assert(dec_value(s) == dec_value(s.drop_last()) * 10 + s.last() - 48);
        assert(s.last() == s[0]);
        assert(dec_value(s) == s[0] - 48);
        assert(dec_digits(dec_value(s) as nat) == seq![(48 + (s[0] - 48) as nat) as u8]);
        assert((48 + (s[0] - 48) as nat) as u8 == s[0]);
        assert(dec_digits(dec_value(s) as nat) =~= s);
    } else {
        let t = s.drop_last();
        assert(t[0] == s[0]);
        lemma_digits_of_value(t);
        lemma_dec_value_bounds(t);
        let v = dec_value(s);
        let d = s.last() - 48;
        assert(v == dec_value(t) * 10 + d);
        assert(dec_value(t) >= 1);
        assert(v >= 10) by (nonlinear_arith)
            requires
                v == dec_value(t) * 10 + d,
                dec_value(t) >= 1,
                d >= 0,
        ;
        assert(v / 10 == dec_value(t) && v % 10 == d) by (nonlinear_arith)
            requires
                v == dec_value(t) * 10 + d,
                0 <= d < 10,
                dec_value(t) >= 0,
        ;
        assert(dec_digits(v as nat) == dec_digits(dec_value(t) as nat).push(
            (48 + (v as nat) % 10) as u8,
        ));
        assert(dec_digits(v as nat) =~= s);
    }
}

/// The value of a digit string is at least the value of any of its prefixes.
pub proof fn lemma_dec_value_prefix(s: Seq<u8>, k: int)
    requires
        forall|i: int| 0 <= i < s.len() ==> is_digit(#[trigger] s[i]),
        0 <= k <= s.len(),
    ensures
        dec_value(s) >= dec_value(s.take(k)),
    decreases s.len(),
{
    if k < s.len() {
        let t = s.drop_last();
        assert(t.take(k) =~= s.take(k));
        lemma_dec_value_prefix(t, k);
        lemma_dec_value_bounds(t);
        assert(dec_value(t) * 10 >= dec_value(t)) by (nonlinear_arith)
            requires
                dec_value(t) >= 0,
        ;
    } else {
        assert(s.take(k) =~= s);
    }
}

/// Appends the decimal digits of `n` to `out`.
pub fn push_usize(out: &mut Vec<u8>, n: usize)
    ensures
        final(out)@ == old(out)@ + dec_digits(n as nat),
    decreases n,
{
    if n >= 10 {
        push_usize(out, n / 10);
        out.push(48 + (n % 10) as u8);
        assert(out@ =~= old(out)@ + dec_digits(n as nat));
    } else {
        out.push(48 + n as u8);
        assert(out@ =~= old(out)@ + dec_digits(n as nat));
    }
}

/// Parses `buf[lo..hi]` as exactly the canonical decimal digits of a `usize`:
/// it returns `Ok(v)` if and only if that range is `dec_digits(v)`.
pub fn parse_usize_range(buf: &[u8], lo: usize, hi: usize) -> (r: Result<usize, TorrentError>)
    requires
        lo <= hi <= buf.len(),
    ensures
        match r {
            Ok(v) => buf@.subrange(lo as int, hi as int) == dec_digits(v as nat),
            Err(e) => {
                &&& e == TorrentError::CodecError
                &&& forall|v: usize|
                    buf@.subrange(lo as int, hi as int) != dec_digits(v as nat)
            },
        },
{
    let ghost s = buf@.subrange(lo as int, hi as int);
    if lo == hi {
        proof {
            assert forall|v: usize| s != dec_digits(v as nat) by {
                lemma_dec_digits_shape(v as nat);
            }
        }
        return Err(TorrentError::CodecError);
    }
    if buf[lo] == 48 {
        if hi - lo == 1 {
            proof {
                assert(s =~= dec_digits(0nat));
            }
            return Ok(0);
        } else {
            proof {
                assert forall|v: usize| s != dec_digits(v as nat) by {
                    lemma_dec_digits_shape(v as nat);
                    if s == dec_digits(v as nat) {
                        assert(s[0] == 48);
                        assert(v == 0);
                        assert(dec_digits(0nat).len() == 1);
                    }
                }
            }
            return Err(TorrentError::CodecError);
        }
    }
    let mut v: usize = 0;
    let mut i: usize = lo;
    while i < hi
        invariant
            lo <= i <= hi <= buf.len(),
            lo < hi,
            buf[lo as int] != 48,
            forall|j: int| lo <= j < i ==> is_digit(#[trigger] buf@[j]),
            v == dec_value(buf@.subrange(lo as int, i as int)),
        decreases hi - i,
    {
        let b = buf[i];
        let ghost s = buf@.subrange(lo as int, hi as int);
        let ghost prefix = buf@.subrange(lo as int, i as int);
        if !(48 <= b && b <= 57) {
            proof {
                assert forall|w: usize| s != dec_digits(w as nat) by {
                    lemma_dec_digits_shape(w as nat);
                    if s == dec_digits(w as nat) {
                        assert(is_digit(dec_digits(w as nat)[i - lo]));
                        assert(s[i - lo] == buf@[i as int]);
                    }
                }
            }
            return Err(TorrentError::CodecError);
        }
        let d = (b - 48) as usize;
        if v > (usize::MAX - d) / 10 {
            proof {
                let ext = buf@.subrange(lo as int, i + 1);
                assert(ext.drop_last() =~= prefix);
                assert(dec_value(ext) == v * 10 + d);
                assert(v * 10 + d > usize::MAX) by (nonlinear_arith)
                    requires
                        v > (usize::MAX - d) / 10,
                        0 <= d < 10,
                        v >= 0,
                ;
                assert forall|w: usize| s != dec_digits(w as nat) by {
                    lemma_dec_digits_shape(w as nat);
                    if s == dec_digits(w as nat) {
                        lemma_dec_value_of_digits(w as nat);
                        assert(s.take(i + 1 - lo) =~= ext);
                        lemma_dec_value_prefix(s, i + 1 - lo);
                        assert(dec_value(s) >= v * 10 + d);
                    }
                }
            }
            return Err(TorrentError::CodecError);
        }
        proof {
            let ext = buf@.subrange(lo as int, i + 1);
            assert(ext.drop_last() =~= prefix);
            assert(v * 10 + d <= usize::MAX) by (nonlinear_arith)
                requires
                    v <= (usize::MAX - d) / 10,
                    0 <= d < 10,
                    v >= 0,
            ;
        }
        v = v * 10 + d;
        i = i + 1;
    }
    proof {
        assert(s =~= buf@.subrange(lo as int, i as int));
        lemma_digits_of_value(s);
    }
    Ok(v)
}


/// Appends `pat` to `out`.
pub fn push_bytes(out: &mut Vec<u8>, pat: &Vec<u8>)
    ensures
        final(out)@ == old(out)@ + pat@,
{
    let mut i: usize = 0;
    while i < pat.len()
        invariant
            0 <= i <= pat@.len(),
            out@ == old(out)@ + pat@.take(i as int),
        decreases pat@.len() - i,
    {
        out.push(pat[i]);
        proof {
            assert(old(out)@ + pat@.take(i + 1) =~= (old(out)@ + pat@.take(i as int)).push(
                pat@[i as int],
            ));
        }
        i = i + 1;
    }
    proof {
        assert(pat@.take(pat@.len() as int) =~= pat@);
    }
}

/// True exactly when `buf[lo..hi]` equals `pat`.
pub fn eq_range(buf: &[u8], lo: usize, hi: usize, pat: &Vec<u8>) -> (r: bool)
    requires
        lo <= hi <= buf@.len(),
    ensures
        r == (buf@.subrange(lo as int, hi as int) == pat@),
{
    let ghost s = buf@.subrange(lo as int, hi as int);
    if hi - lo != pat.len() {
        return false;
    }
    let mut i: usize = 0;
    while i < pat.len()
        invariant
            lo <= hi <= buf@.len(),
            hi - lo == pat@.len(),
            0 <= i <= pat@.len(),
            forall|j: int| 0 <= j < i ==> buf@[lo + j] == pat@[j],
        decreases pat@.len() - i,
    {
        if buf[lo + i] != pat[i] {
            proof {
                let s = buf@.subrange(lo as int, hi as int);
                assert(s[i as int] == buf@[lo + i]);
            }
            return false;
        }
        i = i + 1;
    }
    proof {
        assert(s =~= pat@);
    }
    true
}

/// The first position of `t` in `buf[lo..hi]`, if any.
pub fn find_byte(buf: &[u8], lo: usize, hi: usize, t: u8) -> (r: Option<usize>)
    requires
        lo <= hi <= buf@.len(),
    ensures
        match r {
            Some(j) => {
                &&& lo <= j < hi
                &&& buf@[j as int] == t
                &&& forall|k: int| lo <= k < j ==> buf@[k] != t
            },
            None => forall|k: int| lo <= k < hi ==> buf@[k] != t,
        },
{
    let mut i: usize = lo;
    while i < hi
        invariant
            lo <= i <= hi <= buf@.len(),
            forall|k: int| lo <= k < i ==> buf@[k] != t,
        decreases hi - i,
    {
        if buf[i] == t {
            return Some(i);
        }
        i = i + 1;
    }
    None
}

/// The bytes of `"GetPeers"`.
pub open spec fn tok_msg_get_peers() -> Seq<u8> {
    seq![34u8, 71, 101, 116, 80, 101, 101, 114, 115, 34]
}

pub fn tok_msg_get_peers_vec() -> (r: Vec<u8>)
    ensures
        r@ == tok_msg_get_peers(),
{
    let v: Vec<u8> = vec![34u8, 71, 101, 116, 80, 101, 101, 114, 115, 34];
    proof {
        assert(v@ =~= tok_msg_get_peers());
    }
    v
}

/// The bytes of `"RegisteredSuccessfully"`.
pub open spec fn tok_msg_registered() -> Seq<u8> {
    seq![34u8, 82, 101, 103, 105, 115, 116, 101, 114, 101, 100, 83, 117, 99, 99, 101, 115, 115, 102, 117, 108, 108, 121, 34]
}

pub fn tok_msg_registered_vec() -> (r: Vec<u8>)
    ensures
        r@ == tok_msg_registered(),
{
    let v: Vec<u8> = vec![34u8, 82, 101, 103, 105, 115, 116, 101, 114, 101, 100, 83, 117, 99, 99, 101, 115, 115, 102, 117, 108, 108, 121, 34];
    proof {
        assert(v@ =~= tok_msg_registered());
    }
    v
}

/// The bytes of `"InvalidRequest"`.
pub open spec fn tok_msg_invalid() -> Seq<u8> {
    seq![34u8, 73, 110, 118, 97, 108, 105, 100, 82, 101, 113, 117, 101, 115, 116, 34]
}

pub fn tok_msg_invalid_vec() -> (r: Vec<u8>)
    ensures
        r@ == tok_msg_invalid(),
{
    let v: Vec<u8> = vec![34u8, 73, 110, 118, 97, 108, 105, 100, 82, 101, 113, 117, 101, 115, 116, 34];
    proof {
        assert(v@ =~= tok_msg_invalid());
    }
    v
}

/// The bytes of `"GetAvailability"`.
pub open spec fn tok_msg_get_availability() -> Seq<u8> {
    seq![34u8, 71, 101, 116, 65, 118, 97, 105, 108, 97, 98, 105, 108, 105, 116, 121, 34]
}

pub fn tok_msg_get_availability_vec() -> (r: Vec<u8>)
    ensures
        r@ == tok_msg_get_availability(),
{
    let v: Vec<u8> = vec![34u8, 71, 101, 116, 65, 118, 97, 105, 108, 97, 98, 105, 108, 105, 116, 121, 34];
    proof {
        assert(v@ =~= tok_msg_get_availability());
    }
    v
}

/// The bytes of `{"RegisterAsPeer":"`.
pub open spec fn tok_register_open() -> Seq<u8> {
    seq![123u8, 34, 82, 101, 103, 105, 115, 116, 101, 114, 65, 115, 80, 101, 101, 114, 34, 58, 34]
}

pub fn tok_register_open_vec() -> (r: Vec<u8>)
    ensures
        r@ == tok_register_open(),
{
    let v: Vec<u8> = vec![123u8, 34, 82, 101, 103, 105, 115, 116, 101, 114, 65, 115, 80, 101, 101, 114, 34, 58, 34];
    proof {
        assert(v@ =~= tok_register_open());
    }
    v
}

/// The bytes of `"}`.
pub open spec fn tok_register_close() -> Seq<u8> {
    seq![34u8, 125]
}

pub fn tok_register_close_vec() -> (r: Vec<u8>)
    ensures
        r@ == tok_register_close(),
{
    let v: Vec<u8> = vec![34u8, 125];
    proof {
        assert(v@ =~= tok_register_close());
    }
    v
}

/// The bytes of `{"Peers":[`.
pub open spec fn tok_peers_open() -> Seq<u8> {
    seq![123u8, 34, 80, 101, 101, 114, 115, 34, 58, 91]
}

pub fn tok_peers_open_vec() -> (r: Vec<u8>)
    ensures
        r@ == tok_peers_open(),
{
    let v: Vec<u8> = vec![123u8, 34, 80, 101, 101, 114, 115, 34, 58, 91];
    proof {
        assert(v@ =~= tok_peers_open());
    }
    v
}

/// The bytes of `]}`.
pub open spec fn tok_bracket_close() -> Seq<u8> {
    seq![93u8, 125]
}

pub fn tok_bracket_close_vec() -> (r: Vec<u8>)
    ensures
        r@ == tok_bracket_close(),
{
    let v: Vec<u8> = vec![93u8, 125];
    proof {
        assert(v@ =~= tok_bracket_close());
    }
    v
}

/// The bytes of `{"GetPackets":[`.
pub open spec fn tok_get_packets_open() -> Seq<u8> {
    seq![123u8, 34, 71, 101, 116, 80, 97, 99, 107, 101, 116, 115, 34, 58, 91]
}

pub fn tok_get_packets_open_vec() -> (r: Vec<u8>)
    ensures
        r@ == tok_get_packets_open(),
{
    let v: Vec<u8> = vec![123u8, 34, 71, 101, 116, 80, 97, 99, 107, 101, 116, 115, 34, 58, 91];
    proof {
        assert(v@ =~= tok_get_packets_open());
    }
    v
}

/// The bytes of `{"Availability":[`.
pub open spec fn tok_avail_open() -> Seq<u8> {
    seq![123u8, 34, 65, 118, 97, 105, 108, 97, 98, 105, 108, 105, 116, 121, 34, 58, 91]
}

pub fn tok_avail_open_vec() -> (r: Vec<u8>)
    ensures
        r@ == tok_avail_open(),
{
    let v: Vec<u8> = vec![123u8, 34, 65, 118, 97, 105, 108, 97, 98, 105, 108, 105, 116, 121, 34, 58, 91];
    proof {
        assert(v@ =~= tok_avail_open());
    }
    v
}

/// The bytes of `,"`.
pub open spec fn tok_comma_quote() -> Seq<u8> {
    seq![44u8, 34]
}

pub fn tok_comma_quote_vec() -> (r: Vec<u8>)
    ensures
        r@ == tok_comma_quote(),
{
    let v: Vec<u8> = vec![44u8, 34];
    proof {
        assert(v@ =~= tok_comma_quote());
    }
    v
}

/// The bytes of `"]}`.
pub open spec fn tok_quote_bracket_close() -> Seq<u8> {
    seq![34u8, 93, 125]
}

pub fn tok_quote_bracket_close_vec() -> (r: Vec<u8>)
    ensures
        r@ == tok_quote_bracket_close(),
{
    let v: Vec<u8> = vec![34u8, 93, 125];
    proof {
        assert(v@ =~= tok_quote_bracket_close());
    }
    v
}

/// The bytes of `{"path":"`.
pub open spec fn tok_prog_open() -> Seq<u8> {
    seq![123u8, 34, 112, 97, 116, 104, 34, 58, 34]
}

pub fn tok_prog_open_vec() -> (r: Vec<u8>)
    ensures
        r@ == tok_prog_open(),
{
    let v: Vec<u8> = vec![123u8, 34, 112, 97, 116, 104, 34, 58, 34];
    proof {
        assert(v@ =~= tok_prog_open());
    }
    v
}

/// The bytes of `","torrent_size":`.
pub open spec fn tok_prog_size() -> Seq<u8> {
    seq![34u8, 44, 34, 116, 111, 114, 114, 101, 110, 116, 95, 115, 105, 122, 101, 34, 58]
}

pub fn tok_prog_size_vec() -> (r: Vec<u8>)
    ensures
        r@ == tok_prog_size(),
{
    let v: Vec<u8> = vec![34u8, 44, 34, 116, 111, 114, 114, 101, 110, 116, 95, 115, 105, 122, 101, 34, 58];
    proof {
        assert(v@ =~= tok_prog_size());
    }
    v
}

/// The bytes of `,"packet_size":`.
pub open spec fn tok_prog_packet_size() -> Seq<u8> {
    seq![44u8, 34, 112, 97, 99, 107, 101, 116, 95, 115, 105, 122, 101, 34, 58]
}

pub fn tok_prog_packet_size_vec() -> (r: Vec<u8>)
    ensures
        r@ == tok_prog_packet_size(),
{
    let v: Vec<u8> = vec![44u8, 34, 112, 97, 99, 107, 101, 116, 95, 115, 105, 122, 101, 34, 58];
    proof {
        assert(v@ =~= tok_prog_packet_size());
    }
    v
}

/// The bytes of `,"packet_count":`.
pub open spec fn tok_prog_packet_count() -> Seq<u8> {
    seq![44u8, 34, 112, 97, 99, 107, 101, 116, 95, 99, 111, 117, 110, 116, 34, 58]
}

pub fn tok_prog_packet_count_vec() -> (r: Vec<u8>)
    ensures
        r@ == tok_prog_packet_count(),
{
    let v: Vec<u8> = vec![44u8, 34, 112, 97, 99, 107, 101, 116, 95, 99, 111, 117, 110, 116, 34, 58];
    proof {
        assert(v@ =~= tok_prog_packet_count());
    }
    v
}

/// The bytes of `,"packet_availability":[`.
pub open spec fn tok_prog_availability() -> Seq<u8> {
    seq![44u8, 34, 112, 97, 99, 107, 101, 116, 95, 97, 118, 97, 105, 108, 97, 98, 105, 108, 105, 116, 121, 34, 58, 91]
}

pub fn tok_prog_availability_vec() -> (r: Vec<u8>)
    ensures
        r@ == tok_prog_availability(),
{
    let v: Vec<u8> = vec![44u8, 34, 112, 97, 99, 107, 101, 116, 95, 97, 118, 97, 105, 108, 97, 98, 105, 108, 105, 116, 121, 34, 58, 91];
    proof {
        assert(v@ =~= tok_prog_availability());
    }
    v
}


/// The wire form of an address: `a.b.c.d:port`, each part in decimal.
pub open spec fn enc_addr(a: PeerAddr) -> Seq<u8> {
    dec_digits(a.a as nat) + seq![46u8] + dec_digits(a.b as nat) + seq![46u8] + dec_digits(
        a.c as nat,
    ) + seq![46u8] + dec_digits(a.d as nat) + seq![58u8] + dec_digits(a.port as nat)
}

/// Layout of an encoded address: where its parts and separators sit, and
/// that no dot or colon occurs anywhere else.
pub proof fn lemma_addr_layout(s: Seq<u8>, a: PeerAddr)
    requires
        s == enc_addr(a),
    ensures
        ({
            let l1 = dec_digits(a.a as nat).len() as int;
            let l2 = dec_digits(a.b as nat).len() as int;
            let l3 = dec_digits(a.c as nat).len() as int;
            let l4 = dec_digits(a.d as nat).len() as int;
            let l5 = dec_digits(a.port as nat).len() as int;
            &&& s.len() == l1 + l2 + l3 + l4 + l5 + 4
            &&& s.subrange(0, l1) == dec_digits(a.a as nat)
            &&& s[l1] == 46
            &&& s.subrange(l1 + 1, l1 + 1 + l2) == dec_digits(a.b as nat)
            &&& s[l1 + 1 + l2] == 46
            &&& s.subrange(l1 + l2 + 2, l1 + l2 + 2 + l3) == dec_digits(a.c as nat)
            &&& s[l1 + l2 + 2 + l3] == 46
            &&& s.subrange(l1 + l2 + l3 + 3, l1 + l2 + l3 + 3 + l4) == dec_digits(a.d as nat)
            &&& s[l1 + l2 + l3 + 3 + l4] == 58
            &&& s.subrange(l1 + l2 + l3 + l4 + 4, s.len() as int) == dec_digits(a.port as nat)
            &&& forall|k: int|
                0 <= k < s.len() && k != l1 && k != l1 + 1 + l2 && k != l1 + l2 + 2 + l3
                    ==> s[k] != 46
            &&& forall|k: int| 0 <= k < s.len() && k != l1 + l2 + l3 + 3 + l4 ==> s[k] != 58
        }),
{
    let d1 = dec_digits(a.a as nat);
    let d2 = dec_digits(a.b as nat);
    let d3 = dec_digits(a.c as nat);
    let d4 = dec_digits(a.d as nat);
    let d5 = dec_digits(a.port as nat);
    let l1 = d1.len() as int;
    let l2 = d2.len() as int;
    let l3 = d3.len() as int;
    let l4 = d4.len() as int;
    let l5 = d5.len() as int;
    lemma_dec_digits_shape(a.a as nat);
    lemma_dec_digits_shape(a.b as nat);
    lemma_dec_digits_shape(a.c as nat);
    lemma_dec_digits_shape(a.d as nat);
    lemma_dec_digits_shape(a.port as nat);
    assert(s.subrange(0, l1) =~= d1);
    assert(s.subrange(l1 + 1, l1 + 1 + l2) =~= d2);
    assert(s.subrange(l1 + l2 + 2, l1 + l2 + 2 + l3) =~= d3);
    assert(s.subrange(l1 + l2 + l3 + 3, l1 + l2 + l3 + 3 + l4) =~= d4);
    assert(s.subrange(l1 + l2 + l3 + l4 + 4, s.len() as int) =~= d5);
    assert forall|k: int|
        0 <= k < s.len() && k != l1 && k != l1 + 1 + l2 && k != l1 + l2 + 2 + l3 && k != l1 + l2
            + l3 + 3 + l4 implies is_digit(s[k]) by {
        if k < l1 {
            assert(s[k] == d1[k]);
        } else if k < l1 + 1 + l2 {
            assert(s[k] == d2[k - l1 - 1]);
        } else if k < l1 + l2 + 2 + l3 {
            assert(s[k] == d3[k - l1 - l2 - 2]);
        } else if k < l1 + l2 + l3 + 3 + l4 {
            assert(s[k] == d4[k - l1 - l2 - l3 - 3]);
        } else {
            assert(s[k] == d5[k - l1 - l2 - l3 - l4 - 4]);
        }
    }
}

/// Appends the wire form of `a` to `out`.
pub fn push_addr(out: &mut Vec<u8>, a: &PeerAddr)
    ensures
        final(out)@ == old(out)@ + enc_addr(*a),
{
    push_usize(out, a.a as usize);
    out.push(46);
    push_usize(out, a.b as usize);
    out.push(46);
    push_usize(out, a.c as usize);
    out.push(46);
    push_usize(out, a.d as usize);
    out.push(58);
    push_usize(out, a.port as usize);
    proof {
        assert(out@ =~= old(out)@ + enc_addr(*a));
    }
}

/// Parses `buf[lo..hi]` as exactly the wire form of an address: it returns
/// `Ok(a)` if and only if that range is `enc_addr(a)`.
pub fn parse_addr(buf: &[u8], lo: usize, hi: usize) -> (r: Result<PeerAddr, TorrentError>)
    requires
        lo <= hi <= buf@.len(),
    ensures
        match r {
            Ok(a) => buf@.subrange(lo as int, hi as int) == enc_addr(a),
            Err(e) => {
                &&& e == TorrentError::CodecError
                &&& forall|a: PeerAddr| buf@.subrange(lo as int, hi as int) != enc_addr(a)
            },
        },
{
    let d1 = match find_byte(buf, lo, hi, 46) {
        Some(j) => j,
        None => {
            proof {
                let s = buf@.subrange(lo as int, hi as int);
                assert forall|a: PeerAddr| s != enc_addr(a) by {
                    if s == enc_addr(a) {
                        lemma_addr_layout(s, a);
                        let l1 = dec_digits(a.a as nat).len() as int;
                        assert(buf@[lo + l1] == s[l1]);
                    }
                }
            }
            return Err(TorrentError::CodecError);
        },
    };
    let v1 = match parse_usize_range(buf, lo, d1) {
        Ok(v) => v,
        Err(_) => {
            proof {
                let s = buf@.subrange(lo as int, hi as int);
                assert forall|a: PeerAddr| s != enc_addr(a) by {
                    if s == enc_addr(a) {
                        lemma_addr_layout(s, a);
                        let l1 = dec_digits(a.a as nat).len() as int;
                        assert(buf@[lo + l1] == s[l1]);
                        assert(s[d1 - lo] == buf@[d1 as int]);
                        assert(d1 == lo + l1);
                        assert(buf@.subrange(lo as int, d1 as int) =~= s.subrange(0, l1));
                    }
                }
            }
            return Err(TorrentError::CodecError);
        },
    };
    if v1 > 255 {
        proof {
            let s = buf@.subrange(lo as int, hi as int);
            assert forall|a: PeerAddr| s != enc_addr(a) by {
                if s == enc_addr(a) {
                    lemma_addr_layout(s, a);
                    let l1 = dec_digits(a.a as nat).len() as int;
                    assert(buf@[lo + l1] == s[l1]);
                    assert(s[d1 - lo] == buf@[d1 as int]);
                    assert(d1 == lo + l1);
                    assert(buf@.subrange(lo as int, d1 as int) =~= s.subrange(0, l1));
                    assert(dec_digits(v1 as nat) == dec_digits(a.a as nat));
                    lemma_dec_value_of_digits(v1 as nat);
                    lemma_dec_value_of_digits(a.a as nat);
                }
            }
        }
        return Err(TorrentError::CodecError);
    }
    let r2 = parse_addr_tail(buf, lo, d1, hi);
    match r2 {
        Ok((v2, v3, v4, v5)) => {
            let a = PeerAddr {
                a: v1 as u8,
                b: v2 as u8,
                c: v3 as u8,
                d: v4 as u8,
                port: v5 as u16,
            };
            proof {
                let (j2, j3, j4) = choose|j2: int, j3: int, j4: int|
                    {
                        &&& d1 < j2 < j3 < j4 < hi
                        &&& buf@.subrange(d1 + 1, j2) == dec_digits(v2 as nat)
                        &&& buf@[j2] == 46
                        &&& buf@.subrange(j2 + 1, j3) == dec_digits(v3 as nat)
                        &&& buf@[j3] == 46
                        &&& buf@.subrange(j3 + 1, j4) == dec_digits(v4 as nat)
                        &&& buf@[j4] == 58
                        &&& buf@.subrange(j4 + 1, hi as int) == dec_digits(v5 as nat)
                    };
                lemma_addr_stitch(buf@, lo as int, d1 as int, j2, j3, j4, hi as int, a);
            }
            Ok(a)
        },
        Err(e) => Err(e),
    }
}

/// Parses the `.b.c.d:port` tail of an address, `buf[d1..hi]` where
/// `buf[d1]` is the first dot: returns `Ok` if and only if the tail has
/// exactly that form. Split from `parse_addr` to keep each proof small.
fn parse_addr_tail(buf: &[u8], lo: usize, d1: usize, hi: usize) -> (r: Result<
    (usize, usize, usize, usize),
    TorrentError,
>)
    requires
        lo <= d1 < hi <= buf@.len(),
        buf@[d1 as int] == 46,
        forall|k: int| lo <= k < d1 ==> buf@[k] != 46,
    ensures
        match r {
            Ok((v2, v3, v4, v5)) => {
                &&& v2 <= 255 && v3 <= 255 && v4 <= 255 && v5 <= 65535
                &&& exists|j2: int, j3: int, j4: int|
                    {
                        &&& d1 < j2 < j3 < j4 < hi
                        &&& buf@.subrange(d1 + 1, j2) == dec_digits(v2 as nat)
                        &&& buf@[j2] == 46
                        &&& buf@.subrange(j2 + 1, j3) == dec_digits(v3 as nat)
                        &&& buf@[j3] == 46
                        &&& buf@.subrange(j3 + 1, j4) == dec_digits(v4 as nat)
                        &&& buf@[j4] == 58
                        &&& buf@.subrange(j4 + 1, hi as int) == dec_digits(v5 as nat)
                    }
            },
            Err(e) => {
                &&& e == TorrentError::CodecError
                &&& forall|a: PeerAddr| buf@.subrange(lo as int, hi as int) != enc_addr(a)
            },
        },
{
    proof {
        lemma_addr_positions_partial(buf@, lo as int, d1 as int, hi as int);
    }
    let d2 = match find_byte(buf, d1 + 1, hi, 46) {
        Some(j) => j,
        None => {
            return Err(TorrentError::CodecError);
        },
    };
    let v2 = match parse_usize_range(buf, d1 + 1, d2) {
        Ok(v) => v,
        Err(_) => {
            return Err(TorrentError::CodecError);
        },
    };
    if v2 > 255 {
        proof {
            let s = buf@.subrange(lo as int, hi as int);
            assert forall|a: PeerAddr| s != enc_addr(a) by {
                if s == enc_addr(a) {
                    lemma_dec_value_of_digits(v2 as nat);
                    lemma_dec_value_of_digits(a.b as nat);
                }
            }
        }
        return Err(TorrentError::CodecError);
    }
    let d3 = match find_byte(buf, d2 + 1, hi, 46) {
        Some(j) => j,
        None => {
            return Err(TorrentError::CodecError);
        },
    };
    let v3 = match parse_usize_range(buf, d2 + 1, d3) {
        Ok(v) => v,
        Err(_) => {
            return Err(TorrentError::CodecError);
        },
    };
    if v3 > 255 {
        proof {
            let s = buf@.subrange(lo as int, hi as int);
            assert forall|a: PeerAddr| s != enc_addr(a) by {
                if s == enc_addr(a) {
                    lemma_dec_value_of_digits(v3 as nat);
                    lemma_dec_value_of_digits(a.c as nat);
                }
            }
        }
        return Err(TorrentError::CodecError);
    }
    let colon = match find_byte(buf, d3 + 1, hi, 58) {
        Some(j) => j,
        None => {
            return Err(TorrentError::CodecError);
        },
    };
    let v4 = match parse_usize_range(buf, d3 + 1, colon) {
        Ok(v) => v,
        Err(_) => {
            return Err(TorrentError::CodecError);
        },
    };
    if v4 > 255 {
        proof {
            let s = buf@.subrange(lo as int, hi as int);
            assert forall|a: PeerAddr| s != enc_addr(a) by {
                if s == enc_addr(a) {
                    lemma_dec_value_of_digits(v4 as nat);
                    lemma_dec_value_of_digits(a.d as nat);
                }
            }
        }
        return Err(TorrentError::CodecError);
    }
    let v5 = match parse_usize_range(buf, colon + 1, hi) {
        Ok(v) => v,
        Err(_) => {
            return Err(TorrentError::CodecError);
        },
    };
    if v5 > 65535 {
        proof {
            let s = buf@.subrange(lo as int, hi as int);
            assert forall|a: PeerAddr| s != enc_addr(a) by {
                if s == enc_addr(a) {
                    lemma_dec_value_of_digits(v5 as nat);
                    lemma_dec_value_of_digits(a.port as nat);
                }
            }
        }
        return Err(TorrentError::CodecError);
    }
    Ok((v2, v3, v4, v5))
}

/// When an address encoding fills `buf[lo..hi]` and its first dot sits at
/// `d1`, the remaining separators sit at the positions its parts dictate.
proof fn lemma_addr_positions_partial(b: Seq<u8>, lo: int, d1: int, hi: int)
    requires
        0 <= lo <= d1 < hi <= b.len(),
        b[d1] == 46,
        forall|k: int| lo <= k < d1 ==> b[k] != 46,
    ensures
        forall|a: PeerAddr| #[trigger]
            enc_addr(a) == b.subrange(lo, hi) ==> {
                let l1 = dec_digits(a.a as nat).len() as int;
                let l2 = dec_digits(a.b as nat).len() as int;
                let l3 = dec_digits(a.c as nat).len() as int;
                let l4 = dec_digits(a.d as nat).len() as int;
                let l5 = dec_digits(a.port as nat).len() as int;
                &&& d1 == lo + l1
                &&& b.subrange(d1 + 1, d1 + 1 + l2) == dec_digits(a.b as nat)
                &&& b[d1 + 1 + l2] == 46
                &&& forall|k: int| d1 + 1 <= k < d1 + 1 + l2 ==> b[k] != 46 && b[k] != 58
                &&& b.subrange(d1 + l2 + 2, d1 + l2 + 2 + l3) == dec_digits(a.c as nat)
                &&& b[d1 + l2 + 2 + l3] == 46
                &&& forall|k: int| d1 + l2 + 2 <= k < d1 + l2 + 2 + l3 ==> b[k] != 46 && b[k] != 58
                &&& b.subrange(d1 + l2 + l3 + 3, d1 + l2 + l3 + 3 + l4) == dec_digits(a.d as nat)
                &&& b[d1 + l2 + l3 + 3 + l4] == 58
                &&& forall|k: int|
                    d1 + l2 + l3 + 3 <= k < d1 + l2 + l3 + 3 + l4 ==> b[k] != 46 && b[k] != 58
                &&& b.subrange(d1 + l2 + l3 + l4 + 4, hi) == dec_digits(a.port as nat)
                &&& hi == d1 + l2 + l3 + l4 + l5 + 4
            },
{
    assert forall|a: PeerAddr| #[trigger] enc_addr(a) == b.subrange(lo, hi) implies {
        let l1 = dec_digits(a.a as nat).len() as int;
        let l2 = dec_digits(a.b as nat).len() as int;
        let l3 = dec_digits(a.c as nat).len() as int;
        let l4 = dec_digits(a.d as nat).len() as int;
        let l5 = dec_digits(a.port as nat).len() as int;
        &&& d1 == lo + l1
        &&& b.subrange(d1 + 1, d1 + 1 + l2) == dec_digits(a.b as nat)
        &&& b[d1 + 1 + l2] == 46
        &&& forall|k: int| d1 + 1 <= k < d1 + 1 + l2 ==> b[k] != 46 && b[k] != 58
        &&& b.subrange(d1 + l2 + 2, d1 + l2 + 2 + l3) == dec_digits(a.c as nat)
        &&& b[d1 + l2 + 2 + l3] == 46
        &&& forall|k: int| d1 + l2 + 2 <= k < d1 + l2 + 2 + l3 ==> b[k] != 46 && b[k] != 58
        &&& b.subrange(d1 + l2 + l3 + 3, d1 + l2 + l3 + 3 + l4) == dec_digits(a.d as nat)
        &&& b[d1 + l2 + l3 + 3 + l4] == 58
        &&& forall|k: int|
            d1 + l2 + l3 + 3 <= k < d1 + l2 + l3 + 3 + l4 ==> b[k] != 46 && b[k] != 58
        &&& b.subrange(d1 + l2 + l3 + l4 + 4, hi) == dec_digits(a.port as nat)
        &&& hi == d1 + l2 + l3 + l4 + l5 + 4
    } by {
        let s = b.subrange(lo, hi);
        lemma_addr_layout(s, a);
        let l1 = dec_digits(a.a as nat).len() as int;
        let l2 = dec_digits(a.b as nat).len() as int;
        let l3 = dec_digits(a.c as nat).len() as int;
        let l4 = dec_digits(a.d as nat).len() as int;
        assert(b[lo + l1] == s[l1]);
        assert(s[d1 - lo] == b[d1]);
        assert(d1 == lo + l1);
        assert(b.subrange(d1 + 1, d1 + 1 + l2) =~= s.subrange(l1 + 1, l1 + 1 + l2));
        assert(b[d1 + 1 + l2] == s[l1 + 1 + l2]);
        assert forall|k: int| d1 + 1 <= k < d1 + 1 + l2 implies b[k] != 46 && b[k] != 58 by {
            assert(b[k] == s[k - lo]);
        }
        assert(b.subrange(d1 + l2 + 2, d1 + l2 + 2 + l3) =~= s.subrange(
            l1 + l2 + 2,
            l1 + l2 + 2 + l3,
        ));
        assert(b[d1 + l2 + 2 + l3] == s[l1 + l2 + 2 + l3]);
        assert forall|k: int| d1 + l2 + 2 <= k < d1 + l2 + 2 + l3 implies b[k] != 46 && b[k] != 58
        by {
            assert(b[k] == s[k - lo]);
        }
        assert(b.subrange(d1 + l2 + l3 + 3, d1 + l2 + l3 + 3 + l4) =~= s.subrange(
            l1 + l2 + l3 + 3,
            l1 + l2 + l3 + 3 + l4,
        ));
        assert(b[d1 + l2 + l3 + 3 + l4] == s[l1 + l2 + l3 + 3 + l4]);
        assert forall|k: int|
            d1 + l2 + l3 + 3 <= k < d1 + l2 + l3 + 3 + l4 implies b[k] != 46 && b[k] != 58 by {
            assert(b[k] == s[k - lo]);
        }
        assert(b.subrange(d1 + l2 + l3 + l4 + 4, hi) =~= s.subrange(
            l1 + l2 + l3 + l4 + 4,
            s.len() as int,
        ));
    }
}


/// Recomposes an address from its parsed parts: when the digit groups and
/// separators of `a` fill `b[lo..hi]` in order, that range is `enc_addr(a)`.
proof fn lemma_addr_stitch(
    b: Seq<u8>,
    lo: int,
    d1: int,
    j2: int,
    j3: int,
    j4: int,
    hi: int,
    a: PeerAddr,
)
    requires
        0 <= lo <= d1 < j2 < j3 < j4 < hi <= b.len(),
        b.subrange(lo, d1) == dec_digits(a.a as nat),
        b[d1] == 46,
        b.subrange(d1 + 1, j2) == dec_digits(a.b as nat),
        b[j2] == 46,
        b.subrange(j2 + 1, j3) == dec_digits(a.c as nat),
        b[j3] == 46,
        b.subrange(j3 + 1, j4) == dec_digits(a.d as nat),
        b[j4] == 58,
        b.subrange(j4 + 1, hi) == dec_digits(a.port as nat),
    ensures
        b.subrange(lo, hi) == enc_addr(a),
{
    let s = b.subrange(lo, hi);
    let l1 = d1 - lo;
    let l2 = j2 - d1 - 1;
    let l3 = j3 - j2 - 1;
    let l4 = j4 - j3 - 1;
    let l5 = hi - j4 - 1;
    assert(dec_digits(a.a as nat).len() == l1);
    assert(dec_digits(a.b as nat).len() == l2);
    assert(dec_digits(a.c as nat).len() == l3);
    assert(dec_digits(a.d as nat).len() == l4);
    assert(dec_digits(a.port as nat).len() == l5);
    assert(enc_addr(a).len() == s.len());
    assert forall|i: int| 0 <= i < s.len() implies s[i] == enc_addr(a)[i] by {
        assert(s[i] == b[lo + i]);
        if i < l1 {
            assert(b.subrange(lo, d1)[i] == b[lo + i]);
        } else if i == l1 {
        } else if i < l1 + 1 + l2 {
            assert(b.subrange(d1 + 1, j2)[i - l1 - 1] == b[lo + i]);
        } else if i == l1 + 1 + l2 {
        } else if i < l1 + l2 + 2 + l3 {
            assert(b.subrange(j2 + 1, j3)[i - l1 - l2 - 2] == b[lo + i]);
        } else if i == l1 + l2 + 2 + l3 {
        } else if i < l1 + l2 + l3 + 3 + l4 {
            assert(b.subrange(j3 + 1, j4)[i - l1 - l2 - l3 - 3] == b[lo + i]);
        } else if i == l1 + l2 + l3 + 3 + l4 {
        } else {
            assert(b.subrange(j4 + 1, hi)[i - l1 - l2 - l3 - l4 - 4] == b[lo + i]);
        }
    }
    assert(s =~= enc_addr(a));
}


/// `pre` is the first bytes of `s`.
pub open spec fn begins_with(s: Seq<u8>, pre: Seq<u8>) -> bool {
    pre.len() <= s.len() && s.take(pre.len() as int) == pre
}

/// The wire form of `RequestToTracker`: `"GetPeers"` or
/// `{"RegisterAsPeer":"a.b.c.d:port"}`.
pub open spec fn enc_request_to_tracker(m: RequestToTracker) -> Seq<u8> {
    match m {
        RequestToTracker::GetPeers => tok_msg_get_peers(),
        RequestToTracker::RegisterAsPeer(a) => tok_register_open() + enc_addr(a)
            + tok_register_close(),
    }
}

/// A quoted address, as it stands in a `Peers` list.
pub open spec fn enc_addr_item(a: PeerAddr) -> Seq<u8> {
    seq![34u8] + enc_addr(a) + seq![34u8]
}

/// The quoted addresses of `l` from the second on, each preceded by a comma.
pub open spec fn enc_addr_rest(l: Seq<PeerAddr>) -> Seq<u8>
    decreases l.len(),
{
    if l.len() == 0 {
        Seq::empty()
    } else {
        seq![44u8] + enc_addr_item(l[0]) + enc_addr_rest(l.skip(1))
    }
}

/// The quoted addresses of `l`, comma-separated.
pub open spec fn enc_addr_items(l: Seq<PeerAddr>) -> Seq<u8>
    decreases l.len(),
{
    if l.len() == 0 {
        Seq::empty()
    } else {
        enc_addr_item(l[0]) + enc_addr_rest(l.skip(1))
    }
}

/// The wire form of `TrackerResponse`.
pub open spec fn enc_tracker_response(m: TrackerResponse) -> Seq<u8> {
    match m {
        TrackerResponse::Peers(l) => tok_peers_open() + enc_addr_items(l@) + tok_bracket_close(),
        TrackerResponse::InvalidRequest => tok_msg_invalid(),
        TrackerResponse::RegisteredSuccessfully => tok_msg_registered(),
    }
}

/// Appending an address to a list appends its (comma-separated) item.
proof fn lemma_items_snoc(l: Seq<PeerAddr>, a: PeerAddr)
    ensures
        l.len() == 0 ==> enc_addr_items(l.push(a)) == enc_addr_item(a),
        l.len() >= 1 ==> enc_addr_items(l.push(a)) == enc_addr_items(l) + seq![44u8]
            + enc_addr_item(a),
        enc_addr_rest(l.push(a)) == enc_addr_rest(l) + seq![44u8] + enc_addr_item(a),
    decreases l.len(),
{
    if l.len() == 0 {
        assert(l.push(a)[0] == a);
        assert(l.push(a).skip(1) =~= Seq::<PeerAddr>::empty());
        assert(enc_addr_items(l.push(a)) =~= enc_addr_item(a));
        assert(enc_addr_rest(l.push(a)) =~= enc_addr_rest(l) + seq![44u8] + enc_addr_item(a));
    } else {
        lemma_items_snoc(l.skip(1), a);
        assert(l.push(a).skip(1) =~= l.skip(1).push(a));
        assert(l.push(a)[0] == l[0]);
        assert(enc_addr_items(l.push(a)) =~= enc_addr_items(l) + seq![44u8] + enc_addr_item(a));
        assert(enc_addr_rest(l.push(a)) =~= enc_addr_rest(l) + seq![44u8] + enc_addr_item(a));
    }
}

/// An encoded address holds only digits, dots and one colon: never a quote
/// or a comma.
proof fn lemma_enc_addr_bytes(a: PeerAddr)
    ensures
        forall|k: int|
            0 <= k < enc_addr(a).len() ==> #[trigger] enc_addr(a)[k] != 34 && enc_addr(a)[k] != 44
                && enc_addr(a)[k] != 125,
{
    lemma_addr_layout(enc_addr(a), a);
    assert(enc_addr(a).subrange(0, enc_addr(a).len() as int) =~= enc_addr(a));
    assert forall|k: int| 0 <= k < enc_addr(a).len() implies #[trigger] enc_addr(a)[k] != 34
        && enc_addr(a)[k] != 44 && enc_addr(a)[k] != 125 by {
        let s = enc_addr(a);
        let l1 = dec_digits(a.a as nat).len() as int;
        let l2 = dec_digits(a.b as nat).len() as int;
        let l3 = dec_digits(a.c as nat).len() as int;
        let l4 = dec_digits(a.d as nat).len() as int;
        if k != l1 && k != l1 + 1 + l2 && k != l1 + l2 + 2 + l3 && k != l1 + l2 + l3 + 3 + l4 {
            lemma_dec_digits_shape(a.a as nat);
            lemma_dec_digits_shape(a.b as nat);
            lemma_dec_digits_shape(a.c as nat);
            lemma_dec_digits_shape(a.d as nat);
            lemma_dec_digits_shape(a.port as nat);
            if k < l1 {
                assert(s[k] == s.subrange(0, l1)[k]);
                assert(is_digit(s[k]));
            } else if k < l1 + 1 + l2 {
                assert(s[k] == s.subrange(l1 + 1, l1 + 1 + l2)[k - l1 - 1]);
                assert(is_digit(s[k]));
            } else if k < l1 + l2 + 2 + l3 {
                assert(s[k] == s.subrange(l1 + l2 + 2, l1 + l2 + 2 + l3)[k - l1 - l2 - 2]);
                assert(is_digit(s[k]));
            } else if k < l1 + l2 + l3 + 3 + l4 {
                assert(s[k] == s.subrange(l1 + l2 + l3 + 3, l1 + l2 + l3 + 3 + l4)[k - l1 - l2 - l3
                    - 3]);
                assert(is_digit(s[k]));
            } else {
                assert(s[k] == s.subrange(l1 + l2 + l3 + l4 + 4, s.len() as int)[k - l1 - l2 - l3
                    - l4 - 4]);
                assert(is_digit(s[k]));
            }
        }
    }
}

/// Encodes a request to the tracker.
pub fn encode_request_to_tracker(m: &RequestToTracker) -> (r: Vec<u8>)
    ensures
        r@ == enc_request_to_tracker(*m),
{
    match m {
        RequestToTracker::GetPeers => tok_msg_get_peers_vec(),
        RequestToTracker::RegisterAsPeer(a) => {
            let mut out = tok_register_open_vec();
            push_addr(&mut out, a);
            let close = tok_register_close_vec();
            push_bytes(&mut out, &close);
            proof {
                assert(out@ =~= enc_request_to_tracker(*m));
            }
            out
        },
    }
}

/// Encodes a tracker response.
pub fn encode_tracker_response(m: &TrackerResponse) -> (r: Vec<u8>)
    ensures
        r@ == enc_tracker_response(*m),
{
    match m {
        TrackerResponse::InvalidRequest => tok_msg_invalid_vec(),
        TrackerResponse::RegisteredSuccessfully => tok_msg_registered_vec(),
        TrackerResponse::Peers(l) => {
            let mut out = tok_peers_open_vec();
            let mut i: usize = 0;
            while i < l.len()
                invariant
                    0 <= i <= l@.len(),
                    out@ == tok_peers_open() + enc_addr_items(l@.take(i as int)),
                decreases l@.len() - i,
            {
                if i > 0 {
                    out.push(44);
                }
                out.push(34);
                push_addr(&mut out, &l[i]);
                out.push(34);
                proof {
                    lemma_items_snoc(l@.take(i as int), l@[i as int]);
                    assert(l@.take(i as int).push(l@[i as int]) =~= l@.take(i + 1));
                    if i == 0 {
                        assert(out@ =~= tok_peers_open() + enc_addr_items(l@.take(i + 1)));
                    } else {
                        assert(out@ =~= tok_peers_open() + enc_addr_items(l@.take(i + 1)));
                    }
                }
                i = i + 1;
            }
            let close = tok_bracket_close_vec();
            push_bytes(&mut out, &close);
            proof {
                assert(l@.take(l@.len() as int) =~= l@);
                assert(out@ =~= enc_tracker_response(*m));
            }
            out
        },
    }
}

/// Decodes a request to the tracker: returns `Ok(m)` if and only if `buf` is
/// exactly `enc_request_to_tracker(m)`.
pub fn decode_request_to_tracker(buf: &[u8]) -> (r: Result<RequestToTracker, TorrentError>)
    ensures
        match r {
            Ok(m) => buf@ == enc_request_to_tracker(m),
            Err(e) => {
                &&& e == TorrentError::CodecError
                &&& forall|m: RequestToTracker| buf@ != enc_request_to_tracker(m)
            },
        },
{
    let n = buf.len();
    proof {
        assert(buf@.subrange(0, n as int) =~= buf@);
    }
    let gp = tok_msg_get_peers_vec();
    if eq_range(buf, 0, n, &gp) {
        return Ok(RequestToTracker::GetPeers);
    }
    let open = tok_register_open_vec();
    let close = tok_register_close_vec();
    if n >= 21 && eq_range(buf, 0, 19, &open) && eq_range(buf, n - 2, n, &close) {
        match parse_addr(buf, 19, n - 2) {
            Ok(a) => {
                proof {
                    assert(buf@ =~= enc_request_to_tracker(RequestToTracker::RegisterAsPeer(a)));
                }
                Ok(RequestToTracker::RegisterAsPeer(a))
            },
            Err(_) => {
                proof {
                    assert forall|m: RequestToTracker| buf@ != enc_request_to_tracker(m) by {
                        if buf@ == enc_request_to_tracker(m) {
                            match m {
                                RequestToTracker::GetPeers => {},
                                RequestToTracker::RegisterAsPeer(a) => {
                                    lemma_register_parts(buf@, a);
                                },
                            }
                        }
                    }
                }
                Err(TorrentError::CodecError)
            },
        }
    } else {
        proof {
            assert forall|m: RequestToTracker| buf@ != enc_request_to_tracker(m) by {
                if buf@ == enc_request_to_tracker(m) {
                    match m {
                        RequestToTracker::GetPeers => {},
                        RequestToTracker::RegisterAsPeer(a) => {
                            lemma_register_parts(buf@, a);
                        },
                    }
                }
            }
        }
        Err(TorrentError::CodecError)
    }
}

/// Splits an encoded `RegisterAsPeer` frame into its three parts.
proof fn lemma_register_parts(b: Seq<u8>, a: PeerAddr)
    requires
        b == enc_request_to_tracker(RequestToTracker::RegisterAsPeer(a)),
    ensures
        b.len() >= 22,
        b.subrange(0, 19) == tok_register_open(),
        b.subrange(19, b.len() - 2) == enc_addr(a),
        b.subrange(b.len() - 2, b.len() as int) == tok_register_close(),
{
    lemma_dec_digits_shape(a.a as nat);
    lemma_dec_digits_shape(a.b as nat);
    lemma_dec_digits_shape(a.c as nat);
    lemma_dec_digits_shape(a.d as nat);
    lemma_dec_digits_shape(a.port as nat);
    assert(b.subrange(0, 19) =~= tok_register_open());
    assert(b.subrange(19, b.len() - 2) =~= enc_addr(a));
    assert(b.subrange(b.len() - 2, b.len() as int) =~= tok_register_close());
}


/// Layout of one list entry: when `b[i..hi]` is a quoted address followed by
/// the rest of the list, the quotes, the address and what follows sit at
/// forced positions.
proof fn lemma_item_region(b: Seq<u8>, i: int, hi: int, l: Seq<PeerAddr>, k: int)
    requires
        0 <= i <= hi <= b.len(),
        0 <= k < l.len(),
        b.subrange(i, hi) == enc_addr_item(l[k]) + enc_addr_rest(l.skip(k + 1)),
    ensures
        ({
            let e = enc_addr(l[k]).len() as int;
            &&& i + e + 2 <= hi
            &&& b[i] == 34
            &&& forall|t: int| i + 1 <= t < i + 1 + e ==> b[t] != 34
            &&& b.subrange(i + 1, i + 1 + e) == enc_addr(l[k])
            &&& b[i + 1 + e] == 34
            &&& (hi == i + e + 2 <==> l.len() == k + 1)
            &&& l.len() > k + 1 ==> b[i + e + 2] == 44 && b.subrange(i + e + 3, hi)
                == enc_addr_item(l[k + 1]) + enc_addr_rest(l.skip(k + 2))
        }),
{
    let s = b.subrange(i, hi);
    let e = enc_addr(l[k]).len() as int;
    let item = enc_addr_item(l[k]);
    let rest = enc_addr_rest(l.skip(k + 1));
    assert(item.len() == e + 2);
    assert(s.len() == item.len() + rest.len());
    assert(enc_addr_rest(l.skip(k + 1)).len() >= 0);
    assert(s.len() >= e + 2);
    assert(i < hi);
    assert(b[i] == s[0]);
    assert(s[0] == item[0]);
    lemma_enc_addr_bytes(l[k]);
    assert forall|t: int| i + 1 <= t < i + 1 + e implies b[t] != 34 by {
        assert(b[t] == s[t - i]);
        assert(s[t - i] == item[t - i]);
        assert(item[t - i] == enc_addr(l[k])[t - i - 1]);
    }
    assert forall|t: int| 0 <= t < e implies b.subrange(i + 1, i + 1 + e)[t] == enc_addr(l[k])[t]
    by {
        assert(b.subrange(i + 1, i + 1 + e)[t] == b[i + 1 + t]);
        assert(b[i + 1 + t] == s[1 + t]);
        assert(s[1 + t] == item[1 + t]);
        assert(item[1 + t] == (seq![34u8] + enc_addr(l[k]))[1 + t]);
        assert((seq![34u8] + enc_addr(l[k]))[1 + t] == enc_addr(l[k])[t]);
    }
    assert(b.subrange(i + 1, i + 1 + e) =~= enc_addr(l[k]));
    assert(b[i + 1 + e] == s[1 + e]);
    assert(s[1 + e] == item[1 + e]);
    if l.len() == k + 1 {
        assert(l.skip(k + 1).len() == 0);
        assert(rest.len() == 0);
        assert(hi == i + e + 2);
    } else {
        assert(l.skip(k + 1).len() > 0);
        assert(rest == seq![44u8] + enc_addr_item(l.skip(k + 1)[0]) + enc_addr_rest(
            l.skip(k + 1).skip(1),
        ));
        assert(rest.len() >= 1);
        assert(hi != i + e + 2);
        assert(l.skip(k + 1)[0] == l[k + 1]);
        assert(l.skip(k + 1).skip(1) =~= l.skip(k + 2));
        assert(b[i + e + 2] == s[e + 2]);
        assert(s[e + 2] == rest[0]);
        assert(rest[0] == 44);
        let tail = enc_addr_item(l[k + 1]) + enc_addr_rest(l.skip(k + 2));
        assert(rest =~= seq![44u8] + tail);
        assert forall|t: int| 0 <= t < hi - (i + e + 3) implies b.subrange(i + e + 3, hi)[t]
            == tail[t] by {
            assert(b.subrange(i + e + 3, hi)[t] == b[i + e + 3 + t]);
            assert(b[i + e + 3 + t] == s[e + 3 + t]);
            assert(s[e + 3 + t] == rest[t + 1]);
            assert(rest[t + 1] == (seq![44u8] + tail)[t + 1]);
            assert((seq![44u8] + tail)[t + 1] == tail[t]);
        }
        assert(b.subrange(i + e + 3, hi) =~= tail);
    }
}


/// Stitches the item just parsed onto the encoded prefix.
proof fn lemma_items_ok_stitch(
    b: Seq<u8>,
    lo: int,
    i: int,
    j: int,
    a: PeerAddr,
    out_old: Seq<PeerAddr>,
)
    requires
        0 <= lo <= i < j + 1 <= b.len(),
        b.subrange(i, j + 1) == enc_addr_item(a),
        out_old.len() == 0 ==> i == lo,
        out_old.len() >= 1 ==> b.subrange(lo, i) == enc_addr_items(out_old) + seq![44u8],
    ensures
        b.subrange(lo, j + 1) == enc_addr_items(out_old.push(a)),
{
    lemma_items_snoc(out_old, a);
    if out_old.len() == 0 {
        assert(b.subrange(lo, j + 1) =~= enc_addr_item(a));
    } else {
        assert(b.subrange(lo, j + 1) =~= (enc_addr_items(out_old) + seq![44u8]) + enc_addr_item(
            a,
        ));
        assert((enc_addr_items(out_old) + seq![44u8]) + enc_addr_item(a) =~= enc_addr_items(
            out_old,
        ) + seq![44u8] + enc_addr_item(a));
    }
}

/// Carries the completeness invariant of the list loop over one item and its
/// trailing comma.
proof fn lemma_items_complete_step(b: Seq<u8>, lo: int, i: int, j: int, hi: int, k: int)
    requires
        0 <= lo <= i <= hi <= b.len(),
        0 <= k,
        i + 1 <= j,
        j + 1 < hi,
        b[j] == 34,
        forall|t: int| i + 1 <= t < j ==> b[t] != 34,
        forall|l: Seq<PeerAddr>|
            b.subrange(lo, hi) == enc_addr_items(l) ==> {
                &&& k < l.len()
                &&& b.subrange(i, hi) == enc_addr_item(l[k]) + enc_addr_rest(l.skip(k + 1))
            },
    ensures
        forall|l: Seq<PeerAddr>|
            b.subrange(lo, hi) == enc_addr_items(l) ==> {
                &&& k + 1 < l.len()
                &&& b.subrange(j + 2, hi) == enc_addr_item(l[k + 1]) + enc_addr_rest(
                    l.skip(k + 2),
                )
            },
{
    assert forall|l: Seq<PeerAddr>|
        b.subrange(lo, hi) == enc_addr_items(l) implies {
        &&& k + 1 < l.len()
        &&& b.subrange(j + 2, hi) == enc_addr_item(l[k + 1]) + enc_addr_rest(l.skip(k + 2))
    } by {
        lemma_item_region(b, i, hi, l, k);
        let e = enc_addr(l[k]).len() as int;
        assert(j == i + 1 + e);
        assert(l.len() > k + 1);
    }
}

/// Parses `buf[lo..hi]` as exactly a comma-separated list of quoted
/// addresses: it returns `Ok(v)` if and only if that range is
/// `enc_addr_items(v@)`.
#[verifier::rlimit(100)]
pub fn parse_addr_items(buf: &[u8], lo: usize, hi: usize) -> (r: Result<
    Vec<PeerAddr>,
    TorrentError,
>)
    requires
        lo <= hi <= buf@.len(),
    ensures
        match r {
            Ok(v) => buf@.subrange(lo as int, hi as int) == enc_addr_items(v@),
            Err(e) => {
                &&& e == TorrentError::CodecError
                &&& forall|l: Seq<PeerAddr>|
                    buf@.subrange(lo as int, hi as int) != enc_addr_items(l)
            },
        },
{
    let mut out: Vec<PeerAddr> = Vec::new();
    if lo == hi {
        proof {
            assert(buf@.subrange(lo as int, hi as int) =~= enc_addr_items(out@));
        }
        return Ok(out);
    }
    let mut i: usize = lo;
    proof {
        assert forall|l: Seq<PeerAddr>|
            buf@.subrange(lo as int, hi as int) == enc_addr_items(l) implies {
            &&& out@.len() < l.len()
            &&& buf@.subrange(i as int, hi as int) == enc_addr_item(l[out@.len() as int])
                + enc_addr_rest(l.skip(out@.len() as int + 1))
        } by {
            if l.len() == 0 {
                assert(enc_addr_items(l).len() == 0);
                assert(buf@.subrange(lo as int, hi as int).len() == hi - lo);
            } else {
                assert(enc_addr_items(l) == enc_addr_item(l[0]) + enc_addr_rest(l.skip(1)));
            }
        }
    }
    while i < hi
        invariant
            lo <= i <= hi <= buf@.len(),
            lo < hi,
            out@.len() == 0 ==> i == lo,
            out@.len() >= 1 ==> buf@.subrange(lo as int, i as int) == enc_addr_items(out@)
                + seq![44u8],
            forall|l: Seq<PeerAddr>|
                buf@.subrange(lo as int, hi as int) == enc_addr_items(l) ==> {
                    &&& out@.len() < l.len()
                    &&& buf@.subrange(i as int, hi as int) == enc_addr_item(l[out@.len() as int])
                        + enc_addr_rest(l.skip(out@.len() as int + 1))
                },
        decreases hi - i,
    {
        let ghost s_all = buf@.subrange(lo as int, hi as int);
        let ghost k = out@.len() as int;
        if buf[i] != 34 {
            proof {
                assert forall|l: Seq<PeerAddr>| s_all != enc_addr_items(l) by {
                    if s_all == enc_addr_items(l) {
                        lemma_item_region(buf@, i as int, hi as int, l, k);
                    }
                }
            }
            return Err(TorrentError::CodecError);
        }
        let j = match find_byte(buf, i + 1, hi, 34) {
            Some(j) => j,
            None => {
                proof {
                    assert forall|l: Seq<PeerAddr>| s_all != enc_addr_items(l) by {
                        if s_all == enc_addr_items(l) {
                            lemma_item_region(buf@, i as int, hi as int, l, k);
                        }
                    }
                }
                return Err(TorrentError::CodecError);
            },
        };
        let a = match parse_addr(buf, i + 1, j) {
            Ok(a) => a,
            Err(_) => {
                proof {
                    assert forall|l: Seq<PeerAddr>| s_all != enc_addr_items(l) by {
                        if s_all == enc_addr_items(l) {
                            lemma_item_region(buf@, i as int, hi as int, l, k);
                            let e = enc_addr(l[k]).len() as int;
                            assert(j == i + 1 + e);
                        }
                    }
                }
                return Err(TorrentError::CodecError);
            },
        };
        proof {
            assert(buf@.subrange(i as int, j + 1) =~= enc_addr_item(a));
        }
        let ghost out_old = out@;
        out.push(a);
        if j + 1 == hi {
            proof {
                lemma_items_ok_stitch(buf@, lo as int, i as int, j as int, a, out_old);
            }
            return Ok(out);
        }
        if buf[j + 1] != 44 {
            proof {
                assert forall|l: Seq<PeerAddr>| s_all != enc_addr_items(l) by {
                    if s_all == enc_addr_items(l) {
                        lemma_item_region(buf@, i as int, hi as int, l, k);
                        let e = enc_addr(l[k]).len() as int;
                        assert(j == i + 1 + e);
                        if l.len() == k + 1 {
                            assert(hi == i + e + 2);
                        } else {
                            assert(buf@[i + e + 2] == 44);
                        }
                    }
                }
            }
            return Err(TorrentError::CodecError);
        }
        proof {
            lemma_items_ok_stitch(buf@, lo as int, i as int, j as int, a, out_old);
            assert(buf@.subrange(lo as int, j + 2) =~= buf@.subrange(lo as int, j + 1)
                + seq![44u8]);
            lemma_items_complete_step(buf@, lo as int, i as int, j as int, hi as int, k);
        }
        i = j + 2;
    }
    proof {
        assert forall|l: Seq<PeerAddr>|
            buf@.subrange(lo as int, hi as int) != enc_addr_items(l) by {
            if buf@.subrange(lo as int, hi as int) == enc_addr_items(l) {
                lemma_item_region(buf@, i as int, hi as int, l, out@.len() as int);
            }
        }
    }
    Err(TorrentError::CodecError)
}

/// Splits an encoded `Peers` frame into its three parts.
proof fn lemma_peers_parts(b: Seq<u8>, l: Seq<PeerAddr>)
    requires
        b == tok_peers_open() + enc_addr_items(l) + tok_bracket_close(),
    ensures
        b.len() >= 12,
        b.subrange(0, 10) == tok_peers_open(),
        b.subrange(10, b.len() - 2) == enc_addr_items(l),
        b.subrange(b.len() - 2, b.len() as int) == tok_bracket_close(),
{
    assert(b.subrange(0, 10) =~= tok_peers_open());
    assert(b.subrange(10, b.len() - 2) =~= enc_addr_items(l));
    assert(b.subrange(b.len() - 2, b.len() as int) =~= tok_bracket_close());
}

/// Decodes a tracker response: returns `Ok(m)` if and only if `buf` is
/// exactly `enc_tracker_response(m)`.
pub fn decode_tracker_response(buf: &[u8]) -> (r: Result<TrackerResponse, TorrentError>)
    ensures
        match r {
            Ok(m) => buf@ == enc_tracker_response(m),
            Err(e) => {
                &&& e == TorrentError::CodecError
                &&& forall|m: TrackerResponse| buf@ != enc_tracker_response(m)
            },
        },
{
    let n = buf.len();
    proof {
        assert(buf@.subrange(0, n as int) =~= buf@);
    }
    let inv = tok_msg_invalid_vec();
    if eq_range(buf, 0, n, &inv) {
        return Ok(TrackerResponse::InvalidRequest);
    }
    let reg = tok_msg_registered_vec();
    if eq_range(buf, 0, n, &reg) {
        return Ok(TrackerResponse::RegisteredSuccessfully);
    }
    let open = tok_peers_open_vec();
    let close = tok_bracket_close_vec();
    if n >= 12 && eq_range(buf, 0, 10, &open) && eq_range(buf, n - 2, n, &close) {
        match parse_addr_items(buf, 10, n - 2) {
            Ok(v) => {
                proof {
                    assert(buf@ =~= enc_tracker_response(TrackerResponse::Peers(v)));
                }
                Ok(TrackerResponse::Peers(v))
            },
            Err(_) => {
                proof {
                    assert forall|m: TrackerResponse| buf@ != enc_tracker_response(m) by {
                        if buf@ == enc_tracker_response(m) {
                            match m {
                                TrackerResponse::Peers(lv) => {
                                    lemma_peers_parts(buf@, lv@);
                                },
                                _ => {},
                            }
                        }
                    }
                }
                Err(TorrentError::CodecError)
            },
        }
    } else {
        proof {
            assert forall|m: TrackerResponse| buf@ != enc_tracker_response(m) by {
                if buf@ == enc_tracker_response(m) {
                    match m {
                        TrackerResponse::Peers(lv) => {
                            lemma_peers_parts(buf@, lv@);
                        },
                        _ => {},
                    }
                }
            }
        }
        Err(TorrentError::CodecError)
    }
}


/// The wire form of `LeechRequest`: `"GetAvailability"` or
/// `{"GetPackets":[start,count]}`.
pub open spec fn enc_leech_request(m: LeechRequest) -> Seq<u8> {
    match m {
        LeechRequest::GetAvailability => tok_msg_get_availability(),
        LeechRequest::GetPackets(start, count) => tok_get_packets_open() + dec_digits(
            start as nat,
        ) + seq![44u8] + dec_digits(count as nat) + tok_bracket_close(),
    }
}

/// Encodes a leech request.
pub fn encode_leech_request(m: &LeechRequest) -> (r: Vec<u8>)
    ensures
        r@ == enc_leech_request(*m),
{
    match m {
        LeechRequest::GetAvailability => tok_msg_get_availability_vec(),
        LeechRequest::GetPackets(start, count) => {
            let mut out = tok_get_packets_open_vec();
            push_usize(&mut out, *start);
            out.push(44);
            push_usize(&mut out, *count);
            let close = tok_bracket_close_vec();
            push_bytes(&mut out, &close);
            proof {
                assert(out@ =~= enc_leech_request(*m));
            }
            out
        },
    }
}

/// Splits an encoded `GetPackets` frame into its parts: the separators sit at
/// the positions its digit groups dictate, and nowhere else.
proof fn lemma_get_packets_parts(b: Seq<u8>, start: usize, count: usize)
    requires
        b == enc_leech_request(LeechRequest::GetPackets(start, count)),
    ensures
        ({
            let l1 = dec_digits(start as nat).len() as int;
            let l2 = dec_digits(count as nat).len() as int;
            &&& b.len() == 15 + l1 + 1 + l2 + 2
            &&& b.subrange(0, 15) == tok_get_packets_open()
            &&& b.subrange(15, 15 + l1) == dec_digits(start as nat)
            &&& b[15 + l1] == 44
            &&& forall|t: int| 15 <= t < 15 + l1 ==> b[t] != 44
            &&& forall|t: int| 15 + l1 + 1 <= t < 15 + l1 + 1 + l2 ==> b[t] != 44
            &&& b.subrange(15 + l1 + 1, 15 + l1 + 1 + l2) == dec_digits(count as nat)
            &&& b.subrange(b.len() - 2, b.len() as int) == tok_bracket_close()
        }),
{
    let d1 = dec_digits(start as nat);
    let d2 = dec_digits(count as nat);
    let l1 = d1.len() as int;
    let l2 = d2.len() as int;
    lemma_dec_digits_shape(start as nat);
    lemma_dec_digits_shape(count as nat);
    assert(b.subrange(0, 15) =~= tok_get_packets_open());
    assert(b.subrange(15, 15 + l1) =~= d1);
    assert(b.subrange(15 + l1 + 1, 15 + l1 + 1 + l2) =~= d2);
    assert(b.subrange(b.len() - 2, b.len() as int) =~= tok_bracket_close());
    assert forall|t: int| 15 <= t < 15 + l1 implies b[t] != 44 by {
        assert(b[t] == b.subrange(15, 15 + l1)[t - 15]);
        assert(is_digit(d1[t - 15]));
    }
    assert forall|t: int| 15 + l1 + 1 <= t < 15 + l1 + 1 + l2 implies b[t] != 44 by {
        assert(b[t] == b.subrange(15 + l1 + 1, 15 + l1 + 1 + l2)[t - 15 - l1 - 1]);
        assert(is_digit(d2[t - 15 - l1 - 1]));
    }
}

/// Decodes a leech request: returns `Ok(m)` if and only if `buf` is exactly
/// `enc_leech_request(m)`.
pub fn decode_leech_request(buf: &[u8]) -> (r: Result<LeechRequest, TorrentError>)
    ensures
        match r {
            Ok(m) => buf@ == enc_leech_request(m),
            Err(e) => {
                &&& e == TorrentError::CodecError
                &&& forall|m: LeechRequest| buf@ != enc_leech_request(m)
            },
        },
{
    let n = buf.len();
    proof {
        assert(buf@.subrange(0, n as int) =~= buf@);
    }
    let ga = tok_msg_get_availability_vec();
    if eq_range(buf, 0, n, &ga) {
        return Ok(LeechRequest::GetAvailability);
    }
    let open = tok_get_packets_open_vec();
    let close = tok_bracket_close_vec();
    if n >= 20 && eq_range(buf, 0, 15, &open) && eq_range(buf, n - 2, n, &close) {
        let comma = match find_byte(buf, 15, n - 2, 44) {
            Some(j) => j,
            None => {
                proof {
                    assert forall|m: LeechRequest| buf@ != enc_leech_request(m) by {
                        if buf@ == enc_leech_request(m) {
                            match m {
                                LeechRequest::GetAvailability => {},
                                LeechRequest::GetPackets(s0, c0) => {
                                    lemma_get_packets_parts(buf@, s0, c0);
                                },
                            }
                        }
                    }
                }
                return Err(TorrentError::CodecError);
            },
        };
        let start = match parse_usize_range(buf, 15, comma) {
            Ok(v) => v,
            Err(_) => {
                proof {
                    assert forall|m: LeechRequest| buf@ != enc_leech_request(m) by {
                        if buf@ == enc_leech_request(m) {
                            match m {
                                LeechRequest::GetAvailability => {},
                                LeechRequest::GetPackets(s0, c0) => {
                                    lemma_get_packets_parts(buf@, s0, c0);
                                },
                            }
                        }
                    }
                }
                return Err(TorrentError::CodecError);
            },
        };
        let count = match parse_usize_range(buf, comma + 1, n - 2) {
            Ok(v) => v,
            Err(_) => {
                proof {
                    assert forall|m: LeechRequest| buf@ != enc_leech_request(m) by {
                        if buf@ == enc_leech_request(m) {
                            match m {
                                LeechRequest::GetAvailability => {},
                                LeechRequest::GetPackets(s0, c0) => {
                                    lemma_get_packets_parts(buf@, s0, c0);
                                },
                            }
                        }
                    }
                }
                return Err(TorrentError::CodecError);
            },
        };
        proof {
            assert(buf@ =~= enc_leech_request(LeechRequest::GetPackets(start, count)));
        }
        Ok(LeechRequest::GetPackets(start, count))
    } else {
        proof {
            assert forall|m: LeechRequest| buf@ != enc_leech_request(m) by {
                if buf@ == enc_leech_request(m) {
                    match m {
                        LeechRequest::GetAvailability => {},
                        LeechRequest::GetPackets(s0, c0) => {
                            lemma_get_packets_parts(buf@, s0, c0);
                            lemma_dec_digits_shape(s0 as nat);
                            lemma_dec_digits_shape(c0 as nat);
                        },
                    }
                }
            }
        }
        Err(TorrentError::CodecError)
    }
}


/// One character per bit: '1' where the bit is set, '0' where it is clear.
pub open spec fn enc_bits(bits: Seq<bool>) -> Seq<u8> {
    Seq::new(
        bits.len(),
        |i: int|
            if bits[i] {
                49u8
            } else {
                48u8
            },
    )
}

/// The wire form of an availability snapshot:
/// `{"Availability":[nbits,"bits"]}` with the bit count first, as the bitmap
/// length is not recoverable from any denser packing without it.
pub open spec fn enc_availability(bits: Seq<bool>) -> Seq<u8> {
    tok_avail_open() + dec_digits(bits.len()) + tok_comma_quote() + enc_bits(bits)
        + tok_quote_bracket_close()
}

/// The wire form of `SeedResponse`. The reply to `GetPackets` is raw bytes
/// and never passes through here.
pub open spec fn enc_seed_response(m: SeedResponse) -> Seq<u8> {
    match m {
        SeedResponse::InvalidRequest => tok_msg_invalid(),
        SeedResponse::Availability(bv) => enc_availability(bits_of(bv)),
    }
}

/// Encodes a seed response.
pub fn encode_seed_response(m: &SeedResponse) -> (r: Vec<u8>)
    ensures
        r@ == enc_seed_response(*m),
{
    match m {
        SeedResponse::InvalidRequest => tok_msg_invalid_vec(),
        SeedResponse::Availability(bv) => {
            let n = bv_len(bv);
            let mut out = tok_avail_open_vec();
            push_usize(&mut out, n);
            let cq = tok_comma_quote_vec();
            push_bytes(&mut out, &cq);
            push_bits(&mut out, bv);
            let close = tok_quote_bracket_close_vec();
            push_bytes(&mut out, &close);
            proof {
                assert(out@ =~= enc_seed_response(*m));
            }
            out
        },
    }
}

/// Splits an encoded availability frame into its parts: where the bit count,
/// the quotes and the bit characters sit, and that no comma occurs earlier.
proof fn lemma_availability_parts(b: Seq<u8>, bits: Seq<bool>)
    requires
        b == enc_availability(bits),
    ensures
        ({
            let l1 = dec_digits(bits.len()).len() as int;
            &&& b.len() == 17 + l1 + 2 + bits.len() + 3
            &&& b.subrange(0, 17) == tok_avail_open()
            &&& b.subrange(17, 17 + l1) == dec_digits(bits.len())
            &&& forall|t: int| 17 <= t < 17 + l1 ==> b[t] != 44
            &&& b[17 + l1] == 44
            &&& b[17 + l1 + 1] == 34
            &&& b.subrange(17 + l1 + 2, b.len() - 3) == enc_bits(bits)
            &&& forall|t: int| 17 + l1 + 2 <= t < b.len() - 3 ==> b[t] != 44
            &&& b.subrange(b.len() - 3, b.len() as int) == tok_quote_bracket_close()
        }),
{
    let d1 = dec_digits(bits.len());
    let l1 = d1.len() as int;
    lemma_dec_digits_shape(bits.len());
    assert(b.subrange(0, 17) =~= tok_avail_open());
    assert(b.subrange(17, 17 + l1) =~= d1);
    assert forall|t: int| 17 <= t < 17 + l1 implies b[t] != 44 by {
        assert(b[t] == b.subrange(17, 17 + l1)[t - 17]);
        assert(is_digit(d1[t - 17]));
    }
    assert(b.subrange(17 + l1 + 2, b.len() - 3) =~= enc_bits(bits));
    assert forall|t: int| 17 + l1 + 2 <= t < b.len() - 3 implies b[t] != 44 by {
        assert(b[t] == b.subrange(17 + l1 + 2, b.len() - 3)[t - 17 - l1 - 2]);
        assert(enc_bits(bits)[t - 17 - l1 - 2] == 48 || enc_bits(bits)[t - 17 - l1 - 2] == 49);
    }
    assert(b.subrange(b.len() - 3, b.len() as int) =~= tok_quote_bracket_close());
}

/// Decodes a seed response: returns `Ok(m)` if and only if `buf` is exactly
/// `enc_seed_response(m)`.
#[verifier::rlimit(60)]
pub fn decode_seed_response(buf: &[u8]) -> (r: Result<SeedResponse, TorrentError>)
    ensures
        match r {
            Ok(m) => buf@ == enc_seed_response(m),
            Err(e) => {
                &&& e == TorrentError::CodecError
                &&& forall|m: SeedResponse| buf@ != enc_seed_response(m)
            },
        },
{
    let n = buf.len();
    proof {
        assert(buf@.subrange(0, n as int) =~= buf@);
    }
    let inv = tok_msg_invalid_vec();
    if eq_range(buf, 0, n, &inv) {
        return Ok(SeedResponse::InvalidRequest);
    }
    let open = tok_avail_open_vec();
    let close = tok_quote_bracket_close_vec();
    if !(n >= 23 && eq_range(buf, 0, 17, &open) && eq_range(buf, n - 3, n, &close)) {
        proof {
            assert forall|m: SeedResponse| buf@ != enc_seed_response(m) by {
                if buf@ == enc_seed_response(m) {
                    match m {
                        SeedResponse::InvalidRequest => {},
                        SeedResponse::Availability(bv) => {
                            lemma_availability_parts(buf@, bits_of(bv));
                            lemma_dec_digits_shape(bits_of(bv).len());
                        },
                    }
                }
            }
        }
        return Err(TorrentError::CodecError);
    }
    let comma = match find_byte(buf, 17, n - 3, 44) {
        Some(j) => j,
        None => {
            proof {
                assert forall|m: SeedResponse| buf@ != enc_seed_response(m) by {
                    if buf@ == enc_seed_response(m) {
                        match m {
                            SeedResponse::InvalidRequest => {},
                            SeedResponse::Availability(bv) => {
                                lemma_availability_parts(buf@, bits_of(bv));
                            },
                        }
                    }
                }
            }
            return Err(TorrentError::CodecError);
        },
    };
    let nbits = match parse_usize_range(buf, 17, comma) {
        Ok(v) => v,
        Err(_) => {
            proof {
                assert forall|m: SeedResponse| buf@ != enc_seed_response(m) by {
                    if buf@ == enc_seed_response(m) {
                        match m {
                            SeedResponse::InvalidRequest => {},
                            SeedResponse::Availability(bv) => {
                                let bits = bits_of(bv);
                                lemma_availability_parts(buf@, bits);
                                let l1 = dec_digits(bits.len()).len() as int;
                                assert(comma == 17 + l1);
                                if bits.len() <= usize::MAX {
                                    let w = bits.len() as usize;
                                    assert(dec_digits(w as nat) == dec_digits(bits.len()));
                                    assert(buf@.subrange(17, comma as int) == dec_digits(
                                        w as nat,
                                    ));
                                } else {
                                    assert(buf@.len() > usize::MAX);
                                }
                            },
                        }
                    }
                }
            }
            return Err(TorrentError::CodecError);
        },
    };
    if !(comma + 1 < n - 3 && buf[comma + 1] == 34 && n - 3 - (comma + 2) == nbits) {
        proof {
            assert forall|m: SeedResponse| buf@ != enc_seed_response(m) by {
                if buf@ == enc_seed_response(m) {
                    match m {
                        SeedResponse::InvalidRequest => {},
                        SeedResponse::Availability(bv) => {
                            let bits = bits_of(bv);
                            lemma_availability_parts(buf@, bits);
                            let l1 = dec_digits(bits.len()).len() as int;
                            assert(comma == 17 + l1);
                            lemma_dec_value_of_digits(nbits as nat);
                            lemma_dec_value_of_digits(bits.len());
                        },
                    }
                }
            }
        }
        return Err(TorrentError::CodecError);
    }
    let mut bm = bv_from_elem(nbits, false);
    let mut i: usize = 0;
    while i < nbits
        invariant
            comma + 2 + nbits == n - 3 <= buf@.len(),
            n == buf@.len(),
            17 <= comma < n - 3,
            buf@[comma as int] == 44,
            forall|t: int| 17 <= t < comma ==> buf@[t] != 44,
            buf@.subrange(17, comma as int) == dec_digits(nbits as nat),
            buf@[comma + 1] == 34,
            0 <= i <= nbits,
            bits_of(bm).len() == nbits,
            forall|t: int|
                0 <= t < nbits ==> #[trigger] bits_of(bm)[t] == (t < i && buf@[comma + 2 + t]
                    == 49),
            forall|t: int|
                0 <= t < i ==> #[trigger] buf@[comma + 2 + t] == 48 || buf@[comma + 2 + t] == 49,
        decreases nbits - i,
    {
        let c = buf[comma + 2 + i];
        if c == 49 {
            bv_set(&mut bm, i, true);
        } else if c != 48 {
            proof {
                assert forall|m: SeedResponse| buf@ != enc_seed_response(m) by {
                    if buf@ == enc_seed_response(m) {
                        match m {
                            SeedResponse::InvalidRequest => {},
                            SeedResponse::Availability(bv) => {
                                let bits = bits_of(bv);
                                lemma_availability_parts(buf@, bits);
                                let l1 = dec_digits(bits.len()).len() as int;
                                assert(comma == 17 + l1);
                                assert(buf@[comma + 2 + i] == buf@.subrange(
                                    17 + l1 + 2,
                                    buf@.len() - 3,
                                )[i as int]);
                                assert(enc_bits(bits)[i as int] == 48 || enc_bits(bits)[i as int]
                                    == 49);
                            },
                        }
                    }
                }
            }
            return Err(TorrentError::CodecError);
        }
        i = i + 1;
    }
    let m = SeedResponse::Availability(bm);
    proof {
        assert(enc_bits(bits_of(bm)) =~= buf@.subrange(comma + 2, n - 3));
        assert(buf@.subrange(17, comma as int) == dec_digits(nbits as nat));
        assert(dec_digits(bits_of(bm).len()) == dec_digits(nbits as nat));
        assert(buf@ =~= enc_seed_response(m));
    }
    Ok(m)
}


/// The character of one hex nibble, lower case.
pub open spec fn hex_digit(n: nat) -> u8 {
    if n < 10 {
        (48 + n) as u8
    } else {
        (87 + n) as u8
    }
}

/// How one path byte stands inside a quoted string: quote and backslash get
/// a backslash escape, control bytes a `\u00..` escape, all else is itself.
pub open spec fn esc_byte(b: u8) -> Seq<u8> {
    if b == 34 {
        seq![92u8, 34]
    } else if b == 92 {
        seq![92u8, 92]
    } else if b < 32 {
        seq![92u8, 117, 48, 48, hex_digit((b / 16) as nat), hex_digit((b % 16) as nat)]
    } else {
        seq![b]
    }
}

/// A whole path, escaped byte by byte.
pub open spec fn esc_bytes(p: Seq<u8>) -> Seq<u8>
    decreases p.len(),
{
    if p.len() == 0 {
        Seq::empty()
    } else {
        esc_byte(p[0]) + esc_bytes(p.skip(1))
    }
}

/// Escaping a path one byte longer appends that byte's escape.
proof fn lemma_esc_snoc(p: Seq<u8>, b: u8)
    ensures
        esc_bytes(p.push(b)) == esc_bytes(p) + esc_byte(b),
    decreases p.len(),
{
    if p.len() == 0 {
        assert(p.push(b)[0] == b);
        assert(p.push(b).skip(1) =~= Seq::<u8>::empty());
        assert(esc_bytes(p.push(b)) == esc_byte(b) + esc_bytes(p.push(b).skip(1)));
        assert(esc_bytes(Seq::<u8>::empty()) =~= Seq::<u8>::empty());
        assert(esc_bytes(p.push(b)) =~= esc_bytes(p) + esc_byte(b));
    } else {
        lemma_esc_snoc(p.skip(1), b);
        assert(p.push(b).skip(1) =~= p.skip(1).push(b));
        assert(p.push(b)[0] == p[0]);
        assert(esc_bytes(p.push(b)) == esc_byte(p[0]) + esc_bytes(p.skip(1).push(b)));
        assert(esc_bytes(p) == esc_byte(p[0]) + esc_bytes(p.skip(1)));
        assert(esc_bytes(p.push(b)) =~= esc_bytes(p) + esc_byte(b));
    }
}

/// Appends the escaped form of `path` to `out`.
pub fn push_escaped(out: &mut Vec<u8>, path: &Vec<u8>)
    ensures
        final(out)@ == old(out)@ + esc_bytes(path@),
{
    let mut i: usize = 0;
    while i < path.len()
        invariant
            0 <= i <= path@.len(),
            out@ == old(out)@ + esc_bytes(path@.take(i as int)),
        decreases path@.len() - i,
    {
        let b = path[i];
        if b == 34 {
            out.push(92);
            out.push(34);
        } else if b == 92 {
            out.push(92);
            out.push(92);
        } else if b < 32 {
            out.push(92);
            out.push(117);
            out.push(48);
            out.push(48);
            let hi_nibble = b / 16;
            let lo_nibble = b % 16;
            out.push(if hi_nibble < 10 { 48 + hi_nibble } else { 87 + hi_nibble });
            out.push(if lo_nibble < 10 { 48 + lo_nibble } else { 87 + lo_nibble });
        } else {
            out.push(b);
        }
        proof {
            lemma_esc_snoc(path@.take(i as int), path@[i as int]);
            assert(path@.take(i as int).push(path@[i as int]) =~= path@.take(i + 1));
            assert(out@ =~= old(out)@ + esc_bytes(path@.take(i + 1)));
        }
        i = i + 1;
    }
    proof {
        assert(path@.take(path@.len() as int) =~= path@);
    }
}

/// The hex value of one character, if it is a lower-case hex digit.
fn unhex(c: u8) -> (r: Option<u8>)
    ensures
        match r {
            Some(v) => v < 16 && c == hex_digit(v as nat),
            None => forall|x: nat| x < 16 ==> c != hex_digit(x),
        },
{
    if 48 <= c && c <= 57 {
        Some(c - 48)
    } else if 97 <= c && c <= 102 {
        Some(c - 87)
    } else {
        None
    }
}

/// Parses an escaped string from `lo` up to its closing quote: returns the
/// decoded bytes and the quote position. `Ok((p, end))` holds exactly when
/// `buf[lo..hi]` begins with `esc_bytes(p)` followed by a quote at `end`, and
/// that decomposition is unique.
#[verifier::rlimit(60)]
pub fn parse_escaped(buf: &[u8], lo: usize, hi: usize) -> (r: Result<
    (Vec<u8>, usize),
    TorrentError,
>)
    requires
        lo <= hi <= buf@.len(),
    ensures
        match r {
            Ok((p, end)) => {
                &&& lo <= end < hi
                &&& buf@[end as int] == 34
                &&& buf@.subrange(lo as int, end as int) == esc_bytes(p@)
                &&& forall|q: Seq<u8>|
                    begins_with(
                        buf@.subrange(lo as int, hi as int),
                        esc_bytes(q) + seq![34u8],
                    ) ==> q == p@
            },
            Err(e) => {
                &&& e == TorrentError::CodecError
                &&& forall|q: Seq<u8>|
                    !begins_with(buf@.subrange(lo as int, hi as int), esc_bytes(q) + seq![34u8])
            },
        },
{
    let mut acc: Vec<u8> = Vec::new();
    let mut i: usize = lo;
    proof {
        assert(buf@.subrange(lo as int, i as int) =~= esc_bytes(acc@));
        assert forall|q: Seq<u8>|
            begins_with(buf@.subrange(lo as int, hi as int), #[trigger] esc_bytes(q)
                + seq![34u8]) implies {
            &&& acc@.len() <= q.len()
            &&& q.take(acc@.len() as int) == acc@
            &&& begins_with(
                buf@.subrange(i as int, hi as int),
                esc_bytes(q.skip(acc@.len() as int)) + seq![34u8],
            )
        } by {
            assert(q.take(0) =~= acc@);
            assert(q.skip(0) =~= q);
        }
    }
    while i < hi
        invariant
            lo <= i <= hi <= buf@.len(),
            buf@.subrange(lo as int, i as int) == esc_bytes(acc@),
            forall|q: Seq<u8>|
                begins_with(buf@.subrange(lo as int, hi as int), #[trigger] esc_bytes(q)
                    + seq![34u8]) ==> {
                    &&& acc@.len() <= q.len()
                    &&& q.take(acc@.len() as int) == acc@
                    &&& begins_with(
                        buf@.subrange(i as int, hi as int),
                        esc_bytes(q.skip(acc@.len() as int)) + seq![34u8],
                    )
                },
        decreases hi - i,
    {
        let ghost s_all = buf@.subrange(lo as int, hi as int);
        let ghost s_rem = buf@.subrange(i as int, hi as int);
        let c = buf[i];
        if c == 34 {
            proof {
                assert forall|q: Seq<u8>|
                    begins_with(s_all, esc_bytes(q) + seq![34u8]) implies q == acc@ by {
                    let q2 = q.skip(acc@.len() as int);
                    if q2.len() > 0 {
                        lemma_esc_head(s_rem, q2);
                        assert(s_rem[0] == buf@[i as int]);
                    } else {
                        assert(q =~= q.take(acc@.len() as int));
                    }
                }
            }
            return Ok((acc, i));
        }
        if c == 92 {
            if hi - i <= 1 {
                proof {
                    assert forall|q: Seq<u8>|
                        !begins_with(s_all, esc_bytes(q) + seq![34u8]) by {
                        if begins_with(s_all, esc_bytes(q) + seq![34u8]) {
                            let q2 = q.skip(acc@.len() as int);
                            lemma_esc_shapes(s_rem, q2, buf@[i as int]);
                        }
                    }
                }
                return Err(TorrentError::CodecError);
            }
            let c2 = buf[i + 1];
            if c2 == 34 || c2 == 92 {
                let ghost acc_old = acc@;
                acc.push(c2);
                proof {
                    assert(buf@.subrange(i as int, i + 2) =~= esc_byte(c2));
                    lemma_esc_step(buf@, lo as int, i as int, hi as int, acc_old, c2);
                }
                i = i + 2;
            } else if c2 == 117 {
                if hi - i <= 5 {
                    proof {
                        assert forall|q: Seq<u8>|
                            !begins_with(s_all, esc_bytes(q) + seq![34u8]) by {
                            if begins_with(s_all, esc_bytes(q) + seq![34u8]) {
                                let q2 = q.skip(acc@.len() as int);
                                lemma_esc_shapes(s_rem, q2, buf@[i as int]);
                            }
                        }
                    }
                    return Err(TorrentError::CodecError);
                }
                let okay = buf[i + 2] == 48 && buf[i + 3] == 48;
                let h1 = if okay {
                    unhex(buf[i + 4])
                } else {
                    None
                };
                let h2 = if okay {
                    unhex(buf[i + 5])
                } else {
                    None
                };
                match (h1, h2) {
                    (Some(x1), Some(x2)) if x1 * 16 + x2 < 32 => {
                        let d = x1 * 16 + x2;
                        let ghost acc_old = acc@;
                        acc.push(d);
                        proof {
                            assert(d / 16 == x1 && d % 16 == x2) by (nonlinear_arith)
                                requires
                                    d == x1 * 16 + x2,
                                    0 <= x2 < 16,
                                    0 <= x1,
                            ;
                            assert(buf@.subrange(i as int, i + 6) =~= esc_byte(d));
                            lemma_esc_step(buf@, lo as int, i as int, hi as int, acc_old, d);
                        }
                        i = i + 6;
                    },
                    _ => {
                        proof {
                            assert forall|q: Seq<u8>|
                                !begins_with(s_all, esc_bytes(q) + seq![34u8]) by {
                                if begins_with(s_all, esc_bytes(q) + seq![34u8]) {
                                    let q2 = q.skip(acc@.len() as int);
                                    lemma_esc_shapes(s_rem, q2, buf@[i as int]);
                                    if q2.len() > 0 && q2[0] < 32 {
                                        assert(hex_digit((q2[0] / 16) as nat) == s_rem[4]);
                                        assert(hex_digit((q2[0] % 16) as nat) == s_rem[5]);
                                        assert(q2[0] / 16 * 16 + q2[0] % 16 < 32);
                                    }
                                }
                            }
                        }
                        return Err(TorrentError::CodecError);
                    },
                }
            } else {
                proof {
                    assert forall|q: Seq<u8>|
                        !begins_with(s_all, esc_bytes(q) + seq![34u8]) by {
                        if begins_with(s_all, esc_bytes(q) + seq![34u8]) {
                            let q2 = q.skip(acc@.len() as int);
                            lemma_esc_shapes(s_rem, q2, buf@[i as int]);
                        }
                    }
                }
                return Err(TorrentError::CodecError);
            }
        } else if c < 32 {
            proof {
                assert forall|q: Seq<u8>| !begins_with(s_all, esc_bytes(q) + seq![34u8]) by {
                    if begins_with(s_all, esc_bytes(q) + seq![34u8]) {
                        let q2 = q.skip(acc@.len() as int);
                        lemma_esc_shapes(s_rem, q2, buf@[i as int]);
                    }
                }
            }
            return Err(TorrentError::CodecError);
        } else {
            let ghost acc_old = acc@;
            acc.push(c);
            proof {
                assert(buf@.subrange(i as int, i + 1) =~= esc_byte(c));
                lemma_esc_step(buf@, lo as int, i as int, hi as int, acc_old, c);
            }
            i = i + 1;
        }
    }
    proof {
        assert forall|q: Seq<u8>|
            !begins_with(buf@.subrange(lo as int, hi as int), esc_bytes(q) + seq![34u8]) by {
            if begins_with(buf@.subrange(lo as int, hi as int), esc_bytes(q) + seq![34u8]) {
                let q2 = q.skip(acc@.len() as int);
                assert((esc_bytes(q2) + seq![34u8]).len() >= 1);
                assert(buf@.subrange(i as int, hi as int).len() == 0);
            }
        }
    }
    Err(TorrentError::CodecError)
}

/// The first byte of a nonempty escape stream is the first byte of the first
/// escape: a backslash, or the plain byte itself (at least 32, not a quote).
proof fn lemma_esc_head(rem: Seq<u8>, q2: Seq<u8>)
    requires
        q2.len() > 0,
        begins_with(rem, esc_bytes(q2) + seq![34u8]),
    ensures
        rem.len() >= esc_byte(q2[0]).len() + 1,
        forall|t: int| 0 <= t < esc_byte(q2[0]).len() ==> rem[t] == esc_byte(q2[0])[t],
        rem[0] == 92 || (rem[0] >= 32 && rem[0] != 34 && rem[0] == q2[0]),
{
    let whole = esc_bytes(q2) + seq![34u8];
    assert(esc_bytes(q2) == esc_byte(q2[0]) + esc_bytes(q2.skip(1)));
    assert forall|t: int| 0 <= t < esc_byte(q2[0]).len() implies rem[t] == esc_byte(q2[0])[t] by {
        assert(rem[t] == rem.take(whole.len() as int)[t]);
        assert(whole[t] == esc_bytes(q2)[t]);
        assert(esc_bytes(q2)[t] == esc_byte(q2[0])[t]);
    }
    assert(rem[0] == esc_byte(q2[0])[0]);
}

/// What each escape shape forces on the bytes that follow a leading
/// backslash or plain byte.
proof fn lemma_esc_shapes(rem: Seq<u8>, q2: Seq<u8>, c: u8)
    requires
        begins_with(rem, esc_bytes(q2) + seq![34u8]),
        rem.len() > 0,
        c == rem[0],
        c != 34,
    ensures
        q2.len() > 0,
        c == 92 || (c >= 32 && c == q2[0] && esc_byte(q2[0]) == seq![c]),
        c == 92 && q2[0] == 34 ==> rem.len() >= 3 && rem[1] == 34,
        c == 92 && q2[0] == 92 ==> rem.len() >= 3 && rem[1] == 92,
        c == 92 && q2[0] < 32 ==> rem.len() >= 7 && rem[1] == 117 && rem[2] == 48 && rem[3] == 48
            && rem[4] == hex_digit((q2[0] / 16) as nat) && rem[5] == hex_digit(
            (q2[0] % 16) as nat,
        ),
        c == 92 ==> (q2[0] == 34 || q2[0] == 92 || q2[0] < 32),
{
    if q2.len() == 0 {
        assert(rem[0] == (esc_bytes(q2) + seq![34u8])[0]);
        assert(esc_bytes(q2).len() == 0);
    } else {
        lemma_esc_head(rem, q2);
        if c == 92 {
            assert(esc_byte(q2[0])[0] == 92);
            if q2[0] != 34 && q2[0] != 92 && q2[0] >= 32 {
                assert(esc_byte(q2[0]) == seq![q2[0]]);
                assert(esc_byte(q2[0])[0] == q2[0]);
            }
        } else {
            assert(esc_byte(q2[0])[0] == c);
            if q2[0] == 34 || q2[0] == 92 || q2[0] < 32 {
                assert(esc_byte(q2[0])[0] == 92);
            }
        }
    }
}

/// One decoding step: consuming the escape of byte `d` extends the decoded
/// prefix and keeps both loop invariants of `parse_escaped`.
proof fn lemma_esc_step(b: Seq<u8>, lo: int, i: int, hi: int, acc_old: Seq<u8>, d: u8)
    requires
        0 <= lo <= i <= hi <= b.len(),
        i + esc_byte(d).len() <= hi,
        b.subrange(lo, i) == esc_bytes(acc_old),
        b.subrange(i, i + esc_byte(d).len() as int) == esc_byte(d),
        forall|q: Seq<u8>|
            begins_with(b.subrange(lo, hi), #[trigger] esc_bytes(q) + seq![34u8]) ==> {
                &&& acc_old.len() <= q.len()
                &&& q.take(acc_old.len() as int) == acc_old
                &&& begins_with(
                    b.subrange(i, hi),
                    esc_bytes(q.skip(acc_old.len() as int)) + seq![34u8],
                )
            },
    ensures
        b.subrange(lo, i + esc_byte(d).len() as int) == esc_bytes(acc_old.push(d)),
        forall|q: Seq<u8>|
            begins_with(b.subrange(lo, hi), #[trigger] esc_bytes(q) + seq![34u8]) ==> {
                &&& acc_old.push(d).len() <= q.len()
                &&& q.take(acc_old.push(d).len() as int) == acc_old.push(d)
                &&& begins_with(
                    b.subrange(i + esc_byte(d).len() as int, hi),
                    esc_bytes(q.skip(acc_old.push(d).len() as int)) + seq![34u8],
                )
            },
{
    let e = esc_byte(d).len() as int;
    lemma_esc_snoc(acc_old, d);
    assert(b.subrange(lo, i + e) =~= esc_bytes(acc_old) + esc_byte(d));
    assert forall|q: Seq<u8>|
        begins_with(b.subrange(lo, hi), #[trigger] esc_bytes(q) + seq![34u8]) implies {
        &&& acc_old.push(d).len() <= q.len()
        &&& q.take(acc_old.push(d).len() as int) == acc_old.push(d)
        &&& begins_with(
            b.subrange(i + e, hi),
            esc_bytes(q.skip(acc_old.push(d).len() as int)) + seq![34u8],
        )
    } by {
        let k = acc_old.len() as int;
        let q2 = q.skip(k);
        let rem = b.subrange(i, hi);
        assert(begins_with(rem, esc_bytes(q2) + seq![34u8]));
        lemma_esc_shapes(rem, q2, rem[0]);
        assert(rem[0] == b[i]);
        assert(b[i] == esc_byte(d)[0]);
        assert(q2.len() > 0);
        assert(q2[0] == d) by {
            if esc_byte(d)[0] == 92 {
                if d == 34 {
                    assert(rem[1] == esc_byte(d)[1]);
                    assert(rem[1] == 34);
                    if q2[0] == 92 {
                        assert(rem[1] == 92);
                    }
                    if q2[0] < 32 {
                        assert(rem[1] == 117);
                    }
                } else if d == 92 {
                    assert(rem[1] == esc_byte(d)[1]);
                    assert(rem[1] == 92);
                    if q2[0] == 34 {
                        assert(rem[1] == 34);
                    }
                    if q2[0] < 32 {
                        assert(rem[1] == 117);
                    }
                } else {
                    assert(d < 32);
                    assert(rem[1] == esc_byte(d)[1]);
                    assert(rem[1] == 117);
                    if q2[0] == 34 {
                        assert(rem[1] == 34);
                    }
                    if q2[0] == 92 {
                        assert(rem[1] == 92);
                    }
                    assert(q2[0] < 32);
                    assert(rem[4] == esc_byte(d)[4] && rem[5] == esc_byte(d)[5]);
                    assert(hex_digit((q2[0] / 16) as nat) == hex_digit((d / 16) as nat));
                    assert(hex_digit((q2[0] % 16) as nat) == hex_digit((d % 16) as nat));
                    assert(q2[0] / 16 == d / 16 && q2[0] % 16 == d % 16);
                    assert(q2[0] == q2[0] / 16 * 16 + q2[0] % 16);
                    assert(d == d / 16 * 16 + d % 16);
                }
            } else {
                assert(esc_byte(d) == seq![d]);
                assert(rem[0] == d);
            }
        }
        assert(q.take(k + 1) =~= q.take(k).push(q[k]));
        assert(q[k] == q2[0]);
        assert(q.take(acc_old.push(d).len() as int) =~= acc_old.push(d));
        assert(esc_bytes(q2) == esc_byte(q2[0]) + esc_bytes(q2.skip(1)));
        assert(q2.skip(1) =~= q.skip(k + 1));
        let whole2 = esc_bytes(q.skip(k + 1)) + seq![34u8];
        let rem2 = b.subrange(i + e, hi);
        assert(begins_with(rem2, whole2)) by {
            let whole = esc_bytes(q2) + seq![34u8];
            assert(whole =~= esc_byte(d) + whole2);
            assert(rem2.len() >= whole2.len());
            assert forall|t: int| 0 <= t < whole2.len() implies rem2.take(whole2.len() as int)[t]
                == whole2[t] by {
                assert(rem2[t] == rem[t + e]);
                assert(rem.take(whole.len() as int)[t + e] == whole[t + e]);
                assert(whole[t + e] == whole2[t]);
            }
            assert(rem2.take(whole2.len() as int) =~= whole2);
        }
    }
}


/// Appends one character per availability bit to `out`.
pub fn push_bits(out: &mut Vec<u8>, bv: &bit_vec::BitVec)
    ensures
        final(out)@ == old(out)@ + enc_bits(bits_of(*bv)),
{
    let n = bv_len(bv);
    let mut i: usize = 0;
    while i < n
        invariant
            n == bits_of(*bv).len(),
            0 <= i <= n,
            out@ == old(out)@ + enc_bits(bits_of(*bv).take(i as int)),
        decreases n - i,
    {
        let bit = match bv_get(bv, i) {
            Some(b) => b,
            None => false,
        };
        if bit {
            out.push(49);
        } else {
            out.push(48);
        }
        proof {
            assert(out@ =~= old(out)@ + enc_bits(bits_of(*bv).take(i + 1)));
        }
        i = i + 1;
    }
    proof {
        assert(bits_of(*bv).take(n as int) =~= bits_of(*bv));
    }
}

/// What a progress file holds: the store's metadata and its availability
/// bitmap. The content bytes themselves stay in the content file.
#[derive(Debug)]
pub struct ProgressRecord {
    pub path: Vec<u8>,
    pub torrent_size: usize,
    pub packet_size: usize,
    pub packet_count: usize,
    pub availability: bit_vec::BitVec,
}

/// The serialized form of a progress record: one object with the keys
/// `path`, `torrent_size`, `packet_size`, `packet_count` and
/// `packet_availability`, in that order.
pub open spec fn enc_progress(rec: ProgressRecord) -> Seq<u8> {
    tok_prog_open() + esc_bytes(rec.path@) + tok_prog_size() + dec_digits(rec.torrent_size as nat)
        + tok_prog_packet_size() + dec_digits(rec.packet_size as nat) + tok_prog_packet_count()
        + dec_digits(rec.packet_count as nat) + tok_prog_availability() + dec_digits(
        bits_of(rec.availability).len(),
    ) + tok_comma_quote() + enc_bits(bits_of(rec.availability)) + tok_quote_bracket_close()
}

/// Encodes a progress record.
pub fn encode_progress_record(rec: &ProgressRecord) -> (r: Vec<u8>)
    ensures
        r@ == enc_progress(*rec),
{
    let mut out = tok_prog_open_vec();
    push_escaped(&mut out, &rec.path);
    let t1 = tok_prog_size_vec();
    push_bytes(&mut out, &t1);
    push_usize(&mut out, rec.torrent_size);
    let t2 = tok_prog_packet_size_vec();
    push_bytes(&mut out, &t2);
    push_usize(&mut out, rec.packet_size);
    let t3 = tok_prog_packet_count_vec();
    push_bytes(&mut out, &t3);
    push_usize(&mut out, rec.packet_count);
    let t4 = tok_prog_availability_vec();
    push_bytes(&mut out, &t4);
    let nbits = bv_len(&rec.availability);
    push_usize(&mut out, nbits);
    let t5 = tok_comma_quote_vec();
    push_bytes(&mut out, &t5);
    push_bits(&mut out, &rec.availability);
    let t6 = tok_quote_bracket_close_vec();
    push_bytes(&mut out, &t6);
    proof {
        assert(out@ =~= enc_progress(*rec));
    }
    out
}

/// Splits an encoded progress record into its parts: where each key, each
/// number and the bitmap sit, that no comma occurs inside a number, and that
/// the path region is the unique escaped prefix.
#[verifier::rlimit(100)]
proof fn lemma_progress_parts(b: Seq<u8>, rec: ProgressRecord)
    requires
        b == enc_progress(rec),
    ensures
        ({
            let ee = esc_bytes(rec.path@).len() as int;
            let l1 = dec_digits(rec.torrent_size as nat).len() as int;
            let l2 = dec_digits(rec.packet_size as nat).len() as int;
            let l3 = dec_digits(rec.packet_count as nat).len() as int;
            let l4 = dec_digits(bits_of(rec.availability).len()).len() as int;
            let nb = bits_of(rec.availability).len() as int;
            let p1 = 9 + ee;
            let c1 = p1 + 17 + l1;
            let c2 = c1 + 15 + l2;
            let c3 = c2 + 16 + l3;
            let c4 = c3 + 24 + l4;
            &&& b.len() == c4 + 2 + nb + 3
            &&& b.subrange(0, 9) == tok_prog_open()
            &&& begins_with(b.subrange(9, b.len() as int), esc_bytes(rec.path@) + seq![34u8])
            &&& b.subrange(9, p1) == esc_bytes(rec.path@)
            &&& b.subrange(p1, p1 + 17) == tok_prog_size()
            &&& b.subrange(p1 + 17, c1) == dec_digits(rec.torrent_size as nat)
            &&& forall|t: int| p1 + 17 <= t < c1 ==> b[t] != 44
            &&& b[c1] == 44
            &&& b.subrange(c1, c1 + 15) == tok_prog_packet_size()
            &&& b.subrange(c1 + 15, c2) == dec_digits(rec.packet_size as nat)
            &&& forall|t: int| c1 + 15 <= t < c2 ==> b[t] != 44
            &&& b[c2] == 44
            &&& b.subrange(c2, c2 + 16) == tok_prog_packet_count()
            &&& b.subrange(c2 + 16, c3) == dec_digits(rec.packet_count as nat)
            &&& forall|t: int| c2 + 16 <= t < c3 ==> b[t] != 44
            &&& b[c3] == 44
            &&& b.subrange(c3, c3 + 24) == tok_prog_availability()
            &&& b.subrange(c3 + 24, c4) == dec_digits(bits_of(rec.availability).len())
            &&& forall|t: int| c3 + 24 <= t < c4 ==> b[t] != 44
            &&& b[c4] == 44
            &&& b[c4 + 1] == 34
            &&& b.subrange(c4 + 2, b.len() - 3) == enc_bits(bits_of(rec.availability))
            &&& forall|t: int| c4 + 2 <= t < b.len() - 3 ==> b[t] != 44
            &&& b.subrange(b.len() - 3, b.len() as int) == tok_quote_bracket_close()
        }),
{
    let ee = esc_bytes(rec.path@).len() as int;
    let l1 = dec_digits(rec.torrent_size as nat).len() as int;
    let l2 = dec_digits(rec.packet_size as nat).len() as int;
    let l3 = dec_digits(rec.packet_count as nat).len() as int;
    let l4 = dec_digits(bits_of(rec.availability).len()).len() as int;
    let nb = bits_of(rec.availability).len() as int;
    let p1 = 9 + ee;
    let c1 = p1 + 17 + l1;
    let c2 = c1 + 15 + l2;
    let c3 = c2 + 16 + l3;
    let c4 = c3 + 24 + l4;
    lemma_dec_digits_shape(rec.torrent_size as nat);
    lemma_dec_digits_shape(rec.packet_size as nat);
    lemma_dec_digits_shape(rec.packet_count as nat);
    lemma_dec_digits_shape(bits_of(rec.availability).len());
    assert(b.subrange(0, 9) =~= tok_prog_open());
    assert(b.subrange(9, p1) =~= esc_bytes(rec.path@));
    assert(b.subrange(p1, p1 + 17) =~= tok_prog_size());
    assert(b.subrange(p1 + 17, c1) =~= dec_digits(rec.torrent_size as nat));
    assert(b.subrange(c1, c1 + 15) =~= tok_prog_packet_size());
    assert(b.subrange(c1 + 15, c2) =~= dec_digits(rec.packet_size as nat));
    assert(b.subrange(c2, c2 + 16) =~= tok_prog_packet_count());
    assert(b.subrange(c2 + 16, c3) =~= dec_digits(rec.packet_count as nat));
    assert(b.subrange(c3, c3 + 24) =~= tok_prog_availability());
    assert(b.subrange(c3 + 24, c4) =~= dec_digits(bits_of(rec.availability).len()));
    assert(b.subrange(c4 + 2, b.len() - 3) =~= enc_bits(bits_of(rec.availability)));
    assert(b.subrange(b.len() - 3, b.len() as int) =~= tok_quote_bracket_close());
    assert(b[c4] == 44 && b[c4 + 1] == 34) by {
        assert(b[c4] == b.subrange(c4, c4 + 2)[0]);
        assert(b.subrange(c4, c4 + 2) =~= tok_comma_quote());
        assert(b[c4 + 1] == b.subrange(c4, c4 + 2)[1]);
    }
    assert forall|t: int| p1 + 17 <= t < c1 implies b[t] != 44 by {
        assert(b[t] == b.subrange(p1 + 17, c1)[t - p1 - 17]);
        assert(is_digit(dec_digits(rec.torrent_size as nat)[t - p1 - 17]));
    }
    assert forall|t: int| c1 + 15 <= t < c2 implies b[t] != 44 by {
        assert(b[t] == b.subrange(c1 + 15, c2)[t - c1 - 15]);
        assert(is_digit(dec_digits(rec.packet_size as nat)[t - c1 - 15]));
    }
    assert forall|t: int| c2 + 16 <= t < c3 implies b[t] != 44 by {
        assert(b[t] == b.subrange(c2 + 16, c3)[t - c2 - 16]);
        assert(is_digit(dec_digits(rec.packet_count as nat)[t - c2 - 16]));
    }
    assert forall|t: int| c3 + 24 <= t < c4 implies b[t] != 44 by {
        assert(b[t] == b.subrange(c3 + 24, c4)[t - c3 - 24]);
        assert(is_digit(dec_digits(bits_of(rec.availability).len())[t - c3 - 24]));
    }
    assert forall|t: int| c4 + 2 <= t < b.len() - 3 implies b[t] != 44 by {
        assert(b[t] == b.subrange(c4 + 2, b.len() - 3)[t - c4 - 2]);
        assert(enc_bits(bits_of(rec.availability))[t - c4 - 2] == 48 || enc_bits(
            bits_of(rec.availability),
        )[t - c4 - 2] == 49);
    }
    assert(begins_with(b.subrange(9, b.len() as int), esc_bytes(rec.path@) + seq![34u8])) by {
        let tail = b.subrange(9, b.len() as int);
        let pre = esc_bytes(rec.path@) + seq![34u8];
        assert(b[p1] == b.subrange(p1, p1 + 17)[0]);
        assert(tok_prog_size()[0] == 34);
        assert forall|t: int| 0 <= t < pre.len() implies tail.take(pre.len() as int)[t] == pre[t]
        by {
            assert(tail[t] == b[9 + t]);
            if t < ee {
                assert(b[9 + t] == b.subrange(9, p1)[t]);
            }
        }
        assert(tail.take(pre.len() as int) =~= pre);
    }
}


/// Decodes a progress record: returns `Ok(rec)` if and only if `buf` is
/// exactly `enc_progress(rec)`.
pub fn parse_progress_record(buf: &[u8]) -> (r: Result<ProgressRecord, TorrentError>)
    ensures
        match r {
            Ok(rec) => buf@ == enc_progress(rec),
            Err(e) => {
                &&& e == TorrentError::CodecError
                &&& forall|rec: ProgressRecord| buf@ != enc_progress(rec)
            },
        },
{
    let n = buf.len();
    let open = tok_prog_open_vec();
    if !(n >= 9 && eq_range(buf, 0, 9, &open)) {
        proof {
            assert forall|rec: ProgressRecord| buf@ != enc_progress(rec) by {
                if buf@ == enc_progress(rec) {
                    lemma_progress_parts(buf@, rec);
                }
            }
        }
        return Err(TorrentError::CodecError);
    }
    let (path, e) = match parse_escaped(buf, 9, n) {
        Ok(pe) => pe,
        Err(_) => {
            proof {
                assert forall|rec: ProgressRecord| buf@ != enc_progress(rec) by {
                    if buf@ == enc_progress(rec) {
                        lemma_progress_parts(buf@, rec);
                    }
                }
            }
            return Err(TorrentError::CodecError);
        },
    };
    let t1 = tok_prog_size_vec();
    if !(n - e >= 17 && eq_range(buf, e, e + 17, &t1)) {
        proof {
            assert forall|rec: ProgressRecord| buf@ != enc_progress(rec) by {
                if buf@ == enc_progress(rec) {
                    lemma_progress_parts(buf@, rec);
                    assert(rec.path@ == path@);
                }
            }
        }
        return Err(TorrentError::CodecError);
    }
    let c1 = match find_byte(buf, e + 17, n, 44) {
        Some(j) => j,
        None => {
            proof {
                assert forall|rec: ProgressRecord| buf@ != enc_progress(rec) by {
                    if buf@ == enc_progress(rec) {
                        lemma_progress_parts(buf@, rec);
                        assert(rec.path@ == path@);
                    }
                }
            }
            return Err(TorrentError::CodecError);
        },
    };
    let ts = match parse_usize_range(buf, e + 17, c1) {
        Ok(v) => v,
        Err(_) => {
            proof {
                assert forall|rec: ProgressRecord| buf@ != enc_progress(rec) by {
                    if buf@ == enc_progress(rec) {
                        lemma_progress_parts(buf@, rec);
                        assert(rec.path@ == path@);
                        assert(c1 == 9 + esc_bytes(rec.path@).len() + 17 + dec_digits(
                            rec.torrent_size as nat,
                        ).len());
                    }
                }
            }
            return Err(TorrentError::CodecError);
        },
    };
    parse_progress_tail(buf, path, e, c1, ts)
}

/// When a progress record fills `b` and its first fields sit as given, the
/// later keys, numbers and the bitmap sit at the positions the record's own
/// field widths dictate.
#[verifier::rlimit(100)]
proof fn lemma_progress_positions(b: Seq<u8>, path: Seq<u8>, e: int, c1: int, ts: usize)
    requires
        9 <= e < b.len(),
        e + 17 <= c1 < b.len(),
        b.subrange(9, e) == esc_bytes(path),
        forall|q: Seq<u8>|
            begins_with(b.subrange(9, b.len() as int), #[trigger] esc_bytes(q) + seq![34u8])
                ==> q == path,
        b[c1] == 44,
        forall|t: int| e + 17 <= t < c1 ==> b[t] != 44,
        b.subrange(e + 17, c1) == dec_digits(ts as nat),
    ensures
        forall|rec: ProgressRecord| #[trigger] enc_progress(rec) == b ==> progress_positions_ok(
            b,
            path,
            e,
            c1,
            ts,
            rec,
        ),
{
    assert forall|rec: ProgressRecord| #[trigger] enc_progress(rec) == b implies
        progress_positions_ok(b, path, e, c1, ts, rec) by {
        lemma_progress_parts(b, rec);
        assert(rec.path@ == path);
        let ee = esc_bytes(rec.path@).len() as int;
        assert(e == 9 + ee);
        let l1 = dec_digits(rec.torrent_size as nat).len() as int;
        assert(b[e + 17 + l1] == 44);
        assert(c1 == e + 17 + l1);
        assert(b.subrange(e + 17, c1) == dec_digits(rec.torrent_size as nat));
        lemma_dec_value_of_digits(ts as nat);
        lemma_dec_value_of_digits(rec.torrent_size as nat);
        assert(rec.torrent_size == ts);
    }
}

/// Where the later fields of a progress record sit, measured from the first
/// comma `c1`: each key, each number, the bitmap and the closing bytes.
pub open spec fn progress_positions_ok(
    b: Seq<u8>,
    path: Seq<u8>,
    e: int,
    c1: int,
    ts: usize,
    rec: ProgressRecord,
) -> bool {
    let l2 = dec_digits(rec.packet_size as nat).len() as int;
    let l3 = dec_digits(rec.packet_count as nat).len() as int;
    let l4 = dec_digits(bits_of(rec.availability).len()).len() as int;
    let nb = bits_of(rec.availability).len() as int;
    let p2 = c1 + 15 + l2;
    let p3 = p2 + 16 + l3;
    let p4 = p3 + 24 + l4;
    &&& rec.path@ == path
    &&& rec.torrent_size == ts
    &&& b.len() == p4 + 2 + nb + 3
    &&& b.subrange(c1, c1 + 15) == tok_prog_packet_size()
    &&& b.subrange(c1 + 15, p2) == dec_digits(rec.packet_size as nat)
    &&& (forall|t: int| c1 + 15 <= t < p2 ==> b[t] != 44)
    &&& b[p2] == 44
    &&& b.subrange(p2, p2 + 16) == tok_prog_packet_count()
    &&& b.subrange(p2 + 16, p3) == dec_digits(rec.packet_count as nat)
    &&& (forall|t: int| p2 + 16 <= t < p3 ==> b[t] != 44)
    &&& b[p3] == 44
    &&& b.subrange(p3, p3 + 24) == tok_prog_availability()
    &&& b.subrange(p3 + 24, p4) == dec_digits(bits_of(rec.availability).len())
    &&& (forall|t: int| p3 + 24 <= t < p4 ==> b[t] != 44)
    &&& b[p4] == 44
    &&& b[p4 + 1] == 34
    &&& b.subrange(p4 + 2, b.len() - 3) == enc_bits(bits_of(rec.availability))
    &&& (forall|t: int| p4 + 2 <= t < b.len() - 3 ==> b[t] != 44)
    &&& b.subrange(b.len() - 3, b.len() as int) == tok_quote_bracket_close()
}

/// Recomposes a progress record from its parsed pieces.
#[verifier::rlimit(100)]
proof fn lemma_progress_stitch(
    b: Seq<u8>,
    rec: ProgressRecord,
    e: int,
    c1: int,
    c2: int,
    c3: int,
    c4: int,
)
    requires
        9 <= e,
        e + 17 <= c1,
        c1 + 15 <= c2,
        c2 + 16 <= c3,
        c3 + 24 <= c4,
        c4 + 2 <= b.len() - 3,
        b.subrange(0, 9) == tok_prog_open(),
        b.subrange(9, e) == esc_bytes(rec.path@),
        b.subrange(e, e + 17) == tok_prog_size(),
        b.subrange(e + 17, c1) == dec_digits(rec.torrent_size as nat),
        b.subrange(c1, c1 + 15) == tok_prog_packet_size(),
        b.subrange(c1 + 15, c2) == dec_digits(rec.packet_size as nat),
        b.subrange(c2, c2 + 16) == tok_prog_packet_count(),
        b.subrange(c2 + 16, c3) == dec_digits(rec.packet_count as nat),
        b.subrange(c3, c3 + 24) == tok_prog_availability(),
        b.subrange(c3 + 24, c4) == dec_digits(bits_of(rec.availability).len()),
        b.subrange(c4, c4 + 2) == tok_comma_quote(),
        b.subrange(c4 + 2, b.len() - 3) == enc_bits(bits_of(rec.availability)),
        b.subrange(b.len() - 3, b.len() as int) == tok_quote_bracket_close(),
    ensures
        b == enc_progress(rec),
{
    let target = enc_progress(rec);
    let nb = bits_of(rec.availability).len() as int;
    assert(b.len() == target.len());
    assert forall|i: int| 0 <= i < b.len() implies b[i] == target[i] by {
        if i < 9 {
            assert(b[i] == b.subrange(0, 9)[i]);
        } else if i < e {
            assert(b[i] == b.subrange(9, e)[i - 9]);
        } else if i < e + 17 {
            assert(b[i] == b.subrange(e, e + 17)[i - e]);
        } else if i < c1 {
            assert(b[i] == b.subrange(e + 17, c1)[i - e - 17]);
        } else if i < c1 + 15 {
            assert(b[i] == b.subrange(c1, c1 + 15)[i - c1]);
        } else if i < c2 {
            assert(b[i] == b.subrange(c1 + 15, c2)[i - c1 - 15]);
        } else if i < c2 + 16 {
            assert(b[i] == b.subrange(c2, c2 + 16)[i - c2]);
        } else if i < c3 {
            assert(b[i] == b.subrange(c2 + 16, c3)[i - c2 - 16]);
        } else if i < c3 + 24 {
            assert(b[i] == b.subrange(c3, c3 + 24)[i - c3]);
        } else if i < c4 {
            assert(b[i] == b.subrange(c3 + 24, c4)[i - c3 - 24]);
        } else if i < c4 + 2 {
            assert(b[i] == b.subrange(c4, c4 + 2)[i - c4]);
        } else if i < b.len() - 3 {
            assert(b[i] == b.subrange(c4 + 2, b.len() - 3)[i - c4 - 2]);
        } else {
            assert(b[i] == b.subrange(b.len() - 3, b.len() as int)[i - (b.len() - 3)]);
        }
    }
    assert(b =~= target);
}

/// Decodes the fields after `torrent_size` and assembles the record. The
/// preconditions carry what the first fields fixed: the path region, its
/// unique decoding, and the first number.
#[verifier::rlimit(60)]
fn parse_progress_tail(buf: &[u8], path: Vec<u8>, e: usize, c1: usize, ts: usize) -> (r: Result<
    ProgressRecord,
    TorrentError,
>)
    requires
        9 <= e < buf@.len(),
        e + 17 <= c1 < buf@.len(),
        buf@.subrange(0, 9) == tok_prog_open(),
        buf@.subrange(9, e as int) == esc_bytes(path@),
        forall|q: Seq<u8>|
            begins_with(buf@.subrange(9, buf@.len() as int), #[trigger] esc_bytes(q)
                + seq![34u8]) ==> q == path@,
        buf@.subrange(e as int, e + 17) == tok_prog_size(),
        buf@[c1 as int] == 44,
        forall|t: int| e + 17 <= t < c1 ==> buf@[t] != 44,
        buf@.subrange(e + 17, c1 as int) == dec_digits(ts as nat),
    ensures
        match r {
            Ok(rec) => buf@ == enc_progress(rec),
            Err(err) => {
                &&& err == TorrentError::CodecError
                &&& forall|rec: ProgressRecord| buf@ != enc_progress(rec)
            },
        },
{
    let n = buf.len();
    proof {
        lemma_progress_positions(buf@, path@, e as int, c1 as int, ts);
    }
    let t2 = tok_prog_packet_size_vec();
    if !(n - c1 >= 15 && eq_range(buf, c1, c1 + 15, &t2)) {
        proof {
            assert forall|rec: ProgressRecord| buf@ != enc_progress(rec) by {
                if buf@ == enc_progress(rec) {
                    assert(progress_positions_ok(buf@, path@, e as int, c1 as int, ts, rec));
                }
            }
        }
        return Err(TorrentError::CodecError);
    }
    let c2 = match find_byte(buf, c1 + 15, n, 44) {
        Some(j) => j,
        None => {
            proof {
                assert forall|rec: ProgressRecord| buf@ != enc_progress(rec) by {
                    if buf@ == enc_progress(rec) {
                        assert(progress_positions_ok(buf@, path@, e as int, c1 as int, ts, rec));
                    }
                }
            }
            return Err(TorrentError::CodecError);
        },
    };
    let ps = match parse_usize_range(buf, c1 + 15, c2) {
        Ok(v) => v,
        Err(_) => {
            proof {
                assert forall|rec: ProgressRecord| buf@ != enc_progress(rec) by {
                    if buf@ == enc_progress(rec) {
                        assert(progress_positions_ok(buf@, path@, e as int, c1 as int, ts, rec));
                        assert(c2 == c1 + 15 + dec_digits(rec.packet_size as nat).len());
                    }
                }
            }
            return Err(TorrentError::CodecError);
        },
    };
    let t3 = tok_prog_packet_count_vec();
    if !(n - c2 >= 16 && eq_range(buf, c2, c2 + 16, &t3)) {
        proof {
            assert forall|rec: ProgressRecord| buf@ != enc_progress(rec) by {
                if buf@ == enc_progress(rec) {
                    assert(progress_positions_ok(buf@, path@, e as int, c1 as int, ts, rec));
                    assert(c2 == c1 + 15 + dec_digits(rec.packet_size as nat).len());
                }
            }
        }
        return Err(TorrentError::CodecError);
    }
    let c3 = match find_byte(buf, c2 + 16, n, 44) {
        Some(j) => j,
        None => {
            proof {
                assert forall|rec: ProgressRecord| buf@ != enc_progress(rec) by {
                    if buf@ == enc_progress(rec) {
                        assert(progress_positions_ok(buf@, path@, e as int, c1 as int, ts, rec));
                        assert(c2 == c1 + 15 + dec_digits(rec.packet_size as nat).len());
                    }
                }
            }
            return Err(TorrentError::CodecError);
        },
    };
    let pc = match parse_usize_range(buf, c2 + 16, c3) {
        Ok(v) => v,
        Err(_) => {
            proof {
                assert forall|rec: ProgressRecord| buf@ != enc_progress(rec) by {
                    if buf@ == enc_progress(rec) {
                        assert(progress_positions_ok(buf@, path@, e as int, c1 as int, ts, rec));
                        assert(c2 == c1 + 15 + dec_digits(rec.packet_size as nat).len());
                        assert(c3 == c2 + 16 + dec_digits(rec.packet_count as nat).len());
                    }
                }
            }
            return Err(TorrentError::CodecError);
        },
    };
    parse_progress_avail(buf, path, e, c1, ts, c2, ps, c3, pc)
}

/// Decodes the availability field and assembles the record. The
/// preconditions carry what the earlier fields fixed.
#[verifier::rlimit(80)]
fn parse_progress_avail(
    buf: &[u8],
    path: Vec<u8>,
    e: usize,
    c1: usize,
    ts: usize,
    c2: usize,
    ps: usize,
    c3: usize,
    pc: usize,
) -> (r: Result<ProgressRecord, TorrentError>)
    requires
        9 <= e < buf@.len(),
        e + 17 <= c1 < buf@.len(),
        buf@.subrange(0, 9) == tok_prog_open(),
        buf@.subrange(9, e as int) == esc_bytes(path@),
        forall|q: Seq<u8>|
            begins_with(buf@.subrange(9, buf@.len() as int), #[trigger] esc_bytes(q)
                + seq![34u8]) ==> q == path@,
        buf@.subrange(e as int, e + 17) == tok_prog_size(),
        buf@[c1 as int] == 44,
        forall|t: int| e + 17 <= t < c1 ==> buf@[t] != 44,
        buf@.subrange(e + 17, c1 as int) == dec_digits(ts as nat),
        c1 + 15 <= c2 < buf@.len(),
        buf@.subrange(c1 as int, c1 + 15) == tok_prog_packet_size(),
        buf@[c2 as int] == 44,
        forall|t: int| c1 + 15 <= t < c2 ==> buf@[t] != 44,
        buf@.subrange(c1 + 15, c2 as int) == dec_digits(ps as nat),
        c2 + 16 <= c3 < buf@.len(),
        buf@.subrange(c2 as int, c2 + 16) == tok_prog_packet_count(),
        buf@[c3 as int] == 44,
        forall|t: int| c2 + 16 <= t < c3 ==> buf@[t] != 44,
        buf@.subrange(c2 + 16, c3 as int) == dec_digits(pc as nat),
    ensures
        match r {
            Ok(rec) => buf@ == enc_progress(rec),
            Err(err) => {
                &&& err == TorrentError::CodecError
                &&& forall|rec: ProgressRecord| buf@ != enc_progress(rec)
            },
        },
{
    let n = buf.len();
    proof {
        lemma_progress_positions(buf@, path@, e as int, c1 as int, ts);
    }
    let t4 = tok_prog_availability_vec();
    if !(n - c3 >= 24 && eq_range(buf, c3, c3 + 24, &t4)) {
        proof {
            assert forall|rec: ProgressRecord| buf@ != enc_progress(rec) by {
                if buf@ == enc_progress(rec) {
                    assert(progress_positions_ok(buf@, path@, e as int, c1 as int, ts, rec));
                    assert(c2 == c1 + 15 + dec_digits(rec.packet_size as nat).len());
                    assert(c3 == c2 + 16 + dec_digits(rec.packet_count as nat).len());
                }
            }
        }
        return Err(TorrentError::CodecError);
    }
    let av = c3 + 24;
    let close = tok_quote_bracket_close_vec();
    if !(n - av >= 3 && eq_range(buf, n - 3, n, &close)) {
        proof {
            assert forall|rec: ProgressRecord| buf@ != enc_progress(rec) by {
                if buf@ == enc_progress(rec) {
                    assert(progress_positions_ok(buf@, path@, e as int, c1 as int, ts, rec));
                    assert(c2 == c1 + 15 + dec_digits(rec.packet_size as nat).len());
                    assert(c3 == c2 + 16 + dec_digits(rec.packet_count as nat).len());
                    lemma_dec_digits_shape(bits_of(rec.availability).len());
                }
            }
        }
        return Err(TorrentError::CodecError);
    }
    let c4 = match find_byte(buf, av, n - 3, 44) {
        Some(j) => j,
        None => {
            proof {
                assert forall|rec: ProgressRecord| buf@ != enc_progress(rec) by {
                    if buf@ == enc_progress(rec) {
                        assert(progress_positions_ok(buf@, path@, e as int, c1 as int, ts, rec));
                        assert(c2 == c1 + 15 + dec_digits(rec.packet_size as nat).len());
                        assert(c3 == c2 + 16 + dec_digits(rec.packet_count as nat).len());
                    }
                }
            }
            return Err(TorrentError::CodecError);
        },
    };
    let nbits = match parse_usize_range(buf, av, c4) {
        Ok(v) => v,
        Err(_) => {
            proof {
                assert forall|rec: ProgressRecord| buf@ != enc_progress(rec) by {
                    if buf@ == enc_progress(rec) {
                        assert(progress_positions_ok(buf@, path@, e as int, c1 as int, ts, rec));
                        assert(c2 == c1 + 15 + dec_digits(rec.packet_size as nat).len());
                        assert(c3 == c2 + 16 + dec_digits(rec.packet_count as nat).len());
                        let bits = bits_of(rec.availability);
                        assert(c4 == av + dec_digits(bits.len()).len());
                        if bits.len() <= usize::MAX {
                            let w = bits.len() as usize;
                            assert(dec_digits(w as nat) == dec_digits(bits.len()));
                            assert(buf@.subrange(av as int, c4 as int) == dec_digits(w as nat));
                        } else {
                            assert(buf@.len() > usize::MAX);
                        }
                    }
                }
            }
            return Err(TorrentError::CodecError);
        },
    };
    if !(c4 + 1 < n - 3 && buf[c4 + 1] == 34 && n - 3 - (c4 + 2) == nbits) {
        proof {
            assert forall|rec: ProgressRecord| buf@ != enc_progress(rec) by {
                if buf@ == enc_progress(rec) {
                    assert(progress_positions_ok(buf@, path@, e as int, c1 as int, ts, rec));
                    assert(c2 == c1 + 15 + dec_digits(rec.packet_size as nat).len());
                    assert(c3 == c2 + 16 + dec_digits(rec.packet_count as nat).len());
                    assert(c4 == av + dec_digits(bits_of(rec.availability).len()).len());
                    lemma_dec_value_of_digits(nbits as nat);
                    lemma_dec_value_of_digits(bits_of(rec.availability).len());
                }
            }
        }
        return Err(TorrentError::CodecError);
    }
    let mut bm = bv_from_elem(nbits, false);
    let mut i: usize = 0;
    while i < nbits
        invariant
            c4 + 2 + nbits == n - 3 <= buf@.len(),
            n == buf@.len(),
            e < buf@.len() && c1 < buf@.len(),
            9 <= e,
            e + 17 <= c1,
            c1 + 15 <= c2,
            c2 + 16 <= c3,
            c3 + 24 <= c4,
            forall|rec: ProgressRecord| #[trigger] enc_progress(rec) == buf@
                ==> progress_positions_ok(buf@, path@, e as int, c1 as int, ts, rec),
            buf@[c2 as int] == 44,
            forall|t: int| c1 + 15 <= t < c2 ==> buf@[t] != 44,
            buf@[c3 as int] == 44,
            forall|t: int| c2 + 16 <= t < c3 ==> buf@[t] != 44,
            buf@[c4 as int] == 44,
            forall|t: int| c3 + 24 <= t < c4 ==> buf@[t] != 44,
            0 <= i <= nbits,
            bits_of(bm).len() == nbits,
            forall|t: int|
                0 <= t < nbits ==> #[trigger] bits_of(bm)[t] == (t < i && buf@[c4 + 2 + t] == 49),
            forall|t: int|
                0 <= t < i ==> #[trigger] buf@[c4 + 2 + t] == 48 || buf@[c4 + 2 + t] == 49,
        decreases nbits - i,
    {
        let c = buf[c4 + 2 + i];
        if c == 49 {
            bv_set(&mut bm, i, true);
        } else if c != 48 {
            proof {
                assert forall|rec: ProgressRecord| buf@ != enc_progress(rec) by {
                    if buf@ == enc_progress(rec) {
                        assert(progress_positions_ok(buf@, path@, e as int, c1 as int, ts, rec));
                        assert(c2 == c1 + 15 + dec_digits(rec.packet_size as nat).len());
                        assert(c3 == c2 + 16 + dec_digits(rec.packet_count as nat).len());
                        assert(c4 == c3 + 24 + dec_digits(bits_of(rec.availability).len()).len());
                        let bits = bits_of(rec.availability);
                        assert(buf@[c4 + 2 + i] == buf@.subrange(c4 + 2, buf@.len() - 3)[i as int]);
                        assert(enc_bits(bits)[i as int] == 48 || enc_bits(bits)[i as int] == 49);
                    }
                }
            }
            return Err(TorrentError::CodecError);
        }
        i = i + 1;
    }
    let rec = ProgressRecord {
        path,
        torrent_size: ts,
        packet_size: ps,
        packet_count: pc,
        availability: bm,
    };
    proof {
        assert(enc_bits(bits_of(bm)) =~= buf@.subrange(c4 + 2, n - 3));
        assert(dec_digits(bits_of(bm).len()) == dec_digits(nbits as nat));
        assert(buf@.subrange(c4 as int, c4 + 2) =~= tok_comma_quote());
        lemma_progress_stitch(
            buf@,
            rec,
            e as int,
            c1 as int,
            c2 as int,
            c3 as int,
            c4 as int,
        );
    }
    Ok(rec)
}


/// Consuming the first escape of a nonempty path advances the stream.
proof fn lemma_esc_pop(s: Seq<u8>, p: Seq<u8>)
    requires
        p.len() > 0,
        begins_with(s, esc_bytes(p) + seq![34u8]),
    ensures
        begins_with(s.skip(esc_byte(p[0]).len() as int), esc_bytes(p.skip(1)) + seq![34u8]),
{
    let e = esc_byte(p[0]).len() as int;
    let whole = esc_bytes(p) + seq![34u8];
    let whole2 = esc_bytes(p.skip(1)) + seq![34u8];
    assert(esc_bytes(p) == esc_byte(p[0]) + esc_bytes(p.skip(1)));
    assert(whole =~= esc_byte(p[0]) + whole2);
    let rem2 = s.skip(e);
    assert(rem2.len() >= whole2.len());
    assert forall|t: int| 0 <= t < whole2.len() implies rem2.take(whole2.len() as int)[t]
        == whole2[t] by {
        assert(rem2[t] == s[t + e]);
        assert(s.take(whole.len() as int)[t + e] == whole[t + e]);
        assert(whole[t + e] == whole2[t]);
    }
    assert(rem2.take(whole2.len() as int) =~= whole2);
}

/// Escaped strings form a prefix code: a stream that begins with
/// `esc_bytes(p) + '"'` does so for exactly one `p`.
proof fn lemma_esc_prefix_unique(s: Seq<u8>, p1: Seq<u8>, p2: Seq<u8>)
    requires
        begins_with(s, esc_bytes(p1) + seq![34u8]),
        begins_with(s, esc_bytes(p2) + seq![34u8]),
    ensures
        p1 == p2,
    decreases p1.len(),
{
    if p1.len() == 0 {
        assert(s[0] == (esc_bytes(p1) + seq![34u8])[0]) by {
            assert(s.take((esc_bytes(p1) + seq![34u8]).len() as int)[0] == (esc_bytes(p1)
                + seq![34u8])[0]);
        }
        assert(esc_bytes(p1).len() == 0);
        assert(s[0] == 34);
        if p2.len() > 0 {
            lemma_esc_shapes(s, p2, s[0]);
        }
        assert(p1 =~= p2);
    } else if p2.len() == 0 {
        assert(s[0] == (esc_bytes(p2) + seq![34u8])[0]) by {
            assert(s.take((esc_bytes(p2) + seq![34u8]).len() as int)[0] == (esc_bytes(p2)
                + seq![34u8])[0]);
        }
        assert(esc_bytes(p2).len() == 0);
        assert(s[0] == 34);
        lemma_esc_shapes(s, p1, s[0]);
    } else {
        lemma_esc_head(s, p1);
        assert(s[0] != 34) by {
            if s[0] == 34 {
                lemma_esc_shapes(s, p1, s[0]);
            }
        }
        lemma_esc_shapes(s, p1, s[0]);
        lemma_esc_shapes(s, p2, s[0]);
        assert(p1[0] == p2[0]) by {
            if s[0] == 92 {
                if p1[0] == 34 {
                    assert(s[1] == 34);
                    if p2[0] == 92 {
                        assert(s[1] == 92);
                    }
                    if p2[0] < 32 {
                        assert(s[1] == 117);
                    }
                } else if p1[0] == 92 {
                    assert(s[1] == 92);
                    if p2[0] == 34 {
                        assert(s[1] == 34);
                    }
                    if p2[0] < 32 {
                        assert(s[1] == 117);
                    }
                } else {
                    assert(p1[0] < 32);
                    assert(s[1] == 117);
                    if p2[0] == 34 {
                        assert(s[1] == 34);
                    }
                    if p2[0] == 92 {
                        assert(s[1] == 92);
                    }
                    assert(p2[0] < 32);
                    assert(hex_digit((p1[0] / 16) as nat) == s[4]);
                    assert(hex_digit((p2[0] / 16) as nat) == s[4]);
                    assert(hex_digit((p1[0] % 16) as nat) == s[5]);
                    assert(hex_digit((p2[0] % 16) as nat) == s[5]);
                    assert(p1[0] / 16 == p2[0] / 16 && p1[0] % 16 == p2[0] % 16);
                    assert(p1[0] == p1[0] / 16 * 16 + p1[0] % 16);
                    assert(p2[0] == p2[0] / 16 * 16 + p2[0] % 16);
                }
            }
        }
        lemma_esc_pop(s, p1);
        lemma_esc_pop(s, p2);
        assert(esc_byte(p1[0]) == esc_byte(p2[0]));
        lemma_esc_prefix_unique(
            s.skip(esc_byte(p1[0]).len() as int),
            p1.skip(1),
            p2.skip(1),
        );
        assert(p1 =~= p2) by {
            assert(p1.skip(1) =~= p2.skip(1));
            assert(p1[0] == p2[0]);
            assert(p1.len() == p2.len());
            assert(forall|t: int| 1 <= t < p1.len() ==> p1[t] == p1.skip(1)[t - 1]);
            assert(forall|t: int| 1 <= t < p2.len() ==> p2[t] == p2.skip(1)[t - 1]);
        }
    }
}

/// Law: the progress encoding determines the record. Serializing a store and
/// reading the record back yields the same path, sizes, packet count and
/// availability bits.
#[verifier::rlimit(100)]
pub proof fn lemma_progress_record_injective(r1: ProgressRecord, r2: ProgressRecord)
    requires
        enc_progress(r1) == enc_progress(r2),
    ensures
        r1.path@ == r2.path@,
        r1.torrent_size == r2.torrent_size,
        r1.packet_size == r2.packet_size,
        r1.packet_count == r2.packet_count,
        bits_of(r1.availability) == bits_of(r2.availability),
{
    let b = enc_progress(r1);
    lemma_progress_parts(b, r1);
    lemma_progress_parts(b, r2);
    lemma_esc_prefix_unique(b.subrange(9, b.len() as int), r1.path@, r2.path@);
    let ee = esc_bytes(r1.path@).len() as int;
    let p1 = 9 + ee;
    let l1a = dec_digits(r1.torrent_size as nat).len() as int;
    let l1b = dec_digits(r2.torrent_size as nat).len() as int;
    assert(b[p1 + 17 + l1a] == 44 && b[p1 + 17 + l1b] == 44);
    assert(l1a == l1b) by {
        if l1a < l1b {
            assert(b[p1 + 17 + l1a] != 44);
        }
        if l1b < l1a {
            assert(b[p1 + 17 + l1b] != 44);
        }
    }
    assert(r1.torrent_size == r2.torrent_size) by {
        assert(b.subrange(p1 + 17, p1 + 17 + l1a) == dec_digits(r1.torrent_size as nat));
        assert(b.subrange(p1 + 17, p1 + 17 + l1b) == dec_digits(r2.torrent_size as nat));
        lemma_dec_value_of_digits(r1.torrent_size as nat);
        lemma_dec_value_of_digits(r2.torrent_size as nat);
    }
    let c1 = p1 + 17 + l1a;
    let l2a = dec_digits(r1.packet_size as nat).len() as int;
    let l2b = dec_digits(r2.packet_size as nat).len() as int;
    assert(l2a == l2b) by {
        if l2a < l2b {
            assert(b[c1 + 15 + l2a] != 44);
        }
        if l2b < l2a {
            assert(b[c1 + 15 + l2b] != 44);
        }
    }
    assert(r1.packet_size == r2.packet_size) by {
        lemma_dec_value_of_digits(r1.packet_size as nat);
        lemma_dec_value_of_digits(r2.packet_size as nat);
    }
    let c2 = c1 + 15 + l2a;
    let l3a = dec_digits(r1.packet_count as nat).len() as int;
    let l3b = dec_digits(r2.packet_count as nat).len() as int;
    assert(l3a == l3b) by {
        if l3a < l3b {
            assert(b[c2 + 16 + l3a] != 44);
        }
        if l3b < l3a {
            assert(b[c2 + 16 + l3b] != 44);
        }
    }
    assert(r1.packet_count == r2.packet_count) by {
        lemma_dec_value_of_digits(r1.packet_count as nat);
        lemma_dec_value_of_digits(r2.packet_count as nat);
    }
    let c3 = c2 + 16 + l3a;
    let bits1 = bits_of(r1.availability);
    let bits2 = bits_of(r2.availability);
    let l4a = dec_digits(bits1.len()).len() as int;
    let l4b = dec_digits(bits2.len()).len() as int;
    assert(l4a == l4b) by {
        if l4a < l4b {
            assert(b[c3 + 24 + l4a] != 44);
        }
        if l4b < l4a {
            assert(b[c3 + 24 + l4b] != 44);
        }
    }
    assert(bits1.len() == bits2.len()) by {
        lemma_dec_value_of_digits(bits1.len());
        lemma_dec_value_of_digits(bits2.len());
    }
    let c4 = c3 + 24 + l4a;
    assert(bits1 =~= bits2) by {
        assert(b.subrange(c4 + 2, b.len() - 3) == enc_bits(bits1));
        assert(b.subrange(c4 + 2, b.len() - 3) == enc_bits(bits2));
        assert forall|t: int| 0 <= t < bits1.len() implies bits1[t] == bits2[t] by {
            assert(enc_bits(bits1)[t] == enc_bits(bits2)[t]);
        }
    }
}


/// The wire form of an address determines the address.
pub proof fn lemma_enc_addr_injective(a: PeerAddr, b: PeerAddr)
    requires
        enc_addr(a) == enc_addr(b),
    ensures
        a == b,
{
    let s = enc_addr(a);
    lemma_addr_layout(s, a);
    lemma_addr_layout(s, b);
    let l1a = dec_digits(a.a as nat).len() as int;
    let l1b = dec_digits(b.a as nat).len() as int;
    assert(l1a == l1b) by {
        if l1a < l1b {
            assert(s[l1a] != 46);
        }
        if l1b < l1a {
            assert(s[l1b] != 46);
        }
    }
    assert(a.a == b.a) by {
        lemma_dec_value_of_digits(a.a as nat);
        lemma_dec_value_of_digits(b.a as nat);
    }
    let l2a = dec_digits(a.b as nat).len() as int;
    let l2b = dec_digits(b.b as nat).len() as int;
    assert(l2a == l2b) by {
        if l2a < l2b {
            assert(s[l1a + 1 + l2a] != 46);
        }
        if l2b < l2a {
            assert(s[l1a + 1 + l2b] != 46);
        }
    }
    assert(a.b == b.b) by {
        lemma_dec_value_of_digits(a.b as nat);
        lemma_dec_value_of_digits(b.b as nat);
    }
    let l3a = dec_digits(a.c as nat).len() as int;
    let l3b = dec_digits(b.c as nat).len() as int;
    assert(l3a == l3b) by {
        if l3a < l3b {
            assert(s[l1a + l2a + 2 + l3a] != 46);
        }
        if l3b < l3a {
            assert(s[l1a + l2a + 2 + l3b] != 46);
        }
    }
    assert(a.c == b.c) by {
        lemma_dec_value_of_digits(a.c as nat);
        lemma_dec_value_of_digits(b.c as nat);
    }
    let l4a = dec_digits(a.d as nat).len() as int;
    let l4b = dec_digits(b.d as nat).len() as int;
    assert(l4a == l4b) by {
        if l4a < l4b {
            assert(s[l1a + l2a + l3a + 3 + l4a] != 58);
        }
        if l4b < l4a {
            assert(s[l1a + l2a + l3a + 3 + l4b] != 58);
        }
    }
    assert(a.d == b.d) by {
        lemma_dec_value_of_digits(a.d as nat);
        lemma_dec_value_of_digits(b.d as nat);
    }
    assert(a.port == b.port) by {
        assert(dec_digits(a.port as nat) == dec_digits(b.port as nat));
        lemma_dec_value_of_digits(a.port as nat);
        lemma_dec_value_of_digits(b.port as nat);
    }
}

/// A `RegisterAsPeer` frame determines the registered address.
pub proof fn lemma_register_injective(a: PeerAddr, b: PeerAddr)
    requires
        enc_request_to_tracker(RequestToTracker::RegisterAsPeer(a)) == enc_request_to_tracker(
            RequestToTracker::RegisterAsPeer(b),
        ),
    ensures
        a == b,
{
    let s = enc_request_to_tracker(RequestToTracker::RegisterAsPeer(a));
    lemma_register_parts(s, a);
    lemma_register_parts(s, b);
    lemma_enc_addr_injective(a, b);
}


/// A `GetPackets` frame determines its start and count.
pub proof fn lemma_get_packets_injective(s1: usize, c1: usize, s2: usize, c2: usize)
    requires
        enc_leech_request(LeechRequest::GetPackets(s1, c1)) == enc_leech_request(
            LeechRequest::GetPackets(s2, c2),
        ),
    ensures
        s1 == s2,
        c1 == c2,
{
    let b = enc_leech_request(LeechRequest::GetPackets(s1, c1));
    lemma_get_packets_parts(b, s1, c1);
    lemma_get_packets_parts(b, s2, c2);
    let l1a = dec_digits(s1 as nat).len() as int;
    let l1b = dec_digits(s2 as nat).len() as int;
    assert(l1a == l1b) by {
        if l1a < l1b {
            assert(b[15 + l1a] != 44);
        }
        if l1b < l1a {
            assert(b[15 + l1b] != 44);
        }
    }
    lemma_dec_value_of_digits(s1 as nat);
    lemma_dec_value_of_digits(s2 as nat);
    assert(b.subrange(15 + l1a + 1, b.len() - 2) =~= dec_digits(c1 as nat));
    assert(b.subrange(15 + l1b + 1, b.len() - 2) =~= dec_digits(c2 as nat));
    lemma_dec_value_of_digits(c1 as nat);
    lemma_dec_value_of_digits(c2 as nat);
}

} // verus!
