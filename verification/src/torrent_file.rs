//! The packet store: divides the content into fixed-size packets, serves
//! reads, accepts writes, and maintains the availability bitmap.
//!
//! The store models the content file as a byte vector of length
//! `torrent_size`; the surrounding process mirrors those bytes to disk and
//! guards the store with its locks. A byte range is authoritative exactly
//! when its packet's availability bit is set.

use vstd::prelude::*;

use crate::bitmap::{bits_of, bv_clone, bv_from_elem, bv_get, bv_len, bv_set};
use crate::codec::{
    enc_bits, enc_progress, esc_bytes, dec_digits, tok_comma_quote, tok_prog_availability,
    tok_prog_open, tok_prog_packet_count, tok_prog_packet_size, tok_prog_size,
    tok_quote_bracket_close, ProgressRecord, parse_progress_record,
    lemma_progress_record_injective,
};
use crate::div_ceil;
use crate::div_usize_ceil;
use crate::requests::TorrentError;

verus! {

/// Handles the logic of dividing the file into packets, writing and reading them.
pub struct TorrentFile {
    path: Vec<u8>,
    torrent_size: usize,
    packet_size: usize,
    packet_count: usize,
    packet_availability: bit_vec::BitVec,
    content: Vec<u8>,
}

/// Bounds of ceiling division: `div_ceil(a, b)` is the least `q` with
/// `q * b >= a`.
pub proof fn lemma_div_ceil_bounds(a: int, b: int)
    requires
        b > 0,
        a >= 0,
    ensures
        div_ceil(a, b) * b >= a,
        a > 0 ==> (div_ceil(a, b) - 1) * b < a,
        div_ceil(a, b) >= 0,
        a > 0 ==> div_ceil(a, b) >= 1,
{
    assert(div_ceil(a, b) * b >= a && div_ceil(a, b) >= 0 && (a > 0 ==> (div_ceil(a, b) - 1) * b
        < a) && (a > 0 ==> div_ceil(a, b) >= 1)) by (nonlinear_arith)
        requires
            b > 0,
            a >= 0,
            div_ceil(a, b) == (a + b - 1) / b,
    ;
}

impl TorrentFile {
    /// The stored filesystem path, as raw bytes.
    pub closed spec fn spec_path(self) -> Seq<u8> {
        self.path@
    }

    /// Total byte length of the content.
    pub closed spec fn spec_torrent_size(self) -> int {
        self.torrent_size as int
    }

    /// Byte length of every packet except possibly the last.
    pub closed spec fn spec_packet_size(self) -> int {
        self.packet_size as int
    }

    /// Number of packets.
    pub closed spec fn spec_packet_count(self) -> int {
        self.packet_count as int
    }

    /// The availability bitmap: bit `i` is set exactly when packet `i` is
    /// locally present and complete.
    pub closed spec fn availability(self) -> Seq<bool> {
        bits_of(self.packet_availability)
    }

    /// The modelled content bytes; authoritative where the packet's bit is set.
    pub closed spec fn spec_content(self) -> Seq<u8> {
        self.content@
    }

    /// The store's invariant: a positive packet size, a packet count that
    /// covers the whole content, one availability bit per packet, and content
    /// of exactly `torrent_size` bytes.
    pub open spec fn wf(self) -> bool {
        &&& self.spec_packet_size() > 0
        &&& self.spec_torrent_size() > 0
        &&& self.spec_packet_count() == div_ceil(self.spec_torrent_size(), self.spec_packet_size())
        &&& self.availability().len() == self.spec_packet_count()
        &&& self.spec_content().len() == self.spec_torrent_size()
    }

    /// All bits in `[start, start + count)` are set.
    pub open spec fn all_available(self, start: int, count: int) -> bool {
        forall|i: int| start <= i < start + count ==> self.availability()[i]
    }

    /// How many bytes a read of `count` packets from `start` yields: `count`
    /// whole packets, shortened at the end of the content.
    pub open spec fn spec_read_len(self, start: int, count: int) -> int {
        if count == 0 {
            0
        } else if count * self.spec_packet_size() <= self.spec_torrent_size() - start
            * self.spec_packet_size() {
            count * self.spec_packet_size()
        } else {
            self.spec_torrent_size() - start * self.spec_packet_size()
        }
    }

    /// The bytes a read of `count` packets from `start` yields: a window of
    /// the content starting at `start * packet_size`.
    pub open spec fn spec_read_bytes(self, start: int, count: int) -> Seq<u8> {
        if count == 0 {
            Seq::empty()
        } else {
            self.spec_content().subrange(
                start * self.spec_packet_size(),
                start * self.spec_packet_size() + self.spec_read_len(start, count),
            )
        }
    }


    /// The serialized form of this store's progress record.
    pub open spec fn spec_progress_enc(self) -> Seq<u8> {
        tok_prog_open() + esc_bytes(self.spec_path()) + tok_prog_size() + dec_digits(
            self.spec_torrent_size() as nat,
        ) + tok_prog_packet_size() + dec_digits(self.spec_packet_size() as nat)
            + tok_prog_packet_count() + dec_digits(self.spec_packet_count() as nat)
            + tok_prog_availability() + dec_digits(self.availability().len()) + tok_comma_quote()
            + enc_bits(self.availability()) + tok_quote_bracket_close()
    }

    /// The store's metadata and bitmap, ready for the progress file. The
    /// content bytes stay behind: a resume reopens the content file itself.
    pub fn progress_record(&self) -> (rec: ProgressRecord)
        ensures
            rec.path@ == self.spec_path(),
            rec.torrent_size == self.spec_torrent_size(),
            rec.packet_size == self.spec_packet_size(),
            rec.packet_count == self.spec_packet_count(),
            bits_of(rec.availability) == self.availability(),
            enc_progress(rec) == self.spec_progress_enc(),
    {
        ProgressRecord {
            path: self.path.clone(),
            torrent_size: self.torrent_size,
            packet_size: self.packet_size,
            packet_count: self.packet_count,
            availability: bv_clone(&self.packet_availability),
        }
    }

    /// The sidecar path `{path}.progress`.
    pub fn progress_path(&self) -> (r: Vec<u8>)
        ensures
            r@ == self.spec_path() + seq![46u8, 112u8, 114u8, 111u8, 103u8, 114u8, 101u8, 115u8,
                115u8],
    {
        let mut r = self.path.clone();
        r.push(46);
        r.push(112);
        r.push(114);
        r.push(111);
        r.push(103);
        r.push(114);
        r.push(101);
        r.push(115);
        r.push(115);
        proof {
            assert(r@ =~= self.spec_path() + seq![46u8, 112u8, 114u8, 111u8, 103u8, 114u8, 101u8,
                115u8, 115u8]);
        }
        r
    }

    /// Reconstructs a store from a progress record's bytes and the reopened
    /// content file's bytes. Fails with `CodecError` when the bytes are not a
    /// record whose metadata is consistent, and with `IoError` when the
    /// content does not have the recorded length.
    pub fn from_progress_file(data: &[u8], content: Vec<u8>) -> (r: Result<Self, TorrentError>)
        ensures
            match r {
                Ok(st) => {
                    &&& st.wf()
                    &&& st.spec_content() == content@
                    &&& data@ == st.spec_progress_enc()
                },
                Err(e) => {
                    if e == TorrentError::IoError {
                        exists|rec: ProgressRecord|
                            {
                                &&& data@ == #[trigger] enc_progress(rec)
                                &&& Self::progress_consistent(rec)
                                &&& content@.len() != rec.torrent_size
                            }
                    } else {
                        &&& e == TorrentError::CodecError
                        &&& forall|rec: ProgressRecord|
                            data@ == #[trigger] enc_progress(rec) ==> !Self::progress_consistent(
                                rec,
                            )
                    }
                },
            },
    {
        let rec = match parse_progress_record(data) {
            Ok(rec) => rec,
            Err(e) => {
                return Err(e);
            },
        };
        let nbits = bv_len(&rec.availability);
        let consistent = rec.packet_size > 0 && rec.torrent_size > 0 && rec.packet_count
            == div_usize_ceil(rec.torrent_size, rec.packet_size) && nbits == rec.packet_count;
        if !consistent {
            proof {
                assert forall|rec2: ProgressRecord|
                    data@ == #[trigger] enc_progress(rec2) implies !Self::progress_consistent(
                    rec2,
                ) by {
                    lemma_progress_record_injective(rec, rec2);
                }
            }
            return Err(TorrentError::CodecError);
        }
        if content.len() != rec.torrent_size {
            return Err(TorrentError::IoError);
        }
        let st = Self {
            path: rec.path,
            torrent_size: rec.torrent_size,
            packet_size: rec.packet_size,
            packet_count: rec.packet_count,
            packet_availability: rec.availability,
            content,
        };
        Ok(st)
    }

    /// A record whose metadata fits together: positive sizes, a packet count
    /// that covers the content, one bit per packet.
    pub open spec fn progress_consistent(rec: ProgressRecord) -> bool {
        &&& rec.packet_size > 0
        &&& rec.torrent_size > 0
        &&& rec.packet_count == div_ceil(rec.torrent_size as int, rec.packet_size as int)
        &&& bits_of(rec.availability).len() == rec.packet_count
    }

    /// Creates an empty store: no packet available, content all zero.
    pub fn new(path: Vec<u8>, torrent_size: usize, packet_size: usize) -> (r: Self)
        requires
            packet_size > 0,
            torrent_size > 0,
        ensures
            r.wf(),
            r.spec_path() == path@,
            r.spec_torrent_size() == torrent_size,
            r.spec_packet_size() == packet_size,
            r.spec_packet_count() == div_ceil(torrent_size as int, packet_size as int),
            r.availability() == Seq::new(r.spec_packet_count() as nat, |i: int| false),
            r.spec_content() == Seq::new(torrent_size as nat, |i: int| 0u8),
    {
        let packet_count = div_usize_ceil(torrent_size, packet_size);
        let packet_availability = bv_from_elem(packet_count, false);
        let content = vec![0u8; torrent_size];
        proof {
            assert(content@ =~= Seq::new(torrent_size as nat, |i: int| 0u8));
        }
        Self { path, torrent_size, packet_size, packet_count, packet_availability, content }
    }

    /// Creates a store over already-complete content: every packet available.
    pub fn from_complete(path: Vec<u8>, packet_size: usize, content: Vec<u8>) -> (r: Self)
        requires
            packet_size > 0,
            content@.len() > 0,
        ensures
            r.wf(),
            r.spec_path() == path@,
            r.spec_torrent_size() == content@.len(),
            r.spec_packet_size() == packet_size,
            r.availability() == Seq::new(r.spec_packet_count() as nat, |i: int| true),
            r.spec_content() == content@,
    {
        let torrent_size = content.len();
        let packet_count = div_usize_ceil(torrent_size, packet_size);
        let packet_availability = bv_from_elem(packet_count, true);
        Self { path, torrent_size, packet_size, packet_count, packet_availability, content }
    }

    pub fn packet_count(&self) -> (r: usize)
        ensures
            r == self.spec_packet_count(),
    {
        self.packet_count
    }

    pub fn packet_size(&self) -> (r: usize)
        ensures
            r == self.spec_packet_size(),
    {
        self.packet_size
    }

    pub fn torrent_size(&self) -> (r: usize)
        ensures
            r == self.spec_torrent_size(),
    {
        self.torrent_size
    }

    pub fn path(&self) -> (r: &Vec<u8>)
        ensures
            r@ == self.spec_path(),
    {
        &self.path
    }

    /// The modelled content bytes, for mirroring to disk.
    pub fn content(&self) -> (r: &Vec<u8>)
        ensures
            r@ == self.spec_content(),
    {
        &self.content
    }

    /// Returns a snapshot copy of the availability bitmap, not a reference
    /// into shared state.
    pub fn read_packet_availability(&self) -> (r: bit_vec::BitVec)
        ensures
            bits_of(r) == self.availability(),
    {
        bv_clone(&self.packet_availability)
    }

    /// Reads packets `[start, start + count)`. Fails with `OutOfBounds` when
    /// the range goes past the packet count, with `Unavailable` when a bit in
    /// it is clear; otherwise returns exactly
    /// `min(count * packet_size, torrent_size - start * packet_size)` bytes.
    pub fn read_packets(&self, start: usize, count: usize) -> (r: Result<Vec<u8>, TorrentError>)
        requires
            self.wf(),
        ensures
            match r {
                Ok(bytes) => {
                    &&& start + count <= self.spec_packet_count()
                    &&& self.all_available(start as int, count as int)
                    &&& bytes@ == self.spec_read_bytes(start as int, count as int)
                },
                Err(e) => {
                    if start + count > self.spec_packet_count() {
                        e == TorrentError::OutOfBounds
                    } else {
                        &&& !self.all_available(start as int, count as int)
                        &&& e == TorrentError::Unavailable
                    }
                },
            },
    {
        if count > self.packet_count || start > self.packet_count - count {
            return Err(TorrentError::OutOfBounds);
        }
        let mut i = start;
        while i < start + count
            invariant
                self.wf(),
                start <= i <= start + count <= self.spec_packet_count(),
                forall|j: int| start <= j < i ==> self.availability()[j],
            decreases start + count - i,
        {
            let available = match bv_get(&self.packet_availability, i) {
                Some(bit) => bit,
                None => false,
            };
            if !available {
                return Err(TorrentError::Unavailable);
            }
            i = i + 1;
        }
        if count == 0 {
            let empty: Vec<u8> = Vec::new();
            proof {
                assert(empty@ =~= Seq::<u8>::empty());
            }
            return Ok(empty);
        }
        proof {
            lemma_div_ceil_bounds(self.spec_torrent_size(), self.spec_packet_size());
            assert(start * self.spec_packet_size() <= (self.spec_packet_count() - 1)
                * self.spec_packet_size()) by (nonlinear_arith)
                requires
                    start <= self.spec_packet_count() - 1,
                    self.spec_packet_size() > 0,
                    start >= 0,
            ;
        }
        let lo = start * self.packet_size;
        let remaining = self.torrent_size - lo;
        let whole = div_usize_ceil(remaining, self.packet_size);
        let n = if count >= whole {
            proof {
                lemma_div_ceil_bounds(remaining as int, self.spec_packet_size());
                assert(count * self.spec_packet_size() >= div_ceil(
                    remaining as int,
                    self.spec_packet_size(),
                ) * self.spec_packet_size()) by (nonlinear_arith)
                    requires
                        count >= div_ceil(remaining as int, self.spec_packet_size()),
                        self.spec_packet_size() > 0,
                ;
            }
            remaining
        } else {
            proof {
                lemma_div_ceil_bounds(remaining as int, self.spec_packet_size());
                assert(count * self.spec_packet_size() <= (whole - 1) * self.spec_packet_size())
                    by (nonlinear_arith)
                    requires
                        0 <= count <= whole - 1,
                        self.spec_packet_size() > 0,
                ;
            }
            count * self.packet_size
        };
        assert(n == self.spec_read_len(start as int, count as int));
        let mut out: Vec<u8> = Vec::new();
        let mut j: usize = 0;
        while j < n
            invariant
                self.wf(),
                lo == start * self.spec_packet_size(),
                0 <= j <= n,
                lo + n <= self.spec_torrent_size(),
                out@ =~= self.spec_content().subrange(lo as int, lo + j),
            decreases n - j,
        {
            out.push(self.content[lo + j]);
            proof {
                assert(out@ =~= self.spec_content().subrange(lo as int, lo + j + 1));
            }
            j = j + 1;
        }
        Ok(out)
    }


    /// The first packet at or after `from` that is still missing, if any.
    pub fn next_missing(&self, from: usize) -> (r: Option<usize>)
        requires
            self.wf(),
        ensures
            match r {
                Some(i) => {
                    &&& from <= i < self.spec_packet_count()
                    &&& !self.availability()[i as int]
                    &&& forall|j: int| from <= j < i ==> self.availability()[j]
                },
                None => forall|j: int|
                    from <= j < self.spec_packet_count() ==> self.availability()[j],
            },
    {
        let mut i = from;
        while i < self.packet_count
            invariant
                self.wf(),
                from <= i,
                forall|j: int| from <= j < i ==> self.availability()[j],
            decreases self.spec_packet_count() - i,
        {
            let available = match bv_get(&self.packet_availability, i) {
                Some(bit) => bit,
                None => false,
            };
            if !available {
                return Some(i);
            }
            i = i + 1;
        }
        None
    }

    /// Writes `data` at byte offset `start * packet_size` (shortened at the
    /// end of the content), then sets the bits of the packets the write
    /// covers. The caller keeps the write inside the packet range, as the
    /// bitmap cannot grow.
    pub fn write_packets(&mut self, start: usize, data: &[u8])
        requires
            old(self).wf(),
            start + div_ceil(data@.len() as int, old(self).spec_packet_size()) <= old(
                self,
            ).spec_packet_count(),
        ensures
            final(self).wf(),
            final(self).spec_path() == old(self).spec_path(),
            final(self).spec_torrent_size() == old(self).spec_torrent_size(),
            final(self).spec_packet_size() == old(self).spec_packet_size(),
            final(self).spec_packet_count() == old(self).spec_packet_count(),
            final(self).availability() == Seq::new(
                old(self).spec_packet_count() as nat,
                |i: int|
                    if start <= i < start + div_ceil(
                        data@.len() as int,
                        old(self).spec_packet_size(),
                    ) {
                        true
                    } else {
                        old(self).availability()[i]
                    },
            ),
            final(self).spec_content() == Seq::new(
                old(self).spec_torrent_size() as nat,
                |j: int|
                    if start * old(self).spec_packet_size() <= j < start * old(
                        self,
                    ).spec_packet_size() + data@.len() {
                        data@[j - start * old(self).spec_packet_size()]
                    } else {
                        old(self).spec_content()[j]
                    },
            ),
    {
        let ghost packets = div_ceil(data@.len() as int, old(self).spec_packet_size());
        let k = div_usize_ceil(data.len(), self.packet_size);
        if k == 0 {
            proof {
                lemma_div_ceil_bounds(data@.len() as int, self.spec_packet_size());
                assert(data@.len() == 0);
                assert(self.availability() =~= Seq::new(
                    old(self).spec_packet_count() as nat,
                    |i: int|
                        if start <= i < start + packets {
                            true
                        } else {
                            old(self).availability()[i]
                        },
                ));
                assert(self.spec_content() =~= Seq::new(
                    old(self).spec_torrent_size() as nat,
                    |j: int|
                        if start * old(self).spec_packet_size() <= j < start * old(
                            self,
                        ).spec_packet_size() + data@.len() {
                            data@[j - start * old(self).spec_packet_size()]
                        } else {
                            old(self).spec_content()[j]
                        },
                ));
            }
            return ;
        }
        proof {
            assert(start * self.spec_packet_size() <= (self.spec_packet_count() - 1)
                * self.spec_packet_size()) by (nonlinear_arith)
                requires
                    start <= self.spec_packet_count() - 1,
                    self.spec_packet_size() > 0,
                    start >= 0,
            ;
            lemma_div_ceil_bounds(self.spec_torrent_size(), self.spec_packet_size());
        }
        let lo = start * self.packet_size;
        let m = if data.len() <= self.torrent_size - lo {
            data.len()
        } else {
            self.torrent_size - lo
        };
        let mut j: usize = 0;
        while j < m
            invariant
                old(self).wf(),
                self.path == old(self).path,
                self.torrent_size == old(self).torrent_size,
                self.packet_size == old(self).packet_size,
                self.packet_count == old(self).packet_count,
                self.packet_availability == old(self).packet_availability,
                lo == start * old(self).spec_packet_size(),
                lo + m <= old(self).spec_torrent_size(),
                m <= data@.len(),
                0 <= j <= m,
                self.content@.len() == old(self).spec_content().len(),
                forall|i: int|
                    0 <= i < old(self).spec_torrent_size() ==> #[trigger] self.content@[i] == (
                    if lo <= i < lo + j {
                        data@[i - lo]
                    } else {
                        old(self).spec_content()[i]
                    }),
            decreases m - j,
        {
            self.content[lo + j] = data[j];
            j = j + 1;
        }
        let ghost mid = *self;
        let mut i: usize = start;
        while i < start + k
            invariant
                old(self).wf(),
                start + k <= old(self).spec_packet_count(),
                self.path == mid.path,
                self.torrent_size == mid.torrent_size,
                self.packet_size == mid.packet_size,
                self.packet_count == mid.packet_count,
                self.content == mid.content,
                start <= i <= start + k,
                bits_of(self.packet_availability).len() == old(self).spec_packet_count(),
                forall|b: int|
                    0 <= b < old(self).spec_packet_count() ==> #[trigger] bits_of(
                        self.packet_availability,
                    )[b] == (if start <= b < i {
                        true
                    } else {
                        old(self).availability()[b]
                    }),
            decreases start + k - i,
        {
            bv_set(&mut self.packet_availability, i, true);
            i = i + 1;
        }
        proof {
            assert(self.availability() =~= Seq::new(
                old(self).spec_packet_count() as nat,
                |b: int|
                    if start <= b < start + packets {
                        true
                    } else {
                        old(self).availability()[b]
                    },
            ));
            assert(self.spec_content() =~= Seq::new(
                old(self).spec_torrent_size() as nat,
                |jj: int|
                    if start * old(self).spec_packet_size() <= jj < start * old(
                        self,
                    ).spec_packet_size() + data@.len() {
                        data@[jj - start * old(self).spec_packet_size()]
                    } else {
                        old(self).spec_content()[jj]
                    },
            ));
        }
    }
}

/// Law: a well-formed store has one availability bit per packet, that is
/// `availability.len() == ceil(torrent_size / packet_size)`.
pub proof fn lemma_availability_len(st: TorrentFile)
    requires
        st.wf(),
    ensures
        st.availability().len() == div_ceil(st.spec_torrent_size(), st.spec_packet_size()),
{
}

/// Law: after `write_packets(start, data)`, every bit of the packets the data
/// covers is set, and reading those packets back yields `data`, shortened at
/// the end of the content. `pre` and `post` are the stores around the write,
/// related exactly as `write_packets` ensures.
pub proof fn lemma_write_then_read(pre: TorrentFile, post: TorrentFile, start: int, data: Seq<u8>)
    requires
        pre.wf(),
        0 <= start,
        start + div_ceil(data.len() as int, pre.spec_packet_size()) <= pre.spec_packet_count(),
        post.spec_torrent_size() == pre.spec_torrent_size(),
        post.spec_packet_size() == pre.spec_packet_size(),
        post.spec_packet_count() == pre.spec_packet_count(),
        post.availability() == Seq::new(
            pre.spec_packet_count() as nat,
            |i: int|
                if start <= i < start + div_ceil(data.len() as int, pre.spec_packet_size()) {
                    true
                } else {
                    pre.availability()[i]
                },
        ),
        post.spec_content() == Seq::new(
            pre.spec_torrent_size() as nat,
            |j: int|
                if start * pre.spec_packet_size() <= j < start * pre.spec_packet_size()
                    + data.len() {
                    data[j - start * pre.spec_packet_size()]
                } else {
                    pre.spec_content()[j]
                },
        ),
    ensures
        ({
            let k = div_ceil(data.len() as int, pre.spec_packet_size());
            let window = pre.spec_torrent_size() - start * pre.spec_packet_size();
            let cut = if window <= 0 {
                0
            } else if data.len() as int <= window {
                data.len() as int
            } else {
                window
            };
            &&& post.all_available(start, k)
            &&& post.spec_read_bytes(start, k).take(cut) == data.take(cut)
        }),
{
    let p = pre.spec_packet_size();
    let t = pre.spec_torrent_size();
    let k = div_ceil(data.len() as int, p);
    let window = t - start * p;
    let cut = if window <= 0 {
        0
    } else if data.len() as int <= window {
        data.len() as int
    } else {
        window
    };
    if k == 0 {
        lemma_div_ceil_bounds(data.len() as int, p);
        assert(data.len() == 0);
        assert(post.spec_read_bytes(start, k).take(cut) =~= data.take(cut));
    } else {
        lemma_div_ceil_bounds(data.len() as int, p);
        lemma_div_ceil_bounds(t, p);
        assert(start * p <= (pre.spec_packet_count() - 1) * p) by (nonlinear_arith)
            requires
                0 <= start <= pre.spec_packet_count() - 1,
                p > 0,
        ;
        assert(k * p >= data.len());
        assert(cut >= 0);
        let rl = post.spec_read_len(start, k);
        assert(rl >= cut);
        assert(rl <= t - start * p);
        let rb = post.spec_read_bytes(start, k);
        assert(rb.len() == rl);
        assert forall|i: int| 0 <= i < cut implies rb.take(cut)[i] == data.take(cut)[i] by {
            assert(rb[i] == post.spec_content()[start * p + i]);
            assert(post.spec_content()[start * p + i] == data[i]);
        }
        assert(rb.take(cut) =~= data.take(cut));
    }
}


/// Law: the progress encoding determines the store. Two well-formed stores
/// over the same content whose progress records serialize to the same bytes
/// agree on path, sizes, packet count and availability: saving progress and
/// resuming from it loses nothing.
pub proof fn lemma_progress_round_trip(st1: TorrentFile, st2: TorrentFile)
    requires
        st1.spec_progress_enc() == st2.spec_progress_enc(),
    ensures
        st1.spec_path() == st2.spec_path(),
        st1.spec_torrent_size() == st2.spec_torrent_size(),
        st1.spec_packet_size() == st2.spec_packet_size(),
        st1.spec_packet_count() == st2.spec_packet_count(),
        st1.availability() == st2.availability(),
{
    let r1 = ProgressRecord {
        path: st1.path,
        torrent_size: st1.torrent_size,
        packet_size: st1.packet_size,
        packet_count: st1.packet_count,
        availability: st1.packet_availability,
    };
    let r2 = ProgressRecord {
        path: st2.path,
        torrent_size: st2.torrent_size,
        packet_size: st2.packet_size,
        packet_count: st2.packet_count,
        availability: st2.packet_availability,
    };
    lemma_progress_record_injective(r1, r2);
}

} // verus!
