//! Fixed-length frame parser: a fixed header, a fixed whole-packet length and
//! a fixed tail, with resynchronisation on noise and bad frames.

use vstd::prelude::*;

verus! {

/// Counters kept by a [`PacketParser`].
#[derive(Debug, Clone, Copy, PartialEq, Eq, Structural)]
pub struct ParserStats {
    pub packets: u64,
    pub bad_frames: u64,
    pub discarded_bytes: u64,
    pub incomplete_tail_bytes: u64,
}

impl ParserStats {
    /// All counters at zero.
    pub open spec fn zero() -> ParserStats {
        ParserStats { packets: 0, bad_frames: 0, discarded_bytes: 0, incomplete_tail_bytes: 0 }
    }
}

impl Default for ParserStats {
    fn default() -> (r: Self)
        ensures
            r == ParserStats::zero(),
    {
        ParserStats { packets: 0, bad_frames: 0, discarded_bytes: 0, incomplete_tail_bytes: 0 }
    }
}

/// `needle` occurs in `hay` starting at index `i`.
pub open spec fn occurs_at(hay: Seq<u8>, needle: Seq<u8>, i: int) -> bool {
    0 <= i && i + needle.len() <= hay.len() && hay.subrange(i, i + needle.len()) == needle
}

/// The first index at or after `i` where `needle` occurs in `hay`.
pub open spec fn find_from(hay: Seq<u8>, needle: Seq<u8>, i: nat) -> Option<nat>
    decreases hay.len() + 1 - i,
{
    if i + needle.len() > hay.len() {
        None
    } else if occurs_at(hay, needle, i as int) {
        Some(i)
    } else {
        find_from(hay, needle, i + 1)
    }
}

/// The first index where `needle` occurs in `hay` (an empty needle occurs at 0).
pub open spec fn first_occurrence(hay: Seq<u8>, needle: Seq<u8>) -> Option<nat> {
    find_from(hay, needle, 0)
}

pub proof fn lemma_find_from_spec(hay: Seq<u8>, needle: Seq<u8>, i: nat)
    ensures
        find_from(hay, needle, i) matches Some(p) ==> i <= p && occurs_at(hay, needle, p as int)
            && forall|j: int| i <= j < p ==> !occurs_at(hay, needle, j),
        find_from(hay, needle, i) is None ==> forall|j: int| i <= j ==> !occurs_at(hay, needle, j),
        find_from(hay, needle, i) is None && i <= hay.len() ==> needle.len() > 0,
    decreases hay.len() + 1 - i,
{
    if needle.len() == 0 && i <= hay.len() {
        assert(hay.subrange(i as int, i as int) =~= needle);
    }
    if i + needle.len() > hay.len() {
    } else if occurs_at(hay, needle, i as int) {
    } else {
        lemma_find_from_spec(hay, needle, i + 1);
    }
}

/// What the parser does with a buffer: the bytes it keeps, the packets it
/// emits, the bad frames it counts and the bytes it discards.
pub struct ScanOutcome {
    pub rest: Seq<u8>,
    pub packets: Seq<Seq<u8>>,
    pub bad_frames: nat,
    pub discarded: nat,
}

/// The framing rule applied to `buf` until it needs more bytes: look for the
/// first header, discard what precedes it; with a whole packet after it, emit
/// the packet if it ends with the tail, else count a bad frame and drop one
/// byte; with no header at all, keep only the last `header.len() - 1` bytes.
pub open spec fn scan(packet_len: nat, header: Seq<u8>, tail: Seq<u8>, buf: Seq<u8>) -> ScanOutcome
    decreases buf.len(),
{
    match first_occurrence(buf, header) {
        None => {
            if buf.len() < header.len() {
                ScanOutcome { rest: buf, packets: Seq::empty(), bad_frames: 0, discarded: 0 }
            } else {
                let d = (buf.len() - (header.len() - 1)) as nat;
                ScanOutcome { rest: buf.skip(d as int), packets: Seq::empty(), bad_frames: 0, discarded: d }
            }
        },
        Some(p) => {
            proof {
                lemma_find_from_spec(buf, header, 0);
            }
            let framed = buf.skip(p as int);
            if framed.len() < packet_len || packet_len == 0 || tail.len() > packet_len {
                ScanOutcome { rest: framed, packets: Seq::empty(), bad_frames: 0, discarded: p }
            } else if framed.subrange(packet_len - tail.len(), packet_len as int) == tail {
                let r = scan(packet_len, header, tail, framed.skip(packet_len as int));
                ScanOutcome {
                    rest: r.rest,
                    packets: seq![framed.take(packet_len as int)] + r.packets,
                    bad_frames: r.bad_frames,
                    discarded: p + r.discarded,
                }
            } else {
                let r = scan(packet_len, header, tail, framed.skip(1));
                ScanOutcome {
                    rest: r.rest,
                    packets: r.packets,
                    bad_frames: r.bad_frames + 1,
                    discarded: p + 1 + r.discarded,
                }
            }
        },
    }
}

/// Total number of bytes in a sequence of packets.
pub open spec fn total_len(packets: Seq<Seq<u8>>) -> nat
    decreases packets.len(),
{
    if packets.len() == 0 {
        0
    } else {
        packets[0].len() + total_len(packets.drop_first())
    }
}

/// A packet of the given framing: whole length, tail at the end and, where
/// the header fits, the header at the start.
pub open spec fn well_framed(packet_len: nat, header: Seq<u8>, tail: Seq<u8>, p: Seq<u8>) -> bool {
    &&& p.len() == packet_len
    &&& tail.len() <= packet_len
    &&& p.subrange(packet_len - tail.len(), packet_len as int) == tail
    &&& header.len() <= packet_len ==> p.take(header.len() as int) == header
}

/// Every byte the parser is given ends up in exactly one place: a packet,
/// the discarded count or the kept buffer; and every packet is well framed.
pub proof fn lemma_scan_accounts(packet_len: nat, header: Seq<u8>, tail: Seq<u8>, buf: Seq<u8>)
    ensures
        ({
            let r = scan(packet_len, header, tail, buf);
            &&& total_len(r.packets) + r.discarded + r.rest.len() == buf.len()
            &&& r.bad_frames <= r.discarded
            &&& forall|i: int|
                0 <= i < r.packets.len() ==> well_framed(
                    packet_len,
                    header,
                    tail,
                    #[trigger] r.packets[i],
                )
        }),
    decreases buf.len(),
{
    lemma_find_from_spec(buf, header, 0);
    match first_occurrence(buf, header) {
        None => {},
        Some(p) => {
            let framed = buf.skip(p as int);
            if framed.len() < packet_len || packet_len == 0 || tail.len() > packet_len {
            } else if framed.subrange(packet_len - tail.len(), packet_len as int) == tail {
                let rest = framed.skip(packet_len as int);
                lemma_scan_accounts(packet_len, header, tail, rest);
                let r = scan(packet_len, header, tail, rest);
                let pk = framed.take(packet_len as int);
                let all = seq![pk] + r.packets;
                assert(all.drop_first() =~= r.packets);
                assert(pk.subrange(packet_len - tail.len(), packet_len as int) =~= framed.subrange(
                    packet_len - tail.len(),
                    packet_len as int,
                ));
                if header.len() <= packet_len {
                    assert(pk.take(header.len() as int) =~= buf.subrange(
                        p as int,
                        (p + header.len()) as int,
                    ));
                }
                assert forall|i: int| 0 <= i < all.len() implies well_framed(
                    packet_len,
                    header,
                    tail,
                    #[trigger] all[i],
                ) by {
                    if i > 0 {
                        assert(all[i] == r.packets[i - 1]);
                    }
                }
            } else {
                lemma_scan_accounts(packet_len, header, tail, framed.skip(1));
            }
        },
    }
}

/// Searching a suffix is searching the whole sequence from further on.
proof fn lemma_find_from_skip(buf: Seq<u8>, header: Seq<u8>, d: nat, i: nat)
    requires
        d <= buf.len(),
    ensures
        match find_from(buf, header, i + d) {
            Some(p) => find_from(buf.skip(d as int), header, i) == Some((p - d) as nat),
            None => find_from(buf.skip(d as int), header, i) is None,
        },
    decreases buf.len() + 1 - (i + d),
{
    let s = buf.skip(d as int);
    if i + header.len() > s.len() {
    } else {
        assert(s.subrange(i as int, (i + header.len()) as int) =~= buf.subrange(
            (i + d) as int,
            (i + d + header.len()) as int,
        ));
        if !occurs_at(buf, header, (i + d) as int) {
            lemma_find_from_skip(buf, header, d, i + 1);
        }
    }
}

/// An occurrence found in `a` is found at the same place in `a + b`.
proof fn lemma_find_from_prefix(a: Seq<u8>, b: Seq<u8>, header: Seq<u8>, i: nat)
    ensures
        find_from(a, header, i) matches Some(p) ==> find_from(a + b, header, i) == Some(p),
    decreases a.len() + 1 - i,
{
    if i + header.len() <= a.len() {
        assert((a + b).subrange(i as int, (i + header.len()) as int) =~= a.subrange(
            i as int,
            (i + header.len()) as int,
        ));
        if !occurs_at(a, header, i as int) {
            lemma_find_from_prefix(a, b, header, i + 1);
        }
    }
}

/// Positions without an occurrence can be stepped over.
proof fn lemma_find_from_gap(buf: Seq<u8>, header: Seq<u8>, i: nat, k: nat)
    requires
        i <= k,
        forall|j: int| i <= j < k ==> !occurs_at(buf, header, j),
    ensures
        find_from(buf, header, i) == find_from(buf, header, k),
    decreases k - i,
{
    if i < k {
        lemma_find_from_gap(buf, header, i + 1, k);
    }
}

/// Dropping a prefix that holds no occurrence of the header and leaves at
/// least `header.len() - 1` bytes only moves those bytes to the discarded count.
proof fn lemma_scan_skip(packet_len: nat, header: Seq<u8>, tail: Seq<u8>, buf: Seq<u8>, d: nat)
    requires
        d <= buf.len(),
        d + header.len() <= buf.len() + 1,
        forall|j: int| 0 <= j < d ==> !occurs_at(buf, header, j),
    ensures
        ({
            let r = scan(packet_len, header, tail, buf);
            let s = scan(packet_len, header, tail, buf.skip(d as int));
            &&& r.rest == s.rest
            &&& r.packets == s.packets
            &&& r.bad_frames == s.bad_frames
            &&& r.discarded == s.discarded + d
        }),
{
    let sk = buf.skip(d as int);
    lemma_find_from_gap(buf, header, 0, d);
    lemma_find_from_skip(buf, header, d, 0);
    lemma_find_from_spec(buf, header, d);
    match find_from(buf, header, d) {
        Some(p) => {
            assert(sk.skip((p - d) as int) =~= buf.skip(p as int));
        },
        None => {
            if sk.len() >= header.len() {
                assert(sk.skip(sk.len() - (header.len() - 1)) =~= buf.skip(
                    buf.len() - (header.len() - 1),
                ));
            } else {
                assert(d == buf.len() - (header.len() - 1));
            }
        },
    }
}

/// Scanning `a` and then what it kept followed by `b` gives the packets,
/// counts and kept bytes that scanning `a + b` at once gives.
pub proof fn lemma_scan_chunks(packet_len: nat, header: Seq<u8>, tail: Seq<u8>, a: Seq<u8>, b: Seq<u8>)
    requires
        packet_len >= 1,
        tail.len() <= packet_len,
    ensures
        ({
            let ra = scan(packet_len, header, tail, a);
            let rb = scan(packet_len, header, tail, ra.rest + b);
            let r = scan(packet_len, header, tail, a + b);
            &&& r.rest == rb.rest
            &&& r.packets == ra.packets + rb.packets
            &&& r.bad_frames == ra.bad_frames + rb.bad_frames
            &&& r.discarded == ra.discarded + rb.discarded
        }),
    decreases a.len(),
{
    let ra = scan(packet_len, header, tail, a);
    let ab = a + b;
    lemma_find_from_spec(a, header, 0);
    lemma_find_from_prefix(a, b, header, 0);
    match first_occurrence(a, header) {
        None => {
            if a.len() >= header.len() {
                let d = (a.len() - (header.len() - 1)) as nat;
                assert forall|j: int| 0 <= j < d implies !occurs_at(ab, header, j) by {
                    assert(!occurs_at(a, header, j));
                    assert(ab.subrange(j, j + header.len()) =~= a.subrange(j, j + header.len()));
                }
                lemma_scan_skip(packet_len, header, tail, ab, d);
                assert(ab.skip(d as int) =~= ra.rest + b);
            }
            let rb = scan(packet_len, header, tail, ra.rest + b);
            assert(ra.packets + rb.packets =~= rb.packets);
        },
        Some(p) => {
            let fa = a.skip(p as int);
            let fab = ab.skip(p as int);
            assert(fab =~= fa + b);
            if fa.len() < packet_len {
                assert forall|j: int| 0 <= j < p implies !occurs_at(ab, header, j) by {
                    assert(!occurs_at(a, header, j));
                    assert(ab.subrange(j, j + header.len()) =~= a.subrange(j, j + header.len()));
                }
                lemma_scan_skip(packet_len, header, tail, ab, p);
                let rb = scan(packet_len, header, tail, ra.rest + b);
                assert(ra.packets + rb.packets =~= rb.packets);
            } else {
                assert(fab.subrange(packet_len - tail.len(), packet_len as int) =~= fa.subrange(
                    packet_len - tail.len(),
                    packet_len as int,
                ));
                if fa.subrange(packet_len - tail.len(), packet_len as int) == tail {
                    let a1 = fa.skip(packet_len as int);
                    lemma_scan_chunks(packet_len, header, tail, a1, b);
                    assert(fab.skip(packet_len as int) =~= a1 + b);
                    assert(fab.take(packet_len as int) =~= fa.take(packet_len as int));
                    let r1 = scan(packet_len, header, tail, a1);
                    let rb = scan(packet_len, header, tail, r1.rest + b);
                    let pk = fa.take(packet_len as int);
                    assert(seq![pk] + (r1.packets + rb.packets) =~= (seq![pk] + r1.packets)
                        + rb.packets);
                } else {
                    let a1 = fa.skip(1);
                    lemma_scan_chunks(packet_len, header, tail, a1, b);
                    assert(fab.skip(1) =~= a1 + b);
                }
            }
        },
    }
}

/// The parser's state: its framing and the bytes and counters so far.
pub struct PacketParserView {
    pub packet_len: nat,
    pub header: Seq<u8>,
    pub tail: Seq<u8>,
    pub buffer: Seq<u8>,
    pub stats: ParserStats,
}

impl PacketParserView {
    /// The framing can be parsed: a packet holds at least one byte and the tail.
    pub open spec fn framing_ok(self) -> bool {
        self.packet_len >= 1 && self.tail.len() <= self.packet_len
    }

    /// Pushing `n` more bytes keeps every counter and the buffer length in range.
    pub open spec fn has_room(self, n: nat) -> bool {
        &&& self.buffer.len() + n <= usize::MAX
        &&& self.stats.packets + self.buffer.len() + n <= u64::MAX
        &&& self.stats.bad_frames + self.buffer.len() + n <= u64::MAX
        &&& self.stats.discarded_bytes + self.buffer.len() + n <= u64::MAX
    }

    /// The framing rule applied to the buffer followed by `bytes`.
    pub open spec fn scanned(self, bytes: Seq<u8>) -> ScanOutcome {
        scan(self.packet_len, self.header, self.tail, self.buffer + bytes)
    }

    /// The packets that pushing `bytes` hands out.
    pub open spec fn emitted(self, bytes: Seq<u8>) -> Seq<Seq<u8>> {
        self.scanned(bytes).packets
    }

    /// The state after pushing each of `chunks` in turn.
    pub open spec fn pushed_all(self, chunks: Seq<Seq<u8>>) -> PacketParserView
        decreases chunks.len(),
    {
        if chunks.len() == 0 {
            self
        } else {
            self.pushed_all(chunks.drop_last()).pushed(chunks.last())
        }
    }

    /// The packets handed out by pushing each of `chunks` in turn, in order.
    pub open spec fn emitted_all(self, chunks: Seq<Seq<u8>>) -> Seq<Seq<u8>>
        decreases chunks.len(),
    {
        if chunks.len() == 0 {
            Seq::empty()
        } else {
            self.emitted_all(chunks.drop_last()) + self.pushed_all(chunks.drop_last()).emitted(
                chunks.last(),
            )
        }
    }

    /// The counters that finishing in this state reports: the incomplete
    /// tail is the buffer, when it holds anything.
    pub open spec fn finished(self) -> ParserStats {
        if self.buffer.len() > 0 {
            ParserStats { incomplete_tail_bytes: self.buffer.len() as u64, ..self.stats }
        } else {
            self.stats
        }
    }

    /// The state after pushing `bytes`.
    pub open spec fn pushed(self, bytes: Seq<u8>) -> PacketParserView {
        let r = self.scanned(bytes);
        PacketParserView {
            buffer: r.rest,
            stats: ParserStats {
                packets: (self.stats.packets + r.packets.len()) as u64,
                bad_frames: (self.stats.bad_frames + r.bad_frames) as u64,
                discarded_bytes: (self.stats.discarded_bytes + r.discarded) as u64,
                incomplete_tail_bytes: self.stats.incomplete_tail_bytes,
            },
            ..self
        }
    }
}

/// Splits a byte stream into fixed-length packets.
#[derive(Debug, Clone)]
pub struct PacketParser {
    packet_len: usize,
    header: Vec<u8>,
    tail: Vec<u8>,
    buffer: Vec<u8>,
    stats: ParserStats,
}

impl View for PacketParser {
    type V = PacketParserView;

    closed spec fn view(&self) -> PacketParserView {
        PacketParserView {
            packet_len: self.packet_len as nat,
            header: self.header@,
            tail: self.tail@,
            buffer: self.buffer@,
            stats: self.stats,
        }
    }
}

/// `hay[start..start + needle.len()] == needle`.
fn matches_at(hay: &Vec<u8>, start: usize, needle: &Vec<u8>) -> (r: bool)
    requires
        start + needle@.len() <= hay@.len(),
    ensures
        r == (hay@.subrange(start as int, start + needle@.len()) == needle@),
{
    let hay_len = hay.len();
    let mut k: usize = 0;
    while k < needle.len()
        invariant
            k <= needle@.len(),
            start + needle@.len() <= hay@.len(),
            hay_len == hay@.len(),
            forall|j: int| 0 <= j < k ==> hay@[start + j] == needle@[j],
        decreases needle@.len() - k,
    {
        if hay[start + k] != needle[k] {
            assert(hay@.subrange(start as int, start + needle@.len())[k as int] != needle@[k as int]);
            return false;
        }
        k = k + 1;
    }
    assert(hay@.subrange(start as int, start + needle@.len()) =~= needle@);
    true
}

/// The first index where `needle` occurs in `haystack`.
fn find_subslice(haystack: &Vec<u8>, needle: &Vec<u8>) -> (r: Option<usize>)
    ensures
        r matches Some(p) ==> first_occurrence(haystack@, needle@) == Some(p as nat),
        r is None ==> first_occurrence(haystack@, needle@) is None,
{
    if needle.len() == 0 {
        assert(haystack@.subrange(0, 0) =~= needle@);
        return Some(0);
    }
    if needle.len() > haystack.len() {
        return None;
    }
    let last = haystack.len() - needle.len();
    let mut i: usize = 0;
    while i <= last
        invariant
            last + needle@.len() == haystack@.len(),
            needle@.len() >= 1,
            haystack@.len() <= usize::MAX,
            i <= last + 1,
            find_from(haystack@, needle@, 0) == find_from(haystack@, needle@, i as nat),
        decreases last + 1 - i,
    {
        if matches_at(haystack, i, needle) {
            return Some(i);
        }
        i = i + 1;
    }
    None
}

impl PacketParser {
    /// A parser for packets of `packet_len` bytes that start with `header`
    /// and end with `tail`, with an empty buffer and zero counters.
    pub fn new(packet_len: usize, header: Vec<u8>, tail: Vec<u8>) -> (r: Self)
        ensures
            r@ == (PacketParserView {
                packet_len: packet_len as nat,
                header: header@,
                tail: tail@,
                buffer: Seq::empty(),
                stats: ParserStats::zero(),
            }),
    {
        PacketParser { packet_len, header, tail, buffer: Vec::new(), stats: ParserStats::default() }
    }

    /// Whether `n` more bytes can be pushed with every counter in range.
    pub fn has_room(&self, n: usize) -> (r: bool)
        ensures
            r == self@.has_room(n as nat),
    {
        let len = self.buffer.len();
        if len > usize::MAX - n {
            return false;
        }
        let total = (len + n) as u64;
        total <= u64::MAX - self.stats.packets && total <= u64::MAX - self.stats.bad_frames && total
            <= u64::MAX - self.stats.discarded_bytes
    }

    /// Whether the framing can be parsed (see [`PacketParserView::framing_ok`]).
    pub fn framing_ok(&self) -> (r: bool)
        ensures
            r == self@.framing_ok(),
    {
        self.packet_len >= 1 && self.tail.len() <= self.packet_len
    }

    /// With no header in the buffer, keeps only the bytes that could still
    /// start one.
    fn discard_without_header(&mut self)
        requires
            first_occurrence(old(self)@.buffer, old(self)@.header) is None,
            old(self)@.stats.discarded_bytes + old(self)@.buffer.len() <= u64::MAX,
        ensures
            ({
                let r = scan(old(self)@.packet_len, old(self)@.header, old(self)@.tail, old(self)@.buffer);
                &&& final(self)@.buffer == r.rest
                &&& final(self)@.stats == (ParserStats {
                    discarded_bytes: (old(self)@.stats.discarded_bytes + r.discarded) as u64,
                    ..old(self)@.stats
                })
            }),
            final(self)@.packet_len == old(self)@.packet_len,
            final(self)@.header == old(self)@.header,
            final(self)@.tail == old(self)@.tail,
    {
        proof {
            lemma_find_from_spec(self.buffer@, self.header@, 0);
        }
        if self.buffer.len() < self.header.len() {
            return;
        }
        let keep = if self.header.len() > 0 {
            self.header.len() - 1
        } else {
            0
        };
        let discard = self.buffer.len() - keep;
        if discard > 0 {
            let rest = self.buffer.split_off(discard);
            self.buffer = rest;
            self.stats.discarded_bytes = self.stats.discarded_bytes + discard as u64;
        }
    }

    /// Appends `bytes` to the buffer and takes out every complete packet,
    /// in stream order. The buffer keeps what may still become a packet.
    pub fn push_bytes(&mut self, bytes: &[u8]) -> (packets: Vec<Vec<u8>>)
        requires
            old(self)@.framing_ok(),
            old(self)@.has_room(bytes@.len()),
        ensures
            ({
                let r = scan(
                    old(self)@.packet_len,
                    old(self)@.header,
                    old(self)@.tail,
                    old(self)@.buffer + bytes@,
                );
                &&& packets@.map_values(|p: Vec<u8>| p@) == r.packets
                &&& final(self)@.buffer == r.rest
                &&& final(self)@.stats == (ParserStats {
                    packets: (old(self)@.stats.packets + r.packets.len()) as u64,
                    bad_frames: (old(self)@.stats.bad_frames + r.bad_frames) as u64,
                    discarded_bytes: (old(self)@.stats.discarded_bytes + r.discarded) as u64,
                    incomplete_tail_bytes: old(self)@.stats.incomplete_tail_bytes,
                })
            }),
            final(self)@.packet_len == old(self)@.packet_len,
            final(self)@.header == old(self)@.header,
            final(self)@.tail == old(self)@.tail,
            final(self)@ == old(self)@.pushed(bytes@),
            packets@.map_values(|p: Vec<u8>| p@) == old(self)@.emitted(bytes@),
            forall|i: int|
                0 <= i < packets@.len() ==> well_framed(
                    old(self)@.packet_len,
                    old(self)@.header,
                    old(self)@.tail,
                    #[trigger] packets@[i]@,
                ),
            old(self)@.buffer.len() + bytes@.len() == total_len(packets@.map_values(|p: Vec<u8>| p@))
                + (final(self)@.stats.discarded_bytes - old(self)@.stats.discarded_bytes)
                + final(self)@.buffer.len(),
    {
        let ghost st0 = self.stats;
        let ghost plen = self.packet_len as nat;
        let ghost hdr = self.header@;
        let ghost tl = self.tail@;
        let ghost total = self.buffer@ + bytes@;
        let ghost whole = scan(plen, hdr, tl, total);
        proof {
            lemma_scan_accounts(plen, hdr, tl, total);
            lemma_packet_count_bound(plen, hdr, tl, whole.packets);
        }
        crate::byte_codec::put_bytes(&mut self.buffer, bytes);
        let mut packets: Vec<Vec<u8>> = Vec::new();
        loop
            invariant
                self.packet_len as nat == plen,
                self.header@ == hdr,
                self.tail@ == tl,
                plen >= 1,
                tl.len() <= plen,
                whole == scan(plen, hdr, tl, total),
                total_len(whole.packets) + whole.discarded + whole.rest.len() == total.len(),
                whole.bad_frames <= whole.discarded,
                whole.packets.len() <= total.len(),
                st0.discarded_bytes + total.len() <= u64::MAX,
                st0.bad_frames + total.len() <= u64::MAX,
                st0.packets + total.len() <= u64::MAX,
                self.stats.packets == st0.packets + packets@.len(),
                self.stats.incomplete_tail_bytes == st0.incomplete_tail_bytes,
                self.stats.bad_frames >= st0.bad_frames,
                self.stats.discarded_bytes >= st0.discarded_bytes,
                ({
                    let s = scan(plen, hdr, tl, self.buffer@);
                    &&& whole.rest == s.rest
                    &&& whole.packets == packets@.map_values(|p: Vec<u8>| p@) + s.packets
                    &&& whole.bad_frames == (self.stats.bad_frames - st0.bad_frames) + s.bad_frames
                    &&& whole.discarded == (self.stats.discarded_bytes - st0.discarded_bytes)
                        + s.discarded
                }),
            ensures
                self.packet_len as nat == plen,
                self.header@ == hdr,
                self.tail@ == tl,
                whole.rest == self.buffer@,
                whole.packets == packets@.map_values(|p: Vec<u8>| p@),
                self.stats == (ParserStats {
                    packets: (st0.packets + whole.packets.len()) as u64,
                    bad_frames: (st0.bad_frames + whole.bad_frames) as u64,
                    discarded_bytes: (st0.discarded_bytes + whole.discarded) as u64,
                    incomplete_tail_bytes: st0.incomplete_tail_bytes,
                }),
            decreases self.buffer@.len(),
        {
            let ghost buf = self.buffer@;
            let ghost pv = packets@.map_values(|p: Vec<u8>| p@);
            proof {
                lemma_find_from_spec(buf, hdr, 0);
                lemma_scan_accounts(plen, hdr, tl, buf);
                lemma_total_len_append(pv, scan(plen, hdr, tl, buf).packets);
            }
            match find_subslice(&self.buffer, &self.header) {
                None => {
                    self.discard_without_header();
                    assert(pv + Seq::<Seq<u8>>::empty() =~= pv);
                    break ;
                },
                Some(header_pos) => {
                    let ghost framed = buf.skip(header_pos as int);
                    if header_pos > 0 {
                        let rest = self.buffer.split_off(header_pos);
                        self.buffer = rest;
                        self.stats.discarded_bytes = self.stats.discarded_bytes + header_pos as u64;
                    }
                    assert(self.buffer@ =~= framed);
                    proof {
                        assert(occurs_at(framed, hdr, 0)) by {
                            assert(framed.subrange(0, hdr.len() as int) =~= buf.subrange(
                                header_pos as int,
                                header_pos + hdr.len(),
                            ));
                        }
                    }
                    if self.buffer.len() < self.packet_len {
                        assert(pv + Seq::<Seq<u8>>::empty() =~= pv);
                        break ;
                    }
                    let tail_start = self.packet_len - self.tail.len();
                    if matches_at(&self.buffer, tail_start, &self.tail) {
                        let mut packet = self.buffer.split_off(self.packet_len);
                        std::mem::swap(&mut packet, &mut self.buffer);
                        self.stats.packets = self.stats.packets + 1;
                        packets.push(packet);
                        proof {
                            let r = scan(plen, hdr, tl, framed.skip(plen as int));
                            assert(packets@.map_values(|p: Vec<u8>| p@) =~= pv.push(
                                framed.take(plen as int),
                            ));
                            assert(pv.push(framed.take(plen as int)) + r.packets =~= pv + (seq![
                                framed.take(plen as int),
                            ] + r.packets));
                            assert(self.buffer@ =~= framed.skip(plen as int));
                        }
                    } else {
                        let rest = self.buffer.split_off(1);
                        self.buffer = rest;
                        self.stats.bad_frames = self.stats.bad_frames + 1;
                        self.stats.discarded_bytes = self.stats.discarded_bytes + 1;
                        assert(self.buffer@ =~= framed.skip(1));
                    }
                },
            }
        }
        proof {
            assert forall|i: int| 0 <= i < packets@.len() implies well_framed(
                plen,
                hdr,
                tl,
                #[trigger] packets@[i]@,
            ) by {
                assert(packets@.map_values(|p: Vec<u8>| p@)[i] == packets@[i]@);
            }
        }
        packets
    }

    /// The counters, with `incomplete_tail_bytes` set to the number of
    /// bytes left in the buffer when there are any.
    pub fn finish(self) -> (r: ParserStats)
        ensures
            r == self@.finished(),
    {
        let mut stats = self.stats;
        if self.buffer.len() > 0 {
            stats.incomplete_tail_bytes = self.buffer.len() as u64;
        }
        stats
    }

    /// The counters so far.
    pub fn stats(&self) -> (r: &ParserStats)
        ensures
            *r == self@.stats,
    {
        &self.stats
    }
}

/// A sequence of packets of at least one byte each has no more packets than bytes.
pub proof fn lemma_packet_count_bound(
    packet_len: nat,
    header: Seq<u8>,
    tail: Seq<u8>,
    packets: Seq<Seq<u8>>,
)
    requires
        packet_len >= 1,
        forall|i: int|
            0 <= i < packets.len() ==> well_framed(packet_len, header, tail, #[trigger] packets[i]),
    ensures
        packets.len() <= total_len(packets),
    decreases packets.len(),
{
    if packets.len() > 0 {
        let rest = packets.drop_first();
        assert forall|i: int| 0 <= i < rest.len() implies well_framed(
            packet_len,
            header,
            tail,
            #[trigger] rest[i],
        ) by {
            assert(rest[i] == packets[i + 1]);
        }
        assert(well_framed(packet_len, header, tail, packets[0]));
        lemma_packet_count_bound(packet_len, header, tail, rest);
    }
}

pub proof fn lemma_total_len_append(a: Seq<Seq<u8>>, b: Seq<Seq<u8>>)
    ensures
        total_len(a + b) == total_len(a) + total_len(b),
    decreases a.len(),
{
    if a.len() > 0 {
        assert((a + b).drop_first() =~= a.drop_first() + b);
        lemma_total_len_append(a.drop_first(), b);
    } else {
        assert(a + b =~= b);
    }
}

/// Feeding the parser a stream in two pieces hands out the same packets, in
/// the same order, and leaves the same state as feeding it all at once; after
/// the first piece there is room for the second.
pub proof fn lemma_push_in_pieces(s: PacketParserView, a: Seq<u8>, b: Seq<u8>)
    requires
        s.framing_ok(),
        s.has_room(a.len() + b.len()),
    ensures
        s.pushed(a).framing_ok(),
        s.pushed(a).has_room(b.len()),
        s.pushed(a).pushed(b) == s.pushed(a + b),
        s.emitted(a) + s.pushed(a).emitted(b) == s.emitted(a + b),
{
    let ba = s.buffer + a;
    let ra = scan(s.packet_len, s.header, s.tail, ba);
    let rb = scan(s.packet_len, s.header, s.tail, ra.rest + b);
    let r = scan(s.packet_len, s.header, s.tail, ba + b);
    lemma_scan_chunks(s.packet_len, s.header, s.tail, ba, b);
    assert(s.buffer + (a + b) =~= ba + b);
    lemma_scan_accounts(s.packet_len, s.header, s.tail, ba);
    lemma_scan_accounts(s.packet_len, s.header, s.tail, ba + b);
    lemma_packet_count_bound(s.packet_len, s.header, s.tail, ra.packets);
    lemma_packet_count_bound(s.packet_len, s.header, s.tail, r.packets);
    assert(s.pushed(a).buffer + b =~= ra.rest + b);
}

/// The chunks one after another.
pub open spec fn concat(chunks: Seq<Seq<u8>>) -> Seq<u8>
    decreases chunks.len(),
{
    if chunks.len() == 0 {
        Seq::empty()
    } else {
        concat(chunks.drop_last()) + chunks.last()
    }
}

/// Packets of one length take that length each.
proof fn lemma_total_len_uniform(packet_len: nat, header: Seq<u8>, tail: Seq<u8>, packets: Seq<Seq<u8>>)
    requires
        forall|i: int|
            0 <= i < packets.len() ==> well_framed(packet_len, header, tail, #[trigger] packets[i]),
    ensures
        total_len(packets) == packets.len() * packet_len,
    decreases packets.len(),
{
    if packets.len() > 0 {
        let rest = packets.drop_first();
        assert forall|i: int| 0 <= i < rest.len() implies well_framed(
            packet_len,
            header,
            tail,
            #[trigger] rest[i],
        ) by {
            assert(rest[i] == packets[i + 1]);
        }
        assert(well_framed(packet_len, header, tail, packets[0]));
        lemma_total_len_uniform(packet_len, header, tail, rest);
        assert(packets.len() * packet_len == packet_len + rest.len() * packet_len) by (nonlinear_arith)
            requires
                packets.len() == rest.len() + 1,
        ;
    }
}

/// Feeding the parser any sequence of chunks, each while there is room for
/// all of them: the state and the packets are those of feeding it all the
/// bytes at once; the packet count grows by the packets handed out; and
/// every byte of the buffer and of the chunks is in a packet, discarded, or
/// still in the buffer.
pub proof fn lemma_pushes_account(s: PacketParserView, chunks: Seq<Seq<u8>>)
    requires
        s.framing_ok(),
        s.has_room(concat(chunks).len()),
    ensures
        chunks.len() > 0 ==> s.pushed_all(chunks) == s.pushed(concat(chunks)),
        chunks.len() > 0 ==> s.emitted_all(chunks) == s.emitted(concat(chunks)),
        s.pushed_all(chunks).stats.packets == s.stats.packets + s.emitted_all(chunks).len(),
        s.pushed_all(chunks).stats.bad_frames >= s.stats.bad_frames,
        s.pushed_all(chunks).stats.discarded_bytes >= s.stats.discarded_bytes,
        s.buffer.len() + concat(chunks).len() == s.emitted_all(chunks).len() * s.packet_len
            + (s.pushed_all(chunks).stats.discarded_bytes - s.stats.discarded_bytes)
            + s.pushed_all(chunks).buffer.len(),
    decreases chunks.len(),
{
    if chunks.len() > 0 {
        let init = chunks.drop_last();
        if init.len() == 0 {
            assert(concat(init) =~= Seq::<u8>::empty());
            assert(concat(chunks) =~= chunks.last());
            assert(s.emitted_all(init) =~= Seq::<Seq<u8>>::empty());
            assert(s.emitted_all(chunks) =~= s.emitted(chunks.last()));
        } else {
            lemma_pushes_account(s, init);
            lemma_push_in_pieces(s, concat(init), chunks.last());
            assert(concat(init) + chunks.last() == concat(chunks));
        }
        let r = s.scanned(concat(chunks));
        lemma_scan_accounts(s.packet_len, s.header, s.tail, s.buffer + concat(chunks));
        lemma_packet_count_bound(s.packet_len, s.header, s.tail, r.packets);
        lemma_total_len_uniform(s.packet_len, s.header, s.tail, r.packets);
    }
}

/// A parser fed any sequence of chunks from new, then finished: every byte
/// fed is in a packet, discarded, or reported as the incomplete tail; the
/// packet count is the number of packets handed out; and finishing leaves
/// the other counters as they were.
pub proof fn lemma_fresh_parser_accounts(
    packet_len: nat,
    header: Seq<u8>,
    tail: Seq<u8>,
    chunks: Seq<Seq<u8>>,
)
    requires
        packet_len >= 1,
        tail.len() <= packet_len,
        concat(chunks).len() <= usize::MAX,
        concat(chunks).len() <= u64::MAX,
    ensures
        ({
            let s = PacketParserView {
                packet_len,
                header,
                tail,
                buffer: Seq::empty(),
                stats: ParserStats::zero(),
            };
            let f = s.pushed_all(chunks);
            let st = f.finished();
            &&& st.packets == s.emitted_all(chunks).len()
            &&& concat(chunks).len() == st.packets * packet_len + st.discarded_bytes
                + st.incomplete_tail_bytes
            &&& st.packets == f.stats.packets
            &&& st.bad_frames == f.stats.bad_frames
            &&& st.discarded_bytes == f.stats.discarded_bytes
        }),
{
    let s = PacketParserView {
        packet_len,
        header,
        tail,
        buffer: Seq::empty(),
        stats: ParserStats::zero(),
    };
    lemma_pushes_account(s, chunks);
}

/// A header at the very front is the first occurrence.
proof fn lemma_header_at_front(buf: Seq<u8>, header: Seq<u8>)
    requires
        occurs_at(buf, header, 0),
    ensures
        first_occurrence(buf, header) == Some(0nat),
        buf.skip(0) == buf,
{
    assert(buf.skip(0) =~= buf);
}

/// A bad frame (a header at the front and a whole packet's bytes, but not
/// the tail at its end) costs exactly one byte: the parser drops the first
/// byte, counts one bad frame and one discarded byte, and goes on from the
/// next byte, so a packet that starts inside the bad frame is still found.
pub proof fn lemma_bad_frame_drops_one_byte(packet_len: nat, header: Seq<u8>, tail: Seq<u8>, buf: Seq<u8>)
    requires
        packet_len >= 1,
        tail.len() <= packet_len,
        occurs_at(buf, header, 0),
        buf.len() >= packet_len,
        buf.subrange(packet_len - tail.len(), packet_len as int) != tail,
    ensures
        ({
            let r = scan(packet_len, header, tail, buf);
            let s = scan(packet_len, header, tail, buf.skip(1));
            &&& r.packets == s.packets
            &&& r.rest == s.rest
            &&& r.bad_frames == s.bad_frames + 1
            &&& r.discarded == s.discarded + 1
        }),
{
    lemma_header_at_front(buf, header);
}

/// A good frame (a header at the front, a whole packet's bytes, the tail at
/// its end) is handed out as the first packet, and the parser goes on right
/// after it.
pub proof fn lemma_good_frame_emitted(packet_len: nat, header: Seq<u8>, tail: Seq<u8>, buf: Seq<u8>)
    requires
        packet_len >= 1,
        tail.len() <= packet_len,
        occurs_at(buf, header, 0),
        buf.len() >= packet_len,
        buf.subrange(packet_len - tail.len(), packet_len as int) == tail,
    ensures
        ({
            let r = scan(packet_len, header, tail, buf);
            let s = scan(packet_len, header, tail, buf.skip(packet_len as int));
            &&& r.packets == seq![buf.take(packet_len as int)] + s.packets
            &&& r.rest == s.rest
            &&& r.bad_frames == s.bad_frames
            &&& r.discarded == s.discarded
        }),
{
    lemma_header_at_front(buf, header);
}

/// Bytes before the first header are discarded and change nothing else:
/// dropping `d` leading bytes that start no header, while at least
/// `header.len() - 1` bytes stay, gives the same packets, kept bytes and bad
/// frames, with `d` fewer discarded bytes.
pub proof fn lemma_noise_discarded(packet_len: nat, header: Seq<u8>, tail: Seq<u8>, buf: Seq<u8>, d: nat)
    requires
        d <= buf.len(),
        d + header.len() <= buf.len() + 1,
        forall|j: int| 0 <= j < d ==> !(#[trigger] buf.subrange(j, j + header.len()) == header),
    ensures
        ({
            let r = scan(packet_len, header, tail, buf);
            let s = scan(packet_len, header, tail, buf.skip(d as int));
            &&& r.packets == s.packets
            &&& r.rest == s.rest
            &&& r.bad_frames == s.bad_frames
            &&& r.discarded == s.discarded + d
        }),
{
    assert forall|j: int| 0 <= j < d implies !occurs_at(buf, header, j) by {
        assert(!(buf.subrange(j, j + header.len()) == header));
    }
    lemma_scan_skip(packet_len, header, tail, buf, d);
}

} // verus!
