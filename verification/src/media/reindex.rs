//! A new index for the packets of a file.
use crate::bytes;
use crate::bytes::put_slice;
use crate::container::v1::parser::has_magic;
use crate::container::v1::syntax;
use crate::container::v1::wire;
use crate::container::v1::{
    build_file, decode_packet, ContainerError, Front, Packet, PacketKind, DEFAULT_MAX_PACKET,
};
use crate::media::MediaError;
use crate::mux::assemble::file_fits;
use crate::reference;
use vstd::prelude::*;

verus! {

/// The next position from `p` on where a packet may start, or where too little is left for one.
pub open spec fn resync(b: Seq<u8>, p: int) -> int
    decreases b.len() - p,
{
    if 0 <= p && p + 4 <= b.len() && b.subrange(p, p + 4) != syntax::packet_magic() {
        resync(b, p + 1)
    } else {
        p
    }
}

/// What has been gathered: whole epochs, the epoch that is being filled, and what packets were
/// skipped for.
#[verifier::ext_equal]
pub struct Gathering {
    pub groups: Seq<syntax::EpochRange>,
    pub current: Option<syntax::EpochRange>,
    pub skipped: Seq<ContainerError>,
}

impl Gathering {
    /// The epochs, with the one that was being filled.
    pub open spec fn closed(self) -> Seq<syntax::EpochRange> {
        match self.current {
            Some(range) => self.groups.push(range),
            None => self.groups,
        }
    }

    /// With a packet and its bytes. A start packet begins an epoch; a packet before any begins one
    /// without a duration.
    pub open spec fn with(self, p: syntax::PacketModel, data: Seq<u8>) -> Gathering {
        let groups = if p.kind == PacketKind::EpochStart {
            self.closed()
        } else {
            self.groups
        };
        let range = if p.kind == PacketKind::EpochStart {
            syntax::EpochRange {
                id: if p.payload.len() >= 4 {
                    bytes::le_value(p.payload.take(4)) as u32
                } else {
                    (groups.len() % 0x1_0000_0000) as u32
                },
                pts: p.pts,
                duration: p.duration,
                bytes: Seq::empty(),
            }
        } else {
            match self.current {
                Some(range) => range,
                None => syntax::EpochRange {
                    id: (groups.len() % 0x1_0000_0000) as u32,
                    pts: p.pts,
                    duration: 0,
                    bytes: Seq::empty(),
                },
            }
        };
        Gathering {
            groups,
            current: Some(syntax::EpochRange { bytes: range.bytes + data, ..range }),
            skipped: self.skipped,
        }
    }
}

/// What is gathered from `p` on. Where a packet is refused, repair goes on at the next place where
/// one may start.
pub open spec fn gathered(b: Seq<u8>, repair: bool, p: int, state: Gathering) -> Result<
    Gathering,
    MediaError,
>
    decreases b.len() - p,
    when 0 <= p
    via gathered_decreases
{
    if p >= b.len() {
        Ok(state)
    } else {
        match syntax::decoded_packet(b.skip(p), 134_217_728) {
            Ok((packet, n)) => gathered(
                b,
                repair,
                p + n,
                state.with(packet, b.subrange(p, p + n)),
            ),
            Err(e) => if repair {
                gathered(
                    b,
                    repair,
                    resync(b, p + 1),
                    Gathering { skipped: state.skipped.push(e), ..state },
                )
            } else {
                Err(MediaError::PacketAt(p as usize, e))
            },
        }
    }
}

#[via_fn]
proof fn gathered_decreases(b: Seq<u8>, repair: bool, p: int, state: Gathering) {
    if p < b.len() {
        syntax::lemma_packet_size(b.skip(p), 134_217_728);
        lemma_resync(b, p + 1);
    }
}

proof fn lemma_resync(b: Seq<u8>, p: int)
    requires
        0 <= p <= b.len(),
    ensures
        p <= resync(b, p) <= b.len(),
    decreases b.len() - p,
{
    if p + 4 <= b.len() && b.subrange(p, p + 4) != syntax::packet_magic() {
        lemma_resync(b, p + 1);
    }
}

/// Nothing gathered.
pub open spec fn nothing() -> Gathering {
    Gathering { groups: Seq::empty(), current: None, skipped: Seq::empty() }
}

/// The file with its index made anew, and what packets were skipped for; or why there is none.
pub open spec fn reindexed(b: Seq<u8>, repair: bool) -> Result<
    (Seq<u8>, Seq<ContainerError>),
    MediaError,
> {
    match reference::container::decoded_prefix(b) {
        Err(e) => Err(MediaError::Prefix(e)),
        Ok((h, front, n)) => match gathered(b, repair, n, nothing()) {
            Err(e) => Err(e),
            Ok(found) => if found.closed().len() == 0 {
                Err(MediaError::NothingRecovered)
            } else if syntax::file_len(front.streams, found.closed()) > usize::MAX {
                Err(MediaError::OutputLength)
            } else {
                Ok((syntax::file_bytes(front.streams, found.closed()), found.skipped))
            },
        },
    }
}

/// A file with a new index.
#[derive(Debug)]
pub struct Reindexed {
    pub file: Vec<u8>,
    /// What packets were skipped for, one entry for each place.
    pub skipped: Vec<ContainerError>,
}

/// Finds the next position where a packet may start.
fn find_packet(b: &[u8], from: usize) -> (r: usize)
    requires
        from <= b@.len(),
    ensures
        r == resync(b@, from as int),
        from <= r <= b@.len(),
{
    proof {
        lemma_resync(b@, from as int);
    }
    let mut p: usize = from;
    while b.len() - p >= 4
        invariant_except_break
            from <= p <= b@.len(),
            resync(b@, from as int) == resync(b@, p as int),
        ensures
            p == resync(b@, from as int),
        decreases b@.len() - p,
    {
        let rest: &[u8] = &b[p..b.len()];
        assert(rest@.take(4) =~= b@.subrange(p as int, p + 4));
        if has_magic(rest) {
            break;
        }
        p = p + 1;
    }
    p
}

/// The epoch that is being filled.
pub struct Filling {
    pub groups: Vec<(u32, u64, u32, Vec<u8>)>,
    pub current: Option<(u32, u64, u32, Vec<u8>)>,
    pub skipped: Vec<ContainerError>,
}

pub open spec fn range_of(r: (u32, u64, u32, Vec<u8>)) -> syntax::EpochRange {
    syntax::EpochRange { id: r.0, pts: r.1, duration: r.2, bytes: r.3@ }
}

impl Filling {
    pub open spec fn model(&self) -> Gathering {
        Gathering {
            groups: wire::ranges(self.groups@),
            current: match self.current {
                Some(r) => Some(range_of(r)),
                None => None,
            },
            skipped: self.skipped@,
        }
    }

    /// Ends the epoch that is being filled.
    fn close(&mut self)
        ensures
            final(self).model() == (Gathering {
                groups: old(self).model().closed(),
                current: None,
                skipped: old(self).model().skipped,
            }),
    {
        let ghost before = self.model();
        let mut current: Option<(u32, u64, u32, Vec<u8>)> = None;
        std::mem::swap(&mut current, &mut self.current);
        match current {
            Some(range) => {
                let ghost r = range_of(range);
                self.groups.push(range);
                assert(wire::ranges(self.groups@) =~= before.groups.push(r));
            },
            None => {},
        }
    }

    /// Takes a packet and its bytes.
    fn take(&mut self, packet: &Packet, data: &[u8])
        ensures
            final(self).model() == old(self).model().with(packet.model(), data@),
    {
        let ghost before = self.model();
        if packet.kind == PacketKind::EpochStart {
            self.close();
            let id: u32 = if packet.payload.len() >= 4 {
                assert(packet.payload@.subrange(0, 4) =~= packet.payload@.take(4));
                bytes::get_u32_le(packet.payload.as_slice(), 0)
            } else {
                (self.groups.len() as u64 % 0x1_0000_0000) as u32
            };
            self.current = Some((id, packet.pts, packet.duration, Vec::new()));
        }
        let mut current: Option<(u32, u64, u32, Vec<u8>)> = None;
        std::mem::swap(&mut current, &mut self.current);
        let mut range: (u32, u64, u32, Vec<u8>) = match current {
            Some(range) => range,
            None => (
                (self.groups.len() as u64 % 0x1_0000_0000) as u32,
                packet.pts,
                0,
                Vec::new(),
            ),
        };
        put_slice(data, &mut range.3);
        self.current = Some(range);
        assert(self.model() =~= before.with(packet.model(), data@));
    }
}

/// Makes the index of a file anew from its packets; repair skips what is damaged.
pub fn reindex_bytes(b: &[u8], repair: bool) -> (r: Result<Reindexed, MediaError>)
    ensures
        match r {
            Ok(made) => reindexed(b@, repair) == Ok::<(Seq<u8>, Seq<ContainerError>), MediaError>(
                (made.file@, made.skipped@),
            ),
            Err(e) => reindexed(b@, repair) == Err::<(Seq<u8>, Seq<ContainerError>), MediaError>(e),
        },
{
    let (front, prefix): (Front, usize) = match reference::container::parse_file_prefix(b) {
        Ok((_, front, n)) => (front, n),
        Err(e) => {
            return Err(MediaError::Prefix(e));
        },
    };
    let mut filling: Filling = match gather(b, prefix, repair) {
        Ok(filling) => filling,
        Err(e) => {
            return Err(e);
        },
    };
    filling.close();
    if filling.groups.len() == 0 {
        return Err(MediaError::NothingRecovered);
    }
    if !file_fits(&front.streams, &filling.groups) {
        return Err(MediaError::OutputLength);
    }
    Ok(
        Reindexed {
            file: build_file(front.streams, filling.groups),
            skipped: filling.skipped,
        },
    )
}

/// Gathers the packets from `prefix` on.
fn gather(b: &[u8], prefix: usize, repair: bool) -> (r: Result<Filling, MediaError>)
    requires
        prefix <= b@.len(),
    ensures
        match r {
            Ok(filling) => gathered(b@, repair, prefix as int, nothing()) == Ok::<
                Gathering,
                MediaError,
            >(filling.model()),
            Err(e) => gathered(b@, repair, prefix as int, nothing()) == Err::<Gathering, MediaError>(
                e,
            ),
        },
{
    let mut filling: Filling = Filling {
        groups: Vec::new(),
        current: None,
        skipped: Vec::new(),
    };
    let mut p: usize = prefix;
    assert(filling.model() =~= nothing());
    while p < b.len()
        invariant
            prefix <= p <= b@.len(),
            gathered(b@, repair, prefix as int, nothing()) == gathered(
                b@,
                repair,
                p as int,
                filling.model(),
            ),
        decreases b@.len() - p,
    {
        proof {
            assert(b@.subrange(p as int, b@.len() as int) =~= b@.skip(p as int));
            syntax::lemma_packet_size(b@.skip(p as int), 134_217_728);
        }
        match decode_packet(&b[p..b.len()], DEFAULT_MAX_PACKET) {
            Ok((packet, n)) => {
                filling.take(&packet, &b[p..p + n]);
                p = p + n;
            },
            Err(e) => {
                if !repair {
                    return Err(MediaError::PacketAt(p, e));
                }
                let ghost before = filling.model();
                filling.skipped.push(e);
                assert(filling.model() =~= (Gathering { skipped: before.skipped.push(e), ..before }));
                p = find_packet(b, p + 1);
            },
        }
    }
    Ok(filling)
}

// ---------------------------------------------------------------------------------------------
// Laws

/// The first packet of the epoch says when the epoch starts and how long it lasts, as its entry
/// in the index does.
pub open spec fn self_described(range: syntax::EpochRange) -> bool {
    match syntax::decoded_packet(range.bytes, 134_217_728) {
        Ok((p, n)) => p.pts == range.pts && p.duration == range.duration,
        Err(_) => false,
    }
}

proof fn lemma_gather_inner(
    b: Seq<u8>,
    repair: bool,
    p: int,
    range: syntax::EpochRange,
    pos: int,
    state: Gathering,
)
    requires
        0 <= p,
        p + range.bytes.len() <= b.len(),
        b.subrange(p, p + range.bytes.len()) == range.bytes,
        0 < pos <= range.bytes.len(),
        syntax::range_error(range.bytes, range.id, pos) is None,
        state.current == Some(syntax::EpochRange { bytes: range.bytes.take(pos), ..range }),
    ensures
        gathered(b, repair, p + pos, state) == gathered(
            b,
            repair,
            p + range.bytes.len(),
            Gathering { current: Some(range), ..state },
        ),
    decreases range.bytes.len() - pos,
{
    if pos < range.bytes.len() {
        let own = range.bytes.skip(pos);
        let (packet, n) = syntax::decoded_packet(own, 134_217_728)->Ok_0;
        syntax::lemma_packet_size(own, 134_217_728);
        syntax::law_packet_prefix(own, b.skip(p + range.bytes.len()), 134_217_728);
        assert(b.skip(p + pos) =~= own + b.skip(p + range.bytes.len())) by {
            assert forall|i: int| 0 <= i < own.len() implies b.skip(p + pos)[i] == own[i] by {
                assert(b.subrange(p, p + range.bytes.len())[pos + i] == range.bytes[pos + i]);
            }
        }
        let data = b.subrange(p + pos, p + pos + n);
        assert(range.bytes.take(pos) + data =~= range.bytes.take(pos + n)) by {
            assert forall|i: int| 0 <= i < n implies data[i] == range.bytes[pos + i] by {
                assert(b.subrange(p, p + range.bytes.len())[pos + i] == range.bytes[pos + i]);
            }
        }
        let next = state.with(packet, data);
        assert(next.current == Some(
            syntax::EpochRange { bytes: range.bytes.take(pos + n), ..range },
        ));
        lemma_gather_inner(b, repair, p, range, pos + n, next);
        assert(next =~= (Gathering { current: next.current, ..state }));
    } else {
        assert(range.bytes.take(pos) =~= range.bytes);
        assert(state =~= (Gathering { current: Some(range), ..state }));
    }
}

/// The packets of a valid epoch make that epoch.
proof fn lemma_gather_epoch(
    b: Seq<u8>,
    repair: bool,
    p: int,
    range: syntax::EpochRange,
    state: Gathering,
)
    requires
        0 <= p,
        p + range.bytes.len() <= b.len(),
        b.subrange(p, p + range.bytes.len()) == range.bytes,
        range.bytes.len() > 0,
        syntax::range_error(range.bytes, range.id, 0) is None,
        self_described(range),
    ensures
        gathered(b, repair, p, state) == gathered(
            b,
            repair,
            p + range.bytes.len(),
            Gathering {
                groups: state.closed(),
                current: Some(range),
                skipped: state.skipped,
            },
        ),
{
    let own = range.bytes;
    assert(own.skip(0) =~= own);
    let (packet, n) = syntax::decoded_packet(own, 134_217_728)->Ok_0;
    syntax::lemma_packet_size(own, 134_217_728);
    syntax::law_packet_prefix(own, b.skip(p + own.len()), 134_217_728);
    assert(b.skip(p) =~= own + b.skip(p + own.len())) by {
        assert forall|i: int| 0 <= i < own.len() implies b.skip(p)[i] == own[i] by {
            assert(b.subrange(p, p + own.len())[i] == own[i]);
        }
    }
    let data = b.subrange(p, p + n);
    assert(Seq::<u8>::empty() + data =~= own.take(n)) by {
        assert forall|i: int| 0 <= i < n implies data[i] == own[i] by {
            assert(b.subrange(p, p + own.len())[i] == own[i]);
        }
    }
    assert(packet.payload.take(4) =~= packet.payload);
    let next = state.with(packet, data);
    lemma_gather_inner(b, repair, p, range, n, next);
    assert(next.groups == state.closed());
}

proof fn lemma_gather_all(
    b: Seq<u8>,
    repair: bool,
    n: int,
    epochs: Seq<syntax::EpochRange>,
    k: int,
    state: Gathering,
)
    requires
        0 <= n <= b.len(),
        b.skip(n) == syntax::payload_before(epochs, epochs.len() as int),
        0 <= k <= epochs.len(),
        syntax::ranges_error(epochs, 0) is None,
        forall|i: int| 0 <= i < epochs.len() ==> self_described(#[trigger] epochs[i]),
        state.closed() == epochs.take(k),
        state.skipped == Seq::<ContainerError>::empty(),
    ensures
        gathered(b, repair, n + syntax::payload_before(epochs, k).len(), state) matches Ok(found)
            && found.closed() == epochs && found.skipped == Seq::<ContainerError>::empty(),
    decreases epochs.len() - k,
{
    let before = syntax::payload_before(epochs, k);
    if k < epochs.len() {
        let range = epochs[k];
        syntax::lemma_ranges_from(epochs, 0, k);
        syntax::lemma_payload_before(epochs, k + 1, epochs.len() as int);
        let after = syntax::payload_before(epochs, k + 1);
        assert(after == before + range.bytes);
        let p = n + before.len();
        assert(b.subrange(p, p + range.bytes.len()) =~= range.bytes) by {
            assert forall|i: int| 0 <= i < range.bytes.len() implies b.subrange(
                p,
                p + range.bytes.len(),
            )[i] == range.bytes[i] by {
                assert(b.skip(n)[before.len() + i] == after[before.len() + i]);
            }
        }
        assert(self_described(range));
        lemma_gather_epoch(b, repair, p, range, state);
        let next = Gathering {
            groups: state.closed(),
            current: Some(range),
            skipped: state.skipped,
        };
        assert(next.closed() =~= epochs.take(k + 1));
        lemma_gather_all(b, repair, n, epochs, k + 1, next);
    } else {
        assert(epochs.take(k) =~= epochs);
        assert(n + before.len() == b.len());
    }
}

/// Whatever its index says, a file whose packets are those of valid epochs gets the index of these
/// epochs; nothing is skipped.
pub proof fn law_reindex(b: Seq<u8>, repair: bool, epochs: Seq<syntax::EpochRange>)
    requires
        reference::container::decoded_prefix(b) is Ok,
        ({
            let (h, front, n) = reference::container::decoded_prefix(b)->Ok_0;
            &&& b.skip(n) == syntax::payload_before(epochs, epochs.len() as int)
            &&& syntax::file_len(front.streams, epochs) <= usize::MAX
        }),
        epochs.len() > 0,
        syntax::ranges_error(epochs, 0) is None,
        forall|i: int| 0 <= i < epochs.len() ==> self_described(#[trigger] epochs[i]),
    ensures
        ({
            let (h, front, n) = reference::container::decoded_prefix(b)->Ok_0;
            reindexed(b, repair) == Ok::<(Seq<u8>, Seq<ContainerError>), MediaError>(
                (syntax::file_bytes(front.streams, epochs), Seq::empty()),
            )
        }),
{
    let (h, front, n) = reference::container::decoded_prefix(b)->Ok_0;
    assert(nothing().closed() =~= epochs.take(0));
    assert(syntax::payload_before(epochs, 0).len() == 0);
    lemma_gather_all(b, repair, n, epochs, 0, nothing());
}

/// Repair refuses no packet.
pub proof fn law_repair_goes_on(b: Seq<u8>, p: int, state: Gathering)
    requires
        0 <= p,
    ensures
        gathered(b, true, p, state) is Ok,
    decreases b.len() - p,
{
    if p < b.len() {
        syntax::lemma_packet_size(b.skip(p), 134_217_728);
        lemma_resync(b, p + 1);
        match syntax::decoded_packet(b.skip(p), 134_217_728) {
            Ok((packet, n)) => {
                law_repair_goes_on(b, p + n, state.with(packet, b.subrange(p, p + n)));
            },
            Err(e) => {
                law_repair_goes_on(
                    b,
                    resync(b, p + 1),
                    Gathering { skipped: state.skipped.push(e), ..state },
                );
            },
        }
    }
}

} // verus!
