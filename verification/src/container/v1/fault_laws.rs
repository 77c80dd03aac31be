//! Why headers, front indexes and packets are refused; and that nothing else is.
use crate::bytes;
use crate::container::v1::flow::Flow;
use crate::container::v1::layout_laws;
use crate::container::v1::syntax;
use crate::container::v1::{ContainerError, FileHeader, PacketKind, StreamDesc, StreamKind};
use crate::kernels::scalar;
use vstd::prelude::*;

verus! {

proof fn lemma_letters(b: Seq<u8>, s: Seq<u8>)
    requires
        s.len() <= b.len(),
    ensures
        b.take(s.len() as int) == s <==> forall|i: int| 0 <= i < s.len() ==> #[trigger] b[i] == s[i],
{
    let t = b.take(s.len() as int);
    if forall|i: int| 0 <= i < s.len() ==> #[trigger] b[i] == s[i] {
        assert(t =~= s);
    } else {
        let i = choose|i: int| 0 <= i < s.len() && #[trigger] b[i] != s[i];
        assert(t[i] == b[i]);
    }
}

/// The faults of a packet, in the order in which they are looked for.
pub proof fn law_packet_faults(b: Seq<u8>, max: int)
    requires
        b.len() <= usize::MAX - 32,
        0 <= max <= usize::MAX - 32,
    ensures
        ({
            let told = syntax::decoded_packet(b, max);
            let n = layout_laws::four(b, 20);
            let long = b.len() >= 28;
            let starts = long && b[0] == 65 && b[1] == 86 && b[2] == 80 && b[3] == 75;
            let headed = starts && scalar::crc_of(b.take(24)) == layout_laws::four(b, 24);
            let flagged = headed && b[5] == 0;
            let small = flagged && n <= max;
            let complete = small && b.len() >= 32 + n;
            let sound = complete && scalar::crc_of(b.subrange(28, 28 + n)) == layout_laws::four(b, 28 + n);
            &&& !long || small && !complete ==> told == Err::<
                (syntax::PacketModel, int),
                ContainerError,
            >(ContainerError::UnexpectedEof)
            &&& long && !starts ==> told == Err::<(syntax::PacketModel, int), ContainerError>(
                ContainerError::BadMagic,
            )
            &&& starts && !headed ==> told == Err::<(syntax::PacketModel, int), ContainerError>(
                ContainerError::PacketHeaderChecksum,
            )
            &&& headed && !flagged ==> told == Err::<(syntax::PacketModel, int), ContainerError>(
                ContainerError::BadHeader,
            )
            &&& flagged && !small ==> told == Err::<(syntax::PacketModel, int), ContainerError>(
                ContainerError::PacketTooLarge(n as u32),
            )
            &&& complete && !sound ==> told == Err::<(syntax::PacketModel, int), ContainerError>(
                ContainerError::PayloadChecksum,
            )
            &&& sound && !(1 <= b[4] <= 4) ==> told == Err::<
                (syntax::PacketModel, int),
                ContainerError,
            >(ContainerError::UnknownPacketKind(b[4]))
            &&& sound && 1 <= b[4] <= 4 ==> told is Ok && told->Ok_0.1 == 32 + n
        }),
{
    if b.len() >= 28 {
        lemma_letters(b, syntax::packet_magic());
        layout_laws::law_numbers(b, 20);
        layout_laws::law_numbers(b, 24);
        layout_laws::law_numbers(b, 28 + layout_laws::four(b, 20));
        let m = syntax::packet_magic();
        assert(m[0] == 65 && m[1] == 86 && m[2] == 80 && m[3] == 75 && m.len() == 4);
    }
}

/// The faults of a file header, in the order in which they are looked for.
pub proof fn law_header_faults(b: Seq<u8>)
    ensures
        ({
            let told = syntax::decoded_header(b);
            let long = b.len() >= 32;
            let starts = long && b[0] == 65 && b[1] == 86 && b[2] == 69 && b[3] == 76 && b[4] == 85
                && b[5] == 78 && b[6] == 69 && b[7] == 0;
            let known = starts && layout_laws::two(b, 8) == 1;
            let shaped = known && layout_laws::two(b, 10) == 0 && layout_laws::four(b, 12) <= 1
                && layout_laws::four(b, 16) == 32 && layout_laws::two(b, 22) == 0;
            let sound = shaped && scalar::crc_of(b.take(28)) == layout_laws::four(b, 28);
            &&& !long ==> told == Err::<FileHeader, ContainerError>(ContainerError::UnexpectedEof)
            &&& long && !starts ==> told == Err::<FileHeader, ContainerError>(ContainerError::BadMagic)
            &&& starts && !known ==> told == Err::<FileHeader, ContainerError>(
                ContainerError::UnsupportedVersion(layout_laws::two(b, 8) as u16),
            )
            &&& known && !shaped ==> told == Err::<FileHeader, ContainerError>(ContainerError::BadHeader)
            &&& shaped && !sound ==> told == Err::<FileHeader, ContainerError>(
                ContainerError::HeaderChecksum,
            )
            &&& sound ==> told is Ok
        }),
{
    if b.len() >= 32 {
        lemma_letters(b, syntax::file_magic());
        layout_laws::law_numbers(b, 8);
        layout_laws::law_numbers(b, 10);
        layout_laws::law_numbers(b, 12);
        layout_laws::law_numbers(b, 16);
        layout_laws::law_numbers(b, 22);
        layout_laws::law_numbers(b, 28);
        let m = syntax::file_magic();
        assert(m.len() == 8 && m[0] == 65 && m[1] == 86 && m[2] == 69 && m[3] == 76 && m[4] == 85 && m[5]
            == 78 && m[6] == 69 && m[7] == 0);
    }
}

/// A stream can be declared if its codec is another than 1, or it is video with known metadata, or
/// audio without flags and metadata.
pub open spec fn declared(s: StreamDesc) -> bool {
    ||| s.codec != 1
    ||| s.kind == StreamKind::Video && crate::mux::setting_laws::known(s.meta0 as int)
    ||| s.kind == StreamKind::Audio && s.flags == 0 && s.meta0 == 0
}

/// The faults of a front index, in the order in which they are looked for.
pub proof fn law_front_faults(b: Seq<u8>, expected: int)
    requires
        b.len() <= usize::MAX,
    ensures
        ({
            let told = syntax::decoded_front(b, expected);
            let (n, m) = (layout_laws::two(b, 6), layout_laws::four(b, 8));
            let need = 16 + 24 * n + 32 * m;
            let streams = syntax::streams_at(b, 12, n);
            let epochs = syntax::epochs_at(b, 12 + 24 * n, m);
            let long = b.len() >= 16;
            let starts = long && b[0] == 65 && b[1] == 86 && b[2] == 70 && b[3] == 82
                && layout_laws::two(b, 4) == 1 && n == expected && need <= usize::MAX;
            let sound = starts && b.len() == need && scalar::crc_of(b.take(need - 4))
                == layout_laws::four(b, need - 4);
            let stands = sound && (forall|i: int|
                0 <= i < n ==> 1 <= #[trigger] b[12 + 24 * i + 2] <= 2) && (forall|i: int|
                0 <= i < n ==> declared(#[trigger] streams[i])) && (forall|i: int|
                0 <= i < m ==> (#[trigger] epochs[i]).offset + epochs[i].len < 18446744073709551616)
                && (forall|i: int, j: int|
                0 <= i < j < n ==> (#[trigger] streams[i]).id != (#[trigger] streams[j]).id) && (forall|
                i: int,
                j: int,
            |
                0 <= i < j < m ==> (#[trigger] epochs[i]).id != (#[trigger] epochs[j]).id);
            &&& !long || starts && b.len() < need ==> told == Err::<syntax::FrontModel, ContainerError>(
                ContainerError::UnexpectedEof,
            )
            &&& long && !starts ==> told == Err::<syntax::FrontModel, ContainerError>(
                ContainerError::BadFront,
            )
            &&& starts && b.len() > need ==> told == Err::<syntax::FrontModel, ContainerError>(
                ContainerError::TrailingData,
            )
            &&& starts && b.len() == need && !sound ==> told == Err::<syntax::FrontModel, ContainerError>(
                ContainerError::FrontChecksum,
            )
            &&& sound && !stands ==> told == Err::<syntax::FrontModel, ContainerError>(
                ContainerError::BadFront,
            )
            &&& stands ==> told == Ok::<syntax::FrontModel, ContainerError>(
                syntax::FrontModel { streams, epochs },
            )
        }),
{
    if b.len() >= 16 {
        let (n, m) = (layout_laws::two(b, 6), layout_laws::four(b, 8));
        let need = 16 + 24 * n + 32 * m;
        lemma_letters(b, syntax::front_magic());
        let letters = syntax::front_magic();
        assert(letters.len() == 4 && letters[0] == 65 && letters[1] == 86 && letters[2] == 70
            && letters[3] == 82);
        layout_laws::law_numbers(b, 4);
        layout_laws::law_numbers(b, 6);
        layout_laws::law_numbers(b, 8);
        layout_laws::law_numbers(b, need - 4);
        let streams = syntax::streams_at(b, 12, n);
        assert forall|i: int| 0 <= i < n implies (declared(#[trigger] streams[i]) <==> syntax::stream_ok(
            streams[i],
        )) by {
            crate::mux::setting_laws::law_known(streams[i].meta0);
        }
    }
}

/// The packets of an epoch: the first starts it with its number in four bytes, no other starts one, and
/// all of them are whole.
pub proof fn law_range_taken(
    b: Seq<u8>,
    id: u32,
    pos: int,
    p: syntax::PacketModel,
    n: int,
)
    requires
        0 <= pos < b.len(),
        n > 0,
        syntax::decoded_packet(b.skip(pos), 134_217_728) == Ok::<
            (syntax::PacketModel, int),
            ContainerError,
        >((p, n)),
    ensures
        ({
            let starts = p.kind == PacketKind::EpochStart && p.payload.len() == 4 && p.payload[0] + 256
                * p.payload[1] + 65536 * p.payload[2] + 16777216 * p.payload[3] == id;
            syntax::range_error(b, id, pos) == if pos == 0 && !starts || pos > 0 && p.kind
                == PacketKind::EpochStart {
                Some(ContainerError::BadEpoch)
            } else {
                syntax::range_error(b, id, pos + n)
            }
        }),
{
    if p.payload.len() == 4 {
        bytes::lemma_le_value_4(p.payload);
    }
}

/// An epoch with a packet that is refused is refused for the same reason, and one without packets is
/// refused; no two epochs of a file have the same number.
pub proof fn law_epochs_taken(epochs: Seq<syntax::EpochRange>, k: int)
    requires
        0 <= k,
    ensures
        syntax::ranges_error(epochs, k) is None <==> forall|i: int|
            k <= i < epochs.len() ==> {
                let e = #[trigger] epochs[i];
                e.bytes.len() > 0 && syntax::range_error(e.bytes, e.id, 0) is None && forall|j: int|
                    0 <= j < i ==> (#[trigger] epochs[j]).id != e.id
            },
    decreases epochs.len() - k,
{
    if k < epochs.len() {
        law_epochs_taken(epochs, k + 1);
        let e = epochs[k];
        if syntax::epoch_seen(epochs, k, e.id) {
            let j = choose|j: int| 0 <= j < k && #[trigger] epochs[j].id == e.id;
            assert(epochs[j].id == e.id);
        }
        if syntax::ranges_error(epochs, k) is None {
            assert forall|i: int| k <= i < epochs.len() implies {
                let e = #[trigger] epochs[i];
                e.bytes.len() > 0 && syntax::range_error(e.bytes, e.id, 0) is None && forall|j: int|
                    0 <= j < i ==> (#[trigger] epochs[j]).id != e.id
            } by {
                if i == k {
                    assert forall|j: int| 0 <= j < k implies (#[trigger] epochs[j]).id != e.id by {}
                }
            }
        }
    }
}

/// The reference reader takes every front index whose parts stand and whose streams are of a known kind,
/// whatever its entries say.
pub proof fn law_reference_front(b: Seq<u8>, expected: int)
    requires
        b.len() <= usize::MAX,
    ensures
        ({
            let told = crate::reference::container::decoded_front(b, expected);
            let (n, m) = (layout_laws::two(b, 6), layout_laws::four(b, 8));
            let need = 16 + 24 * n + 32 * m;
            told == if b.len() < 16 {
                Err::<syntax::FrontModel, ContainerError>(ContainerError::UnexpectedEof)
            } else if b[0] != 65 || b[1] != 86 || b[2] != 70 || b[3] != 82 || layout_laws::two(b, 4) != 1 || n
                != expected || need > usize::MAX {
                Err(ContainerError::BadFront)
            } else if b.len() < need {
                Err(ContainerError::UnexpectedEof)
            } else if b.len() > need {
                Err(ContainerError::TrailingData)
            } else if scalar::crc_of(b.take(need - 4)) != layout_laws::four(b, need - 4) {
                Err(ContainerError::FrontChecksum)
            } else if !(forall|i: int| 0 <= i < n ==> 1 <= #[trigger] b[12 + 24 * i + 2] <= 2) {
                Err(ContainerError::BadFront)
            } else {
                Ok(
                    syntax::FrontModel {
                        streams: syntax::streams_at(b, 12, n),
                        epochs: syntax::epochs_at(b, 12 + 24 * n, m),
                    },
                )
            }
        }),
{
    if b.len() >= 16 {
        let need = 16 + 24 * layout_laws::two(b, 6) + 32 * layout_laws::four(b, 8);
        lemma_letters(b, syntax::front_magic());
        let letters = syntax::front_magic();
        assert(letters.len() == 4 && letters[0] == 65 && letters[1] == 86 && letters[2] == 70
            && letters[3] == 82);
        layout_laws::law_numbers(b, 4);
        layout_laws::law_numbers(b, 6);
        layout_laws::law_numbers(b, 8);
        layout_laws::law_numbers(b, need - 4);
    }
}

/// A packet of an epoch that no stream takes is told, and so is the first that is not whole.
pub proof fn law_routes_taken(streams: Seq<StreamDesc>, b: Seq<u8>, pos: int)
    requires
        0 <= pos < b.len(),
    ensures
        match syntax::decoded_packet(b.skip(pos), 134_217_728) {
            Err(e) => syntax::route_error(streams, b, pos) == Some(e),
            Ok((p, n)) => match syntax::routed(streams, p) {
                Err(e) => syntax::route_error(streams, b, pos) == Some(e),
                Ok(_) => n > 0 ==> syntax::route_error(streams, b, pos) == syntax::route_error(
                    streams,
                    b,
                    pos + n,
                ),
            },
        },
{
}

/// A file is built of at most 65535 streams with numbers of their own and at most 2^32 - 1 epochs, each
/// of them in order, whose packets all have their streams.
pub proof fn law_files_built(streams: Seq<StreamDesc>, epochs: Seq<syntax::EpochRange>)
    ensures
        syntax::build_error(streams, epochs) == if streams.len() > 65535 || epochs.len() > 4294967295 {
            Some(ContainerError::ResourceLimit)
        } else if syntax::ranges_error(epochs, 0) is Some {
            syntax::ranges_error(epochs, 0)
        } else if exists|i: int, j: int|
            0 <= i < j < streams.len() && (#[trigger] streams[i]).id == (#[trigger] streams[j]).id {
            Some(ContainerError::BadFront)
        } else {
            syntax::routes_error(streams, epochs, 0)
        },
        syntax::routes_error(streams, epochs, 0) is None ==> forall|k: int|
            0 <= k < epochs.len() ==> syntax::route_error(streams, (#[trigger] epochs[k]).bytes, 0) is None,
{
    lemma_routes(streams, epochs, 0);
}

proof fn lemma_routes(streams: Seq<StreamDesc>, epochs: Seq<syntax::EpochRange>, k: int)
    requires
        0 <= k,
    ensures
        syntax::routes_error(streams, epochs, k) is None ==> forall|i: int|
            k <= i < epochs.len() ==> syntax::route_error(streams, (#[trigger] epochs[i]).bytes, 0) is None,
    decreases epochs.len() - k,
{
    if k < epochs.len() {
        lemma_routes(streams, epochs, k + 1);
    }
}

/// A parser waits for 32 bytes and then for as many as the header says that the front index has; it
/// refuses more than it may keep.
pub proof fn law_prefix_awaited(flow: Flow, h: FileHeader)
    requires
        !flow.prefix_done,
        flow.pending.len() >= 32,
        flow.max_buffer <= usize::MAX,
        syntax::decoded_header(flow.pending.take(32)) == Ok::<FileHeader, ContainerError>(h),
    ensures
        ({
            let n = 32 + h.front_len;
            let (next, error) = flow.opened();
            &&& next.header == Some(h)
            &&& n > flow.max_buffer && n <= usize::MAX ==> error == Some(ContainerError::ResourceLimit)
                && !next.prefix_done
            &&& n <= flow.max_buffer && flow.pending.len() < n ==> error is None && !next.prefix_done
                && next.pending == flow.pending
            &&& n <= flow.max_buffer && flow.pending.len() >= n ==> match syntax::decoded_front(
                flow.pending.subrange(32, n),
                h.stream_count as int,
            ) {
                Err(e) => error == Some(e) && !next.prefix_done,
                Ok(front) => error is None && next.prefix_done && next.front == Some(front)
                    && next.pending == flow.pending.skip(n),
            }
        }),
{
    reveal(Flow::opened);
}

} // verus!
