//! The download coordinator: it decides which candidates to dial, drives one
//! worker per session, takes the workers' results into the assembly buffer,
//! and sweeps up what is left in the endgame.

use vstd::prelude::*;
use crate::error::{BitTorrentError, PeerFailure, PieceFailure, ProtocolViolation};
use crate::message::MessageView;
use crate::peer::{lemma_info_hash_mismatch, spec_read_handshake, Peer, PeerAddr};
use crate::piece::{listed, PieceInfo, PieceManager, RegistryView};
use crate::torrent::Torrent;
use crate::utils::{same_bytes, sha1_digest};
use crate::MAX_PEERS;

verus! {

/// How many connection attempts may be open at once.
pub const CONCURRENT_CONNECTS: usize = 50;

/// After how many failed attempts no further candidate is dialled.
pub const MAX_FAILED_ATTEMPTS: usize = 200;

/// How many seconds a connection attempt may take, handshake included.
pub const CONNECT_TIMEOUT_SECS: u64 = 10;

/// After how many failures in a row a worker gives up its session.
pub const MAX_CONSECUTIVE_FAILURES: usize = 3;

/// `n` zero bytes.
pub open spec fn zeros(n: nat) -> Seq<u8> {
    Seq::new(n, |i: int| 0u8)
}

/// The buffer after `data` was written at `start`: the buffer grows by zero
/// bytes as far as the write reaches, and holds `data` from `start` on.
pub open spec fn spec_store(buffer: Seq<u8>, start: int, data: Seq<u8>) -> Seq<u8> {
    let padded = if buffer.len() < start + data.len() {
        buffer + zeros((start + data.len() - buffer.len()) as nat)
    } else {
        buffer
    };
    padded.subrange(0, start) + data + padded.subrange(start + data.len(), padded.len() as int)
}

/// The list with `index` added, unless it holds it already.
pub open spec fn spec_record(list: Seq<usize>, index: usize) -> Seq<usize> {
    if listed(list, index as int) {
        list
    } else {
        list.push(index)
    }
}

/// Adds `index` to a list that holds each index once.
fn record(list: &mut Vec<usize>, index: usize)
    ensures
        final(list)@ == spec_record(old(list)@, index),
{
    let mut k: usize = 0;
    while k < list.len()
        invariant
            k <= list.len(),
            list@ == old(list)@,
            forall|j: int| 0 <= j < k ==> list@[j] != index,
        decreases list.len() - k,
    {
        if list[k] == index {
            return ;
        }
        k += 1;
    }
    list.push(index);
}

/// Writes the bytes of piece `index` into the buffer, at `index` times the
/// piece length, growing the buffer by zero bytes where the write reaches
/// beyond its end.
fn store_piece(buffer: &mut Vec<u8>, piece_length: usize, index: usize, data: &[u8])
    requires
        index * piece_length + data.len() <= usize::MAX,
    ensures
        final(buffer)@ == spec_store(old(buffer)@, index * piece_length, data@),
{
    assert(0 <= index * piece_length) by (nonlinear_arith)
        requires
            0 <= index,
            0 <= piece_length,
    ;
    let start: usize = index * piece_length;
    let end: usize = start + data.len();
    if buffer.len() < end {
        buffer.resize(end, 0u8);
        assert(buffer@ =~= old(buffer)@ + zeros((end - old(buffer)@.len()) as nat));
    }
    let ghost padded = buffer@;
    let mut k: usize = 0;
    while k < data.len()
        invariant
            k <= data.len(),
            end == start + data.len(),
            buffer.len() == padded.len(),
            end <= buffer.len(),
            forall|j: int| 0 <= j < start ==> buffer@[j] == padded[j],
            forall|j: int| start <= j < start + k ==> buffer@[j] == data@[j - start],
            forall|j: int| start + k <= j < buffer.len() ==> buffer@[j] == padded[j],
        decreases data.len() - k,
    {
        buffer.set(start + k, data[k]);
        k += 1;
    }
    assert(buffer@ =~= spec_store(old(buffer)@, start as int, data@));
}

/// A piece whose bytes hash to the digest it carries.
#[derive(Debug)]
pub struct VerifiedPiece {
    index: usize,
    hash: [u8; 20],
    data: Vec<u8>,
}

impl VerifiedPiece {
    #[verifier::type_invariant]
    spec fn sound(self) -> bool {
        sha1_digest(self.data@) == self.hash@
    }

    pub closed spec fn spec_index(&self) -> usize {
        self.index
    }

    pub closed spec fn spec_hash(&self) -> Seq<u8> {
        self.hash@
    }

    pub closed spec fn spec_data(&self) -> Seq<u8> {
        self.data@
    }

    #[verifier::when_used_as_spec(spec_index)]
    pub fn index(&self) -> (index: usize)
        ensures
            index == self.spec_index(),
    {
        self.index
    }

    /// The bytes of the piece, which hash to its digest.
    pub fn data(&self) -> (data: &[u8])
        ensures
            data@ == self.spec_data(),
            sha1_digest(data@) == self.spec_hash(),
    {
        proof {
            use_type_invariant(self);
        }
        self.data.as_slice()
    }

    /// The digest of the piece.
    pub fn hash(&self) -> (hash: [u8; 20])
        ensures
            hash@ == self.spec_hash(),
            sha1_digest(self.spec_data()) == hash@,
    {
        proof {
            use_type_invariant(self);
        }
        self.hash
    }
}

/// What a worker reports to the coordinator.
#[derive(Debug)]
pub enum TaskMessage {
    PieceCompleted { piece: VerifiedPiece },
    PieceFailed { index: usize, error: BitTorrentError },
    PeerDisconnected { peer_id: usize },
}

/// A worker's report as a mathematical value.
pub enum TaskView {
    PieceCompleted { index: usize, hash: Seq<u8>, data: Seq<u8> },
    PieceFailed { index: usize, error: BitTorrentError },
    PeerDisconnected { peer_id: usize },
}

impl TaskMessage {
    pub open spec fn view(&self) -> TaskView {
        match *self {
            TaskMessage::PieceCompleted { piece } => TaskView::PieceCompleted {
                index: piece.spec_index(),
                hash: piece.spec_hash(),
                data: piece.spec_data(),
            },
            TaskMessage::PieceFailed { index, error } => TaskView::PieceFailed { index, error },
            TaskMessage::PeerDisconnected { peer_id } => TaskView::PeerDisconnected { peer_id },
        }
    }
}

impl TaskView {
    /// Whether the bytes of a completed piece hash to the digest it carries.
    pub open spec fn sound(self) -> bool {
        self matches TaskView::PieceCompleted { hash, data, .. } ==> sha1_digest(data) == hash
    }
}

/// A download as a mathematical value.
pub struct DownloadView {
    pub registry: RegistryView,
    /// The assembly buffer.
    pub buffer: Seq<u8>,
    /// The pieces that some worker failed on, each once.
    pub failed: Seq<usize>,
    /// The number of sessions the download started with.
    pub peers: nat,
}

impl DownloadView {
    /// Where piece `i` starts in the buffer.
    pub open spec fn start_of(self, i: int) -> int {
        i * self.registry.piece_length
    }

    /// The bytes that the buffer holds for piece `i`.
    pub open spec fn piece_bytes(self, i: int) -> Seq<u8> {
        self.buffer.subrange(self.start_of(i), self.start_of(i) + self.registry.length_of(i))
    }

    /// Whether the buffer holds verified bytes for piece `i`.
    pub open spec fn holds(self, i: int) -> bool {
        &&& self.start_of(i) + self.registry.length_of(i) <= self.buffer.len()
        &&& sha1_digest(self.piece_bytes(i)) == self.registry.pieces[i].spec_hash()
    }

    /// How far the pieces reach: the end of the last piece, or the length
    /// of the resource where that is more.
    pub open spec fn extent(self) -> int {
        let last = self.registry.num_pieces() - 1;
        if last >= 0 && self.start_of(last) + self.registry.length_of(last)
            > self.registry.total_length {
            self.start_of(last) + self.registry.length_of(last)
        } else {
            self.registry.total_length as int
        }
    }

    /// The invariants of a download: the registry is valid, the buffer
    /// covers the resource and reaches no further than the pieces do, and
    /// it holds verified bytes for every completed piece.
    pub open spec fn valid(self) -> bool {
        &&& self.registry.valid()
        &&& self.registry.completed.finite()
        &&& self.registry.total_length <= self.buffer.len() <= self.extent()
        &&& forall|i: int| #[trigger] self.registry.completed.contains(i) ==> self.holds(i)
    }

    /// Whether a completed piece is taken into the buffer: it names a piece
    /// that is not complete, carries the digest published for it, and has
    /// the length of that piece.
    pub open spec fn accepts(self, index: usize, hash: Seq<u8>, data: Seq<u8>) -> bool {
        &&& index < self.registry.num_pieces()
        &&& !self.registry.completed.contains(index as int)
        &&& hash == self.registry.pieces[index as int].spec_hash()
        &&& data.len() == self.registry.length_of(index as int)
        &&& self.start_of(index as int) + data.len() <= usize::MAX
    }

    /// The download after a worker's report was taken. A completed piece
    /// that is accepted is written at its place and marked complete; one for
    /// a piece that is complete already changes nothing; any other is
    /// recorded as failed, as a failed piece is. A disconnect changes
    /// nothing.
    pub open spec fn handle(self, message: TaskView) -> DownloadView {
        match message {
            TaskView::PieceCompleted { index, hash, data } => if self.accepts(index, hash, data) {
                DownloadView {
                    registry: self.registry.mark_completed(index as int),
                    buffer: spec_store(self.buffer, self.start_of(index as int), data),
                    ..self
                }
            } else if self.registry.completed.contains(index as int) {
                self
            } else {
                DownloadView { failed: spec_record(self.failed, index), ..self }
            },
            TaskView::PieceFailed { index, error } => DownloadView {
                failed: spec_record(self.failed, index),
                ..self
            },
            TaskView::PeerDisconnected { peer_id } => self,
        }
    }
}

/// Writing a verified piece at its place keeps what the buffer holds for
/// every other piece, and makes the buffer hold the piece.
pub proof fn lemma_store_keeps_pieces(download: DownloadView, index: usize, data: Seq<u8>)
    requires
        download.registry.valid(),
        index < download.registry.num_pieces(),
        data.len() == download.registry.length_of(index as int),
    ensures
        ({
            let after = DownloadView {
                registry: download.registry.mark_completed(index as int),
                buffer: spec_store(download.buffer, download.start_of(index as int), data),
                ..download
            };
            &&& after.piece_bytes(index as int) == data
            &&& after.start_of(index as int) + data.len() <= after.buffer.len()
            &&& after.buffer.len() >= download.buffer.len()
            &&& after.buffer.len() <= (if download.buffer.len() > download.start_of(index as int)
                + data.len() {
                download.buffer.len() as int
            } else {
                download.start_of(index as int) + data.len()
            })
            &&& forall|j: int|
                0 <= j < download.registry.num_pieces() && j != index && download.start_of(j)
                    + download.registry.length_of(j) <= download.buffer.len()
                    ==> #[trigger] after.piece_bytes(j) == download.piece_bytes(j)
        }),
{
    let l = download.registry.piece_length as int;
    let i = index as int;
    let start = download.start_of(i);
    let after = DownloadView {
        registry: download.registry.mark_completed(i),
        buffer: spec_store(download.buffer, start, data),
        ..download
    };
    download.registry.lemma_piece_lengths(i);
    assert(0 <= start) by (nonlinear_arith)
        requires
            start == i * l,
            0 <= i,
            0 <= l,
    ;
    assert(after.piece_bytes(i) =~= data);
    assert forall|j: int|
        0 <= j < download.registry.num_pieces() && j != index && download.start_of(j)
            + download.registry.length_of(j)
            <= download.buffer.len() implies #[trigger] after.piece_bytes(j)
        == download.piece_bytes(j) by {
        download.registry.lemma_piece_lengths(j);
        let sj = download.start_of(j);
        let lj = download.registry.length_of(j) as int;
        assert(0 <= sj && (j < i ==> sj + l <= start) && (j > i ==> start + l <= sj))
            by (nonlinear_arith)
            requires
                sj == j * l,
                start == i * l,
                0 <= j,
                0 <= i,
                j != i,
                0 < l,
        ;
        assert(after.piece_bytes(j) =~= download.piece_bytes(j));
    }
}

/// Taking a worker's report keeps the invariants of a download, as long as
/// the bytes of a completed piece hash to the digest it carries: every piece
/// marked complete has verified bytes at its place in the buffer.
pub proof fn lemma_handle_keeps_valid(download: DownloadView, message: TaskView)
    requires
        download.valid(),
        message.sound(),
    ensures
        download.handle(message).valid(),
        download.registry.completed.subset_of(download.handle(message).registry.completed),
        download.handle(message).registry.num_pieces() == download.registry.num_pieces(),
{
    if let TaskView::PieceCompleted { index, hash, data } = message {
        if download.accepts(index, hash, data) {
            let after = download.handle(message);
            let i = index as int;
            let l = download.registry.piece_length as int;
            let last = download.registry.num_pieces() - 1;
            lemma_store_keeps_pieces(download, index, data);
            download.registry.lemma_piece_lengths(i);
            download.registry.lemma_piece_lengths(last);
            assert(after.registry.length_of(i) == download.registry.length_of(i));
            assert(download.start_of(i) + data.len() <= download.extent()) by {
                if i < last {
                    assert(i * l + l <= last * l) by (nonlinear_arith)
                        requires
                            i < last,
                            0 < l,
                    ;
                }
            }
            assert(after.extent() == download.extent());
            assert forall|j: int| #[trigger]
                after.registry.completed.contains(j) implies after.holds(j) by {
                if j != i {
                    assert(download.registry.completed.contains(j));
                    assert(download.holds(j));
                    assert(after.piece_bytes(j) == download.piece_bytes(j));
                }
            }
        }
    }
}

/// The coordinator of one download: the piece registry, the assembly
/// buffer, and the pieces that workers failed on.
pub struct Download {
    piece_manager: PieceManager,
    downloaded: Vec<u8>,
    failed_pieces: Vec<usize>,
    peer_count: usize,
}

/// The bitfield that a session advertises.
pub open spec fn bitfield_of(peers: Seq<Peer>, slot: int) -> Seq<u8> {
    peers[slot]@.bitfield
}

impl Download {
    pub closed spec fn view(&self) -> DownloadView {
        DownloadView {
            registry: self.piece_manager@,
            buffer: self.downloaded@,
            failed: self.failed_pieces@,
            peers: self.peer_count as nat,
        }
    }

    /// The representation invariant.
    pub closed spec fn wf(&self) -> bool {
        &&& self.piece_manager.wf()
        &&& self@.valid()
    }

    /// A well-formed download has a valid view.
    pub proof fn lemma_valid(&self)
        requires
            self.wf(),
        ensures
            self@.valid(),
    {
    }

    /// Whether a session was opened for a torrent: by a handshake that
    /// carried the torrent's info-hash.
    pub open spec fn opened_for(session: Peer, torrent: Torrent) -> bool {
        session@.info_hash == torrent.spec_info_hash()
    }

    /// Why no download can be set up for a torrent over the given sessions,
    /// if there is a reason: there is no session; there are more sessions
    /// than a download may have, or one was opened with another piece count;
    /// a session was opened for another torrent; the resource is too long
    /// for the machine; or pieces are announced with length zero.
    pub open spec fn spec_refusal(torrent: Torrent, sessions: Seq<Peer>) -> Option<
        BitTorrentError,
    > {
        if sessions.len() == 0 {
            Some(BitTorrentError::Peer(PeerFailure::NoPeers))
        } else if sessions.len() > MAX_PEERS {
            Some(BitTorrentError::Client)
        } else if exists|t: int|
            0 <= t < sessions.len() && !Self::opened_for(#[trigger] sessions[t], torrent) {
            Some(BitTorrentError::Protocol(ProtocolViolation::InfoHashMismatch))
        } else if exists|t: int|
            0 <= t < sessions.len() && (#[trigger] sessions[t])@.pieces
                != torrent.spec_info().pieces.0.len() {
            Some(BitTorrentError::Client)
        } else if torrent.spec_info().files.spec_total_length() > usize::MAX {
            Some(BitTorrentError::InvalidData)
        } else if torrent.spec_info().pieces.0.len() > 0 && torrent.spec_info().piece_length == 0 {
            Some(BitTorrentError::InvalidData)
        } else {
            None
        }
    }

    /// Sets up the download of a torrent over the live sessions: the
    /// registry is built from the manifest, every session is registered
    /// under its position with the pieces its bitfield advertises, and the
    /// buffer is as long as the resource and all zero. A download has at
    /// least one session and at most a hundred, and every one of them was
    /// opened by a handshake for this torrent.
    pub fn new(torrent: &Torrent, peers: &Vec<Peer>) -> (result: Result<Self, BitTorrentError>)
        ensures
            match Self::spec_refusal(*torrent, peers@) {
                Some(e) => result matches Err(f) && f == e,
                None => result matches Ok(download) && {
                    let registry = download@.registry;
                    &&& download.wf()
                    &&& 1 <= peers.len() <= MAX_PEERS
                    &&& forall|t: int|
                        0 <= t < peers.len() ==> Self::opened_for(#[trigger] peers[t], *torrent)
                    &&& forall|t: int, i: int|
                        0 <= t < peers.len() ==> (#[trigger] peers[t]@.has_piece(i)
                            <==> registry.advertises(t as usize, i))
                    &&& registry.piece_length == torrent.spec_info().piece_length
                    &&& registry.total_length == torrent.spec_info().files.spec_total_length()
                    &&& registry.num_pieces() == torrent.spec_info().pieces.0.len()
                    &&& forall|i: int|
                        0 <= i < registry.num_pieces() ==> (
                        #[trigger] registry.pieces[i]).spec_hash()
                            == torrent.spec_info().pieces.0[i]@
                    &&& registry.completed == Set::<int>::empty()
                    &&& forall|t: usize| registry.peers.dom().contains(t) <==> t < peers.len()
                    &&& forall|t: usize|
                        t < peers.len() ==> #[trigger] registry.peers[t] == registry.advertised_by(
                            bitfield_of(peers@, t as int),
                        )
                    &&& download@.buffer == zeros(registry.total_length)
                    &&& download@.failed == Seq::<usize>::empty()
                    &&& download@.peers == peers.len()
                },
            },
    {
        if peers.len() == 0 {
            return Err(BitTorrentError::Peer(PeerFailure::NoPeers));
        }
        if peers.len() > MAX_PEERS {
            return Err(BitTorrentError::Client);
        }
        if !Self::all_opened_for(torrent, peers) {
            return Err(BitTorrentError::Protocol(ProtocolViolation::InfoHashMismatch));
        }
        if !Self::all_count(torrent, peers) {
            return Err(BitTorrentError::Client);
        }
        let total_length: usize = match torrent.checked_total_length() {
            Some(n) => n,
            None => {
                return Err(BitTorrentError::InvalidData);
            },
        };
        let info = torrent.info();
        if info.pieces.0.len() > 0 && info.piece_length == 0 {
            return Err(BitTorrentError::InvalidData);
        }
        let mut hashes: Vec<[u8; 20]> = Vec::new();
        let mut i: usize = 0;
        while i < info.pieces.0.len()
            invariant
                i <= info.pieces.0.len(),
                hashes.len() == i,
                forall|j: int| 0 <= j < i ==> hashes[j] == info.pieces.0[j],
            decreases info.pieces.0.len() - i,
        {
            hashes.push(info.pieces.0[i]);
            i += 1;
        }
        let mut piece_manager = PieceManager::new(info.piece_length, hashes, total_length);
        let ghost fresh = piece_manager@;
        let mut k: usize = 0;
        while k < peers.len()
            invariant
                k <= peers.len(),
                piece_manager.wf(),
                piece_manager@.valid(),
                piece_manager@ == (RegistryView { peers: piece_manager@.peers, ..fresh }),
                forall|t: usize| piece_manager@.peers.dom().contains(t) <==> t < k,
                forall|t: usize|
                    t < k ==> #[trigger] piece_manager@.peers[t] == fresh.advertised_by(
                        bitfield_of(peers@, t as int),
                    ),
            decreases peers.len() - k,
        {
            let ghost before = piece_manager@;
            match peers[k].get_bitfield() {
                Some(bitfield) => {
                    piece_manager.register_bitfield(k, bitfield);
                },
                None => {
                    piece_manager.register_peer(k);
                    assert(fresh.advertised_by(bitfield_of(peers@, k as int)) =~= Set::<
                        int,
                    >::empty());
                },
            }
            assert(before.advertised_by(bitfield_of(peers@, k as int)) =~= fresh.advertised_by(
                bitfield_of(peers@, k as int),
            ));
            proof {
                piece_manager.lemma_view_valid();
            }
            k += 1;
        }
        let downloaded: Vec<u8> = vec![0u8; total_length];
        assert(downloaded@ =~= zeros(total_length as nat));
        let download = Self {
            piece_manager,
            downloaded,
            failed_pieces: Vec::new(),
            peer_count: peers.len(),
        };
        proof {
            let view = download@;
            let last = view.registry.num_pieces() - 1;
            if last >= 0 {
                view.registry.lemma_piece_lengths(last);
            }
        }
        Ok(download)
    }

    /// Whether every session was opened for the torrent.
    fn all_opened_for(torrent: &Torrent, peers: &Vec<Peer>) -> (all: bool)
        ensures
            all == forall|t: int|
                0 <= t < peers.len() ==> Self::opened_for(#[trigger] peers[t], *torrent),
    {
        let info_hash: [u8; 20] = torrent.info_hash();
        let mut k: usize = 0;
        while k < peers.len()
            invariant
                k <= peers.len(),
                info_hash@ == torrent.spec_info_hash(),
                forall|t: int| 0 <= t < k ==> Self::opened_for(#[trigger] peers[t], *torrent),
            decreases peers.len() - k,
        {
            if !same_bytes(&peers[k].info_hash(), &info_hash) {
                assert(!Self::opened_for(peers[k as int], *torrent));
                return false;
            }
            k += 1;
        }
        true
    }

    /// Whether every session was opened with the piece count of the torrent.
    fn all_count(torrent: &Torrent, peers: &Vec<Peer>) -> (all: bool)
        ensures
            all == forall|t: int|
                0 <= t < peers.len() ==> (#[trigger] peers[t])@.pieces
                    == torrent.spec_info().pieces.0.len(),
    {
        let count: usize = torrent.piece_count();
        let mut k: usize = 0;
        while k < peers.len()
            invariant
                k <= peers.len(),
                count == torrent.spec_info().pieces.0.len(),
                forall|t: int| 0 <= t < k ==> (#[trigger] peers[t])@.pieces == count,
            decreases peers.len() - k,
        {
            if peers[k].pieces() != count {
                assert(peers[k as int]@.pieces != count);
                return false;
            }
            k += 1;
        }
        true
    }

    /// Takes a worker's report.
    ///
    /// A completed piece is written to the buffer at its place and marked
    /// complete, unless the piece is complete already, which changes
    /// nothing. A failed piece is recorded. The result says whether every
    /// piece is complete.
    pub fn handle_result(&mut self, message: TaskMessage) -> (complete: bool)
        requires
            old(self).wf(),
        ensures
            final(self).wf(),
            final(self)@ == old(self)@.handle(message@),
            complete == final(self)@.registry.all_complete(),
    {
        proof {
            self.piece_manager.lemma_view_valid();
        }
        match message {
            TaskMessage::PieceCompleted { piece } => {
                proof {
                    use_type_invariant(&piece);
                    lemma_handle_keeps_valid(self@, message@);
                }
                let index: usize = piece.index;
                if self.accepts(&piece) {
                    store_piece(
                        &mut self.downloaded,
                        self.piece_manager.piece_length(),
                        index,
                        piece.data.as_slice(),
                    );
                    self.piece_manager.mark_completed(index);
                } else if !self.piece_manager.is_completed(index) {
                    record(&mut self.failed_pieces, index);
                }
            },
            TaskMessage::PieceFailed { index, error } => {
                record(&mut self.failed_pieces, index);
            },
            TaskMessage::PeerDisconnected { peer_id } => {},
        }
        self.piece_manager.is_complete()
    }

    /// Whether a completed piece is taken into the buffer.
    fn accepts(&self, piece: &VerifiedPiece) -> (accepted: bool)
        requires
            self.wf(),
        ensures
            accepted == self@.accepts(piece.spec_index(), piece.spec_hash(), piece.spec_data()),
    {
        let index: usize = piece.index;
        let info: PieceInfo = match self.piece_manager.get_piece(index) {
            Some(info) => *info,
            None => {
                return false;
            },
        };
        if self.piece_manager.is_completed(index) {
            return false;
        }
        if !same_bytes(&piece.hash, &info.hash()) || piece.data.len() != info.length() {
            return false;
        }
        match index.checked_mul(self.piece_manager.piece_length()) {
            Some(start) => piece.data.len() <= usize::MAX - start,
            None => false,
        }
    }

    /// The progress of the download as a fraction: the number of completed
    /// pieces over the number of pieces.
    pub fn progress(&self) -> (fraction: (usize, usize))
        requires
            self.wf(),
        ensures
            fraction.0 == self@.registry.completed.len(),
            fraction.1 == self@.registry.num_pieces(),
    {
        self.piece_manager.progress()
    }

    /// The number of sessions the download started with.
    pub fn get_active_peer_count(&self) -> (count: usize)
        ensures
            count == self@.peers,
    {
        self.peer_count
    }

    /// The pieces that workers failed on, each once, in the order in which
    /// they first failed.
    pub fn failed_pieces(&self) -> (failed: &Vec<usize>)
        ensures
            failed@ == self@.failed,
    {
        &self.failed_pieces
    }

    /// The download's piece registry.
    pub fn piece_manager(&self) -> (registry: &PieceManager)
        requires
            self.wf(),
        ensures
            registry.wf(),
            registry@ == self@.registry,
    {
        &self.piece_manager
    }

    /// The assembly buffer as it stands.
    pub fn downloaded(&self) -> (buffer: &[u8])
        ensures
            buffer@ == self@.buffer,
    {
        self.downloaded.as_slice()
    }

    /// Ends the download: the contents of the assembly buffer when every
    /// piece is complete, and the failure of the download when not.
    pub fn finish(&self) -> (result: Result<Vec<u8>, BitTorrentError>)
        requires
            self.wf(),
        ensures
            match result {
                Ok(data) => self@.registry.all_complete() && data@ == self@.buffer,
                Err(e) => !self@.registry.all_complete() && e == BitTorrentError::Download,
            },
    {
        if self.piece_manager.is_complete() {
            let data: Vec<u8> = self.downloaded.clone();
            assert(data@ =~= self.downloaded@);
            Ok(data)
        } else {
            Err(BitTorrentError::Download)
        }
    }
}

/// Whether `data` is piece `index` of a registry: it hashes to the digest
/// published for the piece and has the length of the piece.
pub open spec fn verifies(registry: RegistryView, index: usize, data: Seq<u8>) -> bool {
    &&& index < registry.num_pieces()
    &&& sha1_digest(data) == registry.pieces[index as int].spec_hash()
    &&& data.len() == registry.length_of(index as int)
}

/// The worker that drives one session: it remembers the pieces it failed on
/// and how often it failed in a row.
#[derive(Debug)]
pub struct Worker {
    slot: usize,
    consecutive_failures: usize,
    failed_pieces: Vec<usize>,
    finished: bool,
}

/// A worker as a mathematical value.
pub struct WorkerView {
    /// The slot of the worker's session in the registry.
    pub slot: usize,
    /// How often the worker failed in a row, counted up to the ceiling.
    pub failures: nat,
    /// The pieces the worker failed on, each once.
    pub blacklist: Seq<usize>,
    /// Whether the worker has given up its session.
    pub finished: bool,
}

impl WorkerView {
    /// Whether the worker asks for no further piece.
    pub open spec fn stops(self) -> bool {
        self.finished || self.failures >= MAX_CONSECUTIVE_FAILURES
    }

    /// The worker after it obtained a verified piece.
    pub open spec fn succeeded(self) -> WorkerView {
        WorkerView { failures: 0, ..self }
    }

    /// The worker after it failed on piece `index`; a lost connection ends
    /// it.
    pub open spec fn failed_on(self, index: usize, connection_lost: bool) -> WorkerView {
        WorkerView {
            failures: if self.failures < MAX_CONSECUTIVE_FAILURES {
                self.failures + 1
            } else {
                self.failures
            },
            blacklist: spec_record(self.blacklist, index),
            finished: self.finished || connection_lost,
            ..self
        }
    }

    /// The worker after the attempt at piece `index` ended with `outcome`,
    /// in a download with the given registry.
    pub open spec fn after(
        self,
        registry: RegistryView,
        index: usize,
        outcome: Result<Seq<u8>, BitTorrentError>,
    ) -> WorkerView {
        match outcome {
            Ok(data) => if verifies(registry, index, data) {
                self.succeeded()
            } else {
                self.failed_on(index, false)
            },
            Err(e) => self.failed_on(index, e.spec_is_connection_error()),
        }
    }

    /// What the worker reports after the attempt at piece `index` ended
    /// with `outcome`: the verified piece; or that the piece failed, with
    /// the session's error or, where the bytes do not verify, with that; or,
    /// where the connection is lost, that the peer is gone.
    pub open spec fn report(
        self,
        registry: RegistryView,
        index: usize,
        outcome: Result<Seq<u8>, BitTorrentError>,
    ) -> TaskView {
        match outcome {
            Ok(data) => if verifies(registry, index, data) {
                TaskView::PieceCompleted {
                    index,
                    hash: registry.pieces[index as int].spec_hash(),
                    data,
                }
            } else {
                TaskView::PieceFailed {
                    index,
                    error: BitTorrentError::Piece(PieceFailure::VerificationFailed),
                }
            },
            Err(e) => if e.spec_is_connection_error() {
                TaskView::PeerDisconnected { peer_id: self.slot }
            } else {
                TaskView::PieceFailed { index, error: e }
            },
        }
    }
}

/// The outcome of an attempt as a mathematical value.
pub open spec fn outcome_view(outcome: Result<Vec<u8>, BitTorrentError>) -> Result<
    Seq<u8>,
    BitTorrentError,
> {
    match outcome {
        Ok(data) => Ok(data@),
        Err(e) => Err(e),
    }
}

impl Worker {
    pub closed spec fn view(&self) -> WorkerView {
        WorkerView {
            slot: self.slot,
            failures: self.consecutive_failures as nat,
            blacklist: self.failed_pieces@,
            finished: self.finished,
        }
    }

    /// A worker for the session in `slot` that has failed on nothing yet.
    pub fn new(slot: usize) -> (worker: Self)
        ensures
            worker@ == (WorkerView {
                slot,
                failures: 0,
                blacklist: Seq::empty(),
                finished: false,
            }),
    {
        Self { slot, consecutive_failures: 0, failed_pieces: Vec::new(), finished: false }
    }

    /// The slot of the worker's session.
    pub fn slot(&self) -> (slot: usize)
        ensures
            slot == self@.slot,
    {
        self.slot
    }

    /// Whether the worker has given up its session.
    pub fn is_finished(&self) -> (finished: bool)
        ensures
            finished == self@.finished,
    {
        self.finished
    }

    /// The pieces the worker failed on.
    pub fn blacklist(&self) -> (blacklist: &Vec<usize>)
        ensures
            blacklist@ == self@.blacklist,
    {
        &self.failed_pieces
    }

    fn fail(&mut self, index: usize, connection_lost: bool)
        ensures
            final(self)@ == old(self)@.failed_on(index, connection_lost),
    {
        if self.consecutive_failures < MAX_CONSECUTIVE_FAILURES {
            self.consecutive_failures += 1;
        }
        record(&mut self.failed_pieces, index);
        if connection_lost {
            self.finished = true;
        }
    }
}

impl Download {
    /// Picks the next piece for a worker, by the registry's selection
    /// policy with the worker's blacklist. A worker that has ended, or has
    /// failed three times in a row, or for which no piece is left, gets
    /// none: it is marked as ended and its session leaves the registry.
    pub fn next_piece_for(&mut self, worker: &mut Worker) -> (next: Option<PieceInfo>)
        requires
            old(self).wf(),
        ensures
            final(self).wf(),
            match next {
                Some(p) => {
                    &&& !old(worker)@.stops()
                    &&& p.index() < old(self)@.registry.num_pieces()
                    &&& p == old(self)@.registry.pieces[p.index() as int]
                    &&& old(self)@.registry.is_next(
                        old(worker)@.slot,
                        old(worker)@.blacklist,
                        p.index() as int,
                    )
                    &&& final(self)@ == old(self)@
                    &&& final(worker)@ == old(worker)@
                },
                None => {
                    &&& old(worker)@.stops() || forall|i: int|
                        !old(self)@.registry.eligible(
                            old(worker)@.slot,
                            old(worker)@.blacklist,
                            i,
                        )
                    &&& final(self)@ == (DownloadView {
                        registry: old(self)@.registry.remove_peer(old(worker)@.slot),
                        ..old(self)@
                    })
                    &&& final(worker)@ == (WorkerView { finished: true, ..old(worker)@ })
                },
            },
    {
        if !worker.finished && worker.consecutive_failures < MAX_CONSECUTIVE_FAILURES {
            let next = self.piece_manager.next_piece_excluding(
                worker.slot,
                worker.failed_pieces.as_slice(),
            );
            if next.is_some() {
                return next;
            }
        }
        self.retire(worker);
        None
    }

    /// Ends a worker: it is marked as ended and its session leaves the
    /// registry.
    pub fn retire(&mut self, worker: &mut Worker)
        requires
            old(self).wf(),
        ensures
            final(self).wf(),
            final(self)@ == (DownloadView {
                registry: old(self)@.registry.remove_peer(old(worker)@.slot),
                ..old(self)@
            }),
            final(worker)@ == (WorkerView { finished: true, ..old(worker)@ }),
    {
        worker.finished = true;
        self.piece_manager.remove_peer(worker.slot);
        proof {
            self.piece_manager.lemma_view_valid();
            assert forall|i: int| #[trigger]
                self@.registry.completed.contains(i) implies self@.holds(i) by {
                assert(old(self)@.holds(i));
                assert(self@.piece_bytes(i) == old(self)@.piece_bytes(i));
            }
        }
    }

    /// Judges the outcome of a worker's attempt at piece `index` and gives
    /// the report for the coordinator: bytes that verify become a verified
    /// piece and clear the worker's failures; bytes that do not, and errors
    /// of the session, count as a failure and put the piece on the worker's
    /// blacklist; a lost connection ends the worker.
    pub fn piece_result(
        &self,
        worker: &mut Worker,
        index: usize,
        outcome: Result<Vec<u8>, BitTorrentError>,
    ) -> (message: TaskMessage)
        requires
            self.wf(),
        ensures
            message@ == old(worker)@.report(self@.registry, index, outcome_view(outcome)),
            final(worker)@ == old(worker)@.after(self@.registry, index, outcome_view(outcome)),
    {
        match outcome {
            Ok(data) => match self.verified(index, data) {
                Some(piece) => {
                    worker.consecutive_failures = 0;
                    TaskMessage::PieceCompleted { piece }
                },
                None => {
                    worker.fail(index, false);
                    TaskMessage::PieceFailed {
                        index,
                        error: BitTorrentError::Piece(PieceFailure::VerificationFailed),
                    }
                },
            },
            Err(e) => {
                let lost: bool = e.is_connection_error();
                worker.fail(index, lost);
                if lost {
                    TaskMessage::PeerDisconnected { peer_id: worker.slot }
                } else {
                    TaskMessage::PieceFailed { index, error: e }
                }
            },
        }
    }

    /// Verifies bytes delivered for piece `index`.
    fn verified(&self, index: usize, data: Vec<u8>) -> (piece: Option<VerifiedPiece>)
        requires
            self.wf(),
        ensures
            match piece {
                Some(p) => verifies(self@.registry, index, data@) && p.spec_index() == index
                    && p.spec_data() == data@ && p.spec_hash()
                    == self@.registry.pieces[index as int].spec_hash(),
                None => !verifies(self@.registry, index, data@),
            },
    {
        let info: PieceInfo = match self.piece_manager.get_piece(index) {
            Some(info) => *info,
            None => {
                return None;
            },
        };
        if data.len() != info.length() {
            return None;
        }
        if !self.piece_manager.verify_piece(index, data.as_slice()) {
            return None;
        }
        Some(VerifiedPiece { index, hash: info.hash(), data })
    }
}

/// The endgame sweep: the pieces still missing, the one being tried, and
/// the next session to ask for it.
#[derive(Debug)]
pub struct Endgame {
    missing: Vec<usize>,
    piece_pos: usize,
    peer_pos: usize,
}

/// An endgame sweep as a mathematical value.
pub struct EndgameView {
    /// The pieces that were missing when the sweep began, in index order.
    pub missing: Seq<usize>,
    /// The position in `missing` of the piece being tried.
    pub piece_pos: nat,
    /// The first session that has not been asked for that piece.
    pub peer_pos: nat,
}

/// What the endgame sweep does next.
#[derive(Debug)]
pub enum EndgameStep {
    /// Ask the session for the piece.
    Request { session: usize, piece: PieceInfo },
    /// No piece is left to try.
    Finished,
    /// The sweep failed.
    Failed(BitTorrentError),
}

/// Whether `session` is the first session from `from` on that advertises
/// piece `index`.
pub open spec fn first_provider(
    sessions: Seq<Peer>,
    index: usize,
    from: nat,
    session: int,
) -> bool {
    &&& from <= session < sessions.len()
    &&& sessions[session]@.has_piece(index as int)
    &&& forall|s: int| from <= s < session ==> !(#[trigger] sessions[s])@.has_piece(index as int)
}

/// Whether no session from `from` on advertises piece `index`.
pub open spec fn no_provider(sessions: Seq<Peer>, index: usize, from: nat) -> bool {
    forall|s: int| from <= s < sessions.len() ==> !(#[trigger] sessions[s])@.has_piece(index as int)
}

/// The first session from `from` on that advertises piece `index`.
fn find_provider(sessions: &Vec<Peer>, index: usize, from: usize) -> (found: Option<usize>)
    ensures
        match found {
            Some(session) => first_provider(sessions@, index, from as nat, session as int),
            None => no_provider(sessions@, index, from as nat),
        },
{
    let mut s: usize = from;
    while s < sessions.len()
        invariant
            from <= s,
            forall|t: int|
                from <= t < s && t < sessions.len() ==> !(#[trigger] sessions[t])@.has_piece(
                    index as int,
                ),
        decreases sessions.len() - s,
    {
        if sessions[s].has_piece(index) {
            return Some(s);
        }
        s += 1;
    }
    None
}

impl EndgameView {
    /// Whether a piece is left to try.
    pub open spec fn active(self) -> bool {
        self.piece_pos < self.missing.len()
    }

    /// The piece being tried.
    pub open spec fn current(self) -> usize {
        self.missing[self.piece_pos as int]
    }
}

impl Endgame {
    pub closed spec fn view(&self) -> EndgameView {
        EndgameView {
            missing: self.missing@,
            piece_pos: self.piece_pos as nat,
            peer_pos: self.peer_pos as nat,
        }
    }

    /// The pieces that were missing when the sweep began.
    pub fn missing(&self) -> (missing: &Vec<usize>)
        ensures
            missing@ == self@.missing,
    {
        &self.missing
    }
}

impl Download {
    /// Begins the endgame sweep over the pieces that are not complete, in
    /// index order.
    pub fn endgame(&self) -> (sweep: Endgame)
        requires
            self.wf(),
        ensures
            sweep@.piece_pos == 0,
            sweep@.peer_pos == 0,
            forall|j: int, k: int|
                0 <= j < k < sweep@.missing.len() ==> sweep@.missing[j] < sweep@.missing[k],
            forall|i: usize|
                listed(sweep@.missing, i as int) <==> i < self@.registry.num_pieces()
                    && !self@.registry.completed.contains(i as int),
    {
        let mut missing: Vec<usize> = Vec::new();
        let mut i: usize = 0;
        let n: usize = self.piece_manager.num_pieces();
        while i < n
            invariant
                self.wf(),
                n == self@.registry.num_pieces(),
                i <= n,
                forall|j: int| 0 <= j < missing.len() ==> missing@[j] < i,
                forall|j: int, k: int| 0 <= j < k < missing.len() ==> missing@[j] < missing@[k],
                forall|x: usize|
                    listed(missing@, x as int) <==> x < i && !self@.registry.completed.contains(
                        x as int,
                    ),
            decreases n - i,
        {
            let ghost before = missing@;
            if !self.piece_manager.is_completed(i) {
                missing.push(i);
                assert forall|x: usize|
                    listed(missing@, x as int) <==> x < i + 1
                        && !self@.registry.completed.contains(x as int) by {
                    if listed(missing@, x as int) {
                        let k = choose|k: int| 0 <= k < missing@.len() && missing@[k] == x as int;
                        if k < before.len() {
                            assert(before[k] == x);
                            assert(listed(before, x as int));
                        }
                    }
                    if x < i + 1 && !self@.registry.completed.contains(x as int) {
                        if x < i {
                            assert(listed(before, x as int));
                            let k = choose|k: int| 0 <= k < before.len() && before[k] == x as int;
                            assert(missing@[k] == x);
                        } else {
                            assert(missing@[before.len() as int] == x);
                        }
                    }
                }
            } else {
                assert forall|x: usize|
                    listed(missing@, x as int) <==> x < i + 1
                        && !self@.registry.completed.contains(x as int) by {
                    if x < i + 1 && !self@.registry.completed.contains(x as int) {
                        assert(x < i);
                    }
                }
            }
            i += 1;
        }
        Endgame { missing, piece_pos: 0, peer_pos: 0 }
    }

    /// Says what the sweep does next: when no piece is left, it has
    /// finished; else the piece being tried is asked of the first session
    /// not yet asked that advertises it, and when there is none, the
    /// download has failed.
    pub fn endgame_next(&self, sweep: &mut Endgame, sessions: &Vec<Peer>) -> (step: EndgameStep)
        requires
            self.wf(),
        ensures
            final(sweep)@.missing == old(sweep)@.missing,
            final(sweep)@.piece_pos == old(sweep)@.piece_pos,
            !old(sweep)@.active() ==> step is Finished && final(sweep)@ == old(sweep)@,
            old(sweep)@.active() && old(sweep)@.current() >= self@.registry.num_pieces() ==> (step
                matches EndgameStep::Failed(e) && e == BitTorrentError::Piece(
                PieceFailure::NotFound,
            ) && final(sweep)@ == old(sweep)@),
            old(sweep)@.active() && old(sweep)@.current() < self@.registry.num_pieces() ==> (
            match step {
                EndgameStep::Request { session, piece } => {
                    &&& first_provider(
                        sessions@,
                        old(sweep)@.current(),
                        old(sweep)@.peer_pos,
                        session as int,
                    )
                    &&& piece == self@.registry.pieces[old(sweep)@.current() as int]
                    &&& final(sweep)@.peer_pos == session
                },
                EndgameStep::Failed(e) => {
                    &&& no_provider(sessions@, old(sweep)@.current(), old(sweep)@.peer_pos)
                    &&& e == BitTorrentError::Download
                    &&& final(sweep)@.peer_pos >= sessions.len()
                },
                EndgameStep::Finished => false,
            }),
    {
        if sweep.piece_pos >= sweep.missing.len() {
            return EndgameStep::Finished;
        }
        let index: usize = sweep.missing[sweep.piece_pos];
        let piece: PieceInfo = match self.piece_manager.get_piece(index) {
            Some(piece) => *piece,
            None => {
                return EndgameStep::Failed(BitTorrentError::Piece(PieceFailure::NotFound));
            },
        };
        match find_provider(sessions, index, sweep.peer_pos) {
            Some(session) => {
                sweep.peer_pos = session;
                EndgameStep::Request { session, piece }
            },
            None => {
                if sweep.peer_pos < sessions.len() {
                    sweep.peer_pos = sessions.len();
                }
                EndgameStep::Failed(BitTorrentError::Download)
            },
        }
    }

    /// Takes the outcome of the request that the sweep asked for: bytes
    /// that verify are taken as a completed piece, and the sweep goes on to
    /// the next piece; anything else moves the sweep to the next session.
    pub fn endgame_result(
        &mut self,
        sweep: &mut Endgame,
        outcome: Result<Vec<u8>, BitTorrentError>,
    )
        requires
            old(self).wf(),
        ensures
            final(self).wf(),
            final(sweep)@.missing == old(sweep)@.missing,
            !old(sweep)@.active() ==> final(self)@ == old(self)@ && final(sweep)@ == old(sweep)@,
            old(sweep)@.active() ==> (match outcome_view(outcome) {
                Ok(data) if verifies(old(self)@.registry, old(sweep)@.current(), data) => {
                    &&& final(self)@ == old(self)@.handle(
                        TaskView::PieceCompleted {
                            index: old(sweep)@.current(),
                            hash: old(self)@.registry.pieces[old(sweep)@.current() as int]
                                .spec_hash(),
                            data,
                        },
                    )
                    &&& final(sweep)@.piece_pos == old(sweep)@.piece_pos + 1
                    &&& final(sweep)@.peer_pos == 0
                },
                _ => {
                    &&& final(self)@ == old(self)@
                    &&& final(sweep)@.piece_pos == old(sweep)@.piece_pos
                    &&& final(sweep)@.peer_pos == old(sweep)@.peer_pos + 1 || (
                    final(sweep)@.peer_pos == usize::MAX && old(sweep)@.peer_pos == usize::MAX)
                },
            }),
    {
        if sweep.piece_pos >= sweep.missing.len() {
            return ;
        }
        let index: usize = sweep.missing[sweep.piece_pos];
        let piece: Option<VerifiedPiece> = match outcome {
            Ok(data) => self.verified(index, data),
            Err(_) => None,
        };
        match piece {
            Some(piece) => {
                self.handle_result(TaskMessage::PieceCompleted { piece });
                sweep.piece_pos += 1;
                sweep.peer_pos = 0;
            },
            None => {
                if sweep.peer_pos < usize::MAX {
                    sweep.peer_pos += 1;
                }
            },
        }
    }
}

impl DownloadView {
    /// The download after a sequence of reports, the first report first.
    pub open spec fn handle_all(self, messages: Seq<TaskView>) -> DownloadView
        decreases messages.len(),
    {
        if messages.len() == 0 {
            self
        } else {
            self.handle_all(messages.drop_last()).handle(messages.last())
        }
    }
}

/// For every piece marked complete, the bytes at its place in the buffer
/// hash to its published digest.
pub proof fn lemma_completed_verified(download: DownloadView, i: int)
    requires
        download.valid(),
        download.registry.completed.contains(i),
    ensures
        0 <= i < download.registry.num_pieces(),
        i * download.registry.piece_length + download.registry.length_of(i)
            <= download.buffer.len(),
        sha1_digest(
            download.buffer.subrange(
                i * download.registry.piece_length,
                i * download.registry.piece_length + download.registry.length_of(i),
            ),
        ) == download.registry.pieces[i].spec_hash(),
{
    assert(download.holds(i));
}

/// Whatever reports come in, as long as completed pieces carry bytes that
/// hash to their digest: the download stays valid, no piece leaves the
/// completed set, and so the progress never falls.
pub proof fn lemma_reports_keep_valid(download: DownloadView, messages: Seq<TaskView>)
    requires
        download.valid(),
        forall|k: int| 0 <= k < messages.len() ==> (#[trigger] messages[k]).sound(),
    ensures
        download.handle_all(messages).valid(),
        download.registry.completed.subset_of(download.handle_all(messages).registry.completed),
        download.handle_all(messages).registry.num_pieces() == download.registry.num_pieces(),
        download.handle_all(messages).registry.completed.len()
            >= download.registry.completed.len(),
    decreases messages.len(),
{
    if messages.len() > 0 {
        let before = download.handle_all(messages.drop_last());
        assert forall|k: int| 0 <= k < messages.drop_last().len() implies (
        #[trigger] messages.drop_last()[k]).sound() by {
            assert(messages.drop_last()[k] == messages[k]);
        }
        lemma_reports_keep_valid(download, messages.drop_last());
        lemma_handle_keeps_valid(before, messages.last());
        vstd::set_lib::lemma_len_subset(
            before.registry.completed,
            before.handle(messages.last()).registry.completed,
        );
    }
}

/// When a worker delivers bytes that verify for a piece that is not
/// complete, and the coordinator takes the worker's report, the piece is
/// complete and the buffer holds exactly those bytes at its place.
pub proof fn lemma_delivered_piece_is_stored(
    download: DownloadView,
    worker: WorkerView,
    index: usize,
    data: Seq<u8>,
)
    requires
        download.valid(),
        verifies(download.registry, index, data),
        !download.registry.completed.contains(index as int),
        download.start_of(index as int) + data.len() <= usize::MAX,
    ensures
        ({
            let after = download.handle(worker.report(download.registry, index, Ok(data)));
            &&& after.valid()
            &&& after.registry.completed == download.registry.completed.insert(index as int)
            &&& after.piece_bytes(index as int) == data
            &&& after.failed == download.failed
        }),
{
    let report = worker.report(download.registry, index, Ok(data));
    lemma_handle_keeps_valid(download, report);
    lemma_store_keeps_pieces(download, index, data);
}

/// A completed piece that arrives for a piece that is complete already
/// changes nothing: the buffer keeps its bytes and the piece is not marked
/// again.
pub proof fn lemma_rewrite_changes_nothing(
    download: DownloadView,
    index: usize,
    hash: Seq<u8>,
    data: Seq<u8>,
)
    requires
        download.registry.completed.contains(index as int),
    ensures
        download.handle(TaskView::PieceCompleted { index, hash, data }) == download,
{
}

/// When every piece is complete and the piece count matches the resource
/// length, the buffer is exactly as long as the resource, and every byte of
/// it lies in exactly one piece, whose bytes in the buffer are verified.
pub proof fn lemma_complete_download(download: DownloadView, offset: int)
    requires
        download.valid(),
        download.registry.all_complete(),
        download.registry.total_length > 0,
        (download.registry.num_pieces() - 1) * download.registry.piece_length
            < download.registry.total_length <= download.registry.num_pieces()
            * download.registry.piece_length,
        0 <= offset < download.registry.total_length,
    ensures
        download.buffer.len() == download.registry.total_length,
        ({
            let i = offset / (download.registry.piece_length as int);
            &&& download.registry.completed.contains(i)
            &&& download.registry.covers(i, offset)
            &&& download.holds(i)
            &&& forall|j: int|
                0 <= j < download.registry.num_pieces() && #[trigger] download.registry.covers(
                    j,
                    offset,
                ) ==> j == i
        }),
{
    download.registry.lemma_pieces_tile(offset);
    let i = offset / (download.registry.piece_length as int);
    assert(download.registry.completed.contains(i));
    assert(download.registry.covers(i, offset));
}

/// The plan of the connection attempts: how many candidates there are,
/// which is dialled next, and how the attempts so far ended.
#[derive(Debug, Clone, Copy)]
pub struct ConnectPlan {
    candidates: usize,
    next: usize,
    in_flight: usize,
    connected: usize,
    failed: usize,
}

/// A connection plan as a mathematical value.
pub struct PlanView {
    /// The number of candidates.
    pub candidates: nat,
    /// The position of the candidate to dial next.
    pub next: nat,
    /// The number of attempts that are open.
    pub in_flight: nat,
    /// The number of attempts that gave a session.
    pub connected: nat,
    /// The number of attempts that failed.
    pub failed: nat,
}

impl PlanView {
    /// The plan at the start: the first candidates are dialled at once, as
    /// many as may be open together.
    pub open spec fn start(candidates: nat) -> PlanView {
        let first = if candidates < CONCURRENT_CONNECTS {
            candidates
        } else {
            CONCURRENT_CONNECTS as nat
        };
        PlanView { candidates, next: first, in_flight: first, connected: 0, failed: 0 }
    }

    /// Whether enough sessions are open or too many attempts have failed.
    pub open spec fn saturated(self) -> bool {
        self.connected >= MAX_PEERS || self.failed >= MAX_FAILED_ATTEMPTS
    }

    /// Whether the dialling has ended: enough sessions are open, too many
    /// attempts have failed, or no attempt is open.
    pub open spec fn done(self) -> bool {
        self.saturated() || self.in_flight == 0
    }

    /// The invariants of a plan: every candidate dialled is open, connected
    /// or failed; the ceilings hold; and no attempt is open only when the
    /// candidates are used up or the dialling has stopped.
    pub open spec fn valid(self) -> bool {
        &&& self.next <= self.candidates
        &&& self.connected + self.failed + self.in_flight == self.next
        &&& self.in_flight <= CONCURRENT_CONNECTS
        &&& self.connected <= MAX_PEERS
        &&& self.failed <= MAX_FAILED_ATTEMPTS
        &&& self.in_flight == 0 ==> self.next == self.candidates || self.saturated()
    }

    /// The plan after one attempt ended, and the candidate to dial in its
    /// place, if one is dialled. Once the dialling has ended, outcomes are
    /// not counted any more.
    pub open spec fn settle(self, success: bool) -> (PlanView, Option<nat>) {
        if self.done() {
            (self, None)
        } else {
            let counted = PlanView {
                in_flight: (self.in_flight - 1) as nat,
                connected: if success {
                    self.connected + 1
                } else {
                    self.connected
                },
                failed: if success {
                    self.failed
                } else {
                    self.failed + 1
                },
                ..self
            };
            if !counted.saturated() && counted.next < counted.candidates {
                (
                    PlanView {
                        next: counted.next + 1,
                        in_flight: counted.in_flight + 1,
                        ..counted
                    },
                    Some(counted.next),
                )
            } else {
                (counted, None)
            }
        }
    }

    /// How many outcomes can still be counted at most: the open attempts
    /// and the candidates not dialled yet.
    pub open spec fn pending(self) -> nat {
        (self.in_flight + self.candidates - self.next) as nat
    }
}

/// A plan starts valid, with no more than fifty attempts open and every
/// candidate still to be waited for.
pub proof fn lemma_start(candidates: nat)
    ensures
        PlanView::start(candidates).valid(),
        PlanView::start(candidates).pending() == candidates,
        PlanView::start(candidates).in_flight <= CONCURRENT_CONNECTS,
{
}

/// Counting an outcome keeps the invariants of a plan: never more than
/// fifty attempts are open, a hundred sessions established or two hundred
/// attempts failed. While the dialling has not ended each outcome leaves
/// one attempt less to wait for, so that the dialling ends after at most as
/// many outcomes as there are candidates. A candidate is dialled at most
/// once, in the order of the list.
pub proof fn lemma_settle(plan: PlanView, success: bool)
    requires
        plan.valid(),
    ensures
        plan.settle(success).0.valid(),
        !plan.done() ==> plan.settle(success).0.pending() + 1 == plan.pending(),
        plan.pending() == 0 ==> plan.done(),
        plan.settle(success).1 matches Some(candidate) ==> candidate == plan.next && candidate
            < plan.candidates && plan.settle(success).0.next == candidate + 1,
{
}

impl ConnectPlan {
    pub closed spec fn view(&self) -> PlanView {
        PlanView {
            candidates: self.candidates as nat,
            next: self.next as nat,
            in_flight: self.in_flight as nat,
            connected: self.connected as nat,
            failed: self.failed as nat,
        }
    }

    /// The plan for a list of `candidates` endpoints. The second result
    /// says how many candidates to dial at once: the first so many of the
    /// list.
    pub fn new(candidates: usize) -> (start: (Self, usize))
        ensures
            start.0@ == PlanView::start(candidates as nat),
            start.0@.valid(),
            start.1 == start.0@.in_flight,
    {
        let first: usize = if candidates < CONCURRENT_CONNECTS {
            candidates
        } else {
            CONCURRENT_CONNECTS
        };
        (Self { candidates, next: first, in_flight: first, connected: 0, failed: 0 }, first)
    }

    /// Whether the dialling has ended.
    pub fn is_done(&self) -> (done: bool)
        ensures
            done == self@.done(),
    {
        self.connected >= MAX_PEERS || self.failed >= MAX_FAILED_ATTEMPTS || self.in_flight == 0
    }

    /// The number of sessions established.
    pub fn connected(&self) -> (n: usize)
        ensures
            n == self@.connected,
    {
        self.connected
    }

    /// The number of failed attempts.
    pub fn failed(&self) -> (n: usize)
        ensures
            n == self@.failed,
    {
        self.failed
    }

    /// Counts the outcome of one attempt and says which candidate to dial
    /// in its place, if any.
    pub fn attempt_finished(&mut self, success: bool) -> (dial: Option<usize>)
        requires
            old(self)@.valid(),
        ensures
            final(self)@.valid(),
            final(self)@ == old(self)@.settle(success).0,
            match dial {
                Some(candidate) => old(self)@.settle(success).1 == Some(candidate as nat),
                None => old(self)@.settle(success).1 is None,
            },
    {
        if self.is_done() {
            return None;
        }
        self.in_flight -= 1;
        if success {
            self.connected += 1;
        } else {
            self.failed += 1;
        }
        if self.connected < MAX_PEERS && self.failed < MAX_FAILED_ATTEMPTS && self.next
            < self.candidates {
            let candidate: usize = self.next;
            self.next += 1;
            self.in_flight += 1;
            Some(candidate)
        } else {
            None
        }
    }

    /// Takes the outcome of one connection attempt, as `Peer::connect` gave
    /// it: a session joins `sessions` and counts as established, a fault
    /// counts as one failed attempt. Once the dialling has ended nothing is
    /// counted and no session is kept. The result says whether the session
    /// was kept and which candidate to dial next, if any.
    pub fn take_outcome(
        &mut self,
        outcome: Result<Peer, BitTorrentError>,
        sessions: &mut Vec<Peer>,
    ) -> (taken: (bool, Option<usize>))
        requires
            old(self)@.valid(),
        ensures
            final(self)@.valid(),
            final(self)@ == old(self)@.settle(outcome is Ok).0,
            match taken.1 {
                Some(candidate) => old(self)@.settle(outcome is Ok).1 == Some(candidate as nat),
                None => old(self)@.settle(outcome is Ok).1 is None,
            },
            taken.0 == (outcome is Ok && !old(self)@.done()),
            final(sessions)@ == (if taken.0 {
                old(sessions)@.push(outcome->Ok_0)
            } else {
                old(sessions)@
            }),
            old(sessions).len() == old(self)@.connected ==> final(sessions).len()
                == final(self)@.connected && final(sessions).len() <= MAX_PEERS,
    {
        let counted: bool = !self.is_done();
        match outcome {
            Ok(session) => {
                let dial = self.attempt_finished(true);
                if counted {
                    sessions.push(session);
                }
                (counted, dial)
            },
            Err(_) => {
                let dial = self.attempt_finished(false);
                (false, dial)
            },
        }
    }
}

/// A candidate whose reply greets for another torrent gives no session, and
/// its attempt counts as one failed attempt and as no session established.
pub proof fn lemma_mismatch_is_failed_attempt(
    plan: PlanView,
    addr: PeerAddr,
    info_hash: Seq<u8>,
    pieces: nat,
    reply: Seq<u8>,
    first: Option<MessageView>,
)
    requires
        plan.valid(),
        !plan.done(),
        spec_read_handshake(reply) matches Ok(greeting) && greeting.info_hash@
            != info_hash,
    ensures
        Peer::spec_connect(addr, info_hash, pieces, reply, first) is Err,
        plan.settle(Peer::spec_connect(addr, info_hash, pieces, reply, first) is Ok).0.failed
            == plan.failed + 1,
        plan.settle(Peer::spec_connect(addr, info_hash, pieces, reply, first) is Ok).0.connected
            == plan.connected,
{
    lemma_info_hash_mismatch(addr, info_hash, pieces, reply, first);
}

} // verus!
