//! Piece descriptors and the piece registry: which peer advertises which
//! piece, which pieces are complete, and which piece a peer should fetch next.

use vstd::prelude::*;
use vstd::set_lib::*;
use crate::utils::{bit_set, calculate_piece_hash, same_bytes, sha1_digest, spec_bit_set};

verus! {

/// One piece of the resource: its index, its published digest and its length.
#[derive(Debug, Clone, Copy)]
pub struct PieceInfo {
    index: usize,
    hash: [u8; 20],
    length: usize,
    priority: i32,
}

impl PieceInfo {
    pub closed spec fn spec_index(&self) -> usize {
        self.index
    }

    pub closed spec fn spec_hash(&self) -> Seq<u8> {
        self.hash@
    }

    pub closed spec fn spec_length(&self) -> usize {
        self.length
    }

    pub closed spec fn spec_priority(&self) -> i32 {
        self.priority
    }

    /// A descriptor with priority zero.
    pub fn new(index: usize, hash: [u8; 20], length: usize) -> (piece: Self)
        ensures
            piece.spec_index() == index,
            piece.spec_hash() == hash@,
            piece.spec_length() == length,
            piece.spec_priority() == 0,
    {
        Self { index, hash, length, priority: 0 }
    }

    #[verifier::when_used_as_spec(spec_index)]
    pub fn index(&self) -> (index: usize)
        ensures
            index == self.spec_index(),
    {
        self.index
    }

    #[verifier::when_used_as_spec(spec_length)]
    pub fn length(&self) -> (length: usize)
        ensures
            length == self.spec_length(),
    {
        self.length
    }

    /// The published digest of the piece.
    pub fn hash(&self) -> (hash: [u8; 20])
        ensures
            hash@ == self.spec_hash(),
    {
        self.hash
    }

    #[verifier::when_used_as_spec(spec_priority)]
    pub fn priority(&self) -> (priority: i32)
        ensures
            priority == self.spec_priority(),
    {
        self.priority
    }

    /// Changes the priority and nothing else.
    pub fn set_priority(&mut self, priority: i32)
        ensures
            final(self).spec_priority() == priority,
            final(self).spec_index() == old(self).spec_index(),
            final(self).spec_hash() == old(self).spec_hash(),
            final(self).spec_length() == old(self).spec_length(),
    {
        self.priority = priority;
    }
}

/// The length of piece `i` of `num_pieces`, for a resource of `total_length`
/// bytes cut into pieces of `piece_length` bytes: every piece is full but the
/// last, which holds the remainder when there is one.
pub open spec fn spec_piece_length(
    piece_length: nat,
    total_length: nat,
    num_pieces: nat,
    i: int,
) -> nat {
    if i == num_pieces - 1 && total_length % piece_length != 0 {
        total_length % piece_length
    } else {
        piece_length
    }
}

/// What one registered peer advertises: a flag per piece.
struct PeerPieces {
    slot: usize,
    have: Vec<bool>,
}

/// The registry of pieces: the descriptors, what each registered peer
/// advertises, and which pieces are complete.
pub struct PieceManager {
    piece_length: usize,
    total_length: usize,
    num_pieces: usize,
    pieces: Vec<PieceInfo>,
    peers: Vec<PeerPieces>,
    completed: Vec<bool>,
    completed_count: usize,
}

/// The registry as a mathematical value.
pub struct RegistryView {
    pub piece_length: nat,
    pub total_length: nat,
    /// The descriptors, in index order.
    pub pieces: Seq<PieceInfo>,
    /// For each registered peer slot, the piece indices it advertises.
    pub peers: Map<usize, Set<int>>,
    /// The indices of the completed pieces.
    pub completed: Set<int>,
}

/// Whether `i` occurs in a list of piece indices.
pub open spec fn listed(list: Seq<usize>, i: int) -> bool {
    exists|k: int| 0 <= k < list.len() && list[k] == i
}

impl RegistryView {
    pub open spec fn num_pieces(self) -> nat {
        self.pieces.len()
    }

    /// The invariants of a registry: the descriptors are in index order with
    /// the lengths the geometry gives them, and completed and advertised
    /// indices all name a piece.
    pub open spec fn valid(self) -> bool {
        &&& self.num_pieces() > 0 ==> self.piece_length > 0
        &&& forall|i: int|
            0 <= i < self.num_pieces() ==> (#[trigger] self.pieces[i]).spec_index() == i
                && self.pieces[i].spec_length() == spec_piece_length(
                self.piece_length,
                self.total_length,
                self.num_pieces(),
                i,
            )
        &&& forall|i: int| #[trigger] self.completed.contains(i) ==> 0 <= i < self.num_pieces()
        &&& forall|t: usize, i: int|
            self.peers.dom().contains(t) && #[trigger] self.peers[t].contains(i) ==> 0 <= i
                < self.num_pieces()
    }

    /// Whether the peer in `slot` is registered and advertises piece `i`.
    pub open spec fn advertises(self, slot: usize, i: int) -> bool {
        self.peers.dom().contains(slot) && self.peers[slot].contains(i)
    }

    /// The registered peers that advertise piece `i`.
    pub open spec fn providers(self, i: int) -> Set<usize> {
        Set::new(|t: usize| self.advertises(t, i))
    }

    /// How many registered peers advertise piece `i`.
    pub open spec fn availability(self, i: int) -> nat {
        self.providers(i).len()
    }

    /// Whether the peer in `slot` may be asked for piece `i`: it advertises
    /// the piece, the piece is not complete, and the blacklist does not hold it.
    pub open spec fn eligible(self, slot: usize, blacklist: Seq<usize>, i: int) -> bool {
        &&& self.advertises(slot, i)
        &&& !self.completed.contains(i)
        &&& !listed(blacklist, i)
    }

    /// Rarest first, the lower index among equally rare pieces.
    pub open spec fn preferred(self, i: int, j: int) -> bool {
        self.availability(i) < self.availability(j) || (self.availability(i)
            == self.availability(j) && i <= j)
    }

    /// Whether `i` is the piece that the selection policy picks for `slot`.
    pub open spec fn is_next(self, slot: usize, blacklist: Seq<usize>, i: int) -> bool {
        &&& self.eligible(slot, blacklist, i)
        &&& forall|j: int| self.eligible(slot, blacklist, j) ==> self.preferred(i, j)
    }

    /// Whether every piece is complete.
    pub open spec fn all_complete(self) -> bool {
        forall|i: int| 0 <= i < self.num_pieces() ==> self.completed.contains(i)
    }

    /// The length of piece `i`.
    pub open spec fn length_of(self, i: int) -> nat {
        self.pieces[i].spec_length() as nat
    }

    /// Whether piece `i`, laid at `i` times the piece length, holds the byte
    /// at `offset` of the resource.
    pub open spec fn covers(self, i: int, offset: int) -> bool {
        i * self.piece_length <= offset < i * self.piece_length + self.length_of(i)
    }

    /// The registry after the peer in `slot` was registered.
    pub open spec fn register_peer(self, slot: usize) -> RegistryView {
        RegistryView { peers: self.peers.insert(slot, Set::empty()), ..self }
    }

    /// The registry after the peer in `slot` was recorded as advertising `i`.
    pub open spec fn add_peer_piece(self, slot: usize, i: int) -> RegistryView {
        if self.peers.dom().contains(slot) && 0 <= i < self.num_pieces() {
            RegistryView { peers: self.peers.insert(slot, self.peers[slot].insert(i)), ..self }
        } else {
            self
        }
    }

    /// The registry after the peer in `slot` was removed.
    pub open spec fn remove_peer(self, slot: usize) -> RegistryView {
        RegistryView { peers: self.peers.remove(slot), ..self }
    }

    /// The registry after piece `i` was marked complete.
    pub open spec fn mark_completed(self, i: int) -> RegistryView {
        if 0 <= i < self.num_pieces() {
            RegistryView { completed: self.completed.insert(i), ..self }
        } else {
            self
        }
    }

    /// The pieces that a bitfield advertises: the set bits that name a piece.
    pub open spec fn advertised_by(self, bitfield: Seq<u8>) -> Set<int> {
        Set::new(|i: int| 0 <= i < self.num_pieces() && spec_bit_set(bitfield, i))
    }

    /// The registry after the peer in `slot` was registered with a bitfield.
    pub open spec fn register_bitfield(self, slot: usize, bitfield: Seq<u8>) -> RegistryView {
        RegistryView { peers: self.peers.insert(slot, self.advertised_by(bitfield)), ..self }
    }
}

/// Something that happens to a registry.
pub enum RegistryEvent {
    Register(usize),
    Advertise(usize, usize),
    Remove(usize),
    Complete(usize),
}

impl RegistryView {
    /// The registry after one event.
    pub open spec fn apply(self, event: RegistryEvent) -> RegistryView {
        match event {
            RegistryEvent::Register(slot) => self.register_peer(slot),
            RegistryEvent::Advertise(slot, i) => self.add_peer_piece(slot, i as int),
            RegistryEvent::Remove(slot) => self.remove_peer(slot),
            RegistryEvent::Complete(i) => self.mark_completed(i as int),
        }
    }

    /// The registry after a sequence of events, the first event first.
    pub open spec fn apply_all(self, events: Seq<RegistryEvent>) -> RegistryView
        decreases events.len(),
    {
        if events.len() == 0 {
            self
        } else {
            self.apply_all(events.drop_last()).apply(events.last())
        }
    }

    /// Every piece is at most as long as the nominal piece length and not
    /// empty, and a piece is shorter than that exactly when it is the last
    /// one and the resource does not end on a piece boundary.
    pub proof fn lemma_piece_lengths(self, i: int)
        requires
            self.valid(),
            0 <= i < self.num_pieces(),
        ensures
            0 < self.length_of(i) <= self.piece_length,
            self.length_of(i) == self.piece_length <==> (i < self.num_pieces() - 1
                || self.total_length % self.piece_length == 0),
    {
        assert(self.pieces[i].spec_length() == spec_piece_length(
            self.piece_length,
            self.total_length,
            self.num_pieces(),
            i,
        ));
    }

    /// When the piece count matches the resource length, the pieces laid end
    /// to end at multiples of the piece length cover the resource exactly:
    /// the last piece ends at the last byte, and every byte lies in the one
    /// piece that its offset divided by the piece length names.
    pub proof fn lemma_pieces_tile(self, offset: int)
        requires
            self.valid(),
            self.total_length > 0,
            (self.num_pieces() - 1) * self.piece_length < self.total_length <= self.num_pieces()
                * self.piece_length,
            0 <= offset < self.total_length,
        ensures
            (self.num_pieces() - 1) * self.piece_length + self.length_of(self.num_pieces() - 1)
                == self.total_length,
            0 <= offset / (self.piece_length as int) < self.num_pieces(),
            forall|i: int|
                0 <= i < self.num_pieces() ==> (#[trigger] self.covers(i, offset) <==> i == offset
                    / (self.piece_length as int)),
    {
        let l = self.piece_length as int;
        let n = self.total_length as int;
        let p = self.num_pieces() as int;
        assert(p > 0) by (nonlinear_arith)
            requires
                n > 0,
                n <= p * l,
                l >= 0,
                p >= 0,
        ;
        self.lemma_piece_lengths(p - 1);
        assert(n % l == (if n == p * l { 0 } else { n - (p - 1) * l }) && offset / l < p
            && offset / l >= 0) by (nonlinear_arith)
            requires
                l > 0,
                p > 0,
                (p - 1) * l < n <= p * l,
                0 <= offset < n,
        ;
        assert((p - 1) * l + l == p * l) by (nonlinear_arith);
        assert((p - 1) * l + self.length_of(p - 1) == n);
        assert forall|i: int| 0 <= i < p implies (#[trigger] self.covers(i, offset) <==> i
            == offset / l) by {
            self.lemma_piece_lengths(i);
            let len = self.length_of(i) as int;
            assert((i * l <= offset < i * l + l) <==> i == offset / l) by (nonlinear_arith)
                requires
                    l > 0,
                    0 <= offset,
                    0 <= i,
            ;
            if i == p - 1 {
                assert((p - 1) * l + len == n);
                if i * l <= offset {
                    assert(offset < i * l + len);
                }
            }
        }
    }

    /// The selection policy picks at most one piece.
    pub proof fn lemma_next_unique(self, slot: usize, blacklist: Seq<usize>, i: int, j: int)
        requires
            self.is_next(slot, blacklist, i),
            self.is_next(slot, blacklist, j),
        ensures
            i == j,
    {
        assert(self.preferred(i, j));
        assert(self.preferred(j, i));
    }

    /// The picked piece is one that the peer may be asked for, no eligible
    /// piece is rarer, and no equally rare eligible piece has a lower index.
    pub proof fn lemma_next_is_rarest(self, slot: usize, blacklist: Seq<usize>, i: int, j: int)
        requires
            self.is_next(slot, blacklist, i),
            self.eligible(slot, blacklist, j),
        ensures
            self.advertises(slot, i),
            !self.completed.contains(i),
            !listed(blacklist, i),
            self.availability(i) <= self.availability(j),
            self.availability(i) == self.availability(j) ==> i <= j,
    {
        assert(self.preferred(i, j));
    }

    /// Marking a piece complete a second time changes nothing.
    pub proof fn lemma_mark_completed_twice(self, i: int)
        ensures
            self.mark_completed(i).mark_completed(i) == self.mark_completed(i),
            self.mark_completed(i).mark_completed(i).completed.len() == self.mark_completed(
                i,
            ).completed.len(),
    {
        if 0 <= i < self.num_pieces() {
            assert(self.completed.insert(i).insert(i) =~= self.completed.insert(i));
        }
    }

    /// No event takes a piece out of the completed set or changes the number
    /// of pieces, so the progress never falls.
    pub proof fn lemma_progress_monotone(self, events: Seq<RegistryEvent>)
        requires
            self.completed.finite(),
        ensures
            self.completed.subset_of(self.apply_all(events).completed),
            self.apply_all(events).completed.finite(),
            self.apply_all(events).num_pieces() == self.num_pieces(),
            self.apply_all(events).completed.len() >= self.completed.len(),
        decreases events.len(),
    {
        if events.len() > 0 {
            let before = self.apply_all(events.drop_last());
            self.lemma_progress_monotone(events.drop_last());
            let after = before.apply(events.last());
            assert(before.completed.subset_of(after.completed));
            assert(after.completed.finite());
            lemma_len_subset(before.completed, after.completed);
        }
    }

    /// Bits beyond the last piece advertise nothing: a bitfield gives a peer
    /// exactly the pieces that its set bits below the piece count name, and
    /// no valid registry has a peer advertise an index that names no piece.
    pub proof fn lemma_trailing_bits_ignored(self, slot: usize, bitfield: Seq<u8>, i: int)
        requires
            self.valid(),
            i >= self.num_pieces(),
        ensures
            !self.advertises(slot, i),
            !self.register_bitfield(slot, bitfield).advertises(slot, i),
            self.register_bitfield(slot, bitfield).valid(),
            self.add_peer_piece(slot, i) == self,
    {
    }
}

/// The indices at which a sequence of flags is set.
pub open spec fn flags_set(flags: Seq<bool>) -> Set<int> {
    Set::new(|i: int| 0 <= i < flags.len() && flags[i])
}

spec fn has_slot(entries: Seq<PeerPieces>, slot: usize) -> bool {
    exists|k: int| 0 <= k < entries.len() && (#[trigger] entries[k]).slot == slot
}

spec fn slot_at(entries: Seq<PeerPieces>, slot: usize) -> int {
    choose|k: int| 0 <= k < entries.len() && (#[trigger] entries[k]).slot == slot
}

spec fn distinct_slots(entries: Seq<PeerPieces>) -> bool {
    forall|j: int, k: int|
        0 <= j < k < entries.len() ==> (#[trigger] entries[j]).slot != (#[trigger] entries[k]).slot
}

spec fn peers_map(entries: Seq<PeerPieces>) -> Map<usize, Set<int>> {
    Map::new(
        |t: usize| has_slot(entries, t),
        |t: usize| flags_set(entries[slot_at(entries, t)].have@),
    )
}

proof fn lemma_flags_set_finite(flags: Seq<bool>)
    ensures
        flags_set(flags).finite(),
        flags_set(flags).len() <= flags.len(),
{
    lemma_int_range(0, flags.len() as int);
    lemma_len_subset(flags_set(flags), set_int_range(0, flags.len() as int));
}

proof fn lemma_flags_set_update(flags: Seq<bool>, i: int)
    requires
        0 <= i < flags.len(),
    ensures
        flags_set(flags.update(i, true)) == flags_set(flags).insert(i),
        flags_set(flags.update(i, true)).len() == flags_set(flags).len() + (if flags[i] {
            0int
        } else {
            1int
        }),
{
    lemma_flags_set_finite(flags);
    assert(flags_set(flags.update(i, true)) =~= flags_set(flags).insert(i));
}

proof fn lemma_lookup(entries: Seq<PeerPieces>, k: int)
    requires
        distinct_slots(entries),
        0 <= k < entries.len(),
    ensures
        has_slot(entries, entries[k].slot),
        slot_at(entries, entries[k].slot) == k,
        peers_map(entries).dom().contains(entries[k].slot),
        peers_map(entries)[entries[k].slot] == flags_set(entries[k].have@),
{
    let t = entries[k].slot;
    assert(has_slot(entries, t));
    let c = slot_at(entries, t);
    assert(0 <= c < entries.len() && entries[c].slot == t);
    if c < k {
        assert(entries[c].slot != entries[k].slot);
    }
    if k < c {
        assert(entries[k].slot != entries[c].slot);
    }
}

proof fn lemma_entries_push(entries: Seq<PeerPieces>, entry: PeerPieces)
    requires
        distinct_slots(entries),
        !has_slot(entries, entry.slot),
    ensures
        distinct_slots(entries.push(entry)),
        peers_map(entries.push(entry)) == peers_map(entries).insert(
            entry.slot,
            flags_set(entry.have@),
        ),
{
    let after = entries.push(entry);
    assert forall|j: int, k: int| 0 <= j < k < after.len() implies (#[trigger] after[j]).slot != (
    #[trigger] after[k]).slot by {
        if k == entries.len() {
            assert(entries[j].slot != entry.slot);
        } else {
            assert(entries[j].slot != entries[k].slot);
        }
    }
    assert forall|k: int| 0 <= k < after.len() implies peers_map(entries).insert(
        entry.slot,
        flags_set(entry.have@),
    ).contains_pair((#[trigger] after[k]).slot, flags_set(after[k].have@)) by {
        if k < entries.len() {
            lemma_lookup(entries, k);
            assert(entries[k].slot != entry.slot);
        }
    }
    assert forall|t: usize|
        peers_map(entries).insert(entry.slot, flags_set(entry.have@)).dom().contains(
            t,
        ) implies has_slot(after, t) by {
        if t == entry.slot {
            assert(after[entries.len() as int].slot == t);
        } else {
            let k = slot_at(entries, t);
            assert(after[k].slot == t);
        }
    }
    lemma_entries_same(after, peers_map(entries).insert(entry.slot, flags_set(entry.have@)));
}

proof fn lemma_entries_update(entries: Seq<PeerPieces>, k: int, entry: PeerPieces)
    requires
        distinct_slots(entries),
        0 <= k < entries.len(),
        entry.slot == entries[k].slot,
    ensures
        distinct_slots(entries.update(k, entry)),
        peers_map(entries.update(k, entry)) == peers_map(entries).insert(
            entry.slot,
            flags_set(entry.have@),
        ),
{
    let after = entries.update(k, entry);
    assert forall|i: int, j: int| 0 <= i < j < after.len() implies (#[trigger] after[i]).slot != (
    #[trigger] after[j]).slot by {
        assert(entries[i].slot != entries[j].slot);
    }
    assert forall|j: int| 0 <= j < after.len() implies peers_map(entries).insert(
        entry.slot,
        flags_set(entry.have@),
    ).contains_pair((#[trigger] after[j]).slot, flags_set(after[j].have@)) by {
        if j != k {
            lemma_lookup(entries, j);
            if j < k {
                assert(entries[j].slot != entries[k].slot);
            } else {
                assert(entries[k].slot != entries[j].slot);
            }
        }
    }
    assert forall|t: usize|
        peers_map(entries).insert(entry.slot, flags_set(entry.have@)).dom().contains(
            t,
        ) implies has_slot(after, t) by {
        if t == entry.slot {
            assert(after[k].slot == t);
        } else {
            let j = slot_at(entries, t);
            assert(after[j].slot == t);
        }
    }
    lemma_entries_same(after, peers_map(entries).insert(entry.slot, flags_set(entry.have@)));
}

proof fn lemma_entries_remove(entries: Seq<PeerPieces>, k: int)
    requires
        distinct_slots(entries),
        0 <= k < entries.len(),
    ensures
        distinct_slots(entries.remove(k)),
        peers_map(entries.remove(k)) == peers_map(entries).remove(entries[k].slot),
{
    let after = entries.remove(k);
    assert forall|i: int, j: int| 0 <= i < j < after.len() implies (#[trigger] after[i]).slot != (
    #[trigger] after[j]).slot by {
        let i0 = if i < k { i } else { i + 1 };
        let j0 = if j < k { j } else { j + 1 };
        assert(entries[i0].slot != entries[j0].slot);
    }
    assert forall|j: int| 0 <= j < after.len() implies peers_map(entries).remove(
        entries[k].slot,
    ).contains_pair((#[trigger] after[j]).slot, flags_set(after[j].have@)) by {
        let j0 = if j < k { j } else { j + 1 };
        lemma_lookup(entries, j0);
        if j0 < k {
            assert(entries[j0].slot != entries[k].slot);
        } else {
            assert(entries[k].slot != entries[j0].slot);
        }
    }
    assert forall|t: usize|
        peers_map(entries).remove(entries[k].slot).dom().contains(t) implies has_slot(
        after,
        t,
    ) by {
        let j = slot_at(entries, t);
        assert(j != k);
        let j1 = if j < k { j } else { j - 1 };
        assert(after[j1].slot == t);
    }
    lemma_entries_same(after, peers_map(entries).remove(entries[k].slot));
}

/// A map that holds every entry's pair and whose keys are all slots of
/// entries is the map of those entries.
proof fn lemma_entries_same(entries: Seq<PeerPieces>, m: Map<usize, Set<int>>)
    requires
        distinct_slots(entries),
        forall|k: int|
            0 <= k < entries.len() ==> m.contains_pair(
                (#[trigger] entries[k]).slot,
                flags_set(entries[k].have@),
            ),
        forall|t: usize| m.dom().contains(t) ==> has_slot(entries, t),
    ensures
        peers_map(entries) == m,
{
    assert forall|t: usize| peers_map(entries).dom().contains(t) implies m.dom().contains(t)
        && peers_map(entries)[t] == m[t] by {
        let k = slot_at(entries, t);
        assert(m.contains_pair(entries[k].slot, flags_set(entries[k].have@)));
    }
    assert(peers_map(entries) =~= m);
}

spec fn prefix_providers(entries: Seq<PeerPieces>, i: int, n: int) -> Set<usize> {
    Set::new(
        |t: usize|
            exists|k: int| 0 <= k < n && (#[trigger] entries[k]).slot == t && entries[k].have@[i],
    )
}

spec fn count_have(entries: Seq<PeerPieces>, i: int, n: int) -> nat
    decreases n,
{
    if n <= 0 {
        0
    } else {
        count_have(entries, i, n - 1) + (if entries[n - 1].have@[i] {
            1nat
        } else {
            0nat
        })
    }
}

proof fn lemma_prefix_count(entries: Seq<PeerPieces>, i: int, n: int)
    requires
        distinct_slots(entries),
        0 <= n <= entries.len(),
    ensures
        prefix_providers(entries, i, n).finite(),
        prefix_providers(entries, i, n).len() == count_have(entries, i, n),
    decreases n,
{
    if n <= 0 {
        assert(prefix_providers(entries, i, n) =~= Set::<usize>::empty());
    } else {
        lemma_prefix_count(entries, i, n - 1);
        let last = entries[n - 1];
        if last.have@[i] {
            assert(!prefix_providers(entries, i, n - 1).contains(last.slot)) by {
                if prefix_providers(entries, i, n - 1).contains(last.slot) {
                    let k = choose|k: int|
                        0 <= k < n - 1 && (#[trigger] entries[k]).slot == last.slot
                            && entries[k].have@[i];
                    assert(entries[k].slot != entries[n - 1].slot);
                }
            }
            assert(prefix_providers(entries, i, n) =~= prefix_providers(entries, i, n - 1).insert(
                last.slot,
            )) by {
                assert forall|t: usize|
                    prefix_providers(entries, i, n - 1).insert(last.slot).contains(
                        t,
                    ) implies prefix_providers(entries, i, n).contains(t) by {
                    if t == last.slot {
                        assert(entries[n - 1].slot == t && entries[n - 1].have@[i]);
                    } else {
                        let k = choose|k: int|
                            0 <= k < n - 1 && (#[trigger] entries[k]).slot == t
                                && entries[k].have@[i];
                        assert(0 <= k < n && entries[k].slot == t && entries[k].have@[i]);
                    }
                }
            }
        } else {
            assert(prefix_providers(entries, i, n) =~= prefix_providers(entries, i, n - 1)) by {
                assert forall|t: usize|
                    prefix_providers(entries, i, n - 1).contains(
                        t,
                    ) implies prefix_providers(entries, i, n).contains(t) by {
                    let k = choose|k: int|
                        0 <= k < n - 1 && (#[trigger] entries[k]).slot == t
                            && entries[k].have@[i];
                    assert(0 <= k < n && entries[k].slot == t && entries[k].have@[i]);
                }
            }
        }
    }
}

proof fn lemma_providers_prefix(entries: Seq<PeerPieces>, i: int)
    requires
        distinct_slots(entries),
        forall|k: int| 0 <= k < entries.len() ==> 0 <= i < (#[trigger] entries[k]).have.len(),
    ensures
        prefix_providers(entries, i, entries.len() as int) == Set::new(
            |t: usize| peers_map(entries).dom().contains(t) && peers_map(entries)[t].contains(i),
        ),
{
    let whole = prefix_providers(entries, i, entries.len() as int);
    let by_map = Set::new(
        |t: usize| peers_map(entries).dom().contains(t) && peers_map(entries)[t].contains(i),
    );
    assert forall|t: usize| whole.contains(t) implies by_map.contains(t) by {
        let k = choose|k: int|
            0 <= k < entries.len() && (#[trigger] entries[k]).slot == t && entries[k].have@[i];
        lemma_lookup(entries, k);
    }
    assert forall|t: usize| by_map.contains(t) implies whole.contains(t) by {
        let k = slot_at(entries, t);
        lemma_lookup(entries, k);
        assert(entries[k].slot == t && entries[k].have@[i]);
    }
    assert(whole =~= by_map);
}

/// Whether `i` occurs in a list of piece indices.
fn contains_index(blacklist: &[usize], i: usize) -> (found: bool)
    ensures
        found == listed(blacklist@, i as int),
{
    let mut k: usize = 0;
    while k < blacklist.len()
        invariant
            k <= blacklist.len(),
            forall|j: int| 0 <= j < k ==> blacklist@[j] != i,
        decreases blacklist.len() - k,
    {
        if blacklist[k] == i {
            return true;
        }
        k += 1;
    }
    false
}

impl PieceManager {
    /// The representation invariant.
    pub closed spec fn wf(&self) -> bool {
        &&& self.pieces.len() == self.num_pieces
        &&& self.completed.len() == self.num_pieces
        &&& self.num_pieces > 0 ==> self.piece_length > 0
        &&& forall|i: int|
            0 <= i < self.num_pieces ==> (#[trigger] self.pieces[i]).index == i
                && self.pieces[i].length == spec_piece_length(
                self.piece_length as nat,
                self.total_length as nat,
                self.num_pieces as nat,
                i,
            )
        &&& distinct_slots(self.peers@)
        &&& forall|k: int|
            0 <= k < self.peers.len() ==> (#[trigger] self.peers[k]).have.len()
                == self.num_pieces
        &&& self.completed_count == flags_set(self.completed@).len()
    }

    pub closed spec fn view(&self) -> RegistryView {
        RegistryView {
            piece_length: self.piece_length as nat,
            total_length: self.total_length as nat,
            pieces: self.pieces@,
            peers: peers_map(self.peers@),
            completed: flags_set(self.completed@),
        }
    }

    /// Builds the registry of a resource of `total_length` bytes whose pieces
    /// have the digests `hashes`: no peer is registered and nothing is complete.
    pub fn new(piece_length: usize, hashes: Vec<[u8; 20]>, total_length: usize) -> (registry: Self)
        requires
            hashes.len() > 0 ==> piece_length > 0,
        ensures
            registry.wf(),
            registry@.valid(),
            registry@.piece_length == piece_length,
            registry@.total_length == total_length,
            registry@.num_pieces() == hashes.len(),
            forall|i: int|
                0 <= i < hashes.len() ==> (#[trigger] registry@.pieces[i]).spec_hash()
                    == hashes[i]@,
            registry@.peers == Map::<usize, Set<int>>::empty(),
            registry@.completed == Set::<int>::empty(),
    {
        let num_pieces: usize = hashes.len();
        let mut pieces: Vec<PieceInfo> = Vec::new();
        let mut completed: Vec<bool> = Vec::new();
        let mut i: usize = 0;
        while i < num_pieces
            invariant
                num_pieces == hashes.len(),
                num_pieces > 0 ==> piece_length > 0,
                0 <= i <= num_pieces,
                pieces.len() == i,
                completed.len() == i,
                forall|j: int| 0 <= j < i ==> !(#[trigger] completed[j]),
                forall|j: int|
                    0 <= j < i ==> (#[trigger] pieces[j]).index == j && pieces[j].hash
                        == hashes[j] && pieces[j].length == spec_piece_length(
                        piece_length as nat,
                        total_length as nat,
                        num_pieces as nat,
                        j,
                    ),
            decreases num_pieces - i,
        {
            let remaining: usize = total_length % piece_length;
            let length: usize = if i == num_pieces - 1 && remaining != 0 {
                remaining
            } else {
                piece_length
            };
            pieces.push(PieceInfo::new(i, hashes[i], length));
            completed.push(false);
            i += 1;
        }
        let registry = Self {
            piece_length,
            total_length,
            num_pieces,
            pieces,
            peers: Vec::new(),
            completed,
            completed_count: 0,
        };
        proof {
            assert(flags_set(registry.completed@) =~= Set::<int>::empty());
            assert(peers_map(registry.peers@) =~= Map::<usize, Set<int>>::empty());
            registry.lemma_view_valid();
        }
        registry
    }

    /// The position of a slot among the registered peers.
    fn find_peer(&self, slot: usize) -> (found: Option<usize>)
        requires
            self.wf(),
        ensures
            match found {
                Some(k) => k < self.peers.len() && self.peers[k as int].slot == slot,
                None => !has_slot(self.peers@, slot),
            },
    {
        let mut k: usize = 0;
        while k < self.peers.len()
            invariant
                k <= self.peers.len(),
                forall|j: int| 0 <= j < k ==> (#[trigger] self.peers[j]).slot != slot,
            decreases self.peers.len() - k,
        {
            if self.peers[k].slot == slot {
                return Some(k);
            }
            k += 1;
        }
        None
    }

    fn no_pieces(n: usize) -> (have: Vec<bool>)
        ensures
            have.len() == n,
            flags_set(have@) == Set::<int>::empty(),
    {
        let mut have: Vec<bool> = Vec::new();
        let mut i: usize = 0;
        while i < n
            invariant
                i <= n,
                have.len() == i,
                forall|j: int| 0 <= j < i ==> !(#[trigger] have[j]),
            decreases n - i,
        {
            have.push(false);
            i += 1;
        }
        assert(flags_set(have@) =~= Set::<int>::empty());
        have
    }

    /// Registers the peer in `slot` as advertising nothing; a peer that was
    /// registered before starts over.
    pub fn register_peer(&mut self, peer_id: usize)
        requires
            old(self).wf(),
        ensures
            final(self).wf(),
            final(self)@ == old(self)@.register_peer(peer_id),
    {
        let have = Self::no_pieces(self.num_pieces);
        self.install(peer_id, have);
    }

    /// Registers the peer in `slot` as advertising the pieces flagged in `have`.
    fn install(&mut self, peer_id: usize, have: Vec<bool>)
        requires
            old(self).wf(),
            have.len() == old(self)@.num_pieces(),
        ensures
            final(self).wf(),
            final(self)@ == (RegistryView {
                peers: old(self)@.peers.insert(peer_id, flags_set(have@)),
                ..old(self)@
            }),
    {
        let entry = PeerPieces { slot: peer_id, have };
        let ghost before = self.peers@;
        match self.find_peer(peer_id) {
            Some(k) => {
                self.peers.set(k, entry);
                proof {
                    lemma_entries_update(before, k as int, entry);
                }
            },
            None => {
                self.peers.push(entry);
                proof {
                    lemma_entries_push(before, entry);
                }
            },
        }
    }

    /// Registers the peer in `slot` with the pieces that its bitfield
    /// advertises. Bits that name no piece are ignored.
    pub fn register_bitfield(&mut self, peer_id: usize, bitfield: &[u8])
        requires
            old(self).wf(),
        ensures
            final(self).wf(),
            final(self)@ == old(self)@.register_bitfield(peer_id, bitfield@),
    {
        let mut have: Vec<bool> = Vec::new();
        let mut i: usize = 0;
        while i < self.num_pieces
            invariant
                i <= self.num_pieces,
                have.len() == i,
                forall|j: int| 0 <= j < i ==> #[trigger] have[j] == spec_bit_set(bitfield@, j),
            decreases self.num_pieces - i,
        {
            have.push(bit_set(bitfield, i));
            i += 1;
        }
        assert(flags_set(have@) =~= self@.advertised_by(bitfield@));
        self.install(peer_id, have);
    }

    /// Records that the peer in `slot` advertises `piece_index`. Nothing
    /// changes when the peer is not registered or the index names no piece.
    pub fn add_peer_piece(&mut self, peer_id: usize, piece_index: usize)
        requires
            old(self).wf(),
        ensures
            final(self).wf(),
            final(self)@ == old(self)@.add_peer_piece(peer_id, piece_index as int),
    {
        let ghost before = self.peers@;
        match self.find_peer(peer_id) {
            Some(k) => {
                if piece_index < self.num_pieces {
                    let mut have: Vec<bool> = Vec::new();
                    let slot: usize = self.peers[k].slot;
                    std::mem::swap(&mut have, &mut self.peers[k].have);
                    have.set(piece_index, true);
                    let entry = PeerPieces { slot, have };
                    self.peers.set(k, entry);
                    proof {
                        lemma_lookup(before, k as int);
                        lemma_flags_set_update(before[k as int].have@, piece_index as int);
                        lemma_entries_update(before, k as int, entry);
                        assert(entry.have@ == before[k as int].have@.update(
                            piece_index as int,
                            true,
                        ));
                        assert(self.peers@ =~= before.update(k as int, entry));
                    }
                }
            },
            None => {
                assert(!peers_map(before).dom().contains(peer_id));
            },
        }
    }

    /// Forgets the peer in `slot`; nothing changes when it is not registered.
    pub fn remove_peer(&mut self, peer_id: usize)
        requires
            old(self).wf(),
        ensures
            final(self).wf(),
            final(self)@ == old(self)@.remove_peer(peer_id),
    {
        let ghost before = self.peers@;
        match self.find_peer(peer_id) {
            Some(k) => {
                self.peers.remove(k);
                proof {
                    lemma_entries_remove(before, k as int);
                }
            },
            None => {
                assert(peers_map(before).remove(peer_id) =~= peers_map(before));
            },
        }
    }

    /// Whether the peer in `slot` is registered and advertises `piece_index`.
    pub fn has_piece(&self, peer_id: usize, piece_index: usize) -> (has: bool)
        requires
            self.wf(),
        ensures
            has == self@.advertises(peer_id, piece_index as int),
    {
        match self.find_peer(peer_id) {
            Some(k) => {
                proof {
                    lemma_lookup(self.peers@, k as int);
                }
                piece_index < self.num_pieces && self.peers[k].have[piece_index]
            },
            None => false,
        }
    }

    /// Whether `data` hashes to the published digest of piece `index`. An
    /// index that names no piece verifies nothing.
    pub fn verify_piece(&self, index: usize, data: &[u8]) -> (verified: bool)
        requires
            self.wf(),
        ensures
            verified == (index < self@.num_pieces() && sha1_digest(data@)
                == self@.pieces[index as int].spec_hash()),
    {
        if index >= self.num_pieces {
            return false;
        }
        let hash: [u8; 20] = calculate_piece_hash(data);
        same_bytes(&hash, &self.pieces[index].hash)
    }

    /// Marks piece `index` as complete. Marking a complete piece again, or an
    /// index that names no piece, changes nothing.
    pub fn mark_completed(&mut self, index: usize)
        requires
            old(self).wf(),
        ensures
            final(self).wf(),
            final(self)@ == old(self)@.mark_completed(index as int),
    {
        if index < self.num_pieces && !self.completed[index] {
            proof {
                lemma_flags_set_update(self.completed@, index as int);
                lemma_flags_set_finite(self.completed@.update(index as int, true));
            }
            self.completed.set(index, true);
            self.completed_count += 1;
        } else if index < self.num_pieces {
            assert(self@.completed.insert(index as int) =~= self@.completed);
        }
    }

    /// Whether every piece is complete.
    pub fn is_complete(&self) -> (complete: bool)
        requires
            self.wf(),
        ensures
            complete == self@.all_complete(),
            complete == (self@.completed.len() == self@.num_pieces()),
    {
        proof {
            let done = flags_set(self.completed@);
            let all = set_int_range(0, self.num_pieces as int);
            lemma_flags_set_finite(self.completed@);
            lemma_int_range(0, self.num_pieces as int);
            if done.len() == self.num_pieces {
                lemma_subset_equality(done, all);
                assert forall|i: int| 0 <= i < self.num_pieces implies done.contains(i) by {
                    assert(all.contains(i));
                }
            }
            if self@.all_complete() {
                assert forall|i: int| all.contains(i) implies done.contains(i) by {
                    assert(self@.completed.contains(i));
                }
                assert(done =~= all);
            }
        }
        self.completed_count == self.num_pieces
    }

    /// The progress of the download as a fraction: the number of completed
    /// pieces over the number of pieces.
    pub fn progress(&self) -> (fraction: (usize, usize))
        requires
            self.wf(),
        ensures
            fraction.0 == self@.completed.len(),
            fraction.1 == self@.num_pieces(),
    {
        (self.completed_count, self.num_pieces)
    }

    /// The descriptor of piece `index`, if there is such a piece.
    pub fn get_piece(&self, index: usize) -> (piece: Option<&PieceInfo>)
        requires
            self.wf(),
        ensures
            match piece {
                Some(p) => index < self@.num_pieces() && *p == self@.pieces[index as int],
                None => index >= self@.num_pieces(),
            },
    {
        if index < self.num_pieces {
            Some(&self.pieces[index])
        } else {
            None
        }
    }

    /// The number of pieces.
    pub fn num_pieces(&self) -> (n: usize)
        requires
            self.wf(),
        ensures
            n == self@.num_pieces(),
    {
        self.num_pieces
    }

    /// The nominal piece length.
    pub fn piece_length(&self) -> (n: usize)
        ensures
            n == self@.piece_length,
    {
        self.piece_length
    }

    /// Whether piece `index` is complete.
    pub fn is_completed(&self, index: usize) -> (done: bool)
        requires
            self.wf(),
        ensures
            done == self@.completed.contains(index as int),
    {
        index < self.num_pieces && self.completed[index]
    }

    /// How many registered peers advertise piece `piece_index`.
    pub fn availability(&self, piece_index: usize) -> (count: usize)
        requires
            self.wf(),
        ensures
            count == self@.availability(piece_index as int),
    {
        if piece_index >= self.num_pieces {
            proof {
                self.lemma_view_valid();
                assert(self@.providers(piece_index as int) =~= Set::<usize>::empty());
            }
            return 0;
        }
        let mut count: usize = 0;
        let mut k: usize = 0;
        while k < self.peers.len()
            invariant
                self.wf(),
                piece_index < self.num_pieces,
                k <= self.peers.len(),
                count == count_have(self.peers@, piece_index as int, k as int),
                count <= k,
            decreases self.peers.len() - k,
        {
            if self.peers[k].have[piece_index] {
                count += 1;
            }
            k += 1;
        }
        proof {
            lemma_prefix_count(self.peers@, piece_index as int, self.peers.len() as int);
            lemma_providers_prefix(self.peers@, piece_index as int);
            assert(self@.providers(piece_index as int) =~= prefix_providers(
                self.peers@,
                piece_index as int,
                self.peers.len() as int,
            ));
        }
        count
    }

    /// The piece that the peer in `slot` should fetch next: among the pieces
    /// it advertises that are neither complete nor listed, the one that
    /// the fewest registered peers advertise, and of several such the one
    /// with the lowest index. `None` when there is no such piece.
    pub fn next_piece_excluding(&self, peer_id: usize, blacklist: &[usize]) -> (next: Option<
        PieceInfo,
    >)
        requires
            self.wf(),
        ensures
            match next {
                Some(p) => p.index() < self@.num_pieces() && p == self@.pieces[p.index() as int]
                    && self@.is_next(peer_id, blacklist@, p.index() as int),
                None => forall|i: int| !self@.eligible(peer_id, blacklist@, i),
            },
    {
        proof {
            self.lemma_view_valid();
        }
        let k: usize = match self.find_peer(peer_id) {
            Some(k) => k,
            None => {
                return None;
            },
        };
        proof {
            lemma_lookup(self.peers@, k as int);
        }
        let mut best: Option<usize> = None;
        let mut best_count: usize = 0;
        let mut i: usize = 0;
        while i < self.num_pieces
            invariant
                self.wf(),
                self@.valid(),
                i <= self.num_pieces,
                k < self.peers.len(),
                self.peers[k as int].slot == peer_id,
                self@.peers.dom().contains(peer_id),
                self@.peers[peer_id] == flags_set(self.peers[k as int].have@),
                match best {
                    Some(b) => b < i && self@.eligible(peer_id, blacklist@, b as int) && best_count
                        == self@.availability(b as int) && forall|j: int|
                        0 <= j < i && self@.eligible(peer_id, blacklist@, j) ==> self@.preferred(
                            b as int,
                            j,
                        ),
                    None => forall|j: int| 0 <= j < i ==> !self@.eligible(peer_id, blacklist@, j),
                },
            decreases self.num_pieces - i,
        {
            let ghost before = best;
            let candidate: bool = self.peers[k].have[i] && !self.completed[i] && !contains_index(
                blacklist,
                i,
            );
            assert(candidate == self@.eligible(peer_id, blacklist@, i as int));
            if candidate {
                let count = self.availability(i);
                match best {
                    Some(b) => {
                        if count < best_count {
                            best = Some(i);
                            best_count = count;
                        }
                    },
                    None => {
                        best = Some(i);
                        best_count = count;
                    },
                }
            }
            proof {
                if let Some(b) = best {
                    assert forall|j: int|
                        0 <= j < i + 1 && self@.eligible(
                            peer_id,
                            blacklist@,
                            j,
                        ) implies self@.preferred(b as int, j) by {
                        if j < i {
                            if let Some(b0) = before {
                                assert(self@.preferred(b0 as int, j));
                            }
                        }
                    }
                }
            }
            i += 1;
        }
        match best {
            Some(b) => {
                let piece = self.pieces[b];
                assert(piece.index() == b);
                Some(piece)
            },
            None => None,
        }
    }

    /// The piece that the peer in `slot` should fetch next, with nothing
    /// listed.
    pub fn next_piece(&self, peer_id: usize) -> (next: Option<PieceInfo>)
        requires
            self.wf(),
        ensures
            match next {
                Some(p) => p.index() < self@.num_pieces() && p == self@.pieces[p.index() as int]
                    && self@.is_next(peer_id, Seq::<usize>::empty(), p.index() as int),
                None => forall|i: int| !self@.eligible(peer_id, Seq::<usize>::empty(), i),
            },
    {
        let none: [usize; 0] = [];
        assert(none@ =~= Seq::<usize>::empty());
        self.next_piece_excluding(peer_id, &none)
    }

    /// A well-formed registry has a valid view, with finitely many completed
    /// pieces.
    pub proof fn lemma_view_valid(&self)
        requires
            self.wf(),
        ensures
            self@.valid(),
            self@.completed.finite(),
            self@.completed.len() <= self@.num_pieces(),
            self@.num_pieces() <= usize::MAX,
    {
        lemma_flags_set_finite(self.completed@);
        let v = self@;
        assert forall|t: usize, i: int|
            v.peers.dom().contains(t) && #[trigger] v.peers[t].contains(i) implies 0 <= i
            < v.num_pieces() by {
            let k = slot_at(self.peers@, t);
            assert(self.peers[k].have.len() == self.num_pieces);
        }
    }
}

impl Default for PieceManager {
    /// The registry of a resource without pieces.
    fn default() -> (registry: Self)
        ensures
            registry.wf(),
            registry@.valid(),
            registry@.num_pieces() == 0,
            registry@.peers == Map::<usize, Set<int>>::empty(),
            registry@.completed == Set::<int>::empty(),
    {
        PieceManager::new(0, Vec::new(), 0)
    }
}

} // verus!
