//! The manifest of a torrent, as the engine consumes it.

use vstd::prelude::*;
use crate::error::BitTorrentError;
use crate::piece::spec_piece_length;
use crate::utils::{calculate_piece_hash, copy_array, sha1_digest};

verus! {

/// The manifest of a torrent.
#[derive(Debug, Clone)]
pub struct Torrent {
    announce: String,
    info: Info,
    info_hash: [u8; 20],
}

/// The info dictionary of a manifest.
#[derive(Debug, Clone)]
pub struct Info {
    pub name: String,
    pub piece_length: usize,
    pub pieces: PieceHashes,
    pub files: FileMode,
}

/// The files of a torrent: one file, or several laid end to end.
#[derive(Debug, Clone)]
pub enum FileMode {
    SingleFile { length: usize },
    MultiFile { files: Vec<FileInfo> },
}

/// One file of a multi-file torrent.
#[derive(Debug, Clone)]
pub struct FileInfo {
    pub length: usize,
    pub path: Vec<String>,
}

/// The published piece digests, in piece order.
#[derive(Debug, Clone)]
pub struct PieceHashes(pub Vec<[u8; 20]>);

/// The sum of the lengths of the first `n` files.
pub open spec fn spec_files_length(files: Seq<FileInfo>, n: int) -> nat
    decreases n,
{
    if n <= 0 {
        0
    } else {
        spec_files_length(files, n - 1) + files[n - 1].length as nat
    }
}

/// The digests as one byte string, each after the other.
pub open spec fn spec_concat(hashes: Seq<[u8; 20]>) -> Seq<u8> {
    Seq::new(hashes.len() * 20, |i: int| hashes[i / 20]@[i % 20])
}

impl FileMode {
    /// The length of the resource in bytes.
    pub open spec fn spec_total_length(self) -> nat {
        match self {
            FileMode::SingleFile { length } => length as nat,
            FileMode::MultiFile { files } => spec_files_length(files@, files@.len() as int),
        }
    }
}

impl PieceHashes {
    /// Cuts a byte string into digests of twenty bytes. A string whose
    /// length is no multiple of twenty is refused.
    pub fn from_bytes(v: &[u8]) -> (result: Result<PieceHashes, BitTorrentError>)
        ensures
            v.len() % 20 != 0 ==> result == Err::<PieceHashes, BitTorrentError>(
                BitTorrentError::InvalidData,
            ),
            v.len() % 20 == 0 ==> (result matches Ok(hashes) && hashes.0.len() == v.len() / 20
                && spec_concat(hashes.0@) == v@),
    {
        if v.len() % 20 != 0 {
            return Err(BitTorrentError::InvalidData);
        }
        let count: usize = v.len() / 20;
        let mut hashes: Vec<[u8; 20]> = Vec::new();
        let mut k: usize = 0;
        while k < count
            invariant
                count == v.len() / 20,
                v.len() % 20 == 0,
                k <= count,
                hashes.len() == k,
                forall|j: int| 0 <= j < k ==> (#[trigger] hashes[j])@ == v@.subrange(
                    j * 20,
                    j * 20 + 20,
                ),
            decreases count - k,
        {
            let hash: [u8; 20] = copy_array(v, k * 20);
            hashes.push(hash);
            k += 1;
        }
        assert(spec_concat(hashes@) =~= v@) by {
            assert forall|i: int| 0 <= i < v.len() implies spec_concat(hashes@)[i] == v@[i] by {
                let j = i / 20;
                assert(hashes[j]@ == v@.subrange(j * 20, j * 20 + 20));
                assert(hashes[j]@[i % 20] == v@.subrange(j * 20, j * 20 + 20)[i % 20]);
            }
        }
        Ok(PieceHashes(hashes))
    }

    /// The digests as one byte string.
    pub fn to_bytes(&self) -> (bytes: Vec<u8>)
        requires
            self.0.len() * 20 <= usize::MAX,
        ensures
            bytes@ == spec_concat(self.0@),
    {
        let mut bytes: Vec<u8> = Vec::new();
        let mut k: usize = 0;
        while k < self.0.len()
            invariant
                k <= self.0.len(),
                self.0.len() * 20 <= usize::MAX,
                bytes.len() == k * 20,
                forall|i: int| 0 <= i < k * 20 ==> bytes@[i] == self.0[i / 20]@[i % 20],
            decreases self.0.len() - k,
        {
            let ghost before = bytes@;
            bytes.extend_from_slice(&self.0[k]);
            assert forall|i: int| 0 <= i < (k + 1) * 20 implies bytes@[i] == self.0[i / 20]@[i
                % 20] by {
                if i >= k * 20 {
                    assert(i / 20 == k);
                    assert(bytes@[i] == self.0[k as int]@[i - k * 20]);
                } else {
                    assert(bytes@[i] == before[i]);
                }
            }
            k += 1;
        }
        assert(bytes@ =~= spec_concat(self.0@));
        bytes
    }
}

impl Torrent {
    /// The manifest with the given announce URL and info dictionary.
    /// `encoded_info` is the info dictionary as it stands encoded in the
    /// manifest: its digest is the info-hash.
    pub fn new(announce: String, info: Info, encoded_info: &[u8]) -> (torrent: Self)
        ensures
            torrent.spec_announce() == announce,
            torrent.spec_info() == info,
            torrent.spec_info_hash() == sha1_digest(encoded_info@),
    {
        Self { announce, info, info_hash: calculate_piece_hash(encoded_info) }
    }

    pub closed spec fn spec_announce(&self) -> String {
        self.announce
    }

    pub closed spec fn spec_info(&self) -> Info {
        self.info
    }

    pub closed spec fn spec_info_hash(&self) -> Seq<u8> {
        self.info_hash@
    }

    /// The announce URL of the tracker.
    pub fn announce(&self) -> (announce: &String)
        ensures
            *announce == self.spec_announce(),
    {
        &self.announce
    }

    /// The info dictionary.
    pub fn info(&self) -> (info: &Info)
        ensures
            *info == self.spec_info(),
    {
        &self.info
    }

    /// The digest that names the torrent on the wire.
    pub fn info_hash(&self) -> (hash: [u8; 20])
        ensures
            hash@ == self.spec_info_hash(),
    {
        self.info_hash
    }

    /// The length of the resource in bytes, when it fits the machine's
    /// integers: the length of the single file, or the sum of the lengths of
    /// the files.
    pub fn checked_total_length(&self) -> (total: Option<usize>)
        ensures
            match total {
                Some(n) => n == self.spec_info().files.spec_total_length(),
                None => self.spec_info().files.spec_total_length() > usize::MAX,
            },
    {
        match &self.info.files {
            FileMode::SingleFile { length } => Some(*length),
            FileMode::MultiFile { files } => sum_lengths(files),
        }
    }

    /// The number of pieces.
    pub fn piece_count(&self) -> (count: usize)
        ensures
            count == self.spec_info().pieces.0.len(),
    {
        self.info.pieces.0.len()
    }

    /// The length of piece `index`: the piece length of the manifest, but
    /// for the last piece what is left of the resource when that is less.
    /// An index that names no piece, and any piece of a manifest with piece
    /// length zero, has length zero.
    pub fn piece_length(&self, index: usize) -> (length: usize)
        requires
            self.spec_info().files.spec_total_length() <= usize::MAX,
        ensures
            length == (if index < self.spec_info().pieces.0.len() && self.spec_info().piece_length
                > 0 {
                spec_piece_length(
                    self.spec_info().piece_length as nat,
                    self.spec_info().files.spec_total_length(),
                    self.spec_info().pieces.0.len() as nat,
                    index as int,
                )
            } else {
                0
            }),
    {
        let count: usize = self.info.pieces.0.len();
        let nominal: usize = self.info.piece_length;
        if index >= count || nominal == 0 {
            return 0;
        }
        let remaining: usize = self.total_length() % nominal;
        if index == count - 1 && remaining != 0 {
            remaining
        } else {
            nominal
        }
    }

    /// The length of the resource in bytes.
    pub fn total_length(&self) -> (total: usize)
        requires
            self.spec_info().files.spec_total_length() <= usize::MAX,
        ensures
            total == self.spec_info().files.spec_total_length(),
    {
        match self.checked_total_length() {
            Some(total) => total,
            None => 0,
        }
    }
}

/// The sum of the lengths of the files, when it fits the machine's integers.
fn sum_lengths(files: &Vec<FileInfo>) -> (total: Option<usize>)
    ensures
        match total {
            Some(n) => n == spec_files_length(files@, files@.len() as int),
            None => spec_files_length(files@, files@.len() as int) > usize::MAX,
        },
{
    let mut total: usize = 0;
    let mut k: usize = 0;
    while k < files.len()
        invariant
            k <= files.len(),
            total == spec_files_length(files@, k as int),
        decreases files.len() - k,
    {
        let length: usize = files[k].length;
        if length > usize::MAX - total {
            proof {
                lemma_files_length_grows(files@, k + 1, files.len() as int);
            }
            return None;
        }
        total += length;
        k += 1;
    }
    Some(total)
}

proof fn lemma_files_length_grows(files: Seq<FileInfo>, m: int, n: int)
    requires
        0 <= m <= n,
    ensures
        spec_files_length(files, m) <= spec_files_length(files, n),
    decreases n - m,
{
    if m < n {
        lemma_files_length_grows(files, m, n - 1);
    }
}

/// Cutting the byte string of a list of digests gives the list back.
pub proof fn lemma_concat_determines(a: Seq<[u8; 20]>, b: Seq<[u8; 20]>)
    requires
        spec_concat(a) == spec_concat(b),
    ensures
        a == b,
{
    assert(a.len() * 20 == spec_concat(a).len());
    assert(b.len() * 20 == spec_concat(b).len());
    assert forall|j: int| 0 <= j < a.len() implies a[j] == b[j] by {
        assert forall|i: int| 0 <= i < 20 implies a[j]@[i] == b[j]@[i] by {
            let at = j * 20 + i;
            assert(at / 20 == j && at % 20 == i);
            assert(spec_concat(a)[at] == a[j]@[i]);
            assert(spec_concat(b)[at] == b[j]@[i]);
        }
        assert(a[j]@ =~= b[j]@);
    }
    assert(a =~= b);
}

} // verus!
