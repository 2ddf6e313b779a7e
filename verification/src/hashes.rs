//! The piece hashes of a torrent: SHA-1 digests of 20 bytes each.

use vstd::prelude::*;

verus! {

/// The digests of the pieces of a torrent, in the order of the pieces.
#[derive(Debug, Clone)]
pub struct Hashes(pub Vec<[u8; 20]>);

impl View for Hashes {
    type V = Seq<Seq<u8>>;

    open spec fn view(&self) -> Seq<Seq<u8>> {
        Seq::new(self.0@.len(), |i: int| self.0@[i]@)
    }
}

/// The digests one after the other, as one byte string.
pub open spec fn concat_hashes(hashes: Seq<Seq<u8>>) -> Seq<u8>
    decreases hashes.len(),
{
    if hashes.len() == 0 {
        seq![]
    } else {
        concat_hashes(hashes.drop_last()) + hashes.last()
    }
}

/// The digests that a byte string of `20 * n` bytes is cut into.
pub open spec fn split_hashes(bytes: Seq<u8>) -> Seq<Seq<u8>> {
    Seq::new((bytes.len() / 20) as nat, |i: int| bytes.subrange(20 * i, 20 * i + 20))
}

/// Digests of 20 bytes each, written one after the other, take 20 bytes each.
pub proof fn lemma_concat_hashes_len(hashes: Seq<Seq<u8>>)
    requires
        forall|i: int| 0 <= i < hashes.len() ==> (#[trigger] hashes[i]).len() == 20,
    ensures
        concat_hashes(hashes).len() == 20 * hashes.len(),
    decreases hashes.len(),
{
    if hashes.len() > 0 {
        lemma_concat_hashes_len(hashes.drop_last());
    }
}

/// Cutting a byte string into digests and writing them one after the other
/// gives the byte string back.
pub proof fn lemma_concat_split(bytes: Seq<u8>)
    requires
        bytes.len() % 20 == 0,
    ensures
        concat_hashes(split_hashes(bytes)) == bytes,
    decreases bytes.len(),
{
    let hashes = split_hashes(bytes);
    if bytes.len() == 0 {
        assert(concat_hashes(hashes) =~= bytes);
    } else {
        let head = bytes.take(bytes.len() - 20);
        lemma_concat_split(head);
        let front = split_hashes(head);
        assert(head.len() == bytes.len() - 20);
        assert(head.len() / 20 == bytes.len() / 20 - 1);
        assert forall|i: int| 0 <= i < front.len() implies hashes.drop_last()[i] == front[i] by {
            assert(bytes.subrange(20 * i, 20 * i + 20) =~= head.subrange(20 * i, 20 * i + 20));
        }
        assert(hashes.drop_last() =~= front);
        assert(hashes.last() =~= bytes.subrange(bytes.len() - 20, bytes.len() as int));
        assert(concat_hashes(hashes) =~= bytes);
    }
}

/// Writing digests of 20 bytes each one after the other and cutting the
/// result gives the digests back.
pub proof fn lemma_split_concat(hashes: Seq<Seq<u8>>)
    requires
        forall|i: int| 0 <= i < hashes.len() ==> (#[trigger] hashes[i]).len() == 20,
    ensures
        concat_hashes(hashes).len() % 20 == 0,
        split_hashes(concat_hashes(hashes)) == hashes,
    decreases hashes.len(),
{
    lemma_concat_hashes_len(hashes);
    let bytes = concat_hashes(hashes);
    if hashes.len() == 0 {
        assert(split_hashes(bytes) =~= hashes);
    } else {
        let front = hashes.drop_last();
        lemma_split_concat(front);
        lemma_concat_hashes_len(front);
        let head = concat_hashes(front);
        assert forall|i: int| 0 <= i < hashes.len() implies split_hashes(bytes)[i] == hashes[i] by {
            if i < front.len() {
                assert(split_hashes(head)[i] == front[i]);
                assert(bytes.subrange(20 * i, 20 * i + 20) =~= head.subrange(20 * i, 20 * i + 20));
            } else {
                assert(bytes.subrange(20 * i, 20 * i + 20) =~= hashes.last());
            }
        }
        assert(split_hashes(bytes) =~= hashes);
    }
}

impl Hashes {
    /// Cuts a byte string into digests, unless its length is not a multiple of 20.
    pub fn from_bytes(bytes: &[u8]) -> (out: Option<Hashes>)
        ensures
            match out {
                Some(hashes) => bytes@.len() % 20 == 0 && hashes@ == split_hashes(bytes@),
                None => bytes@.len() % 20 != 0,
            },
    {
        let total: usize = bytes.len();
        if total % 20 != 0 {
            return None;
        }
        let count: usize = total / 20;
        let mut hashes: Vec<[u8; 20]> = Vec::new();
        let mut i: usize = 0;
        while i < count
            invariant
                i <= count,
                total == bytes@.len(),
                count * 20 == total,
                hashes@.len() == i,
                forall|k: int|
                    0 <= k < i ==> (#[trigger] hashes@[k])@ == bytes@.subrange(20 * k, 20 * k + 20),
            decreases count - i,
        {
            let mut digest = [0u8; 20];
            let mut j: usize = 0;
            while j < 20
                invariant
                    j <= 20,
                    i < count,
                    count * 20 == total,
                    total == bytes@.len(),
                    forall|k: int| 0 <= k < j ==> digest@[k] == bytes@[20 * i + k],
                decreases 20 - j,
            {
                digest[j] = bytes[20 * i + j];
                j += 1;
            }
            assert(digest@ =~= bytes@.subrange(20 * i, 20 * i + 20));
            hashes.push(digest);
            i += 1;
        }
        let out = Hashes(hashes);
        assert(out@ =~= split_hashes(bytes@));
        Some(out)
    }

    /// The digests one after the other, as one byte string.
    pub fn to_bytes(&self) -> (out: Vec<u8>)
        ensures
            out@ == concat_hashes(self@),
    {
        let mut out: Vec<u8> = Vec::new();
        let mut i: usize = 0;
        assert(self@.take(0) =~= Seq::<Seq<u8>>::empty());
        while i < self.0.len()
            invariant
                i <= self.0@.len(),
                out@ == concat_hashes(self@.take(i as int)),
            decreases self.0@.len() - i,
        {
            out.extend_from_slice(self.0[i].as_slice());
            proof {
                let next = self@.take(i + 1);
                assert(next.drop_last() =~= self@.take(i as int));
                assert(next.last() == self.0@[i as int]@);
            }
            i += 1;
        }
        assert(self@.take(i as int) =~= self@);
        out
    }

    /// How many digests there are.
    pub fn len(&self) -> (n: usize)
        ensures
            n == self@.len(),
    {
        self.0.len()
    }
}

} // verus!
