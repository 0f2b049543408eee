//! The table of contents: three parallel arrays that map a 128-bit key to the
//! place of its value in the data file.
//!
//! The index files hold `N` keys of 16 bytes, `N` offsets of 8 bytes and `N`
//! lengths of 2 bytes. Offsets and lengths are little-endian, the byte order
//! of the hosts that write and serve them.
use vstd::prelude::*;

use crate::wire::{be_value, le_value, lemma_be_bytes_of_value, lemma_be_value_bound, lemma_le_value_bound, lemma_pow256_values, read_be, read_le};

verus! {

/// Bytes of one key in the keys file.
pub const KEY_BYTES: usize = 16;

/// Bytes of one offset in the offsets file.
pub const OFFSET_BYTES: usize = 8;

/// Bytes of one length in the lengths file.
pub const LENGTH_BYTES: usize = 2;

/// Why the index files could not be read as a table of contents.
#[derive(Clone, Copy, Debug, PartialEq, Eq, Structural)]
pub enum TocError {
    /// A file's size does not agree with the number of keys.
    MalformedIndex,
}

/// One entry of the table: a key, and the offset and length of its value.
pub type Entry = (u128, u64, u16);

/// The rank of a key in key order: keys compare as the big-endian numbers
/// that their bytes spell.
pub open spec fn key_rank(key: Seq<u8>) -> nat {
    be_value(key)
}

/// Keys strictly ascending.
pub open spec fn is_sorted(entries: Seq<Entry>) -> bool {
    forall|i: int, j: int| 0 <= i < j < entries.len() ==> entries[i].0 < entries[j].0
}

/// Some entry has the key of rank `k`.
pub open spec fn has_key(entries: Seq<Entry>, k: nat) -> bool {
    exists|i: int| 0 <= i < entries.len() && entries[i].0 == k
}

/// The largest length in the table, or 0 when it is empty.
pub open spec fn max_length(entries: Seq<Entry>) -> nat
    decreases entries.len(),
{
    if entries.len() == 0 {
        0
    } else {
        let rest = max_length(entries.drop_last());
        if entries.last().2 as nat > rest {
            entries.last().2 as nat
        } else {
            rest
        }
    }
}

/// Every value lies within a data file of `data_len` bytes.
pub open spec fn values_fit(entries: Seq<Entry>, data_len: nat) -> bool {
    forall|i: int| 0 <= i < entries.len() ==> #[trigger] entries[i].1 + entries[i].2 <= data_len
}

/// The entry that the `i`-th key, offset and length of the files make.
pub open spec fn entry_at(uuids: Seq<u8>, offsets: Seq<u8>, lens: Seq<u8>, i: int) -> Entry {
    (
        be_value(uuids.subrange(16 * i, 16 * i + 16)) as u128,
        le_value(offsets.subrange(8 * i, 8 * i + 8)) as u64,
        le_value(lens.subrange(2 * i, 2 * i + 2)) as u16,
    )
}

/// The sizes of the three files agree on one number of entries.
pub open spec fn sizes_agree(uuids: Seq<u8>, offsets: Seq<u8>, lens: Seq<u8>) -> bool {
    &&& uuids.len() % 16 == 0
    &&& offsets.len() == uuids.len() / 16 * 8
    &&& lens.len() == uuids.len() / 16 * 2
}

/// The index: parallel keys, offsets and lengths, with the largest length.
pub struct TableOfContents {
    uuids: Vec<u128>,
    offsets: Vec<u64>,
    lens: Vec<u16>,
    max_len: usize,
}

impl View for TableOfContents {
    type V = Seq<Entry>;

    closed spec fn view(&self) -> Seq<Entry> {
        Seq::new(self.uuids@.len(), |i: int| (self.uuids@[i], self.offsets@[i], self.lens@[i]))
    }
}

impl TableOfContents {
    /// The three arrays are parallel and the maximum length is up to date.
    pub closed spec fn wf(&self) -> bool {
        &&& self.offsets@.len() == self.uuids@.len()
        &&& self.lens@.len() == self.uuids@.len()
        &&& self.max_len == max_length(self@)
    }

    /// Builds the table from the contents of the keys, offsets and lengths
    /// files; fails when their sizes disagree.
    pub fn from_bytes(uuids: &[u8], offsets: &[u8], lens: &[u8]) -> (r: Result<
        TableOfContents,
        TocError,
    >)
        ensures
            match r {
                Ok(toc) => {
                    &&& sizes_agree(uuids@, offsets@, lens@)
                    &&& toc.wf()
                    &&& toc@.len() == uuids@.len() / 16
                    &&& forall|i: int|
                        0 <= i < toc@.len() ==> #[trigger] toc@[i] == entry_at(
                            uuids@,
                            offsets@,
                            lens@,
                            i,
                        )
                },
                Err(e) => !sizes_agree(uuids@, offsets@, lens@) && e == TocError::MalformedIndex,
            },
    {
        let n = uuids.len() / KEY_BYTES;
        if uuids.len() % KEY_BYTES != 0 || offsets.len() / OFFSET_BYTES != n
            || offsets.len() % OFFSET_BYTES != 0 || lens.len() / LENGTH_BYTES != n
            || lens.len() % LENGTH_BYTES != 0 {
            return Err(TocError::MalformedIndex);
        }
        let mut keys: Vec<u128> = Vec::new();
        let mut offs: Vec<u64> = Vec::new();
        let mut lengths: Vec<u16> = Vec::new();
        let mut max_len: u16 = 0;
        let mut i: usize = 0;
        while i < n
            invariant
                n == uuids@.len() / 16,
                uuids@.len() == uuids.len(),
                offsets@.len() == offsets.len(),
                lens@.len() == lens.len(),
                sizes_agree(uuids@, offsets@, lens@),
                i <= n,
                keys@.len() == i,
                offs@.len() == i,
                lengths@.len() == i,
                max_len as nat == max_length(
                    Seq::new(i as nat, |j: int| (keys@[j], offs@[j], lengths@[j])),
                ),
                forall|j: int|
                    0 <= j < i ==> (keys@[j], offs@[j], lengths@[j]) == entry_at(
                        uuids@,
                        offsets@,
                        lens@,
                        j,
                    ),
            decreases n - i,
        {
            proof {
                let l = uuids@.len();
                assert(16 * i + 16 <= l && 8 * i + 8 <= n * 8 && 2 * i + 2 <= n * 2) by (nonlinear_arith)
                    requires
                        i < n,
                        n == l / 16,
                ;
                lemma_be_value_bound(uuids@.subrange(16 * i, 16 * i + 16));
                lemma_le_value_bound(offsets@.subrange(8 * i, 8 * i + 8));
                lemma_le_value_bound(lens@.subrange(2 * i, 2 * i + 2));
                lemma_pow256_values();
                reveal_with_fuel(crate::wire::pow256, 3);
            }
            let key = read_be(uuids, KEY_BYTES * i, KEY_BYTES);
            let off = read_le(offsets, OFFSET_BYTES * i, OFFSET_BYTES) as u64;
            let len = read_le(lens, LENGTH_BYTES * i, LENGTH_BYTES) as u16;
            let ghost before = Seq::new(i as nat, |j: int| (keys@[j], offs@[j], lengths@[j]));
            keys.push(key);
            offs.push(off);
            lengths.push(len);
            if len > max_len {
                max_len = len;
            }
            proof {
                let after = Seq::new((i + 1) as nat, |j: int| (keys@[j], offs@[j], lengths@[j]));
                assert(after.drop_last() =~= before);
            }
            i = i + 1;
        }
        let toc = TableOfContents { uuids: keys, offsets: offs, lens: lengths, max_len: max_len as usize };
        assert(toc@ =~= Seq::new(n as nat, |j: int| (keys@[j], offs@[j], lengths@[j])));
        Ok(toc)
    }

    /// The offset and length of the value stored under `uuid`.
    ///
    /// On a table with ascending keys this finds every key that the table
    /// holds and returns `None` for every other key. On any table a result
    /// is an entry of the table.
    pub fn offset_and_len(&self, uuid: &[u8; 16]) -> (r: Option<(u64, u16)>)
        requires
            self.wf(),
        ensures
            r matches Some((o, l)) ==> exists|i: int|
                0 <= i < self@.len() && #[trigger] self@[i] == (key_rank(uuid@) as u128, o, l),
            is_sorted(self@) ==> forall|i: int|
                0 <= i < self@.len() && #[trigger] self@[i].0 == key_rank(uuid@) ==> r == Some(
                    (self@[i].1, self@[i].2),
                ),
            is_sorted(self@) && !has_key(self@, key_rank(uuid@)) ==> r is None,
    {
        proof {
            lemma_be_value_bound(uuid@);
            lemma_pow256_values();
        }
        let key = key_rank_of(uuid);
        let ghost v = self@;
        let mut lo: usize = 0;
        let mut hi: usize = self.uuids.len();
        while lo < hi
            invariant
                self.wf(),
                v == self@,
                lo <= hi <= v.len(),
                key as nat == key_rank(uuid@),
                is_sorted(v) ==> forall|i: int| 0 <= i < lo ==> #[trigger] v[i].0 < key,
                is_sorted(v) ==> forall|i: int| hi <= i < v.len() ==> #[trigger] v[i].0 > key,
            decreases hi - lo,
        {
            let mid = lo + (hi - lo) / 2;
            let k = self.uuids[mid];
            assert(v[mid as int].0 == k);
            if k == key {
                let r = Some((self.offsets[mid], self.lens[mid]));
                assert(v[mid as int] == (key, self.offsets@[mid as int], self.lens@[mid as int]));
                return r;
            } else if k < key {
                lo = mid + 1;
            } else {
                hi = mid;
            }
        }
        None
    }

    /// The largest value length in the table: the most bytes a read may
    /// return. 0 for an empty table.
    pub fn max_len(&self) -> (r: usize)
        requires
            self.wf(),
        ensures
            r == max_length(self@),
    {
        self.max_len
    }

    /// Whether the keys are strictly ascending, as lookups need them to be.
    pub fn keys_ascending(&self) -> (r: bool)
        requires
            self.wf(),
        ensures
            r == is_sorted(self@),
    {
        let n = self.uuids.len();
        if n == 0 {
            return true;
        }
        let ghost v = self@;
        let mut i: usize = 1;
        while i < n
            invariant
                self.wf(),
                v == self@,
                n == v.len(),
                1 <= i <= n,
                forall|a: int, b: int| 0 <= a < b < i ==> v[a].0 < v[b].0,
            decreases n - i,
        {
            if self.uuids[i - 1] >= self.uuids[i] {
                assert(v[i - 1].0 >= v[i as int].0);
                return false;
            }
            assert forall|a: int, b: int| 0 <= a < b < i + 1 implies v[a].0 < v[b].0 by {
                if b == i && a < i - 1 {
                    assert(v[a].0 < v[i - 1].0);
                }
            }
            i = i + 1;
        }
        true
    }

    /// Whether every value lies within a data file of `data_len` bytes.
    pub fn entries_fit(&self, data_len: u64) -> (r: bool)
        requires
            self.wf(),
        ensures
            r == values_fit(self@, data_len as nat),
    {
        let n = self.uuids.len();
        let ghost v = self@;
        let mut i: usize = 0;
        while i < n
            invariant
                self.wf(),
                v == self@,
                n == v.len(),
                i <= n,
                forall|j: int| 0 <= j < i ==> #[trigger] v[j].1 + v[j].2 <= data_len,
            decreases n - i,
        {
            let off = self.offsets[i];
            let len = self.lens[i] as u64;
            assert(v[i as int].1 == off && v[i as int].2 == len);
            if off > data_len || len > data_len - off {
                return false;
            }
            i = i + 1;
        }
        true
    }

    /// Number of entries.
    pub fn len(&self) -> (r: usize)
        requires
            self.wf(),
        ensures
            r == self@.len(),
    {
        self.uuids.len()
    }
}

/// The rank of a 16-byte key.
fn key_rank_of(uuid: &[u8; 16]) -> (r: u128)
    ensures
        r as nat == key_rank(uuid@),
{
    proof {
        lemma_be_value_bound(uuid@);
        lemma_pow256_values();
    }
    let s: &[u8] = uuid.as_slice();
    assert(s@.subrange(0, 16) =~= uuid@);
    read_be(s, 0, KEY_BYTES)
}

/// `a` comes before `b` in lexicographic byte order: they agree up to some
/// byte, where `a` holds the smaller one.
pub open spec fn lex_less(a: Seq<u8>, b: Seq<u8>) -> bool {
    exists|i: int| 0 <= i < a.len() && i < b.len() && a.take(i) == b.take(i) && a[i] < b[i]
}

/// Ranks order keys of one length exactly as lexicographic byte order does,
/// and only equal keys have equal ranks.
pub proof fn lemma_key_order_is_lexicographic(a: Seq<u8>, b: Seq<u8>)
    requires
        a.len() == b.len(),
    ensures
        key_rank(a) < key_rank(b) <==> lex_less(a, b),
        key_rank(a) == key_rank(b) <==> a == b,
    decreases a.len(),
{
    lemma_be_bytes_of_value(a);
    lemma_be_bytes_of_value(b);
    if a.len() == 0 {
        assert(a =~= b);
    } else {
        let n = a.len() - 1;
        let (pa, pb) = (a.drop_last(), b.drop_last());
        let (x, y) = (a.last() as int, b.last() as int);
        let (va, vb) = (be_value(pa) as int, be_value(pb) as int);
        lemma_key_order_is_lexicographic(pa, pb);
        assert(be_value(a) == va * 256 + x);
        assert(be_value(b) == vb * 256 + y);
        if pa == pb {
            if x < y {
                assert(a.take(n) =~= pa && b.take(n) =~= pb);
                assert(lex_less(a, b));
            } else {
                assert(!lex_less(a, b)) by {
                    if lex_less(a, b) {
                        let i = choose|i: int|
                            0 <= i < a.len() && i < b.len() && a.take(i) == b.take(i) && a[i] < b[i];
                        if i < n {
                            assert(a[i] == pa[i] && b[i] == pb[i]);
                        }
                    }
                }
            }
            if a != b {
                assert(x != y) by {
                    if x == y {
                        assert(a =~= b) by {
                            assert forall|i: int| 0 <= i < a.len() implies a[i] == b[i] by {
                                if i < n {
                                    assert(a[i] == pa[i] && b[i] == pb[i]);
                                }
                            }
                        }
                    }
                }
            }
        } else {
            assert(va != vb);
            if va < vb {
                assert(va * 256 + x < vb * 256 + y) by (nonlinear_arith)
                    requires
                        va + 1 <= vb,
                        0 <= x < 256,
                        0 <= y,
                ;
            } else {
                assert(vb * 256 + y < va * 256 + x) by (nonlinear_arith)
                    requires
                        vb + 1 <= va,
                        0 <= y < 256,
                        0 <= x,
                ;
            }
            assert(lex_less(a, b) <==> lex_less(pa, pb)) by {
                if lex_less(a, b) {
                    let i = choose|i: int|
                        0 <= i < a.len() && i < b.len() && a.take(i) == b.take(i) && a[i] < b[i];
                    if i == n {
                        assert(pa =~= a.take(i) && pb =~= b.take(i));
                    }
                    assert(pa.take(i) =~= a.take(i) && pb.take(i) =~= b.take(i));
                    assert(pa[i] == a[i] && pb[i] == b[i]);
                }
                if lex_less(pa, pb) {
                    let i = choose|i: int|
                        0 <= i < pa.len() && i < pb.len() && pa.take(i) == pb.take(i) && pa[i] < pb[i];
                    assert(pa.take(i) =~= a.take(i) && pb.take(i) =~= b.take(i));
                    assert(pa[i] == a[i] && pb[i] == b[i]);
                }
            }
            assert(a != b) by {
                if a == b {
                    assert(pa == pb);
                }
            }
        }
    }
}

} // verus!
