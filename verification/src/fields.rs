//! The metadata of a database and its record: a run of 32-bit words, each
//! four bytes, little endian.

use vstd::prelude::*;
use crate::branch::{is_order, is_permutation};
use crate::codec::{le_bytes, lemma_le_bytes_len};
use crate::point::Scalar;
use crate::query::Location;

verus! {

/// The bytes of a run of words: four for each, little endian.
pub open spec fn words_bytes(words: Seq<u32>) -> Seq<u8>
    decreases words.len(),
{
    if words.len() == 0 {
        Seq::empty()
    } else {
        words_bytes(words.drop_last()) + le_bytes(words.last() as int, 4)
    }
}

/// The word that four bytes stand for, the first being the lowest.
pub open spec fn word_of(b0: u8, b1: u8, b2: u8, b3: u8) -> int {
    b0 + 256 * b1 + 65536 * b2 + 16777216 * b3
}

/// The four bytes of a word stand for it.
pub proof fn lemma_word_bytes(w: u32)
    ensures
        le_bytes(w as int, 4).len() == 4,
        word_of(
            le_bytes(w as int, 4)[0],
            le_bytes(w as int, 4)[1],
            le_bytes(w as int, 4)[2],
            le_bytes(w as int, 4)[3],
        ) == w,
{
    reveal_with_fuel(le_bytes, 5);
    let v = w as int;
    let b = le_bytes(v, 4);
    assert(b[0] == (v % 256) as u8);
    assert(b[1] == ((v / 256) % 256) as u8);
    assert(b[2] == ((v / 256 / 256) % 256) as u8);
    assert(b[3] == ((v / 256 / 256 / 256) % 256) as u8);
}

/// A run of words takes four bytes for each, and the bytes of word `i` are
/// those from `4 * i` on.
pub proof fn lemma_words_bytes(words: Seq<u32>)
    ensures
        words_bytes(words).len() == 4 * words.len(),
        forall|i: int, k: int|
            0 <= i < words.len() && 0 <= k < 4 ==> words_bytes(words)[4 * i + k] == le_bytes(
                words[i] as int,
                4,
            )[k],
    decreases words.len(),
{
    if words.len() > 0 {
        let front = words.drop_last();
        lemma_words_bytes(front);
        lemma_le_bytes_len(words.last() as int, 4);
        assert forall|i: int, k: int| 0 <= i < words.len() && 0 <= k < 4 implies words_bytes(
            words,
        )[4 * i + k] == le_bytes(words[i] as int, 4)[k] by {
            if i < front.len() {
                assert(front[i] == words[i]);
                assert(words_bytes(words)[4 * i + k] == words_bytes(front)[4 * i + k]);
            } else {
                assert(words_bytes(words)[4 * i + k] == le_bytes(words.last() as int, 4)[4 * i
                    + k - 4 * front.len()]);
            }
        }
    }
}

/// Runs of words with the same bytes are the same.
pub proof fn lemma_words_bytes_decide(a: Seq<u32>, b: Seq<u32>)
    requires
        words_bytes(a) == words_bytes(b),
    ensures
        a == b,
{
    lemma_words_bytes(a);
    lemma_words_bytes(b);
    assert(a.len() == b.len());
    assert forall|i: int| 0 <= i < a.len() implies a[i] == b[i] by {
        lemma_word_bytes(a[i]);
        lemma_word_bytes(b[i]);
        assert(words_bytes(a)[4 * i + 0] == le_bytes(a[i] as int, 4)[0]);
        assert(words_bytes(a)[4 * i + 1] == le_bytes(a[i] as int, 4)[1]);
        assert(words_bytes(a)[4 * i + 2] == le_bytes(a[i] as int, 4)[2]);
        assert(words_bytes(a)[4 * i + 3] == le_bytes(a[i] as int, 4)[3]);
        assert(words_bytes(b)[4 * i + 0] == le_bytes(b[i] as int, 4)[0]);
        assert(words_bytes(b)[4 * i + 1] == le_bytes(b[i] as int, 4)[1]);
        assert(words_bytes(b)[4 * i + 2] == le_bytes(b[i] as int, 4)[2]);
        assert(words_bytes(b)[4 * i + 3] == le_bytes(b[i] as int, 4)[3]);
    }
    assert(a =~= b);
}

/// The bytes of a run of words.
pub fn write_words(words: &Vec<u32>) -> (out: Vec<u8>)
    ensures
        out@ == words_bytes(words@),
{
    let mut out: Vec<u8> = Vec::new();
    let mut i: usize = 0;
    proof {
        assert(words@.take(0) =~= Seq::<u32>::empty());
    }
    while i < words.len()
        invariant
            i <= words.len(),
            out@ == words_bytes(words@.take(i as int)),
        decreases words.len() - i,
    {
        let mut bytes = Scalar::encode(&words[i]).unwrap();
        proof {
            let next = words@.take(i as int + 1);
            assert(next.drop_last() =~= words@.take(i as int));
            assert(next.last() == words@[i as int]);
        }
        out.append(&mut bytes);
        i = i + 1;
    }
    proof {
        assert(words@.take(words.len() as int) =~= words@);
    }
    out
}

/// The run of words that `bytes` stand for, if their number is a multiple of
/// four.
pub fn read_words(bytes: &Vec<u8>) -> (r: Option<Vec<u32>>)
    ensures
        r is Some <==> bytes@.len() % 4 == 0,
        r matches Some(words) ==> words_bytes(words@) == bytes@,
{
    if bytes.len() % 4 != 0 {
        return None;
    }
    let count = bytes.len() / 4;
    let mut words: Vec<u32> = Vec::new();
    let mut i: usize = 0;
    proof {
        assert(bytes@.take(0) =~= words_bytes(words@));
    }
    while i < count
        invariant
            bytes.len() == 4 * count,
            i <= count,
            words.len() == i,
            words_bytes(words@) == bytes@.take(4 * i),
        decreases count - i,
    {
        let b0 = bytes[4 * i];
        let b1 = bytes[4 * i + 1];
        let b2 = bytes[4 * i + 2];
        let b3 = bytes[4 * i + 3];
        let word: u32 = b0 as u32 + 256 * (b1 as u32) + 65536 * (b2 as u32) + 16777216 * (
        b3 as u32);
        let ghost before = words@;
        words.push(word);
        proof {
            assert(words@.drop_last() =~= before);
            reveal_with_fuel(le_bytes, 5);
            let v = word as int;
            assert(v % 256 == b0);
            assert((v / 256) % 256 == b1);
            assert((v / 256 / 256) % 256 == b2);
            assert((v / 256 / 256 / 256) % 256 == b3);
            assert(le_bytes(v, 4) =~= seq![b0, b1, b2, b3]);
            assert(bytes@.take(4 * (i + 1)) =~= bytes@.take(4 * i) + seq![b0, b1, b2, b3]);
        }
        i = i + 1;
    }
    proof {
        assert(bytes@.take(4 * count) =~= bytes@);
    }
    Some(words)
}

/// The metadata of a database: what is fixed when it is made, where the tree
/// of each live level stands, and which rows are deleted.
pub struct Fields {
    /// A bucket with at least this many rows becomes a branch.
    pub max_data_size: u32,
    /// The number of pivots of a branch.
    pub branching_factor: u32,
    /// The order in which the pivots of a branch claim rows and bound
    /// children: a permutation of the numbers below `branching_factor`.
    pub order: Vec<usize>,
    /// The number of block summaries that a data store keeps at hand.
    pub bbox_cache_size: u32,
    /// The number of decoded blocks that a data store keeps at hand.
    pub data_list_cache_size: u32,
    /// For each live level the offset of its tree and the index of its data
    /// store.
    pub levels: Vec<(u64, u32)>,
    /// The locations of the deleted rows, in ascending order.
    pub tombstones: Vec<Location>,
}

/// Whether location `a` comes before `b`: by the index of the store, then by
/// the offset.
pub open spec fn location_before(a: Location, b: Location) -> bool {
    a.0 < b.0 || (a.0 == b.0 && a.1 < b.1)
}

/// Whether each location comes before its successor.
pub open spec fn locations_ascend(list: Seq<Location>) -> bool {
    forall|i: int| 0 <= i < list.len() - 1 ==> location_before(#[trigger] list[i], list[i + 1])
}

/// The low word of `v`.
pub open spec fn low_word(v: u64) -> u32 {
    (v % 0x1_0000_0000) as u32
}

/// The high word of `v`.
pub open spec fn high_word(v: u64) -> u32 {
    (v / 0x1_0000_0000) as u32
}

/// Word `i` of the levels: of each level the two words of its offset, the
/// low one first, then the index of its store.
pub open spec fn level_word(levels: Seq<(u64, u32)>, i: int) -> u32 {
    if i % 3 == 0 {
        low_word(levels[i / 3].0)
    } else if i % 3 == 1 {
        high_word(levels[i / 3].0)
    } else {
        levels[i / 3].1
    }
}

/// Word `i` of the deleted locations: of each location the index of its
/// store, then the two words of its offset, the low one first.
pub open spec fn tombstone_word(tombstones: Seq<Location>, i: int) -> u32 {
    if i % 3 == 0 {
        tombstones[i / 3].0
    } else if i % 3 == 1 {
        low_word(tombstones[i / 3].1)
    } else {
        high_word(tombstones[i / 3].1)
    }
}

impl Fields {
    /// Whether the fields can be written: the order is a permutation of the
    /// numbers below the branching factor, the number of levels and that of
    /// deleted locations fit a word each, and the deleted locations ascend.
    pub open spec fn wf(&self) -> bool {
        &&& self.order@.len() == self.branching_factor
        &&& is_permutation(self.order@)
        &&& self.levels@.len() <= u32::MAX
        &&& self.tombstones@.len() <= u32::MAX
        &&& locations_ascend(self.tombstones@)
    }

    /// The number of words of the record.
    pub open spec fn word_count(&self) -> nat {
        6 + self.order@.len() + 3 * self.levels@.len() + 3 * self.tombstones@.len()
    }

    /// Word `i` of the record. The record holds, in this order:
    /// `max_data_size`; `branching_factor`; the entries of `order`;
    /// `bbox_cache_size`; `data_list_cache_size`; the number of levels; the
    /// levels; the number of deleted locations; the deleted locations.
    pub open spec fn word_at(&self, i: int) -> u32 {
        let n = self.order@.len() as int;
        let l = self.levels@.len() as int;
        if i == 0 {
            self.max_data_size
        } else if i == 1 {
            self.branching_factor
        } else if i < 2 + n {
            self.order@[i - 2] as u32
        } else if i == 2 + n {
            self.bbox_cache_size
        } else if i == 3 + n {
            self.data_list_cache_size
        } else if i == 4 + n {
            l as u32
        } else if i < 5 + n + 3 * l {
            level_word(self.levels@, i - (5 + n))
        } else if i == 5 + n + 3 * l {
            self.tombstones@.len() as u32
        } else {
            tombstone_word(self.tombstones@, i - (6 + n + 3 * l))
        }
    }

    /// The words of the record.
    pub open spec fn words(&self) -> Seq<u32> {
        Seq::new(self.word_count(), |i: int| self.word_at(i))
    }

    /// The record of the fields: its words, four bytes each, little endian.
    pub open spec fn record(&self) -> Seq<u8> {
        words_bytes(self.words())
    }

    /// Whether the fields can be written.
    pub fn is_valid(&self) -> (r: bool)
        ensures
            r == self.wf(),
    {
        if self.order.len() > u32::MAX as usize || self.order.len() as u32
            != self.branching_factor {
            return false;
        }
        if !is_order(&self.order) {
            return false;
        }
        if self.levels.len() > u32::MAX as usize || self.tombstones.len() > u32::MAX as usize {
            return false;
        }
        locations_ascending(&self.tombstones)
    }

    /// The record of the fields.
    pub fn encode(&self) -> (r: Vec<u8>)
        requires
            self.wf(),
        ensures
            r@ == self.record(),
    {
        let n = self.order.len();
        let mut words: Vec<u32> = Vec::new();
        words.push(self.max_data_size);
        words.push(self.branching_factor);
        let mut i: usize = 0;
        while i < n
            invariant
                self.wf(),
                n == self.order@.len(),
                i <= n,
                words@.len() == 2 + i,
                forall|k: int| 0 <= k < 2 + i ==> words@[k] == self.word_at(k),
            decreases n - i,
        {
            words.push(self.order[i] as u32);
            i = i + 1;
        }
        words.push(self.bbox_cache_size);
        words.push(self.data_list_cache_size);
        words.push(self.levels.len() as u32);
        let mut i: usize = 0;
        while i < self.levels.len()
            invariant
                self.wf(),
                n == self.order@.len(),
                i <= self.levels@.len(),
                words@.len() == 5 + n + 3 * i,
                forall|k: int| 0 <= k < 5 + n + 3 * i ==> words@[k] == self.word_at(k),
            decreases self.levels@.len() - i,
        {
            let level = self.levels[i];
            words.push((level.0 % 0x1_0000_0000) as u32);
            words.push((level.0 / 0x1_0000_0000) as u32);
            words.push(level.1);
            i = i + 1;
        }
        words.push(self.tombstones.len() as u32);
        let ghost l = self.levels@.len();
        let mut i: usize = 0;
        while i < self.tombstones.len()
            invariant
                self.wf(),
                n == self.order@.len(),
                l == self.levels@.len(),
                i <= self.tombstones@.len(),
                words@.len() == 6 + n + 3 * l + 3 * i,
                forall|k: int| 0 <= k < 6 + n + 3 * l + 3 * i ==> words@[k] == self.word_at(k),
            decreases self.tombstones@.len() - i,
        {
            let location = self.tombstones[i];
            words.push(location.0);
            words.push((location.1 % 0x1_0000_0000) as u32);
            words.push((location.1 / 0x1_0000_0000) as u32);
            i = i + 1;
        }
        proof {
            assert(words@ =~= self.words());
        }
        write_words(&words)
    }
}

/// Whether each location comes before its successor.
pub fn locations_ascending(list: &Vec<Location>) -> (r: bool)
    ensures
        r == locations_ascend(list@),
{
    if list.len() < 2 {
        return true;
    }
    let mut i: usize = 0;
    while i < list.len() - 1
        invariant
            list.len() >= 2,
            i <= list.len() - 1,
            forall|k: int| 0 <= k < i ==> location_before(#[trigger] list@[k], list@[k + 1]),
        decreases list.len() - i,
    {
        let a = list[i];
        let b = list[i + 1];
        if !(a.0 < b.0 || (a.0 == b.0 && a.1 < b.1)) {
            return false;
        }
        i = i + 1;
    }
    true
}

/// Why bytes are not the record of any fields.
#[derive(Clone, Copy, Debug, PartialEq, Eq)]
pub enum DecodeError {
    /// The bytes are no whole words, end before the record does or go on
    /// after it, or hold an order that is no permutation or deleted locations
    /// that do not ascend.
    Corruption,
}

/// Fields whose record is made of `words` have these words.
pub proof fn lemma_same_words(fields: &Fields, words: Seq<u32>)
    requires
        fields.record() == words_bytes(words),
    ensures
        fields.words() == words,
        words.len() == fields.word_count(),
        forall|i: int| 0 <= i < words.len() ==> words[i] == fields.word_at(i),
{
    lemma_words_bytes_decide(fields.words(), words);
}

/// The two words of a number give it back.
pub proof fn lemma_two_words(v: u64)
    ensures
        v == low_word(v) + 0x1_0000_0000 * high_word(v),
{
}

/// Fields are fixed by their record: two that can be written and have the
/// same record are the same.
pub proof fn lemma_record_decides(a: &Fields, b: &Fields)
    requires
        a.wf(),
        b.wf(),
        a.record() == b.record(),
    ensures
        a.max_data_size == b.max_data_size,
        a.branching_factor == b.branching_factor,
        a.order@ == b.order@,
        a.bbox_cache_size == b.bbox_cache_size,
        a.data_list_cache_size == b.data_list_cache_size,
        a.levels@ == b.levels@,
        a.tombstones@ == b.tombstones@,
{
    let words = b.words();
    lemma_same_words(a, words);
    let n = a.order@.len() as int;
    assert(a.word_at(0) == b.word_at(0));
    assert(a.word_at(1) == b.word_at(1));
    assert(b.order@.len() == n);
    assert forall|i: int| 0 <= i < n implies a.order@[i] == b.order@[i] by {
        assert(a.word_at(2 + i) == b.word_at(2 + i));
        assert(a.order@[i] < n && b.order@[i] < n);
    }
    assert(a.order@ =~= b.order@);
    assert(a.word_at(2 + n) == b.word_at(2 + n));
    assert(a.word_at(3 + n) == b.word_at(3 + n));
    assert(a.word_at(4 + n) == b.word_at(4 + n));
    let l = a.levels@.len() as int;
    assert(b.levels@.len() == l);
    assert forall|i: int| 0 <= i < l implies a.levels@[i] == b.levels@[i] by {
        assert(a.word_at(5 + n + 3 * i) == b.word_at(5 + n + 3 * i));
        assert(a.word_at(5 + n + 3 * i + 1) == b.word_at(5 + n + 3 * i + 1));
        assert(a.word_at(5 + n + 3 * i + 2) == b.word_at(5 + n + 3 * i + 2));
        assert((3 * i) / 3 == i && (3 * i + 1) / 3 == i && (3 * i + 2) / 3 == i);
        lemma_two_words(a.levels@[i].0);
        lemma_two_words(b.levels@[i].0);
    }
    assert(a.levels@ =~= b.levels@);
    assert(a.word_at(5 + n + 3 * l) == b.word_at(5 + n + 3 * l));
    let t = a.tombstones@.len() as int;
    assert(b.tombstones@.len() == t);
    assert forall|i: int| 0 <= i < t implies a.tombstones@[i] == b.tombstones@[i] by {
        assert(a.word_at(6 + n + 3 * l + 3 * i) == b.word_at(6 + n + 3 * l + 3 * i));
        assert(a.word_at(6 + n + 3 * l + 3 * i + 1) == b.word_at(6 + n + 3 * l + 3 * i + 1));
        assert(a.word_at(6 + n + 3 * l + 3 * i + 2) == b.word_at(6 + n + 3 * l + 3 * i + 2));
        assert((3 * i) / 3 == i && (3 * i + 1) / 3 == i && (3 * i + 2) / 3 == i);
        lemma_two_words(a.tombstones@[i].1);
        lemma_two_words(b.tombstones@[i].1);
    }
    assert(a.tombstones@ =~= b.tombstones@);
}

/// The number that two words stand for, the low one first.
fn join_words(low: u32, high: u32) -> (v: u64)
    ensures
        low_word(v) == low,
        high_word(v) == high,
{
    (low as u64) + 0x1_0000_0000 * (high as u64)
}

/// Reads the record of fields. Succeeds on the record of fields that can be
/// written, and on nothing else.
pub fn decode(bytes: &Vec<u8>) -> (r: Result<Fields, DecodeError>)
    ensures
        r matches Ok(fields) ==> fields.wf() && fields.record() == bytes@,
        r is Err ==> forall|fields: Fields| fields.wf() ==> #[trigger] fields.record() != bytes@,
{
    let words = match read_words(bytes) {
        Some(words) => words,
        None => {
            proof {
                assert forall|fields: Fields| fields.wf() implies #[trigger] fields.record()
                    != bytes@ by {
                    lemma_words_bytes(fields.words());
                }
            }
            return Err(DecodeError::Corruption);
        },
    };
    proof {
        assert forall|fields: Fields|
            fields.wf() && #[trigger] fields.record() == bytes@ implies fields.words()
            == words@ by {
            lemma_same_words(&fields, words@);
        }
    }
    let len = words.len();
    if len < 6 {
        return Err(DecodeError::Corruption);
    }
    let max_data_size = words[0];
    let branching_factor = words[1];
    let n = branching_factor as usize;
    if len - 6 < n {
        proof {
            assert forall|fields: Fields| fields.wf() implies #[trigger] fields.record()
                != bytes@ by {
                if fields.record() == bytes@ {
                    assert(fields.words()[1] == fields.word_at(1));
                }
            }
        }
        return Err(DecodeError::Corruption);
    }
    let mut order: Vec<usize> = Vec::new();
    let mut i: usize = 0;
    while i < n
        invariant
            len == words.len(),
            len - 6 >= n,
            i <= n,
            order.len() == i,
            forall|k: int| 0 <= k < i ==> order@[k] == words@[2 + k],
        decreases n - i,
    {
        order.push(words[2 + i] as usize);
        i = i + 1;
    }
    let bbox_cache_size = words[2 + n];
    let data_list_cache_size = words[3 + n];
    let level_count = words[4 + n] as usize;
    let rest = len - 5 - n;
    if (rest - 1) / 3 < level_count {
        proof {
            assert forall|fields: Fields| fields.wf() implies #[trigger] fields.record()
                != bytes@ by {
                if fields.record() == bytes@ {
                    assert(fields.words()[1] == fields.word_at(1));
                    assert(fields.words()[4 + n] == fields.word_at(4 + n));
                }
            }
        }
        return Err(DecodeError::Corruption);
    }
    let mut levels: Vec<(u64, u32)> = Vec::new();
    let mut i: usize = 0;
    while i < level_count
        invariant
            len == words.len(),
            len - 6 >= n,
            rest == len - 5 - n,
            3 * level_count <= rest - 1,
            i <= level_count,
            levels.len() == i,
            forall|k: int|
                0 <= k < i ==> low_word((#[trigger] levels@[k]).0) == words@[5 + n + 3 * k]
                    && high_word(levels@[k].0) == words@[5 + n + 3 * k + 1] && levels@[k].1
                    == words@[5 + n + 3 * k + 2],
        decreases level_count - i,
    {
        let at = 5 + n + 3 * i;
        levels.push((join_words(words[at], words[at + 1]), words[at + 2]));
        i = i + 1;
    }
    let after = 5 + n + 3 * level_count;
    let tombstone_count = words[after] as usize;
    let left = len - after - 1;
    if left % 3 != 0 || left / 3 != tombstone_count {
        proof {
            assert forall|fields: Fields| fields.wf() implies #[trigger] fields.record()
                != bytes@ by {
                if fields.record() == bytes@ {
                    assert(fields.words()[1] == fields.word_at(1));
                    assert(fields.words()[4 + n] == fields.word_at(4 + n));
                    assert(fields.words()[after as int] == fields.word_at(after as int));
                }
            }
        }
        return Err(DecodeError::Corruption);
    }
    let mut tombstones: Vec<Location> = Vec::new();
    let mut i: usize = 0;
    while i < tombstone_count
        invariant
            len == words.len(),
            after + 1 + 3 * tombstone_count == len,
            i <= tombstone_count,
            tombstones.len() == i,
            forall|k: int|
                0 <= k < i ==> (#[trigger] tombstones@[k]).0 == words@[after + 1 + 3 * k]
                    && low_word(tombstones@[k].1) == words@[after + 1 + 3 * k + 1] && high_word(
                    tombstones@[k].1,
                ) == words@[after + 1 + 3 * k + 2],
        decreases tombstone_count - i,
    {
        let at = after + 1 + 3 * i;
        tombstones.push((words[at], join_words(words[at + 1], words[at + 2])));
        i = i + 1;
    }
    let fields = Fields {
        max_data_size,
        branching_factor,
        order,
        bbox_cache_size,
        data_list_cache_size,
        levels,
        tombstones,
    };
    proof {
        assert forall|other: Fields|
            other.wf() && #[trigger] other.record() == bytes@ implies other.order@
            == fields.order@ && other.tombstones@ == fields.tombstones@ by {
            let l = level_count as int;
            assert(other.words()[1] == other.word_at(1));
            assert(other.words()[4 + n] == other.word_at(4 + n));
            assert(other.words()[after as int] == other.word_at(after as int));
            assert forall|k: int| 0 <= k < n implies other.order@[k] == fields.order@[k] by {
                assert(other.words()[2 + k] == other.word_at(2 + k));
                assert(other.order@[k] < n);
            }
            assert(other.order@ =~= fields.order@);
            assert forall|k: int| 0 <= k < tombstone_count implies other.tombstones@[k]
                == fields.tombstones@[k] by {
                assert(other.words()[after + 1 + 3 * k] == other.word_at(after + 1 + 3 * k));
                assert(other.words()[after + 1 + 3 * k + 1] == other.word_at(
                    after + 1 + 3 * k + 1,
                ));
                assert(other.words()[after + 1 + 3 * k + 2] == other.word_at(
                    after + 1 + 3 * k + 2,
                ));
                assert((3 * k) / 3 == k && (3 * k + 1) / 3 == k && (3 * k + 2) / 3 == k);
                lemma_two_words(other.tombstones@[k].1);
                lemma_two_words(fields.tombstones@[k].1);
            }
            assert(other.tombstones@ =~= fields.tombstones@);
        }
    }
    if !is_order(&fields.order) || !locations_ascending(&fields.tombstones) {
        return Err(DecodeError::Corruption);
    }
    proof {
        assert(fields.word_count() == len);
        assert forall|k: int| 0 <= k < len implies words@[k] == fields.word_at(k) by {
            let l = level_count as int;
            if 2 <= k < 2 + n {
                assert(fields.order@[k - 2] == words@[2 + (k - 2)]);
            } else if 5 + n <= k < 5 + n + 3 * l {
                let j = (k - (5 + n)) / 3;
                assert(0 <= j < l);
                assert(low_word(fields.levels@[j].0) == words@[5 + n + 3 * j]);
            } else if k > after {
                let j = (k - (after + 1)) / 3;
                assert(0 <= j < tombstone_count);
                assert(fields.tombstones@[j].0 == words@[after + 1 + 3 * j]);
            }
        }
        assert(words@ =~= fields.words());
    }
    Ok(fields)
}

/// In an ascending list every location comes before all that follow it.
pub proof fn lemma_ascend_all(list: Seq<Location>, i: int, j: int)
    requires
        locations_ascend(list),
        0 <= i < j < list.len(),
    ensures
        location_before(list[i], list[j]),
    decreases j - i,
{
    if i + 1 < j {
        lemma_ascend_all(list, i, j - 1);
        assert(location_before(list[j - 1], list[j - 1 + 1]));
    }
}

impl Fields {
    /// Marks the row at `location` deleted: puts the location in its place
    /// among the deleted locations, unless it is there already. Returns
    /// whether the location is among them afterwards, which it is unless
    /// there was no room for one more.
    pub fn delete(&mut self, location: Location) -> (r: bool)
        requires
            old(self).wf(),
        ensures
            final(self).wf(),
            *final(self) == (Fields { tombstones: final(self).tombstones, ..*old(self) }),
            r == (old(self).tombstones@.contains(location) || old(self).tombstones@.len()
                < u32::MAX),
            forall|l: Location|
                #[trigger] final(self).tombstones@.contains(l) <==> old(self).tombstones@.contains(
                    l,
                ) || (r && l == location),
    {
        let ghost before = self.tombstones@;
        let mut k: usize = 0;
        while k < self.tombstones.len() && (self.tombstones[k].0 < location.0 || (
        self.tombstones[k].0 == location.0 && self.tombstones[k].1 < location.1))
            invariant
                self.tombstones@ == before,
                k <= before.len(),
                forall|i: int| 0 <= i < k ==> location_before(#[trigger] before[i], location),
            decreases before.len() - k,
        {
            k = k + 1;
        }
        if k < self.tombstones.len() && self.tombstones[k].0 == location.0
            && self.tombstones[k].1 == location.1 {
            proof {
                assert(before[k as int] == location);
            }
            return true;
        }
        proof {
            assert forall|i: int| 0 <= i < before.len() implies before[i] != location by {
                if i > k {
                    lemma_ascend_all(before, k as int, i);
                }
            }
        }
        if self.tombstones.len() >= u32::MAX as usize {
            return false;
        }
        self.tombstones.insert(k, location);
        proof {
            let after = self.tombstones@;
            assert forall|i: int| 0 <= i < after.len() - 1 implies location_before(
                #[trigger] after[i],
                after[i + 1],
            ) by {
                if i + 1 < k {
                    assert(location_before(before[i], before[i + 1]));
                } else if i + 1 == k {
                } else if i == k {
                } else {
                    assert(location_before(before[i - 1], before[i - 1 + 1]));
                }
            }
            assert forall|l: Location| #[trigger] after.contains(l) <==> before.contains(l) || l
                == location by {
                if after.contains(l) {
                    let i = choose|i: int| 0 <= i < after.len() && after[i] == l;
                    if i < k {
                        assert(before[i] == l);
                    } else if i > k {
                        assert(before[i - 1] == l);
                    }
                }
                if before.contains(l) {
                    let i = choose|i: int| 0 <= i < before.len() && before[i] == l;
                    if i < k {
                        assert(after[i] == l);
                    } else {
                        assert(after[i + 1] == l);
                    }
                }
                if l == location {
                    assert(after[k as int] == l);
                }
            }
        }
        true
    }
}

} // verus!
