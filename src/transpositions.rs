use vstd::prelude::*;
use crate::game::{Bitmap, Score, BITMAP_SIZE_BYTES};

verus! {

/// Number of slots: a prime, about 64 MB of entries.
pub const TTABLE_SIZE: usize = 8388593;

/// The key held in the low bits of a packed entry.
pub open spec fn word_key(w: u64) -> u64 {
    w & 0xff_ffff_ffff_ffff
}

/// The score held in the high byte of a packed entry.
pub open spec fn word_eval(w: u64) -> i8 {
    (w >> 56u64) as i8
}

/// The slot that a key goes to.
pub open spec fn slot_of(key: u64) -> int {
    (key % (TTABLE_SIZE as u64)) as int
}

/// What a lookup of `key` finds in `slots`: the stored score when the slot
/// holds that key, 0 otherwise.
pub open spec fn lookup(slots: Seq<u64>, key: u64) -> i8 {
    let w = slots[slot_of(key)];
    if word_key(w) == key {
        word_eval(w)
    } else {
        0
    }
}

/// Packs `key` and `eval` the way `Entry::from_pos` does.
pub open spec fn pack(key: u64, eval: i8) -> u64 {
    ((eval as u64) << 56u64) | key
}

/// The digit for bit `63 - i` of `x`: 64 binary digits, most significant first.
pub open spec fn binary_digit(x: u64, i: int) -> char {
    if (x >> (63 - i) as u64) & 1 == 1 {
        '1'
    } else {
        '0'
    }
}

/// Relies on `format!` with `{:064b}`: the binary digits of `x`, padded with
/// zeros to 64.
#[verifier::external_body]
fn binary64(x: u64) -> (r: String)
    ensures
        r@.len() == 64,
        forall|i: int| 0 <= i < 64 ==> r@[i] == binary_digit(x, i),
{
    format!("{:064b}", x)
}

/// A key and a score packed into one word; the all-zero word is the empty slot.
#[derive(Clone, Copy, PartialEq, Eq, Debug, Structural)]
pub struct Entry(u64);

impl Entry {
    pub closed spec fn word(&self) -> u64 {
        self.0
    }

    /// Packs `key` into the low seven bytes and `eval` into the high byte.
    /// Scores are stored biased to be positive, so `eval` is never negative.
    pub fn from_pos(key: Bitmap, eval: Score) -> (r: Self)
        requires
            key < 0x100_0000_0000_0000,
            eval >= 0,
        ensures
            r.word() == pack(key, eval),
            word_key(r.word()) == key,
            word_eval(r.word()) == eval,
    {
        let part1 = eval as u64;
        let offset = (BITMAP_SIZE_BYTES * 8) as u64;
        let part2 = key;
        proof {
            assert(offset == 56);
            assert((part1 << 56u64) + part2 < 0x1_0000_0000_0000_0000) by (bit_vector)
                requires
                    part2 < 0x100_0000_0000_0000,
            ;
            assert(((part1 << 56u64) + part2) as u64 == (part1 << 56u64) | part2)
                by (bit_vector)
                requires
                    part2 < 0x100_0000_0000_0000,
            ;
            let w = ((part1 << 56u64) + part2) as u64;
            assert(word_key(w) == part2) by (bit_vector)
                requires
                    part2 < 0x100_0000_0000_0000,
                    w == ((part1 << 56u64) + part2) as u64,
            ;
            assert((w >> 56u64) == part1) by (bit_vector)
                requires
                    part1 < 128,
                    part2 < 0x100_0000_0000_0000,
                    w == ((part1 << 56u64) + part2) as u64,
            ;
        }
        Self((part1 << offset) + part2)
    }

    pub fn get_key(&self) -> (r: Bitmap)
        ensures
            r == word_key(self.word()),
    {
        let high = u64::MAX - (u64::MAX >> 8u64);
        let mask = !high;
        assert(mask == 0xff_ffff_ffff_ffffu64) by (bit_vector)
            requires
                high == 0xffff_ffff_ffff_ffffu64 - (0xffff_ffff_ffff_ffffu64 >> 8u64),
                mask == !high,
        ;
        self.0 & mask
    }

    /// The stored key as 64 binary digits.
    pub fn bit_string(&self) -> (r: String)
        ensures
            r@.len() == 64,
            forall|i: int| 0 <= i < 64 ==> r@[i] == binary_digit(word_key(self.word()), i),
    {
        binary64(self.get_key())
    }

    pub fn get_eval(&self) -> (r: Score)
        ensures
            r == word_eval(self.word()),
    {
        let offset = (BITMAP_SIZE_BYTES * 8) as u64;
        (self.0 >> offset) as Score
    }
}

/// A fixed-size cache from position keys to scores; a new entry replaces
/// whatever held its slot.
pub struct TTable {
    t: Vec<Entry>,
}

impl TTable {
    /// The packed words of all slots.
    pub closed spec fn slots(&self) -> Seq<u64> {
        self.t@.map_values(|e: Entry| e.word())
    }

    pub open spec fn is_empty(&self) -> bool {
        &&& self.slots().len() == TTABLE_SIZE
        &&& forall|i: int| 0 <= i < TTABLE_SIZE ==> #[trigger] self.slots()[i] == 0
    }

    pub fn new() -> (r: Self)
        ensures
            r.is_empty(),
    {
        let t = vec![Entry(0); TTABLE_SIZE];
        let r = Self { t };
        assert forall|i: int| 0 <= i < TTABLE_SIZE implies #[trigger] r.slots()[i] == 0 by {
            assert(cloned(Entry(0), r.t@[i]));
        }
        r
    }

    /// Empties every slot.
    pub fn reset(&mut self)
        requires
            old(self).slots().len() == TTABLE_SIZE,
        ensures
            final(self).is_empty(),
    {
        let n = self.t.len();
        let mut i: usize = 0;
        while i < n
            invariant
                n == TTABLE_SIZE,
                self.t@.len() == n,
                i <= n,
                forall|j: int| 0 <= j < i ==> #[trigger] self.t@[j].word() == 0,
            decreases n - i,
        {
            self.t.set(i, Entry(0));
            i = i + 1;
        }
        assert forall|j: int| 0 <= j < TTABLE_SIZE implies #[trigger] self.slots()[j] == 0 by {
            assert(self.t@[j].word() == 0);
        }
    }

    /// Stores `eval` under `key`, replacing what its slot held.
    pub fn put(&mut self, key: Bitmap, eval: Score)
        requires
            old(self).slots().len() == TTABLE_SIZE,
            key < 0x100_0000_0000_0000,
            eval >= 0,
        ensures
            final(self).slots() == old(self).slots().update(slot_of(key), pack(key, eval)),
    {
        let i = Self::entry_hash(key);
        let e = Entry::from_pos(key, eval);
        self.t.set(i, e);
        assert(self.slots() =~= old(self).slots().update(slot_of(key), pack(key, eval)));
    }

    /// The score stored under `key`, or 0 when its slot holds another key.
    pub fn get(&self, key: Bitmap) -> (r: Score)
        requires
            self.slots().len() == TTABLE_SIZE,
        ensures
            r == lookup(self.slots(), key),
    {
        let i = Self::entry_hash(key);
        if self.t[i].get_key() == key {
            self.t[i].get_eval()
        } else {
            0
        }
    }

    fn entry_hash(e: Bitmap) -> (r: usize)
        ensures
            r == slot_of(e),
            r < TTABLE_SIZE,
    {
        (e % (TTABLE_SIZE as u64)) as usize
    }
}

/// A packed entry gives back its key and score, and is never the empty word
/// when the score is positive.
pub proof fn lemma_pack(key: u64, eval: i8)
    requires
        key < 0x100_0000_0000_0000,
        eval >= 0,
    ensures
        word_key(pack(key, eval)) == key,
        word_eval(pack(key, eval)) == eval,
        eval > 0 ==> pack(key, eval) != 0,
{
    let w = pack(key, eval);
    let e = eval as u64;
    assert(word_key(w) == key && (w >> 56u64) == e && (e > 0 ==> w != 0)) by (bit_vector)
        requires
            w == (e << 56u64) | key,
            key < 0x100_0000_0000_0000,
            e < 128,
    ;
}

/// An empty word reads as no key and no score.
pub proof fn lemma_empty_word()
    ensures
        word_key(0) == 0,
        word_eval(0) == 0,
{
    assert(word_key(0) == 0 && (0u64 >> 56u64) == 0) by (bit_vector);
}

/// Two keys that share a slot: after storing the first and then the second,
/// the first is gone and the second reads back as stored.
pub proof fn lemma_collision_overwrites(slots: Seq<u64>, k1: u64, s1: i8, k2: u64, s2: i8)
    requires
        slots.len() == TTABLE_SIZE,
        k1 < 0x100_0000_0000_0000,
        k2 < 0x100_0000_0000_0000,
        s1 >= 0,
        s2 >= 0,
        k1 != k2,
        slot_of(k1) == slot_of(k2),
    ensures
        ({
            let after = slots.update(slot_of(k1), pack(k1, s1)).update(slot_of(k2), pack(k2, s2));
            lookup(after, k1) == 0 && lookup(after, k2) == s2
        }),
{
    lemma_pack(k2, s2);
}

/// An emptied table finds nothing under any key.
pub proof fn lemma_empty_finds_nothing(t: &TTable, key: u64)
    requires
        t.is_empty(),
    ensures
        lookup(t.slots(), key) == 0,
{
    assert(t.slots()[slot_of(key)] == 0);
    lemma_empty_word();
}

} // verus!
