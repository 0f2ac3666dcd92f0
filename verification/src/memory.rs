//! The segment store: a dense collection of word segments addressed by index,
//! with a pool of freed indices that allocation reuses, last freed first.

use vstd::prelude::*;

verus! {

/// A segment of `len` zero words.
pub open spec fn zeros(len: nat) -> Seq<u32> {
    Seq::new(len, |j: int| 0u32)
}

/// The mathematical state of a segment store.
#[verifier::ext_equal]
pub struct MemState {
    /// Every slot ever allocated, by index: the contents of the segment that
    /// is, or last was, mapped there.
    pub segments: Seq<Seq<u32>>,
    /// The freed indices that wait for reuse, the most recently freed last.
    pub free: Seq<u32>,
}

impl MemState {
    /// Whether `index` waits in the pool of freed indices.
    pub open spec fn pooled(self, index: int) -> bool {
        exists|j: int| 0 <= j < self.free.len() && #[trigger] self.free[j] == index
    }

    /// Whether a segment is mapped at `index`: the slot exists and is not in
    /// the pool.
    pub open spec fn is_mapped(self, index: int) -> bool {
        0 <= index < self.segments.len() && !self.pooled(index)
    }

    /// Whether the word at `offset` of the segment at `index` can be read and
    /// written: the segment is mapped and the offset lies inside it.
    pub open spec fn has_word(self, index: int, offset: int) -> bool {
        self.is_mapped(index) && 0 <= offset < self.segments[index].len()
    }

    /// The word at `offset` of the segment at `index`.
    pub open spec fn word(self, index: int, offset: int) -> u32 {
        self.segments[index][offset]
    }

    /// The store's invariant: segment 0 exists and is never in the pool,
    /// every index fits a 32-bit word, and the pool holds indices of existing
    /// slots, each at most once.
    pub open spec fn wf(self) -> bool {
        &&& 1 <= self.segments.len() <= 0x1_0000_0000
        &&& forall|j: int|
            0 <= j < self.free.len() ==> 0 < #[trigger] self.free[j] < self.segments.len()
        &&& forall|j: int, k: int|
            0 <= j < k < self.free.len() ==> #[trigger] self.free[j] != #[trigger] self.free[k]
    }

    /// Whether an allocation can hand out an index that fits a 32-bit word:
    /// the pool holds one, or the next new index is below 2^32.
    pub open spec fn can_allocate(self) -> bool {
        self.free.len() > 0 || self.segments.len() < 0x1_0000_0000
    }

    /// The index that the next allocation hands out: the most recently freed
    /// one, or with an empty pool the first index never used.
    pub open spec fn next_index(self) -> int {
        if self.free.len() > 0 {
            self.free.last() as int
        } else {
            self.segments.len() as int
        }
    }

    /// The store after an allocation of `len` words: the slot at
    /// `next_index()` holds `len` zeros, and the index has left the pool.
    pub open spec fn allocate(self, len: nat) -> MemState {
        if self.free.len() > 0 {
            MemState {
                segments: self.segments.update(self.free.last() as int, zeros(len)),
                free: self.free.drop_last(),
            }
        } else {
            MemState { segments: self.segments.push(zeros(len)), free: self.free }
        }
    }

    /// The store after `index` is freed: the index joins the pool as its most
    /// recent entry; the slot's contents stay.
    pub open spec fn release(self, index: u32) -> MemState {
        MemState { segments: self.segments, free: self.free.push(index) }
    }

    /// The store after segment 0 is replaced by a copy of the segment at
    /// `source`.
    pub open spec fn duplicate_into_zero(self, source: int) -> MemState {
        MemState { segments: self.segments.update(0, self.segments[source]), free: self.free }
    }

    /// The store after `value` is written at `offset` of the segment at
    /// `index`.
    pub open spec fn store(self, index: int, offset: int, value: u32) -> MemState {
        MemState {
            segments: self.segments.update(index, self.segments[index].update(offset, value)),
            free: self.free,
        }
    }
}

/// An allocation keeps the invariant, maps the index it hands out, which was
/// not mapped before and is never 0, fills that segment with zeros, and leaves
/// every other index and segment as it was.
pub proof fn lemma_allocate(s: MemState, len: nat)
    requires
        s.wf(),
        s.can_allocate(),
    ensures
        s.allocate(len).wf(),
        0 < s.next_index() < 0x1_0000_0000,
        !s.is_mapped(s.next_index()),
        s.allocate(len).is_mapped(s.next_index()),
        s.allocate(len).segments[s.next_index()] == zeros(len),
        forall|i: int| i != s.next_index() ==> s.allocate(len).is_mapped(i) == s.is_mapped(i),
        forall|i: int|
            0 <= i < s.segments.len() && i != s.next_index() ==> s.allocate(len).segments[i]
                == s.segments[i],
{
    let t = s.allocate(len);
    let n = s.next_index();
    if s.free.len() > 0 {
        let last = s.free.len() - 1;
        assert(s.free[last] == n);
        assert(s.pooled(n));
        assert forall|i: int| i != n implies t.pooled(i) == s.pooled(i) by {
            if s.pooled(i) {
                let j = choose|j: int| 0 <= j < s.free.len() && s.free[j] == i;
                assert(t.free[j] == i);
            }
            if t.pooled(i) {
                let j = choose|j: int| 0 <= j < t.free.len() && t.free[j] == i;
                assert(s.free[j] == i);
            }
        }
        assert(!t.pooled(n)) by {
            if t.pooled(n) {
                let j = choose|j: int| 0 <= j < t.free.len() && t.free[j] == n;
                assert(s.free[j] == s.free[last]);
            }
        }
        assert forall|j: int| 0 <= j < t.free.len() implies 0 < #[trigger] t.free[j]
            < t.segments.len() by {
            assert(t.free[j] == s.free[j]);
        }
        assert forall|j: int, k: int| 0 <= j < k < t.free.len() implies #[trigger] t.free[j]
            != #[trigger] t.free[k] by {
            assert(t.free[j] == s.free[j]);
            assert(t.free[k] == s.free[k]);
        }
    } else {
        assert forall|i: int| t.pooled(i) == s.pooled(i) by {}
    }
}

/// Freeing a mapped index other than 0 keeps the invariant, unmaps that
/// index, and leaves every other index and every segment's contents as they
/// were.
pub proof fn lemma_release(s: MemState, index: u32)
    requires
        s.wf(),
        s.is_mapped(index as int),
        index != 0,
    ensures
        s.release(index).wf(),
        !s.release(index).is_mapped(index as int),
        s.release(index).next_index() == index,
        s.release(index).segments == s.segments,
        forall|i: int| i != index ==> s.release(index).is_mapped(i) == s.is_mapped(i),
{
    let t = s.release(index);
    let last = s.free.len() as int;
    assert(t.free[last] == index);
    assert(t.pooled(index as int));
    assert forall|i: int| i != index implies t.pooled(i) == s.pooled(i) by {
        if s.pooled(i) {
            let j = choose|j: int| 0 <= j < s.free.len() && s.free[j] == i;
            assert(t.free[j] == i);
        }
        if t.pooled(i) {
            let j = choose|j: int| 0 <= j < t.free.len() && t.free[j] == i;
            assert(s.free[j] == i);
        }
    }
    assert forall|j: int| 0 <= j < t.free.len() implies 0 < #[trigger] t.free[j]
        < t.segments.len() by {
        if j < last {
            assert(t.free[j] == s.free[j]);
        }
    }
    assert forall|j: int, k: int| 0 <= j < k < t.free.len() implies #[trigger] t.free[j]
        != #[trigger] t.free[k] by {
        assert(t.free[j] == s.free[j]);
        if k < last {
            assert(t.free[k] == s.free[k]);
        } else {
            assert(s.pooled(t.free[j] as int));
        }
    }
}

/// An index that is allocated and freed at once is the one that the next
/// allocation hands out: the freed index may be freed (it is mapped and not
/// 0), it is reused whatever lengths are asked for, and the segment mapped
/// there the second time holds `m` zeros. The pool is afterwards as it was
/// after the first allocation.
pub proof fn lemma_allocate_free_allocate(s: MemState, n: nat, m: nat)
    requires
        s.wf(),
        s.can_allocate(),
    ensures
        ({
            let index = s.next_index();
            let first = s.allocate(n);
            let freed = first.release(index as u32);
            let second = freed.allocate(m);
            &&& first.is_mapped(index) && index != 0
            &&& freed.wf() && freed.can_allocate()
            &&& freed.next_index() == index
            &&& second.wf()
            &&& second.is_mapped(index)
            &&& second.segments[index] == zeros(m)
            &&& second.segments[index].len() == m
            &&& forall|k: int| 0 <= k < m ==> second.segments[index][k] == 0
            &&& second.free == first.free
        }),
{
    let index = s.next_index();
    let first = s.allocate(n);
    lemma_allocate(s, n);
    lemma_release(first, index as u32);
    let freed = first.release(index as u32);
    lemma_allocate(freed, m);
    assert(freed.allocate(m).free =~= first.free);
}

/// A store that differs from a well-formed one only in the contents of its
/// segments is well formed and maps the same indices.
pub proof fn lemma_same_shape(s: MemState, t: MemState)
    requires
        s.wf(),
        t.free == s.free,
        t.segments.len() == s.segments.len(),
    ensures
        t.wf(),
        forall|i: int| t.is_mapped(i) == s.is_mapped(i),
{
}

/// A write keeps the invariant, leaves every index mapped or unmapped as it
/// was and every segment at its length, and changes one word: the word
/// written reads back, and every other word reads as before.
pub proof fn lemma_store(s: MemState, index: int, offset: int, value: u32)
    requires
        s.wf(),
        s.has_word(index, offset),
    ensures
        s.store(index, offset, value).wf(),
        s.store(index, offset, value).word(index, offset) == value,
        forall|i: int| s.store(index, offset, value).is_mapped(i) == s.is_mapped(i),
        forall|i: int|
            0 <= i < s.segments.len() ==> (#[trigger] s.store(
                index,
                offset,
                value,
            ).segments[i]).len() == s.segments[i].len(),
        forall|i: int, j: int|
            s.has_word(i, j) && !(i == index && j == offset) ==> #[trigger] s.store(
                index,
                offset,
                value,
            ).word(i, j) == s.word(i, j),
{
    lemma_same_shape(s, s.store(index, offset, value));
}

/// The machine's memory: segments of words, addressed by index.
pub struct MemObj {
    memory: Vec<Vec<u32>>,
    unmapped_memory: Vec<u32>,
    mapped: Vec<bool>,
}

impl View for MemObj {
    type V = MemState;

    closed spec fn view(&self) -> MemState {
        MemState {
            segments: Seq::new(self.memory@.len(), |i: int| self.memory@[i]@),
            free: self.unmapped_memory@,
        }
    }
}

impl MemObj {
    /// The private part of the invariant: one flag for each slot, set exactly
    /// while the slot is mapped.
    pub closed spec fn flags_agree(&self) -> bool {
        &&& self.mapped@.len() == self.memory@.len()
        &&& forall|i: int|
            0 <= i < self.mapped@.len() ==> #[trigger] self.mapped@[i] == self@.is_mapped(i)
    }

    /// The invariant that every constructor establishes and every method keeps.
    pub open spec fn wf(&self) -> bool {
        self@.wf() && self.flags_agree()
    }

    /// Every segment of a store, and the store itself, has a length that the
    /// machine can count.
    pub proof fn lemma_lengths_fit(&self)
        ensures
            self@.segments.len() <= usize::MAX,
            forall|i: int|
                0 <= i < self@.segments.len() ==> (#[trigger] self@.segments[i]).len()
                    <= usize::MAX,
    {
        assert(self.memory.len() == self.memory@.len());
        assert forall|i: int| 0 <= i < self@.segments.len() implies (
        #[trigger] self@.segments[i]).len() <= usize::MAX by {
            assert(self.memory@[i].len() == self.memory@[i]@.len());
        }
    }

    /// A store whose segment 0 holds `instructions`; no other segment exists
    /// and the pool is empty.
    pub fn new(instructions: Vec<u32>) -> (m: MemObj)
        ensures
            m.wf(),
            m@.segments == seq![instructions@],
            m@.free == Seq::<u32>::empty(),
    {
        let memory = vec![instructions];
        let unmapped_memory = vec![];
        let mapped = vec![true];
        let m = MemObj { memory, unmapped_memory, mapped };
        assert(m@.segments =~= seq![instructions@]);
        m
    }

    /// Tells whether a segment is mapped at `seg_index`.
    pub fn is_mapped(&self, seg_index: u32) -> (r: bool)
        requires
            self.wf(),
        ensures
            r == self@.is_mapped(seg_index as int),
    {
        (seg_index as usize) < self.mapped.len() && self.mapped[seg_index as usize]
    }

    /// Tells whether the word at `word_index` of the segment at `seg_index`
    /// exists: the segment is mapped and the offset lies inside it.
    pub fn has_word(&self, seg_index: usize, word_index: usize) -> (r: bool)
        requires
            self.wf(),
        ensures
            r == self@.has_word(seg_index as int, word_index as int),
    {
        seg_index < self.mapped.len() && self.mapped[seg_index] && word_index
            < self.memory[seg_index].len()
    }

    /// Tells whether `malloc` can hand out an index.
    pub fn can_allocate(&self) -> (r: bool)
        requires
            self.wf(),
        ensures
            r == self@.can_allocate(),
    {
        self.unmapped_memory.len() > 0 || self.memory.len() <= 0xffff_ffff
    }

    /// Replaces segment 0 by a copy of the segment at `dup_index`.
    pub fn load_program(&mut self, dup_index: u32)
        requires
            old(self).wf(),
            old(self)@.is_mapped(dup_index as int),
        ensures
            final(self).wf(),
            final(self)@ == old(self)@.duplicate_into_zero(dup_index as int),
    {
        self.memory[0] = self.memory[dup_index as usize].clone();
        assert(self@ =~= old(self)@.duplicate_into_zero(dup_index as int));
        proof {
            lemma_same_shape(old(self)@, self@);
        }
    }

    /// Maps a segment of `seg_length` zero words and returns its index: the
    /// most recently freed index if the pool holds one, else a new index.
    pub fn malloc(&mut self, seg_length: u32) -> (index: u32)
        requires
            old(self).wf(),
            old(self)@.can_allocate(),
        ensures
            final(self).wf(),
            index == old(self)@.next_index(),
            final(self)@ == old(self)@.allocate(seg_length as nat),
    {
        proof {
            lemma_allocate(self@, seg_length as nat);
        }
        match self.unmapped_memory.pop() {
            Some(value) => {
                let fresh: Vec<u32> = vec![0; seg_length as usize];
                assert(fresh@ =~= zeros(seg_length as nat));
                self.memory[value as usize] = fresh;
                self.mapped[value as usize] = true;
                assert(self@ =~= old(self)@.allocate(seg_length as nat));
                value
            },
            None => {
                let fresh: Vec<u32> = vec![0; seg_length as usize];
                assert(fresh@ =~= zeros(seg_length as nat));
                self.memory.push(fresh);
                self.mapped.push(true);
                assert(self@ =~= old(self)@.allocate(seg_length as nat));
                (self.memory.len() - 1) as u32
            },
        }
    }

    /// Unmaps the segment at `mem_index`: the index joins the pool. The
    /// segment's contents are not cleared.
    pub fn free(&mut self, mem_index: u32)
        requires
            old(self).wf(),
            old(self)@.is_mapped(mem_index as int),
            mem_index != 0,
        ensures
            final(self).wf(),
            final(self)@ == old(self)@.release(mem_index),
    {
        proof {
            lemma_release(self@, mem_index);
        }
        self.unmapped_memory.push(mem_index);
        self.mapped[mem_index as usize] = false;
        assert(self@ =~= old(self)@.release(mem_index));
    }

    /// A reference to the word at `word_index` of the segment at `seg_index`,
    /// through which the word can be written.
    pub fn get_ref(&mut self, seg_index: u32, word_index: u32) -> (r: &mut u32)
        requires
            old(self).wf(),
            old(self)@.has_word(seg_index as int, word_index as int),
        ensures
            *r == old(self)@.word(seg_index as int, word_index as int),
            final(self).wf(),
            final(self)@ == old(self)@.store(seg_index as int, word_index as int, *final(r)),
    {
        proof {
            // whatever is written through the reference, the pool and the
            // lengths stay, and with them the invariant and the flags
            let s = self@;
            assert forall|t: MemState|
                t.free == s.free && t.segments.len() == s.segments.len() implies (
                #[trigger] t.wf()) by {
                lemma_same_shape(s, t);
            }
            assert forall|t: MemState, i: int|
                t.free == s.free && t.segments.len() == s.segments.len() implies (
                #[trigger] t.is_mapped(i)) == s.is_mapped(i) by {
                lemma_same_shape(s, t);
            }
        }
        &mut self.memory[seg_index as usize][word_index as usize]
    }

    /// The word at `word_index` of the segment at `seg_index`.
    pub fn get_word(&self, seg_index: usize, word_index: usize) -> (word: u32)
        requires
            self@.has_word(seg_index as int, word_index as int),
        ensures
            word == self@.word(seg_index as int, word_index as int),
    {
        self.memory[seg_index][word_index]
    }
}

} // verus!
