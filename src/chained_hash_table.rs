use vstd::prelude::*;
use crate::lz77::WINDOW_SIZE;

verus! {

/// Number of bits the rolling hash moves per byte; three bytes fill the hash.
pub const HASH_SHIFT: usize = 5;

/// Mask that keeps a hash, or a position taken modulo the window, below `WINDOW_SIZE`.
pub const WINDOW_MASK: usize = 32767;

/// Number of bytes that make up a hash key.
pub const HASH_BYTES: usize = 3;

/// The rolling hash after one more byte: the older bits move up and the top ones drop out.
pub open spec fn next_hash(current_hash: usize, value: u8) -> usize {
    ((current_hash << HASH_SHIFT) ^ (value as usize)) & WINDOW_MASK
}

/// A stored position after the table moved back by `bytes`: positions that would fall
/// below zero become zero, which marks the end of a chain.
pub open spec fn slid(v: usize, bytes: usize) -> usize {
    if v >= bytes {
        (v - bytes) as usize
    } else {
        0
    }
}

/// `b` is `a` after `position` was added with `value` as the last byte of its key.
pub open spec fn adds(a: ChainedHashTable, b: ChainedHashTable, position: usize, value: u8) -> bool {
    &&& b.hash_spec() == next_hash(a.hash_spec(), value)
    &&& b.head_spec() == a.head_spec().update(b.hash_spec() as int, position)
    &&& b.prev_spec() == a.prev_spec().update(
        (position % WINDOW_SIZE) as int,
        a.head_spec()[b.hash_spec() as int],
    )
}

/// `tables[k + 1]` is `tables[k]` after position `start + k` was added, its key read from
/// `data`.
pub open spec fn fills(tables: Seq<ChainedHashTable>, data: Seq<u8>, start: int) -> bool {
    forall|k: int|
        0 <= k < tables.len() - 1 ==> adds(
            #[trigger] tables[k],
            tables[k + 1],
            (start + k) as usize,
            data[start + k + 2],
        )
}

/// Index of earlier positions, keyed by a hash of the three bytes that start there.
/// `head` holds, per hash, the newest position added; `prev` holds, per position modulo
/// the window, the position that was the head of its chain when it was added.
/// Position zero ends a chain.
pub struct ChainedHashTable {
    current_hash: usize,
    head: Vec<usize>,
    prev: Vec<usize>,
}

impl ChainedHashTable {
    pub open spec fn wf(&self) -> bool {
        &&& self.head_spec().len() == WINDOW_SIZE
        &&& self.prev_spec().len() == WINDOW_SIZE
        &&& self.hash_spec() < WINDOW_SIZE
    }

    pub closed spec fn hash_spec(&self) -> usize {
        self.current_hash
    }

    pub closed spec fn head_spec(&self) -> Seq<usize> {
        self.head@
    }

    pub closed spec fn prev_spec(&self) -> Seq<usize> {
        self.prev@
    }

    /// The position that precedes `position` on its chain.
    pub open spec fn link_spec(&self, position: usize) -> usize {
        self.prev_spec()[(position % WINDOW_SIZE) as int]
    }

    /// The newest position added under the current hash.
    pub open spec fn current_head_spec(&self) -> usize {
        self.head_spec()[self.hash_spec() as int]
    }

    /// A table that holds no position yet, with the hash fed the two bytes that open the
    /// input.
    pub fn from_starting_values(v1: u8, v2: u8) -> (r: ChainedHashTable)
        ensures
            r.wf(),
            r.hash_spec() == next_hash(next_hash(0, v1), v2),
            forall|i: int| 0 <= i < WINDOW_SIZE ==> #[trigger] r.head_spec()[i] == 0,
            forall|i: int| 0 <= i < WINDOW_SIZE ==> #[trigger] r.prev_spec()[i] == 0,
    {
        let h = update_hash(update_hash(0, v1), v2);
        ChainedHashTable { current_hash: h, head: vec![0; WINDOW_SIZE], prev: vec![0; WINDOW_SIZE] }
    }

    /// Feeds `value`, the last byte of the key that starts at `position`, into the hash,
    /// and makes `position` the head of that hash's chain.
    pub fn add_hash_value(&mut self, position: usize, value: u8)
        requires
            old(self).wf(),
        ensures
            final(self).wf(),
            adds(*old(self), *final(self), position, value),
            final(self).hash_spec() == next_hash(old(self).hash_spec(), value),
            final(self).current_head_spec() == position,
            final(self).prev_spec() == old(self).prev_spec().update(
                (position % WINDOW_SIZE) as int,
                old(self).head_spec()[final(self).hash_spec() as int],
            ),
            final(self).head_spec() == old(self).head_spec().update(
                final(self).hash_spec() as int,
                position,
            ),
    {
        self.current_hash = update_hash(self.current_hash, value);
        let h = self.current_hash;
        let old_head = self.head[h];
        self.prev.set(position % WINDOW_SIZE, old_head);
        self.head.set(h, position);
    }

    /// The newest position added under the current hash.
    pub fn current_head(&self) -> (r: usize)
        requires
            self.wf(),
        ensures
            r == self.current_head_spec(),
    {
        self.head[self.current_hash]
    }

    /// The position added last, when the table was filled one position after another.
    pub fn current_position(&self) -> (r: usize)
        requires
            self.wf(),
        ensures
            r == self.current_head_spec(),
    {
        self.current_head()
    }

    /// The position that precedes `position` on its chain.
    pub fn get_prev(&self, position: usize) -> (r: usize)
        requires
            self.wf(),
        ensures
            r == self.link_spec(position),
    {
        self.prev[position % WINDOW_SIZE]
    }

    /// Moves every stored position back by `bytes`, after the buffer moved by as much.
    pub fn slide(&mut self, bytes: usize)
        requires
            old(self).wf(),
        ensures
            final(self).wf(),
            final(self).hash_spec() == old(self).hash_spec(),
            forall|i: int|
                0 <= i < WINDOW_SIZE ==> #[trigger] final(self).head_spec()[i] == slid(
                    old(self).head_spec()[i],
                    bytes,
                ),
            forall|i: int|
                0 <= i < WINDOW_SIZE ==> #[trigger] final(self).prev_spec()[i] == slid(
                    old(self).prev_spec()[i],
                    bytes,
                ),
    {
        slide_values(&mut self.head, bytes);
        slide_values(&mut self.prev, bytes);
    }
}

fn update_hash(current_hash: usize, value: u8) -> (r: usize)
    ensures
        r == next_hash(current_hash, value),
        r < WINDOW_SIZE,
{
    let r = ((current_hash << HASH_SHIFT) ^ (value as usize)) & WINDOW_MASK;
    assert(r < WINDOW_SIZE) by (bit_vector)
        requires
            r == ((current_hash << 5usize) ^ (value as usize)) & 32767usize,
    ;
    r
}

fn slide_values(values: &mut Vec<usize>, bytes: usize)
    ensures
        final(values)@.len() == old(values)@.len(),
        forall|i: int|
            0 <= i < old(values)@.len() ==> #[trigger] final(values)@[i] == slid(
                old(values)@[i],
                bytes,
            ),
{
    let mut i: usize = 0;
    while i < values.len()
        invariant
            i <= values@.len(),
            values@.len() == old(values)@.len(),
            forall|j: int| 0 <= j < i ==> #[trigger] values@[j] == slid(old(values)@[j], bytes),
            forall|j: int| i <= j < values@.len() ==> #[trigger] values@[j] == old(values)@[j],
        decreases values@.len() - i,
    {
        let v = values[i];
        let nv = if v >= bytes {
            v - bytes
        } else {
            0
        };
        values.set(i, nv);
        i = i + 1;
    }
}

/// A table that holds every position of `data` whose three-byte key lies inside `data`,
/// added in order, so that its current position is the last of them.
pub fn filled_hash_table(data: &[u8]) -> (r: ChainedHashTable)
    requires
        data@.len() >= 2,
    ensures
        r.wf(),
        data@.len() > 2 ==> r.current_head_spec() == data@.len() - 3,
        exists|tables: Seq<ChainedHashTable>|
            {
                &&& tables.len() == data@.len() - 1
                &&& tables[0].hash_spec() == next_hash(next_hash(0, data@[0]), data@[1])
                &&& forall|i: int| 0 <= i < WINDOW_SIZE ==> #[trigger] tables[0].head_spec()[i] == 0
                &&& forall|i: int| 0 <= i < WINDOW_SIZE ==> #[trigger] tables[0].prev_spec()[i] == 0
                &&& fills(tables, data@, 0)
                &&& tables.last() == r
            },
{
    let mut hash_table = ChainedHashTable::from_starting_values(data[0], data[1]);
    let ghost mut tables: Seq<ChainedHashTable> = seq![hash_table];
    let mut n: usize = 0;
    while n < data.len() - 2
        invariant
            hash_table.wf(),
            n + 2 <= data@.len(),
            n > 0 ==> hash_table.current_head_spec() == n - 1,
            tables.len() == n + 1,
            tables[0].hash_spec() == next_hash(next_hash(0, data@[0]), data@[1]),
            forall|i: int| 0 <= i < WINDOW_SIZE ==> #[trigger] tables[0].head_spec()[i] == 0,
            forall|i: int| 0 <= i < WINDOW_SIZE ==> #[trigger] tables[0].prev_spec()[i] == 0,
            forall|k: int|
                0 <= k < tables.len() - 1 ==> adds(
                    #[trigger] tables[k],
                    tables[k + 1],
                    k as usize,
                    data@[k + 2],
                ),
            tables.last() == hash_table,
        decreases data@.len() - n,
    {
        let ghost before = tables;
        hash_table.add_hash_value(n, data[n + 2]);
        proof {
            tables = tables.push(hash_table);
            assert forall|k: int| 0 <= k < tables.len() - 1 implies adds(
                #[trigger] tables[k],
                tables[k + 1],
                k as usize,
                data@[k + 2],
            ) by {
                if k < before.len() - 1 {
                    assert(tables[k] == before[k] && tables[k + 1] == before[k + 1]);
                }
            }
        }
        n = n + 1;
    }
    hash_table
}

} // verus!
