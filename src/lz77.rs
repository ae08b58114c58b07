use vstd::prelude::*;
use crate::chained_hash_table::{next_hash, ChainedHashTable};
use crate::output_writer::FixedWriter;
use crate::token_stream::{
    appends_no_end, decode, lemma_appends_push, lemma_appends_refl, lemma_appends_trans, lemma_copy_back, lemma_push_end_of_block, lemma_push_literal, lemma_push_match,
    stream_complete,
};

verus! {

/// Longest back-reference the format allows.
pub const MAX_MATCH: usize = 258;

/// Shortest back-reference worth emitting.
pub const MIN_MATCH: usize = 3;

/// Distance covered by one window; also the largest back-reference distance.
pub const WINDOW_SIZE: usize = 32768;

/// A value of the compressed stream before entropy coding.
#[derive(Debug, PartialEq, Eq, Copy, Clone)]
pub enum LDPair {
    Literal(u8),
    Length(u16),
    Distance(u16),
    EndOfBlock,
}

impl LDPair {
    pub fn _literal(value: u8) -> (r: LDPair)
        ensures
            r == LDPair::Literal(value),
    {
        LDPair::Literal(value)
    }

    pub fn length(length: u16) -> (r: LDPair)
        ensures
            r == LDPair::Length(length),
    {
        LDPair::Length(length)
    }

    pub fn distance(distance: u16) -> (r: LDPair)
        ensures
            r == LDPair::Distance(distance),
    {
        LDPair::Distance(distance)
    }

    pub fn _end_of_block() -> (r: LDPair)
        ensures
            r == LDPair::EndOfBlock,
    {
        LDPair::EndOfBlock
    }
}

/// `n` bytes starting at `a` equal the `n` bytes starting at `b`.
pub open spec fn bytes_agree(data: Seq<u8>, a: int, b: int, n: int) -> bool {
    forall|i: int| 0 <= i < n ==> #[trigger] data[a + i] == data[b + i]
}

/// Number of equal bytes, counted forward from `current_pos` and from `pos_to_check`
/// together, stopping at the first difference, at the end of the data or at `MAX_MATCH`.
pub fn get_match_length(data: &[u8], current_pos: usize, pos_to_check: usize) -> (r: usize)
    requires
        current_pos <= data@.len(),
        pos_to_check <= data@.len(),
    ensures
        r <= MAX_MATCH,
        current_pos + r <= data@.len(),
        pos_to_check + r <= data@.len(),
        bytes_agree(data@, current_pos as int, pos_to_check as int, r as int),
        r == MAX_MATCH || current_pos + r == data@.len() || pos_to_check + r == data@.len()
            || data@[current_pos + r] != data@[pos_to_check + r],
{
    let mut n: usize = 0;
    while n < MAX_MATCH && n < data.len() - current_pos && n < data.len() - pos_to_check
        && data[current_pos + n] == data[pos_to_check + n]
        invariant
            n <= MAX_MATCH,
            current_pos + n <= data@.len(),
            pos_to_check + n <= data@.len(),
            bytes_agree(data@, current_pos as int, pos_to_check as int, n as int),
        decreases MAX_MATCH - n,
    {
        n = n + 1;
    }
    n
}


/// Largest number of chain links the match finder follows from one position.
pub const MAX_CHAIN_HOPS: usize = 4096;

/// `(length, distance)` is a back-reference that may stand at `position` of `data`: it
/// copies between one and `WINDOW_SIZE` bytes back, from no earlier than the start, and
/// the `length` bytes it repeats are the ones found at `position`.
pub open spec fn valid_match(data: Seq<u8>, position: int, length: int, distance: int) -> bool {
    &&& length <= MAX_MATCH
    &&& 1 <= distance <= WINDOW_SIZE
    &&& distance <= position
    &&& position + length <= data.len()
    &&& bytes_agree(data, position - distance, position, length)
}

/// The `k`-th position of the chain walked from the table's current head, the head itself
/// not counted.
pub open spec fn chain_nth(t: ChainedHashTable, k: nat) -> usize
    decreases k,
{
    if k == 0 {
        t.link_spec(t.current_head_spec())
    } else {
        t.link_spec(chain_nth(t, (k - 1) as nat))
    }
}

/// Oldest position a match at `position` may copy from.
pub open spec fn window_floor(position: int) -> int {
    if position > WINDOW_SIZE {
        position - WINDOW_SIZE
    } else {
        0
    }
}

/// The walk goes on to its `k`-th position: it lies in the window, is no chain end, is
/// within the hop bound, and does not bring the walk back to where it began.
pub open spec fn in_walk(t: ChainedHashTable, floor: int, k: nat) -> bool {
    &&& chain_nth(t, k) >= floor
    &&& chain_nth(t, k) != 0
    &&& k < MAX_CHAIN_HOPS
    &&& (k == 0 || chain_nth(t, k) != chain_nth(t, 0))
}

/// The walk visits its `k`-th position.
pub open spec fn walk_reaches(t: ChainedHashTable, floor: int, k: nat) -> bool {
    forall|i: nat| i <= k ==> #[trigger] in_walk(t, floor, i)
}

/// A match of more than `n` bytes stands at `position`, copied from `candidate`.
pub open spec fn beats(data: Seq<u8>, candidate: int, position: int, n: int) -> bool {
    &&& position + n + 1 <= data.len()
    &&& n + 1 <= MAX_MATCH
    &&& bytes_agree(data, candidate, position, n + 1)
}

/// What the match finder returns at `position` against `prev_length`, with the table `t`:
/// `(0, 0)` or a valid match longer than `prev_length`; `(0, 0)` where there is nothing to
/// search or the chain's first link is the head itself; no position the walk visits gives
/// a longer match than the result, and the result's is the first met of its length.
pub open spec fn finds_longest(
    data: Seq<u8>,
    t: ChainedHashTable,
    position: int,
    prev_length: int,
    r: (usize, usize),
) -> bool {
    &&& ((r.0 == 0 && r.1 == 0) || (r.0 > prev_length && valid_match(
        data,
        position,
        r.0 as int,
        r.1 as int,
    )))
    &&& (position == 0 || prev_length >= MAX_MATCH || position + prev_length >= data.len() ==> (
        r.0 == 0 && r.1 == 0))
    &&& (chain_nth(t, 0) != t.current_head_spec() ==> forall|j: nat|
            walk_reaches(t, window_floor(position), j) && #[trigger] chain_nth(
                t,
                j,
            ) < position ==> !beats(
                data,
                chain_nth(t, j) as int,
                position,
                if r.0 == 0 {
                    prev_length
                } else {
                    r.0 as int
                },
            ))
    &&& (r.0 > 0 ==> exists|k: nat|
            walk_reaches(t, window_floor(position), k) && #[trigger] chain_nth(
                t,
                k,
            ) == position - r.1 && forall|j: nat|
                j < k && #[trigger] chain_nth(t, j) < position ==> !bytes_agree(
                    data,
                    chain_nth(t, j) as int,
                    position,
                    r.0 as int,
                ))
    &&& (chain_nth(t, 0) == t.current_head_spec() ==> r.0 == 0 && r.1 == 0)
}

/// Searches the hash chain that ends at the table's current head for a match at
/// `position` longer than `prev_length`. Returns `(0, 0)` where there is none, and at
/// once where `position` is zero, `prev_length` has reached `MAX_MATCH`, or fewer than
/// `prev_length + 1` bytes follow `position`. Of the earlier positions the walk visits, no
/// one gives a longer match than the result, and the result's is the first met of its
/// length, so the nearest.
pub fn longest_match(
    data: &[u8],
    hash_table: &ChainedHashTable,
    position: usize,
    prev_length: usize,
) -> (r: (usize, usize))
    requires
        hash_table.wf(),
        position <= data@.len(),
    ensures
        finds_longest(data@, *hash_table, position as int, prev_length as int, r),
{
    if position == 0 || prev_length >= MAX_MATCH {
        return (0, 0);
    }
    if prev_length >= data.len() - position {
        return (0, 0);
    }
    let limit = if position > WINDOW_SIZE {
        position - WINDOW_SIZE
    } else {
        0
    };
    let max_length = if data.len() - position < MAX_MATCH {
        data.len() - position
    } else {
        MAX_MATCH
    };

    let head = hash_table.current_head();
    let mut current_head = hash_table.get_prev(head);
    let starting_head = current_head;
    if starting_head == head {
        return (0, 0);
    }

    let ghost t = *hash_table;
    let ghost floor = window_floor(position as int);
    let ghost p = position as int;
    let mut best_length = prev_length;
    let mut best_distance: usize = 0;
    let mut iters: usize = 0;
    let mut done = false;
    let ghost mut examined: nat = 0;
    let ghost mut best_k: nat = 0;

    while !done && current_head >= limit && current_head != 0 && iters < MAX_CHAIN_HOPS
        invariant
            hash_table.wf(),
            t == *hash_table,
            0 < position < data@.len() <= usize::MAX,
            p == position,
            limit == floor,
            floor == window_floor(p),
            starting_head == chain_nth(t, 0),
            max_length <= MAX_MATCH,
            max_length == data@.len() - position || max_length == MAX_MATCH,
            position + max_length <= data@.len(),
            prev_length <= best_length,
            iters <= MAX_CHAIN_HOPS,
            !done ==> best_length < max_length,
            best_length <= max_length,
            best_length > prev_length ==> valid_match(
                data@,
                position as int,
                best_length as int,
                best_distance as int,
            ),
            forall|i: nat| i < examined ==> #[trigger] in_walk(t, floor, i),
            forall|j: nat|
                j < examined && #[trigger] chain_nth(t, j) < position ==> !beats(
                    data@,
                    chain_nth(t, j) as int,
                    p,
                    best_length as int,
                ),
            !done ==> current_head == chain_nth(t, examined) && iters == examined && (examined
                >= 1 ==> current_head != starting_head),
            done ==> best_length == max_length || (examined >= 1 && chain_nth(t, examined)
                == starting_head),
            best_length > prev_length ==> best_k < examined && chain_nth(t, best_k) == p
                - best_distance && forall|j: nat|
                j < best_k && #[trigger] chain_nth(t, j) < position ==> !bytes_agree(
                    data@,
                    chain_nth(t, j) as int,
                    p,
                    best_length as int,
                ),
        decreases MAX_CHAIN_HOPS - iters, if done { 0int } else { 1int },
    {
        proof {
            assert(in_walk(t, floor, examined));
        }
        // Only earlier positions are compared: a slot of the ring that a newer position
        // took over may point anywhere.
        if current_head < position && data[position + best_length] == data[current_head
            + best_length] {
            let length = get_match_length(data, position, current_head);
            if length > best_length {
                proof {
                    assert forall|j: nat|
                        j < examined && #[trigger] chain_nth(t, j) < position implies !bytes_agree(
                        data@,
                        chain_nth(t, j) as int,
                        p,
                        length as int,
                    ) by {
                        if bytes_agree(data@, chain_nth(t, j) as int, p, length as int) {
                            assert(bytes_agree(
                                data@,
                                chain_nth(t, j) as int,
                                p,
                                best_length + 1,
                            ));
                        }
                    }
                    best_k = examined;
                }
                best_length = length;
                best_distance = position - current_head;
                if length == max_length {
                    done = true;
                }
            }
            proof {
                if beats(data@, current_head as int, p, best_length as int) {
                    assert(data@[current_head + length] == data@[p + length]);
                }
            }
        } else {
            proof {
                if current_head < position && beats(
                    data@,
                    current_head as int,
                    p,
                    best_length as int,
                ) {
                    assert(data@[current_head + best_length] == data@[p + best_length]);
                }
            }
        }
        proof {
            examined = examined + 1;
        }
        if !done {
            current_head = hash_table.get_prev(current_head);
            if current_head == starting_head {
                done = true;
            } else {
                iters = iters + 1;
            }
        }
    }

    proof {
        assert forall|j: nat|
            walk_reaches(t, floor, j) && #[trigger] chain_nth(t, j) < position implies !beats(
            data@,
            chain_nth(t, j) as int,
            p,
            best_length as int,
        ) by {
            if j >= examined && best_length < max_length {
                assert(in_walk(t, floor, examined));
            }
        }
    }

    if best_length > prev_length {
        (best_length, best_distance)
    } else {
        (0, 0)
    }
}

/// The best match at the table's current position, against no earlier match.
pub fn longest_match_current(data: &[u8], hash_table: &ChainedHashTable) -> (r: (usize, usize))
    requires
        hash_table.wf(),
        hash_table.current_head_spec() <= data@.len(),
    ensures
        finds_longest(
            data@,
            *hash_table,
            hash_table.current_head_spec() as int,
            MIN_MATCH - 1,
            r,
        ),
{
    longest_match(data, hash_table, hash_table.current_position(), MIN_MATCH - 1)
}


/// The tokens lazy matching emits for `data[i..end]`, given the match `ms[p]` found at each
/// position `p` that gets a search, the match found one position back, and whether the
/// byte before `i` is still held. At each position with a key: the match one back is
/// emitted where it is at least as long as this one's, and the bytes it covers are
/// passed over; else the held byte goes out as a literal; else this byte is held. The
/// last two positions get no search and go out as literals, after the held byte.
pub open spec fn lazy_tokens(
    data: Seq<u8>,
    end: int,
    ms: Seq<(usize, usize)>,
    i: int,
    prev_length: int,
    prev_distance: int,
    held: bool,
) -> Seq<LDPair>
    decreases if i < end { end - i } else { 0 },
{
    let held_byte: Seq<LDPair> = if held {
        seq![LDPair::Literal(data[i - 1])]
    } else {
        Seq::empty()
    };
    if i >= end {
        held_byte
    } else if end - i > 2 {
        let m = ms[i];
        if prev_length >= m.0 && prev_length >= MIN_MATCH {
            seq![
                LDPair::Length(prev_length as u16),
                LDPair::Distance(prev_distance as u16),
            ] + lazy_tokens(
                data,
                end,
                ms,
                i + prev_length - 1,
                m.0 as int,
                m.1 as int,
                false,
            )
        } else {
            held_byte + lazy_tokens(data, end, ms, i + 1, m.0 as int, m.1 as int, true)
        }
    } else {
        held_byte + seq![LDPair::Literal(data[i])] + lazy_tokens(
            data,
            end,
            ms,
            i + 1,
            prev_length,
            prev_distance,
            false,
        )
    }
}

/// `a` and `b` hold the same matches at the positions `start..i`.
pub open spec fn same_matches(a: Seq<(usize, usize)>, b: Seq<(usize, usize)>, start: int, i: int) -> bool {
    &&& a.len() == b.len()
    &&& forall|p: int| start <= p < i ==> #[trigger] a[p] == b[p]
}

proof fn lemma_lazy_match(
    data: Seq<u8>,
    end: int,
    ms: Seq<(usize, usize)>,
    i: int,
    pl: int,
    pd: int,
    held: bool,
    before: Seq<LDPair>,
)
    requires
        end - i > 2,
        pl >= ms[i].0,
        pl >= MIN_MATCH,
    ensures
        before + lazy_tokens(data, end, ms, i, pl, pd, held) == before.push(
            LDPair::Length(pl as u16),
        ).push(LDPair::Distance(pd as u16)) + lazy_tokens(
            data,
            end,
            ms,
            i + pl - 1,
            ms[i].0 as int,
            ms[i].1 as int,
            false,
        ),
{
    let rest = lazy_tokens(data, end, ms, i + pl - 1, ms[i].0 as int, ms[i].1 as int, false);
    assert(lazy_tokens(data, end, ms, i, pl, pd, held) == seq![
        LDPair::Length(pl as u16),
        LDPair::Distance(pd as u16),
    ] + rest);
    assert(before + (seq![LDPair::Length(pl as u16), LDPair::Distance(pd as u16)] + rest)
        =~= before.push(LDPair::Length(pl as u16)).push(LDPair::Distance(pd as u16)) + rest);
}

proof fn lemma_lazy_literal(
    data: Seq<u8>,
    end: int,
    ms: Seq<(usize, usize)>,
    i: int,
    pl: int,
    pd: int,
    held: bool,
    before: Seq<LDPair>,
)
    requires
        end - i > 2,
        !(pl >= ms[i].0 && pl >= MIN_MATCH),
    ensures
        before + lazy_tokens(data, end, ms, i, pl, pd, held) == (if held {
            before.push(LDPair::Literal(data[i - 1]))
        } else {
            before
        }) + lazy_tokens(data, end, ms, i + 1, ms[i].0 as int, ms[i].1 as int, true),
{
    let rest = lazy_tokens(data, end, ms, i + 1, ms[i].0 as int, ms[i].1 as int, true);
    let hb: Seq<LDPair> = if held {
        seq![LDPair::Literal(data[i - 1])]
    } else {
        Seq::empty()
    };
    assert(lazy_tokens(data, end, ms, i, pl, pd, held) == hb + rest);
    if held {
        assert(before + (hb + rest) =~= before.push(LDPair::Literal(data[i - 1])) + rest);
    } else {
        assert(before + (hb + rest) =~= before + rest);
    }
}

proof fn lemma_lazy_tail(
    data: Seq<u8>,
    end: int,
    ms: Seq<(usize, usize)>,
    i: int,
    pl: int,
    pd: int,
    held: bool,
    before: Seq<LDPair>,
)
    requires
        i < end,
        end - i <= 2,
    ensures
        before + lazy_tokens(data, end, ms, i, pl, pd, held) == (if held {
            before.push(LDPair::Literal(data[i - 1]))
        } else {
            before
        }).push(LDPair::Literal(data[i])) + lazy_tokens(data, end, ms, i + 1, pl, pd, false),
{
    let rest = lazy_tokens(data, end, ms, i + 1, pl, pd, false);
    let hb: Seq<LDPair> = if held {
        seq![LDPair::Literal(data[i - 1])]
    } else {
        Seq::empty()
    };
    assert(lazy_tokens(data, end, ms, i, pl, pd, held) == hb + seq![LDPair::Literal(data[i])]
        + rest);
    if held {
        assert(before + (hb + seq![LDPair::Literal(data[i])] + rest) =~= before.push(
            LDPair::Literal(data[i - 1]),
        ).push(LDPair::Literal(data[i])) + rest);
    } else {
        assert(before + (hb + seq![LDPair::Literal(data[i])] + rest) =~= before.push(
            LDPair::Literal(data[i]),
        ) + rest);
    }
}

/// Previous match length that stands for "no match yet".
pub const NO_LENGTH: usize = MIN_MATCH - 1;

/// Emits the tokens for `data[start..end]`, adding each position whose three-byte key lies
/// inside the range to the hash table. A match is emitted one position late, and only
/// where the position after it offers none longer. The last two positions of the range
/// have no key, get no search, and are emitted as literals unless a match that started
/// earlier covers them.
///
/// `data` holds the bytes of `full` from `base` on; the stream decodes to
/// `full[..base + start]` before and to `full[..base + end]` after.
#[verifier::loop_isolation(false)]
#[verifier::rlimit(100)]
fn process_chunk(
    data: &[u8],
    start: usize,
    end: usize,
    hash_table: &mut ChainedHashTable,
    writer: &mut FixedWriter,
    Ghost(full): Ghost<Seq<u8>>,
    Ghost(base): Ghost<int>,
)
    requires
        old(hash_table).wf(),
        start <= end <= data@.len(),
        0 <= base,
        base + end <= full.len(),
        forall|k: int| 0 <= k < end ==> #[trigger] data@[k] == full[base + k],
        stream_complete(old(writer).buffer@),
        decode(old(writer).buffer@) == full.take(base + start),
    ensures
        final(hash_table).wf(),
        stream_complete(final(writer).buffer@),
        decode(final(writer).buffer@) == full.take(base + end),
        appends_no_end(old(writer).buffer@, final(writer).buffer@),
        exists|ms: Seq<(usize, usize)>|
            {
                &&& ms.len() == end
                &&& forall|p: int|
                    0 <= p < end ==> #[trigger] ms[p] == (0usize, 0usize) || valid_match(
                        data@.subrange(0, end as int),
                        p,
                        ms[p].0 as int,
                        ms[p].1 as int,
                    )
                &&& final(writer).buffer@ == old(writer).buffer@ + lazy_tokens(
                    data@,
                    end as int,
                    ms,
                    start as int,
                    NO_LENGTH as int,
                    0,
                    false,
                )
            },
{
    let chunk = &data[0..end];
    proof {
        lemma_appends_refl(writer.buffer@);
    }
    let mut i: usize = start;
    let mut prev_byte: u8 = 0;
    let mut prev_length: usize = NO_LENGTH;
    let mut prev_distance: usize = 0;
    let mut add = false;
    let ghost mut ms: Seq<(usize, usize)> = Seq::new(end as nat, |p: int| (0usize, 0usize));

    while i < end
        invariant
            start <= i <= end <= data@.len(),
            chunk@ == data@.subrange(0, end as int),
            0 <= base,
            base + end <= full.len(),
            forall|k: int| 0 <= k < end ==> #[trigger] data@[k] == full[base + k],
            hash_table.wf(),
            stream_complete(writer.buffer@),
            appends_no_end(old(writer).buffer@, writer.buffer@),
            add ==> i > start && prev_byte == data@[i - 1],
            decode(writer.buffer@) == full.take(base + i - (if add { 1int } else { 0int })),
            prev_length >= MIN_MATCH && i + 2 < end ==> add && valid_match(
                chunk@,
                i - 1,
                prev_length as int,
                prev_distance as int,
            ),
            ms.len() == end,
            forall|p: int|
                0 <= p < end ==> #[trigger] ms[p] == (0usize, 0usize) || valid_match(
                    chunk@,
                    p,
                    ms[p].0 as int,
                    ms[p].1 as int,
                ),
            forall|ms2: Seq<(usize, usize)>|
                #[trigger] same_matches(ms2, ms, start as int, i as int) ==> writer.buffer@
                    + lazy_tokens(
                    data@,
                    end as int,
                    ms2,
                    i as int,
                    prev_length as int,
                    prev_distance as int,
                    add,
                ) == old(writer).buffer@ + lazy_tokens(
                    data@,
                    end as int,
                    ms2,
                    start as int,
                    NO_LENGTH as int,
                    0,
                    false,
                ),
        decreases end - i,
    {
        let ghost i0 = i as int;
        let ghost buf0 = writer.buffer@;
        let ghost pl0 = prev_length as int;
        let ghost pd0 = prev_distance as int;
        let ghost add0 = add;
        let ghost ms0 = ms;
        let b = data[i];
        if end - i > 2 {
            hash_table.add_hash_value(i, data[i + 2]);
            let (match_len, match_dist) = longest_match(chunk, hash_table, i, prev_length);
            proof {
                ms = ms.update(i as int, (match_len, match_dist));
            }
            if prev_length >= match_len && prev_length >= MIN_MATCH {
                // The match found one position back is at least as long: emit it, then
                // step over the bytes it covers, adding their keys to the table.
                proof {
                    let n = base + i - 1;
                    assert forall|j: int| 0 <= j < prev_length implies #[trigger] full[n
                        - prev_distance + j] == full[n + j] by {
                        assert(chunk@[i - 1 - prev_distance + j] == chunk@[i - 1 + j]);
                        assert(data@[i - 1 - prev_distance + j] == full[base + (i - 1
                            - prev_distance + j)]);
                        assert(data@[i - 1 + j] == full[base + (i - 1 + j)]);
                    }
                    lemma_copy_back(full, n, prev_distance as int, prev_length as int);
                    lemma_push_match(writer.buffer@, prev_length as u16, prev_distance as u16);
                    lemma_appends_push(old(writer).buffer@, writer.buffer@, LDPair::Length(prev_length as u16));
                    lemma_appends_push(
                        old(writer).buffer@,
                        writer.buffer@.push(LDPair::Length(prev_length as u16)),
                        LDPair::Distance(prev_distance as u16),
                    );
                }
                writer.write_length_distance(prev_length as u16, prev_distance as u16);
                let ghost emitted = writer.buffer@;
                let ghost first = i;
                let bytes_to_add = prev_length - 2;
                let mut k: usize = 0;
                while k < bytes_to_add
                    invariant
                        k <= bytes_to_add,
                        i == first + k,
                        first + bytes_to_add < end,
                        end <= data@.len(),
                        hash_table.wf(),
                        writer.buffer@ == emitted,
                    decreases bytes_to_add - k,
                {
                    i = i + 1;
                    if end - i > 2 {
                        hash_table.add_hash_value(i, data[i + 2]);
                    }
                    k = k + 1;
                }
                add = false;
            } else if add {
                // A longer match starts here, or there is none: the held byte is a literal.
                proof {
                    lemma_push_literal(writer.buffer@, prev_byte);
                    lemma_appends_push(old(writer).buffer@, writer.buffer@, LDPair::Literal(prev_byte));
                    assert(full.take(base + i - 1).push(prev_byte) =~= full.take(base + i));
                }
                writer.write_literal(prev_byte);
            } else {
                add = true;
            }
            prev_length = match_len;
            prev_distance = match_dist;
            prev_byte = b;
        } else {
            if add {
                proof {
                    lemma_push_literal(writer.buffer@, prev_byte);
                    lemma_appends_push(old(writer).buffer@, writer.buffer@, LDPair::Literal(prev_byte));
                    assert(full.take(base + i - 1).push(prev_byte) =~= full.take(base + i));
                }
                writer.write_literal(prev_byte);
                add = false;
            }
            proof {
                lemma_push_literal(writer.buffer@, b);
                lemma_appends_push(old(writer).buffer@, writer.buffer@, LDPair::Literal(b));
                assert(full.take(base + i).push(b) =~= full.take(base + i + 1));
            }
            writer.write_literal(b);
        }
        i = i + 1;
        proof {
            assert forall|ms2: Seq<(usize, usize)>|
                #[trigger] same_matches(ms2, ms, start as int, i as int) implies writer.buffer@
                + lazy_tokens(
                data@,
                end as int,
                ms2,
                i as int,
                prev_length as int,
                prev_distance as int,
                add,
            ) == old(writer).buffer@ + lazy_tokens(
                data@,
                end as int,
                ms2,
                start as int,
                NO_LENGTH as int,
                0,
                false,
            ) by {
                assert(same_matches(ms2, ms0, start as int, i0));
                if end - i0 > 2 {
                    assert(ms2[i0] == ms[i0]);
                    if pl0 >= ms2[i0].0 && pl0 >= MIN_MATCH {
                        lemma_lazy_match(data@, end as int, ms2, i0, pl0, pd0, add0, buf0);
                    } else {
                        lemma_lazy_literal(data@, end as int, ms2, i0, pl0, pd0, add0, buf0);
                    }
                } else {
                    lemma_lazy_tail(data@, end as int, ms2, i0, pl0, pd0, add0, buf0);
                }
            }
        }
    }
    let ghost last = writer.buffer@;
    assert(same_matches(ms, ms, start as int, i as int));
    if add {
        proof {
            lemma_push_literal(writer.buffer@, prev_byte);
                    lemma_appends_push(old(writer).buffer@, writer.buffer@, LDPair::Literal(prev_byte));
            assert(full.take(base + i - 1).push(prev_byte) =~= full.take(base + i));
        }
        writer.write_literal(prev_byte);
    }
    assert(writer.buffer@ =~= last + lazy_tokens(
        data@,
        end as int,
        ms,
        i as int,
        prev_length as int,
        prev_distance as int,
        add,
    ));
}


/// A block shorter than this is folded into the one before it.
pub const MIN_BLOCK_LENGTH: usize = 500;

/// Capacity of the sliding buffer for an input of `n` bytes: two windows and the two
/// bytes that complete the last key, or the whole input where it is shorter.
pub open spec fn buffer_len(n: int) -> int {
    if n < 2 * WINDOW_SIZE + 2 {
        n
    } else {
        2 * WINDOW_SIZE + 2
    }
}

/// Every byte of `buffer` that stands for a byte of `data`, counted from `base`, is that
/// byte.
pub open spec fn buffer_holds(data: Seq<u8>, buffer: Seq<u8>, base: int) -> bool {
    forall|k: int| 0 <= k < buffer.len() && base + k < data.len() ==> #[trigger] buffer[k]
        == data[base + k]
}

/// A table that holds no position yet, its hash fed `b0` and `b1`.
pub open spec fn seeded(t: ChainedHashTable, b0: u8, b1: u8) -> bool {
    &&& t.hash_spec() == next_hash(next_hash(0, b0), b1)
    &&& forall|i: int| 0 <= i < WINDOW_SIZE ==> #[trigger] t.head_spec()[i] == 0
    &&& forall|i: int| 0 <= i < WINDOW_SIZE ==> #[trigger] t.prev_spec()[i] == 0
}

/// Position in the input, hash table, and whether the first and the last block have been
/// processed.
pub struct LZ77State {
    hash_table: ChainedHashTable,
    pub current_start: usize,
    is_first_window: bool,
    is_last_block: bool,
}

impl LZ77State {
    pub closed spec fn table_wf(&self) -> bool {
        self.hash_table.wf()
    }

    /// The hash table the state owns.
    pub closed spec fn table_spec(&self) -> ChainedHashTable {
        self.hash_table
    }

    pub closed spec fn start_spec(&self) -> usize {
        self.current_start
    }

    pub closed spec fn first_window_spec(&self) -> bool {
        self.is_first_window
    }

    pub closed spec fn last_block_spec(&self) -> bool {
        self.is_last_block
    }

    /// Offset in the input of the buffer's first byte.
    pub open spec fn buffer_base(&self) -> int {
        if self.first_window_spec() {
            0
        } else {
            self.start_spec() - WINDOW_SIZE
        }
    }

    /// The state agrees with the input, the buffer and the tokens emitted so far: once the
    /// last block is out the tokens decode to the whole input; before that they decode to
    /// the input up to `current_start`, and the buffer holds the input from the start of
    /// the window before the current one.
    pub open spec fn consistent(&self, data: Seq<u8>, buffer: Seq<u8>, tokens: Seq<LDPair>) -> bool {
        &&& self.table_wf()
        &&& data.len() >= 2
        &&& buffer.len() == buffer_len(data.len() as int)
        &&& self.start_spec() <= data.len()
        &&& stream_complete(tokens)
        &&& self.last_block_spec() ==> decode(tokens) == data
        &&& !self.last_block_spec() ==> {
            &&& self.start_spec() < data.len()
            &&& decode(tokens) == data.take(self.start_spec() as int)
            &&& self.first_window_spec() ==> self.start_spec() == 0
            &&& !self.first_window_spec() ==> WINDOW_SIZE <= self.start_spec()
            &&& buffer_holds(data, buffer, self.buffer_base())
        }
    }

    fn from_starting_values(b0: u8, b1: u8) -> (r: LZ77State)
        ensures
            r.table_wf(),
            seeded(r.table_spec(), b0, b1),
            r.start_spec() == 0,
            r.first_window_spec(),
            !r.last_block_spec(),
    {
        LZ77State {
            hash_table: ChainedHashTable::from_starting_values(b0, b1),
            current_start: 0,
            is_first_window: true,
            is_last_block: false,
        }
    }

    /// A state at the start of `data`, whose first two bytes seed the hash.
    /// `None` where `data` has fewer than two bytes to seed the hash.
    pub fn new(data: &[u8]) -> (r: Option<LZ77State>)
        ensures
            r.is_none() <==> data@.len() < 2,
            r.is_some() ==> {
                let s = r.unwrap();
                &&& s.table_wf()
                &&& seeded(s.table_spec(), data@[0], data@[1])
                &&& s.start_spec() == 0
                &&& s.first_window_spec()
                &&& !s.last_block_spec()
            },
    {
        if data.len() < 2 {
            return None;
        }
        Some(LZ77State::from_starting_values(data[0], data[1]))
    }

    pub fn current_start(&self) -> (r: usize)
        ensures
            r == self.start_spec(),
    {
        self.current_start
    }

    pub fn set_last(&mut self)
        ensures
            final(self).last_block_spec(),
            final(self).table_spec() == old(self).table_spec(),
            final(self).table_wf() == old(self).table_wf(),
            final(self).start_spec() == old(self).start_spec(),
            final(self).first_window_spec() == old(self).first_window_spec(),
    {
        self.is_last_block = true;
    }

    pub fn is_last_block(&self) -> (r: bool)
        ensures
            r == self.last_block_spec(),
    {
        self.is_last_block
    }
}

/// The first `min(2 * WINDOW_SIZE + 2, data.len())` bytes of `data`.
pub fn create_buffer(data: &[u8]) -> (r: Vec<u8>)
    ensures
        r@ == data@.take(buffer_len(data@.len() as int)),
{
    let end = if data.len() < WINDOW_SIZE * 2 + 2 {
        data.len()
    } else {
        WINDOW_SIZE * 2 + 2
    };
    let mut r: Vec<u8> = Vec::with_capacity(end);
    let mut i: usize = 0;
    while i < end
        invariant
            i <= end <= data@.len(),
            end == buffer_len(data@.len() as int),
            r@ == data@.take(i as int),
        decreases end - i,
    {
        r.push(data[i]);
        assert(data@.take(i as int).push(data@[i as int]) =~= data@.take(i + 1));
        i = i + 1;
    }
    r
}

/// Moves the upper window of `buffer` down over the lower one, then writes `data` at the
/// start of the upper window.
fn slide_buffer(buffer: &mut Vec<u8>, data: &[u8])
    requires
        old(buffer)@.len() >= 2 * WINDOW_SIZE,
        data@.len() <= old(buffer)@.len() - WINDOW_SIZE,
    ensures
        final(buffer)@.len() == old(buffer)@.len(),
        forall|k: int| 0 <= k < WINDOW_SIZE ==> #[trigger] final(buffer)@[k] == old(buffer)@[k
            + WINDOW_SIZE],
        forall|k: int| 0 <= k < data@.len() ==> #[trigger] final(buffer)@[k + WINDOW_SIZE]
            == data@[k],
        forall|k: int|
            WINDOW_SIZE + data@.len() <= k < old(buffer)@.len() ==> #[trigger] final(buffer)@[k]
                == old(buffer)@[k],
{
    let n = buffer.len();
    let mut i: usize = 0;
    while i < WINDOW_SIZE
        invariant
            i <= WINDOW_SIZE,
            buffer@.len() == old(buffer)@.len(),
            buffer@.len() == n,
            2 * WINDOW_SIZE <= n,
            forall|k: int| 0 <= k < i ==> #[trigger] buffer@[k] == old(buffer)@[k + WINDOW_SIZE],
            forall|k: int| i <= k < buffer@.len() ==> #[trigger] buffer@[k] == old(buffer)@[k],
        decreases WINDOW_SIZE - i,
    {
        let v = buffer[i + WINDOW_SIZE];
        buffer.set(i, v);
        i = i + 1;
    }
    let ghost lowered = buffer@;
    let mut j: usize = 0;
    while j < data.len()
        invariant
            j <= data@.len(),
            data@.len() <= buffer@.len() - WINDOW_SIZE,
            buffer@.len() == n,
            buffer@.len() == lowered.len(),
            forall|k: int| 0 <= k < WINDOW_SIZE ==> #[trigger] buffer@[k] == lowered[k],
            forall|k: int| 0 <= k < j ==> #[trigger] buffer@[k + WINDOW_SIZE] == data@[k],
            forall|k: int|
                WINDOW_SIZE + j <= k < buffer@.len() ==> #[trigger] buffer@[k] == lowered[k],
        decreases data@.len() - j,
    {
        buffer.set(j + WINDOW_SIZE, data[j]);
        j = j + 1;
    }
}


/// Processes the window that starts at `current_start`, which the upper half of the buffer
/// holds. Where input is left after it, moves the state, the hash table and the buffer on
/// by one window.
fn process_window(
    data: &[u8],
    state: &mut LZ77State,
    buffer: &mut Vec<u8>,
    writer: &mut FixedWriter,
)
    requires
        old(state).consistent(data@, old(buffer)@, old(writer).buffer@),
        !old(state).last_block_spec(),
        !old(state).first_window_spec(),
    ensures
        final(state).consistent(data@, final(buffer)@, final(writer).buffer@),
        !final(state).first_window_spec(),
        appends_no_end(old(writer).buffer@, final(writer).buffer@),
        data@.len() - old(state).start_spec() <= WINDOW_SIZE ==> final(state).last_block_spec()
            && final(state).start_spec() == old(state).start_spec() && final(buffer)@ == old(
            buffer,
        )@,
        data@.len() - old(state).start_spec() > WINDOW_SIZE ==> !final(state).last_block_spec()
            && final(state).start_spec() == old(state).start_spec() + WINDOW_SIZE,
        exists|ms: Seq<(usize, usize)>|
            final(writer).buffer@ == old(writer).buffer@ + lazy_tokens(
                old(buffer)@,
                window_end(data@.len() as int, old(state).start_spec() as int),
                ms,
                WINDOW_SIZE as int,
                NO_LENGTH as int,
                0,
                false,
            ),
{
    let start = state.current_start;
    let slice_len = data.len() - (start - WINDOW_SIZE);
    let end = if WINDOW_SIZE * 2 < slice_len {
        WINDOW_SIZE * 2
    } else {
        slice_len
    };
    let ghost base = start - WINDOW_SIZE;
    assert forall|k: int| 0 <= k < end implies #[trigger] buffer@[k] == data@[base + k] by {
        assert(buffer_holds(data@, buffer@, state.buffer_base()));
    }
    let ghost b0 = buffer@;
    let ghost w0 = writer.buffer@;
    process_chunk(
        buffer.as_slice(),
        WINDOW_SIZE,
        end,
        &mut state.hash_table,
        writer,
        Ghost(data@),
        Ghost(base),
    );
    assert(end == window_end(data@.len() as int, start as int));
    assert(exists|ms: Seq<(usize, usize)>|
        writer.buffer@ == w0 + lazy_tokens(
            b0,
            end as int,
            ms,
            WINDOW_SIZE as int,
            NO_LENGTH as int,
            0,
            false,
        ));
    if end >= slice_len {
        assert(data@.take(base + end) =~= data@);
        state.set_last();
    } else {
        state.current_start = start + WINDOW_SIZE;
        state.hash_table.slide(WINDOW_SIZE);
        let next = state.current_start;
        let next_end = if data.len() - next > WINDOW_SIZE + 2 {
            next + WINDOW_SIZE + 2
        } else {
            data.len()
        };
        let ghost old_buffer = buffer@;
        slide_buffer(buffer, &data[next..next_end]);
        assert forall|k: int|
            0 <= k < buffer@.len() && next - WINDOW_SIZE + k < data@.len() implies #[trigger] buffer@[k]
            == data@[next - WINDOW_SIZE + k] by {
            if k < WINDOW_SIZE {
                assert(old_buffer[k + WINDOW_SIZE] == data@[base + (k + WINDOW_SIZE)]);
            } else {
                assert(buffer@[(k - WINDOW_SIZE) + WINDOW_SIZE] == data@.subrange(
                    next as int,
                    next_end as int,
                )[k - WINDOW_SIZE]);
            }
        }
    }
}

/// End, in the buffer, of the window that starts at `start` of an input of `n` bytes, once
/// the buffer holds the input from `start - WINDOW_SIZE`.
pub open spec fn window_end(n: int, start: int) -> int {
    if 2 * WINDOW_SIZE < n - start + WINDOW_SIZE {
        2 * WINDOW_SIZE
    } else {
        n - start + WINDOW_SIZE
    }
}

/// The remaining input, from `start`, is longer than a window by less than
/// `MIN_BLOCK_LENGTH`: the short tail goes into the block being emitted.
pub open spec fn merges_tail(n: int, start: int) -> bool {
    n - start > WINDOW_SIZE && n - start - WINDOW_SIZE < MIN_BLOCK_LENGTH
}

/// Where the next block starts, after the block that starts at `start` of an input of `n`
/// bytes. The first window ends at `WINDOW_SIZE`, or at the end of the input where it is
/// shorter or its tail is merged. A later one moves on by a window, by two where its tail
/// is merged, and stays where it reaches the end of the input.
pub open spec fn next_start(n: int, start: int, first: bool) -> int {
    if first {
        if merges_tail(n, start) || n <= WINDOW_SIZE {
            n
        } else {
            WINDOW_SIZE as int
        }
    } else if n - start <= WINDOW_SIZE {
        start
    } else {
        start + WINDOW_SIZE
    }
}

/// The block that starts at `start` is the last one: it reaches the end of the input, by
/// itself or with a merged tail.
pub open spec fn ends_input(n: int, start: int, first: bool) -> bool {
    if first {
        merges_tail(n, start) || n <= WINDOW_SIZE
    } else {
        n - start <= WINDOW_SIZE || merges_tail(n, start)
    }
}

/// Emits one block: the next window of `data` (the first one, or the one the buffer's
/// upper half holds), together with the short tail that follows it where fewer than
/// `MIN_BLOCK_LENGTH` bytes would be left for a block of their own, then the end-of-block
/// marker. Returns `None`, changing nothing, once the last block has been emitted.
pub fn lz77_compress_block(
    data: &[u8],
    state: &mut LZ77State,
    buffer: &mut Vec<u8>,
    writer: &mut FixedWriter,
) -> (r: Option<bool>)
    requires
        old(state).consistent(data@, old(buffer)@, old(writer).buffer@),
    ensures
        old(state).last_block_spec() ==> r.is_none() && *final(state) == *old(state)
            && final(buffer)@ == old(buffer)@ && final(writer).buffer@ == old(writer).buffer@,
        !old(state).last_block_spec() ==> (r == Some(true)),
        !old(state).last_block_spec() ==> (final(state).consistent(data@, final(buffer)@, final(writer).buffer@)),
        !old(state).last_block_spec() ==> (final(writer).buffer@.len() > 0),
        !old(state).last_block_spec() ==> (final(writer).buffer@.last() == LDPair::EndOfBlock),
        !old(state).last_block_spec() ==> (appends_no_end(old(writer).buffer@, final(writer).buffer@.drop_last())),
        !old(state).last_block_spec() ==> (!final(state).first_window_spec()),
        !old(state).last_block_spec() ==> (final(state).start_spec() >= old(state).start_spec()),
        !old(state).last_block_spec() ==> (final(state).last_block_spec() || final(state).start_spec() > old(
                state,
            ).start_spec()),
        !old(state).last_block_spec() ==> (final(state).start_spec() == next_start(
                data@.len() as int,
                old(state).start_spec() as int,
                old(state).first_window_spec(),
            )),
        !old(state).last_block_spec() ==> (final(state).last_block_spec() == ends_input(
                data@.len() as int,
                old(state).start_spec() as int,
                old(state).first_window_spec(),
            )),
        !old(state).last_block_spec() ==> ((old(state).first_window_spec() || data@.len() - old(state).start_spec()
                <= WINDOW_SIZE ==> final(buffer)@ == old(buffer)@)),
        !old(state).last_block_spec() ==> ((old(state).first_window_spec() ==> exists|ms: Seq<(usize, usize)>|
                final(writer).buffer@ == (old(writer).buffer@ + lazy_tokens(
                    old(buffer)@,
                    final(state).start_spec() as int,
                    ms,
                    0,
                    NO_LENGTH as int,
                    0,
                    false,
                )).push(LDPair::EndOfBlock))),
        !old(state).last_block_spec() ==> ((!old(state).first_window_spec() && !merges_tail(
                data@.len() as int,
                old(state).start_spec() as int,
            ) ==> exists|ms: Seq<(usize, usize)>|
                final(writer).buffer@ == (old(writer).buffer@ + lazy_tokens(
                    old(buffer)@,
                    window_end(data@.len() as int, old(state).start_spec() as int),
                    ms,
                    WINDOW_SIZE as int,
                    NO_LENGTH as int,
                    0,
                    false,
                )).push(LDPair::EndOfBlock))),
{
    if state.is_last_block {
        return None;
    }
    let ghost before = writer.buffer@;
    let ghost buffer0 = buffer@;
    let ghost first0 = state.is_first_window;
    let ghost start0 = state.current_start as int;
    let ghost mut ms_first: Seq<(usize, usize)> = Seq::empty();
    let remaining = data.len() - state.current_start;
    let next_block_merge = remaining > WINDOW_SIZE && remaining - WINDOW_SIZE
        < MIN_BLOCK_LENGTH;

    if state.is_first_window {
        let first_chunk_end = if next_block_merge {
            data.len()
        } else if WINDOW_SIZE < data.len() {
            WINDOW_SIZE
        } else {
            data.len()
        };
        assert forall|k: int| 0 <= k < first_chunk_end implies #[trigger] buffer@[k] == data@[0
            + k] by {
            assert(buffer_holds(data@, buffer@, state.buffer_base()));
        }
        process_chunk(
            buffer.as_slice(),
            0,
            first_chunk_end,
            &mut state.hash_table,
            writer,
            Ghost(data@),
            Ghost(0),
        );
        assert(exists|ms: Seq<(usize, usize)>|
            writer.buffer@ == before + lazy_tokens(
                buffer0,
                first_chunk_end as int,
                ms,
                0,
                NO_LENGTH as int,
                0,
                false,
            ));
        proof {
            ms_first = choose|ms: Seq<(usize, usize)>|
                writer.buffer@ == before + lazy_tokens(
                    buffer0,
                    first_chunk_end as int,
                    ms,
                    0,
                    NO_LENGTH as int,
                    0,
                    false,
                );
        }
        assert(writer.buffer@ == before + lazy_tokens(
            buffer0,
            first_chunk_end as int,
            ms_first,
            0,
            NO_LENGTH as int,
            0,
            false,
        ));
        state.current_start = first_chunk_end;
        if first_chunk_end >= data.len() {
            assert(data@.take(first_chunk_end as int) =~= data@);
            state.set_last();
        }
        state.is_first_window = false;
    } else {
        process_window(data, state, buffer, writer);
        if next_block_merge && !state.is_last_block {
            let ghost once = writer.buffer@;
            process_window(data, state, buffer, writer);
            proof {
                lemma_appends_trans(before, once, writer.buffer@);
            }
        }
    }

    let ghost mid = writer.buffer@;
    proof {
        lemma_push_end_of_block(writer.buffer@);
    }
    writer.write_end_of_block();
    assert(writer.buffer@.drop_last() =~= mid);
    proof {
        if first0 {
            let ms = ms_first;
            assert(mid == before + lazy_tokens(
                buffer0,
                state.start_spec() as int,
                ms,
                0,
                NO_LENGTH as int,
                0,
                false,
            ));
            assert(exists|ms: Seq<(usize, usize)>|
                writer.buffer@ == (before + lazy_tokens(
                    buffer0,
                    state.start_spec() as int,
                    ms,
                    0,
                    NO_LENGTH as int,
                    0,
                    false,
                )).push(LDPair::EndOfBlock));
        } else if !next_block_merge {
            let ms = choose|ms: Seq<(usize, usize)>|
                mid == before + lazy_tokens(
                    buffer0,
                    window_end(data@.len() as int, start0),
                    ms,
                    WINDOW_SIZE as int,
                    NO_LENGTH as int,
                    0,
                    false,
                );
            assert(writer.buffer@ == (before + lazy_tokens(
                buffer0,
                window_end(data@.len() as int, start0),
                ms,
                WINDOW_SIZE as int,
                NO_LENGTH as int,
                0,
                false,
            )).push(LDPair::EndOfBlock));
        }
    }
    Some(true)
}

/// The whole token stream for `data`, block after block; `None` where `data` has fewer
/// than two bytes to seed the hash.
pub fn lz77_compress(data: &[u8]) -> (r: Option<Vec<LDPair>>)
    ensures
        r.is_some() <==> data@.len() >= 2,
        r.is_some() ==> stream_complete(r.unwrap()@) && decode(r.unwrap()@) == data@,
        r.is_some() ==> r.unwrap()@.len() > 0 && r.unwrap()@.last() == LDPair::EndOfBlock,
        r.is_some() && data@.len() <= WINDOW_SIZE ==> exists|ms: Seq<(usize, usize)>|
            r.unwrap()@ == lazy_tokens(
                data@,
                data@.len() as int,
                ms,
                0,
                NO_LENGTH as int,
                0,
                false,
            ).push(LDPair::EndOfBlock),
{
    if data.len() < 2 {
        return None;
    }
    let mut w = FixedWriter::new();
    let mut state = match LZ77State::new(data) {
        Some(s) => s,
        None => return None,
    };
    let mut buffer = create_buffer(data);
    proof {
        lemma_fresh_state(data@, state, buffer@);
    }
    while !state.is_last_block()
        invariant
            state.consistent(data@, buffer@, w.buffer@),
            state.first_window_spec() || (w.buffer@.len() > 0 && w.buffer@.last()
                == LDPair::EndOfBlock),
            state.first_window_spec() ==> !state.last_block_spec(),
            state.first_window_spec() ==> w.buffer@ == Seq::<LDPair>::empty() && buffer@
                == data@.take(buffer_len(data@.len() as int)),
            !state.first_window_spec() && data@.len() <= WINDOW_SIZE ==> exists|
                ms: Seq<(usize, usize)>,
            |
                w.buffer@ == lazy_tokens(
                    data@,
                    data@.len() as int,
                    ms,
                    0,
                    NO_LENGTH as int,
                    0,
                    false,
                ).push(LDPair::EndOfBlock),
        decreases data@.len() - state.start_spec() + (if state.last_block_spec() {
            0int
        } else {
            1int
        }),
    {
        let ghost first0 = state.first_window_spec();
        let ghost w0 = w.buffer@;
        let ghost b0 = buffer@;
        lz77_compress_block(data, &mut state, &mut buffer, &mut w);
        proof {
            if first0 && data@.len() <= WINDOW_SIZE {
                assert(b0 =~= data@);
                let ms = choose|ms: Seq<(usize, usize)>|
                    w.buffer@ == (w0 + lazy_tokens(
                        b0,
                        state.start_spec() as int,
                        ms,
                        0,
                        NO_LENGTH as int,
                        0,
                        false,
                    )).push(LDPair::EndOfBlock);
                assert(w0 + lazy_tokens(b0, state.start_spec() as int, ms, 0, NO_LENGTH as int, 0, false)
                    =~= lazy_tokens(data@, data@.len() as int, ms, 0, NO_LENGTH as int, 0, false));
            }
        }
    }
    Some(w.buffer)
}


/// A state fresh from `LZ77State::new`, a buffer from `create_buffer`, and an empty stream
/// agree: they may be handed to `lz77_compress_block`.
pub proof fn lemma_fresh_state(data: Seq<u8>, state: LZ77State, buffer: Seq<u8>)
    requires
        data.len() >= 2,
        state.table_wf(),
        state.start_spec() == 0,
        state.first_window_spec(),
        !state.last_block_spec(),
        buffer == data.take(buffer_len(data.len() as int)),
    ensures
        state.consistent(data, buffer, Seq::empty()),
{
    assert(data.take(0) =~= Seq::<u8>::empty());
    assert(decode(Seq::<LDPair>::empty()) == Seq::<u8>::empty());
}

} // verus!
