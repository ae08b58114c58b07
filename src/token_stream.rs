use vstd::prelude::*;
use crate::lz77::{bytes_agree, LDPair, MAX_MATCH, MIN_MATCH, WINDOW_SIZE};

verus! {

/// The stream's last token is a Length still waiting for its Distance.
pub open spec fn ends_with_length(ts: Seq<LDPair>) -> bool {
    ts.len() > 0 && ts.last() is Length
}

/// `out` followed by `length` bytes, each copied from `distance` bytes before it, one
/// after another, so that a copy may overlap what it produces.
pub open spec fn copy_back(out: Seq<u8>, distance: nat, length: nat) -> Seq<u8>
    decreases length,
{
    if length == 0 {
        out
    } else {
        let o = copy_back(out, distance, (length - 1) as nat);
        o.push(o[o.len() - distance])
    }
}

/// The bytes a token stream stands for: literals are taken as they are, and each
/// Length/Distance pair repeats earlier output.
pub open spec fn decode(ts: Seq<LDPair>) -> Seq<u8>
    decreases ts.len(),
{
    if ts.len() == 0 {
        Seq::empty()
    } else {
        let init = ts.drop_last();
        match ts.last() {
            LDPair::Literal(b) => decode(init).push(b),
            LDPair::Distance(d) => if ends_with_length(init) {
                copy_back(decode(init), d as nat, init.last()->Length_0 as nat)
            } else {
                decode(init)
            },
            _ => decode(init),
        }
    }
}

/// Each Length lies in `[MIN_MATCH, MAX_MATCH]` and is followed by a Distance; each
/// Distance follows a Length, lies in `[1, WINDOW_SIZE]`, and reaches no further back than
/// the output decoded before it.
pub open spec fn tokens_valid(ts: Seq<LDPair>) -> bool
    decreases ts.len(),
{
    if ts.len() == 0 {
        true
    } else {
        let init = ts.drop_last();
        &&& tokens_valid(init)
        &&& match ts.last() {
            LDPair::Length(l) => !ends_with_length(init) && MIN_MATCH <= l <= MAX_MATCH,
            LDPair::Distance(d) => ends_with_length(init) && 1 <= d <= WINDOW_SIZE && d
                <= decode(init).len(),
            _ => !ends_with_length(init),
        }
    }
}

/// A complete stream: valid, and not stopped between a Length and its Distance.
pub open spec fn stream_complete(ts: Seq<LDPair>) -> bool {
    tokens_valid(ts) && !ends_with_length(ts)
}

pub(crate) proof fn lemma_push_literal(ts: Seq<LDPair>, b: u8)
    requires
        stream_complete(ts),
    ensures
        stream_complete(ts.push(LDPair::Literal(b))),
        decode(ts.push(LDPair::Literal(b))) == decode(ts).push(b),
{
    assert(ts.push(LDPair::Literal(b)).drop_last() =~= ts);
}

pub(crate) proof fn lemma_push_end_of_block(ts: Seq<LDPair>)
    requires
        stream_complete(ts),
    ensures
        stream_complete(ts.push(LDPair::EndOfBlock)),
        decode(ts.push(LDPair::EndOfBlock)) == decode(ts),
{
    assert(ts.push(LDPair::EndOfBlock).drop_last() =~= ts);
}

pub(crate) proof fn lemma_push_match(ts: Seq<LDPair>, l: u16, d: u16)
    requires
        stream_complete(ts),
        MIN_MATCH <= l <= MAX_MATCH,
        1 <= d <= WINDOW_SIZE,
        d <= decode(ts).len(),
    ensures
        stream_complete(ts.push(LDPair::Length(l)).push(LDPair::Distance(d))),
        decode(ts.push(LDPair::Length(l)).push(LDPair::Distance(d))) == copy_back(
            decode(ts),
            d as nat,
            l as nat,
        ),
{
    let t1 = ts.push(LDPair::Length(l));
    let t2 = t1.push(LDPair::Distance(d));
    assert(t1.drop_last() =~= ts);
    assert(t2.drop_last() =~= t1);
    assert(t1.last() == LDPair::Length(l));
    assert(ends_with_length(t1));
    assert(decode(t1) == decode(ts));
    assert(tokens_valid(t1));
    assert(t2.last() == LDPair::Distance(d));
    assert(tokens_valid(t2));
}

/// Copying `length` bytes from `distance` back, after the first `n` bytes of `full`,
/// gives the next `length` bytes of `full` when those repeat the bytes `distance` before.
pub(crate) proof fn lemma_copy_back(full: Seq<u8>, n: int, distance: int, length: int)
    requires
        1 <= distance <= n,
        n + length <= full.len(),
        0 <= length,
        bytes_agree(full, n - distance, n, length),
    ensures
        copy_back(full.take(n), distance as nat, length as nat) == full.take(n + length),
    decreases length,
{
    if length > 0 {
        lemma_copy_back(full, n, distance, length - 1);
        assert(full[n - distance + (length - 1)] == full[n + (length - 1)]);
        assert(full.take(n + length - 1).push(full[n + length - 1]) =~= full.take(n + length));
    }
}


proof fn lemma_valid_indexed(ts: Seq<LDPair>)
    requires
        tokens_valid(ts),
    ensures
        forall|i: int| 0 <= i < ts.len() ==> token_in_place(ts, i),
    decreases ts.len(),
{
    if ts.len() > 0 {
        let init = ts.drop_last();
        let n = ts.len() - 1;
        lemma_valid_indexed(init);
        assert forall|i: int| 0 <= i < ts.len() implies token_in_place(ts, i) by {
            if i < n {
                assert(ts.take(i) =~= init.take(i));
                assert(token_in_place(init, i));
                assert(ts[i] == init[i]);
                if i > 0 {
                    assert(ts[i - 1] == init[i - 1]);
                }
                if i + 1 < n {
                    assert(ts[i + 1] == init[i + 1]);
                }
            } else {
                assert(ts.take(i) =~= init);
            }
        }
    }
}

/// What validity says of the token at `i`: its bounds, and its place next to its partner.
/// A Length that is not the last token is followed by a Distance.
pub open spec fn token_in_place(ts: Seq<LDPair>, i: int) -> bool {
    &&& ts[i] is Length ==> MIN_MATCH <= ts[i]->Length_0 <= MAX_MATCH
    &&& ts[i] is Length && i + 1 < ts.len() ==> ts[i + 1] is Distance
    &&& ts[i] is Length && i + 1 == ts.len() ==> ends_with_length(ts)
    &&& ts[i] is Distance ==> 1 <= ts[i]->Distance_0 <= WINDOW_SIZE && ts[i]->Distance_0
        <= decode(ts.take(i)).len() && i > 0 && ts[i - 1] is Length
}

/// In a valid stream every Length lies in `[MIN_MATCH, MAX_MATCH]`, and every Distance in
/// `[1, WINDOW_SIZE]` and no further back than the number of bytes that the tokens before
/// it decode to.
pub proof fn lemma_match_bounds(ts: Seq<LDPair>)
    requires
        tokens_valid(ts),
    ensures
        forall|i: int|
            0 <= i < ts.len() && #[trigger] ts[i] is Length ==> MIN_MATCH <= ts[i]->Length_0
                <= MAX_MATCH,
        forall|i: int|
            0 <= i < ts.len() && #[trigger] ts[i] is Distance ==> 1 <= ts[i]->Distance_0
                <= WINDOW_SIZE && ts[i]->Distance_0 <= decode(ts.take(i)).len(),
{
    lemma_valid_indexed(ts);
    assert forall|i: int| 0 <= i < ts.len() && #[trigger] ts[i] is Length implies MIN_MATCH
        <= ts[i]->Length_0 <= MAX_MATCH by {
        assert(token_in_place(ts, i));
    }
    assert forall|i: int| 0 <= i < ts.len() && #[trigger] ts[i] is Distance implies 1
        <= ts[i]->Distance_0 <= WINDOW_SIZE && ts[i]->Distance_0 <= decode(ts.take(i)).len() by {
        assert(token_in_place(ts, i));
    }
}

/// In a complete stream every Length is immediately followed by a Distance and every
/// Distance immediately follows a Length, so nothing, an end-of-block marker included,
/// stands between the two.
pub proof fn lemma_token_pairing(ts: Seq<LDPair>)
    requires
        stream_complete(ts),
    ensures
        forall|i: int|
            0 <= i < ts.len() && #[trigger] ts[i] is Length ==> i + 1 < ts.len() && ts[i
                + 1] is Distance,
        forall|i: int|
            0 <= i < ts.len() && #[trigger] ts[i] is Distance ==> i > 0 && ts[i - 1] is Length,
{
    lemma_valid_indexed(ts);
    assert forall|i: int| 0 <= i < ts.len() && #[trigger] ts[i] is Length implies i + 1
        < ts.len() && ts[i + 1] is Distance by {
        assert(token_in_place(ts, i));
    }
    assert forall|i: int| 0 <= i < ts.len() && #[trigger] ts[i] is Distance implies i > 0 && ts[i
        - 1] is Length by {
        assert(token_in_place(ts, i));
    }
}

/// `ts` is `before` followed by tokens none of which is an end-of-block marker.
pub open spec fn appends_no_end(before: Seq<LDPair>, ts: Seq<LDPair>) -> bool {
    &&& before.len() <= ts.len()
    &&& ts.take(before.len() as int) == before
    &&& forall|k: int| before.len() <= k < ts.len() ==> !(#[trigger] ts[k] is EndOfBlock)
}

pub(crate) proof fn lemma_appends_push(before: Seq<LDPair>, ts: Seq<LDPair>, t: LDPair)
    requires
        appends_no_end(before, ts),
        !(t is EndOfBlock),
    ensures
        appends_no_end(before, ts.push(t)),
{
    assert(ts.push(t).take(before.len() as int) =~= ts.take(before.len() as int));
}

pub(crate) proof fn lemma_appends_refl(ts: Seq<LDPair>)
    ensures
        appends_no_end(ts, ts),
{
    assert(ts.take(ts.len() as int) =~= ts);
}

pub(crate) proof fn lemma_appends_trans(a: Seq<LDPair>, b: Seq<LDPair>, c: Seq<LDPair>)
    requires
        appends_no_end(a, b),
        appends_no_end(b, c),
    ensures
        appends_no_end(a, c),
{
    assert(c.take(a.len() as int) =~= b.take(a.len() as int)) by {
        assert forall|k: int| 0 <= k < a.len() implies c[k] == b[k] by {
            assert(c.take(b.len() as int)[k] == b[k]);
        }
    }
    assert forall|k: int| a.len() <= k < c.len() implies !(#[trigger] c[k] is EndOfBlock) by {
        if k < b.len() {
            assert(c.take(b.len() as int)[k] == b[k]);
        }
    }
}

} // verus!
