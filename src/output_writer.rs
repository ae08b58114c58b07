use vstd::prelude::*;
use crate::lz77::LDPair;

verus! {

/// Token sink that keeps every token in order.
pub struct FixedWriter {
    pub buffer: Vec<LDPair>,
}

impl FixedWriter {
    pub fn new() -> (r: FixedWriter)
        ensures
            r.buffer@ == Seq::<LDPair>::empty(),
    {
        FixedWriter { buffer: Vec::new() }
    }

    pub fn write_literal(&mut self, literal: u8)
        ensures
            final(self).buffer@ == old(self).buffer@.push(LDPair::Literal(literal)),
    {
        self.buffer.push(LDPair::Literal(literal));
    }

    pub fn write_length_distance(&mut self, length: u16, distance: u16)
        ensures
            final(self).buffer@ == old(self).buffer@.push(LDPair::Length(length)).push(
                LDPair::Distance(distance),
            ),
    {
        self.buffer.push(LDPair::Length(length));
        self.buffer.push(LDPair::Distance(distance));
    }

    pub fn write_end_of_block(&mut self)
        ensures
            final(self).buffer@ == old(self).buffer@.push(LDPair::EndOfBlock),
    {
        self.buffer.push(LDPair::EndOfBlock);
    }
}

} // verus!
