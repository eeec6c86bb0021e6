//! Symbol readers: lazy, one-shot pull sources of symbols.  A reader is
//! specified by the sequence of symbols it has still to produce; reading
//! hands out that sequence one symbol at a time.

use vstd::prelude::*;

verus! {

/// A lazy, one-shot pull source of symbols.  `next_symbol` produces the
/// pending symbols in order and then reports the end of the stream.
pub trait SymbolReader {
    /// The symbols this reader has still to produce, in order.
    spec fn pending(&self) -> Seq<u32>;

    /// Reads the next symbol, or `None` at the end of the stream.
    fn next_symbol(&mut self) -> (r: Option<u32>)
        ensures
            old(self).pending().len() == 0 ==> r is None
                && final(self).pending() == old(self).pending(),
            old(self).pending().len() > 0 ==> r == Some(old(self).pending()[0])
                && final(self).pending() == old(self).pending().drop_first(),
    ;
}

/// Something that can hand out a reader over its symbols.
pub trait SymbolSource: Sized {
    type Reader: SymbolReader;

    /// The symbols the produced reader will hand out.
    spec fn symbols(&self) -> Seq<u32>;

    /// Returns a fresh reader over this source's symbols.
    fn read_symbols(self) -> (r: Self::Reader)
        ensures
            r.pending() == self.symbols(),
    ;
}

/// A reader over an owned vector of symbols.
pub struct VecReader {
    pub data: Vec<u32>,
    pub pos: usize,
}

impl SymbolReader for VecReader {
    open spec fn pending(&self) -> Seq<u32> {
        if self.pos <= self.data@.len() {
            self.data@.subrange(self.pos as int, self.data@.len() as int)
        } else {
            Seq::empty()
        }
    }

    fn next_symbol(&mut self) -> (r: Option<u32>) {
        if self.pos < self.data.len() {
            let symbol = self.data[self.pos];
            self.pos = self.pos + 1;
            proof {
                assert(self.pending() =~= old(self).pending().drop_first());
            }
            Some(symbol)
        } else {
            None
        }
    }
}

impl SymbolSource for Vec<u32> {
    type Reader = VecReader;

    open spec fn symbols(&self) -> Seq<u32> {
        self@
    }

    fn read_symbols(self) -> (r: VecReader) {
        let r = VecReader { data: self, pos: 0 };
        proof {
            assert(r.pending() =~= r.data@);
        }
        r
    }
}

/// Drains a reader, returning everything it still had to produce.
pub fn read_all<R: SymbolReader>(reader: &mut R) -> (v: Vec<u32>)
    ensures
        v@ == old(reader).pending(),
        final(reader).pending().len() == 0,
{
    let mut v: Vec<u32> = Vec::new();
    let mut done = false;
    while !done
        invariant
            v@ + reader.pending() == old(reader).pending(),
            done ==> reader.pending().len() == 0,
        decreases reader.pending().len() + (if done {
            0int
        } else {
            1int
        }),
    {
        match reader.next_symbol() {
            Some(symbol) => {
                v.push(symbol);
                proof {
                    assert(v@ + reader.pending() =~= old(reader).pending());
                }
            },
            None => {
                done = true;
            },
        }
    }
    proof {
        assert(v@ =~= old(reader).pending());
    }
    v
}

} // verus!
