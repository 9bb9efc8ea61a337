//! Where the blocks of a multi-block read go.
use vstd::prelude::*;

verus! {

/// Receiver of blocks.
///
/// An implementation whose contracts are proved says here which blocks it has
/// taken; one written in plain Rust leaves the three relations out.
pub trait BlockSink {
    /// Every block that was handed over, with its address, in order.
    closed spec fn taken(&self) -> Seq<(u32, Seq<u8>)> {
        Seq::empty()
    }

    /// Whether a block can be handed over under the address `addr`.
    closed spec fn ready(&self, addr: u32) -> bool {
        true
    }

    /// What the receiver promises of a block that it takes.
    closed spec fn keeps(&self, addr: u32, data: Seq<u8>) -> bool {
        true
    }

    /// Take a block.
    fn take(&mut self, addr: u32, block: &[u8; 512])
        requires
            old(self).ready(addr),
        ensures
            final(self).taken() == old(self).taken().push((addr, block@)),
            final(self).keeps(addr, block@),
            forall|a: u32| #[trigger] final(self).ready(a) == old(self).ready(a),
            forall|a: u32, d: Seq<u8>| #[trigger] final(self).keeps(a, d) == old(self).keeps(a, d),
    ;
}

/// Blocks one after the other, each with its address, from `addr` on.
pub open spec fn numbered(addr: u32, blocks: Seq<Seq<u8>>) -> Seq<(u32, Seq<u8>)> {
    Seq::new(blocks.len(), |j: int| ((addr + j) as u32, blocks[j]))
}

/// One block more.
pub proof fn lemma_numbered_push(addr: u32, blocks: Seq<Seq<u8>>, data: Seq<u8>)
    ensures
        numbered(addr, blocks.push(data)) == numbered(addr, blocks).push(
            ((addr + blocks.len()) as u32, data),
        ),
{
    assert(numbered(addr, blocks.push(data)) =~= numbered(addr, blocks).push(
        ((addr + blocks.len()) as u32, data),
    ));
}

/// The sink has taken the blocks, each once, in order, under its address, and
/// nothing else.
pub open spec fn took<S: BlockSink>(
    before: S,
    after: S,
    addr: u32,
    blocks: Seq<Seq<u8>>,
) -> bool {
    &&& after.taken() == before.taken() + numbered(addr, blocks)
    &&& forall|j: int|
        #![trigger blocks[j]]
        0 <= j < blocks.len() ==> before.keeps((addr + j) as u32, blocks[j])
    &&& forall|a: u32| #[trigger] after.ready(a) == before.ready(a)
    &&& forall|a: u32, d: Seq<u8>| #[trigger] after.keeps(a, d) == before.keeps(a, d)
}

/// A sink that took blocks still has what it had, then the blocks in their order, each
/// under the address that follows that of the block before, and nothing else.
pub proof fn blocks_are_taken_in_order<S: BlockSink>(
    before: S,
    after: S,
    addr: u32,
    blocks: Seq<Seq<u8>>,
)
    requires
        took(before, after, addr, blocks),
        addr + blocks.len() <= 0x1_0000_0000,
    ensures
        after.taken().len() == before.taken().len() + blocks.len(),
        forall|i: int|
            0 <= i < before.taken().len() ==> #[trigger] after.taken()[i] == before.taken()[i],
        forall|j: int|
            0 <= j < blocks.len() ==> after.taken()[before.taken().len() + j].0 == addr + j
                && after.taken()[before.taken().len() + j].1 == #[trigger] blocks[j],
{
}

/// Every block that was handed to a closure came under the address that follows that
/// of the block before.
pub proof fn blocks_are_handed_over_in_order<F: FnMut(u32, &[u8; 512])>(
    handler: F,
    addr: u32,
    blocks: Seq<Seq<u8>>,
    j: int,
) -> (w: (u32, [u8; 512]))
    requires
        handed_over(handler, addr, blocks),
        addr + blocks.len() <= 0x1_0000_0000,
        0 <= j < blocks.len(),
    ensures
        w.0 == addr + j,
        w.1@ == blocks[j],
        call_ensures(handler, (w.0, &w.1), ()),
{
    let a = (addr + j) as u32;
    let b = choose|b: [u8; 512]| b@ == blocks[j] && #[trigger] call_ensures(handler, (a, &b), ());
    assert(handed(handler, a, blocks[j]));
    (a, b)
}

/// A sink that has taken nothing yet.
pub proof fn lemma_took_nothing<S: BlockSink>(s: S, addr: u32)
    ensures
        took(s, s, addr, Seq::empty()),
{
    assert(s.taken() + numbered(addr, Seq::empty()) =~= s.taken());
}

/// A sink that takes one block more.
pub proof fn lemma_took_one_more<S: BlockSink>(
    before: S,
    mid: S,
    after: S,
    addr: u32,
    blocks: Seq<Seq<u8>>,
    data: Seq<u8>,
)
    requires
        took(before, mid, addr, blocks),
        after.taken() == mid.taken().push(((addr + blocks.len()) as u32, data)),
        after.keeps((addr + blocks.len()) as u32, data),
        forall|a: u32| #[trigger] after.ready(a) == mid.ready(a),
        forall|a: u32, d: Seq<u8>| #[trigger] after.keeps(a, d) == mid.keeps(a, d),
    ensures
        took(before, after, addr, blocks.push(data)),
{
    let more = blocks.push(data);
    lemma_numbered_push(addr, blocks, data);
    assert(after.taken() =~= before.taken() + numbered(addr, more));
    assert forall|j: int| #![trigger more[j]] 0 <= j < more.len() implies before.keeps(
        (addr + j) as u32,
        more[j],
    ) by {
        if j < blocks.len() {
            assert(more[j] == blocks[j]);
        } else {
            assert(after.keeps((addr + j) as u32, data) == mid.keeps((addr + j) as u32, data));
        }
    }
    assert forall|a: u32| #[trigger] after.ready(a) == before.ready(a) by {
        assert(after.ready(a) == mid.ready(a));
    }
    assert forall|a: u32, d: Seq<u8>| #[trigger] after.keeps(a, d) == before.keeps(a, d) by {
        assert(after.keeps(a, d) == mid.keeps(a, d));
    }
}

/// A block that holds `data` was handed to the handler under the address `addr`.
pub open spec fn handed<F: FnMut(u32, &[u8; 512])>(handler: F, addr: u32, data: Seq<u8>) -> bool {
    exists|b: [u8; 512]| b@ == data && #[trigger] call_ensures(handler, (addr, &b), ())
}

/// Every block was handed to the handler under its address.
pub open spec fn handed_over<F: FnMut(u32, &[u8; 512])>(
    handler: F,
    addr: u32,
    blocks: Seq<Seq<u8>>,
) -> bool {
    forall|j: int|
        #![trigger blocks[j]]
        0 <= j < blocks.len() ==> handed(handler, (addr + j) as u32, blocks[j])
}

/// A sink that hands each block to a closure.
///
/// Taking a block calls the closure once. What is recorded of the call is the
/// block, not what the closure does to the variables that it captures.
pub struct HandlerSink<F: FnMut(u32, &[u8; 512])> {
    handler: F,
    log: Ghost<Seq<(u32, Seq<u8>)>>,
}

impl<F: FnMut(u32, &[u8; 512])> HandlerSink<F> {
    /// The closure that gets the blocks.
    pub closed spec fn to(self) -> F {
        self.handler
    }

    pub fn new(handler: F) -> (s: Self)
        ensures
            s.to() == handler,
            s.taken() == Seq::<(u32, Seq<u8>)>::empty(),
            forall|a: u32|
                (forall|b: &[u8; 512]| call_requires(handler, (a, b))) ==> #[trigger] s.ready(a),
            forall|a: u32, d: Seq<u8>| #[trigger] s.keeps(a, d) == handed(handler, a, d),
    {
        HandlerSink { handler, log: Ghost(Seq::empty()) }
    }
}

impl<F: FnMut(u32, &[u8; 512])> BlockSink for HandlerSink<F> {
    closed spec fn taken(&self) -> Seq<(u32, Seq<u8>)> {
        self.log@
    }

    closed spec fn ready(&self, addr: u32) -> bool {
        forall|b: &[u8; 512]| call_requires(self.handler, (addr, b))
    }

    closed spec fn keeps(&self, addr: u32, data: Seq<u8>) -> bool {
        handed(self.handler, addr, data)
    }

    fn take(&mut self, addr: u32, block: &[u8; 512]) {
        (self.handler)(addr, block);
        self.log = Ghost(self.log@.push((addr, block@)));
    }
}

} // verus!
