use vstd::prelude::*;
use crate::key::{Key, zero_key};

verus! {

/// Number of slots in the crank ring.
pub const CRANK_SIZE: u16 = 4096;

/// A payment owed to a maker: `quantity` out of `vault` into `token_acc`.
#[derive(Clone, Copy, Debug)]
pub struct Crank {
    /// Maker.
    pub maker: Key,
    /// Vault to pay out of.
    pub vault: Key,
    /// Token account to pay into.
    pub token_acc: Key,
    /// Amount to pay.
    pub quantity: u64,
}

/// The crank that `Crank::new` builds.
pub open spec fn crank_of(maker: Key, vault: Key, token_acc: Key, quantity: u64) -> Crank {
    Crank { maker, vault, token_acc, quantity }
}

/// The crank an insertion records: for a buy the amount is the quantity plus
/// the limit, for a sell the quantity.
pub open spec fn crank_for(
    vault: Key,
    token_account: Key,
    is_buy: bool,
    maker: Key,
    quantity: u64,
    limit: u64,
) -> Crank {
    crank_of(maker, vault, token_account, if is_buy { (quantity + limit) as u64 } else { quantity })
}

/// The empty crank.
pub open spec fn empty_crank() -> Crank {
    crank_of(zero_key(), zero_key(), zero_key(), 0)
}

/// The contents of a crank ring: its slots, the first pending slot and the
/// slot the next crank goes to.
pub ghost struct CrankRing {
    pub cranks: Seq<Crank>,
    pub head: int,
    pub next: int,
}

/// Number of cranks that can still be inserted before `next` runs into `head`.
pub open spec fn ring_room(r: CrankRing) -> int {
    (r.head - r.next) % (CRANK_SIZE as int)
}

/// The pending cranks, oldest first: the slots from `head` up to (not
/// including) `next`, going round the ring.
pub open spec fn pending(r: CrankRing) -> Seq<Crank> {
    Seq::new(
        ((r.next - r.head) % (CRANK_SIZE as int)) as nat,
        |i: int| r.cranks[(r.head + i) % (CRANK_SIZE as int)],
    )
}

/// The ring after `c` was inserted.
pub open spec fn ring_push(r: CrankRing, c: Crank) -> CrankRing {
    CrankRing { cranks: r.cranks.update(r.next, c), head: r.head, next: (r.next + 1) % (CRANK_SIZE as int) }
}

/// The ring after the cranks of `cs` were inserted, first to last.
pub open spec fn ring_push_all(r: CrankRing, cs: Seq<Crank>) -> CrankRing
    decreases cs.len(),
{
    if cs.len() == 0 {
        r
    } else {
        ring_push_all(ring_push(r, cs[0]), cs.drop_first())
    }
}

pub proof fn lemma_ring_push_all_push(r: CrankRing, cs: Seq<Crank>, c: Crank)
    ensures
        ring_push_all(r, cs.push(c)) == ring_push(ring_push_all(r, cs), c),
    decreases cs.len(),
{
    assert(cs.push(c)[0] == (if cs.len() == 0 { c } else { cs[0] }));
    if cs.len() == 0 {
        assert(cs.push(c).drop_first() =~= Seq::<Crank>::empty());
        assert(ring_push_all(r, cs) == r);
        assert(ring_push_all(ring_push(r, c), Seq::<Crank>::empty()) == ring_push(r, c));
    } else {
        assert(cs.push(c).drop_first() =~= cs.drop_first().push(c));
        lemma_ring_push_all_push(ring_push(r, cs[0]), cs.drop_first(), c);
    }
}

/// The head and next slot of a ring lie inside its slots.
pub open spec fn ring_ok(r: CrankRing) -> bool {
    &&& r.cranks.len() == CRANK_SIZE as int
    &&& 0 <= r.head < CRANK_SIZE as int
    &&& 0 <= r.next < CRANK_SIZE as int
}

/// Inserting into a ring with room for more than one crank queues the crank
/// behind the pending ones.
pub proof fn lemma_push_pending(r: CrankRing, c: Crank)
    requires
        ring_ok(r),
        ring_room(r) > 1,
    ensures
        ring_ok(ring_push(r, c)),
        pending(ring_push(r, c)) == pending(r).push(c),
        ring_room(ring_push(r, c)) == ring_room(r) - 1,
{
    let n = CRANK_SIZE as int;
    let r1 = ring_push(r, c);
    let p0 = pending(r);
    let p1 = pending(r1);
    let len0 = (r.next - r.head) % n;
    assert(p1.len() == len0 + 1);
    assert forall|i: int| 0 <= i < p1.len() implies #[trigger] p1[i] == p0.push(c)[i] by {
        if i < len0 {
            assert((r.head + i) % n != r.next);
        }
    }
    assert(p1 =~= p0.push(c));
}

/// Law: the crank ring is a first-in-first-out queue. Cranks inserted into a
/// ring with room for all of them wait, in the order they came, behind the
/// ones already pending; taking the head (`remove_head`) hands out the
/// oldest.
pub proof fn law_crank_fifo(r: CrankRing, cs: Seq<Crank>)
    requires
        ring_ok(r),
        ring_room(r) > cs.len(),
    ensures
        pending(ring_push_all(r, cs)) == pending(r) + cs,
    decreases cs.len(),
{
    if cs.len() == 0 {
        assert(pending(r) + cs =~= pending(r));
    } else {
        lemma_push_pending(r, cs[0]);
        law_crank_fifo(ring_push(r, cs[0]), cs.drop_first());
        assert(pending(r).push(cs[0]) + cs.drop_first() =~= pending(r) + cs);
    }
}

/// Inserting the cranks of `cs` one after the other writes `cs[i]` into the
/// slot `i` places after `next`, going round the ring, and leaves every
/// other slot as it was.
pub proof fn lemma_ring_push_all_slots(r: CrankRing, cs: Seq<Crank>)
    requires
        r.cranks.len() == CRANK_SIZE as int,
        0 <= r.next < CRANK_SIZE as int,
        cs.len() < CRANK_SIZE as int,
    ensures
        ring_push_all(r, cs).cranks.len() == CRANK_SIZE as int,
        ring_push_all(r, cs).head == r.head,
        ring_push_all(r, cs).next == (r.next + cs.len()) % (CRANK_SIZE as int),
        forall|i: int|
            0 <= i < cs.len() ==> #[trigger] ring_push_all(r, cs).cranks[(r.next + i) % (CRANK_SIZE as int)]
                == cs[i],
        forall|j: int|
            0 <= j < CRANK_SIZE as int && (j - r.next) % (CRANK_SIZE as int) >= cs.len()
                ==> #[trigger] ring_push_all(r, cs).cranks[j] == r.cranks[j],
    decreases cs.len(),
{
    let n = CRANK_SIZE as int;
    if cs.len() > 0 {
        let r1 = ring_push(r, cs[0]);
        let rest = cs.drop_first();
        lemma_ring_push_all_slots(r1, rest);
        let out = ring_push_all(r, cs);
        assert(out == ring_push_all(r1, rest));
        assert(r1.next == (r.next + 1) % n);
        assert forall|i: int| 0 <= i < cs.len() implies #[trigger] out.cranks[(r.next + i) % n] == cs[i] by {
            if i == 0 {
                assert(r.next % n == r.next);
                assert((r.next - r1.next) % n == n - 1);
            } else {
                assert((r1.next + (i - 1)) % n == (r.next + i) % n);
                assert(rest[i - 1] == cs[i]);
            }
        }
        assert forall|j: int| 0 <= j < n && (j - r.next) % n >= cs.len() implies #[trigger] out.cranks[j]
            == r.cranks[j] by {
            assert(j != r.next);
            assert((j - r1.next) % n == (j - r.next) % n - 1);
        }
    }
}

/// Ring Buffer Crank. Fifo, first-in-first-out.
pub struct RingBufferCrank {
    /// Instrument group the crank ring belongs to.
    pub instrmt_grp: Key,
    pub cranks: [Crank; 4096],
    /// First element inserted.
    pub head: u16,
    /// Next available element.
    pub next: u16,
}

impl View for RingBufferCrank {
    type V = CrankRing;

    open spec fn view(&self) -> CrankRing {
        CrankRing { cranks: self.cranks@, head: self.head as int, next: self.next as int }
    }
}

impl RingBufferCrank {
    pub open spec fn wf(&self) -> bool {
        self.head < CRANK_SIZE && self.next < CRANK_SIZE
    }

    /// A ring whose only pending entry is the empty crank in slot 0.
    pub fn new() -> (r: RingBufferCrank)
        ensures
            r.wf(),
            r.instrmt_grp == zero_key(),
            r.head == 0,
            r.next == 1,
            forall|i: int| 0 <= i < 4096 ==> #[trigger] r.cranks@[i] == empty_crank(),
    {
        RingBufferCrank {
            instrmt_grp: Key::zero(),
            cranks: [Crank::new_empty(); 4096],
            next: 1,
            head: 0,
        }
    }

    /// Records a payment at the next slot; the ring must have room for it
    /// (a full ring is an error of the caller: it must crank first).
    pub fn insert(
        &mut self,
        vault: Key,
        token_account: Key,
        is_buy: bool,
        maker: Key,
        quantity: u64,
        limit: u64,
    )
        requires
            old(self).wf(),
            ring_room(old(self)@) > 0,
            is_buy ==> quantity + limit <= u64::MAX,
        ensures
            final(self).wf(),
            final(self).instrmt_grp == old(self).instrmt_grp,
            final(self)@ == ring_push(old(self)@, crank_for(vault, token_account, is_buy, maker, quantity, limit)),
            ring_room(final(self)@) == ring_room(old(self)@) - 1,
            ring_room(old(self)@) > 1 ==> pending(final(self)@) == pending(old(self)@).push(
                crank_for(vault, token_account, is_buy, maker, quantity, limit),
            ),
    {
        let crank = if is_buy {
            Crank::new(maker, vault, token_account, quantity + limit)
        } else {
            Crank::new(maker, vault, token_account, quantity)
        };
        let ghost old_ring = self@;
        self.cranks[self.next as usize] = crank;
        self.next = (self.next + 1) % CRANK_SIZE;
        proof {
            if ring_room(old_ring) > 1 {
                lemma_push_pending(old_ring, crank);
            }
        }
    }

    /// Takes the crank at the head of the ring, clears its slot and moves the
    /// head on, wrapping round after the last slot.
    pub fn remove_head(&mut self) -> (c: Crank)
        requires
            old(self).wf(),
        ensures
            final(self).wf(),
            final(self).instrmt_grp == old(self).instrmt_grp,
            c == old(self).cranks@[old(self).head as int],
            final(self)@ == (CrankRing {
                cranks: old(self)@.cranks.update(old(self).head as int, empty_crank()),
                head: (old(self).head + 1) % (CRANK_SIZE as int),
                next: old(self).next as int,
            }),
            pending(old(self)@).len() > 0 ==> {
                &&& c == pending(old(self)@)[0]
                &&& pending(final(self)@) == pending(old(self)@).drop_first()
                &&& ring_room(final(self)@) == (ring_room(old(self)@) + 1) % (CRANK_SIZE as int)
            },
    {
        let ghost old_ring = self@;
        let head = self.cranks[self.head as usize];
        let mut cleared = head;
        cleared.clear();
        self.cranks[self.head as usize] = cleared;
        self.head = (self.head + 1) % CRANK_SIZE;
        proof {
            let n = CRANK_SIZE as int;
            let p0 = pending(old_ring);
            let p1 = pending(self@);
            if p0.len() > 0 {
                assert(p0[0] == head);
                assert forall|i: int| 0 <= i < p1.len() implies #[trigger] p1[i] == p0.drop_first()[i] by {
                    assert((old_ring.head + 1 + i) % n != old_ring.head);
                    assert((self.head + i) % n == (old_ring.head + (i + 1)) % n);
                }
                assert(p1 =~= p0.drop_first());
            }
        }
        head
    }

    /// Account space of the ring.
    pub fn space() -> (r: usize)
        ensures
            r == 4096 * 72 + 1 + 7,
    {
        CRANK_SIZE as usize * Crank::space() + 1 + 7
    }
}

impl Crank {
    pub fn new_empty() -> (c: Crank)
        ensures
            c == empty_crank(),
    {
        Crank { maker: Key::zero(), vault: Key::zero(), token_acc: Key::zero(), quantity: 0 }
    }

    pub fn new(maker: Key, vault: Key, token_acc: Key, quantity: u64) -> (c: Crank)
        ensures
            c == crank_of(maker, vault, token_acc, quantity),
    {
        Crank { maker, vault, quantity, token_acc }
    }

    pub fn is_empty(&self) -> (r: bool)
        ensures
            r == (self.quantity == 0),
    {
        self.quantity == 0
    }

    pub fn get_maker(&self) -> (r: Key)
        ensures
            r == self.maker,
    {
        self.maker
    }

    pub fn get_token_account(&self) -> (r: Key)
        ensures
            r == self.token_acc,
    {
        self.token_acc
    }

    pub fn get_vault(&self) -> (r: Key)
        ensures
            r == self.vault,
    {
        self.vault
    }

    pub fn get_quantity(&self) -> (r: u64)
        ensures
            r == self.quantity,
    {
        self.quantity
    }

    pub fn clear(&mut self)
        ensures
            *final(self) == empty_crank(),
    {
        self.maker = Key::zero();
        self.vault = Key::zero();
        self.token_acc = Key::zero();
        self.quantity = 0;
    }

    /// Account space of one crank.
    pub fn space() -> (r: usize)
        ensures
            r == 72,
    {
        32 * 2 + 8
    }
}

} // verus!
